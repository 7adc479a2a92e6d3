//! An interactive command shell as a library: the lexer, the parser for the
//! command grammar, the job-control rules of the runner, and the scanner
//! that decides whether a typed line is a whole command.
//!
//! A line of text becomes tokens (`lexer`), the tokens become a command tree
//! (`parser`), and the tree becomes the steps that the shell takes to run it
//! (`runner`). Each function states what it returns, and the laws that hold
//! of all lines are proved beside them.

pub mod input;
pub mod lexer;
pub mod parser;
pub mod runner;
