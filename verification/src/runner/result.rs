//! Why a command tree could not be run.

use vstd::prelude::*;

verus! {

/// A failure of the system while the shell started or handled a process.
/// A program that cannot be found is none: the child that was to become the
/// program reports it and ends with the code 127.
#[derive(Debug, Clone, Copy, PartialEq, Eq, Structural)]
pub enum Error {
    /// The system call failed with this error number.
    Unix(i32),
}

} // verus!
