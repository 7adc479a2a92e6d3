//! Why a token stream is no command tree.

use crate::lexer::TokenKind;
use vstd::prelude::*;
use vstd::string::StringExecFns;

verus! {

/// A parse failure. Each one ends the parse: no partial tree is handed out.
#[derive(Debug, Clone, Copy, PartialEq, Eq, Structural)]
pub enum Error {
    /// A command was due and the input had ended.
    UnexpectedEof,
    /// A command was due and this token stood there, or an operand of `|`
    /// was more than a single command.
    ExpectedCommand(TokenKind),
    /// A token stood in operator position that is no operator.
    UnexpectedToken(TokenKind),
    /// A command without a single word.
    EmptyCommand,
}

/// The name of a token kind, as it stands in messages.
pub open spec fn kind_name(kind: TokenKind) -> Seq<char> {
    match kind {
        TokenKind::Atom => "Atom"@,
        TokenKind::Pipe => "Pipe"@,
        TokenKind::Semi => "Semi"@,
        TokenKind::Ampersand => "Ampersand"@,
        TokenKind::Eof => "Eof"@,
    }
}

impl Error {
    /// The failure in words.
    pub open spec fn message_text(self) -> Seq<char> {
        match self {
            Error::UnexpectedEof => "Unexpected end of input"@,
            Error::ExpectedCommand(kind) => "Expected command, found "@ + kind_name(kind),
            Error::UnexpectedToken(kind) => "Unexpected token: "@ + kind_name(kind),
            Error::EmptyCommand => "Empty command"@,
        }
    }

    /// The failure in words, for the user.
    pub fn message(&self) -> (text: String)
        ensures
            text@ == self.message_text(),
    {
        match self {
            Error::UnexpectedEof => String::from_str("Unexpected end of input"),
            Error::ExpectedCommand(kind) => {
                let mut text = String::from_str("Expected command, found ");
                text.append(name_of(*kind));
                text
            },
            Error::UnexpectedToken(kind) => {
                let mut text = String::from_str("Unexpected token: ");
                text.append(name_of(*kind));
                text
            },
            Error::EmptyCommand => String::from_str("Empty command"),
        }
    }
}

/// The name of a token kind, as it stands in messages.
fn name_of(kind: TokenKind) -> (name: &'static str)
    ensures
        name@ == kind_name(kind),
{
    match kind {
        TokenKind::Atom => "Atom",
        TokenKind::Pipe => "Pipe",
        TokenKind::Semi => "Semi",
        TokenKind::Ampersand => "Ampersand",
        TokenKind::Eof => "Eof",
    }
}

} // verus!
