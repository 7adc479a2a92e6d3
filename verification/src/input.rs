//! Decides whether a typed line is a whole command.

use vstd::prelude::*;
use vstd::std_specs::iter::IteratorSpec;
use vstd::utf8::{encode_utf8, encode_utf8_first_scalar};

verus! {

/// What keeps a command open, or that nothing does.
#[derive(Debug, Clone, Copy, Hash, PartialEq, Eq, PartialOrd, Ord, Structural)]
pub enum CommandCompleteness {
    OpenDoubleQuote,
    OpenSingleQuote,
    OpenParens,
    OpenBraces,
    OpenBracket,
    Backslash,
    Complete,
}

impl CommandCompleteness {
    /// The prompt in front of the next line: `$ ` for a new command, else a
    /// word for what the command still waits for.
    pub open spec fn prompt_text(self) -> Seq<char> {
        match self {
            CommandCompleteness::Complete => "$ "@,
            CommandCompleteness::OpenDoubleQuote => "(dquote)> "@,
            CommandCompleteness::OpenSingleQuote => "(quote)> "@,
            CommandCompleteness::OpenParens => "(paren)> "@,
            CommandCompleteness::OpenBraces => "(brace)> "@,
            CommandCompleteness::OpenBracket => "(bracket)> "@,
            CommandCompleteness::Backslash => "> "@,
        }
    }

    /// The prompt to show in front of the next line.
    pub fn prompt(&self) -> (text: &'static str)
        ensures
            text@ == self.prompt_text(),
    {
        match self {
            CommandCompleteness::Complete => "$ ",
            CommandCompleteness::OpenDoubleQuote => "(dquote)> ",
            CommandCompleteness::OpenSingleQuote => "(quote)> ",
            CommandCompleteness::OpenParens => "(paren)> ",
            CommandCompleteness::OpenBraces => "(brace)> ",
            CommandCompleteness::OpenBracket => "(bracket)> ",
            CommandCompleteness::Backslash => "> ",
        }
    }
}

/// One read from the terminal: a line, or the end of the input.
pub enum LineInput {
    Line(String),
    Eof,
}

/// The quotes and brackets that stand open at one place of a text.
pub struct Nesting {
    pub in_single_quote: bool,
    pub in_double_quote: bool,
    pub parens: nat,
    pub braces: nat,
    pub brackets: nat,
}

impl Nesting {
    /// Nothing stands open.
    pub open spec fn closed() -> Nesting {
        Nesting {
            in_single_quote: false,
            in_double_quote: false,
            parens: 0,
            braces: 0,
            brackets: 0,
        }
    }

    /// The nesting behind the character `ch`, which no backslash precedes.
    /// A quote opens or closes unless it stands inside the other kind of
    /// quote; brackets count outside quotes only, and a closing bracket
    /// without an open one is passed over.
    pub open spec fn after(self, ch: char) -> Nesting {
        let quoted = self.in_single_quote || self.in_double_quote;
        if ch == '\'' && !self.in_double_quote {
            Nesting { in_single_quote: !self.in_single_quote, ..self }
        } else if ch == '"' && !self.in_single_quote {
            Nesting { in_double_quote: !self.in_double_quote, ..self }
        } else if ch == '(' && !quoted {
            Nesting { parens: self.parens + 1, ..self }
        } else if ch == ')' && !quoted && self.parens > 0 {
            Nesting { parens: (self.parens - 1) as nat, ..self }
        } else if ch == '{' && !quoted {
            Nesting { braces: self.braces + 1, ..self }
        } else if ch == '}' && !quoted && self.braces > 0 {
            Nesting { braces: (self.braces - 1) as nat, ..self }
        } else if ch == '[' && !quoted {
            Nesting { brackets: self.brackets + 1, ..self }
        } else if ch == ']' && !quoted && self.brackets > 0 {
            Nesting { brackets: (self.brackets - 1) as nat, ..self }
        } else {
            self
        }
    }

    /// What a text that ends in this nesting still waits for. Of several
    /// open things the first of single quote, double quote, parenthesis,
    /// brace and bracket is named.
    pub open spec fn verdict(self) -> CommandCompleteness {
        if self.in_single_quote {
            CommandCompleteness::OpenSingleQuote
        } else if self.in_double_quote {
            CommandCompleteness::OpenDoubleQuote
        } else if self.parens > 0 {
            CommandCompleteness::OpenParens
        } else if self.braces > 0 {
            CommandCompleteness::OpenBraces
        } else if self.brackets > 0 {
            CommandCompleteness::OpenBracket
        } else {
            CommandCompleteness::Complete
        }
    }
}

/// The index behind the line break that follows the backslash at `at`, if a
/// line break follows it: `\n`, `\r` or `\r\n`.
pub open spec fn after_line_break(text: Seq<char>, at: int) -> Option<int> {
    if at + 1 < text.len() && text[at + 1] == '\n' {
        Some(at + 2)
    } else if at + 1 < text.len() && text[at + 1] == '\r' {
        if at + 2 < text.len() && text[at + 2] == '\n' {
            Some(at + 3)
        } else {
            Some(at + 2)
        }
    } else {
        None
    }
}

/// The completeness of `text`, scanned from `at` on with `nesting` open.
/// A backslash takes the next character with it, whatever it is and whether
/// quoted or not. A backslash at the very end, or in front of a line break
/// that ends the text, asks for another line.
pub open spec fn scan(text: Seq<char>, at: int, nesting: Nesting) -> CommandCompleteness
    decreases text.len() - at,
{
    if at < 0 || at >= text.len() {
        nesting.verdict()
    } else if text[at] == '\\' {
        if at + 1 >= text.len() {
            CommandCompleteness::Backslash
        } else {
            match after_line_break(text, at) {
                Some(next) => if next >= text.len() {
                    CommandCompleteness::Backslash
                } else {
                    scan(text, next, nesting)
                },
                None => scan(text, at + 2, nesting),
            }
        }
    } else {
        scan(text, at + 1, nesting.after(text[at]))
    }
}

/// The completeness of a whole text.
pub open spec fn completeness(text: Seq<char>) -> CommandCompleteness {
    scan(text, 0, Nesting::closed())
}

/// A character that opens or closes nothing and takes nothing with it.
pub open spec fn is_plain(ch: char) -> bool {
    ch != '\'' && ch != '"' && ch != '(' && ch != ')' && ch != '{' && ch != '}' && ch != '['
        && ch != ']' && ch != '\\'
}

/// A text without quotes, brackets and backslashes is a whole command.
pub proof fn lemma_plain_text_is_complete(text: Seq<char>)
    requires
        forall|i: int| 0 <= i < text.len() ==> is_plain(#[trigger] text[i]),
    ensures
        completeness(text) == CommandCompleteness::Complete,
{
    lemma_plain_rest_changes_nothing(text, 0, Nesting::closed());
}

/// Plain characters leave every verdict as it is.
pub proof fn lemma_plain_rest_changes_nothing(text: Seq<char>, at: int, nesting: Nesting)
    requires
        0 <= at,
        forall|i: int| at <= i < text.len() ==> is_plain(#[trigger] text[i]),
    ensures
        scan(text, at, nesting) == nesting.verdict(),
    decreases text.len() - at,
{
    if at < text.len() {
        assert(is_plain(text[at]));
        lemma_plain_rest_changes_nothing(text, at + 1, nesting);
    }
}

/// A text that ends in a backslash which no backslash takes with it waits
/// for another line, whatever stands open.
pub proof fn lemma_lone_backslash_continues(text: Seq<char>)
    requires
        forall|i: int| 0 <= i < text.len() ==> (#[trigger] text[i]) != '\\',
    ensures
        completeness(text.push('\\')) == CommandCompleteness::Backslash,
{
    lemma_backslash_behind(text, 0, Nesting::closed());
}

/// A backslash behind text without backslashes is the last thing scanned.
proof fn lemma_backslash_behind(text: Seq<char>, at: int, nesting: Nesting)
    requires
        0 <= at <= text.len(),
        forall|i: int| at <= i < text.len() ==> (#[trigger] text[i]) != '\\',
    ensures
        scan(text.push('\\'), at, nesting) == CommandCompleteness::Backslash,
    decreases text.len() - at,
{
    let whole = text.push('\\');
    if at < text.len() {
        assert(whole[at] == text[at]);
        lemma_backslash_behind(text, at + 1, nesting.after(text[at]));
    }
}

/// A text has at most as many characters as bytes.
pub proof fn lemma_chars_fit_bytes(chars: Seq<char>)
    ensures
        chars.len() <= encode_utf8(chars).len(),
    decreases chars.len(),
{
    if chars.len() > 0 {
        encode_utf8_first_scalar(chars);
        lemma_chars_fit_bytes(chars.drop_first());
    }
}

/// Says what, if anything, keeps the command in `text` open: a quote, a
/// bracket, or a backslash at the end of the last line.
pub fn determine_command_completeness(text: &str) -> (c: CommandCompleteness)
    ensures
        c == completeness(text@),
{
    let mut in_single_quote = false;
    let mut in_double_quote = false;
    let mut parens: usize = 0;
    let mut braces: usize = 0;
    let mut brackets: usize = 0;

    let limit: usize = text.as_bytes().len();
    proof {
        lemma_chars_fit_bytes(text@);
    }
    let ghost chars = text@;
    let ghost mut at: int = 0;
    let ghost mut nesting = Nesting::closed();
    let mut iter = text.chars();
    let mut peeked: Option<char> = None;
    loop
        invariant
            chars == text@,
            chars.len() <= limit,
            0 <= at <= chars.len(),
            peeked matches Some(c) ==> at < chars.len() && c == chars[at],
            iter.remaining() == chars.subrange(
                if peeked is Some {
                    at + 1
                } else {
                    at
                },
                chars.len() as int,
            ),
            nesting == (Nesting {
                in_single_quote,
                in_double_quote,
                parens: parens as nat,
                braces: braces as nat,
                brackets: brackets as nat,
            }),
            parens <= at,
            braces <= at,
            brackets <= at,
            completeness(chars) == scan(chars, at, nesting),
        ensures
            at == chars.len(),
        decreases chars.len() - at,
    {
        let next = match peeked {
            Some(c) => Some(c),
            None => iter.next(),
        };
        peeked = None;
        let ch = match next {
            Some(c) => c,
            None => {
                break ;
            },
        };
        let quoted = in_single_quote || in_double_quote;
        if ch == '\'' && !in_double_quote {
            in_single_quote = !in_single_quote;
        } else if ch == '"' && !in_single_quote {
            in_double_quote = !in_double_quote;
        } else if ch == '(' && !quoted {
            parens += 1;
        } else if ch == ')' && !quoted && parens > 0 {
            parens -= 1;
        } else if ch == '{' && !quoted {
            braces += 1;
        } else if ch == '}' && !quoted && braces > 0 {
            braces -= 1;
        } else if ch == '[' && !quoted {
            brackets += 1;
        } else if ch == ']' && !quoted && brackets > 0 {
            brackets -= 1;
        } else if ch == '\\' {
            match iter.next() {
                Some('\n') => {
                    peeked = iter.next();
                    if peeked.is_none() {
                        return CommandCompleteness::Backslash;
                    }
                    proof {
                        at = at + 1;
                    }
                },
                Some('\r') => {
                    peeked = iter.next();
                    proof {
                        at = at + 1;
                    }
                    if let Some('\n') = peeked {
                        peeked = iter.next();
                        proof {
                            at = at + 1;
                        }
                    }
                    if peeked.is_none() {
                        return CommandCompleteness::Backslash;
                    }
                },
                Some(_) => {
                    proof {
                        at = at + 1;
                    }
                },
                None => {
                    return CommandCompleteness::Backslash;
                },
            }
        }
        proof {
            if ch != '\\' {
                nesting = nesting.after(ch);
            }
            at = at + 1;
        }
    }

    if in_single_quote {
        return CommandCompleteness::OpenSingleQuote;
    }
    if in_double_quote {
        return CommandCompleteness::OpenDoubleQuote;
    }
    if parens > 0 {
        return CommandCompleteness::OpenParens;
    }
    if braces > 0 {
        return CommandCompleteness::OpenBraces;
    }
    if brackets > 0 {
        return CommandCompleteness::OpenBracket;
    }
    CommandCompleteness::Complete
}

} // verus!
