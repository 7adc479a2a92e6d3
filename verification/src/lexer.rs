//! Splits a command line into atoms and operators.

pub mod laws;
pub mod token;

pub use token::{tokens_fit, BytePos, IntoSpan, Span, Token, TokenKind, TokenStream};

use vstd::prelude::*;
use vstd::string::StringSliceAdditionalSpecFns;
use vstd::utf8::*;

verus! {

/// The blank.
pub const SPACE: u8 = 0x20;

/// The tabulator.
pub const TAB: u8 = 0x09;

/// The line feed.
pub const LINE_FEED: u8 = 0x0a;

/// The carriage return.
pub const CARRIAGE_RETURN: u8 = 0x0d;

/// `|`, which joins the commands of a pipeline.
pub const PIPE: u8 = 0x7c;

/// `;`, which joins the items of a sequence.
pub const SEMICOLON: u8 = 0x3b;

/// `&`, which sends what stands in front of it to the background.
pub const AMPERSAND: u8 = 0x26;

/// Blank, tab, line feed and carriage return separate tokens and are
/// otherwise skipped.
pub open spec fn is_space_byte(b: u8) -> bool {
    b == SPACE || b == TAB || b == LINE_FEED || b == CARRIAGE_RETURN
}

/// A delimiter ends an atom: white space, `|`, `;` and `&`.
pub open spec fn is_delimiter_byte(b: u8) -> bool {
    is_space_byte(b) || b == PIPE || b == SEMICOLON || b == AMPERSAND
}

/// The span of the operator read at `pos`: operators are placed, not measured.
pub open spec fn point(pos: int) -> Span {
    Span { start: BytePos(pos as usize), end: BytePos(pos as usize) }
}

/// The span `[start, end)`.
pub open spec fn range(start: int, end: int) -> Span {
    Span { start: BytePos(start as usize), end: BytePos(end as usize) }
}

/// The first position at or after `start` that holds a delimiter, or the
/// length of the text if there is none: where an atom that covers `start` ends.
pub open spec fn atom_end(bytes: Seq<u8>, start: int) -> int
    decreases bytes.len() - start,
{
    if start < 0 || start >= bytes.len() {
        bytes.len() as int
    } else if is_delimiter_byte(bytes[start]) {
        start
    } else {
        atom_end(bytes, start + 1)
    }
}

/// The atom that covers `start` ends in the text, behind `start` unless a
/// delimiter stands there, and holds no delimiter.
pub proof fn lemma_atom_end(bytes: Seq<u8>, start: int)
    requires
        0 <= start <= bytes.len(),
    ensures
        start <= atom_end(bytes, start) <= bytes.len(),
        start < bytes.len() && !is_delimiter_byte(bytes[start]) ==> start < atom_end(bytes, start),
        atom_end(bytes, start) < bytes.len() ==> is_delimiter_byte(bytes[atom_end(bytes, start)]),
        forall|i: int| start <= i < atom_end(bytes, start) ==> !is_delimiter_byte(#[trigger] bytes[i]),
    decreases bytes.len() - start,
{
    if start < bytes.len() && !is_delimiter_byte(bytes[start]) {
        lemma_atom_end(bytes, start + 1);
    }
}

/// The tokens of `bytes` from `pos` on, without the closing end-of-input
/// token. White space is skipped, each operator byte gives its token, and any
/// other byte starts an atom that runs up to the next delimiter.
pub open spec fn lex_from(bytes: Seq<u8>, pos: int) -> Seq<Token>
    decreases bytes.len() - pos,
{
    if pos < 0 || pos >= bytes.len() {
        Seq::empty()
    } else if is_space_byte(bytes[pos]) {
        lex_from(bytes, pos + 1)
    } else if bytes[pos] == PIPE {
        seq![Token(TokenKind::Pipe, point(pos))] + lex_from(bytes, pos + 1)
    } else if bytes[pos] == SEMICOLON {
        seq![Token(TokenKind::Semi, point(pos))] + lex_from(bytes, pos + 1)
    } else if bytes[pos] == AMPERSAND {
        seq![Token(TokenKind::Ampersand, point(pos))] + lex_from(bytes, pos + 1)
    } else {
        proof {
            lemma_atom_end(bytes, pos);
        }
        seq![Token(TokenKind::Atom, range(pos, atom_end(bytes, pos)))] + lex_from(
            bytes,
            atom_end(bytes, pos),
        )
    }
}

/// What the lexer hands out for a text of which it has read `pos` bytes: for
/// the empty text nothing at all, else the tokens from `pos` on and the
/// end-of-input token behind them.
pub open spec fn lex_spec(bytes: Seq<u8>, pos: int) -> Seq<Token> {
    if bytes.len() == 0 {
        Seq::empty()
    } else {
        lex_from(bytes, pos).push(Token(TokenKind::Eof, point(bytes.len() as int)))
    }
}

/// The character boundary behind the character that starts at the boundary
/// `index` is a boundary too.
pub proof fn lemma_next_boundary(bytes: Seq<u8>, index: int)
    requires
        valid_utf8(bytes),
        0 <= index < bytes.len(),
        is_char_boundary(bytes, index),
    ensures
        valid_first_scalar(bytes.subrange(index, bytes.len() as int)),
        index + length_of_first_scalar(bytes.subrange(index, bytes.len() as int)) <= bytes.len(),
        is_char_boundary(
            bytes,
            index + length_of_first_scalar(bytes.subrange(index, bytes.len() as int)),
        ),
    decreases bytes.len(),
{
    reveal_with_fuel(is_char_boundary, 2);
    let rest = pop_first_scalar(bytes);
    let first = length_of_first_scalar(bytes);
    if index == 0 {
        assert(bytes.subrange(0, bytes.len() as int) =~= bytes);
    } else {
        lemma_next_boundary(rest, index - first);
        assert(rest.subrange(index - first, rest.len() as int) =~= bytes.subrange(
            index,
            bytes.len() as int,
        ));
    }
}

/// Behind a one-byte character that stands at a boundary lies a boundary.
pub proof fn lemma_boundary_after_ascii(bytes: Seq<u8>, index: int)
    requires
        valid_utf8(bytes),
        0 <= index < bytes.len(),
        is_char_boundary(bytes, index),
        bytes[index] <= 0x7f,
    ensures
        is_char_boundary(bytes, index + 1),
{
    lemma_next_boundary(bytes, index);
}

/// Reads the tokens of one source text.
#[derive(Debug)]
pub struct Lexer<'src> {
    source: &'src str,
    cursor: usize,
}

impl<'src> Lexer<'src> {
    #[verifier::type_invariant]
    spec fn inv(self) -> bool {
        &&& self.cursor <= self.source.spec_bytes().len()
        &&& is_char_boundary(self.source.spec_bytes(), self.cursor as int)
    }

    /// The bytes of the text that is read.
    pub closed spec fn bytes(self) -> Seq<u8> {
        self.source.spec_bytes()
    }

    /// How many bytes of the text have been read.
    pub closed spec fn position(self) -> int {
        self.cursor as int
    }

    /// A lexer that has read nothing of `source` yet.
    pub fn new(source: &'src str) -> (lexer: Self)
        ensures
            lexer.bytes() == source.spec_bytes(),
            lexer.position() == 0,
    {
        proof {
            encode_utf8_valid_utf8(source@);
            is_char_boundary_start_end_of_seq(source.spec_bytes());
        }
        Self { source, cursor: 0 }
    }

    /// Reads what is left of the text. An empty text gives an empty stream;
    /// any other text gives its tokens and, behind them, the end-of-input
    /// token. Every span fits the text, so it can be sliced out of it.
    pub fn lex(&mut self) -> (stream: TokenStream)
        ensures
            stream.tokens() == lex_spec(old(self).bytes(), old(self).position()),
            stream.position() == 0,
            stream.eof() == BytePos(old(self).bytes().len() as usize),
            tokens_fit(stream.tokens(), old(self).bytes()),
            final(self).bytes() == old(self).bytes(),
            final(self).position() == old(self).bytes().len(),
    {
        proof {
            use_type_invariant(&*self);
            encode_utf8_valid_utf8(self.source@);
            is_char_boundary_start_end_of_seq(self.source.spec_bytes());
        }
        let bytes = self.source.as_bytes();
        let len: usize = bytes.len();
        let mut tokens: Vec<Token> = Vec::new();
        if len == 0 {
            return TokenStream::new(tokens, len);
        }
        let ghost start = self.cursor as int;
        let mut pos: usize = self.cursor;
        while pos < len
            invariant
                len == bytes@.len(),
                valid_utf8(bytes@),
                0 <= start <= pos <= len,
                is_char_boundary(bytes@, pos as int),
                is_char_boundary(bytes@, len as int),
                tokens@ + lex_from(bytes@, pos as int) == lex_from(bytes@, start),
                tokens_fit(tokens@, bytes@),
            decreases len - pos,
        {
            let byte = bytes[pos];
            let ghost before = tokens@;
            if is_space(byte) {
                proof {
                    lemma_boundary_after_ascii(bytes@, pos as int);
                }
                pos += 1;
            } else if byte == PIPE || byte == SEMICOLON || byte == AMPERSAND {
                let kind = if byte == PIPE {
                    TokenKind::Pipe
                } else if byte == SEMICOLON {
                    TokenKind::Semi
                } else {
                    TokenKind::Ampersand
                };
                tokens.push(kind.into_token(pos));
                proof {
                    lemma_boundary_after_ascii(bytes@, pos as int);
                    assert(tokens@ + lex_from(bytes@, pos + 1) =~= before + lex_from(
                        bytes@,
                        pos as int,
                    ));
                }
                pos += 1;
            } else {
                let atom = take_atom(bytes, pos);
                tokens.push(atom);
                proof {
                    lemma_atom_end(bytes@, pos as int);
                    assert(tokens@ + lex_from(bytes@, atom.1.end.0 as int) =~= before + lex_from(
                        bytes@,
                        pos as int,
                    ));
                }
                pos = atom.1.end.0;
            }
        }
        tokens.push(self.eof());
        self.cursor = len;
        proof {
            assert(tokens@ =~= lex_spec(bytes@, start));
        }
        TokenStream::new(tokens, len)
    }

    /// The end-of-input token of the text.
    fn eof(&self) -> (t: Token)
        ensures
            t == Token(TokenKind::Eof, point(self.bytes().len() as int)),
    {
        TokenKind::Eof.into_token(self.source.len())
    }
}

/// Reads the atom that starts at `start`: it runs up to the next delimiter
/// or to the end of the text.
fn take_atom(bytes: &[u8], start: usize) -> (t: Token)
    requires
        start < bytes@.len(),
        !is_delimiter_byte(bytes@[start as int]),
        valid_utf8(bytes@),
        is_char_boundary(bytes@, start as int),
        is_char_boundary(bytes@, bytes@.len() as int),
    ensures
        t == Token(TokenKind::Atom, range(start as int, atom_end(bytes@, start as int))),
        t.1.fits(bytes@),
        start < t.1.end.0 <= bytes@.len(),
{
    let end = take_while(bytes, start);
    proof {
        lemma_atom_end(bytes@, start as int);
        if end < bytes@.len() {
            is_char_boundary_iff_not_is_continuation_byte(bytes@, end as int);
        }
    }
    TokenKind::Atom.into_token((start, end))
}

/// Walks from `start` over the bytes that are no delimiters and returns
/// where it stopped.
fn take_while(bytes: &[u8], start: usize) -> (end: usize)
    requires
        start <= bytes@.len(),
    ensures
        end == atom_end(bytes@, start as int),
{
    let mut end: usize = start;
    while end < bytes.len() && !is_delimiter(bytes[end])
        invariant
            start <= end <= bytes@.len(),
            atom_end(bytes@, end as int) == atom_end(bytes@, start as int),
        decreases bytes@.len() - end,
    {
        end += 1;
    }
    end
}

fn is_space(b: u8) -> (r: bool)
    ensures
        r == is_space_byte(b),
{
    b == SPACE || b == TAB || b == LINE_FEED || b == CARRIAGE_RETURN
}

fn is_delimiter(b: u8) -> (r: bool)
    ensures
        r == is_delimiter_byte(b),
{
    is_space(b) || b == PIPE || b == SEMICOLON || b == AMPERSAND
}

} // verus!
