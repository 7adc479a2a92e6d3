//! Byte positions, spans and tokens.

use vstd::prelude::*;
use vstd::std_specs::convert::{FromSpecImpl, IntoSpec};
use vstd::std_specs::iter::IteratorSpec;
use vstd::string::StringSliceAdditionalSpecFns;
use vstd::utf8::*;

verus! {

/// A byte offset into a source text.
#[derive(Debug, Clone, Copy, PartialEq, Eq, PartialOrd, Ord, Hash, Structural)]
pub struct BytePos(pub usize);

impl std::ops::Deref for BytePos {
    type Target = usize;

    fn deref(&self) -> (r: &usize)
        ensures
            *r == self.0,
    {
        &self.0
    }
}

impl From<usize> for BytePos {
    fn from(value: usize) -> (r: Self) {
        Self(value)
    }
}

impl FromSpecImpl<usize> for BytePos {
    open spec fn obeys_from_spec() -> bool {
        true
    }

    open spec fn from_spec(value: usize) -> Self {
        BytePos(value)
    }
}

/// A half-open byte range `[start, end)` of a source text. A span owns no
/// text: it is resolved against the source when the text is needed.
#[derive(Debug, Clone, Copy, PartialEq, Eq, PartialOrd, Ord, Hash, Structural)]
pub struct Span {
    pub start: BytePos,
    pub end: BytePos,
}

impl Span {
    /// The span does not end before it starts.
    pub open spec fn wf(self) -> bool {
        self.start.0 <= self.end.0
    }

    /// The span lies inside `bytes` and cuts no character of it in two.
    pub open spec fn fits(self, bytes: Seq<u8>) -> bool {
        &&& self.wf()
        &&& self.end.0 <= bytes.len()
        &&& is_char_boundary(bytes, self.start.0 as int)
        &&& is_char_boundary(bytes, self.end.0 as int)
    }

    /// The bytes of `bytes` that the span covers.
    pub open spec fn text(self, bytes: Seq<u8>) -> Seq<u8> {
        bytes.subrange(self.start.0 as int, self.end.0 as int)
    }

    /// The span from `start` up to `end`. Nothing is asked of the two: a
    /// span is well formed where `start` does not lie behind `end`.
    pub fn new(start: BytePos, end: BytePos) -> (s: Self)
        ensures
            s.start == start,
            s.end == end,
    {
        Self { start, end }
    }

    /// The part of `source` that the span covers.
    pub fn slice<'a>(&self, source: &'a str) -> (s: &'a str)
        requires
            self.fits(source.spec_bytes()),
        ensures
            s.spec_bytes() == self.text(source.spec_bytes()),
            s@ == decode_utf8(self.text(source.spec_bytes())),
    {
        let ghost bytes = source.spec_bytes();
        let start: usize = self.start.0;
        let end: usize = self.end.0;
        proof {
            encode_utf8_valid_utf8(source@);
            lemma_boundary_in_prefix(bytes, start as int, end as int);
        }
        let (head, _) = source.split_at(end);
        let (_, s) = head.split_at(start);
        proof {
            assert(s.spec_bytes() =~= self.text(bytes));
            encode_utf8_decode_utf8(s@);
        }
        s
    }

    /// Whether the span can be sliced out of `source`.
    pub fn fits_in(&self, source: &str) -> (b: bool)
        ensures
            b == self.fits(source.spec_bytes()),
    {
        proof {
            encode_utf8_valid_utf8(source@);
        }
        self.start.0 <= self.end.0 && self.end.0 <= source.as_bytes().len()
            && source.is_char_boundary(self.start.0) && source.is_char_boundary(self.end.0)
    }

    /// How many bytes the span covers.
    pub fn len(&self) -> (n: usize)
        requires
            self.wf(),
        ensures
            n == self.end.0 - self.start.0,
    {
        *self.end - *self.start
    }

    /// Whether the span covers nothing.
    pub fn is_empty(&self) -> (b: bool)
        requires
            self.wf(),
        ensures
            b <==> self.start == self.end,
    {
        self.len() == 0
    }
}

/// What a token is: a word, one of the three operators, or the end of input.
#[derive(Debug, Clone, Copy, PartialEq, Eq, PartialOrd, Ord, Hash, Structural)]
pub enum TokenKind {
    Atom,
    Pipe,
    Semi,
    Ampersand,
    Eof,
}

/// A token kind with the place in the source where it was read.
#[derive(Debug, Clone, Copy, PartialEq, Eq, PartialOrd, Ord, Hash, Structural)]
pub struct Token(pub TokenKind, pub Span);

impl Token {
    /// What the token is.
    pub fn kind(&self) -> (k: TokenKind)
        ensures
            k == self.0,
    {
        self.0
    }

    /// Where the token was read.
    pub fn span(&self) -> (s: Span)
        ensures
            s == self.1,
    {
        self.1
    }
}

/// A position or a pair of positions that stands for a span.
pub trait IntoSpan: Sized {
    /// The span that the value stands for.
    spec fn as_span(self) -> Span;

    /// The span that the value stands for.
    fn into_span(self) -> (s: Span)
        ensures
            s == self.as_span(),
    ;
}

impl IntoSpan for (usize, usize) {
    open spec fn as_span(self) -> Span {
        Span { start: BytePos(self.0), end: BytePos(self.1) }
    }

    fn into_span(self) -> (s: Span) {
        Span::new(BytePos(self.0), BytePos(self.1))
    }
}

impl IntoSpan for (BytePos, BytePos) {
    open spec fn as_span(self) -> Span {
        Span { start: self.0, end: self.1 }
    }

    fn into_span(self) -> (s: Span) {
        Span::new(self.0, self.1)
    }
}

impl IntoSpan for usize {
    open spec fn as_span(self) -> Span {
        Span { start: BytePos(self), end: BytePos(self) }
    }

    fn into_span(self) -> (s: Span) {
        let pos = BytePos(self);
        Span::new(pos, pos)
    }
}

impl IntoSpan for BytePos {
    open spec fn as_span(self) -> Span {
        Span { start: self, end: self }
    }

    fn into_span(self) -> (s: Span) {
        Span::new(self, self)
    }
}

impl IntoSpan for Span {
    open spec fn as_span(self) -> Span {
        self
    }

    fn into_span(self) -> (s: Span) {
        self
    }
}

impl TokenKind {
    /// A token of this kind at `position`.
    pub fn into_token<P: IntoSpan>(self, position: P) -> (t: Token)
        ensures
            t == Token(self, position.as_span()),
    {
        Token(self, position.into_span())
    }
}

/// The end-of-input token that a stream ending at `eof` reports once its
/// tokens are used up.
pub open spec fn eof_token(eof: BytePos) -> Token {
    Token(TokenKind::Eof, Span { start: eof, end: eof })
}

/// The token at `index` of a token sequence that is followed by end-of-input
/// tokens at `eof` without end.
pub open spec fn token_at(tokens: Seq<Token>, eof: BytePos, index: int) -> Token {
    if 0 <= index < tokens.len() {
        tokens[index]
    } else {
        eof_token(eof)
    }
}

/// Each token of `tokens` lies inside `bytes` and cuts no character in two.
pub open spec fn tokens_fit(tokens: Seq<Token>, bytes: Seq<u8>) -> bool {
    forall|i: int| 0 <= i < tokens.len() ==> (#[trigger] tokens[i]).1.fits(bytes)
}

/// The tokens of one source text, read once from left to right with one token
/// of lookahead.
#[derive(Debug)]
pub struct TokenStream {
    tokens: Vec<Token>,
    cursor: usize,
    eof: BytePos,
}

impl TokenStream {
    #[verifier::type_invariant]
    spec fn inv(self) -> bool {
        self.cursor <= self.tokens@.len()
    }

    /// All tokens of the stream, read or not.
    pub closed spec fn tokens(self) -> Seq<Token> {
        self.tokens@
    }

    /// How many tokens have been read.
    pub closed spec fn position(self) -> nat {
        self.cursor as nat
    }

    /// Where the source text ends.
    pub closed spec fn eof(self) -> BytePos {
        self.eof
    }

    /// The token that `peek_token` shows and `next_token` takes.
    pub open spec fn head(self) -> Token {
        token_at(self.tokens(), self.eof(), self.position() as int)
    }

    /// The stream after one token was taken: nothing moves once the tokens
    /// are used up.
    pub open spec fn advanced(self, before: Self) -> bool {
        &&& self.tokens() == before.tokens()
        &&& self.eof() == before.eof()
        &&& self.position() == if before.position() < before.tokens().len() {
            before.position() + 1
        } else {
            before.position()
        }
    }

    /// A stream that stands in front of the first of `tokens`, for a source
    /// text that ends at `eof`.
    pub fn new<P: Into<BytePos>>(tokens: Vec<Token>, eof: P) -> (s: Self)
        ensures
            s.tokens() == tokens@,
            s.position() == 0,
            P::obeys_into_spec() ==> s.eof() == eof.into_spec(),
    {
        Self { tokens, cursor: 0, eof: eof.into() }
    }

    /// Takes the next token and returns its kind. Once the tokens are used
    /// up, end of input is reported again and again.
    #[allow(clippy::should_implement_trait)]
    pub fn next(&mut self) -> (k: TokenKind)
        ensures
            k == old(self).head().0,
            final(self).advanced(*old(self)),
    {
        proof {
            use_type_invariant(&*self);
        }
        if self.cursor < self.tokens.len() {
            let token = self.tokens[self.cursor];
            self.cursor += 1;
            token.0
        } else {
            TokenKind::Eof
        }
    }

    /// Takes the next token. Once the tokens are used up, the end-of-input
    /// token at the end of the source is reported again and again.
    pub fn next_token(&mut self) -> (t: Token)
        ensures
            t == old(self).head(),
            final(self).advanced(*old(self)),
    {
        proof {
            use_type_invariant(&*self);
        }
        if self.cursor < self.tokens.len() {
            let token = self.tokens[self.cursor];
            self.cursor += 1;
            token
        } else {
            TokenKind::Eof.into_token(Span::new(self.eof, self.eof))
        }
    }

    /// The kind of the next token, which stays where it is.
    pub fn peek(&self) -> (k: TokenKind)
        ensures
            k == self.head().0,
    {
        self.peek_token().0
    }

    /// The next token, which stays where it is.
    pub fn peek_token(&self) -> (t: Token)
        ensures
            t == self.head(),
    {
        if self.cursor < self.tokens.len() {
            self.tokens[self.cursor]
        } else {
            TokenKind::Eof.into_token(Span::new(self.eof, self.eof))
        }
    }

    /// Hands the tokens out, read or not, in the order of the source.
    pub fn into_tokens(self) -> (tokens: Vec<Token>)
        ensures
            tokens@ == self.tokens(),
    {
        self.tokens
    }
}

impl IntoIterator for TokenStream {
    type IntoIter = std::vec::IntoIter<Token>;

    type Item = Token;

    /// Hands the tokens out one by one, read or not, in the order of the
    /// source.
    fn into_iter(self) -> (iter: Self::IntoIter)
        ensures
            iter.remaining() == self.tokens(),
    {
        self.tokens.into_iter()
    }
}

/// A character boundary of a text is one of each prefix that reaches it.
pub proof fn lemma_boundary_in_prefix(bytes: Seq<u8>, index: int, end: int)
    requires
        valid_utf8(bytes),
        0 <= index <= end <= bytes.len(),
        is_char_boundary(bytes, index),
        is_char_boundary(bytes, end),
    ensures
        valid_utf8(bytes.subrange(0, end)),
        is_char_boundary(bytes.subrange(0, end), index),
{
    valid_utf8_split(bytes, end);
    let prefix = bytes.subrange(0, end);
    if index < end {
        is_char_boundary_iff_not_is_continuation_byte(bytes, index);
        is_char_boundary_iff_not_is_continuation_byte(prefix, index);
    } else {
        is_char_boundary_start_end_of_seq(prefix);
    }
}

} // verus!
