//! What holds of the tokens of every text.

use crate::lexer::token::{tokens_fit, Token, TokenKind};
use crate::lexer::{
    atom_end, is_delimiter_byte, is_space_byte, lemma_atom_end, lemma_boundary_after_ascii,
    lex_from, point, range, AMPERSAND, PIPE, SEMICOLON, SPACE,
};
use vstd::prelude::*;
use vstd::utf8::{
    is_char_boundary, is_char_boundary_iff_not_is_continuation_byte,
    is_char_boundary_start_end_of_seq, valid_utf8,
};

verus! {

/// A word: at least one byte, and no delimiter among its bytes.
pub open spec fn is_word(text: Seq<u8>) -> bool {
    &&& text.len() > 0
    &&& forall|i: int| 0 <= i < text.len() ==> !is_delimiter_byte(#[trigger] text[i])
}

/// A token as it comes from a text: no end-of-input token, an atom that
/// covers a word and ends in front of a delimiter or at the end of the text,
/// or an operator that is placed at its byte.
pub open spec fn token_of_text(token: Token, bytes: Seq<u8>) -> bool {
    let start = token.1.start.0 as int;
    let end = token.1.end.0 as int;
    match token.0 {
        TokenKind::Atom => {
            &&& start < end <= bytes.len()
            &&& is_word(token.1.text(bytes))
            &&& end == bytes.len() || is_delimiter_byte(bytes[end])
        },
        TokenKind::Pipe => start == end && start < bytes.len() && bytes[start] == PIPE,
        TokenKind::Semi => start == end && start < bytes.len() && bytes[start] == SEMICOLON,
        TokenKind::Ampersand => start == end && start < bytes.len() && bytes[start] == AMPERSAND,
        TokenKind::Eof => false,
    }
}

/// Every token of `tokens` is one that comes from `bytes`.
pub open spec fn tokens_of_text(tokens: Seq<Token>, bytes: Seq<u8>) -> bool {
    forall|i: int| 0 <= i < tokens.len() ==> token_of_text(#[trigger] tokens[i], bytes)
}

/// The tokens of a text are atoms that cover words and operators at their
/// bytes, and each fits the text.
pub proof fn lemma_lex_from(bytes: Seq<u8>, pos: int)
    requires
        valid_utf8(bytes),
        bytes.len() <= usize::MAX,
        0 <= pos <= bytes.len(),
        is_char_boundary(bytes, pos),
    ensures
        tokens_of_text(lex_from(bytes, pos), bytes),
        tokens_fit(lex_from(bytes, pos), bytes),
        forall|i: int|
            0 <= i < lex_from(bytes, pos).len() ==> pos <= (#[trigger] lex_from(
                bytes,
                pos,
            )[i]).1.start.0,
    decreases bytes.len() - pos,
{
    let tokens = lex_from(bytes, pos);
    if pos < bytes.len() {
        let byte = bytes[pos];
        if is_delimiter_byte(byte) {
            lemma_boundary_after_ascii(bytes, pos);
            lemma_lex_from(bytes, pos + 1);
            let rest = lex_from(bytes, pos + 1);
            if !is_space_byte(byte) {
                assert forall|i: int| 0 <= i < tokens.len() implies token_of_text(
                    #[trigger] tokens[i],
                    bytes,
                ) && tokens[i].1.fits(bytes) && pos <= tokens[i].1.start.0 by {
                    if i > 0 {
                        assert(tokens[i] == rest[i - 1]);
                    }
                }
            }
        } else {
            lemma_atom_end(bytes, pos);
            let end = atom_end(bytes, pos);
            is_char_boundary_start_end_of_seq(bytes);
            if end < bytes.len() {
                is_char_boundary_iff_not_is_continuation_byte(bytes, end);
            }
            lemma_lex_from(bytes, end);
            let rest = lex_from(bytes, end);
            assert forall|i: int| 0 <= i < tokens.len() implies token_of_text(
                #[trigger] tokens[i],
                bytes,
            ) && tokens[i].1.fits(bytes) && pos <= tokens[i].1.start.0 by {
                if i > 0 {
                    assert(tokens[i] == rest[i - 1]);
                } else {
                    assert(tokens[0] == Token(TokenKind::Atom, range(pos, end)));
                    let text = tokens[0].1.text(bytes);
                    assert forall|j: int| 0 <= j < text.len() implies !is_delimiter_byte(
                        #[trigger] text[j],
                    ) by {
                        assert(text[j] == bytes[pos + j]);
                    }
                }
            }
        }
    }
}

/// The token stands for the byte at `index`: an atom covers it, an operator
/// is placed at it.
pub open spec fn token_covers(token: Token, index: int) -> bool {
    if token.0 == TokenKind::Atom {
        token.1.start.0 <= index < token.1.end.0
    } else {
        token.1.start.0 == index
    }
}

/// The tokens of a text come in the order of the text, and none reaches
/// into the next.
pub proof fn lemma_lex_in_order(bytes: Seq<u8>, pos: int)
    requires
        bytes.len() <= usize::MAX,
        0 <= pos <= bytes.len(),
    ensures
        forall|i: int|
            0 <= i < lex_from(bytes, pos).len() ==> pos <= (#[trigger] lex_from(
                bytes,
                pos,
            )[i]).1.start.0,
        forall|i: int, j: int|
            0 <= i < j < lex_from(bytes, pos).len() ==> {
                let first = #[trigger] lex_from(bytes, pos)[i];
                let second = #[trigger] lex_from(bytes, pos)[j];
                first.1.start.0 < second.1.start.0 && first.1.end.0 <= second.1.start.0
            },
    decreases bytes.len() - pos,
{
    let tokens = lex_from(bytes, pos);
    if pos < bytes.len() {
        lemma_atom_end(bytes, pos);
        let next = if is_delimiter_byte(bytes[pos]) {
            pos + 1
        } else {
            atom_end(bytes, pos)
        };
        lemma_lex_in_order(bytes, next);
        let rest = lex_from(bytes, next);
        if !is_space_byte(bytes[pos]) {
            assert forall|i: int| 0 <= i < tokens.len() implies pos <= (#[trigger] tokens[i]).1.start.0
                && (i > 0 ==> next <= tokens[i].1.start.0) by {
                if i > 0 {
                    assert(tokens[i] == rest[i - 1]);
                }
            }
            assert forall|i: int, j: int| 0 <= i < j < tokens.len() implies {
                let first = #[trigger] tokens[i];
                let second = #[trigger] tokens[j];
                first.1.start.0 < second.1.start.0 && first.1.end.0 <= second.1.start.0
            } by {
                assert(tokens[j] == rest[j - 1]);
                if i > 0 {
                    assert(tokens[i] == rest[i - 1]);
                }
            }
        }
    }
}

/// No byte of a text is lost: each one that is no white space belongs to a
/// token. The index of that token is returned.
pub proof fn lemma_lex_covers(bytes: Seq<u8>, pos: int, index: int) -> (at: int)
    requires
        bytes.len() <= usize::MAX,
        0 <= pos <= index < bytes.len(),
        !is_space_byte(bytes[index]),
    ensures
        0 <= at < lex_from(bytes, pos).len(),
        token_covers(lex_from(bytes, pos)[at], index),
    decreases bytes.len() - pos,
{
    lemma_atom_end(bytes, pos);
    if is_space_byte(bytes[pos]) {
        lemma_lex_covers(bytes, pos + 1, index)
    } else if is_delimiter_byte(bytes[pos]) {
        if index == pos {
            0
        } else {
            1 + lemma_lex_covers(bytes, pos + 1, index)
        }
    } else {
        if index < atom_end(bytes, pos) {
            0
        } else {
            1 + lemma_lex_covers(bytes, atom_end(bytes, pos), index)
        }
    }
}

/// What a token says to the parser: its kind and, if it is an atom, its
/// text. Where it stands in the text is left out.
pub struct Lexeme {
    pub kind: TokenKind,
    pub text: Seq<u8>,
}

impl Lexeme {
    /// The lexeme of a token of `bytes`.
    pub open spec fn of(token: Token, bytes: Seq<u8>) -> Lexeme {
        Lexeme {
            kind: token.0,
            text: if token.0 == TokenKind::Atom {
                token.1.text(bytes)
            } else {
                Seq::empty()
            },
        }
    }

    /// The lexeme is one that a token of a text can have.
    pub open spec fn wf(self) -> bool {
        match self.kind {
            TokenKind::Atom => is_word(self.text),
            TokenKind::Eof => false,
            _ => self.text.len() == 0,
        }
    }

    /// The bytes that spell the lexeme.
    pub open spec fn spelling(self) -> Seq<u8> {
        match self.kind {
            TokenKind::Atom => self.text,
            TokenKind::Pipe => seq![PIPE],
            TokenKind::Semi => seq![SEMICOLON],
            TokenKind::Ampersand => seq![AMPERSAND],
            TokenKind::Eof => Seq::empty(),
        }
    }

    /// What stands between the lexeme and the one before it when a tree is
    /// written out: a blank, but nothing in front of `;`.
    pub open spec fn gap(self) -> Seq<u8> {
        if self.kind == TokenKind::Semi {
            Seq::empty()
        } else {
            seq![SPACE]
        }
    }
}

/// The lexemes of some tokens of `bytes`.
pub open spec fn lexemes(tokens: Seq<Token>, bytes: Seq<u8>) -> Seq<Lexeme> {
    Seq::new(tokens.len(), |i: int| Lexeme::of(tokens[i], bytes))
}

/// Each of the lexemes is one that a token of a text can have.
pub open spec fn lexemes_wf(all: Seq<Lexeme>) -> bool {
    forall|i: int| 0 <= i < all.len() ==> (#[trigger] all[i]).wf()
}

/// The lexemes from `from` up to `to` written out, each behind its gap.
pub open spec fn spelled_behind(all: Seq<Lexeme>, from: int, to: int) -> Seq<u8>
    decreases to - from,
{
    if to <= from {
        Seq::empty()
    } else {
        spelled_behind(all, from, to - 1) + all[to - 1].gap() + all[to - 1].spelling()
    }
}

/// The lexemes from `from` up to `to` written out: the first as it is, each
/// other one behind its gap.
pub open spec fn spelled(all: Seq<Lexeme>, from: int, to: int) -> Seq<u8> {
    if to <= from {
        Seq::empty()
    } else {
        all[from].spelling() + spelled_behind(all, from + 1, to)
    }
}

/// Lexemes written out one after another are written out in parts.
pub proof fn lemma_spelled_behind_split(all: Seq<Lexeme>, from: int, mid: int, to: int)
    requires
        from <= mid <= to,
    ensures
        spelled_behind(all, from, to) == spelled_behind(all, from, mid) + spelled_behind(
            all,
            mid,
            to,
        ),
    decreases to - mid,
{
    if mid < to {
        lemma_spelled_behind_split(all, from, mid, to - 1);
        assert(spelled_behind(all, from, to) =~= spelled_behind(all, from, mid) + spelled_behind(
            all,
            mid,
            to,
        ));
    } else {
        assert(spelled_behind(all, from, to) =~= spelled_behind(all, from, mid) + spelled_behind(
            all,
            mid,
            to,
        ));
    }
}

/// What is written from a lexeme on starts with its gap and its spelling.
pub proof fn lemma_spelled_behind_first(all: Seq<Lexeme>, from: int, to: int)
    requires
        from < to,
    ensures
        spelled_behind(all, from, to) == all[from].gap() + all[from].spelling() + spelled_behind(
            all,
            from + 1,
            to,
        ),
{
    lemma_spelled_behind_split(all, from, from + 1, to);
    assert(spelled_behind(all, from, from) =~= Seq::<u8>::empty());
    assert(spelled_behind(all, from, from + 1) =~= all[from].gap() + all[from].spelling());
}

/// What is written behind a lexeme starts with a delimiter.
pub proof fn lemma_spelled_behind_starts(all: Seq<Lexeme>, from: int, to: int)
    requires
        0 <= from < to <= all.len(),
        lexemes_wf(all),
    ensures
        spelled_behind(all, from, to).len() > 0,
        is_delimiter_byte(spelled_behind(all, from, to)[0]),
        spelled_behind(all, from, to) == all[from].gap() + all[from].spelling() + spelled_behind(
            all,
            from + 1,
            to,
        ),
{
    lemma_spelled_behind_first(all, from, to);
    assert(all[from].wf());
}

/// What some lexemes are written out to depends on those lexemes alone.
pub proof fn lemma_spelled_behind_of_part(all: Seq<Lexeme>, part: Seq<Lexeme>, from: int, to: int)
    requires
        0 <= from,
        to <= all.len(),
        to <= part.len(),
        forall|i: int| from <= i < to ==> all[i] == part[i],
    ensures
        spelled_behind(all, from, to) == spelled_behind(part, from, to),
    decreases to - from,
{
    if from < to {
        lemma_spelled_behind_of_part(all, part, from, to - 1);
    }
}

/// An atom that covers a word ends where the word ends, if a delimiter or
/// the end of the text follows.
pub proof fn lemma_atom_end_of_word(bytes: Seq<u8>, start: int, end: int)
    requires
        0 <= start <= end <= bytes.len(),
        forall|i: int| start <= i < end ==> !is_delimiter_byte(#[trigger] bytes[i]),
        end == bytes.len() || is_delimiter_byte(bytes[end]),
    ensures
        atom_end(bytes, start) == end,
    decreases end - start,
{
    if start < end {
        lemma_atom_end_of_word(bytes, start + 1, end);
    }
}

/// One lexeme behind its gap is read as one token with that lexeme.
proof fn lemma_lex_one(bytes: Seq<u8>, at: int, gap: Seq<u8>, lexeme: Lexeme, next: int)
    requires
        bytes.len() <= usize::MAX,
        lexeme.wf(),
        gap.len() == 0 || gap == seq![SPACE],
        0 <= at,
        next == at + gap.len() + lexeme.spelling().len(),
        next <= bytes.len(),
        bytes.subrange(at, at + gap.len()) == gap,
        bytes.subrange(at + gap.len(), next) == lexeme.spelling(),
        next == bytes.len() || is_delimiter_byte(bytes[next]),
    ensures
        lexemes(lex_from(bytes, at), bytes) == seq![lexeme] + lexemes(lex_from(bytes, next), bytes),
{
    let begin = at + gap.len();
    let spelling = lexeme.spelling();
    if gap.len() > 0 {
        assert(bytes[at] == bytes.subrange(at, at + gap.len())[0]);
        assert(lex_from(bytes, at) == lex_from(bytes, begin));
    }
    assert(spelling.len() > 0);
    assert(bytes[begin] == spelling[0]);
    let rest = lex_from(bytes, next);
    let token = match lexeme.kind {
        TokenKind::Atom => Token(TokenKind::Atom, range(begin, next)),
        kind => Token(kind, point(begin)),
    };
    if lexeme.kind == TokenKind::Atom {
        assert forall|i: int| begin <= i < next implies !is_delimiter_byte(#[trigger] bytes[i]) by {
            assert(bytes[i] == spelling[i - begin]);
        }
        lemma_atom_end_of_word(bytes, begin, next);
        assert(token.1.text(bytes) == spelling);
    } else {
        assert(next == begin + 1);
        assert(lexeme.text =~= Seq::<u8>::empty());
    }
    assert(lex_from(bytes, begin) == seq![token] + rest);
    assert(Lexeme::of(token, bytes) == lexeme);
    assert(lexemes(seq![token] + rest, bytes) =~= seq![lexeme] + lexemes(rest, bytes));
}

/// Where the lexeme at `index` stands in the text that `all` is written
/// out to: behind its gap, and in front of a delimiter or the end.
proof fn lemma_spelled_layout(all: Seq<Lexeme>, index: int)
    requires
        lexemes_wf(all),
        1 <= index < all.len(),
    ensures
        ({
            let bytes = spelled(all, 0, all.len() as int);
            let at = spelled(all, 0, index).len() as int;
            let gap = all[index].gap();
            let next = at + gap.len() + all[index].spelling().len();
            &&& next == spelled(all, 0, index + 1).len()
            &&& next <= bytes.len()
            &&& bytes.subrange(at, at + gap.len()) == gap
            &&& bytes.subrange(at + gap.len(), next) == all[index].spelling()
            &&& next == bytes.len() || is_delimiter_byte(bytes[next])
        }),
{
    let count = all.len() as int;
    let bytes = spelled(all, 0, count);
    let at = spelled(all, 0, index).len() as int;
    let lexeme = all[index];
    let gap = lexeme.gap();
    let next = at + gap.len() + lexeme.spelling().len();
    let tail = spelled_behind(all, index + 1, count);
    lemma_spelled_behind_split(all, 1, index, count);
    lemma_spelled_behind_starts(all, index, count);
    assert(spelled(all, 0, index + 1) =~= spelled(all, 0, index) + gap + lexeme.spelling());
    assert(bytes =~= spelled(all, 0, index) + gap + lexeme.spelling() + tail);
    assert(bytes.subrange(at, at + gap.len()) =~= gap);
    assert(bytes.subrange(at + gap.len(), next) =~= lexeme.spelling());
    if index + 1 < count {
        lemma_spelled_behind_starts(all, index + 1, count);
        assert(bytes[next] == tail[0]);
    } else {
        assert(tail =~= Seq::<u8>::empty());
    }
}

/// The lexemes of the tokens of `bytes` from `at` on are those of `all`
/// from `index` on, where `bytes` is `all` written out and `at` is the
/// place behind the first `index` of them.
proof fn lemma_lex_of_spelled_from(all: Seq<Lexeme>, bytes: Seq<u8>, index: int, at: int)
    requires
        lexemes_wf(all),
        1 <= index <= all.len(),
        bytes == spelled(all, 0, all.len() as int),
        bytes.len() <= usize::MAX,
        at == spelled(all, 0, index).len(),
    ensures
        lexemes(lex_from(bytes, at), bytes) == all.subrange(index, all.len() as int),
    decreases all.len() - index,
{
    let count = all.len() as int;
    if index < count {
        let lexeme = all[index];
        let gap = lexeme.gap();
        let next = at + gap.len() + lexeme.spelling().len();
        lemma_spelled_layout(all, index);
        lemma_lex_one(bytes, at, gap, lexeme, next);
        lemma_lex_of_spelled_from(all, bytes, index + 1, next);
        assert(all.subrange(index, count) =~= seq![lexeme] + all.subrange(index + 1, count));
    } else {
        lemma_spelled_behind_split(all, 1, index, count);
        assert(spelled_behind(all, index, count) =~= Seq::<u8>::empty());
        assert(bytes =~= spelled(all, 0, index));
        assert(lexemes(lex_from(bytes, at), bytes) =~= all.subrange(index, count));
    }
}

/// Reading a text that some lexemes were written out to gives tokens with
/// those lexemes again.
pub proof fn lemma_lex_of_spelled(all: Seq<Lexeme>)
    requires
        lexemes_wf(all),
        all.len() >= 1,
        spelled(all, 0, all.len() as int).len() <= usize::MAX,
    ensures
        lexemes(
            lex_from(spelled(all, 0, all.len() as int), 0),
            spelled(all, 0, all.len() as int),
        ) == all,
        spelled(all, 0, all.len() as int).len() > 0,
{
    let count = all.len() as int;
    let bytes = spelled(all, 0, count);
    let lexeme = all[0];
    let next = lexeme.spelling().len() as int;
    assert(lexeme.wf());
    assert(spelled_behind(all, 1, 1) =~= Seq::<u8>::empty());
    assert(spelled(all, 0, 1) =~= lexeme.spelling());
    assert(bytes.subrange(0, 0) =~= Seq::<u8>::empty());
    assert(bytes.subrange(0, next) =~= lexeme.spelling());
    if 1 < count {
        lemma_spelled_behind_starts(all, 1, count);
        assert(bytes[next] == spelled_behind(all, 1, count)[0]);
    } else {
        assert(bytes =~= lexeme.spelling());
    }
    lemma_lex_one(bytes, 0, Seq::empty(), lexeme, next);
    lemma_lex_of_spelled_from(all, bytes, 1, next);
    assert(all =~= seq![lexeme] + all.subrange(1, count));
}

} // verus!
