//! The grammar of a command line, as functions of a token sequence.
//!
//! ```text
//! line     := job (';' job)*
//! job      := command ('|' command | '&')*
//! command  := Atom Atom*
//! ```
//!
//! The three operators bind with different strength: `;` with 10, `&` with
//! 20 and `|` with 30. An operator is taken up only where it binds more
//! strictly than the operator whose operand is being read, which makes each
//! of them group to the left.

use crate::lexer::token::{token_at, BytePos, Span, Token, TokenKind};
use crate::parser::ast::{AstView, CommandView};
use crate::parser::result::Error;
use vstd::prelude::*;

verus! {

/// The strength below that of every operator: that of a whole line.
pub const MIN: u8 = 0;

/// The strength of `;`.
pub const SEQUENCE: u8 = 10;

/// The strength of `&`.
pub const BACKGROUND: u8 = 20;

/// The strength of `|`.
pub const PIPELINE: u8 = 30;

/// How strongly an operator binds; `None` for a token that is no operator.
pub open spec fn binding_power(kind: TokenKind) -> Option<u8> {
    match kind {
        TokenKind::Semi => Some(SEQUENCE),
        TokenKind::Ampersand => Some(BACKGROUND),
        TokenKind::Pipe => Some(PIPELINE),
        _ => None,
    }
}

/// The first index at or behind `pos` whose token is no atom.
pub open spec fn atoms_end(tokens: Seq<Token>, pos: int) -> int
    decreases tokens.len() - pos,
{
    if pos < 0 || pos >= tokens.len() {
        pos
    } else if tokens[pos].0 != TokenKind::Atom {
        pos
    } else {
        atoms_end(tokens, pos + 1)
    }
}

/// The run of atoms from `pos` ends in the sequence or at `pos`, and holds
/// atoms only.
pub proof fn lemma_atoms_end(tokens: Seq<Token>, pos: int)
    requires
        0 <= pos,
    ensures
        pos <= atoms_end(tokens, pos),
        pos <= tokens.len() ==> atoms_end(tokens, pos) <= tokens.len(),
        forall|i: int| pos <= i < atoms_end(tokens, pos) ==> (#[trigger] tokens[i]).0 == TokenKind::Atom,
        atoms_end(tokens, pos) < tokens.len() ==> tokens[atoms_end(tokens, pos)].0
            != TokenKind::Atom,
    decreases tokens.len() - pos,
{
    if pos < tokens.len() && tokens[pos].0 == TokenKind::Atom {
        lemma_atoms_end(tokens, pos + 1);
    }
}

/// The spans of the tokens from `from` up to `to`.
pub open spec fn spans(tokens: Seq<Token>, from: int, to: int) -> Seq<Span> {
    Seq::new((to - from) as nat, |i: int| tokens[from + i].1)
}

/// The command whose program name is the atom at `pos`: its arguments are
/// the atoms that follow, up to the first token that is none.
pub open spec fn command_at(tokens: Seq<Token>, pos: int) -> CommandView {
    CommandView {
        program: tokens[pos].1,
        args: spans(tokens, pos + 1, atoms_end(tokens, pos + 1)),
    }
}

/// A tree and the index of the first token behind it, or the failure.
pub type Parsed = Result<(AstView, int), Error>;

/// A single command at `pos`: the only primary expression.
pub open spec fn primary(tokens: Seq<Token>, eof: BytePos, pos: int) -> Parsed {
    match token_at(tokens, eof, pos).0 {
        TokenKind::Atom => Ok(
            (AstView::Command(command_at(tokens, pos)), atoms_end(tokens, pos + 1)),
        ),
        TokenKind::Eof => Err(Error::UnexpectedEof),
        other => Err(Error::ExpectedCommand(other)),
    }
}

/// `left ; right`: a sequence takes the new item in, anything else opens a
/// sequence of two.
pub open spec fn sequence_of(left: AstView, right: AstView) -> AstView {
    match left {
        AstView::Sequence(items) => AstView::Sequence(items.push(right)),
        _ => AstView::Sequence(seq![left, right]),
    }
}

/// `left | right`: a pipeline takes the new command in, a single command
/// opens a pipeline of two, and any other operand is refused.
pub open spec fn pipeline_of(left: AstView, right: AstView) -> Result<AstView, Error> {
    match (left, right) {
        (AstView::Pipeline(commands), AstView::Command(command)) => Ok(
            AstView::Pipeline(commands.push(command)),
        ),
        (AstView::Command(first), AstView::Command(second)) => Ok(
            AstView::Pipeline(seq![first, second]),
        ),
        _ => Err(Error::ExpectedCommand(TokenKind::Atom)),
    }
}

/// What follows the operand `left` inside one job, read from `pos`: every
/// `&` wraps what stands to its left, every `|` joins it with the command to
/// its right, as long as the operator binds more strictly than `min_bp`.
pub open spec fn job_tail(
    tokens: Seq<Token>,
    eof: BytePos,
    left: AstView,
    pos: int,
    min_bp: u8,
) -> Parsed
    decreases tokens.len() - pos,
{
    if pos < 0 || pos >= tokens.len() {
        Ok((left, pos))
    } else if tokens[pos].0 == TokenKind::Ampersand && min_bp < BACKGROUND {
        job_tail(tokens, eof, AstView::BackgroundJob(Box::new(left)), pos + 1, min_bp)
    } else if tokens[pos].0 == TokenKind::Pipe && min_bp < PIPELINE {
        match primary(tokens, eof, pos + 1) {
            Err(e) => Err(e),
            Ok((right, next)) => match pipeline_of(left, right) {
                Err(e) => Err(e),
                Ok(joined) => {
                    proof {
                        lemma_atoms_end(tokens, pos + 2);
                    }
                    job_tail(tokens, eof, joined, next, min_bp)
                },
            },
        }
    } else {
        Ok((left, pos))
    }
}

/// One job at `pos`: a command and what follows it up to the next `;`.
pub open spec fn job(tokens: Seq<Token>, eof: BytePos, pos: int, min_bp: u8) -> Parsed {
    match primary(tokens, eof, pos) {
        Err(e) => Err(e),
        Ok((left, next)) => job_tail(tokens, eof, left, next, min_bp),
    }
}

/// A job that is read ends behind its first token and inside the sequence.
pub proof fn lemma_job_advances(tokens: Seq<Token>, eof: BytePos, pos: int, min_bp: u8)
    requires
        0 <= pos,
    ensures
        job(tokens, eof, pos, min_bp) matches Ok((_, next)) ==> pos < next <= tokens.len(),
{
    if let Ok((left, next)) = primary(tokens, eof, pos) {
        lemma_atoms_end(tokens, pos + 1);
        lemma_job_tail_advances(tokens, eof, left, next, min_bp);
    }
}

/// The tail of a job ends at or behind the place where it starts.
pub proof fn lemma_job_tail_advances(
    tokens: Seq<Token>,
    eof: BytePos,
    left: AstView,
    pos: int,
    min_bp: u8,
)
    requires
        0 <= pos <= tokens.len(),
    ensures
        job_tail(tokens, eof, left, pos, min_bp) matches Ok((_, next)) ==> pos <= next
            <= tokens.len(),
    decreases tokens.len() - pos,
{
    if pos < tokens.len() {
        if tokens[pos].0 == TokenKind::Ampersand && min_bp < BACKGROUND {
            lemma_job_tail_advances(
                tokens,
                eof,
                AstView::BackgroundJob(Box::new(left)),
                pos + 1,
                min_bp,
            );
        } else if tokens[pos].0 == TokenKind::Pipe && min_bp < PIPELINE {
            if let Ok((right, next)) = primary(tokens, eof, pos + 1) {
                if let Ok(joined) = pipeline_of(left, right) {
                    lemma_atoms_end(tokens, pos + 2);
                    lemma_job_tail_advances(tokens, eof, joined, next, min_bp);
                }
            }
        }
    }
}

/// A job ends in front of a token that it could not take up: no operator
/// that binds more strictly than `min_bp` but `;`.
pub proof fn lemma_job_stops(tokens: Seq<Token>, eof: BytePos, pos: int, min_bp: u8)
    requires
        0 <= pos,
    ensures
        job(tokens, eof, pos, min_bp) matches Ok((_, next)) ==> {
            let kind = token_at(tokens, eof, next).0;
            &&& !(kind == TokenKind::Ampersand && min_bp < BACKGROUND)
            &&& !(kind == TokenKind::Pipe && min_bp < PIPELINE)
        },
{
    if let Ok((left, next)) = primary(tokens, eof, pos) {
        lemma_atoms_end(tokens, pos + 1);
        lemma_job_tail_stops(tokens, eof, left, next, min_bp);
    }
}

/// The tail of a job ends in front of a token that it could not take up.
pub proof fn lemma_job_tail_stops(
    tokens: Seq<Token>,
    eof: BytePos,
    left: AstView,
    pos: int,
    min_bp: u8,
)
    requires
        0 <= pos <= tokens.len(),
    ensures
        job_tail(tokens, eof, left, pos, min_bp) matches Ok((_, next)) ==> {
            let kind = token_at(tokens, eof, next).0;
            &&& !(kind == TokenKind::Ampersand && min_bp < BACKGROUND)
            &&& !(kind == TokenKind::Pipe && min_bp < PIPELINE)
        },
    decreases tokens.len() - pos,
{
    if pos < tokens.len() {
        if tokens[pos].0 == TokenKind::Ampersand && min_bp < BACKGROUND {
            lemma_job_tail_stops(
                tokens,
                eof,
                AstView::BackgroundJob(Box::new(left)),
                pos + 1,
                min_bp,
            );
        } else if tokens[pos].0 == TokenKind::Pipe && min_bp < PIPELINE {
            if let Ok((right, next)) = primary(tokens, eof, pos + 1) {
                if let Ok(joined) = pipeline_of(left, right) {
                    lemma_atoms_end(tokens, pos + 2);
                    lemma_job_tail_stops(tokens, eof, joined, next, min_bp);
                }
            }
        }
    }
}

/// What follows the jobs read so far, from `pos`: every `;` adds the job to
/// its right to the sequence.
pub open spec fn sequence_tail(tokens: Seq<Token>, eof: BytePos, left: AstView, pos: int) -> Parsed
    decreases tokens.len() - pos,
{
    if pos < 0 || pos >= tokens.len() {
        Ok((left, pos))
    } else if tokens[pos].0 == TokenKind::Semi {
        match job(tokens, eof, pos + 1, SEQUENCE) {
            Err(e) => Err(e),
            Ok((right, next)) => {
                proof {
                    lemma_job_advances(tokens, eof, pos + 1, SEQUENCE);
                }
                sequence_tail(tokens, eof, sequence_of(left, right), next)
            },
        }
    } else {
        Ok((left, pos))
    }
}

/// The expression at `pos` that an operator of strength `min_bp` takes as
/// its operand: a job and, where `;` binds more strictly than `min_bp`, the
/// jobs that follow it.
pub open spec fn expression(tokens: Seq<Token>, eof: BytePos, pos: int, min_bp: u8) -> Parsed {
    match job(tokens, eof, pos, min_bp) {
        Err(e) => Err(e),
        Ok((left, next)) => if min_bp < SEQUENCE {
            sequence_tail(tokens, eof, left, next)
        } else {
            Ok((left, next))
        },
    }
}

/// The tree of a whole line that is read from `pos`, or the reason why
/// there is none. Tokens behind the tree are left alone.
pub open spec fn parse_spec(tokens: Seq<Token>, eof: BytePos, pos: int) -> Result<AstView, Error> {
    match expression(tokens, eof, pos, MIN) {
        Err(e) => Err(e),
        Ok((tree, _)) => Ok(tree),
    }
}

} // verus!
