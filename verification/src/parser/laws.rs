//! What holds of every tree that the grammar gives.

use crate::lexer::token::{tokens_fit, BytePos, Token, TokenKind};
use crate::parser::ast::{AstView, CommandView};
use crate::parser::grammar::{
    atoms_end, command_at, expression, job, job_tail, lemma_atoms_end, lemma_job_advances,
    parse_spec, pipeline_of, primary, sequence_of, sequence_tail, spans, MIN, BACKGROUND, PIPELINE, SEQUENCE,
};
use crate::parser::result::Error;
use vstd::prelude::*;

verus! {

/// From `pos` on the tokens are `count` atoms and nothing else: behind them
/// the tokens end, or the end-of-input token stands.
pub open spec fn atoms_alone(tokens: Seq<Token>, pos: int, count: int) -> bool {
    &&& 0 <= pos
    &&& 1 <= count
    &&& pos + count <= tokens.len()
    &&& forall|i: int| pos <= i < pos + count ==> (#[trigger] tokens[i]).0 == TokenKind::Atom
    &&& pos + count == tokens.len() || tokens[pos + count].0 == TokenKind::Eof
}

/// A line of atoms alone is one command: the first atom names the program
/// and each other atom is an argument, so there is one argument less than
/// there are atoms.
pub proof fn lemma_atoms_make_one_command(tokens: Seq<Token>, eof: BytePos, pos: int, count: int)
    requires
        atoms_alone(tokens, pos, count),
    ensures
        parse_spec(tokens, eof, pos) == Ok::<AstView, Error>(
            AstView::Command(
                CommandView { program: tokens[pos].1, args: spans(tokens, pos + 1, pos + count) },
            ),
        ),
        spans(tokens, pos + 1, pos + count).len() == count - 1,
{
    lemma_atoms_run(tokens, pos + 1, pos + count);
    assert(atoms_end(tokens, pos + 1) == pos + count);
}

/// A run of atoms that ends at `end` ends there from each of its places.
pub proof fn lemma_atoms_run(tokens: Seq<Token>, pos: int, end: int)
    requires
        0 <= pos <= end <= tokens.len(),
        forall|i: int| pos <= i < end ==> (#[trigger] tokens[i]).0 == TokenKind::Atom,
        end == tokens.len() || tokens[end].0 != TokenKind::Atom,
    ensures
        atoms_end(tokens, pos) == end,
    decreases end - pos,
{
    if pos < end {
        lemma_atoms_run(tokens, pos + 1, end);
    }
}

/// The spans of a tree are spans of the tokens it was read from: where
/// every token fits a text, the tree fits it.
pub proof fn lemma_parse_fits(tokens: Seq<Token>, eof: BytePos, pos: int, bytes: Seq<u8>)
    requires
        0 <= pos,
        tokens_fit(tokens, bytes),
    ensures
        parse_spec(tokens, eof, pos) matches Ok(tree) ==> tree.fits(bytes),
{
    lemma_expression_fits(tokens, eof, pos, MIN, bytes);
}

/// Where every token fits a text, an expression fits it.
pub proof fn lemma_expression_fits(
    tokens: Seq<Token>,
    eof: BytePos,
    pos: int,
    min_bp: u8,
    bytes: Seq<u8>,
)
    requires
        0 <= pos,
        tokens_fit(tokens, bytes),
    ensures
        expression(tokens, eof, pos, min_bp) matches Ok((tree, _)) ==> tree.fits(bytes),
{
    lemma_job_fits(tokens, eof, pos, min_bp, bytes);
    if let Ok((left, next)) = job(tokens, eof, pos, min_bp) {
        lemma_job_advances(tokens, eof, pos, min_bp);
        lemma_sequence_tail_fits(tokens, eof, left, next, bytes);
    }
}

/// Where every token fits a text, a job fits it.
proof fn lemma_job_fits(tokens: Seq<Token>, eof: BytePos, pos: int, min_bp: u8, bytes: Seq<u8>)
    requires
        0 <= pos,
        tokens_fit(tokens, bytes),
    ensures
        job(tokens, eof, pos, min_bp) matches Ok((tree, _)) ==> tree.fits(bytes),
{
    lemma_primary_fits(tokens, eof, pos, bytes);
    if let Ok((left, next)) = primary(tokens, eof, pos) {
        lemma_atoms_end(tokens, pos + 1);
        lemma_job_tail_fits(tokens, eof, left, next, min_bp, bytes);
    }
}

/// Where every token fits a text, a command fits it.
proof fn lemma_primary_fits(tokens: Seq<Token>, eof: BytePos, pos: int, bytes: Seq<u8>)
    requires
        0 <= pos,
        tokens_fit(tokens, bytes),
    ensures
        primary(tokens, eof, pos) matches Ok((tree, _)) ==> tree.fits(bytes),
{
    if let Ok((tree, _)) = primary(tokens, eof, pos) {
        lemma_atoms_end(tokens, pos + 1);
        let command = command_at(tokens, pos);
        assert(tokens[pos].1.fits(bytes));
        assert forall|i: int| 0 <= i < command.args.len() implies (#[trigger] command.args[i]).fits(
            bytes,
        ) by {
            assert(tokens[pos + 1 + i].1.fits(bytes));
        }
    }
}

/// Where every token and the operand fit a text, the job fits it.
proof fn lemma_job_tail_fits(
    tokens: Seq<Token>,
    eof: BytePos,
    left: AstView,
    pos: int,
    min_bp: u8,
    bytes: Seq<u8>,
)
    requires
        0 <= pos <= tokens.len(),
        tokens_fit(tokens, bytes),
        left.fits(bytes),
    ensures
        job_tail(tokens, eof, left, pos, min_bp) matches Ok((tree, _)) ==> tree.fits(bytes),
    decreases tokens.len() - pos,
{
    if pos < tokens.len() {
        if tokens[pos].0 == TokenKind::Ampersand && min_bp < BACKGROUND {
            let wrapped = AstView::BackgroundJob(Box::new(left));
            assert(wrapped.fits(bytes));
            lemma_job_tail_fits(tokens, eof, wrapped, pos + 1, min_bp, bytes);
        } else if tokens[pos].0 == TokenKind::Pipe && min_bp < PIPELINE {
            lemma_primary_fits(tokens, eof, pos + 1, bytes);
            if let Ok((right, next)) = primary(tokens, eof, pos + 1) {
                if let Ok(joined) = pipeline_of(left, right) {
                    lemma_atoms_end(tokens, pos + 2);
                    lemma_pipeline_of_fits(left, right, bytes);
                    lemma_job_tail_fits(tokens, eof, joined, next, min_bp, bytes);
                }
            }
        }
    }
}

/// A pipeline of operands that fit a text fits it.
proof fn lemma_pipeline_of_fits(left: AstView, right: AstView, bytes: Seq<u8>)
    requires
        left.fits(bytes),
        right.fits(bytes),
    ensures
        pipeline_of(left, right) matches Ok(joined) ==> joined.fits(bytes),
{
    if let Ok(joined) = pipeline_of(left, right) {
        let commands = joined->Pipeline_0;
        assert forall|i: int| 0 <= i < commands.len() implies (#[trigger] commands[i]).fits(
            bytes,
        ) by {
            match left {
                AstView::Pipeline(before) => {
                    if i < before.len() {
                        assert(before[i].fits(bytes));
                    }
                },
                _ => {},
            }
        }
    }
}

/// A sequence of operands that fit a text fits it.
proof fn lemma_sequence_of_fits(left: AstView, right: AstView, bytes: Seq<u8>)
    requires
        left.fits(bytes),
        right.fits(bytes),
    ensures
        sequence_of(left, right).fits(bytes),
{
    let items = sequence_of(left, right)->Sequence_0;
    assert forall|i: int| 0 <= i < items.len() implies (#[trigger] items[i]).fits(bytes) by {
        match left {
            AstView::Sequence(before) => {
                if i < before.len() {
                    assert(before[i].fits(bytes));
                }
            },
            _ => {},
        }
    }
}

/// Where every token and the jobs read so far fit a text, the line fits it.
proof fn lemma_sequence_tail_fits(
    tokens: Seq<Token>,
    eof: BytePos,
    left: AstView,
    pos: int,
    bytes: Seq<u8>,
)
    requires
        0 <= pos <= tokens.len(),
        tokens_fit(tokens, bytes),
        left.fits(bytes),
    ensures
        sequence_tail(tokens, eof, left, pos) matches Ok((tree, _)) ==> tree.fits(bytes),
    decreases tokens.len() - pos,
{
    if pos < tokens.len() && tokens[pos].0 == TokenKind::Semi {
        lemma_job_fits(tokens, eof, pos + 1, SEQUENCE, bytes);
        if let Ok((right, next)) = job(tokens, eof, pos + 1, SEQUENCE) {
            lemma_job_advances(tokens, eof, pos + 1, SEQUENCE);
            lemma_sequence_of_fits(left, right, bytes);
            lemma_sequence_tail_fits(tokens, eof, sequence_of(left, right), next, bytes);
        }
    }
}

/// `|` takes a single command on its right and a single command or a
/// pipeline on its left. Any other operand, be it a sequence or a background
/// job, is refused with "expected command".
pub proof fn lemma_pipe_operands(left: AstView, right: AstView)
    ensures
        pipeline_of(left, right) is Ok <==> (left is Command || left is Pipeline)
            && right is Command,
        pipeline_of(left, right) is Err ==> pipeline_of(left, right) == Err::<AstView, Error>(
            Error::ExpectedCommand(TokenKind::Atom),
        ),
{
}

/// A tree that one job can be: a command, a pipeline of two commands or
/// more, or one of these sent to the background.
pub open spec fn is_job(tree: AstView) -> bool
    decreases tree,
{
    match tree {
        AstView::Command(_) => true,
        AstView::Pipeline(commands) => commands.len() >= 2,
        AstView::BackgroundJob(inner) => is_job(*inner),
        AstView::Sequence(_) => false,
    }
}

/// A tree that a line can be: one job, or a sequence of two jobs or more.
/// A sequence holds no sequence.
pub open spec fn is_line(tree: AstView) -> bool {
    match tree {
        AstView::Sequence(items) => items.len() >= 2 && forall|i: int|
            0 <= i < items.len() ==> is_job(#[trigger] items[i]),
        _ => is_job(tree),
    }
}

/// Every tree that is read is flat: a pipeline has two commands or more and
/// stands for one job, and a sequence has two jobs or more, none of them a
/// sequence itself.
pub proof fn lemma_parse_is_flat(tokens: Seq<Token>, eof: BytePos, pos: int)
    requires
        0 <= pos,
    ensures
        parse_spec(tokens, eof, pos) matches Ok(tree) ==> is_line(tree),
{
    lemma_job_is_job(tokens, eof, pos, MIN);
    if let Ok((left, next)) = job(tokens, eof, pos, MIN) {
        lemma_job_advances(tokens, eof, pos, MIN);
        lemma_sequence_tail_is_line(tokens, eof, left, next);
    }
}

/// What is read as one job is one.
proof fn lemma_job_is_job(tokens: Seq<Token>, eof: BytePos, pos: int, min_bp: u8)
    requires
        0 <= pos,
    ensures
        job(tokens, eof, pos, min_bp) matches Ok((tree, _)) ==> is_job(tree),
{
    if let Ok((left, next)) = primary(tokens, eof, pos) {
        lemma_atoms_end(tokens, pos + 1);
        lemma_job_tail_is_job(tokens, eof, left, next, min_bp);
    }
}

/// An operator behind a job makes a job of it.
proof fn lemma_job_tail_is_job(
    tokens: Seq<Token>,
    eof: BytePos,
    left: AstView,
    pos: int,
    min_bp: u8,
)
    requires
        0 <= pos <= tokens.len(),
        is_job(left),
    ensures
        job_tail(tokens, eof, left, pos, min_bp) matches Ok((tree, _)) ==> is_job(tree),
    decreases tokens.len() - pos,
{
    if pos < tokens.len() {
        if tokens[pos].0 == TokenKind::Ampersand && min_bp < BACKGROUND {
            let wrapped = AstView::BackgroundJob(Box::new(left));
            assert(is_job(wrapped));
            lemma_job_tail_is_job(tokens, eof, wrapped, pos + 1, min_bp);
        } else if tokens[pos].0 == TokenKind::Pipe && min_bp < PIPELINE {
            if let Ok((right, next)) = primary(tokens, eof, pos + 1) {
                if let Ok(joined) = pipeline_of(left, right) {
                    lemma_atoms_end(tokens, pos + 2);
                    lemma_job_tail_is_job(tokens, eof, joined, next, min_bp);
                }
            }
        }
    }
}

/// A job behind a line makes a line of it.
proof fn lemma_sequence_tail_is_line(tokens: Seq<Token>, eof: BytePos, left: AstView, pos: int)
    requires
        0 <= pos <= tokens.len(),
        is_line(left),
    ensures
        sequence_tail(tokens, eof, left, pos) matches Ok((tree, _)) ==> is_line(tree),
    decreases tokens.len() - pos,
{
    if pos < tokens.len() && tokens[pos].0 == TokenKind::Semi {
        lemma_job_is_job(tokens, eof, pos + 1, SEQUENCE);
        if let Ok((right, next)) = job(tokens, eof, pos + 1, SEQUENCE) {
            lemma_job_advances(tokens, eof, pos + 1, SEQUENCE);
            let joined = sequence_of(left, right);
            assert(is_line(joined)) by {
                let items = joined->Sequence_0;
                assert forall|i: int| 0 <= i < items.len() implies is_job(#[trigger] items[i]) by {
                    match left {
                        AstView::Sequence(before) => {
                            if i < before.len() {
                                assert(is_job(before[i]));
                            }
                        },
                        _ => {},
                    }
                }
            }
            lemma_sequence_tail_is_line(tokens, eof, joined, next);
        }
    }
}

/// A failure that reading a line can end in: the input ended where a
/// command was due, or a token stood there that starts no command, or an
/// operand of `|` was no single command.
pub open spec fn is_reading_failure(e: Error) -> bool {
    match e {
        Error::UnexpectedEof => true,
        Error::ExpectedCommand(kind) => kind != TokenKind::Eof,
        _ => false,
    }
}

/// Reading a line fails in one of two ways only. No line gives an
/// unexpected token or an empty command: a token that is no operator ends
/// the line, and a command starts with the atom that names its program.
pub proof fn lemma_parse_failures(tokens: Seq<Token>, eof: BytePos, pos: int)
    requires
        0 <= pos,
    ensures
        parse_spec(tokens, eof, pos) matches Err(e) ==> is_reading_failure(e),
{
    lemma_job_failures(tokens, eof, pos, MIN);
    if let Ok((left, next)) = job(tokens, eof, pos, MIN) {
        lemma_job_advances(tokens, eof, pos, MIN);
        lemma_sequence_tail_failures(tokens, eof, left, next);
    }
}

/// Reading a job fails in one of the two ways.
proof fn lemma_job_failures(tokens: Seq<Token>, eof: BytePos, pos: int, min_bp: u8)
    requires
        0 <= pos,
    ensures
        job(tokens, eof, pos, min_bp) matches Err(e) ==> is_reading_failure(e),
{
    if let Ok((left, next)) = primary(tokens, eof, pos) {
        lemma_atoms_end(tokens, pos + 1);
        lemma_job_tail_failures(tokens, eof, left, next, min_bp);
    }
}

/// Reading the tail of a job fails in one of the two ways.
proof fn lemma_job_tail_failures(
    tokens: Seq<Token>,
    eof: BytePos,
    left: AstView,
    pos: int,
    min_bp: u8,
)
    requires
        0 <= pos <= tokens.len(),
    ensures
        job_tail(tokens, eof, left, pos, min_bp) matches Err(e) ==> is_reading_failure(e),
    decreases tokens.len() - pos,
{
    if pos < tokens.len() {
        if tokens[pos].0 == TokenKind::Ampersand && min_bp < BACKGROUND {
            lemma_job_tail_failures(
                tokens,
                eof,
                AstView::BackgroundJob(Box::new(left)),
                pos + 1,
                min_bp,
            );
        } else if tokens[pos].0 == TokenKind::Pipe && min_bp < PIPELINE {
            if let Ok((right, next)) = primary(tokens, eof, pos + 1) {
                if let Ok(joined) = pipeline_of(left, right) {
                    lemma_atoms_end(tokens, pos + 2);
                    lemma_job_tail_failures(tokens, eof, joined, next, min_bp);
                }
            }
        }
    }
}

/// Reading the jobs behind the first fails in one of the two ways.
proof fn lemma_sequence_tail_failures(tokens: Seq<Token>, eof: BytePos, left: AstView, pos: int)
    requires
        0 <= pos <= tokens.len(),
    ensures
        sequence_tail(tokens, eof, left, pos) matches Err(e) ==> is_reading_failure(e),
    decreases tokens.len() - pos,
{
    if pos < tokens.len() && tokens[pos].0 == TokenKind::Semi {
        lemma_job_failures(tokens, eof, pos + 1, SEQUENCE);
        if let Ok((right, next)) = job(tokens, eof, pos + 1, SEQUENCE) {
            lemma_job_advances(tokens, eof, pos + 1, SEQUENCE);
            lemma_sequence_tail_failures(tokens, eof, sequence_of(left, right), next);
        }
    }
}

} // verus!
