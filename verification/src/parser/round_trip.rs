//! A tree that is written out and read again is the same tree, but for the
//! places of its words.

use crate::lexer::laws::{
    is_word, lemma_lex_from, lemma_lex_of_spelled, lemma_spelled_behind_first,
    lemma_spelled_behind_of_part, lemma_spelled_behind_split, lexemes, lexemes_wf, spelled,
    spelled_behind, Lexeme,
};
use crate::lexer::token::{lemma_boundary_in_prefix, BytePos, Span, Token, TokenKind};
use crate::lexer::{lex_from, lex_spec, AMPERSAND, PIPE, SEMICOLON, SPACE};
use crate::parser::ast::{command_texts, joined, word, AstView};
use crate::parser::line_spec;
use crate::parser::grammar::{
    atoms_end, command_at, expression, job, job_tail, lemma_atoms_end, lemma_job_advances,
    lemma_job_tail_advances, pipeline_of, primary, sequence_of, sequence_tail, Parsed,
    BACKGROUND, MIN, PIPELINE, SEQUENCE,
};
use crate::parser::laws::lemma_atoms_run;
use vstd::prelude::*;
use vstd::utf8::{
    decode_utf8_encode_utf8, encode_utf8, is_ascii_chars_encode_utf8,
    is_char_boundary_start_end_of_seq, valid_utf8, valid_utf8_split,
};

verus! {

/// Two token sequences say the same up to `upto`, and the second one ends
/// there: token for token the same kind and, for atoms, the same text.
pub open spec fn agree(
    first: Seq<Token>,
    first_bytes: Seq<u8>,
    second: Seq<Token>,
    second_bytes: Seq<u8>,
    upto: int,
) -> bool {
    &&& 0 <= upto <= first.len()
    &&& upto <= second.len()
    &&& forall|i: int|
        0 <= i < upto ==> #[trigger] Lexeme::of(first[i], first_bytes) == Lexeme::of(
            second[i],
            second_bytes,
        )
    &&& (upto == second.len() || second[upto].0 == TokenKind::Eof)
}

/// Reading from the second sequence gives what reading from the first one
/// gave: a tree of the same shape that ends at the same token.
pub open spec fn same_reading(
    first: Parsed,
    first_bytes: Seq<u8>,
    second: Parsed,
    second_bytes: Seq<u8>,
) -> bool {
    match (first, second) {
        (Ok((tree, next)), Ok((other, other_next))) => next == other_next && tree.shape(first_bytes)
            == other.shape(second_bytes),
        _ => false,
    }
}

/// Token sequences that say the same up to the end of a command give
/// commands with the same words.
proof fn lemma_primary_agrees(
    first: Seq<Token>,
    first_eof: BytePos,
    first_bytes: Seq<u8>,
    second: Seq<Token>,
    second_eof: BytePos,
    second_bytes: Seq<u8>,
    upto: int,
    pos: int,
)
    requires
        agree(first, first_bytes, second, second_bytes, upto),
        0 <= pos,
        primary(first, first_eof, pos) matches Ok((_, next)) && next <= upto,
    ensures
        same_reading(
            primary(first, first_eof, pos),
            first_bytes,
            primary(second, second_eof, pos),
            second_bytes,
        ),
{
    let next = atoms_end(first, pos + 1);
    lemma_atoms_end(first, pos + 1);
    assert(Lexeme::of(first[pos], first_bytes) == Lexeme::of(second[pos], second_bytes));
    assert forall|i: int| pos + 1 <= i < next implies (#[trigger] second[i]).0
        == TokenKind::Atom by {
        assert(Lexeme::of(first[i], first_bytes) == Lexeme::of(second[i], second_bytes));
        assert(first[i].0 == TokenKind::Atom);
    }
    if next < upto {
        assert(Lexeme::of(first[next], first_bytes) == Lexeme::of(second[next], second_bytes));
    }
    lemma_atoms_run(second, pos + 1, next);
    let command = command_at(first, pos);
    let other = command_at(second, pos);
    assert forall|i: int| 0 <= i < command.args.len() implies command.args[i].text(first_bytes)
        == other.args[i].text(second_bytes) by {
        assert(Lexeme::of(first[pos + 1 + i], first_bytes) == Lexeme::of(
            second[pos + 1 + i],
            second_bytes,
        ));
        assert(first[pos + 1 + i].0 == TokenKind::Atom);
    }
    assert(command.shape(first_bytes) =~= other.shape(second_bytes));
}

/// Pipelines of operands of the same shapes have the same shape.
proof fn lemma_pipeline_of_agrees(
    left: AstView,
    right: AstView,
    first_bytes: Seq<u8>,
    other_left: AstView,
    other_right: AstView,
    second_bytes: Seq<u8>,
)
    requires
        left.shape(first_bytes) == other_left.shape(second_bytes),
        right.shape(first_bytes) == other_right.shape(second_bytes),
        pipeline_of(left, right) is Ok,
    ensures
        pipeline_of(other_left, other_right) is Ok,
        pipeline_of(left, right)->Ok_0.shape(first_bytes) == pipeline_of(
            other_left,
            other_right,
        )->Ok_0.shape(second_bytes),
{
    let joined = pipeline_of(left, right)->Ok_0;
    let other = pipeline_of(other_left, other_right)->Ok_0;
    match left {
        AstView::Pipeline(commands) => {
            let others = other_left->Pipeline_0;
            let shapes = left.shape(first_bytes)->Pipeline_0;
            let other_shapes = other_left.shape(second_bytes)->Pipeline_0;
            assert(shapes == other_shapes);
            assert(shapes.len() == commands.len());
            assert(other_shapes.len() == others.len());
            assert forall|i: int| 0 <= i < commands.len() implies (#[trigger] commands[i]).shape(
                first_bytes,
            ) == others[i].shape(second_bytes) by {
                assert(shapes[i] == commands[i].shape(first_bytes));
                assert(other_shapes[i] == others[i].shape(second_bytes));
            }
            assert(joined.shape(first_bytes)->Pipeline_0 =~= other.shape(second_bytes)->Pipeline_0);
        },
        _ => {
            assert(joined.shape(first_bytes)->Pipeline_0 =~= other.shape(second_bytes)->Pipeline_0);
        },
    }
}

/// Sequences of operands of the same shapes have the same shape.
proof fn lemma_sequence_of_agrees(
    left: AstView,
    right: AstView,
    first_bytes: Seq<u8>,
    other_left: AstView,
    other_right: AstView,
    second_bytes: Seq<u8>,
)
    requires
        left.shape(first_bytes) == other_left.shape(second_bytes),
        right.shape(first_bytes) == other_right.shape(second_bytes),
    ensures
        sequence_of(left, right).shape(first_bytes) == sequence_of(other_left, other_right).shape(
            second_bytes,
        ),
{
    let joined = sequence_of(left, right);
    let other = sequence_of(other_left, other_right);
    match left {
        AstView::Sequence(items) => {
            let others = other_left->Sequence_0;
            let shapes = left.shape(first_bytes)->Sequence_0;
            let other_shapes = other_left.shape(second_bytes)->Sequence_0;
            assert(shapes == other_shapes);
            assert(shapes.len() == items.len());
            assert(other_shapes.len() == others.len());
            assert forall|i: int| 0 <= i < items.len() implies (#[trigger] items[i]).shape(
                first_bytes,
            ) == others[i].shape(second_bytes) by {
                assert(shapes[i] == items[i].shape(first_bytes));
                assert(other_shapes[i] == others[i].shape(second_bytes));
            }
            assert(joined.shape(first_bytes)->Sequence_0 =~= other.shape(second_bytes)->Sequence_0);
        },
        _ => {
            assert(joined.shape(first_bytes)->Sequence_0 =~= other.shape(second_bytes)->Sequence_0);
        },
    }
}

/// Token sequences that say the same up to the end of a job give the same
/// tail to operands of the same shape.
proof fn lemma_job_tail_agrees(
    first: Seq<Token>,
    first_eof: BytePos,
    first_bytes: Seq<u8>,
    second: Seq<Token>,
    second_eof: BytePos,
    second_bytes: Seq<u8>,
    upto: int,
    left: AstView,
    other_left: AstView,
    pos: int,
    min_bp: u8,
)
    requires
        agree(first, first_bytes, second, second_bytes, upto),
        0 <= pos <= upto,
        left.shape(first_bytes) == other_left.shape(second_bytes),
        job_tail(first, first_eof, left, pos, min_bp) matches Ok((_, next)) && next <= upto,
    ensures
        same_reading(
            job_tail(first, first_eof, left, pos, min_bp),
            first_bytes,
            job_tail(second, second_eof, other_left, pos, min_bp),
            second_bytes,
        ),
    decreases upto - pos,
{
    if pos < upto {
        assert(Lexeme::of(first[pos], first_bytes) == Lexeme::of(second[pos], second_bytes));
    }
    if pos < first.len() && first[pos].0 == TokenKind::Ampersand && min_bp < BACKGROUND {
        let wrapped = AstView::BackgroundJob(Box::new(left));
        let other = AstView::BackgroundJob(Box::new(other_left));
        lemma_job_tail_advances(first, first_eof, wrapped, pos + 1, min_bp);
        lemma_job_tail_agrees(
            first,
            first_eof,
            first_bytes,
            second,
            second_eof,
            second_bytes,
            upto,
            wrapped,
            other,
            pos + 1,
            min_bp,
        );
    } else if pos < first.len() && first[pos].0 == TokenKind::Pipe && min_bp < PIPELINE {
        let (right, next) = primary(first, first_eof, pos + 1)->Ok_0;
        let joined = pipeline_of(left, right)->Ok_0;
        lemma_atoms_end(first, pos + 2);
        lemma_job_tail_advances(first, first_eof, joined, next, min_bp);
        lemma_primary_agrees(
            first,
            first_eof,
            first_bytes,
            second,
            second_eof,
            second_bytes,
            upto,
            pos + 1,
        );
        let (other_right, _) = primary(second, second_eof, pos + 1)->Ok_0;
        lemma_pipeline_of_agrees(left, right, first_bytes, other_left, other_right, second_bytes);
        let other = pipeline_of(other_left, other_right)->Ok_0;
        lemma_job_tail_agrees(
            first,
            first_eof,
            first_bytes,
            second,
            second_eof,
            second_bytes,
            upto,
            joined,
            other,
            next,
            min_bp,
        );
    }
}

/// Token sequences that say the same up to the end of a job give jobs of
/// the same shape.
proof fn lemma_job_agrees(
    first: Seq<Token>,
    first_eof: BytePos,
    first_bytes: Seq<u8>,
    second: Seq<Token>,
    second_eof: BytePos,
    second_bytes: Seq<u8>,
    upto: int,
    pos: int,
    min_bp: u8,
)
    requires
        agree(first, first_bytes, second, second_bytes, upto),
        0 <= pos,
        job(first, first_eof, pos, min_bp) matches Ok((_, next)) && next <= upto,
    ensures
        same_reading(
            job(first, first_eof, pos, min_bp),
            first_bytes,
            job(second, second_eof, pos, min_bp),
            second_bytes,
        ),
{
    let (left, next) = primary(first, first_eof, pos)->Ok_0;
    lemma_atoms_end(first, pos + 1);
    lemma_job_tail_advances(first, first_eof, left, next, min_bp);
    lemma_primary_agrees(
        first,
        first_eof,
        first_bytes,
        second,
        second_eof,
        second_bytes,
        upto,
        pos,
    );
    let (other_left, _) = primary(second, second_eof, pos)->Ok_0;
    lemma_job_tail_agrees(
        first,
        first_eof,
        first_bytes,
        second,
        second_eof,
        second_bytes,
        upto,
        left,
        other_left,
        next,
        min_bp,
    );
}

/// The tail of a sequence ends at or behind the place where it starts.
proof fn lemma_sequence_tail_advances(tokens: Seq<Token>, eof: BytePos, left: AstView, pos: int)
    requires
        0 <= pos <= tokens.len(),
    ensures
        sequence_tail(tokens, eof, left, pos) matches Ok((_, next)) ==> pos <= next <= tokens.len(),
    decreases tokens.len() - pos,
{
    if pos < tokens.len() && tokens[pos].0 == TokenKind::Semi {
        if let Ok((right, next)) = job(tokens, eof, pos + 1, SEQUENCE) {
            lemma_job_advances(tokens, eof, pos + 1, SEQUENCE);
            lemma_sequence_tail_advances(tokens, eof, sequence_of(left, right), next);
        }
    }
}

/// Token sequences that say the same up to the end of a line give the same
/// jobs behind operands of the same shape.
proof fn lemma_sequence_tail_agrees(
    first: Seq<Token>,
    first_eof: BytePos,
    first_bytes: Seq<u8>,
    second: Seq<Token>,
    second_eof: BytePos,
    second_bytes: Seq<u8>,
    upto: int,
    left: AstView,
    other_left: AstView,
    pos: int,
)
    requires
        agree(first, first_bytes, second, second_bytes, upto),
        0 <= pos <= upto,
        left.shape(first_bytes) == other_left.shape(second_bytes),
        sequence_tail(first, first_eof, left, pos) matches Ok((_, next)) && next <= upto,
    ensures
        same_reading(
            sequence_tail(first, first_eof, left, pos),
            first_bytes,
            sequence_tail(second, second_eof, other_left, pos),
            second_bytes,
        ),
    decreases upto - pos,
{
    if pos < upto {
        assert(Lexeme::of(first[pos], first_bytes) == Lexeme::of(second[pos], second_bytes));
    }
    if pos < first.len() && first[pos].0 == TokenKind::Semi {
        let (right, next) = job(first, first_eof, pos + 1, SEQUENCE)->Ok_0;
        lemma_job_advances(first, first_eof, pos + 1, SEQUENCE);
        lemma_sequence_tail_advances(first, first_eof, sequence_of(left, right), next);
        lemma_job_agrees(
            first,
            first_eof,
            first_bytes,
            second,
            second_eof,
            second_bytes,
            upto,
            pos + 1,
            SEQUENCE,
        );
        let (other_right, _) = job(second, second_eof, pos + 1, SEQUENCE)->Ok_0;
        lemma_sequence_of_agrees(left, right, first_bytes, other_left, other_right, second_bytes);
        lemma_sequence_tail_agrees(
            first,
            first_eof,
            first_bytes,
            second,
            second_eof,
            second_bytes,
            upto,
            sequence_of(left, right),
            sequence_of(other_left, other_right),
            next,
        );
    }
}

/// Token sequences that say the same up to the end of an expression give
/// expressions of the same shape.
pub proof fn lemma_expression_agrees(
    first: Seq<Token>,
    first_eof: BytePos,
    first_bytes: Seq<u8>,
    second: Seq<Token>,
    second_eof: BytePos,
    second_bytes: Seq<u8>,
    upto: int,
    pos: int,
    min_bp: u8,
)
    requires
        agree(first, first_bytes, second, second_bytes, upto),
        0 <= pos,
        expression(first, first_eof, pos, min_bp) matches Ok((_, next)) && next <= upto,
    ensures
        same_reading(
            expression(first, first_eof, pos, min_bp),
            first_bytes,
            expression(second, second_eof, pos, min_bp),
            second_bytes,
        ),
{
    let (left, next) = job(first, first_eof, pos, min_bp)->Ok_0;
    lemma_job_advances(first, first_eof, pos, min_bp);
    if min_bp < SEQUENCE {
        lemma_sequence_tail_advances(first, first_eof, left, next);
    }
    lemma_job_agrees(
        first,
        first_eof,
        first_bytes,
        second,
        second_eof,
        second_bytes,
        upto,
        pos,
        min_bp,
    );
    if min_bp < SEQUENCE {
        let (other_left, _) = job(second, second_eof, pos, min_bp)->Ok_0;
        lemma_sequence_tail_agrees(
            first,
            first_eof,
            first_bytes,
            second,
            second_eof,
            second_bytes,
            upto,
            left,
            other_left,
            next,
        );
    }
}

/// The bytes of a text in two parts are the bytes of the parts.
pub proof fn lemma_encode_concat(first: Seq<char>, second: Seq<char>)
    ensures
        encode_utf8(first + second) == encode_utf8(first) + encode_utf8(second),
    decreases first.len(),
{
    if first.len() == 0 {
        assert(first + second =~= second);
        assert(encode_utf8(first) + encode_utf8(second) =~= encode_utf8(second));
    } else {
        lemma_encode_concat(first.drop_first(), second);
        assert((first + second).drop_first() =~= first.drop_first() + second);
        assert(encode_utf8(first + second) =~= encode_utf8(first) + encode_utf8(second));
    }
}

/// The bytes of the text that a span covers are the bytes that it covers.
pub proof fn lemma_encode_word(span: Span, bytes: Seq<u8>)
    requires
        valid_utf8(bytes),
        span.fits(bytes),
    ensures
        encode_utf8(word(span, bytes)) == span.text(bytes),
{
    let start = span.start.0 as int;
    let end = span.end.0 as int;
    lemma_boundary_in_prefix(bytes, start, end);
    let prefix = bytes.subrange(0, end);
    valid_utf8_split(prefix, start);
    assert(prefix.subrange(start, prefix.len() as int) =~= span.text(bytes));
    decode_utf8_encode_utf8(span.text(bytes));
}

/// The bytes of the separators.
proof fn lemma_encode_separators()
    ensures
        encode_utf8(" "@) == seq![SPACE],
        encode_utf8(" | "@) == seq![SPACE, PIPE, SPACE],
        encode_utf8("; "@) == seq![SEMICOLON, SPACE],
        encode_utf8(" &"@) == seq![SPACE, AMPERSAND],
{
    reveal_strlit(" ");
    reveal_strlit(" | ");
    reveal_strlit("; ");
    reveal_strlit(" &");
    is_ascii_chars_encode_utf8(" "@);
    is_ascii_chars_encode_utf8(" | "@);
    is_ascii_chars_encode_utf8("; "@);
    is_ascii_chars_encode_utf8(" &"@);
    assert(encode_utf8(" "@) =~= seq![SPACE]);
    assert(encode_utf8(" | "@) =~= seq![SPACE, PIPE, SPACE]);
    assert(encode_utf8("; "@) =~= seq![SEMICOLON, SPACE]);
    assert(encode_utf8(" &"@) =~= seq![SPACE, AMPERSAND]);
}

/// Parts joined up to a place depend on the parts in front of it alone.
proof fn lemma_joined_of_part(
    first: Seq<Seq<char>>,
    second: Seq<Seq<char>>,
    separator: Seq<char>,
    upto: int,
)
    requires
        upto <= first.len(),
        upto <= second.len(),
        forall|i: int| 0 <= i < upto ==> first[i] == second[i],
    ensures
        joined(first, separator, upto) == joined(second, separator, upto),
    decreases upto,
{
    if upto > 1 {
        lemma_joined_of_part(first, second, separator, upto - 1);
    }
}

/// The items of a sequence written out up to a place depend on the items
/// in front of it alone.
proof fn lemma_sequence_text_of_part(
    first: Seq<AstView>,
    second: Seq<AstView>,
    bytes: Seq<u8>,
    upto: nat,
)
    requires
        upto <= first.len(),
        upto <= second.len(),
        forall|i: int| 0 <= i < upto ==> first[i] == second[i],
    ensures
        AstView::sequence_text(first, bytes, upto) == AstView::sequence_text(second, bytes, upto),
    decreases upto,
{
    if upto > 1 {
        lemma_sequence_text_of_part(first, second, bytes, (upto - 1) as nat);
    }
}

/// A tree that holds an empty pipeline or an empty sequence at its top is
/// not proper: no line gives one.
pub open spec fn proper(tree: AstView) -> bool {
    match tree {
        AstView::Pipeline(commands) => commands.len() >= 1,
        AstView::Sequence(items) => items.len() >= 1,
        _ => true,
    }
}

/// `left | right` is written as the two with ` | ` between them.
proof fn lemma_pipeline_text(left: AstView, right: AstView, bytes: Seq<u8>)
    requires
        proper(left),
        pipeline_of(left, right) is Ok,
    ensures
        pipeline_of(left, right)->Ok_0.text(bytes) == left.text(bytes) + " | "@ + right.text(bytes),
        proper(pipeline_of(left, right)->Ok_0),
{
    let joined_tree = pipeline_of(left, right)->Ok_0;
    let all = joined_tree->Pipeline_0;
    let command = right->Command_0;
    match left {
        AstView::Pipeline(commands) => {
            let count = commands.len() as int;
            assert(all == commands.push(command));
            lemma_joined_of_part(
                command_texts(all, bytes),
                command_texts(commands, bytes),
                " | "@,
                count,
            );
            assert(command_texts(all, bytes)[count] == command.text(bytes));
        },
        _ => {
            let first = left->Command_0;
            assert(all == seq![first, command]);
            assert(command_texts(all, bytes)[0] == first.text(bytes));
            assert(command_texts(all, bytes)[1] == command.text(bytes));
            assert(joined(command_texts(all, bytes), " | "@, 1) == first.text(bytes));
        },
    }
}

/// `left ; right` is written as the two with `; ` between them.
proof fn lemma_sequence_text(left: AstView, right: AstView, bytes: Seq<u8>)
    requires
        proper(left),
    ensures
        sequence_of(left, right).text(bytes) == left.text(bytes) + "; "@ + right.text(bytes),
        proper(sequence_of(left, right)),
{
    let all = sequence_of(left, right)->Sequence_0;
    match left {
        AstView::Sequence(items) => {
            let count = items.len();
            assert(all == items.push(right));
            lemma_sequence_text_of_part(all, items, bytes, count);
            assert(all[count as int] == right);
            assert(left.text(bytes) == AstView::sequence_text(items, bytes, count));
            assert(AstView::sequence_text(all, bytes, count + 1) == AstView::sequence_text(
                all,
                bytes,
                count,
            ) + "; "@ + all[count as int].text(bytes));
            assert(sequence_of(left, right).text(bytes) == AstView::sequence_text(
                all,
                bytes,
                count + 1,
            ));
        },
        _ => {
            assert(all == seq![left, right]);
            assert(all[0] == left);
            assert(all[1] == right);
            assert(AstView::sequence_text(all, bytes, 1) == left.text(bytes));
            assert(AstView::sequence_text(all, bytes, 2) == AstView::sequence_text(all, bytes, 1)
                + "; "@ + all[1].text(bytes));
            assert(sequence_of(left, right).text(bytes) == AstView::sequence_text(all, bytes, 2));
        },
    }
}

/// Every token fits the text and every atom covers a word of it.
pub open spec fn lexed(tokens: Seq<Token>, bytes: Seq<u8>) -> bool {
    forall|i: int|
        0 <= i < tokens.len() ==> {
            let token = #[trigger] tokens[i];
            &&& token.1.fits(bytes)
            &&& token.0 == TokenKind::Atom ==> is_word(token.1.text(bytes))
        }
}

/// `tree` is what the tokens from `start` up to `next` say: written out it
/// gives their spellings, each behind its gap, and none of them is an
/// end-of-input token.
pub open spec fn renders(
    tokens: Seq<Token>,
    bytes: Seq<u8>,
    tree: AstView,
    start: int,
    next: int,
) -> bool {
    &&& 0 <= start < next <= tokens.len()
    &&& tokens[start].0 == TokenKind::Atom
    &&& forall|i: int| start <= i < next ==> (#[trigger] tokens[i]).0 != TokenKind::Eof
    &&& proper(tree)
    &&& encode_utf8(tree.text(bytes)) == spelled(lexemes(tokens, bytes), start, next)
}

/// The arguments of a command written out are the spellings of their
/// atoms with a blank between each two.
proof fn lemma_arguments_written(tokens: Seq<Token>, bytes: Seq<u8>, pos: int, count: int)
    requires
        valid_utf8(bytes),
        lexed(tokens, bytes),
        0 <= pos,
        1 <= count,
        pos + count < tokens.len(),
        forall|i: int| pos < i <= pos + count ==> (#[trigger] tokens[i]).0 == TokenKind::Atom,
    ensures
        encode_utf8(
            joined(
                Seq::new(
                    command_at(tokens, pos).args.len(),
                    |i: int| word(command_at(tokens, pos).args[i], bytes),
                ),
                " "@,
                count,
            ),
        ) == spelled(lexemes(tokens, bytes), pos + 1, pos + 1 + count),
        count <= command_at(tokens, pos).args.len(),
    decreases count,
{
    let command = command_at(tokens, pos);
    let parts = Seq::new(command.args.len(), |i: int| word(command.args[i], bytes));
    let all = lexemes(tokens, bytes);
    lemma_atoms_end(tokens, pos + 1);
    lemma_atoms_reach(tokens, pos + 1, pos + 1 + count);
    let last = pos + count;
    assert(tokens[last].1.fits(bytes));
    lemma_encode_word(tokens[last].1, bytes);
    assert(parts[count - 1] == word(tokens[last].1, bytes));
    assert(all[last].spelling() == tokens[last].1.text(bytes));
    if count == 1 {
        assert(spelled_behind(all, pos + 2, pos + 2) =~= Seq::<u8>::empty());
        assert(spelled(all, pos + 1, pos + 2) =~= all[last].spelling());
    } else {
        lemma_arguments_written(tokens, bytes, pos, count - 1);
        lemma_encode_separators();
        let before = joined(parts, " "@, count - 1);
        lemma_encode_concat(before + " "@, parts[count - 1]);
        lemma_encode_concat(before, " "@);
        assert(spelled(all, pos + 1, pos + 1 + count) =~= spelled(all, pos + 1, pos + count)
            + all[last].gap() + all[last].spelling());
    }
}

/// A run of atoms reaches every place up to which there are atoms only.
proof fn lemma_atoms_reach(tokens: Seq<Token>, pos: int, end: int)
    requires
        0 <= pos <= end <= tokens.len(),
        forall|i: int| pos <= i < end ==> (#[trigger] tokens[i]).0 == TokenKind::Atom,
    ensures
        end <= atoms_end(tokens, pos),
    decreases end - pos,
{
    if pos < end {
        lemma_atoms_reach(tokens, pos + 1, end);
    } else {
        lemma_atoms_end(tokens, pos);
    }
}

/// A command written out gives the spellings of its atoms with a blank
/// between each two.
proof fn lemma_primary_renders(tokens: Seq<Token>, eof: BytePos, bytes: Seq<u8>, pos: int)
    requires
        valid_utf8(bytes),
        lexed(tokens, bytes),
        0 <= pos,
        primary(tokens, eof, pos) is Ok,
    ensures
        renders(
            tokens,
            bytes,
            primary(tokens, eof, pos)->Ok_0.0,
            pos,
            primary(tokens, eof, pos)->Ok_0.1,
        ),
{
    let (tree, next) = primary(tokens, eof, pos)->Ok_0;
    let command = command_at(tokens, pos);
    let all = lexemes(tokens, bytes);
    let count = next - (pos + 1);
    lemma_atoms_end(tokens, pos + 1);
    assert(tokens[pos].1.fits(bytes));
    lemma_encode_word(tokens[pos].1, bytes);
    assert(all[pos].spelling() == tokens[pos].1.text(bytes));
    assert forall|i: int| pos <= i < next implies (#[trigger] tokens[i]).0 != TokenKind::Eof by {}
    if count == 0 {
        assert(spelled_behind(all, pos + 1, pos + 1) =~= Seq::<u8>::empty());
        assert(spelled(all, pos, next) =~= all[pos].spelling());
        assert(command.arguments_text(bytes) =~= Seq::<char>::empty());
    } else {
        lemma_arguments_written(tokens, bytes, pos, count);
        let arguments = command.arguments_text(bytes);
        assert(is_word(tokens[pos + 1].1.text(bytes)));
        assert(all[pos + 1].spelling() == tokens[pos + 1].1.text(bytes));
        assert(encode_utf8(arguments).len() > 0);
        assert(arguments.len() > 0);
        lemma_encode_separators();
        lemma_encode_concat(word(command.program, bytes) + " "@, arguments);
        lemma_encode_concat(word(command.program, bytes), " "@);
        lemma_spelled_behind_first(all, pos + 1, next);
        assert(spelled(all, pos, next) =~= all[pos].spelling() + seq![SPACE] + spelled(
            all,
            pos + 1,
            next,
        ));
    }
}

/// `left &` is written as `left` and ` &`.
proof fn lemma_background_renders(
    tokens: Seq<Token>,
    bytes: Seq<u8>,
    start: int,
    left: AstView,
    pos: int,
)
    requires
        renders(tokens, bytes, left, start, pos),
        pos < tokens.len(),
        tokens[pos].0 == TokenKind::Ampersand,
    ensures
        renders(tokens, bytes, AstView::BackgroundJob(Box::new(left)), start, pos + 1),
{
    let all = lexemes(tokens, bytes);
    lemma_encode_separators();
    lemma_encode_concat(left.text(bytes), " &"@);
    assert(spelled(all, start, pos + 1) =~= spelled(all, start, pos) + seq![SPACE, AMPERSAND]);
}

/// What two trees with an operator between them are written out to, where
/// the second tree starts with an atom.
proof fn lemma_spelled_around(all: Seq<Lexeme>, start: int, pos: int, next: int)
    requires
        0 <= start < pos,
        pos + 1 < next <= all.len(),
        all[pos + 1].kind == TokenKind::Atom,
    ensures
        spelled(all, start, next) == spelled(all, start, pos) + all[pos].gap()
            + all[pos].spelling() + seq![SPACE] + spelled(all, pos + 1, next),
{
    lemma_spelled_behind_split(all, start + 1, pos, next);
    lemma_spelled_behind_first(all, pos, next);
    lemma_spelled_behind_first(all, pos + 1, next);
    assert(spelled(all, start, next) =~= spelled(all, start, pos) + all[pos].gap()
        + all[pos].spelling() + seq![SPACE] + spelled(all, pos + 1, next));
}

/// `left | right` is written as the tokens of both and the `|` between
/// them.
proof fn lemma_pipe_renders(
    tokens: Seq<Token>,
    bytes: Seq<u8>,
    start: int,
    left: AstView,
    pos: int,
    right: AstView,
    next: int,
)
    requires
        renders(tokens, bytes, left, start, pos),
        pos < tokens.len(),
        tokens[pos].0 == TokenKind::Pipe,
        renders(tokens, bytes, right, pos + 1, next),
        pipeline_of(left, right) is Ok,
    ensures
        renders(tokens, bytes, pipeline_of(left, right)->Ok_0, start, next),
{
    let all = lexemes(tokens, bytes);
    lemma_pipeline_text(left, right, bytes);
    lemma_encode_separators();
    lemma_encode_concat(left.text(bytes) + " | "@, right.text(bytes));
    lemma_encode_concat(left.text(bytes), " | "@);
    lemma_spelled_around(all, start, pos, next);
    assert(spelled(all, start, next) =~= spelled(all, start, pos) + seq![SPACE, PIPE, SPACE]
        + spelled(all, pos + 1, next));
    assert forall|i: int| start <= i < next implies (#[trigger] tokens[i]).0 != TokenKind::Eof by {}
}

/// `left ; right` is written as the tokens of both and the `;` between
/// them.
proof fn lemma_semi_renders(
    tokens: Seq<Token>,
    bytes: Seq<u8>,
    start: int,
    left: AstView,
    pos: int,
    right: AstView,
    next: int,
)
    requires
        renders(tokens, bytes, left, start, pos),
        pos < tokens.len(),
        tokens[pos].0 == TokenKind::Semi,
        renders(tokens, bytes, right, pos + 1, next),
    ensures
        renders(tokens, bytes, sequence_of(left, right), start, next),
{
    let all = lexemes(tokens, bytes);
    lemma_sequence_text(left, right, bytes);
    lemma_encode_separators();
    lemma_encode_concat(left.text(bytes) + "; "@, right.text(bytes));
    lemma_encode_concat(left.text(bytes), "; "@);
    lemma_spelled_around(all, start, pos, next);
    assert(spelled(all, start, next) =~= spelled(all, start, pos) + seq![SEMICOLON, SPACE]
        + spelled(all, pos + 1, next));
    assert forall|i: int| start <= i < next implies (#[trigger] tokens[i]).0 != TokenKind::Eof by {}
}

/// What follows an operand inside a job is written out as the tokens it
/// was read from.
proof fn lemma_job_tail_renders(
    tokens: Seq<Token>,
    eof: BytePos,
    bytes: Seq<u8>,
    start: int,
    left: AstView,
    pos: int,
    min_bp: u8,
)
    requires
        valid_utf8(bytes),
        lexed(tokens, bytes),
        renders(tokens, bytes, left, start, pos),
        job_tail(tokens, eof, left, pos, min_bp) is Ok,
    ensures
        renders(
            tokens,
            bytes,
            job_tail(tokens, eof, left, pos, min_bp)->Ok_0.0,
            start,
            job_tail(tokens, eof, left, pos, min_bp)->Ok_0.1,
        ),
    decreases tokens.len() - pos,
{
    if pos < tokens.len() && tokens[pos].0 == TokenKind::Ampersand && min_bp < BACKGROUND {
        let wrapped = AstView::BackgroundJob(Box::new(left));
        lemma_background_renders(tokens, bytes, start, left, pos);
        lemma_job_tail_renders(tokens, eof, bytes, start, wrapped, pos + 1, min_bp);
    } else if pos < tokens.len() && tokens[pos].0 == TokenKind::Pipe && min_bp < PIPELINE {
        let (right, next) = primary(tokens, eof, pos + 1)->Ok_0;
        let joined_tree = pipeline_of(left, right)->Ok_0;
        lemma_primary_renders(tokens, eof, bytes, pos + 1);
        lemma_pipe_renders(tokens, bytes, start, left, pos, right, next);
        lemma_job_tail_renders(tokens, eof, bytes, start, joined_tree, next, min_bp);
    }
}

/// A job written out gives the spellings of the tokens it was read from.
proof fn lemma_job_renders(
    tokens: Seq<Token>,
    eof: BytePos,
    bytes: Seq<u8>,
    pos: int,
    min_bp: u8,
)
    requires
        valid_utf8(bytes),
        lexed(tokens, bytes),
        0 <= pos,
        job(tokens, eof, pos, min_bp) is Ok,
    ensures
        renders(
            tokens,
            bytes,
            job(tokens, eof, pos, min_bp)->Ok_0.0,
            pos,
            job(tokens, eof, pos, min_bp)->Ok_0.1,
        ),
{
    let (left, next) = primary(tokens, eof, pos)->Ok_0;
    lemma_primary_renders(tokens, eof, bytes, pos);
    lemma_job_tail_renders(tokens, eof, bytes, pos, left, next, min_bp);
}

/// The jobs behind the first are written out as the tokens they were read
/// from.
proof fn lemma_sequence_tail_renders(
    tokens: Seq<Token>,
    eof: BytePos,
    bytes: Seq<u8>,
    start: int,
    left: AstView,
    pos: int,
)
    requires
        valid_utf8(bytes),
        lexed(tokens, bytes),
        renders(tokens, bytes, left, start, pos),
        sequence_tail(tokens, eof, left, pos) is Ok,
    ensures
        renders(
            tokens,
            bytes,
            sequence_tail(tokens, eof, left, pos)->Ok_0.0,
            start,
            sequence_tail(tokens, eof, left, pos)->Ok_0.1,
        ),
    decreases tokens.len() - pos,
{
    if pos < tokens.len() && tokens[pos].0 == TokenKind::Semi {
        let (right, next) = job(tokens, eof, pos + 1, SEQUENCE)->Ok_0;
        lemma_job_advances(tokens, eof, pos + 1, SEQUENCE);
        lemma_job_renders(tokens, eof, bytes, pos + 1, SEQUENCE);
        lemma_semi_renders(tokens, bytes, start, left, pos, right, next);
        lemma_sequence_tail_renders(
            tokens,
            eof,
            bytes,
            start,
            sequence_of(left, right),
            next,
        );
    }
}

/// An expression written out gives the spellings of the tokens it was read
/// from, each behind its gap.
pub proof fn lemma_expression_renders(
    tokens: Seq<Token>,
    eof: BytePos,
    bytes: Seq<u8>,
    pos: int,
    min_bp: u8,
)
    requires
        valid_utf8(bytes),
        lexed(tokens, bytes),
        0 <= pos,
        expression(tokens, eof, pos, min_bp) is Ok,
    ensures
        renders(
            tokens,
            bytes,
            expression(tokens, eof, pos, min_bp)->Ok_0.0,
            pos,
            expression(tokens, eof, pos, min_bp)->Ok_0.1,
        ),
{
    let (left, next) = job(tokens, eof, pos, min_bp)->Ok_0;
    lemma_job_renders(tokens, eof, bytes, pos, min_bp);
    if min_bp < SEQUENCE {
        lemma_sequence_tail_renders(tokens, eof, bytes, pos, left, next);
    }
}

/// The tokens of a text are atoms that cover words of it, operators, and
/// the end-of-input token behind them.
proof fn lemma_lex_spec_lexed(bytes: Seq<u8>)
    requires
        valid_utf8(bytes),
        0 < bytes.len() <= usize::MAX,
    ensures
        lexed(lex_spec(bytes, 0), bytes),
        lex_spec(bytes, 0).len() == lex_from(bytes, 0).len() + 1,
        lex_spec(bytes, 0)[lex_from(bytes, 0).len() as int].0 == TokenKind::Eof,
        forall|i: int|
            0 <= i < lex_from(bytes, 0).len() ==> (#[trigger] Lexeme::of(
                lex_spec(bytes, 0)[i],
                bytes,
            )).wf(),
{
    let inner = lex_from(bytes, 0);
    let tokens = lex_spec(bytes, 0);
    is_char_boundary_start_end_of_seq(bytes);
    lemma_lex_from(bytes, 0);
    assert forall|i: int| 0 <= i < tokens.len() implies {
        let token = #[trigger] tokens[i];
        &&& token.1.fits(bytes)
        &&& token.0 == TokenKind::Atom ==> is_word(token.1.text(bytes))
    } by {
        if i < inner.len() {
            assert(tokens[i] == inner[i]);
            assert(inner[i].1.fits(bytes));
        }
    }
    assert forall|i: int| 0 <= i < inner.len() implies (#[trigger] Lexeme::of(tokens[i], bytes)).wf(

    ) by {
        assert(tokens[i] == inner[i]);
    }
}

/// A tree that was read from a text, written out and read again is a tree
/// of the same shape: the same commands with the same words, joined in the
/// same way. Only the places of the words differ.
pub proof fn lemma_round_trip(bytes: Seq<u8>)
    requires
        valid_utf8(bytes),
        bytes.len() <= usize::MAX,
        line_spec(bytes) is Ok,
        encode_utf8(line_spec(bytes)->Ok_0.text(bytes)).len() <= usize::MAX,
    ensures
        ({
            let tree = line_spec(bytes)->Ok_0;
            let written = encode_utf8(tree.text(bytes));
            &&& line_spec(written) is Ok
            &&& line_spec(written)->Ok_0.shape(written) == tree.shape(bytes)
        }),
{
    let tokens = lex_spec(bytes, 0);
    let eof = BytePos(bytes.len() as usize);
    let inner = lex_from(bytes, 0);
    assert(bytes.len() > 0);
    lemma_lex_spec_lexed(bytes);
    let (tree, next) = expression(tokens, eof, 0, MIN)->Ok_0;
    lemma_expression_renders(tokens, eof, bytes, 0, MIN);
    assert(next <= inner.len()) by {
        if next > inner.len() {
            assert(tokens[inner.len() as int].0 != TokenKind::Eof);
        }
    }
    let whole = lexemes(tokens, bytes);
    let all = whole.subrange(0, next);
    assert(lexemes_wf(all)) by {
        assert forall|i: int| 0 <= i < all.len() implies (#[trigger] all[i]).wf() by {
            assert(all[i] == Lexeme::of(tokens[i], bytes));
        }
    }
    let written = encode_utf8(tree.text(bytes));
    lemma_spelled_behind_of_part(whole, all, 1, next);
    assert(written == spelled(all, 0, next));
    lemma_lex_of_spelled(all);
    let again = lex_spec(written, 0);
    let again_eof = BytePos(written.len() as usize);
    let again_inner = lex_from(written, 0);
    assert(lexemes(again_inner, written).len() == next);
    assert(agree(tokens, bytes, again, written, next)) by {
        assert forall|i: int| 0 <= i < next implies #[trigger] Lexeme::of(tokens[i], bytes)
            == Lexeme::of(again[i], written) by {
            assert(all[i] == Lexeme::of(tokens[i], bytes));
            assert(lexemes(again_inner, written)[i] == Lexeme::of(again_inner[i], written));
            assert(again[i] == again_inner[i]);
        }
    }
    lemma_expression_agrees(tokens, eof, bytes, again, again_eof, written, next, 0, MIN);
}

} // verus!
