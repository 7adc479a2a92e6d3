//! Turns a token stream into a command tree.

pub mod ast;
pub mod grammar;
pub mod laws;
pub mod result;
pub mod round_trip;

pub use ast::{Ast, AstView, CommandView, DisplayAst, Shape, SimpleCommand};
pub use result::Error;

use crate::lexer::token::{BytePos, Span, Token, TokenKind, TokenStream};
use crate::lexer::{lex_spec, Lexer};
use crate::parser::grammar::{
    atoms_end, binding_power, expression, job_tail, lemma_atoms_end, lemma_job_advances,
    lemma_job_stops, parse_spec, primary, sequence_tail, spans, Parsed, BACKGROUND, MIN,
    PIPELINE, SEQUENCE,
};
use crate::parser::laws::{
    atoms_alone, is_line, is_reading_failure, lemma_atoms_make_one_command, lemma_parse_failures,
    lemma_parse_fits, lemma_parse_is_flat,
};
use vstd::prelude::*;
use vstd::string::StringSliceAdditionalSpecFns;

verus! {

/// The strength with which an operator binds its operands.
#[derive(Debug, Clone, Copy, PartialEq, Eq, PartialOrd, Ord)]
struct BindingPower(u8);

impl BindingPower {
    /// How strongly `token` binds, if it is an operator.
    fn operator_binding_power(token: TokenKind) -> (bp: Option<BindingPower>)
        ensures
            match bp {
                Some(power) => binding_power(token) == Some(power.0),
                None => binding_power(token) is None,
            },
    {
        match token {
            TokenKind::Semi => Some(BindingPower(SEQUENCE)),
            TokenKind::Ampersand => Some(BindingPower(BACKGROUND)),
            TokenKind::Pipe => Some(BindingPower(PIPELINE)),
            _ => None,
        }
    }
}

/// What is left to read of an expression once `left` stands and the stream
/// is at `pos`: inside the first job the tail of that job and then the jobs
/// behind it, after a `;` only the jobs.
spec fn rest_of_expression(
    tokens: Seq<Token>,
    eof: BytePos,
    left: AstView,
    pos: int,
    min_bp: u8,
    in_sequence: bool,
) -> Parsed {
    if in_sequence {
        sequence_tail(tokens, eof, left, pos)
    } else {
        match job_tail(tokens, eof, left, pos, min_bp) {
            Err(e) => Err(e),
            Ok((tree, next)) => if min_bp < SEQUENCE {
                sequence_tail(tokens, eof, tree, next)
            } else {
                Ok((tree, next))
            },
        }
    }
}

/// The tree of the command line that `bytes` spells, or the reason why it
/// spells none.
pub open spec fn line_spec(bytes: Seq<u8>) -> Result<AstView, Error> {
    parse_spec(lex_spec(bytes, 0), BytePos(bytes.len() as usize), 0)
}

/// Reads the command line in `source`: splits it into tokens and reads
/// the tree from them. The spans of the tree fit `source`, and the tree is
/// flat.
pub fn parse_line(source: &str) -> (r: Result<Ast, Error>)
    ensures
        match r {
            Ok(tree) => {
                &&& line_spec(source.spec_bytes()) == Ok::<AstView, Error>(tree@)
                &&& tree@.fits(source.spec_bytes())
                &&& is_line(tree@)
            },
            Err(e) => line_spec(source.spec_bytes()) == Err::<AstView, Error>(e)
                && is_reading_failure(e),
        },
{
    let mut lexer = Lexer::new(source);
    let tokens = lexer.lex();
    proof {
        lemma_parse_fits(tokens.tokens(), tokens.eof(), 0, source.spec_bytes());
    }
    Parser::new().parse(tokens)
}

/// A precedence-climbing parser for command lines.
pub struct Parser {}

impl Default for Parser {
    fn default() -> Self {
        Self::new()
    }
}

impl Parser {
    /// A parser. It keeps nothing between two lines.
    pub fn new() -> Self {
        Self {  }
    }

    /// Reads one command line from the stream, from the token it stands at.
    /// The result is the tree that the grammar gives to the tokens, or the
    /// failure that it gives; tokens behind the tree are not looked at.
    ///
    /// Every tree is flat: a pipeline has two commands or more, and a
    /// sequence has two jobs or more, none of them a sequence. Atoms alone
    /// give one command with one argument less than there are atoms. The
    /// only failures are an input that ends where a command is due and a
    /// token, or an operand of `|`, that is no command.
    pub fn parse(&self, tokens: TokenStream) -> (r: Result<Ast, Error>)
        ensures
            match r {
                Ok(tree) => parse_spec(tokens.tokens(), tokens.eof(), tokens.position() as int)
                    == Ok::<AstView, Error>(tree@) && is_line(tree@),
                Err(e) => parse_spec(tokens.tokens(), tokens.eof(), tokens.position() as int)
                    == Err::<AstView, Error>(e) && is_reading_failure(e),
            },
            forall|count: int| #[trigger]
                atoms_alone(tokens.tokens(), tokens.position() as int, count) ==> r is Ok
                    && r->Ok_0@ == AstView::Command(
                    CommandView {
                        program: tokens.tokens()[tokens.position() as int].1,
                        args: spans(
                            tokens.tokens(),
                            tokens.position() as int + 1,
                            tokens.position() as int + count,
                        ),
                    },
                ) && r->Ok_0@->Command_0.args.len() == count - 1,
    {
        proof {
            let all = tokens.tokens();
            let pos = tokens.position() as int;
            lemma_parse_is_flat(all, tokens.eof(), pos);
            lemma_parse_failures(all, tokens.eof(), pos);
            assert forall|count: int| #[trigger] atoms_alone(all, pos, count) implies parse_spec(
                all,
                tokens.eof(),
                pos,
            ) == Ok::<AstView, Error>(
                AstView::Command(
                    CommandView { program: all[pos].1, args: spans(all, pos + 1, pos + count) },
                ),
            ) && spans(all, pos + 1, pos + count).len() == count - 1 by {
                lemma_atoms_make_one_command(all, tokens.eof(), pos, count);
            }
        }
        let mut tokens = tokens;
        self.parse_expression(&mut tokens, BindingPower(MIN))
    }

    /// Reads the operand of an operator of the strength `min_bp`: a command
    /// and every operator behind it that binds more strictly than `min_bp`,
    /// each with its own operand.
    fn parse_expression(&self, tokens: &mut TokenStream, min_bp: BindingPower) -> (r: Result<
        Ast,
        Error,
    >)
        ensures
            final(tokens).tokens() == old(tokens).tokens(),
            final(tokens).eof() == old(tokens).eof(),
            match r {
                Ok(tree) => expression(
                    old(tokens).tokens(),
                    old(tokens).eof(),
                    old(tokens).position() as int,
                    min_bp.0,
                ) == Ok::<(AstView, int), Error>((tree@, final(tokens).position() as int)),
                Err(e) => expression(
                    old(tokens).tokens(),
                    old(tokens).eof(),
                    old(tokens).position() as int,
                    min_bp.0,
                ) == Err::<(AstView, int), Error>(e),
            },
        decreases old(tokens).tokens().len() - old(tokens).position(),
    {
        let ghost all = tokens.tokens();
        let ghost eof = tokens.eof();
        let ghost start = tokens.position() as int;
        let ghost goal = expression(all, eof, start, min_bp.0);
        let ghost mut in_sequence = false;
        let mut left = match self.parse_primary(tokens) {
            Ok(tree) => tree,
            Err(e) => {
                return Err(e);
            },
        };
        proof {
            lemma_atoms_end(all, start + 1);
        }
        loop
            invariant
                all == old(tokens).tokens(),
                eof == old(tokens).eof(),
                start == old(tokens).position(),
                tokens.tokens() == all,
                tokens.eof() == eof,
                start < tokens.position() <= all.len(),
                goal == expression(all, eof, start, min_bp.0),
                goal == rest_of_expression(
                    all,
                    eof,
                    left@,
                    tokens.position() as int,
                    min_bp.0,
                    in_sequence,
                ),
                in_sequence ==> min_bp.0 < SEQUENCE && tokens.head().0 != TokenKind::Ampersand
                    && tokens.head().0 != TokenKind::Pipe,
            decreases all.len() - tokens.position(),
        {
            let ghost pos = tokens.position() as int;
            let ghost before = left@;
            let power = match BindingPower::operator_binding_power(tokens.peek()) {
                Some(power) => power,
                None => {
                    return Ok(left);
                },
            };
            if !(min_bp.0 < power.0) {
                return Ok(left);
            }
            match tokens.next() {
                TokenKind::Semi => {
                    let right = match self.parse_expression(tokens, power) {
                        Ok(tree) => tree,
                        Err(e) => {
                            return Err(e);
                        },
                    };
                    proof {
                        lemma_job_advances(all, eof, pos + 1, SEQUENCE);
                        lemma_job_stops(all, eof, pos + 1, SEQUENCE);
                    }
                    left = match left {
                        Ast::Sequence(mut items) => {
                            items.push(right);
                            let joined = Ast::Sequence(items);
                            proof {
                                assert(joined@->Sequence_0 =~= before->Sequence_0.push(right@));
                            }
                            joined
                        },
                        other => {
                            let ghost first = other@;
                            let joined = Ast::Sequence(vec![other, right]);
                            proof {
                                assert(joined@->Sequence_0 =~= seq![first, right@]);
                            }
                            joined
                        },
                    };
                    proof {
                        in_sequence = true;
                    }
                },
                TokenKind::Ampersand => {
                    left = Ast::BackgroundJob(Box::new(left));
                },
                TokenKind::Pipe => {
                    let right = match self.parse_expression(tokens, power) {
                        Ok(tree) => tree,
                        Err(e) => {
                            return Err(e);
                        },
                    };
                    proof {
                        lemma_atoms_end(all, pos + 2);
                    }
                    left = match left {
                        Ast::Pipeline(mut commands) => {
                            let command = match right.into_command() {
                                Ok(command) => command,
                                Err(e) => {
                                    return Err(e);
                                },
                            };
                            commands.push(command);
                            let joined = Ast::Pipeline(commands);
                            proof {
                                assert(joined@->Pipeline_0 =~= before->Pipeline_0.push(command@));
                            }
                            joined
                        },
                        other => {
                            let first = match other.into_command() {
                                Ok(command) => command,
                                Err(e) => {
                                    return Err(e);
                                },
                            };
                            let second = match right.into_command() {
                                Ok(command) => command,
                                Err(e) => {
                                    return Err(e);
                                },
                            };
                            let joined = Ast::Pipeline(vec![first, second]);
                            proof {
                                assert(joined@->Pipeline_0 =~= seq![first@, second@]);
                            }
                            joined
                        },
                    };
                },
                op => {
                    return Err(Error::UnexpectedToken(op));
                },
            }
        }
    }

    /// Reads a single command, the only thing an expression can start with.
    fn parse_primary(&self, tokens: &mut TokenStream) -> (r: Result<Ast, Error>)
        ensures
            final(tokens).tokens() == old(tokens).tokens(),
            final(tokens).eof() == old(tokens).eof(),
            match r {
                Ok(tree) => primary(
                    old(tokens).tokens(),
                    old(tokens).eof(),
                    old(tokens).position() as int,
                ) == Ok::<(AstView, int), Error>((tree@, final(tokens).position() as int)),
                Err(e) => primary(
                    old(tokens).tokens(),
                    old(tokens).eof(),
                    old(tokens).position() as int,
                ) == Err::<(AstView, int), Error>(e),
            },
    {
        match tokens.peek() {
            TokenKind::Atom => match self.parse_command(tokens) {
                Ok(command) => Ok(Ast::Command(command)),
                Err(e) => Err(e),
            },
            TokenKind::Eof => Err(Error::UnexpectedEof),
            other => Err(Error::ExpectedCommand(other)),
        }
    }

    /// Reads the program's name and the arguments behind it, up to the first
    /// token that is no atom.
    fn parse_command(&self, tokens: &mut TokenStream) -> (r: Result<SimpleCommand, Error>)
        ensures
            final(tokens).tokens() == old(tokens).tokens(),
            final(tokens).eof() == old(tokens).eof(),
            match r {
                Ok(command) => primary(
                    old(tokens).tokens(),
                    old(tokens).eof(),
                    old(tokens).position() as int,
                ) == Ok::<(AstView, int), Error>(
                    (AstView::Command(command@), final(tokens).position() as int),
                ),
                Err(e) => primary(
                    old(tokens).tokens(),
                    old(tokens).eof(),
                    old(tokens).position() as int,
                ) == Err::<(AstView, int), Error>(e),
            },
    {
        let ghost all = tokens.tokens();
        let ghost start = tokens.position() as int;
        // expect at least one atom for the program name
        let program_token = tokens.next_token();
        let program_span = match program_token.kind() {
            TokenKind::Atom => program_token.span(),
            TokenKind::Eof => {
                return Err(Error::UnexpectedEof);
            },
            other => {
                return Err(Error::ExpectedCommand(other));
            },
        };
        let mut args: Vec<Span> = Vec::new();
        while matches!(tokens.peek(), TokenKind::Atom)
            invariant
                tokens.tokens() == all,
                tokens.eof() == old(tokens).eof(),
                0 <= start < tokens.position() <= all.len(),
                atoms_end(all, tokens.position() as int) == atoms_end(all, start + 1),
                args@ == spans(all, start + 1, tokens.position() as int),
            decreases all.len() - tokens.position(),
        {
            let ghost pos = tokens.position() as int;
            let arg_token = tokens.next_token();
            args.push(arg_token.span());
            proof {
                assert(args@ =~= spans(all, start + 1, pos + 1));
            }
        }
        Ok(SimpleCommand { program: program_span, args })
    }
}

} // verus!
