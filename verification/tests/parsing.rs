use rush::lexer::{BytePos, Lexer, Span, Token, TokenKind, TokenStream};
use rush::parser::{Ast, DisplayAst, Error, Parser, SimpleCommand};

fn span(start: usize, end: usize) -> Span {
    Span::new(BytePos(start), BytePos(end))
}

fn command(program: (usize, usize), args: &[(usize, usize)]) -> SimpleCommand {
    SimpleCommand {
        program: span(program.0, program.1),
        args: args.iter().map(|a| span(a.0, a.1)).collect(),
    }
}

fn parse(source: &str) -> Result<Ast, Error> {
    let tokens = Lexer::new(source).lex();
    Parser::new().parse(tokens)
}

#[test]
fn test_parsing_sequence() {
    let source = "ls -la;pwd";
    let tokens = Lexer::new(source).lex();
    let ast = Parser::new().parse(tokens).unwrap();

    assert!(matches!(ast, Ast::Sequence(_)));
    let expected = Ast::Sequence(vec![
        Ast::Command(command((0, 2), &[(3, 6)])),
        Ast::Command(command((7, 10), &[])),
    ]);
    assert_eq!(ast, expected);
    let Ast::Sequence(items) = &ast else { unreachable!() };
    assert_eq!(items[0].to_string(source), "ls -la");
    assert_eq!(items[1].to_string(source), "pwd");
}

#[test]
fn test_parsing_pipeline() {
    let source = "echo hello | wc -l";
    let tokens = Lexer::new(source).lex();
    let ast = Parser::new().parse(tokens).unwrap();
    assert!(matches!(ast, Ast::Pipeline(_)));
    let expected = Ast::Pipeline(vec![command((0, 4), &[(5, 10)]), command((13, 15), &[(16, 18)])]);
    assert_eq!(ast, expected);
    let Ast::Pipeline(commands) = &ast else { unreachable!() };
    assert_eq!(commands[0].to_string(source), "echo hello");
    assert_eq!(commands[1].to_string(source), "wc -l");
}

#[test]
fn test_parsing_background_job() {
    let source = "sleep 2 &";
    let tokens = Lexer::new(source).lex();
    let ast = Parser::new().parse(tokens).unwrap();
    assert!(matches!(ast, Ast::BackgroundJob(_)));
    let expected = Ast::BackgroundJob(Box::new(Ast::Command(command((0, 5), &[(6, 7)]))));
    assert_eq!(ast, expected);
    let Ast::BackgroundJob(inner) = &ast else { unreachable!() };
    assert_eq!(inner.to_string(source), "sleep 2");
}

#[test]
fn atoms_alone_make_one_command() {
    let ast = parse("tar -x -z -f archive.tgz").unwrap();
    let Ast::Command(cmd) = ast else { panic!("not a command") };
    assert_eq!(cmd.program, span(0, 3));
    assert_eq!(cmd.args.len(), 4);
    assert_eq!(cmd.args, vec![span(4, 6), span(7, 9), span(10, 12), span(13, 24)]);
}

#[test]
fn single_atom_has_no_arguments() {
    let ast = parse("ls").unwrap();
    assert_eq!(ast, Ast::Command(command((0, 2), &[])));
}

#[test]
fn sequence_of_three_is_flat() {
    let ast = parse("a;b;c").unwrap();
    let expected = Ast::Sequence(vec![
        Ast::Command(command((0, 1), &[])),
        Ast::Command(command((2, 3), &[])),
        Ast::Command(command((4, 5), &[])),
    ]);
    assert_eq!(ast, expected);
}

#[test]
fn pipeline_of_three_is_flat() {
    let ast = parse("a|b|c").unwrap();
    let expected =
        Ast::Pipeline(vec![command((0, 1), &[]), command((2, 3), &[]), command((4, 5), &[])]);
    assert_eq!(ast, expected);
}

#[test]
fn pipe_binds_tighter_than_semicolon() {
    let ast = parse("a;b|c").unwrap();
    let expected = Ast::Sequence(vec![
        Ast::Command(command((0, 1), &[])),
        Ast::Pipeline(vec![command((2, 3), &[]), command((4, 5), &[])]),
    ]);
    assert_eq!(ast, expected);
}

#[test]
fn pipeline_then_sequence() {
    let ast = parse("a|b;c").unwrap();
    let expected = Ast::Sequence(vec![
        Ast::Pipeline(vec![command((0, 1), &[]), command((2, 3), &[])]),
        Ast::Command(command((4, 5), &[])),
    ]);
    assert_eq!(ast, expected);
}

#[test]
fn ampersand_takes_the_operand_before_it() {
    let ast = parse("a;b&").unwrap();
    let expected = Ast::Sequence(vec![
        Ast::Command(command((0, 1), &[])),
        Ast::BackgroundJob(Box::new(Ast::Command(command((2, 3), &[])))),
    ]);
    assert_eq!(ast, expected);
}

#[test]
fn ampersand_wraps_a_whole_pipeline() {
    let ast = parse("a|b&").unwrap();
    let expected = Ast::BackgroundJob(Box::new(Ast::Pipeline(vec![
        command((0, 1), &[]),
        command((2, 3), &[]),
    ])));
    assert_eq!(ast, expected);
}

#[test]
fn background_job_inside_a_sequence() {
    let ast = parse("a &; b; c | d &").unwrap();
    let expected = Ast::Sequence(vec![
        Ast::BackgroundJob(Box::new(Ast::Command(command((0, 1), &[])))),
        Ast::Command(command((5, 6), &[])),
        Ast::BackgroundJob(Box::new(Ast::Pipeline(vec![
            command((8, 9), &[]),
            command((12, 13), &[]),
        ]))),
    ]);
    assert_eq!(ast, expected);
}

#[test]
fn ampersand_twice_wraps_twice() {
    let ast = parse("a & &").unwrap();
    let expected = Ast::BackgroundJob(Box::new(Ast::BackgroundJob(Box::new(Ast::Command(
        command((0, 1), &[]),
    )))));
    assert_eq!(ast, expected);
}

#[test]
fn sequence_is_no_pipe_operand() {
    let sequence = Ast::Sequence(vec![
        Ast::Command(command((0, 1), &[])),
        Ast::Command(command((2, 3), &[])),
    ]);
    assert_eq!(sequence.into_command(), Err(Error::ExpectedCommand(TokenKind::Atom)));
    let pipeline = Ast::Pipeline(vec![command((0, 1), &[]), command((2, 3), &[])]);
    assert_eq!(pipeline.into_command(), Err(Error::ExpectedCommand(TokenKind::Atom)));
    let job = Ast::BackgroundJob(Box::new(Ast::Command(command((0, 1), &[]))));
    assert_eq!(job.into_command(), Err(Error::ExpectedCommand(TokenKind::Atom)));
}

#[test]
fn command_is_a_pipe_operand() {
    let cmd = command((0, 2), &[(3, 5)]);
    assert_eq!(Ast::Command(cmd.clone()).into_command(), Ok(cmd));
}

#[test]
fn background_job_is_no_pipe_operand() {
    assert_eq!(parse("a & | b"), Err(Error::ExpectedCommand(TokenKind::Atom)));
    assert_eq!(parse("a | b & | c"), Err(Error::ExpectedCommand(TokenKind::Atom)));
}

#[test]
fn right_operand_failure_comes_first() {
    assert_eq!(parse("a & |"), Err(Error::UnexpectedEof));
    assert_eq!(parse("a & | ;"), Err(Error::ExpectedCommand(TokenKind::Semi)));
}

#[test]
fn empty_input_is_unexpected_eof() {
    assert_eq!(parse(""), Err(Error::UnexpectedEof));
    assert_eq!(parse("   \t\n"), Err(Error::UnexpectedEof));
}

#[test]
fn missing_operand_is_unexpected_eof() {
    assert_eq!(parse("a |"), Err(Error::UnexpectedEof));
    assert_eq!(parse("a ;"), Err(Error::UnexpectedEof));
    assert_eq!(parse("a | b ; c |"), Err(Error::UnexpectedEof));
}

#[test]
fn operator_in_command_position_is_expected_command() {
    assert_eq!(parse("| a"), Err(Error::ExpectedCommand(TokenKind::Pipe)));
    assert_eq!(parse("; a"), Err(Error::ExpectedCommand(TokenKind::Semi)));
    assert_eq!(parse("& a"), Err(Error::ExpectedCommand(TokenKind::Ampersand)));
    assert_eq!(parse("a | | b"), Err(Error::ExpectedCommand(TokenKind::Pipe)));
    assert_eq!(parse("a ; & b"), Err(Error::ExpectedCommand(TokenKind::Ampersand)));
    assert_eq!(parse("a ;; b"), Err(Error::ExpectedCommand(TokenKind::Semi)));
}

#[test]
fn tokens_behind_the_tree_are_left_alone() {
    let ast = parse("a & b").unwrap();
    assert_eq!(ast, Ast::BackgroundJob(Box::new(Ast::Command(command((0, 1), &[])))));
}

#[test]
fn explicit_eof_token_ends_the_arguments() {
    let tokens = vec![
        Token(TokenKind::Atom, span(0, 1)),
        Token(TokenKind::Eof, span(1, 1)),
        Token(TokenKind::Atom, span(2, 3)),
    ];
    let ast = Parser::new().parse(TokenStream::new(tokens, 3usize)).unwrap();
    assert_eq!(ast, Ast::Command(command((0, 1), &[])));
}

#[test]
fn parse_starts_at_the_stream_position() {
    let source = "a | b";
    let mut tokens = Lexer::new(source).lex();
    assert_eq!(tokens.next(), TokenKind::Atom);
    assert_eq!(tokens.next(), TokenKind::Pipe);
    let ast = Parser::default().parse(tokens).unwrap();
    assert_eq!(ast, Ast::Command(command((4, 5), &[])));
}

#[test]
fn rendering_uses_the_separators() {
    let source = "a  x|b ;c&;   d   e   f";
    let ast = parse(source).unwrap();
    assert_eq!(ast.to_string(source), "a x | b; c &; d e f");
}

#[test]
fn rendering_round_trips() {
    for source in [
        "ls -la;pwd",
        "echo hello | wc -l",
        "sleep 2 &",
        "a|b|c;d&;e  f|g & &",
        "caf\u{e9} \u{4e16}\u{754c}|x",
        "a & b",
    ] {
        let first = parse(source).unwrap();
        let text = first.to_string(source);
        let second = parse(&text).unwrap();
        assert_eq!(second.to_string(&text), text);
        assert_eq!(shape(&first, source), shape(&second, &text));
    }
}

fn shape(ast: &Ast, source: &str) -> String {
    match ast {
        Ast::Command(c) => format!("C{:?}", words(c, source)),
        Ast::Pipeline(cs) => {
            format!("P{:?}", cs.iter().map(|c| words(c, source)).collect::<Vec<_>>())
        }
        Ast::BackgroundJob(inner) => format!("B({})", shape(inner, source)),
        Ast::Sequence(items) => {
            format!("S{:?}", items.iter().map(|i| shape(i, source)).collect::<Vec<_>>())
        }
    }
}

fn words(c: &SimpleCommand, source: &str) -> Vec<String> {
    let mut all = vec![c.program.slice(source).to_string()];
    all.extend(c.args.iter().map(|a| a.slice(source).to_string()));
    all
}

#[test]
fn rendering_skips_arguments_without_text() {
    let source = "ab";
    let cmd = command((0, 2), &[(1, 1)]);
    assert_eq!(cmd.to_string(source), "ab");
    let cmd = command((0, 1), &[(1, 1), (1, 2)]);
    assert_eq!(cmd.to_string(source), "a  b");
}

#[test]
fn empty_pipeline_renders_as_nothing() {
    assert_eq!(Ast::Pipeline(vec![]).to_string("abc"), "");
    assert_eq!(Ast::Sequence(vec![]).to_string("abc"), "");
}

fn lines(count: usize, length: usize) -> Vec<String> {
    let alphabet = ['a', 'b', ' ', ' ', '|', ';', '&', '\t', '\u{e9}', 'c'];
    let mut state: u64 = 0x2545_f491_4f6c_dd1d;
    let mut all = vec![];
    for _ in 0..count {
        let mut line = String::new();
        for _ in 0..length {
            state ^= state << 13;
            state ^= state >> 7;
            state ^= state << 17;
            line.push(alphabet[(state % alphabet.len() as u64) as usize]);
        }
        all.push(line);
    }
    all
}

#[test]
fn round_trip_holds_on_many_lines() {
    let mut parsed = 0;
    for source in lines(3000, 9) {
        let Ok(first) = parse(&source) else { continue };
        parsed += 1;
        assert!(first.fits_in(&source));
        let text = first.to_string(&source);
        let second = parse(&text).unwrap();
        assert_eq!(shape(&first, &source), shape(&second, &text), "{source:?}");
        assert_eq!(second.to_string(&text), text);
    }
    assert!(parsed > 100);
}

#[test]
fn trees_are_flat_on_many_lines() {
    fn is_job(ast: &Ast) -> bool {
        match ast {
            Ast::Command(_) => true,
            Ast::Pipeline(commands) => commands.len() >= 2,
            Ast::BackgroundJob(inner) => is_job(inner),
            Ast::Sequence(_) => false,
        }
    }
    for source in lines(3000, 11) {
        match parse(&source) {
            Ok(Ast::Sequence(items)) => {
                assert!(items.len() >= 2);
                assert!(items.iter().all(is_job), "{source:?}");
            }
            Ok(other) => assert!(is_job(&other), "{source:?}"),
            Err(Error::UnexpectedEof) => {}
            Err(Error::ExpectedCommand(kind)) => assert_ne!(kind, TokenKind::Eof),
            Err(other) => panic!("{other:?} for {source:?}"),
        }
    }
}
