use rush::lexer::{BytePos, IntoSpan, Lexer, Span, Token, TokenKind, TokenStream};

fn span(start: usize, end: usize) -> Span {
    Span::new(BytePos(start), BytePos(end))
}

fn lex(source: &str) -> Vec<Token> {
    Lexer::new(source).lex().into_tokens()
}

#[test]
fn empty_source_gives_no_token() {
    assert_eq!(lex(""), vec![]);
    let mut stream = Lexer::new("").lex();
    assert_eq!(stream.peek(), TokenKind::Eof);
    assert_eq!(stream.next_token(), Token(TokenKind::Eof, span(0, 0)));
}

#[test]
fn blank_source_gives_only_eof() {
    assert_eq!(lex(" \t\r\n"), vec![Token(TokenKind::Eof, span(4, 4))]);
}

#[test]
fn atoms_and_operators() {
    assert_eq!(
        lex("ls -la;pwd"),
        vec![
            Token(TokenKind::Atom, span(0, 2)),
            Token(TokenKind::Atom, span(3, 6)),
            Token(TokenKind::Semi, span(6, 6)),
            Token(TokenKind::Atom, span(7, 10)),
            Token(TokenKind::Eof, span(10, 10)),
        ]
    );
    assert_eq!(
        lex("a|b&"),
        vec![
            Token(TokenKind::Atom, span(0, 1)),
            Token(TokenKind::Pipe, span(1, 1)),
            Token(TokenKind::Atom, span(2, 3)),
            Token(TokenKind::Ampersand, span(3, 3)),
            Token(TokenKind::Eof, span(4, 4)),
        ]
    );
}

#[test]
fn atom_spans_cover_whole_characters() {
    let source = "\u{e9} caf\u{e9}|\u{4e16}\u{754c}";
    let tokens = lex(source);
    assert_eq!(
        tokens,
        vec![
            Token(TokenKind::Atom, span(0, 2)),
            Token(TokenKind::Atom, span(3, 8)),
            Token(TokenKind::Pipe, span(8, 8)),
            Token(TokenKind::Atom, span(9, 15)),
            Token(TokenKind::Eof, span(15, 15)),
        ]
    );
    assert_eq!(tokens[0].span().slice(source), "\u{e9}");
    assert_eq!(tokens[1].span().slice(source), "caf\u{e9}");
    assert_eq!(tokens[3].span().slice(source), "\u{4e16}\u{754c}");
}

#[test]
fn lexing_twice_gives_eof_only() {
    let mut lexer = Lexer::new("a b");
    assert_eq!(lexer.lex().into_tokens().len(), 3);
    assert_eq!(lexer.lex().into_tokens(), vec![Token(TokenKind::Eof, span(3, 3))]);
}

#[test]
fn span_len_and_slice() {
    let s = span(2, 5);
    assert_eq!(s.len(), 3);
    assert!(!s.is_empty());
    assert_eq!(s.slice("abcdefg"), "cde");
    let e = span(4, 4);
    assert_eq!(e.len(), 0);
    assert!(e.is_empty());
    assert_eq!(e.slice("abcdefg"), "");
    assert_eq!(*s.start, 2);
    assert_eq!(BytePos::from(7), BytePos(7));
}

#[test]
fn into_span_of_each_kind() {
    assert_eq!((1usize, 4usize).into_span(), span(1, 4));
    assert_eq!((BytePos(1), BytePos(4)).into_span(), span(1, 4));
    assert_eq!(3usize.into_span(), span(3, 3));
    assert_eq!(BytePos(3).into_span(), span(3, 3));
    assert_eq!(span(2, 9).into_span(), span(2, 9));
    assert_eq!(TokenKind::Pipe.into_token(5usize), Token(TokenKind::Pipe, span(5, 5)));
    assert_eq!(TokenKind::Atom.into_token((1usize, 2usize)), Token(TokenKind::Atom, span(1, 2)));
}

#[test]
fn token_accessors() {
    let t = Token(TokenKind::Atom, span(1, 2));
    assert_eq!(t.kind(), TokenKind::Atom);
    assert_eq!(t.span(), span(1, 2));
}

#[test]
fn stream_reads_once_then_reports_eof() {
    let tokens = vec![Token(TokenKind::Atom, span(0, 1)), Token(TokenKind::Pipe, span(1, 1))];
    let mut stream = TokenStream::new(tokens, 9usize);
    assert_eq!(stream.peek(), TokenKind::Atom);
    assert_eq!(stream.peek_token(), Token(TokenKind::Atom, span(0, 1)));
    assert_eq!(stream.next(), TokenKind::Atom);
    assert_eq!(stream.peek(), TokenKind::Pipe);
    assert_eq!(stream.next_token(), Token(TokenKind::Pipe, span(1, 1)));
    assert_eq!(stream.peek(), TokenKind::Eof);
    assert_eq!(stream.peek_token(), Token(TokenKind::Eof, span(9, 9)));
    assert_eq!(stream.next(), TokenKind::Eof);
    assert_eq!(stream.next_token(), Token(TokenKind::Eof, span(9, 9)));
    assert_eq!(stream.into_tokens().len(), 2);
}

fn reference_tokens(source: &str) -> Vec<Token> {
    let is_space = |c: char| matches!(c, ' ' | '\t' | '\n' | '\r');
    let is_delimiter = |c: char| is_space(c) || matches!(c, '|' | ';' | '&');
    let mut tokens = vec![];
    if source.is_empty() {
        return tokens;
    }
    let mut chars = source.char_indices().peekable();
    while let Some((at, c)) = chars.next() {
        if is_space(c) {
            continue;
        }
        match c {
            '|' => tokens.push(Token(TokenKind::Pipe, span(at, at))),
            ';' => tokens.push(Token(TokenKind::Semi, span(at, at))),
            '&' => tokens.push(Token(TokenKind::Ampersand, span(at, at))),
            _ => {
                let mut end = at + c.len_utf8();
                while let Some((next, d)) = chars.peek().copied() {
                    if is_delimiter(d) {
                        break;
                    }
                    end = next + d.len_utf8();
                    chars.next();
                }
                tokens.push(Token(TokenKind::Atom, span(at, end)));
            }
        }
    }
    tokens.push(Token(TokenKind::Eof, span(source.len(), source.len())));
    tokens
}

#[test]
fn lexer_agrees_with_a_scan_by_characters() {
    let alphabet = ['a', 'b', ' ', '|', ';', '&', '\t', '\n', '\r', '\u{e9}', '\u{4e16}', '\u{1f600}'];
    let mut state: u64 = 0x9e37_79b9_7f4a_7c15;
    for _ in 0..3000 {
        let mut source = String::new();
        for _ in 0..8 {
            state ^= state << 13;
            state ^= state >> 7;
            state ^= state << 17;
            source.push(alphabet[(state % alphabet.len() as u64) as usize]);
        }
        let tokens = lex(&source);
        assert_eq!(tokens, reference_tokens(&source), "{source:?}");
        for token in &tokens {
            assert!(token.span().fits_in(&source));
            let text = token.span().slice(&source);
            if token.kind() == TokenKind::Atom {
                assert!(!text.is_empty());
                assert!(!text.contains([' ', '\t', '\n', '\r', '|', ';', '&']));
            } else {
                assert!(text.is_empty());
            }
        }
    }
}

#[test]
fn stream_is_handed_out_token_by_token() {
    let tokens: Vec<Token> = Lexer::new("a | b").lex().into_iter().collect();
    assert_eq!(tokens.len(), 4);
    assert_eq!(tokens[1], Token(TokenKind::Pipe, span(2, 2)));
}
