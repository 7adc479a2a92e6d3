use rush::lexer::TokenKind;
use rush::parser::Error;

#[test]
fn parse_failures_in_words() {
    assert_eq!(Error::UnexpectedEof.message(), "Unexpected end of input");
    assert_eq!(Error::ExpectedCommand(TokenKind::Pipe).message(), "Expected command, found Pipe");
    assert_eq!(Error::ExpectedCommand(TokenKind::Atom).message(), "Expected command, found Atom");
    assert_eq!(Error::UnexpectedToken(TokenKind::Eof).message(), "Unexpected token: Eof");
    assert_eq!(Error::UnexpectedToken(TokenKind::Semi).message(), "Unexpected token: Semi");
    assert_eq!(Error::UnexpectedToken(TokenKind::Ampersand).message(), "Unexpected token: Ampersand");
    assert_eq!(Error::EmptyCommand.message(), "Empty command");
}
