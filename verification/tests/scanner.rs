use lox::scanner::Scanner;
use lox::token::TokenType;

#[test]
fn scanner_peek_and_advance() {
    let mut s = Scanner::new("{}");
    assert_eq!(s.peek(), '{');
    assert_eq!(s.advance(), '{');
    assert_eq!(s.peek(), '}');
    assert_eq!(s.advance(), '}');
}

#[test]
fn scanner_scan_token() {
    let mut s = Scanner::new("{}");
    assert_eq!(s.scan_token().t, TokenType::LeftBrace);
    assert_eq!(s.scan_token().t, TokenType::RightBrace);
}

#[test]
fn scanner_skip_whitespace() {
    let mut s = Scanner::new(" { } ");
    assert_eq!(s.scan_token().t, TokenType::LeftBrace);
    assert_eq!(s.scan_token().t, TokenType::RightBrace);
}

#[test]
fn scanner_skip_whitespace_newline() {
    let mut s = Scanner::new(" { \n } ");
    assert_eq!(s.scan_token().line, 1);
    assert_eq!(s.scan_token().line, 2);
}

#[test]
fn scanner_scan_token_with_equals() {
    let mut s = Scanner::new("!=<");
    assert_eq!(s.scan_token().t, TokenType::BangEqual);
    assert_eq!(s.scan_token().t, TokenType::Less);
}

#[test]
fn scanner_scan_string() {
    let mut s = Scanner::new("\"Hey\"");
    let t = s.scan_token();
    assert_eq!(t.start, 0);
    assert_eq!(t.length, 5);
    assert_eq!(t.to_string(), "\"Hey\"");
}

#[test]
fn scanner_current_str() {
    let mut s = Scanner::new("{}");
    s.advance();
    s.advance();
    assert_eq!(s.current_str(), "{}")
}
