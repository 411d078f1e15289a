use lox::scanner::{is_digit, Scanner};
use lox::token::{Token, TokenType};

fn kinds(source: &str) -> Vec<TokenType> {
    let mut scanner = Scanner::new(source);
    let mut kinds = Vec::new();
    loop {
        let token = scanner.scan_token();
        kinds.push(token.t);
        if token.t == TokenType::Eof {
            return kinds;
        }
    }
}

#[test]
fn slash_between_numbers_is_division() {
    let mut s = Scanner::new("3/4");
    let three = s.scan_token();
    assert_eq!(three.t, TokenType::Number);
    assert_eq!(three.as_slice(), "3");
    let slash = s.scan_token();
    assert_eq!(slash.t, TokenType::Slash);
    assert_eq!(slash.as_slice(), "/");
    let four = s.scan_token();
    assert_eq!(four.t, TokenType::Number);
    assert_eq!(four.as_slice(), "4");
    assert_eq!(s.scan_token().t, TokenType::Eof);
}

#[test]
fn lone_slash_at_end_is_division() {
    assert_eq!(kinds("1 /"), vec![TokenType::Number, TokenType::Slash, TokenType::Eof]);
    assert_eq!(kinds("/ /"), vec![TokenType::Slash, TokenType::Slash, TokenType::Eof]);
}

#[test]
fn comment_runs_to_end_of_line() {
    let mut s = Scanner::new("1 // two 2 \n+");
    assert_eq!(s.scan_token().t, TokenType::Number);
    let plus = s.scan_token();
    assert_eq!(plus.t, TokenType::Plus);
    assert_eq!(plus.line, 2);
    assert_eq!(plus.start, 12);
    assert_eq!(s.scan_token().t, TokenType::Eof);
}

#[test]
fn comment_at_end_of_text() {
    assert_eq!(kinds("// nothing"), vec![TokenType::Eof]);
    assert_eq!(kinds("//"), vec![TokenType::Eof]);
}

#[test]
fn eof_is_repeated() {
    let mut s = Scanner::new(" ");
    for _ in 0..3 {
        let token = s.scan_token();
        assert_eq!(token.t, TokenType::Eof);
        assert_eq!(token.start, 1);
        assert_eq!(token.length, 0);
        assert_eq!(token.as_slice(), "");
    }
    assert!(s.is_at_end());
}

#[test]
fn empty_text_is_eof() {
    let mut s = Scanner::new("");
    assert!(s.is_at_end());
    assert_eq!(s.peek(), '\0');
    assert_eq!(s.peek_next(), None);
    assert_eq!(s.scan_token().t, TokenType::Eof);
}

#[test]
fn punctuation() {
    assert_eq!(
        kinds("(){};,.-+/*"),
        vec![
            TokenType::LeftParen,
            TokenType::RightParen,
            TokenType::LeftBrace,
            TokenType::RightBrace,
            TokenType::Semicolon,
            TokenType::Comma,
            TokenType::Dot,
            TokenType::Minus,
            TokenType::Plus,
            TokenType::Slash,
            TokenType::Star,
            TokenType::Eof,
        ]
    );
}

#[test]
fn one_and_two_character_operators() {
    assert_eq!(
        kinds("! != = == < <= > >="),
        vec![
            TokenType::Bang,
            TokenType::BangEqual,
            TokenType::Equal,
            TokenType::EqualEqual,
            TokenType::Less,
            TokenType::LessEqual,
            TokenType::Greater,
            TokenType::GreaterEqual,
            TokenType::Eof,
        ]
    );
    assert_eq!(kinds("==="), vec![TokenType::EqualEqual, TokenType::Equal, TokenType::Eof]);
    assert_eq!(kinds("!"), vec![TokenType::Bang, TokenType::Eof]);
}

#[test]
fn keywords_are_recognized() {
    assert_eq!(
        kinds("and class else false for fun if nil or print return super this true var while"),
        vec![
            TokenType::And,
            TokenType::Class,
            TokenType::Else,
            TokenType::False,
            TokenType::For,
            TokenType::Fun,
            TokenType::If,
            TokenType::Nil,
            TokenType::Or,
            TokenType::Print,
            TokenType::Return,
            TokenType::Super,
            TokenType::This,
            TokenType::True,
            TokenType::Var,
            TokenType::While,
            TokenType::Eof,
        ]
    );
}

#[test]
fn identifiers() {
    let mut s = Scanner::new("_a1 andy For x9_y nill");
    for text in ["_a1", "andy", "For", "x9_y", "nill"] {
        let token = s.scan_token();
        assert_eq!(token.t, TokenType::Identifier);
        assert_eq!(token.as_slice(), text);
        assert_eq!(token.length, text.len());
    }
    assert_eq!(s.scan_token().t, TokenType::Eof);
}

#[test]
fn identifier_type_of_pending_word() {
    let mut s = Scanner::new("while");
    for _ in 0..5 {
        s.advance();
    }
    assert_eq!(s.current_str(), "while");
    assert_eq!(s.identifier_type(), TokenType::While);
    let mut s = Scanner::new("whil");
    for _ in 0..4 {
        s.advance();
    }
    assert_eq!(s.identifier_type(), TokenType::Identifier);
}

#[test]
fn numbers_with_and_without_fraction() {
    let mut s = Scanner::new("12 3.25 7. .5 1.2.3");
    let expected = [
        (TokenType::Number, "12"),
        (TokenType::Number, "3.25"),
        (TokenType::Number, "7"),
        (TokenType::Dot, "."),
        (TokenType::Dot, "."),
        (TokenType::Number, "5"),
        (TokenType::Number, "1.2"),
        (TokenType::Dot, "."),
        (TokenType::Number, "3"),
        (TokenType::Eof, ""),
    ];
    for (kind, text) in expected {
        let token = s.scan_token();
        assert_eq!(token.t, kind);
        assert_eq!(token.as_slice(), text);
    }
}

#[test]
fn number_before_dot_at_end() {
    assert_eq!(kinds("1."), vec![TokenType::Number, TokenType::Dot, TokenType::Eof]);
}

#[test]
fn number_read_from_cursor() {
    let mut s = Scanner::new("4.50+");
    let token = s.number();
    assert_eq!(token.t, TokenType::Number);
    assert_eq!(token.start, 0);
    assert_eq!(token.length, 4);
    assert_eq!(token.as_slice(), "4.50");
    assert_eq!(s.peek(), '+');
}

#[test]
fn identifier_read_from_cursor() {
    let mut s = Scanner::new("or_else ");
    let token = s.identifier();
    assert_eq!(token.t, TokenType::Identifier);
    assert_eq!(token.as_slice(), "or_else");
    let mut s = Scanner::new("or ");
    assert_eq!(s.identifier().t, TokenType::Or);
}

#[test]
fn string_spans_lines() {
    let mut s = Scanner::new("\"a\nb\n\" x");
    let token = s.scan_token();
    assert_eq!(token.t, TokenType::String);
    assert_eq!(token.as_slice(), "\"a\nb\n\"");
    assert_eq!(token.start, 0);
    assert_eq!(token.length, 6);
    assert_eq!(token.line, 3);
    let x = s.scan_token();
    assert_eq!(x.t, TokenType::Identifier);
    assert_eq!(x.line, 3);
    assert_eq!(s.current_line(), 3);
}

#[test]
fn string_read_from_cursor() {
    let mut s = Scanner::new("\"ab\"c");
    assert_eq!(s.advance(), '"');
    let token = s.string();
    assert_eq!(token.t, TokenType::String);
    assert_eq!(token.as_slice(), "\"ab\"");
    assert_eq!(s.peek(), 'c');
}

#[test]
fn unterminated_string_is_an_error_token() {
    let mut s = Scanner::new("\"abc");
    let token = s.scan_token();
    assert_eq!(token.t, TokenType::Error);
    assert_eq!(token.as_slice(), "Unterminated string.");
    assert_eq!(token.start, 0);
    assert_eq!(token.length, 20);
    assert_eq!(token.line, 1);
    assert!(s.is_at_end());
    assert_eq!(s.scan_token().t, TokenType::Eof);
}

#[test]
fn unterminated_string_counts_its_lines() {
    let mut s = Scanner::new("\n\"a\nb");
    let token = s.scan_token();
    assert_eq!(token.t, TokenType::Error);
    assert_eq!(token.line, 3);
}

#[test]
fn unexpected_character_is_an_error_token() {
    let mut s = Scanner::new("@1");
    let token = s.scan_token();
    assert_eq!(token.t, TokenType::Error);
    assert_eq!(token.to_string(), "Unexpected character.");
    assert_eq!(token.length, 21);
    let one = s.scan_token();
    assert_eq!(one.t, TokenType::Number);
    assert_eq!(one.start, 1);
}

#[test]
fn characters_outside_ascii() {
    let mut s = Scanner::new("\"\u{e9}\" \u{e9} 1");
    let string = s.scan_token();
    assert_eq!(string.t, TokenType::String);
    assert_eq!(string.length, 3);
    assert_eq!(string.as_slice(), "\"\u{e9}\"");
    assert_eq!(s.scan_token().t, TokenType::Error);
    let one = s.scan_token();
    assert_eq!(one.t, TokenType::Number);
    assert_eq!(one.start, 6);
    assert_eq!(one.as_slice(), "1");
}

#[test]
fn nul_inside_the_text_is_a_character() {
    let mut s = Scanner::new("\0+");
    assert!(!s.is_at_end());
    assert_eq!(s.peek(), '\0');
    assert_eq!(s.scan_token().t, TokenType::Error);
    assert_eq!(s.scan_token().t, TokenType::Plus);
}

#[test]
fn lines_are_counted_in_blanks_and_comments() {
    let mut s = Scanner::new("a\n\n// c\n\r\n\tb");
    assert_eq!(s.current_line(), 1);
    assert_eq!(s.scan_token().line, 1);
    let b = s.scan_token();
    assert_eq!(b.line, 5);
    assert_eq!(b.as_slice(), "b");
}

#[test]
fn peek_and_peek_next() {
    let mut s = Scanner::new("ab");
    assert_eq!(s.peek(), 'a');
    assert_eq!(s.peek_next(), Some('b'));
    s.advance();
    assert_eq!(s.peek(), 'b');
    assert_eq!(s.peek_next(), None);
    s.advance();
    assert_eq!(s.peek(), '\0');
    assert_eq!(s.peek_next(), None);
    assert!(s.is_at_end());
}

#[test]
fn consume_match_reads_only_what_matches() {
    let mut s = Scanner::new("=x");
    assert!(!s.consume_match('x'));
    assert_eq!(s.peek(), '=');
    assert!(s.consume_match('='));
    assert_eq!(s.peek(), 'x');
    assert!(s.consume_match('x'));
    assert!(!s.consume_match('x'));
    assert!(!s.consume_match('\0'));
}

#[test]
fn digits_are_the_ten_decimal_digits() {
    for c in '0'..='9' {
        assert!(is_digit(c));
    }
    for c in ['/', ':', 'a', ' ', '\u{660}'] {
        assert!(!is_digit(c));
    }
}

#[test]
fn empty_token_is_a_placeholder() {
    let token = Token::empty();
    assert_eq!(token.t, TokenType::Error);
    assert_eq!(token.start, 0);
    assert_eq!(token.length, 0);
    assert_eq!(token.line, 0);
    assert_eq!(token.as_slice(), "Empty token");
    assert_eq!(token.to_string(), "Empty token");
}

#[test]
fn every_token_but_eof_moves_the_scanner_on() {
    let source = "var x = (1.5 + 20) * -3; // done\nprint \"a b\" != nil @ ;";
    let mut s = Scanner::new(source);
    let mut last_end = 0;
    let mut count = 0;
    loop {
        let token = s.scan_token();
        if token.t == TokenType::Eof {
            assert!(s.is_at_end());
            assert_eq!(token.start, source.chars().count());
            break;
        }
        if token.t != TokenType::Error {
            assert!(token.start >= last_end);
            assert!(token.length > 0);
            last_end = token.start + token.length;
            let text: String = source.chars().skip(token.start).take(token.length).collect();
            assert_eq!(token.as_slice(), text);
        }
        count += 1;
    }
    assert_eq!(count, 18);
}
