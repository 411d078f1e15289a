//! Lexical units: the kinds of token and the token itself.

use vstd::prelude::*;

verus! {

/// The closed set of token kinds.
#[allow(dead_code)]
#[derive(Debug, PartialEq, Eq, Clone, Copy, Structural)]
pub enum TokenType {
    // Single-character tokens.
    LeftParen,
    RightParen,
    LeftBrace,
    RightBrace,
    Comma,
    Dot,
    Minus,
    Plus,
    Semicolon,
    Slash,
    Star,
    // One or two character tokens.
    Bang,
    BangEqual,
    Equal,
    EqualEqual,
    Greater,
    GreaterEqual,
    Less,
    LessEqual,
    // Literals.
    Identifier,
    String,
    Number,
    // Keywords.
    And,
    Class,
    Else,
    False,
    Fun,
    For,
    If,
    Nil,
    Or,
    Print,
    Return,
    Super,
    This,
    True,
    Var,
    While,
    Error,
    Eof,
}

/// What a token is, with its text as a sequence of characters.
pub struct TokenView {
    pub start: nat,
    pub length: nat,
    pub line: nat,
    pub t: TokenType,
    pub text: Seq<char>,
}

/// A lexical unit. For every kind but `Error`, `source` is the slice of the
/// scanned text that the token spans, `start` is the index of its first
/// character and `length` the number of its characters. An `Error` token
/// carries a diagnostic message in `source` instead.
#[derive(Debug, PartialEq, Clone, Copy)]
pub struct Token<'a> {
    pub start: usize,
    pub length: usize,
    pub line: usize,
    pub t: TokenType,
    pub source: &'a str,
}

impl<'a> View for Token<'a> {
    type V = TokenView;

    open spec fn view(&self) -> TokenView {
        TokenView {
            start: self.start as nat,
            length: self.length as nat,
            line: self.line as nat,
            t: self.t,
            text: self.source@,
        }
    }
}

/// The token that stands where none has been read yet: an error token
/// on line 0.
pub open spec fn placeholder() -> TokenView {
    TokenView { start: 0, length: 0, line: 0, t: TokenType::Error, text: "Empty token"@ }
}

impl<'a> Token<'a> {
    /// The token's text as an owned string.
    pub fn to_string(&self) -> (text: String)
        ensures
            text@ == self@.text,
    {
        self.source.to_owned()
    }

    /// The slice of the source string that represents the token.
    pub fn as_slice(&self) -> (text: &'a str)
        ensures
            text@ == self@.text,
    {
        self.source
    }

    /// The placeholder that stands where no token has been read yet.
    pub fn empty() -> (token: Token<'static>)
        ensures
            token@ == placeholder(),
    {
        Token { start: 0, length: 0, line: 0, t: TokenType::Error, source: "Empty token" }
    }
}

} // verus!
