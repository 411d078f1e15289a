//! The scanner: it reads a source text one token at a time, on demand.

use crate::lexical::{
    blank_end, char_at, digit, is_alpha_char, is_digit_char, keyword, lemma_blank_end,
    lemma_lexeme, lemma_newlines_none, lemma_newlines_one, lemma_newlines_split, lemma_run_end,
    lemma_run_end_resumes, lexeme, line_after, not_newline, not_quote, number_end, run_end, scan,
    string_end, unterminated_string, word_char,
};
use crate::token::{Token, TokenType, TokenView};
use vstd::prelude::*;

verus! {

/// What a scanner holds: the text, the span of the token being read, and
/// the line it has reached.
pub struct ScannerView {
    pub source: Seq<char>,
    pub start: int,
    pub current: int,
    pub line: usize,
}

/// A cursor over a source text. `start` is where the token being read
/// begins, `current` the next character to read, `line` the line that
/// `current` is on, counted from 1.
pub struct Scanner<'a> {
    start: usize,
    current: usize,
    line: usize,
    source: &'a str,
    chars: Vec<char>,
}

impl<'a> View for Scanner<'a> {
    type V = ScannerView;

    closed spec fn view(&self) -> ScannerView {
        ScannerView {
            source: self.source@,
            start: self.start as int,
            current: self.current as int,
            line: self.line,
        }
    }
}

impl ScannerView {
    /// Whether every character has been read.
    pub open spec fn at_end(self) -> bool {
        self.current >= self.source.len()
    }

    /// The characters read of the current token.
    pub open spec fn pending(self) -> Seq<char> {
        self.source.subrange(self.start, self.current)
    }

    /// The state after `count` more characters, the line being `line` then.
    pub open spec fn moved(self, count: int, line: usize) -> ScannerView {
        ScannerView { current: self.current + count, line, ..self }
    }

    /// The token of kind `t` that spans the characters read since `start`.
    pub open spec fn token(self, t: TokenType) -> TokenView {
        TokenView {
            start: self.start as nat,
            length: (self.current - self.start) as nat,
            line: self.line as nat,
            t,
            text: self.pending(),
        }
    }

    /// The error token that carries `message`.
    pub open spec fn error(self, message: Seq<char>) -> TokenView {
        TokenView {
            start: 0,
            length: message.len(),
            line: self.line as nat,
            t: TokenType::Error,
            text: message,
        }
    }

    /// The token that the next scan yields.
    pub open spec fn next_token(self) -> TokenView {
        scan(self.source, self.current, self.line).token
    }

    /// The state after the next scan.
    pub open spec fn after_scan(self) -> ScannerView {
        let found = scan(self.source, self.current, self.line);
        ScannerView {
            source: self.source,
            start: found.start,
            current: found.current,
            line: found.line,
        }
    }
}

/// Whether `c` is a decimal digit.
pub fn is_digit(c: char) -> (digit: bool)
    ensures
        digit == is_digit_char(c),
{
    '0' <= c && c <= '9'
}

/// Whether `c` may begin an identifier.
fn is_alpha(c: char) -> (alpha: bool)
    ensures
        alpha == is_alpha_char(c),
{
    ('a' <= c && c <= 'z') || ('A' <= c && c <= 'Z') || c == '_'
}

impl<'a> Scanner<'a> {
    /// The invariant of a scanner: the token being read lies inside the
    /// text, before the cursor.
    pub closed spec fn well_formed(&self) -> bool {
        &&& self.chars@ == self.source@
        &&& self.start <= self.current <= self.chars.len()
    }

    /// A scanner at the beginning of `source`, on line 1.
    pub fn new(source: &'a str) -> (scanner: Scanner<'a>)
        ensures
            scanner.well_formed(),
            scanner@ == (ScannerView { source: source@, start: 0, current: 0, line: 1 }),
    {
        let mut chars: Vec<char> = Vec::new();
        for c in it: source.chars()
            invariant
                chars@ == it.seq().take(it.index() as int),
                it.seq() == source@,
        {
            chars.push(c);
        }
        assert(chars@ =~= source@);
        Scanner { start: 0, current: 0, line: 1, source, chars }
    }

    /// The line that the cursor is on.
    pub fn current_line(&self) -> (line: usize)
        ensures
            line == self@.line,
    {
        self.line
    }

    /// The characters read of the current token.
    pub fn current_str(&self) -> (text: &'a str)
        requires
            self.well_formed(),
        ensures
            text@ == self@.pending(),
    {
        self.source.substring_char(self.start, self.current)
    }

    /// The next character, or NUL at the end of the text.
    pub fn peek(&self) -> (c: char)
        requires
            self.well_formed(),
        ensures
            c == char_at(self@.source, self@.current),
    {
        if self.current < self.chars.len() {
            self.chars[self.current]
        } else {
            '\0'
        }
    }

    /// The character after the next one, if the text has it.
    pub fn peek_next(&self) -> (c: Option<char>)
        requires
            self.well_formed(),
        ensures
            c == (if self@.current + 1 < self@.source.len() {
                Some(self@.source[self@.current + 1])
            } else {
                None
            }),
    {
        if self.current < self.chars.len() && self.current + 1 < self.chars.len() {
            Some(self.chars[self.current + 1])
        } else {
            None
        }
    }

    /// Whether every character has been read.
    pub fn is_at_end(&self) -> (at_end: bool)
        requires
            self.well_formed(),
        ensures
            at_end == self@.at_end(),
    {
        self.current >= self.chars.len()
    }

    /// Reads the next token: skips blanks and comments, then reads one
    /// lexeme. At the end of the text the token is `Eof`, however often
    /// this is called.
    pub fn scan_token(&mut self) -> (token: Token<'a>)
        requires
            old(self).well_formed(),
        ensures
            final(self).well_formed(),
            token@ == old(self)@.next_token(),
            final(self)@ == old(self)@.after_scan(),
    {
        let ghost text = self@.source;
        let ghost from = self@.current;
        self.skip_whitespace();
        self.start = self.current;
        let ghost start = self@.current;
        proof {
            lemma_blank_end(text, from);
            lemma_lexeme(text, start);
            lemma_newlines_split(text, from, start, lexeme(text, start).end);
        }
        if self.is_at_end() {
            return self.make_token(TokenType::Eof);
        }
        let c = self.advance();
        proof {
            lemma_newlines_split(text, start, start + 1, lexeme(text, start).end);
            lemma_newlines_split(text, from, start + 1, lexeme(text, start).end);
            lemma_newlines_none(text, start, start + 1);
            lemma_newlines_split(text, from, start, start + 1);
        }
        match c {
            '(' => self.make_token(TokenType::LeftParen),
            ')' => self.make_token(TokenType::RightParen),
            '{' => self.make_token(TokenType::LeftBrace),
            '}' => self.make_token(TokenType::RightBrace),
            ';' => self.make_token(TokenType::Semicolon),
            ',' => self.make_token(TokenType::Comma),
            '.' => self.make_token(TokenType::Dot),
            '-' => self.make_token(TokenType::Minus),
            '+' => self.make_token(TokenType::Plus),
            '/' => self.make_token(TokenType::Slash),
            '*' => self.make_token(TokenType::Star),
            '!' => {
                if self.consume_match('=') {
                    self.make_token(TokenType::BangEqual)
                } else {
                    self.make_token(TokenType::Bang)
                }
            },
            '=' => {
                if self.consume_match('=') {
                    self.make_token(TokenType::EqualEqual)
                } else {
                    self.make_token(TokenType::Equal)
                }
            },
            '<' => {
                if self.consume_match('=') {
                    self.make_token(TokenType::LessEqual)
                } else {
                    self.make_token(TokenType::Less)
                }
            },
            '>' => {
                if self.consume_match('=') {
                    self.make_token(TokenType::GreaterEqual)
                } else {
                    self.make_token(TokenType::Greater)
                }
            },
            '"' => self.string(),
            _ => {
                if is_digit(c) {
                    self.number()
                } else if is_alpha(c) {
                    self.identifier()
                } else {
                    self.error_token("Unexpected character.")
                }
            },
        }
    }

    /// Passes over blanks and comments, counting the lines.
    fn skip_whitespace(&mut self)
        requires
            old(self).well_formed(),
        ensures
            final(self).well_formed(),
            final(self)@ == old(self)@.moved(
                blank_end(old(self)@.source, old(self)@.current) - old(self)@.current,
                line_after(
                    old(self)@.line,
                    old(self)@.source.subrange(
                        old(self)@.current,
                        blank_end(old(self)@.source, old(self)@.current),
                    ),
                ),
            ),
    {
        let ghost text = self@.source;
        let ghost from = self@.current;
        proof {
            assert(text.subrange(from, from) =~= Seq::<char>::empty());
        }
        loop
            invariant
                self.well_formed(),
                self@.source == text,
                self@.start == old(self)@.start,
                0 <= from <= self@.current <= text.len(),
                blank_end(text, self@.current) == blank_end(text, from),
                self@.line == line_after(old(self)@.line, text.subrange(from, self@.current)),
            ensures
                self.well_formed(),
                self@.source == text,
                self@.start == old(self)@.start,
                self@.current == blank_end(text, from),
                self@.line == line_after(old(self)@.line, text.subrange(from, self@.current)),
            decreases text.len() - self@.current,
        {
            let ghost at = self@.current;
            let c = self.peek();
            if c == ' ' || c == '\r' || c == '\t' {
                proof {
                    lemma_newlines_split(text, from, at, at + 1);
                    lemma_newlines_one(text, at);
                }
                self.advance();
            } else if c == '\n' {
                proof {
                    lemma_newlines_split(text, from, at, at + 1);
                    lemma_newlines_one(text, at);
                }
                self.line = self.line.saturating_add(1);
                self.advance();
            } else if c == '/' {
                match self.peek_next() {
                    Some('/') => {
                        proof {
                            lemma_run_end(text, at, not_newline());
                        }
                        while self.peek() != '\n' && !self.is_at_end()
                            invariant
                                self.well_formed(),
                                self@.source == text,
                                self@.start == old(self)@.start,
                                0 <= from <= at <= self@.current <= text.len(),
                                self@.line == line_after(old(self)@.line, text.subrange(from, at)),
                                forall|i: int|
                                    at <= i < self@.current ==> #[trigger] text[i] != '\n',
                            decreases text.len() - self@.current,
                        {
                            self.advance();
                        }
                        proof {
                            let end = self@.current;
                            lemma_run_end_resumes(text, at, end, not_newline());
                            assert(run_end(text, at, not_newline()) == end);
                            assert(end >= at + 2) by {
                                assert(text[at] != '\n');
                                assert(text[at + 1] != '\n');
                                lemma_run_end(text, at, not_newline());
                                if end < at + 2 {
                                    assert(!not_newline()(text[end]));
                                }
                            }
                            lemma_newlines_split(text, from, at, end);
                            lemma_newlines_none(text, at, end);
                        }
                    },
                    _ => {
                        break ;
                    },
                }
            } else {
                break ;
            }
        }
    }

    /// Reads one character. The line is left as it is.
    pub fn advance(&mut self) -> (c: char)
        requires
            old(self).well_formed(),
            !old(self)@.at_end(),
        ensures
            final(self).well_formed(),
            final(self)@ == old(self)@.moved(1, old(self)@.line),
            c == old(self)@.source[old(self)@.current],
    {
        self.current += 1;
        self.chars[self.current - 1]
    }

    /// Reads the next character if it is `expected`, and says whether it did.
    pub fn consume_match(&mut self, expected: char) -> (matched: bool)
        requires
            old(self).well_formed(),
        ensures
            final(self).well_formed(),
            matched == (!old(self)@.at_end() && old(self)@.source[old(self)@.current] == expected),
            final(self)@ == (if matched {
                old(self)@.moved(1, old(self)@.line)
            } else {
                old(self)@
            }),
    {
        if self.is_at_end() {
            return false;
        }
        if self.peek() != expected {
            return false;
        }
        self.advance();
        true
    }

    /// The token of kind `t` that spans the characters read since `start`.
    fn make_token(&self, t: TokenType) -> (token: Token<'a>)
        requires
            self.well_formed(),
        ensures
            token@ == self@.token(t),
    {
        Token {
            t,
            start: self.start,
            length: self.current - self.start,
            line: self.line,
            source: self.source.substring_char(self.start, self.current),
        }
    }

    /// The error token that carries `message`, on the current line.
    fn error_token(&self, message: &'static str) -> (token: Token<'static>)
        ensures
            token@ == self@.error(message@),
    {
        Token {
            t: TokenType::Error,
            start: 0,
            length: message.unicode_len(),
            line: self.line,
            source: message,
        }
    }

    /// Reads the rest of a string, whose opening quote has been read: up
    /// to and including the closing quote, counting lines on the way. Where
    /// the text ends first, all of it is read and the token is an error.
    pub fn string(&mut self) -> (token: Token<'a>)
        requires
            old(self).well_formed(),
        ensures
            final(self).well_formed(),
            match string_end(old(self)@.source, old(self)@.current) {
                Some(end) => {
                    &&& final(self)@ == old(self)@.moved(
                        end - old(self)@.current,
                        line_after(
                            old(self)@.line,
                            old(self)@.source.subrange(old(self)@.current, end),
                        ),
                    )
                    &&& token@ == final(self)@.token(TokenType::String)
                },
                None => {
                    &&& final(self)@ == old(self)@.moved(
                        old(self)@.source.len() - old(self)@.current,
                        line_after(
                            old(self)@.line,
                            old(self)@.source.subrange(
                                old(self)@.current,
                                old(self)@.source.len() as int,
                            ),
                        ),
                    )
                    &&& token@ == final(self)@.error(unterminated_string())
                },
            },
    {
        let ghost text = self@.source;
        let ghost from = self@.current;
        proof {
            assert(text.subrange(from, from) =~= Seq::<char>::empty());
        }
        while self.peek() != '"' && !self.is_at_end()
            invariant
                self.well_formed(),
                self@.source == text,
                self@.start == old(self)@.start,
                0 <= from <= self@.current <= text.len(),
                forall|i: int| from <= i < self@.current ==> #[trigger] text[i] != '"',
                self@.line == line_after(old(self)@.line, text.subrange(from, self@.current)),
            decreases text.len() - self@.current,
        {
            let ghost at = self@.current;
            proof {
                lemma_newlines_split(text, from, at, at + 1);
                lemma_newlines_one(text, at);
            }
            if self.peek() == '\n' {
                self.line = self.line.saturating_add(1);
            }
            self.advance();
        }
        proof {
            lemma_run_end_resumes(text, from, self@.current, not_quote());
        }
        if self.is_at_end() {
            return self.error_token("Unterminated string.");
        }
        proof {
            let at = self@.current;
            lemma_newlines_split(text, from, at, at + 1);
            lemma_newlines_one(text, at);
        }
        self.advance();
        self.make_token(TokenType::String)
    }

    /// Reads the rest of a number: the digits that follow, and a fraction
    /// if a `.` and at least one more digit come next.
    pub fn number(&mut self) -> (token: Token<'a>)
        requires
            old(self).well_formed(),
        ensures
            final(self).well_formed(),
            final(self)@ == old(self)@.moved(
                number_end(old(self)@.source, old(self)@.current) - old(self)@.current,
                old(self)@.line,
            ),
            token@ == final(self)@.token(TokenType::Number),
    {
        let ghost text = self@.source;
        self.digits();
        let fraction = self.peek() == '.' && match self.peek_next() {
            Some(c) => is_digit(c),
            None => false,
        };
        if fraction {
            self.advance();
            self.digits();
        }
        self.make_token(TokenType::Number)
    }

    /// Reads the digits that come next.
    fn digits(&mut self)
        requires
            old(self).well_formed(),
        ensures
            final(self).well_formed(),
            old(self)@.current <= final(self)@.current <= old(self)@.source.len(),
            final(self)@ == old(self)@.moved(
                run_end(old(self)@.source, old(self)@.current, digit()) - old(self)@.current,
                old(self)@.line,
            ),
    {
        let ghost text = self@.source;
        let ghost from = self@.current;
        while is_digit(self.peek())
            invariant
                self.well_formed(),
                text == old(self)@.source,
                from == old(self)@.current,
                self@ == old(self)@.moved(self@.current - from, old(self)@.line),
                0 <= from <= self@.current <= text.len(),
                forall|i: int| from <= i < self@.current ==> digit()(#[trigger] text[i]),
            decreases text.len() - self@.current,
        {
            self.advance();
        }
        proof {
            lemma_run_end_resumes(text, from, self@.current, digit());
        }
    }

    /// Reads the rest of a word and classifies it: a keyword or an
    /// identifier.
    pub fn identifier(&mut self) -> (token: Token<'a>)
        requires
            old(self).well_formed(),
        ensures
            final(self).well_formed(),
            final(self)@ == old(self)@.moved(
                run_end(old(self)@.source, old(self)@.current, word_char()) - old(self)@.current,
                old(self)@.line,
            ),
            token@ == final(self)@.token(keyword(final(self)@.pending())),
    {
        let ghost text = self@.source;
        let ghost from = self@.current;
        while is_alpha(self.peek()) || is_digit(self.peek())
            invariant
                self.well_formed(),
                text == old(self)@.source,
                from == old(self)@.current,
                self@ == old(self)@.moved(self@.current - from, old(self)@.line),
                0 <= from <= self@.current <= text.len(),
                forall|i: int| from <= i < self@.current ==> word_char()(#[trigger] text[i]),
            decreases text.len() - self@.current,
        {
            self.advance();
        }
        proof {
            lemma_run_end_resumes(text, from, self@.current, word_char());
        }
        let t = self.identifier_type();
        self.make_token(t)
    }

    /// Whether the characters read of the current token spell `word`.
    fn spells(&self, word: &str) -> (same: bool)
        requires
            self.well_formed(),
        ensures
            same == (self@.pending() == word@),
    {
        let length: usize = word.unicode_len();
        if self.current - self.start != length {
            return false;
        }
        let mut i: usize = 0;
        while i < length
            invariant
                self.well_formed(),
                length == word@.len(),
                self.current - self.start == length,
                i <= length,
                forall|j: int| 0 <= j < i ==> self@.pending()[j] == word@[j],
            decreases length - i,
        {
            if self.chars[self.start + i] != word.get_char(i) {
                assert(self@.pending()[i as int] != word@[i as int]);
                return false;
            }
            i += 1;
        }
        assert(self@.pending() =~= word@);
        true
    }

    /// The kind of the word read so far: its keyword, or `Identifier`.
    pub fn identifier_type(&self) -> (t: TokenType)
        requires
            self.well_formed(),
        ensures
            t == keyword(self@.pending()),
    {
        if self.spells("and") {
            TokenType::And
        } else if self.spells("class") {
            TokenType::Class
        } else if self.spells("else") {
            TokenType::Else
        } else if self.spells("false") {
            TokenType::False
        } else if self.spells("for") {
            TokenType::For
        } else if self.spells("fun") {
            TokenType::Fun
        } else if self.spells("if") {
            TokenType::If
        } else if self.spells("nil") {
            TokenType::Nil
        } else if self.spells("or") {
            TokenType::Or
        } else if self.spells("print") {
            TokenType::Print
        } else if self.spells("return") {
            TokenType::Return
        } else if self.spells("super") {
            TokenType::Super
        } else if self.spells("this") {
            TokenType::This
        } else if self.spells("true") {
            TokenType::True
        } else if self.spells("var") {
            TokenType::Var
        } else if self.spells("while") {
            TokenType::While
        } else {
            TokenType::Identifier
        }
    }
}

} // verus!
