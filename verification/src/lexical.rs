//! The lexical grammar, stated over sequences of characters: which
//! characters are skipped between tokens, where each token ends, and what
//! kind it has.

use crate::token::{TokenType, TokenView};
use vstd::prelude::*;

verus! {

/// One of the ten decimal digits.
pub open spec fn is_digit_char(c: char) -> bool {
    '0' <= c && c <= '9'
}

/// An ASCII letter or the underscore.
pub open spec fn is_alpha_char(c: char) -> bool {
    ('a' <= c && c <= 'z') || ('A' <= c && c <= 'Z') || c == '_'
}

/// A character that separates tokens without being one.
pub open spec fn is_blank_char(c: char) -> bool {
    c == ' ' || c == '\r' || c == '\t' || c == '\n'
}

/// The class of decimal digits.
pub open spec fn digit() -> spec_fn(char) -> bool {
    |c: char| is_digit_char(c)
}

/// The class of characters that continue an identifier.
pub open spec fn word_char() -> spec_fn(char) -> bool {
    |c: char| is_alpha_char(c) || is_digit_char(c)
}

/// Every character but the line feed.
pub open spec fn not_newline() -> spec_fn(char) -> bool {
    |c: char| c != '\n'
}

/// Every character but the double quote.
pub open spec fn not_quote() -> spec_fn(char) -> bool {
    |c: char| c != '"'
}

/// The character under index `at`, or NUL past the end of the text.
pub open spec fn char_at(text: Seq<char>, at: int) -> char {
    if 0 <= at < text.len() {
        text[at]
    } else {
        '\0'
    }
}

/// The index just past the longest run of characters of `class` that begins
/// at `from`.
pub open spec fn run_end(text: Seq<char>, from: int, class: spec_fn(char) -> bool) -> int
    decreases text.len() - from,
{
    if 0 <= from < text.len() && class(text[from]) {
        run_end(text, from + 1, class)
    } else {
        from
    }
}

/// A run ends at or after its beginning and inside the text, every
/// character of it belongs to the class, and the character after it, if
/// there is one, does not.
pub proof fn lemma_run_end(text: Seq<char>, from: int, class: spec_fn(char) -> bool)
    requires
        0 <= from <= text.len(),
    ensures
        from <= run_end(text, from, class) <= text.len(),
        forall|i: int| from <= i < run_end(text, from, class) ==> class(#[trigger] text[i]),
        run_end(text, from, class) < text.len() ==> !class(text[run_end(text, from, class)]),
    decreases text.len() - from,
{
    if from < text.len() && class(text[from]) {
        lemma_run_end(text, from + 1, class);
    }
}

/// Scanning on from inside a run reaches the same end.
pub proof fn lemma_run_end_resumes(
    text: Seq<char>,
    from: int,
    middle: int,
    class: spec_fn(char) -> bool,
)
    requires
        0 <= from <= middle <= text.len(),
        forall|i: int| from <= i < middle ==> class(#[trigger] text[i]),
    ensures
        run_end(text, from, class) == run_end(text, middle, class),
    decreases middle - from,
{
    if from < middle {
        lemma_run_end_resumes(text, from + 1, middle, class);
    }
}

/// Whether a `//` comment begins at `at`.
pub open spec fn starts_comment(text: Seq<char>, at: int) -> bool {
    0 <= at && at + 1 < text.len() && text[at] == '/' && text[at + 1] == '/'
}

/// The index of the first character at or after `from` that belongs to a
/// token: blanks are passed over, and so is each comment up to the end of
/// its line.
pub open spec fn blank_end(text: Seq<char>, from: int) -> int
    decreases text.len() - from,
    via blank_end_decreases
{
    if from < 0 || from >= text.len() {
        from
    } else if is_blank_char(text[from]) {
        blank_end(text, from + 1)
    } else if starts_comment(text, from) {
        blank_end(text, run_end(text, from, not_newline()))
    } else {
        from
    }
}

#[via_fn]
proof fn blank_end_decreases(text: Seq<char>, from: int) {
    if 0 <= from < text.len() && !is_blank_char(text[from]) && starts_comment(text, from) {
        lemma_run_end(text, from + 1, not_newline());
    }
}

/// Skipping stops inside the text, at a character that is neither a blank
/// nor the first of a comment.
pub proof fn lemma_blank_end(text: Seq<char>, from: int)
    requires
        0 <= from <= text.len(),
    ensures
        from <= blank_end(text, from) <= text.len(),
        blank_end(text, from) < text.len() ==> !is_blank_char(text[blank_end(text, from)])
            && !starts_comment(text, blank_end(text, from)),
        blank_end(text, blank_end(text, from)) == blank_end(text, from),
    decreases text.len() - from,
{
    if from < text.len() {
        if is_blank_char(text[from]) {
            lemma_blank_end(text, from + 1);
        } else if starts_comment(text, from) {
            lemma_run_end(text, from + 1, not_newline());
            lemma_blank_end(text, run_end(text, from, not_newline()));
        }
    }
}

/// The number of line feeds in `text`.
pub open spec fn newlines(text: Seq<char>) -> nat
    decreases text.len(),
{
    if text.len() == 0 {
        0
    } else {
        newlines(text.drop_last()) + if text.last() == '\n' {
            1nat
        } else {
            0nat
        }
    }
}

/// Line feeds are counted piece by piece.
pub proof fn lemma_newlines_split(text: Seq<char>, from: int, middle: int, to: int)
    requires
        0 <= from <= middle <= to <= text.len(),
    ensures
        newlines(text.subrange(from, to)) == newlines(text.subrange(from, middle)) + newlines(
            text.subrange(middle, to),
        ),
    decreases to - middle,
{
    if middle < to {
        lemma_newlines_split(text, from, middle, to - 1);
        assert(text.subrange(from, to).drop_last() =~= text.subrange(from, to - 1));
        assert(text.subrange(middle, to).drop_last() =~= text.subrange(middle, to - 1));
    } else {
        assert(text.subrange(from, to) =~= text.subrange(from, middle));
    }
}

/// One character counts as one line feed or none.
pub proof fn lemma_newlines_one(text: Seq<char>, at: int)
    requires
        0 <= at < text.len(),
    ensures
        newlines(text.subrange(at, at + 1)) == if text[at] == '\n' {
            1nat
        } else {
            0nat
        },
{
    assert(text.subrange(at, at + 1).drop_last() =~= Seq::<char>::empty());
    assert(newlines(Seq::<char>::empty()) == 0);
}

/// A stretch without a line feed counts none.
pub proof fn lemma_newlines_none(text: Seq<char>, from: int, to: int)
    requires
        0 <= from <= to <= text.len(),
        forall|i: int| from <= i < to ==> #[trigger] text[i] != '\n',
    ensures
        newlines(text.subrange(from, to)) == 0,
    decreases to - from,
{
    if from < to {
        lemma_newlines_none(text, from, to - 1);
        assert(text.subrange(from, to).drop_last() =~= text.subrange(from, to - 1));
    }
}

/// The line reached from `line` after reading `consumed`. The counter stops
/// at the largest value it can hold.
pub open spec fn line_after(line: usize, consumed: Seq<char>) -> usize {
    if line + newlines(consumed) > usize::MAX {
        usize::MAX
    } else {
        (line + newlines(consumed)) as usize
    }
}

/// Where a number ends whose digits begin at or before `from`: after the
/// digits that follow, and after a fraction if a `.` and at least one more
/// digit come next.
pub open spec fn number_end(text: Seq<char>, from: int) -> int {
    let whole = run_end(text, from, digit());
    if whole + 1 < text.len() && text[whole] == '.' && is_digit_char(text[whole + 1]) {
        run_end(text, whole + 1, digit())
    } else {
        whole
    }
}

/// Where a string ends whose body begins at `from`: after its closing
/// quote, or `None` where the text ends first.
pub open spec fn string_end(text: Seq<char>, from: int) -> Option<int> {
    let close = run_end(text, from, not_quote());
    if close < text.len() {
        Some(close + 1)
    } else {
        None
    }
}

/// The kind of a word: one of the sixteen keywords, or an identifier.
pub open spec fn keyword(word: Seq<char>) -> TokenType {
    if word == "and"@ {
        TokenType::And
    } else if word == "class"@ {
        TokenType::Class
    } else if word == "else"@ {
        TokenType::Else
    } else if word == "false"@ {
        TokenType::False
    } else if word == "for"@ {
        TokenType::For
    } else if word == "fun"@ {
        TokenType::Fun
    } else if word == "if"@ {
        TokenType::If
    } else if word == "nil"@ {
        TokenType::Nil
    } else if word == "or"@ {
        TokenType::Or
    } else if word == "print"@ {
        TokenType::Print
    } else if word == "return"@ {
        TokenType::Return
    } else if word == "super"@ {
        TokenType::Super
    } else if word == "this"@ {
        TokenType::This
    } else if word == "true"@ {
        TokenType::True
    } else if word == "var"@ {
        TokenType::Var
    } else if word == "while"@ {
        TokenType::While
    } else {
        TokenType::Identifier
    }
}

/// The message of the error token for a string without its closing quote.
pub open spec fn unterminated_string() -> Seq<char> {
    "Unterminated string."@
}

/// The message of the error token for a character that begins no token.
pub open spec fn unexpected_character() -> Seq<char> {
    "Unexpected character."@
}

/// The kind of the token whose first character, `first`, has been read, and
/// which may go on with `second`; `None` where the kind depends on more than
/// these two: a string, a number, a word, or a character that begins no
/// token.
pub open spec fn operator(first: char, second: char) -> Option<TokenType> {
    if first == '(' {
        Some(TokenType::LeftParen)
    } else if first == ')' {
        Some(TokenType::RightParen)
    } else if first == '{' {
        Some(TokenType::LeftBrace)
    } else if first == '}' {
        Some(TokenType::RightBrace)
    } else if first == ';' {
        Some(TokenType::Semicolon)
    } else if first == ',' {
        Some(TokenType::Comma)
    } else if first == '.' {
        Some(TokenType::Dot)
    } else if first == '-' {
        Some(TokenType::Minus)
    } else if first == '+' {
        Some(TokenType::Plus)
    } else if first == '/' {
        Some(TokenType::Slash)
    } else if first == '*' {
        Some(TokenType::Star)
    } else if first == '!' {
        Some(if second == '=' { TokenType::BangEqual } else { TokenType::Bang })
    } else if first == '=' {
        Some(if second == '=' { TokenType::EqualEqual } else { TokenType::Equal })
    } else if first == '<' {
        Some(if second == '=' { TokenType::LessEqual } else { TokenType::Less })
    } else if first == '>' {
        Some(if second == '=' { TokenType::GreaterEqual } else { TokenType::Greater })
    } else {
        None
    }
}

/// Whether `kind` is one of the four operators that are two characters long.
pub open spec fn is_double(kind: TokenType) -> bool {
    kind == TokenType::BangEqual || kind == TokenType::EqualEqual || kind == TokenType::LessEqual
        || kind == TokenType::GreaterEqual
}

/// A token as the grammar delimits it: its kind and the index just past its
/// last character. An `Error` lexeme spans what was read before the scanner
/// gave up.
pub struct Lexeme {
    pub kind: TokenType,
    pub end: int,
}

/// The lexeme that begins at `start`, which is taken to be the index of a
/// token's first character or the end of the text.
pub open spec fn lexeme(text: Seq<char>, start: int) -> Lexeme {
    if start < 0 || start >= text.len() {
        Lexeme { kind: TokenType::Eof, end: start }
    } else {
        let first = text[start];
        match operator(first, char_at(text, start + 1)) {
            Some(kind) => Lexeme {
                kind,
                end: if is_double(kind) {
                    start + 2
                } else {
                    start + 1
                },
            },
            None => if first == '"' {
                match string_end(text, start + 1) {
                    Some(end) => Lexeme { kind: TokenType::String, end },
                    None => Lexeme { kind: TokenType::Error, end: text.len() as int },
                }
            } else if is_digit_char(first) {
                Lexeme { kind: TokenType::Number, end: number_end(text, start + 1) }
            } else if is_alpha_char(first) {
                let end = run_end(text, start + 1, word_char());
                Lexeme { kind: keyword(text.subrange(start, end)), end }
            } else {
                Lexeme { kind: TokenType::Error, end: start + 1 }
            },
        }
    }
}

/// The message that an `Error` lexeme beginning at `start` carries.
pub open spec fn error_message(text: Seq<char>, start: int) -> Seq<char> {
    if char_at(text, start) == '"' {
        unterminated_string()
    } else {
        unexpected_character()
    }
}

/// The outcome of one scan: the token, and the scanner's position and line
/// after it.
pub struct Scan {
    pub token: TokenView,
    pub start: int,
    pub current: int,
    pub line: usize,
}

/// What scanning yields from index `from` of `text` on line `line`: blanks
/// and comments are skipped, the next lexeme is read, and the line is
/// advanced by every line feed passed on the way.
pub open spec fn scan(text: Seq<char>, from: int, line: usize) -> Scan {
    let start = blank_end(text, from);
    let found = lexeme(text, start);
    let line = line_after(line, text.subrange(from, found.end));
    Scan {
        token: if found.kind == TokenType::Error {
            TokenView {
                start: 0,
                length: error_message(text, start).len(),
                line: line as nat,
                t: TokenType::Error,
                text: error_message(text, start),
            }
        } else {
            TokenView {
                start: start as nat,
                length: (found.end - start) as nat,
                line: line as nat,
                t: found.kind,
                text: text.subrange(start, found.end),
            }
        },
        start,
        current: found.end,
        line,
    }
}

/// A lexeme ends inside the text, after its beginning unless it is `Eof`,
/// and only a string holds line feeds.
pub proof fn lemma_lexeme(text: Seq<char>, start: int)
    requires
        0 <= start <= text.len(),
        start < text.len() ==> !is_blank_char(text[start]),
    ensures
        start <= lexeme(text, start).end <= text.len(),
        lexeme(text, start).kind == TokenType::Eof <==> start == text.len(),
        lexeme(text, start).kind != TokenType::Eof ==> start < lexeme(text, start).end,
        char_at(text, start) != '"' ==> newlines(text.subrange(start, lexeme(text, start).end))
            == 0,
{
    let found = lexeme(text, start);
    if start < text.len() {
        let first = text[start];
        lemma_run_end(text, start + 1, not_quote());
        lemma_run_end(text, start + 1, digit());
        lemma_run_end(text, start + 1, word_char());
        let whole = run_end(text, start + 1, digit());
        if whole < text.len() {
            lemma_run_end(text, whole + 1, digit());
        }
        lemma_keyword_kinds(text.subrange(start, run_end(text, start + 1, word_char())));
        if first != '"' {
            assert forall|i: int| start <= i < found.end implies #[trigger] text[i] != '\n' by {
                if i > start {
                    if operator(first, char_at(text, start + 1)).is_some() {
                        assert(i == start + 1);
                    } else if is_digit_char(first) {
                        if i != whole {
                            assert(digit()(text[i]));
                        }
                    } else if is_alpha_char(first) {
                        assert(word_char()(text[i]));
                    }
                }
            }
            lemma_newlines_none(text, start, found.end);
        }
    }
}

/// A scan ends inside the text and never before it began; it has passed
/// a character at least unless it yields `Eof`, which it does at the end
/// of the text only.
pub proof fn lemma_scan_moves_on(text: Seq<char>, from: int, line: usize)
    requires
        0 <= from <= text.len(),
    ensures
        from <= scan(text, from, line).start <= scan(text, from, line).current <= text.len(),
        scan(text, from, line).token.t != TokenType::Eof ==> from < scan(text, from, line).current,
        scan(text, from, line).token.t == TokenType::Eof ==> scan(text, from, line).current
            == text.len(),
{
    lemma_blank_end(text, from);
    lemma_lexeme(text, blank_end(text, from));
}

/// At the end of the text a scan yields `Eof` and moves nothing.
pub proof fn lemma_scan_at_end(text: Seq<char>, line: usize)
    ensures
        scan(text, text.len() as int, line) == (Scan {
            token: TokenView {
                start: text.len(),
                length: 0,
                line: line as nat,
                t: TokenType::Eof,
                text: Seq::empty(),
            },
            start: text.len() as int,
            current: text.len() as int,
            line,
        }),
{
    let end = text.len() as int;
    assert(text.subrange(end, end) =~= Seq::<char>::empty());
    assert(newlines(Seq::<char>::empty()) == 0);
}

/// Once a scan has yielded `Eof`, every further scan yields it again, from
/// the same place and on the same line.
pub proof fn lemma_eof_again(text: Seq<char>, from: int, line: usize)
    requires
        0 <= from <= text.len(),
        scan(text, from, line).token.t == TokenType::Eof,
    ensures
        scan(text, from, line).current == text.len(),
        scan(text, scan(text, from, line).current, scan(text, from, line).line) == scan(
            text,
            from,
            line,
        ),
{
    lemma_blank_end(text, from);
    lemma_lexeme(text, blank_end(text, from));
    let end = text.len() as int;
    lemma_scan_at_end(text, scan(text, from, line).line);
    lemma_newlines_split(text, from, end, end);
    assert(text.subrange(end, end) =~= Seq::<char>::empty());
    assert(newlines(Seq::<char>::empty()) == 0);
}

/// A `/` that no second `/` follows is a token of its own and never the
/// beginning of a comment.
pub proof fn lemma_lone_slash(text: Seq<char>, at: int, line: usize)
    requires
        0 <= at < text.len(),
        text[at] == '/',
        char_at(text, at + 1) != '/',
    ensures
        blank_end(text, at) == at,
        lexeme(text, at) == (Lexeme { kind: TokenType::Slash, end: at + 1 }),
        scan(text, at, line).token.t == TokenType::Slash,
        scan(text, at, line).token.text == seq!['/'],
        scan(text, at, line).current == at + 1,
{
    assert(text.subrange(at, at + 1) =~= seq!['/']);
}

/// Whether every character of `text` from `from` up to `to` is a digit.
pub open spec fn all_digits(text: Seq<char>, from: int, to: int) -> bool {
    forall|i: int| from <= i < to ==> is_digit_char(#[trigger] text[i])
}

/// Whether `text` is one number and nothing else: one or more digits, and
/// optionally a `.` with one or more digits after it.
pub open spec fn is_number_literal(text: Seq<char>) -> bool {
    exists|whole: int|
        0 < whole <= text.len() && #[trigger] all_digits(text, 0, whole) && (whole == text.len()
            || (text[whole] == '.' && whole + 1 < text.len() && all_digits(
            text,
            whole + 1,
            text.len() as int,
        )))
}

/// A text that is one number is scanned as one `Number` token that spans
/// all of it, and after that as `Eof`.
pub proof fn lemma_number_literal(text: Seq<char>, line: usize)
    requires
        is_number_literal(text),
    ensures
        scan(text, 0, line) == (Scan {
            token: TokenView {
                start: 0,
                length: text.len(),
                line: line as nat,
                t: TokenType::Number,
                text,
            },
            start: 0,
            current: text.len() as int,
            line,
        }),
        scan(text, text.len() as int, line).token.t == TokenType::Eof,
        scan(text, text.len() as int, line).token.line == line,
        scan(text, text.len() as int, line).current == text.len(),
        scan(text, text.len() as int, line).line == line,
{
    let length = text.len() as int;
    let whole = choose|whole: int|
        0 < whole <= text.len() && #[trigger] all_digits(text, 0, whole) && (whole == text.len()
            || (text[whole] == '.' && whole + 1 < text.len() && all_digits(
            text,
            whole + 1,
            text.len() as int,
        )));
    assert(is_digit_char(text[0]));
    assert forall|i: int| 1 <= i < whole implies digit()(#[trigger] text[i]) by {
        assert(is_digit_char(text[i]));
    }
    lemma_run_end_resumes(text, 1, whole, digit());
    if whole < length {
        assert forall|i: int| whole + 1 <= i < length implies digit()(#[trigger] text[i]) by {
            assert(is_digit_char(text[i]));
        }
        assert(is_digit_char(text[whole + 1]));
        lemma_run_end_resumes(text, whole + 1, length, digit());
    }
    assert(number_end(text, 1) == length);
    lemma_lexeme(text, 0);
    assert(text.subrange(0, length) =~= text);
    assert(text.subrange(length, length) =~= Seq::<char>::empty());
    assert(newlines(Seq::<char>::empty()) == 0);
}

/// A word is never an `Eof` or an `Error`.
pub proof fn lemma_keyword_kinds(word: Seq<char>)
    ensures
        keyword(word) != TokenType::Eof,
        keyword(word) != TokenType::Error,
{
}

} // verus!
