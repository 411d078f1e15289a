//! What compiling means, stated over the state of a compiler: one token of
//! lookahead, the error flags, the chunk under construction and the
//! diagnostics reported so far.

use crate::chunk::{encode, listing_of, ChunkView, ListingView, OpCode};
use crate::grammar::{
    infix_of, operand_level, operation_of, precedence_of, prefix_of, rank, Grammar, Precedence,
};
use crate::lexical::lemma_scan_moves_on;
use crate::numbers::Numbers;
use crate::scanner::ScannerView;
use crate::text::decimal;
use crate::token::{placeholder, TokenType, TokenView};
use crate::value::Value;
use vstd::prelude::*;

verus! {

/// The most constants that one chunk may hold: as many as one byte can
/// tell apart.
pub const CONSTANTS_MAX: usize = 256;

/// The message for a token that begins no expression, or continues none.
pub open spec fn expected_expression() -> Seq<char> {
    "Expected expression."@
}

/// The message for a number that cannot be read.
pub open spec fn invalid_number() -> Seq<char> {
    "Invalid number"@
}

/// The message for a constant that the pool has no room for.
pub open spec fn too_many_constants() -> Seq<char> {
    "Too many constants in one chunk"@
}

/// The message for a group that is not closed.
pub open spec fn expected_right_paren() -> Seq<char> {
    "Expect ')' after expression."@
}

/// The message for text that follows the expression.
pub open spec fn expected_end() -> Seq<char> {
    "Expected end of file."@
}

/// The name under which a compiled chunk is listed.
pub open spec fn main_chunk() -> Seq<char> {
    "Main chunk"@
}

/// Where a diagnostic says the error is: at the end, at the text of the
/// token, or nowhere for an error token, whose text is a message.
pub open spec fn location(token: TokenView) -> Seq<char> {
    if token.t == TokenType::Eof {
        " at end"@
    } else if token.t == TokenType::Error {
        Seq::empty()
    } else {
        " at "@ + token.text
    }
}

/// The text of the diagnostic for `message` at `token`.
pub open spec fn diagnostic(token: TokenView, message: Seq<char>) -> Seq<char> {
    "[line "@ + decimal(token.line) + "] Error"@ + location(token) + ": "@ + message
}

/// The state of a compiler.
pub struct ParserState {
    pub scanner: ScannerView,
    pub current: TokenView,
    pub previous: TokenView,
    pub had_error: bool,
    pub panic_mode: bool,
    pub chunk: ChunkView,
    pub debug: bool,
    pub diagnostics: Seq<Seq<char>>,
    pub listing: Option<ListingView>,
}

impl ParserState {
    /// The invariant of a compiler: the scanner stands inside the text,
    /// every byte of the chunk has its line, the first error has been
    /// reported and has silenced every later one, and a constant too many
    /// is an error.
    pub open spec fn well_formed(self) -> bool {
        &&& 0 <= self.scanner.start <= self.scanner.current <= self.scanner.source.len()
        &&& self.chunk.lines.len() == self.chunk.code.len()
        &&& self.panic_mode == self.had_error
        &&& self.diagnostics.len() == if self.had_error {
            1nat
        } else {
            0nat
        }
        &&& self.chunk.constants.len() > CONSTANTS_MAX ==> self.had_error
    }

    /// A bound on the tokens still to be passed: the characters not yet
    /// scanned, and one for the token of lookahead unless it is the last.
    pub open spec fn budget(self) -> nat {
        (self.scanner.source.len() - self.scanner.current + if self.current.t != TokenType::Eof {
            1int
        } else {
            0int
        }) as nat
    }

    /// The state after an error at `token` has been found. In panic mode it
    /// is passed over in silence; otherwise it is recorded and reported,
    /// and panic mode begins.
    pub open spec fn reported(self, token: TokenView, message: Seq<char>) -> ParserState {
        if self.panic_mode {
            self
        } else {
            ParserState {
                panic_mode: true,
                had_error: true,
                diagnostics: self.diagnostics.push(diagnostic(token, message)),
                ..self
            }
        }
    }

    /// The state after the scanner has read one token into `current`.
    pub open spec fn scanned(self) -> ParserState {
        ParserState {
            scanner: self.scanner.after_scan(),
            current: self.scanner.next_token(),
            ..self
        }
    }

    /// The state after tokens have been read up to the first that is no
    /// error token, each error token on the way being reported with its
    /// message. An error token stands for at least one character, so the
    /// scanner has moved on: the comparison is there to show that the
    /// definition is well founded.
    pub open spec fn past_errors(self) -> ParserState
        decreases self.scanner.source.len() - self.scanner.current,
    {
        let next = self.scanned();
        if next.current.t == TokenType::Error && self.scanner.current < next.scanner.current
            <= self.scanner.source.len() {
            next.reported(next.current, next.current.text).past_errors()
        } else {
            next
        }
    }

    /// The state after one step forward: the token of lookahead becomes the
    /// previous token, and the next token that is no error token takes its
    /// place.
    pub open spec fn advanced(self) -> ParserState {
        ParserState { previous: self.current, ..self }.past_errors()
    }

    /// The state after a token of kind `t` has been asked for: a step
    /// forward if the lookahead is of that kind, and otherwise an error at
    /// the lookahead, which stays.
    pub open spec fn consumed(self, t: TokenType, message: Seq<char>) -> ParserState {
        if self.current.t == t {
            self.advanced()
        } else {
            self.reported(self.current, message)
        }
    }

    /// The state after `byte` has been written to the chunk, for the line
    /// of the previous token.
    pub open spec fn emitted(self, byte: u8) -> ParserState {
        ParserState { chunk: self.chunk.written(byte, self.previous.line as u32), ..self }
    }

    /// The operand that refers to the constant added next: its index, or 0
    /// where the index does not fit in a byte.
    pub open spec fn pool_index(self) -> u8 {
        if self.chunk.constants.len() < CONSTANTS_MAX {
            self.chunk.constants.len() as u8
        } else {
            0
        }
    }

    /// The state after `value` has been added to the constants, with an
    /// error at the previous token where its index does not fit in a byte.
    pub open spec fn pooled(self, value: Value) -> ParserState {
        let added = ParserState { chunk: self.chunk.with_constant(value), ..self };
        if self.chunk.constants.len() < CONSTANTS_MAX {
            added
        } else {
            added.reported(self.previous, too_many_constants())
        }
    }

    /// The state after `value` has been added to the constants and the
    /// instruction that loads it has been written.
    pub open spec fn loaded(self, value: Value) -> ParserState {
        self.pooled(value).emitted(encode(OpCode::Constant)).emitted(self.pool_index())
    }

    /// The state after the previous token has been compiled as a number:
    /// its value is loaded, or an error is found where its text gives none.
    pub open spec fn number_compiled(self, numbers: Numbers) -> ParserState {
        match numbers(self.previous.text) {
            Some(bits) => self.loaded(Value::Number(bits)),
            None => self.reported(self.previous, invalid_number()),
        }
    }

    /// The state after an expression has been compiled.
    pub open spec fn expression_compiled(self, numbers: Numbers) -> ParserState
        decreases self.budget(), 3nat,
    {
        self.parsed(Precedence::Assignment, numbers)
    }

    /// The state after a group has been compiled, whose opening parenthesis
    /// is the previous token: the expression inside, and the parenthesis
    /// that closes it.
    pub open spec fn grouped(self, numbers: Numbers) -> ParserState
        decreases self.budget(), 4nat,
    {
        self.expression_compiled(numbers).consumed(TokenType::RightParen, expected_right_paren())
    }

    /// The state after a negation has been compiled, whose sign is the
    /// previous token: the operand, and then the instruction.
    pub open spec fn negated(self, numbers: Numbers) -> ParserState
        decreases self.budget(), 4nat,
    {
        self.parsed(Precedence::Unary, numbers).emitted(encode(OpCode::Negate))
    }

    /// The state after the right side of an arithmetic operation has been
    /// compiled, whose operator is the previous token: the operand, and
    /// then the instruction.
    pub open spec fn combined(self, numbers: Numbers) -> ParserState
        decreases self.budget(), 4nat,
    {
        self.parsed(operand_level(self.previous.t).unwrap(), numbers).emitted(
            encode(operation_of(self.previous.t)),
        )
    }

    /// The state after the production `rule` has been compiled.
    pub open spec fn applied(self, rule: Grammar, numbers: Numbers) -> ParserState
        decreases self.budget(), 5nat,
    {
        match rule {
            Grammar::Number => self.number_compiled(numbers),
            Grammar::Unary => self.negated(numbers),
            Grammar::Binary => self.combined(numbers),
            Grammar::Grouping => self.grouped(numbers),
        }
    }

    /// The state after a step forward and the production that the token
    /// stepped over begins; an error at that token where it begins none.
    /// A token that begins a production is not the last, so the step has
    /// lowered the budget: the comparison is there to show that the
    /// definition is well founded.
    pub open spec fn begun(self, numbers: Numbers) -> ParserState
        decreases self.budget(), 0nat,
    {
        let next = self.advanced();
        match prefix_of(next.previous.t) {
            Some(rule) if next.budget() < self.budget() => next.applied(rule, numbers),
            _ => next.reported(next.previous, expected_expression()),
        }
    }

    /// The state after a step forward and the production that the token
    /// stepped over continues; an error at that token where it continues
    /// none. The comparison of budgets is as in `begun`.
    pub open spec fn continued(self, numbers: Numbers) -> ParserState
        decreases self.budget(), 0nat,
    {
        let next = self.advanced();
        match infix_of(next.previous.t) {
            Some(rule) if next.budget() < self.budget() => next.applied(rule, numbers),
            _ => next.reported(next.previous, expected_expression()),
        }
    }

    /// The state after every operator that binds tighter than `precedence`
    /// has been compiled with its right side, as long as such an operator
    /// is the lookahead. Each round passes a token: the comparison of
    /// budgets is there to show that the definition is well founded.
    pub open spec fn extended(self, precedence: Precedence, numbers: Numbers) -> ParserState
        decreases self.budget(), 1nat,
    {
        if rank(precedence) < rank(precedence_of(self.current.t)) {
            let next = self.continued(numbers);
            if next.budget() < self.budget() {
                next.extended(precedence, numbers)
            } else {
                next
            }
        } else {
            self
        }
    }

    /// The state after an expression has been compiled whose operators all
    /// bind tighter than `precedence`. The comparison of budgets is there
    /// to show that the definition is well founded.
    pub open spec fn parsed(self, precedence: Precedence, numbers: Numbers) -> ParserState
        decreases self.budget(), 2nat,
    {
        let first = self.begun(numbers);
        if first.budget() <= self.budget() {
            first.extended(precedence, numbers)
        } else {
            first
        }
    }

    /// The state at the end of a compilation: the return instruction is
    /// written, and the chunk is listed if that was asked for and no error
    /// was found.
    pub open spec fn finished(self) -> ParserState {
        let done = self.emitted(encode(OpCode::Return));
        if done.debug && !done.had_error {
            ParserState { listing: Some(listing_of(done.chunk, main_chunk())), ..done }
        } else {
            done
        }
    }

    /// The state after a whole text has been compiled: the first token is
    /// read, one expression is compiled, the end of the text is asked for,
    /// and the compilation is finished.
    pub open spec fn compiled(self, numbers: Numbers) -> ParserState {
        self.advanced().expression_compiled(numbers).consumed(
            TokenType::Eof,
            expected_end(),
        ).finished()
    }

    /// The state in which a compilation of `source` begins.
    pub open spec fn initial(source: Seq<char>, debug: bool) -> ParserState {
        ParserState {
            scanner: ScannerView { source, start: 0, current: 0, line: 1 },
            current: placeholder(),
            previous: placeholder(),
            had_error: false,
            panic_mode: false,
            chunk: ChunkView::empty(),
            debug,
            diagnostics: Seq::empty(),
            listing: None,
        }
    }

    /// Whether this state can come after `before` in one compilation: it
    /// is well formed, reads the same text, has no more tokens to pass, and
    /// has forgotten no error.
    pub open spec fn follows(self, before: ParserState) -> bool {
        &&& self.well_formed()
        &&& self.budget() <= before.budget()
        &&& self.scanner.source == before.scanner.source
        &&& self.scanner.current >= before.scanner.current
        &&& self.debug == before.debug
        &&& self.listing == before.listing
        &&& before.had_error ==> self.had_error
        &&& self.chunk.constants.len() >= before.chunk.constants.len()
    }
}

/// One scan leaves the scanner inside the text and never moves it back; it
/// moves it on unless the text had ended, and then the token is `Eof`.
pub proof fn lemma_scanned(state: ParserState)
    requires
        state.well_formed(),
    ensures
        state.scanned().well_formed(),
        state.scanned().scanner.current >= state.scanner.current,
        state.scanned().current.t != TokenType::Eof ==> state.scanned().scanner.current
            > state.scanner.current,
        state.scanned().current.t == TokenType::Eof ==> state.scanned().scanner.current
            == state.scanner.source.len(),
{
    lemma_scan_moves_on(state.scanner.source, state.scanner.current, state.scanner.line);
}

/// Reading on to the first token that is no error token yields such a
/// token, and what comes out follows what went in, the chunk and the
/// previous token being left alone.
pub proof fn lemma_past_errors(state: ParserState)
    requires
        state.well_formed(),
    ensures
        state.past_errors().follows(
            ParserState { current: state.past_errors().current, ..state },
        ),
        state.past_errors().current.t != TokenType::Error,
        state.past_errors().current.t != TokenType::Eof ==> state.past_errors().scanner.current
            > state.scanner.current,
        state.past_errors().previous == state.previous,
        state.past_errors().chunk == state.chunk,
    decreases state.scanner.source.len() - state.scanner.current,
{
    lemma_scanned(state);
    let next = state.scanned();
    if next.current.t == TokenType::Error {
        lemma_past_errors(next.reported(next.current, next.current.text));
    }
}

/// A step forward yields a state that follows: the lookahead has become
/// the previous token, the new lookahead is no error token, and the budget
/// is lower unless the lookahead was the last token.
pub proof fn lemma_advanced(state: ParserState)
    requires
        state.well_formed(),
    ensures
        state.advanced().follows(state),
        state.advanced().previous == state.current,
        state.advanced().chunk == state.chunk,
        state.advanced().current.t != TokenType::Error,
        state.current.t != TokenType::Eof ==> state.advanced().budget() < state.budget(),
{
    lemma_past_errors(ParserState { previous: state.current, ..state });
}

/// Asking for a token yields a state that follows.
pub proof fn lemma_consumed(state: ParserState, t: TokenType, message: Seq<char>)
    requires
        state.well_formed(),
    ensures
        state.consumed(t, message).follows(state),
        state.consumed(t, message).chunk == state.chunk,
{
    lemma_advanced(state);
}

/// Compiling a number yields a state that follows.
pub proof fn lemma_number_compiled(state: ParserState, numbers: Numbers)
    requires
        state.well_formed(),
    ensures
        state.number_compiled(numbers).follows(state),
{
}

/// Compiling a production yields a state that follows.
pub proof fn lemma_applied(state: ParserState, rule: Grammar, numbers: Numbers)
    requires
        state.well_formed(),
    ensures
        state.applied(rule, numbers).follows(state),
    decreases state.budget(), 5nat,
{
    match rule {
        Grammar::Number => lemma_number_compiled(state, numbers),
        Grammar::Unary => lemma_parsed(state, Precedence::Unary, numbers),
        Grammar::Binary => lemma_parsed(state, operand_level(state.previous.t).unwrap(), numbers),
        Grammar::Grouping => {
            lemma_parsed(state, Precedence::Assignment, numbers);
            lemma_consumed(
                state.expression_compiled(numbers),
                TokenType::RightParen,
                expected_right_paren(),
            );
        },
    }
}

/// Beginning an expression yields a state that follows, and the comparison
/// of budgets in the definition holds.
pub proof fn lemma_begun(state: ParserState, numbers: Numbers)
    requires
        state.well_formed(),
    ensures
        state.begun(numbers).follows(state),
        prefix_of(state.current.t).is_some() ==> state.advanced().budget() < state.budget(),
    decreases state.budget(), 0nat,
{
    lemma_advanced(state);
    let next = state.advanced();
    match prefix_of(next.previous.t) {
        Some(rule) => {
            lemma_applied(next, rule, numbers);
        },
        None => {},
    }
}

/// Continuing an expression yields a state that follows, and the
/// comparison of budgets in the definition holds.
pub proof fn lemma_continued(state: ParserState, numbers: Numbers)
    requires
        state.well_formed(),
    ensures
        state.continued(numbers).follows(state),
        state.current.t != TokenType::Eof ==> state.continued(numbers).budget() < state.budget(),
        infix_of(state.current.t).is_some() ==> state.advanced().budget() < state.budget(),
    decreases state.budget(), 0nat,
{
    lemma_advanced(state);
    let next = state.advanced();
    match infix_of(next.previous.t) {
        Some(rule) => {
            lemma_applied(next, rule, numbers);
        },
        None => {},
    }
}

/// Compiling the operators that follow yields a state that follows.
pub proof fn lemma_extended(state: ParserState, precedence: Precedence, numbers: Numbers)
    requires
        state.well_formed(),
    ensures
        state.extended(precedence, numbers).follows(state),
    decreases state.budget(), 1nat,
{
    if rank(precedence) < rank(precedence_of(state.current.t)) {
        lemma_continued(state, numbers);
        lemma_extended(state.continued(numbers), precedence, numbers);
    }
}

/// Compiling an expression yields a state that follows, and the comparison
/// of budgets in the definition holds.
pub proof fn lemma_parsed(state: ParserState, precedence: Precedence, numbers: Numbers)
    requires
        state.well_formed(),
    ensures
        state.parsed(precedence, numbers).follows(state),
        state.begun(numbers).budget() <= state.budget(),
    decreases state.budget(), 2nat,
{
    lemma_begun(state, numbers);
    lemma_extended(state.begun(numbers), precedence, numbers);
}

/// In a well-formed state the comparisons of budgets in the definitions
/// hold: an expression is what it begins with, extended; it is extended by
/// one operator and its right side after the other; and where a token
/// begins or continues a production, the production is compiled after the
/// step over the token.
pub proof fn lemma_comparisons_hold(state: ParserState, precedence: Precedence, numbers: Numbers)
    requires
        state.well_formed(),
    ensures
        state.parsed(precedence, numbers) == state.begun(numbers).extended(precedence, numbers),
        rank(precedence) < rank(precedence_of(state.current.t)) ==> state.extended(
            precedence,
            numbers,
        ) == state.continued(numbers).extended(precedence, numbers),
        prefix_of(state.current.t) matches Some(rule) ==> state.begun(numbers)
            == state.advanced().applied(rule, numbers),
        infix_of(state.current.t) matches Some(rule) ==> state.continued(numbers)
            == state.advanced().applied(rule, numbers),
{
    lemma_advanced(state);
    lemma_begun(state, numbers);
    lemma_continued(state, numbers);
}

/// A constant for which the pool has no room makes the compilation fail:
/// the error is recorded, and it is reported at the previous token unless
/// an earlier error has silenced it. The chunk keeps a line for every
/// byte.
pub proof fn lemma_pool_overflow(state: ParserState, value: Value)
    requires
        state.well_formed(),
        state.chunk.constants.len() >= CONSTANTS_MAX,
    ensures
        state.loaded(value).well_formed(),
        state.loaded(value).had_error,
        state.loaded(value).diagnostics == if state.panic_mode {
            state.diagnostics
        } else {
            state.diagnostics.push(diagnostic(state.previous, too_many_constants()))
        },
{
}

/// An error token makes the compilation fail: the step that reads it
/// records an error.
pub proof fn lemma_error_token(state: ParserState)
    requires
        state.well_formed(),
        state.scanned().current.t == TokenType::Error,
    ensures
        state.advanced().had_error,
{
    let start = ParserState { previous: state.current, ..state };
    lemma_scanned(start);
    let next = start.scanned();
    lemma_past_errors(next.reported(next.current, next.current.text));
}

/// A whole compilation yields a state that follows the one it began in:
/// an error found on the way is not forgotten, and a chunk with more
/// constants than a byte can tell apart comes with an error.
pub proof fn lemma_compiled(state: ParserState, numbers: Numbers)
    requires
        state.well_formed(),
    ensures
        state.compiled(numbers).well_formed(),
        state.compiled(numbers).scanner.source == state.scanner.source,
        state.had_error ==> state.compiled(numbers).had_error,
        state.advanced().had_error ==> state.compiled(numbers).had_error,
{
    lemma_advanced(state);
    let first = state.advanced();
    lemma_parsed(first, Precedence::Assignment, numbers);
    let second = first.expression_compiled(numbers);
    lemma_consumed(second, TokenType::Eof, expected_end());
}

} // verus!
