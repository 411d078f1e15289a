//! The compiler: a single pass over the tokens that writes the
//! instructions of each production as soon as it has recognized it.

use crate::chunk::{encode, Chunk, Listing, OpCode};
use crate::grammar::{get_rule, lemma_operand_level, is_arithmetic, Grammar, Precedence};
use crate::numbers::{reads_all, reads_as, Numbers};
use crate::parsing::{
    diagnostic, lemma_advanced, lemma_consumed, lemma_scanned, ParserState, CONSTANTS_MAX,
};
use crate::scanner::Scanner;
use crate::text::append_decimal;
use crate::token::{Token, TokenType};
use crate::value::Value;
use crate::vm::InterpretError;
use vstd::pervasive::unreached;
use vstd::prelude::*;
use vstd::string::StringExecFns;

verus! {

/// What a compilation is asked to do besides compiling.
pub struct Options {
    debug_print_code: bool,
}

impl Options {
    /// Whether the compiled chunk is to be listed.
    pub closed spec fn lists_code(&self) -> bool {
        self.debug_print_code
    }

    /// The options under which the compiled chunk is listed.
    pub fn debug() -> (options: Self)
        ensures
            options.lists_code(),
    {
        Options { debug_print_code: true }
    }
}

impl Default for Options {
    /// The options under which nothing is listed.
    fn default() -> (options: Self)
        ensures
            !options.lists_code(),
    {
        Options { debug_print_code: false }
    }
}

/// The texts of `strings`, in order.
pub open spec fn texts(strings: Seq<String>) -> Seq<Seq<char>> {
    Seq::new(strings.len(), |i: int| strings[i]@)
}

/// What a compilation has come to: the chunk, or a compile error where an
/// error was found.
pub open spec fn outcome(state: ParserState, result: Result<Chunk, InterpretError>) -> bool {
    match result {
        Ok(chunk) => !state.had_error && chunk@ == state.chunk,
        Err(error) => state.had_error && error == InterpretError::CompileError,
    }
}

/// What a compilation has yielded: the chunk or a compile error, the
/// diagnostics in the order in which they were reported, and the listing
/// of the chunk if one was made. Nothing of it has been printed.
pub struct Compilation {
    pub result: Result<Chunk, InterpretError>,
    pub diagnostics: Vec<String>,
    pub listing: Option<Listing>,
}

/// Whether `done` is what the compilation that ended in `state` yields.
pub open spec fn yields(state: ParserState, done: Compilation) -> bool {
    &&& outcome(state, done.result)
    &&& texts(done.diagnostics@) == state.diagnostics
    &&& match done.listing {
        Some(listing) => state.listing == Some(listing@),
        None => state.listing.is_none(),
    }
}

/// A compiler at work on one source text. `read_number` gives the bits of
/// the number that a text denotes, or nothing where it denotes none.
pub struct Compiler<'a, P: Fn(&str) -> Option<u64>> {
    scanner: Scanner<'a>,
    current: Token<'a>,
    previous: Token<'a>,
    had_error: bool,
    panic_mode: bool,
    chunk: Chunk,
    options: Options,
    diagnostics: Vec<String>,
    listing: Option<Listing>,
    read_number: P,
}

/// Compiles `source` to a chunk, reading each number with `read_number`.
/// The result is a compile error where any error was found; a chunk that
/// is handed out has a line for every byte and no more constants than a
/// byte can tell apart.
pub fn compile<P: Fn(&str) -> Option<u64>>(source: &str, options: Options, read_number: P) -> (done:
    Compilation)
    requires
        reads_all(read_number),
    ensures
        forall|numbers: Numbers| #[trigger]
            reads_as(read_number, numbers) ==> yields(
                ParserState::initial(source@, options.lists_code()).compiled(numbers),
                done,
            ),
        match done.result {
            Ok(chunk) => chunk.well_formed() && chunk@.constants.len() <= CONSTANTS_MAX,
            Err(_) => true,
        },
{
    let mut compiler = Compiler::new(source, options, read_number);
    let result = compiler.compile();
    let (diagnostics, listing) = compiler.into_report();
    Compilation { result, diagnostics, listing }
}

impl<'a, P: Fn(&str) -> Option<u64>> Compiler<'a, P> {
    /// The state of the compiler.
    pub closed spec fn view(&self) -> ParserState {
        ParserState {
            scanner: self.scanner@,
            current: self.current@,
            previous: self.previous@,
            had_error: self.had_error,
            panic_mode: self.panic_mode,
            chunk: self.chunk@,
            debug: self.options.debug_print_code,
            diagnostics: texts(self.diagnostics@),
            listing: match self.listing {
                Some(listing) => Some(listing@),
                None => None,
            },
        }
    }

    /// The function with which the compiler reads numbers.
    pub closed spec fn reader(&self) -> P {
        self.read_number
    }

    /// The invariant of a compiler: that of its state, and numbers can be
    /// read from every text.
    pub closed spec fn well_formed(&self) -> bool {
        &&& self.sound()
        &&& self@.well_formed()
    }

    /// The invariant but for the bound on the constants, which does not
    /// hold between the adding of a constant too many and its report.
    spec fn sound(&self) -> bool {
        &&& self.scanner.well_formed()
        &&& reads_all(self.read_number)
        &&& self.chunk@.lines.len() == self.chunk@.code.len()
        &&& self.panic_mode == self.had_error
        &&& self.diagnostics@.len() == if self.had_error {
            1nat
        } else {
            0nat
        }
    }

    /// A compiler at the beginning of `source`.
    pub fn new(source: &'a str, options: Options, read_number: P) -> (compiler: Compiler<'a, P>)
        requires
            reads_all(read_number),
        ensures
            compiler.well_formed(),
            compiler.reader() == read_number,
            compiler@ == ParserState::initial(source@, options.lists_code()),
    {
        let compiler = Compiler {
            scanner: Scanner::new(source),
            chunk: Chunk::new(),
            had_error: false,
            panic_mode: false,
            current: Token::empty(),
            previous: Token::empty(),
            options,
            diagnostics: Vec::new(),
            listing: None,
            read_number,
        };
        assert(compiler@.diagnostics =~= Seq::<Seq<char>>::empty());
        compiler
    }

    /// The diagnostics reported so far, in order.
    pub fn diagnostics(&self) -> (diagnostics: &Vec<String>)
        ensures
            texts(diagnostics@) == self@.diagnostics,
    {
        &self.diagnostics
    }

    /// The listing of the compiled chunk, if one was made.
    pub fn listing(&self) -> (listing: &Option<Listing>)
        ensures
            match *listing {
                Some(made) => self@.listing == Some(made@),
                None => self@.listing.is_none(),
            },
    {
        &self.listing
    }

    /// Gives up the compiler for what it has to say: the diagnostics, and
    /// the listing if one was made.
    pub fn into_report(self) -> (report: (Vec<String>, Option<Listing>))
        ensures
            texts(report.0@) == self@.diagnostics,
            match report.1 {
                Some(made) => self@.listing == Some(made@),
                None => self@.listing.is_none(),
            },
    {
        (self.diagnostics, self.listing)
    }

    /// Compiles the whole text: one expression, and then its end.
    pub fn compile(&mut self) -> (result: Result<Chunk, InterpretError>)
        requires
            old(self).well_formed(),
        ensures
            final(self).well_formed(),
            final(self).reader() == old(self).reader(),
            forall|numbers: Numbers| #[trigger]
                reads_as(old(self).reader(), numbers) ==> final(self)@ == old(self)@.compiled(
                    numbers,
                ),
            outcome(final(self)@, result),
            match result {
                Ok(chunk) => chunk.well_formed() && chunk@.constants.len() <= CONSTANTS_MAX,
                Err(_) => true,
            },
    {
        self.advance();
        self.expression();
        self.consume(TokenType::Eof, "Expected end of file.");
        self.end_compilation();
        match self.had_error {
            false => Ok(self.chunk.clone()),
            true => Err(InterpretError::CompileError),
        }
    }

    /// Writes one byte to the chunk, for the line of the previous token.
    pub fn emit_byte(&mut self, byte: u8)
        requires
            old(self).well_formed(),
        ensures
            final(self).well_formed(),
            final(self).reader() == old(self).reader(),
            final(self)@ == old(self)@.emitted(byte),
    {
        self.chunk.write(byte, #[verifier::truncate] (self.previous.line as u32));
    }

    /// Writes two bytes to the chunk.
    pub fn emit_bytes(&mut self, byte_1: u8, byte_2: u8)
        requires
            old(self).well_formed(),
        ensures
            final(self).well_formed(),
            final(self).reader() == old(self).reader(),
            final(self)@ == old(self)@.emitted(byte_1).emitted(byte_2),
    {
        self.emit_byte(byte_1);
        self.emit_byte(byte_2);
    }

    /// Ends the compilation: writes the return instruction, and lists the
    /// chunk if that was asked for and no error was found.
    pub fn end_compilation(&mut self)
        requires
            old(self).well_formed(),
        ensures
            final(self).well_formed(),
            final(self).reader() == old(self).reader(),
            final(self)@ == old(self)@.finished(),
    {
        self.emit_return();
        if self.options.debug_print_code {
            if !self.had_error {
                self.listing = Some(self.chunk.disassemble_with_iterator("Main chunk"));
            }
        }
    }

    /// Writes the return instruction.
    pub fn emit_return(&mut self)
        requires
            old(self).well_formed(),
        ensures
            final(self).well_formed(),
            final(self).reader() == old(self).reader(),
            final(self)@ == old(self)@.emitted(encode(OpCode::Return)),
    {
        self.emit_byte(OpCode::Return.to_byte())
    }

    /// Adds `v` to the constants and writes the instruction that loads it.
    pub fn emit_constant(&mut self, v: Value)
        requires
            old(self).well_formed(),
        ensures
            final(self).well_formed(),
            final(self).reader() == old(self).reader(),
            final(self)@ == old(self)@.loaded(v),
    {
        let c = self.make_constant(v);
        self.emit_bytes(OpCode::Constant.to_byte(), c);
    }

    /// Adds `v` to the constants and returns the operand that refers to it.
    /// Where the constants were full, that is an error, and the operand is
    /// 0.
    pub fn make_constant(&mut self, v: Value) -> (index: u8)
        requires
            old(self).well_formed(),
        ensures
            final(self).well_formed(),
            final(self).reader() == old(self).reader(),
            final(self)@ == old(self)@.pooled(v),
            index == old(self)@.pool_index(),
    {
        let constant = self.chunk.add_constant(v);
        if constant >= CONSTANTS_MAX {
            self.error("Too many constants in one chunk");
            0
        } else {
            constant as u8
        }
    }

    /// Compiles the previous token as a number, which is read from its
    /// text.
    pub fn number(&mut self)
        requires
            old(self).well_formed(),
        ensures
            final(self).well_formed(),
            final(self).reader() == old(self).reader(),
            final(self)@.follows(old(self)@),
            forall|numbers: Numbers| #[trigger]
                reads_as(old(self).reader(), numbers) ==> final(self)@ == old(
                    self,
                )@.number_compiled(numbers),
    {
        let text = self.previous.as_slice();
        match (self.read_number)(text) {
            Some(v) => self.emit_constant(Value::Number(v)),
            None => self.error("Invalid number"),
        }
    }

    /// Compiles an expression.
    pub fn expression(&mut self)
        requires
            old(self).well_formed(),
        ensures
            final(self).well_formed(),
            final(self).reader() == old(self).reader(),
            final(self)@.follows(old(self)@),
            forall|numbers: Numbers| #[trigger]
                reads_as(old(self).reader(), numbers) ==> final(self)@ == old(
                    self,
                )@.expression_compiled(numbers),
        decreases old(self)@.budget(), 3nat,
    {
        self.parse_precedence(Precedence::Assignment);
    }

    /// Compiles a group, whose opening parenthesis is the previous token.
    pub fn grouping(&mut self)
        requires
            old(self).well_formed(),
        ensures
            final(self).well_formed(),
            final(self).reader() == old(self).reader(),
            final(self)@.follows(old(self)@),
            forall|numbers: Numbers| #[trigger]
                reads_as(old(self).reader(), numbers) ==> final(self)@ == old(self)@.grouped(
                    numbers,
                ),
        decreases old(self)@.budget(), 4nat,
    {
        self.expression();
        proof {
            lemma_consumed(self@, TokenType::RightParen, "Expect ')' after expression."@);
        }
        self.consume(TokenType::RightParen, "Expect ')' after expression.");
    }

    /// Compiles a negation, whose sign is the previous token.
    pub fn unary(&mut self)
        requires
            old(self).well_formed(),
            old(self)@.previous.t == TokenType::Minus,
        ensures
            final(self).well_formed(),
            final(self).reader() == old(self).reader(),
            final(self)@.follows(old(self)@),
            forall|numbers: Numbers| #[trigger]
                reads_as(old(self).reader(), numbers) ==> final(self)@ == old(self)@.negated(
                    numbers,
                ),
        decreases old(self)@.budget(), 4nat,
    {
        let operator_type = self.previous.t;
        self.parse_precedence(Precedence::Unary);
        match operator_type {
            TokenType::Minus => self.emit_byte(OpCode::Negate.to_byte()),
            _ => unreached(),
        }
    }

    /// Compiles the right side of an arithmetic operation, whose operator
    /// is the previous token.
    pub fn binary(&mut self)
        requires
            old(self).well_formed(),
            is_arithmetic(old(self)@.previous.t),
        ensures
            final(self).well_formed(),
            final(self).reader() == old(self).reader(),
            final(self)@.follows(old(self)@),
            forall|numbers: Numbers| #[trigger]
                reads_as(old(self).reader(), numbers) ==> final(self)@ == old(self)@.combined(
                    numbers,
                ),
        decreases old(self)@.budget(), 4nat,
    {
        let operator_type = self.previous.t;
        let rule = get_rule(&operator_type);
        proof {
            lemma_operand_level(operator_type);
        }
        let p = match Precedence::from_int(rule.precedence.level() + 1) {
            Some(p) => p,
            None => unreached(),
        };
        self.parse_precedence(p);
        match operator_type {
            TokenType::Plus => self.emit_byte(OpCode::Add.to_byte()),
            TokenType::Minus => self.emit_byte(OpCode::Subtract.to_byte()),
            TokenType::Star => self.emit_byte(OpCode::Multiply.to_byte()),
            TokenType::Slash => self.emit_byte(OpCode::Divide.to_byte()),
            _ => unreached(),
        }
    }

    /// Compiles an expression whose operators all bind tighter than
    /// `precedence`.
    fn parse_precedence(&mut self, precedence: Precedence)
        requires
            old(self).well_formed(),
        ensures
            final(self).well_formed(),
            final(self).reader() == old(self).reader(),
            final(self)@.follows(old(self)@),
            forall|numbers: Numbers| #[trigger]
                reads_as(old(self).reader(), numbers) ==> final(self)@ == old(self)@.parsed(
                    precedence,
                    numbers,
                ),
        decreases old(self)@.budget(), 2nat,
    {
        proof {
            lemma_advanced(self@);
        }
        self.advance();
        let rule = get_rule(&self.previous.t);
        match rule.prefix {
            Some(prefix_rule) => self.parse_grammar_rule(prefix_rule),
            None => self.error("Expected expression."),
        }
        let ghost first = self@;
        assert forall|numbers: Numbers| #[trigger]
            reads_as(old(self).reader(), numbers) implies first == old(self)@.begun(numbers) by {}
        while precedence.level() < get_rule(&self.current.t).precedence.level()
            invariant
                self.well_formed(),
                self.reader() == old(self).reader(),
                self@.follows(first),
                first.follows(old(self)@),
                forall|numbers: Numbers| #[trigger]
                    reads_as(old(self).reader(), numbers) ==> self@.extended(precedence, numbers)
                        == first.extended(precedence, numbers),
            decreases self@.budget(),
        {
            let ghost before = self@;
            proof {
                lemma_advanced(self@);
            }
            self.advance();
            let rule = get_rule(&self.previous.t);
            match rule.infix {
                Some(infix_rule) => self.parse_grammar_rule(infix_rule),
                None => self.error("Expected expression."),
            }
            assert forall|numbers: Numbers| #[trigger]
                reads_as(old(self).reader(), numbers) implies self@.extended(precedence, numbers)
                == first.extended(precedence, numbers) by {
                assert(self@ == before.continued(numbers));
                assert(before.extended(precedence, numbers) == self@.extended(
                    precedence,
                    numbers,
                ));
            }
        }
    }

    /// Compiles the production `rule`.
    fn parse_grammar_rule(&mut self, rule: Grammar)
        requires
            old(self).well_formed(),
            rule == Grammar::Unary ==> old(self)@.previous.t == TokenType::Minus,
            rule == Grammar::Binary ==> is_arithmetic(old(self)@.previous.t),
        ensures
            final(self).well_formed(),
            final(self).reader() == old(self).reader(),
            final(self)@.follows(old(self)@),
            forall|numbers: Numbers| #[trigger]
                reads_as(old(self).reader(), numbers) ==> final(self)@ == old(self)@.applied(
                    rule,
                    numbers,
                ),
        decreases old(self)@.budget(), 5nat,
    {
        match rule {
            Grammar::Number => self.number(),
            Grammar::Unary => self.unary(),
            Grammar::Binary => self.binary(),
            Grammar::Grouping => self.grouping(),
        }
    }

    /// Steps forward by one token, reporting the error tokens on the way:
    /// the lookahead is never an error token afterwards.
    pub fn advance(&mut self)
        requires
            old(self).well_formed(),
        ensures
            final(self).well_formed(),
            final(self).reader() == old(self).reader(),
            final(self)@ == old(self)@.advanced(),
            final(self)@.current.t != TokenType::Error,
    {
        proof {
            lemma_advanced(self@);
        }
        self.previous = self.current;
        let ghost target = self@.past_errors();
        loop
            invariant_except_break
                self.well_formed(),
                self.reader() == old(self).reader(),
                self@.past_errors() == target,
            ensures
                self.well_formed(),
                self.reader() == old(self).reader(),
                self@ == target,
            decreases self@.scanner.source.len() - self@.scanner.current,
        {
            proof {
                lemma_scanned(self@);
            }
            self.current = self.scanner.scan_token();
            if self.current.t != TokenType::Error {
                break ;
            }
            let token = self.current;
            self.error_at_current(token.source);
        }
    }

    /// Steps over the lookahead if it is of kind `token_type`; reports
    /// `message` at it otherwise.
    pub fn consume(&mut self, token_type: TokenType, message: &str)
        requires
            old(self).well_formed(),
        ensures
            final(self).well_formed(),
            final(self).reader() == old(self).reader(),
            final(self)@ == old(self)@.consumed(token_type, message@),
    {
        if self.current.t == token_type {
            self.advance();
        } else {
            self.error_at_current(message);
        }
    }

    /// Reports `message` at the lookahead.
    fn error_at_current(&mut self, message: &str)
        requires
            old(self).well_formed(),
        ensures
            final(self).well_formed(),
            final(self).reader() == old(self).reader(),
            final(self)@ == old(self)@.reported(old(self)@.current, message@),
    {
        let token = self.current;
        self.error_at(&token, message)
    }

    /// Reports `message` at the previous token.
    fn error(&mut self, message: &str)
        requires
            old(self).sound(),
        ensures
            final(self).sound(),
            final(self).reader() == old(self).reader(),
            old(self).well_formed() ==> final(self).well_formed(),
            final(self)@ == old(self)@.reported(old(self)@.previous, message@),
    {
        let token = self.previous;
        self.error_at(&token, message)
    }

    /// Reports `message` at `token`, unless an earlier error has silenced
    /// this one.
    fn error_at(&mut self, token: &Token, message: &str)
        requires
            old(self).sound(),
        ensures
            final(self).sound(),
            final(self).reader() == old(self).reader(),
            old(self).well_formed() ==> final(self).well_formed(),
            final(self)@ == old(self)@.reported(token@, message@),
    {
        if self.panic_mode {
            return ;
        }
        self.panic_mode = true;
        let mut text = String::new();
        text.append("[line ");
        append_decimal(&mut text, token.line);
        text.append("] Error");
        match token.t {
            TokenType::Eof => text.append(" at end"),
            TokenType::Error => {},
            _ => {
                text.append(" at ");
                text.append(token.source);
            },
        }
        text.append(": ");
        text.append(message);
        assert(text@ =~= diagnostic(token@, message@));
        self.diagnostics.push(text);
        self.had_error = true;
        assert(self@.diagnostics =~= old(self)@.diagnostics.push(diagnostic(token@, message@)));
    }
}

} // verus!
