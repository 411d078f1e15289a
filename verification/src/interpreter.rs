//! The whole pipeline: a source text is compiled, and the chunk is run.

use crate::chunk::{encode, Listing, OpCode};
use crate::compiler::{compile, texts, Options};
use crate::lexical::is_number_literal;
use crate::numbers::{computes, reads_all, reads_as, Numbers};
use crate::parsing::ParserState;
use crate::soundness::{is_number, lemma_compiled_runs};
use crate::translation::{lemma_number_spelled, lemma_text_translated, number};
use crate::value::Value;
use crate::vm::{lemma_runs_plain, InterpretError, MachineState, Outcome, Step, VM};
use vstd::prelude::*;

verus! {

/// What interpreting a source text has yielded: the diagnostics of the
/// compiler, the listing of the chunk if it was compiled without error,
/// and the value of the program or the error that kept it from having one.
/// Nothing of it has been printed.
pub struct Interpretation {
    pub diagnostics: Vec<String>,
    pub listing: Option<Listing>,
    pub result: Result<Value, InterpretError>,
}

/// Whether `done` is what interpreting `source` may yield, where `numbers`
/// says how numbers are read: the diagnostics and the listing are those of
/// its compilation, which lists the chunk; the result is a compile error
/// if and only if the compilation found an error, and otherwise a possible
/// outcome of running the chunk from its beginning, which is a number.
pub open spec fn interprets<A: Fn(OpCode, u64, u64) -> u64>(
    source: Seq<char>,
    numbers: Numbers,
    arithmetic: A,
    done: Interpretation,
) -> bool {
    let compiled = ParserState::initial(source, true).compiled(numbers);
    &&& texts(done.diagnostics@) == compiled.diagnostics
    &&& match done.listing {
        Some(listing) => compiled.listing == Some(listing@),
        None => compiled.listing.is_none(),
    }
    &&& if compiled.had_error {
        done.result == Err::<Value, InterpretError>(InterpretError::CompileError)
    } else {
        &&& exists|end: MachineState| #[trigger]
            MachineState::initial(compiled.chunk.code, compiled.chunk.constants).runs(
                arithmetic,
                Outcome { result: done.result, end },
            )
        &&& is_number(done.result)
    }
}

/// Compiles `source` and, if that found no error, runs the chunk. Numbers
/// are read with `read_number`, and `arithmetic` computes with them.
pub fn interpret<P: Fn(&str) -> Option<u64>, A: Fn(OpCode, u64, u64) -> u64>(
    source: &str,
    read_number: P,
    arithmetic: A,
) -> (done: Interpretation)
    requires
        reads_all(read_number),
        computes(arithmetic),
    ensures
        forall|numbers: Numbers| #[trigger]
            reads_as(read_number, numbers) ==> interprets(source@, numbers, arithmetic, done),
{
    let compiled = compile(source, Options::debug(), read_number);
    let ghost end = MachineState::initial(Seq::empty(), Seq::empty());
    let result = match compiled.result {
        Ok(chunk) => {
            let mut vm = VM::new(&chunk, arithmetic);
            let result = vm.run();
            proof {
                end = vm@;
            }
            result
        },
        Err(error) => Err(error),
    };
    let done = Interpretation {
        diagnostics: compiled.diagnostics,
        listing: compiled.listing,
        result,
    };
    assert forall|numbers: Numbers| #[trigger] reads_as(read_number, numbers) implies interprets(
        source@,
        numbers,
        arithmetic,
        done,
    ) by {
        let state = ParserState::initial(source@, true).compiled(numbers);
        if !state.had_error {
            let outcome = Outcome { result, end };
            assert(MachineState::initial(state.chunk.code, state.chunk.constants).runs(
                arithmetic,
                outcome,
            ));
            lemma_compiled_runs(source@, true, numbers, arithmetic, outcome);
        }
    }
    done
}

/// The chunk of a program that is one number: the instruction that loads
/// the first constant, and the return.
pub open spec fn number_program() -> Seq<u8> {
    seq![encode(OpCode::Constant), 0u8, encode(OpCode::Return)]
}

/// A source text that is one number compiles without error to the chunk
/// that loads this number and returns it, where `numbers` reads a number
/// from the text.
pub proof fn lemma_number_compiles(
    source: Seq<char>,
    debug: bool,
    numbers: Numbers,
)
    requires
        is_number_literal(source),
        numbers(source).is_some(),
    ensures
        !ParserState::initial(source, debug).compiled(numbers).had_error,
        ParserState::initial(source, debug).compiled(numbers).diagnostics == Seq::<
            Seq<char>,
        >::empty(),
        ParserState::initial(source, debug).compiled(numbers).chunk.code == number_program(),
        ParserState::initial(source, debug).compiled(numbers).chunk.constants == seq![
            Value::Number(numbers(source).unwrap()),
        ],
{
    lemma_number_spelled(source);
    lemma_text_translated(source, debug, number(source), numbers);
    let compiled = ParserState::initial(source, debug).compiled(numbers);
    assert(compiled.chunk.code =~= number_program());
    assert(compiled.chunk.constants =~= seq![Value::Number(numbers(source).unwrap())]);
}

/// Running the chunk that loads its first constant and returns it yields
/// that constant, whatever the arithmetic.
pub proof fn lemma_number_runs<A: Fn(OpCode, u64, u64) -> u64>(
    constant: Value,
    arithmetic: A,
    outcome: Outcome,
)
    requires
        MachineState::initial(number_program(), seq![constant]).runs(arithmetic, outcome),
    ensures
        outcome.result == Ok::<Value, InterpretError>(constant),
{
    let begin = MachineState::initial(number_program(), seq![constant]);
    lemma_runs_plain(begin, arithmetic, outcome);
    let loaded = begin.moved(2, begin.stack.push(constant));
    assert(begin.step(0) == Step::Next(loaded));
    lemma_runs_plain(loaded, arithmetic, outcome);
    assert(loaded.stack.last() == constant);
}

/// The value of a number that is a whole program is the number unchanged: a
/// source text that is one number compiles without error, and every run of
/// the chunk yields the number that `numbers` reads from the text.
pub proof fn lemma_number_round_trip<A: Fn(OpCode, u64, u64) -> u64>(
    source: Seq<char>,
    debug: bool,
    numbers: Numbers,
    arithmetic: A,
    outcome: Outcome,
)
    requires
        is_number_literal(source),
        numbers(source).is_some(),
        MachineState::initial(
            ParserState::initial(source, debug).compiled(numbers).chunk.code,
            ParserState::initial(source, debug).compiled(numbers).chunk.constants,
        ).runs(arithmetic, outcome),
    ensures
        !ParserState::initial(source, debug).compiled(numbers).had_error,
        outcome.result == Ok::<Value, InterpretError>(Value::Number(numbers(source).unwrap())),
{
    lemma_number_compiles(source, debug, numbers);
    lemma_number_runs(Value::Number(numbers(source).unwrap()), arithmetic, outcome);
}

} // verus!
