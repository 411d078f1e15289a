//! Compiled programs run to a number: the code that the compiler writes
//! for an expression keeps the stack in order, and a machine that runs it
//! finds every operand and every constant it asks for.

use crate::chunk::{decode, encode, ChunkView, OpCode};
use crate::grammar::{
    infix_of, is_arithmetic, operand_level, operation_of, precedence_of, prefix_of, rank, Grammar,
    Precedence,
};
use crate::numbers::{is_binary, Numbers};
use crate::parsing::{
    expected_end, expected_right_paren, lemma_advanced, lemma_begun, lemma_compiled,
    lemma_consumed, lemma_continued, lemma_number_compiled, ParserState,
};
use crate::token::TokenType;
use crate::value::{negation, Value};
use crate::vm::{
    lemma_runs_computed, lemma_runs_plain, InterpretError, MachineState, Outcome, STACK_MAX,
};
use vstd::prelude::*;

verus! {

/// The height of the stack after the instructions of `code` from `from` up
/// to `to` have run on a stack of height `height`, the pool holding `pool`
/// constants. There is none where the bytes are not instructions that
/// load a constant of the pool, negate, or combine two operands, or where
/// one of them finds too few operands.
pub open spec fn effect(code: Seq<u8>, pool: nat, from: int, to: int, height: nat) -> Option<nat>
    decreases to - from,
{
    if from >= to {
        if from == to {
            Some(height)
        } else {
            None
        }
    } else {
        let op = decode(code[from]);
        if op == OpCode::Constant {
            if from + 1 < to && code[from + 1] < pool {
                effect(code, pool, from + 2, to, height + 1)
            } else {
                None
            }
        } else if op == OpCode::Negate {
            if height >= 1 {
                effect(code, pool, from + 1, to, height)
            } else {
                None
            }
        } else if is_binary(op) {
            if height >= 2 {
                effect(code, pool, from + 1, to, (height - 1) as nat)
            } else {
                None
            }
        } else {
            None
        }
    }
}

/// Code that runs on a stack runs as well on a higher one, and leaves it
/// higher by as much.
pub proof fn lemma_effect_lifted(
    code: Seq<u8>,
    pool: nat,
    from: int,
    to: int,
    height: nat,
    more: nat,
)
    requires
        effect(code, pool, from, to, height).is_some(),
    ensures
        effect(code, pool, from, to, height + more) == Some(
            effect(code, pool, from, to, height).unwrap() + more,
        ),
    decreases to - from,
{
    if from < to {
        let op = decode(code[from]);
        if op == OpCode::Constant {
            lemma_effect_lifted(code, pool, from + 2, to, height + 1, more);
        } else if op == OpCode::Negate {
            lemma_effect_lifted(code, pool, from + 1, to, height, more);
        } else {
            lemma_effect_lifted(code, pool, from + 1, to, (height - 1) as nat, more);
        }
    }
}

/// Two stretches of code that run one after the other run as one.
pub proof fn lemma_effect_joined(
    code: Seq<u8>,
    pool: nat,
    from: int,
    middle: int,
    to: int,
    height: nat,
)
    requires
        middle <= to,
        effect(code, pool, from, middle, height).is_some(),
        effect(code, pool, middle, to, effect(code, pool, from, middle, height).unwrap()).is_some(),
    ensures
        effect(code, pool, from, to, height) == effect(
            code,
            pool,
            middle,
            to,
            effect(code, pool, from, middle, height).unwrap(),
        ),
    decreases middle - from,
{
    if from < middle {
        let op = decode(code[from]);
        if op == OpCode::Constant {
            lemma_effect_joined(code, pool, from + 2, middle, to, height + 1);
        } else if op == OpCode::Negate {
            lemma_effect_joined(code, pool, from + 1, middle, to, height);
        } else {
            lemma_effect_joined(code, pool, from + 1, middle, to, (height - 1) as nat);
        }
    }
}

/// Code runs as before when bytes are appended after it and constants are
/// added to the pool.
pub proof fn lemma_effect_kept(
    code: Seq<u8>,
    pool: nat,
    longer: Seq<u8>,
    larger: nat,
    from: int,
    to: int,
    height: nat,
)
    requires
        0 <= from,
        to <= code.len() <= longer.len(),
        longer.subrange(0, code.len() as int) == code,
        pool <= larger,
        effect(code, pool, from, to, height).is_some(),
    ensures
        effect(longer, larger, from, to, height) == effect(code, pool, from, to, height),
    decreases to - from,
{
    if from < to {
        assert(longer[from] == longer.subrange(0, code.len() as int)[from]);
        let op = decode(code[from]);
        if op == OpCode::Constant {
            assert(longer[from + 1] == longer.subrange(0, code.len() as int)[from + 1]);
            lemma_effect_kept(code, pool, longer, larger, from + 2, to, height + 1);
        } else if op == OpCode::Negate {
            lemma_effect_kept(code, pool, longer, larger, from + 1, to, height);
        } else {
            lemma_effect_kept(code, pool, longer, larger, from + 1, to, (height - 1) as nat);
        }
    }
}

/// The number of instructions that load a constant among those of `code`
/// from `from` up to `to`; none where `to` is not where an instruction
/// ends.
pub open spec fn loads(code: Seq<u8>, from: int, to: int) -> Option<nat>
    decreases to - from,
{
    if from >= to {
        if from == to {
            Some(0nat)
        } else {
            None
        }
    } else if decode(code[from]) == OpCode::Constant {
        if from + 1 < to {
            match loads(code, from + 2, to) {
                Some(count) => Some(count + 1),
                None => None,
            }
        } else {
            None
        }
    } else {
        loads(code, from + 1, to)
    }
}

/// One more instruction of one byte loads nothing more.
pub proof fn lemma_loads_pushed(code: Seq<u8>, from: int, byte: u8)
    requires
        0 <= from <= code.len(),
        loads(code, from, code.len() as int).is_some(),
        decode(byte) != OpCode::Constant,
    ensures
        loads(code.push(byte), from, code.len() as int + 1) == loads(
            code,
            from,
            code.len() as int,
        ),
    decreases code.len() - from,
{
    let longer = code.push(byte);
    if from < code.len() {
        assert(longer[from] == code[from]);
        if decode(code[from]) == OpCode::Constant {
            lemma_loads_pushed(code, from + 2, byte);
        } else {
            lemma_loads_pushed(code, from + 1, byte);
        }
    } else {
        assert(loads(longer, from + 1, from + 1) == Some(0nat));
    }
}

/// One more instruction that loads a constant loads one more.
pub proof fn lemma_loads_loaded(code: Seq<u8>, from: int, operand: u8)
    requires
        0 <= from <= code.len(),
        loads(code, from, code.len() as int).is_some(),
    ensures
        loads(
            code.push(encode(OpCode::Constant)).push(operand),
            from,
            code.len() as int + 2,
        ) == Some(
            loads(code, from, code.len() as int).unwrap() + 1,
        ),
    decreases code.len() - from,
{
    let longer = code.push(encode(OpCode::Constant)).push(operand);
    if from < code.len() {
        assert(longer[from] == code[from]);
        if decode(code[from]) == OpCode::Constant {
            lemma_loads_loaded(code, from + 2, operand);
        } else {
            lemma_loads_loaded(code, from + 1, operand);
        }
    } else {
        assert(decode(longer[from]) == OpCode::Constant);
        assert(loads(longer, from + 2, from + 2) == Some(0nat));
    }
}

/// The instructions of a stretch of code load as many constants when bytes
/// are appended after it.
pub proof fn lemma_loads_kept(code: Seq<u8>, longer: Seq<u8>, from: int, to: int)
    requires
        0 <= from,
        to <= code.len() <= longer.len(),
        longer.subrange(0, code.len() as int) == code,
        loads(code, from, to).is_some(),
    ensures
        loads(longer, from, to) == loads(code, from, to),
    decreases to - from,
{
    if from < to {
        assert(longer[from] == longer.subrange(0, code.len() as int)[from]);
        if decode(code[from]) == OpCode::Constant {
            lemma_loads_kept(code, longer, from + 2, to);
        } else {
            lemma_loads_kept(code, longer, from + 1, to);
        }
    }
}

/// Whether every value of `values` is a number.
pub open spec fn numeric(values: Seq<Value>) -> bool {
    forall|i: int| 0 <= i < values.len() ==> (#[trigger] values[i]) is Number
}

/// Whether `chunk` is the program of an expression: code that leaves one
/// value on an empty stack, and then the return; every constant is a
/// number, and is loaded once.
pub open spec fn is_program(chunk: ChunkView) -> bool {
    &&& chunk.code.len() > 0
    &&& decode(chunk.code.last()) == OpCode::Return
    &&& effect(chunk.code, chunk.constants.len(), 0, chunk.code.len() - 1, 0) == Some(1nat)
    &&& loads(chunk.code, 0, chunk.code.len() - 1) == Some(chunk.constants.len())
    &&& numeric(chunk.constants)
}

/// Whether the code of `state` loads as many constants as the chunk
/// holds. Nothing is asked of a state with an error.
pub open spec fn balanced(state: ParserState) -> bool {
    !state.had_error ==> loads(state.chunk.code, 0, state.chunk.code.len() as int) == Some(
        state.chunk.constants.len(),
    )
}

/// Whether `after` has the chunk of `before` with more at its end, in a
/// state that follows, and has kept its constants numbers and its code
/// balanced if they were.
pub open spec fn continues(after: ParserState, before: ParserState) -> bool {
    &&& after.follows(before)
    &&& before.chunk.code.len() <= after.chunk.code.len()
    &&& after.chunk.code.subrange(0, before.chunk.code.len() as int) == before.chunk.code
    &&& numeric(before.chunk.constants) ==> numeric(after.chunk.constants)
    &&& balanced(before) ==> balanced(after)
}

/// Whether the code of `state` from `from` on is that of one operand: it
/// leaves one value on an empty stack. Nothing is asked of a state with an
/// error, whose chunk is given up.
pub open spec fn holds_operand(state: ParserState, from: int) -> bool {
    !state.had_error ==> 0 <= from <= state.chunk.code.len() && effect(
        state.chunk.code,
        state.chunk.constants.len(),
        from,
        state.chunk.code.len() as int,
        0,
    ) == Some(1nat)
}

/// One more instruction of one byte: a negation keeps the operand that the
/// code before it has left, and a binary operation makes one of two.
pub proof fn lemma_operation_emitted(state: ParserState, from: int, op: OpCode, height: nat)
    requires
        state.well_formed(),
        0 <= from <= state.chunk.code.len(),
        effect(
            state.chunk.code,
            state.chunk.constants.len(),
            from,
            state.chunk.code.len() as int,
            0,
        ) == Some(height),
        op == OpCode::Negate && height >= 1 || is_binary(op) && height >= 2,
    ensures
        continues(state.emitted(encode(op)), state),
        effect(
            state.emitted(encode(op)).chunk.code,
            state.chunk.constants.len(),
            from,
            state.chunk.code.len() as int + 1,
            0,
        ) == Some(
            if op == OpCode::Negate {
                height
            } else {
                (height - 1) as nat
            },
        ),
{
    let code = state.chunk.code;
    let pool = state.chunk.constants.len();
    let length = code.len() as int;
    let longer = state.emitted(encode(op)).chunk.code;
    assert(longer.subrange(0, length) =~= code);
    lemma_effect_kept(code, pool, longer, pool, from, length, 0);
    assert(decode(longer[length]) == op);
    let left = if op == OpCode::Negate {
        height
    } else {
        (height - 1) as nat
    };
    assert(effect(longer, pool, length + 1, length + 1, left) == Some(left));
    assert(effect(longer, pool, length, length + 1, height) == Some(left));
    lemma_effect_joined(longer, pool, from, length, length + 1, 0);
    if balanced(state) && !state.had_error {
        lemma_loads_pushed(code, 0, encode(op));
    }
}

/// The instruction that loads a number leaves one value on the stack.
pub proof fn lemma_constant_loaded(state: ParserState, value: Value)
    requires
        state.well_formed(),
        value is Number,
    ensures
        continues(state.loaded(value), state),
        holds_operand(state.loaded(value), state.chunk.code.len() as int),
{
    let after = state.loaded(value);
    let code = state.chunk.code;
    let length = code.len() as int;
    assert(after.chunk.code =~= code.push(encode(OpCode::Constant)).push(state.pool_index()));
    assert(after.chunk.code.subrange(0, length) =~= code);
    assert(after.chunk.constants == state.chunk.constants.push(value));
    if numeric(state.chunk.constants) {
        assert forall|i: int| 0 <= i < after.chunk.constants.len() implies (
        #[trigger] after.chunk.constants[i]) is Number by {
            if i < state.chunk.constants.len() {
                assert(state.chunk.constants[i] is Number);
            }
        }
    }
    if !after.had_error {
        let pool = after.chunk.constants.len();
        assert(decode(after.chunk.code[length]) == OpCode::Constant);
        assert(after.chunk.code[length + 1] == state.pool_index());
        assert(effect(after.chunk.code, pool, length + 2, length + 2, 1) == Some(1nat));
        if balanced(state) {
            lemma_loads_loaded(code, 0, state.pool_index());
        }
    }
}

/// The code of a number is that of one operand.
pub proof fn lemma_sound_number(state: ParserState, numbers: Numbers)
    requires
        state.well_formed(),
    ensures
        continues(state.number_compiled(numbers), state),
        holds_operand(state.number_compiled(numbers), state.chunk.code.len() as int),
{
    lemma_number_compiled(state, numbers);
    match numbers(state.previous.text) {
        Some(bits) => {
            lemma_constant_loaded(state, Value::Number(bits));
        },
        None => {
            assert(state.chunk.code.subrange(0, state.chunk.code.len() as int)
                =~= state.chunk.code);
        },
    }
}

/// To continue is transitive.
pub proof fn lemma_continues_on(last: ParserState, middle: ParserState, first: ParserState)
    requires
        continues(last, middle),
        continues(middle, first),
    ensures
        continues(last, first),
{
    let short = first.chunk.code.len() as int;
    let medium = middle.chunk.code.len() as int;
    assert(last.chunk.code.subrange(0, short) =~= last.chunk.code.subrange(0, medium).subrange(
        0,
        short,
    ));
}

/// An operand stays one when more is compiled after it in a state that
/// continues, as long as nothing is appended to the code.
pub proof fn lemma_operand_kept(after: ParserState, before: ParserState, from: int)
    requires
        continues(after, before),
        holds_operand(before, from),
        after.chunk.code.len() == before.chunk.code.len(),
    ensures
        holds_operand(after, from),
{
    if !after.had_error {
        assert(after.chunk.code =~= after.chunk.code.subrange(0, before.chunk.code.len() as int));
        lemma_effect_kept(
            before.chunk.code,
            before.chunk.constants.len(),
            after.chunk.code,
            after.chunk.constants.len(),
            from,
            before.chunk.code.len() as int,
            0,
        );
    }
}

/// The code of a production that a token begins is that of one operand.
pub proof fn lemma_sound_applied(state: ParserState, rule: Grammar, numbers: Numbers)
    requires
        state.well_formed(),
        rule != Grammar::Binary,
    ensures
        continues(state.applied(rule, numbers), state),
        holds_operand(state.applied(rule, numbers), state.chunk.code.len() as int),
    decreases state.budget(), 5nat,
{
    let start = state.chunk.code.len() as int;
    match rule {
        Grammar::Number => lemma_sound_number(state, numbers),
        Grammar::Unary => {
            lemma_sound_parsed(state, Precedence::Unary, numbers);
            let operand = state.parsed(Precedence::Unary, numbers);
            lemma_sound_emitted(operand, state, start, OpCode::Negate);
        },
        Grammar::Binary => {},
        Grammar::Grouping => {
            lemma_sound_parsed(state, Precedence::Assignment, numbers);
            let inner = state.expression_compiled(numbers);
            lemma_consumed(inner, TokenType::RightParen, expected_right_paren());
            let after = inner.consumed(TokenType::RightParen, expected_right_paren());
            assert(after.chunk.code.subrange(0, inner.chunk.code.len() as int)
                =~= inner.chunk.code);
            lemma_continues_on(after, inner, state);
            lemma_operand_kept(after, inner, start);
        },
    }
}

/// The instruction written after an operand, or after two, makes of them
/// one operand.
pub proof fn lemma_sound_emitted(
    operand: ParserState,
    state: ParserState,
    from: int,
    op: OpCode,
)
    requires
        continues(operand, state),
        0 <= from <= operand.chunk.code.len(),
        !operand.had_error ==> effect(
            operand.chunk.code,
            operand.chunk.constants.len(),
            from,
            operand.chunk.code.len() as int,
            0,
        ) == Some(
            if op == OpCode::Negate {
                1nat
            } else {
                2nat
            },
        ),
        op == OpCode::Negate || is_binary(op),
    ensures
        continues(operand.emitted(encode(op)), state),
        holds_operand(operand.emitted(encode(op)), from),
{
    let after = operand.emitted(encode(op));
    assert(after.chunk.code.subrange(0, operand.chunk.code.len() as int) =~= operand.chunk.code);
    if balanced(operand) && !operand.had_error {
        lemma_loads_pushed(operand.chunk.code, 0, encode(op));
    }
    assert(continues(after, operand));
    lemma_continues_on(after, operand, state);
    if !operand.had_error {
        lemma_operation_emitted(
            operand,
            from,
            op,
            if op == OpCode::Negate {
                1nat
            } else {
                2nat
            },
        );
    }
}

/// The code of the right side of an operation, after the code of its left
/// side, makes with it one operand.
pub proof fn lemma_sound_combined(state: ParserState, numbers: Numbers, from: int)
    requires
        state.well_formed(),
        is_arithmetic(state.previous.t),
        0 <= from <= state.chunk.code.len(),
        holds_operand(state, from),
    ensures
        continues(state.combined(numbers), state),
        holds_operand(state.combined(numbers), from),
    decreases state.budget(), 4nat,
{
    let level = operand_level(state.previous.t).unwrap();
    let middle = state.chunk.code.len() as int;
    lemma_sound_parsed(state, level, numbers);
    let right = state.parsed(level, numbers);
    let op = operation_of(state.previous.t);
    if !right.had_error {
        let pool = right.chunk.constants.len();
        lemma_effect_kept(
            state.chunk.code,
            state.chunk.constants.len(),
            right.chunk.code,
            pool,
            from,
            middle,
            0,
        );
        lemma_effect_lifted(right.chunk.code, pool, middle, right.chunk.code.len() as int, 0, 1);
        lemma_effect_joined(right.chunk.code, pool, from, middle, right.chunk.code.len() as int, 0);
    }
    lemma_sound_emitted(right, state, from, op);
}

/// The code with which an expression begins is that of one operand.
pub proof fn lemma_sound_begun(state: ParserState, numbers: Numbers)
    requires
        state.well_formed(),
    ensures
        continues(state.begun(numbers), state),
        holds_operand(state.begun(numbers), state.chunk.code.len() as int),
    decreases state.budget(), 0nat,
{
    lemma_advanced(state);
    lemma_begun(state, numbers);
    let next = state.advanced();
    assert(state.chunk.code.subrange(0, state.chunk.code.len() as int) =~= state.chunk.code);
    assert(continues(next, state));
    match prefix_of(next.previous.t) {
        Some(rule) => {
            lemma_sound_applied(next, rule, numbers);
            lemma_continues_on(next.applied(rule, numbers), next, state);
        },
        None => {},
    }
}

/// The code of one more operator and its right side, after the code of an
/// operand, makes with it one operand.
pub proof fn lemma_sound_continued(state: ParserState, numbers: Numbers, from: int)
    requires
        state.well_formed(),
        0 <= from <= state.chunk.code.len(),
        holds_operand(state, from),
    ensures
        continues(state.continued(numbers), state),
        holds_operand(state.continued(numbers), from),
    decreases state.budget(), 0nat,
{
    lemma_advanced(state);
    lemma_continued(state, numbers);
    let next = state.advanced();
    assert(state.chunk.code.subrange(0, state.chunk.code.len() as int) =~= state.chunk.code);
    assert(continues(next, state));
    match infix_of(next.previous.t) {
        Some(rule) => {
            lemma_sound_combined(next, numbers, from);
            lemma_continues_on(next.combined(numbers), next, state);
        },
        None => {},
    }
}

/// The code of the operators that follow an operand, each with its right
/// side, makes with it one operand.
pub proof fn lemma_sound_extended(
    state: ParserState,
    precedence: Precedence,
    numbers: Numbers,
    from: int,
)
    requires
        state.well_formed(),
        0 <= from <= state.chunk.code.len(),
        holds_operand(state, from),
    ensures
        continues(state.extended(precedence, numbers), state),
        holds_operand(state.extended(precedence, numbers), from),
    decreases state.budget(), 1nat,
{
    assert(state.chunk.code.subrange(0, state.chunk.code.len() as int) =~= state.chunk.code);
    if rank(precedence) < rank(precedence_of(state.current.t)) {
        lemma_continued(state, numbers);
        lemma_sound_continued(state, numbers, from);
        let next = state.continued(numbers);
        lemma_sound_extended(next, precedence, numbers, from);
        lemma_continues_on(next.extended(precedence, numbers), next, state);
    }
}

/// The code of an expression is that of one operand.
pub proof fn lemma_sound_parsed(state: ParserState, precedence: Precedence, numbers: Numbers)
    requires
        state.well_formed(),
    ensures
        continues(state.parsed(precedence, numbers), state),
        holds_operand(state.parsed(precedence, numbers), state.chunk.code.len() as int),
    decreases state.budget(), 2nat,
{
    lemma_begun(state, numbers);
    lemma_sound_begun(state, numbers);
    let first = state.begun(numbers);
    lemma_sound_extended(first, precedence, numbers, state.chunk.code.len() as int);
    lemma_continues_on(first.extended(precedence, numbers), first, state);
}

/// The return written after the code of an expression makes a program of
/// it.
pub proof fn lemma_finished_program(state: ParserState)
    requires
        state.well_formed(),
        !state.had_error,
        holds_operand(state, 0),
        balanced(state),
        numeric(state.chunk.constants),
    ensures
        is_program(state.finished().chunk),
{
    let last = state.finished();
    let length = state.chunk.code.len() as int;
    assert(last.chunk.code =~= state.chunk.code.push(encode(OpCode::Return)));
    assert(last.chunk.code.subrange(0, length) =~= state.chunk.code);
    assert(last.chunk.constants == state.chunk.constants);
    lemma_loads_kept(state.chunk.code, last.chunk.code, 0, length);
    lemma_effect_kept(
        state.chunk.code,
        state.chunk.constants.len(),
        last.chunk.code,
        last.chunk.constants.len(),
        0,
        length,
        0,
    );
}

/// A text that compiles without error compiles to the program of an
/// expression.
pub proof fn lemma_compiles_to_program(source: Seq<char>, debug: bool, numbers: Numbers)
    requires
        !ParserState::initial(source, debug).compiled(numbers).had_error,
    ensures
        is_program(ParserState::initial(source, debug).compiled(numbers).chunk),
{
    let begin = ParserState::initial(source, debug);
    assert(begin.well_formed());
    assert(numeric(begin.chunk.constants));
    lemma_advanced(begin);
    let first = begin.advanced();
    assert(first.chunk.code.len() == 0);
    assert(balanced(first));
    lemma_sound_parsed(first, Precedence::Assignment, numbers);
    let second = first.expression_compiled(numbers);
    assert(holds_operand(second, 0));
    assert(balanced(second));
    lemma_consumed(second, TokenType::Eof, expected_end());
    let third = second.consumed(TokenType::Eof, expected_end());
    assert(third.chunk == second.chunk);
    assert(third.finished().had_error == third.had_error);
    assert(second.had_error ==> third.had_error);
    lemma_finished_program(third);
}

/// Whether `result` is a number.
pub open spec fn is_number(result: Result<Value, InterpretError>) -> bool {
    match result {
        Ok(value) => value is Number,
        Err(_) => false,
    }
}

/// The greatest height of the stack while the instructions of `code` from
/// `from` up to `to` run on a stack of height `height`.
pub open spec fn peak(code: Seq<u8>, from: int, to: int, height: nat) -> nat
    decreases to - from,
{
    if from >= to {
        height
    } else {
        let op = decode(code[from]);
        let later = if op == OpCode::Constant && from + 1 < to {
            peak(code, from + 2, to, height + 1)
        } else if op == OpCode::Negate {
            peak(code, from + 1, to, height)
        } else if is_binary(op) && height >= 1 {
            peak(code, from + 1, to, (height - 1) as nat)
        } else {
            height
        };
        if later > height {
            later
        } else {
            height
        }
    }
}

/// The height that the stack of the program `chunk` needs.
pub open spec fn depth(chunk: ChunkView) -> nat {
    peak(chunk.code, 0, chunk.code.len() - 1, 0)
}

/// The stack is never lower at its highest than at first.
pub proof fn lemma_peak_at_least(code: Seq<u8>, from: int, to: int, height: nat)
    ensures
        height <= peak(code, from, to, height),
{
}

/// Code that runs raises the stack by no more than one value for every
/// constant that it loads.
pub proof fn lemma_peak_loads(code: Seq<u8>, pool: nat, from: int, to: int, height: nat)
    requires
        effect(code, pool, from, to, height).is_some(),
    ensures
        loads(code, from, to).is_some(),
        peak(code, from, to, height) <= height + loads(code, from, to).unwrap(),
    decreases to - from,
{
    if from < to {
        let op = decode(code[from]);
        if op == OpCode::Constant {
            lemma_peak_loads(code, pool, from + 2, to, height + 1);
        } else if op == OpCode::Negate {
            lemma_peak_loads(code, pool, from + 1, to, height);
        } else {
            lemma_peak_loads(code, pool, from + 1, to, (height - 1) as nat);
        }
    }
}

/// A machine that stands in the code of an expression, with as many
/// numbers on its stack as the code before has left, runs to a number if
/// the stack is as high as the rest of the code needs; if not, the run
/// fails.
pub proof fn lemma_runs_to_number<A: Fn(OpCode, u64, u64) -> u64>(
    state: MachineState,
    arithmetic: A,
    outcome: Outcome,
)
    requires
        state.well_formed(),
        state.code.len() > 0,
        state.ip < state.code.len(),
        decode(state.code.last()) == OpCode::Return,
        effect(
            state.code,
            state.constants.len(),
            state.ip,
            state.code.len() - 1,
            state.stack.len(),
        ) == Some(1nat),
        numeric(state.constants),
        numeric(state.stack),
        state.runs(arithmetic, outcome),
    ensures
        if peak(state.code, state.ip, state.code.len() - 1, state.stack.len()) <= STACK_MAX {
            is_number(outcome.result)
        } else {
            outcome.result == Err::<Value, InterpretError>(InterpretError::RuntimeError)
        },
    decreases state.code.len() - state.ip,
{
    let end = state.code.len() - 1;
    let height = state.stack.len();
    if state.ip == end {
        assert(state.stack.last() is Number);
        lemma_runs_plain(state, arithmetic, outcome);
    } else {
        let op = decode(state.code[state.ip]);
        if op == OpCode::Constant {
            lemma_runs_plain(state, arithmetic, outcome);
            lemma_peak_at_least(state.code, state.ip + 2, end, height + 1);
            if height < STACK_MAX {
                let constant = state.constants[state.code[state.ip + 1] as int];
                let next = state.moved(2, state.stack.push(constant));
                assert(constant is Number);
                assert forall|i: int| 0 <= i < next.stack.len() implies (
                #[trigger] next.stack[i]) is Number by {
                    if i < height {
                        assert(state.stack[i] is Number);
                    }
                }
                lemma_runs_to_number(next, arithmetic, outcome);
            }
        } else if op == OpCode::Negate {
            lemma_runs_plain(state, arithmetic, outcome);
            assert(state.stack.last() is Number);
            let negated = Value::Number(negation(state.stack.last()->Number_0));
            let next = state.moved(1, state.stack.drop_last().push(negated));
            assert forall|i: int| 0 <= i < next.stack.len() implies (#[trigger] next.stack[i])
                is Number by {
                if i < height - 1 {
                    assert(state.stack[i] is Number);
                }
            }
            lemma_runs_to_number(next, arithmetic, outcome);
        } else {
            assert(is_binary(op));
            assert(state.stack[height - 2] is Number);
            assert(state.stack.last() is Number);
            assert(state.pending().is_some());
            lemma_runs_computed(state, arithmetic, outcome);
            let below = state.stack.drop_last().drop_last();
            let computed = choose|computed: u64| #[trigger]
                arithmetic.ensures(state.pending().unwrap(), computed) && state.moved(
                    1,
                    below.push(Value::Number(computed)),
                ).runs(arithmetic, outcome);
            let next = state.moved(1, below.push(Value::Number(computed)));
            assert forall|i: int| 0 <= i < next.stack.len() implies (#[trigger] next.stack[i])
                is Number by {
                if i < height - 2 {
                    assert(state.stack[i] is Number);
                }
            }
            lemma_runs_to_number(next, arithmetic, outcome);
        }
    }
}

/// The program of an expression runs to a number, whatever the arithmetic,
/// if the stack is as high as the program needs; if not, the run fails.
pub proof fn lemma_program_runs<A: Fn(OpCode, u64, u64) -> u64>(
    chunk: ChunkView,
    arithmetic: A,
    outcome: Outcome,
)
    requires
        is_program(chunk),
        MachineState::initial(chunk.code, chunk.constants).runs(arithmetic, outcome),
    ensures
        if depth(chunk) <= STACK_MAX {
            is_number(outcome.result)
        } else {
            outcome.result == Err::<Value, InterpretError>(InterpretError::RuntimeError)
        },
{
    lemma_runs_to_number(MachineState::initial(chunk.code, chunk.constants), arithmetic, outcome);
}

/// A program needs a stack no higher than it has constants.
pub proof fn lemma_depth_bounded(chunk: ChunkView)
    requires
        is_program(chunk),
    ensures
        depth(chunk) <= chunk.constants.len(),
{
    lemma_peak_loads(chunk.code, chunk.constants.len(), 0, chunk.code.len() - 1, 0);
}

/// A text that has compiled without error runs to a number, whatever the
/// arithmetic: every byte of the chunk is an instruction, the machine finds
/// every operand and constant that the chunk asks for, and the stack is
/// high enough, since it holds as many values as a chunk holds constants.
pub proof fn lemma_compiled_runs<A: Fn(OpCode, u64, u64) -> u64>(
    source: Seq<char>,
    debug: bool,
    numbers: Numbers,
    arithmetic: A,
    outcome: Outcome,
)
    requires
        !ParserState::initial(source, debug).compiled(numbers).had_error,
        MachineState::initial(
            ParserState::initial(source, debug).compiled(numbers).chunk.code,
            ParserState::initial(source, debug).compiled(numbers).chunk.constants,
        ).runs(arithmetic, outcome),
    ensures
        is_number(outcome.result),
{
    let compiled = ParserState::initial(source, debug).compiled(numbers);
    lemma_compiles_to_program(source, debug, numbers);
    lemma_compiled(ParserState::initial(source, debug), numbers);
    lemma_depth_bounded(compiled.chunk);
    lemma_program_runs(compiled.chunk, arithmetic, outcome);
}

} // verus!
