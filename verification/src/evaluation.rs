//! What an expression is worth, and that the machine computes it: the
//! code of an expression leaves on the stack a number that the expression
//! is worth, whatever the arithmetic gives.

use crate::chunk::{decode, encode, OpCode};
use crate::grammar::{operation_of, precedence_of, rank, Precedence};
use crate::numbers::{is_binary, Numbers};
use crate::parsing::{ParserState, CONSTANTS_MAX};
use crate::syntax::{
    code, constants_of, fits, literals, operand_code, operand_fits, operand_literals, readable,
    terms_code, terms_fit, terms_literals, words, Expression, Operand, Terms,
};
use crate::translation::{lemma_constants_joined, lemma_text_translated, spelled};
use crate::value::{negation, Value};
use crate::vm::{
    lemma_runs_computed, lemma_runs_plain, InterpretError, MachineState, Outcome, STACK_MAX,
};
use vstd::prelude::*;

verus! {

/// A function from an operation and two numbers to the number that the
/// operation makes of them.
pub type Arithmetic = spec_fn(OpCode, u64, u64) -> u64;

/// Whether `made` says what `arithmetic` hands back: whatever `arithmetic`
/// may hand back for an operation on two numbers is what `made` gives for
/// them.
pub open spec fn computes_as<A: Fn(OpCode, u64, u64) -> u64>(
    arithmetic: A,
    made: Arithmetic,
) -> bool {
    forall|op: OpCode, a: u64, b: u64, result: u64| #[trigger]
        arithmetic.ensures((op, a, b), result) ==> result == made(op, a, b)
}

/// What `operand` is worth: the number read from its text, the negation
/// of what its operand is worth, or what the expression in the
/// parentheses is worth.
pub open spec fn operand_value(operand: Operand, numbers: Numbers, made: Arithmetic) -> u64
    decreases operand,
{
    match operand {
        Operand::Literal { text } => numbers(text).unwrap(),
        Operand::Negation { operand } => negation(value(*operand, numbers, made)),
        Operand::Group { inner } => value(*inner, numbers, made),
    }
}

/// What `expression` is worth: what its operators make, one after the
/// other from the left, of what its first operand is worth.
pub open spec fn value(expression: Expression, numbers: Numbers, made: Arithmetic) -> u64
    decreases expression,
{
    terms_value(
        expression.rest,
        numbers,
        made,
        operand_value(expression.first, numbers, made),
    )
}

/// What `terms` make of `left`: `left` itself where there are none, and
/// otherwise what the operators after the first make of what the first
/// makes of `left` and of what its right side is worth.
pub open spec fn terms_value(terms: Terms, numbers: Numbers, made: Arithmetic, left: u64) -> u64
    decreases terms,
{
    match terms {
        Terms::End => left,
        Terms::More { operator, right, rest } => terms_value(
            *rest,
            numbers,
            made,
            made(operation_of(operator), left, value(*right, numbers, made)),
        ),
    }
}

/// Whether the code of `state` goes on with `code` from where the machine
/// stands.
pub open spec fn stands_before(state: MachineState, code: Seq<u8>) -> bool {
    &&& 0 <= state.ip
    &&& state.ip + code.len() <= state.code.len()
    &&& state.code.subrange(state.ip, state.ip + code.len()) == code
}

/// Whether the constants of `state` from index `base` on are `constants`.
pub open spec fn holds_constants(state: MachineState, base: nat, constants: Seq<Value>) -> bool {
    &&& base + constants.len() <= state.constants.len()
    &&& state.constants.subrange(base as int, (base + constants.len()) as int) == constants
}

/// A machine that stands before two stretches of code stands before the
/// first, and after it before the second.
pub proof fn lemma_stands_before(
    state: MachineState,
    first: Seq<u8>,
    second: Seq<u8>,
    stack: Seq<Value>,
)
    requires
        stands_before(state, first + second),
    ensures
        stands_before(state, first),
        stands_before(state.moved(first.len() as int, stack), second),
{
    let whole = state.code.subrange(state.ip, state.ip + (first + second).len());
    assert(state.code.subrange(state.ip, state.ip + first.len()) =~= first) by {
        assert forall|i: int| 0 <= i < first.len() implies state.code[state.ip + i] == first[i] by {
            assert(whole[i] == (first + second)[i]);
        }
    }
    assert(state.code.subrange(state.ip + first.len(), state.ip + first.len() + second.len())
        =~= second) by {
        assert forall|i: int| 0 <= i < second.len() implies state.code[state.ip + first.len() + i]
            == second[i] by {
            assert(whole[first.len() + i] == (first + second)[first.len() + i]);
        }
    }
}

/// A pool that holds the numbers of two sequences of texts from an index
/// on holds those of the first there, and those of the second after them.
pub proof fn lemma_holds_constants(
    state: MachineState,
    base: nat,
    first: Seq<Seq<char>>,
    second: Seq<Seq<char>>,
    numbers: Numbers,
)
    requires
        holds_constants(state, base, constants_of(first + second, numbers)),
    ensures
        holds_constants(state, base, constants_of(first, numbers)),
        holds_constants(state, base + first.len(), constants_of(second, numbers)),
{
    lemma_constants_joined(first, second, numbers);
    let one = constants_of(first, numbers);
    let other = constants_of(second, numbers);
    let whole = state.constants.subrange(base as int, (base + (one + other).len()) as int);
    assert(state.constants.subrange(base as int, (base + one.len()) as int) =~= one) by {
        assert forall|i: int| 0 <= i < one.len() implies state.constants[base + i] == one[i] by {
            assert(whole[i] == (one + other)[i]);
        }
    }
    assert(state.constants.subrange(
        (base + first.len()) as int,
        (base + first.len() + other.len()) as int,
    ) =~= other) by {
        assert forall|i: int| 0 <= i < other.len() implies state.constants[base + first.len() + i]
            == other[i] by {
            assert(whole[one.len() + i] == (one + other)[one.len() + i]);
        }
    }
}

/// Every operand holds a number at least.
pub proof fn lemma_operand_has_literal(operand: Operand)
    ensures
        operand_literals(operand).len() >= 1,
    decreases operand,
{
    match operand {
        Operand::Literal { text } => {},
        Operand::Negation { operand } => lemma_operand_has_literal(operand.first),
        Operand::Group { inner } => lemma_operand_has_literal(inner.first),
    }
}

/// The machine computes a number: before the instruction that loads the
/// constant of a number, it goes on with the number on its stack.
pub proof fn lemma_literal_runs<A: Fn(OpCode, u64, u64) -> u64>(
    state: MachineState,
    operand: Operand,
    base: nat,
    numbers: Numbers,
    made: Arithmetic,
    arithmetic: A,
    outcome: Outcome,
)
    requires
        state.well_formed(),
        operand is Literal,
        stands_before(state, operand_code(operand, base)),
        holds_constants(state, base, constants_of(operand_literals(operand), numbers)),
        readable(operand_literals(operand), numbers),
        base + operand_literals(operand).len() <= CONSTANTS_MAX,
        state.stack.len() + operand_literals(operand).len() <= STACK_MAX,
        state.runs(arithmetic, outcome),
    ensures
        state.moved(
            operand_code(operand, base).len() as int,
            state.stack.push(Value::Number(operand_value(operand, numbers, made))),
        ).runs(arithmetic, outcome),
{
    let text = operand->text;
    let code = operand_code(operand, base);
    assert(operand_literals(operand)[0] == text);
    assert(state.code[state.ip] == state.code.subrange(state.ip, state.ip + code.len())[0]);
    assert(state.code[state.ip + 1] == state.code.subrange(state.ip, state.ip + code.len())[1]);
    let pool = constants_of(operand_literals(operand), numbers);
    assert(state.constants[base as int] == state.constants.subrange(
        base as int,
        (base + pool.len()) as int,
    )[0]);
    assert(pool[0] == Value::Number(numbers(text).unwrap()));
    lemma_runs_plain(state, arithmetic, outcome);
}

/// The machine computes an operand: before the code of an operand, it goes
/// on with what the operand is worth on its stack.
pub proof fn lemma_operand_runs<A: Fn(OpCode, u64, u64) -> u64>(
    state: MachineState,
    operand: Operand,
    base: nat,
    numbers: Numbers,
    made: Arithmetic,
    arithmetic: A,
    outcome: Outcome,
)
    requires
        state.well_formed(),
        computes_as(arithmetic, made),
        operand_fits(operand),
        stands_before(state, operand_code(operand, base)),
        holds_constants(state, base, constants_of(operand_literals(operand), numbers)),
        readable(operand_literals(operand), numbers),
        base + operand_literals(operand).len() <= CONSTANTS_MAX,
        state.stack.len() + operand_literals(operand).len() <= STACK_MAX,
        state.runs(arithmetic, outcome),
    ensures
        state.moved(
            operand_code(operand, base).len() as int,
            state.stack.push(Value::Number(operand_value(operand, numbers, made))),
        ).runs(arithmetic, outcome),
    decreases operand,
{
    match operand {
        Operand::Literal { .. } => {
            lemma_literal_runs(state, operand, base, numbers, made, arithmetic, outcome);
        },
        Operand::Negation { operand: inner } => {
            let inner_code = code(*inner, base);
            let negate = seq![encode(OpCode::Negate)];
            let inner_value = value(*inner, numbers, made);
            lemma_stands_before(state, inner_code, negate, state.stack);
            lemma_expression_runs(
                state,
                *inner,
                Precedence::Unary,
                base,
                numbers,
                made,
                arithmetic,
                outcome,
            );
            let loaded = state.moved(
                inner_code.len() as int,
                state.stack.push(Value::Number(inner_value)),
            );
            lemma_stands_before(state, inner_code, negate, loaded.stack);
            assert(loaded.code[loaded.ip] == loaded.code.subrange(loaded.ip, loaded.ip + 1)[0]);
            lemma_runs_plain(loaded, arithmetic, outcome);
            assert(loaded.stack.drop_last().push(Value::Number(negation(inner_value)))
                =~= state.stack.push(Value::Number(negation(inner_value))));
            assert(operand_code(operand, base).len() == inner_code.len() + 1);
        },
        Operand::Group { inner } => {
            lemma_expression_runs(
                state,
                *inner,
                Precedence::Assignment,
                base,
                numbers,
                made,
                arithmetic,
                outcome,
            );
        },
    }
}

/// The machine computes an expression: before the code of an expression,
/// it goes on with what the expression is worth on its stack.
pub proof fn lemma_expression_runs<A: Fn(OpCode, u64, u64) -> u64>(
    state: MachineState,
    expression: Expression,
    level: Precedence,
    base: nat,
    numbers: Numbers,
    made: Arithmetic,
    arithmetic: A,
    outcome: Outcome,
)
    requires
        state.well_formed(),
        computes_as(arithmetic, made),
        fits(expression, level),
        stands_before(state, code(expression, base)),
        holds_constants(state, base, constants_of(literals(expression), numbers)),
        readable(literals(expression), numbers),
        base + literals(expression).len() <= CONSTANTS_MAX,
        state.stack.len() + literals(expression).len() <= STACK_MAX,
        state.runs(arithmetic, outcome),
    ensures
        state.moved(
            code(expression, base).len() as int,
            state.stack.push(Value::Number(value(expression, numbers, made))),
        ).runs(arithmetic, outcome),
    decreases expression,
{
    let first_code = operand_code(expression.first, base);
    let first_literals = operand_literals(expression.first);
    let rest_code = terms_code(expression.rest, base + first_literals.len());
    let first = operand_value(expression.first, numbers, made);
    lemma_operand_has_literal(expression.first);
    lemma_constants_joined(first_literals, terms_literals(expression.rest), numbers);
    lemma_stands_before(state, first_code, rest_code, state.stack);
    lemma_holds_constants(
        state,
        base,
        first_literals,
        terms_literals(expression.rest),
        numbers,
    );
    lemma_operand_runs(state, expression.first, base, numbers, made, arithmetic, outcome);
    let begun = state.moved(first_code.len() as int, state.stack.push(Value::Number(first)));
    lemma_stands_before(state, first_code, rest_code, begun.stack);
    lemma_terms_run(
        begun,
        expression.rest,
        level,
        rank(Precedence::Primary),
        base + first_literals.len(),
        numbers,
        made,
        arithmetic,
        first,
        outcome,
    );
    let worth = value(expression, numbers, made);
    assert(begun.stack.drop_last().push(Value::Number(worth)) =~= state.stack.push(
        Value::Number(worth),
    ));
    assert(code(expression, base).len() == first_code.len() + rest_code.len());
}

/// The machine computes the operators that follow an operand: before
/// their code, with a number on top of its stack, it goes on with what the
/// operators make of that number in its place.
pub proof fn lemma_terms_run<A: Fn(OpCode, u64, u64) -> u64>(
    state: MachineState,
    terms: Terms,
    level: Precedence,
    ceiling: nat,
    base: nat,
    numbers: Numbers,
    made: Arithmetic,
    arithmetic: A,
    left: u64,
    outcome: Outcome,
)
    requires
        state.well_formed(),
        computes_as(arithmetic, made),
        terms_fit(terms, level, ceiling),
        state.stack.len() >= 1,
        state.stack.last() == Value::Number(left),
        stands_before(state, terms_code(terms, base)),
        holds_constants(state, base, constants_of(terms_literals(terms), numbers)),
        readable(terms_literals(terms), numbers),
        base + terms_literals(terms).len() <= CONSTANTS_MAX,
        state.stack.len() + terms_literals(terms).len() <= STACK_MAX,
        state.runs(arithmetic, outcome),
    ensures
        state.moved(
            terms_code(terms, base).len() as int,
            state.stack.drop_last().push(
                Value::Number(terms_value(terms, numbers, made, left)),
            ),
        ).runs(arithmetic, outcome),
    decreases terms,
{
    match terms {
        Terms::End => {
            assert(state.stack.drop_last().push(Value::Number(left)) =~= state.stack);
            assert(state.moved(0, state.stack) == state);
        },
        Terms::More { operator, right, rest } => {
            let op = operation_of(operator);
            let right_code = code(*right, base);
            let op_code = seq![encode(op)];
            let rest_base = base + literals(*right).len();
            let rest_code = terms_code(*rest, rest_base);
            let side = value(*right, numbers, made);
            assert(terms_code(terms, base) =~= right_code + (op_code + rest_code));
            lemma_stands_before(state, right_code, op_code + rest_code, state.stack);
            lemma_holds_constants(state, base, literals(*right), terms_literals(*rest), numbers);
            lemma_constants_joined(literals(*right), terms_literals(*rest), numbers);
            lemma_expression_runs(
                state,
                *right,
                precedence_of(operator),
                base,
                numbers,
                made,
                arithmetic,
                outcome,
            );
            let loaded = state.moved(
                right_code.len() as int,
                state.stack.push(Value::Number(side)),
            );
            lemma_stands_before(state, right_code, op_code + rest_code, loaded.stack);
            lemma_stands_before(loaded, op_code, rest_code, loaded.stack);
            assert(loaded.code[loaded.ip] == loaded.code.subrange(loaded.ip, loaded.ip + 1)[0]);
            assert(decode(loaded.code[loaded.ip]) == op);
            assert(is_binary(op));
            assert(loaded.stack[loaded.stack.len() - 2] == Value::Number(left));
            assert(loaded.pending() == Some((op, left, side)));
            lemma_runs_computed(loaded, arithmetic, outcome);
            let below = loaded.stack.drop_last().drop_last();
            let result = made(op, left, side);
            let combined = loaded.moved(1, below.push(Value::Number(result)));
            assert(combined.runs(arithmetic, outcome));
            lemma_stands_before(loaded, op_code, rest_code, combined.stack);
            assert(below =~= state.stack.drop_last());
            lemma_terms_run(
                combined,
                *rest,
                level,
                rank(precedence_of(operator)),
                rest_base,
                numbers,
                made,
                arithmetic,
                result,
                outcome,
            );
            let worth = terms_value(terms, numbers, made, left);
            assert(combined.stack.drop_last().push(Value::Number(worth))
                =~= state.stack.drop_last().push(Value::Number(worth)));
            assert(terms_code(terms, base).len() == right_code.len() + 1 + rest_code.len());
        },
    }
}

/// The program of an expression runs to what the expression is worth.
pub proof fn lemma_translation_runs<A: Fn(OpCode, u64, u64) -> u64>(
    expression: Expression,
    numbers: Numbers,
    made: Arithmetic,
    arithmetic: A,
    outcome: Outcome,
)
    requires
        computes_as(arithmetic, made),
        fits(expression, Precedence::Assignment),
        readable(literals(expression), numbers),
        literals(expression).len() <= CONSTANTS_MAX,
        MachineState::initial(
            code(expression, 0) + seq![encode(OpCode::Return)],
            constants_of(literals(expression), numbers),
        ).runs(arithmetic, outcome),
    ensures
        outcome.result == Ok::<Value, InterpretError>(
            Value::Number(value(expression, numbers, made)),
        ),
{
    let body = code(expression, 0);
    let end = seq![encode(OpCode::Return)];
    let begin = MachineState::initial(body + end, constants_of(literals(expression), numbers));
    assert(begin.code.subrange(0, (body + end).len() as int) =~= body + end);
    lemma_stands_before(begin, body, end, begin.stack);
    assert(begin.constants.subrange(0, begin.constants.len() as int) =~= begin.constants);
    lemma_expression_runs(
        begin,
        expression,
        Precedence::Assignment,
        0,
        numbers,
        made,
        arithmetic,
        outcome,
    );
    let worth = value(expression, numbers, made);
    let computed = begin.moved(body.len() as int, begin.stack.push(Value::Number(worth)));
    lemma_stands_before(begin, body, end, computed.stack);
    assert(computed.code[computed.ip] == computed.code.subrange(computed.ip, computed.ip + 1)[0]);
    lemma_runs_plain(computed, arithmetic, outcome);
}

/// What a text means: a text whose tokens spell an expression, with
/// numbers that can be read and that are not too many, compiles without
/// error, and every run of its chunk yields what the expression is worth.
pub proof fn lemma_text_interpreted<A: Fn(OpCode, u64, u64) -> u64>(
    source: Seq<char>,
    debug: bool,
    expression: Expression,
    numbers: Numbers,
    made: Arithmetic,
    arithmetic: A,
    outcome: Outcome,
)
    requires
        computes_as(arithmetic, made),
        spelled(source, words(expression)),
        fits(expression, Precedence::Assignment),
        readable(literals(expression), numbers),
        literals(expression).len() <= CONSTANTS_MAX,
        MachineState::initial(
            ParserState::initial(source, debug).compiled(numbers).chunk.code,
            ParserState::initial(source, debug).compiled(numbers).chunk.constants,
        ).runs(arithmetic, outcome),
    ensures
        !ParserState::initial(source, debug).compiled(numbers).had_error,
        outcome.result == Ok::<Value, InterpretError>(
            Value::Number(value(expression, numbers, made)),
        ),
{
    lemma_text_translated(source, debug, expression, numbers);
    lemma_translation_runs(expression, numbers, made, arithmetic, outcome);
}

} // verus!
