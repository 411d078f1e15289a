//! The virtual machine: it executes the instructions of a chunk on a stack
//! of operands.

use crate::chunk::{decode, Chunk, OpCode};
use crate::numbers::{computes, is_binary};
use crate::value::{negate, negation, Value};
use vstd::prelude::*;

verus! {

/// The most values that the stack of operands may hold.
pub const STACK_MAX: usize = 256;

/// Why a program gave no result.
#[derive(Debug, PartialEq, Eq, Clone, Copy, Structural)]
pub enum InterpretError {
    CompileError,
    RuntimeError,
}

/// The operands of a machine: the value pushed last is the first to be
/// popped. It holds `STACK_MAX` values at most.
pub struct OperandStack {
    stack: Vec<Value>,
}

impl View for OperandStack {
    type V = Seq<Value>;

    closed spec fn view(&self) -> Seq<Value> {
        self.stack@
    }
}

impl OperandStack {
    /// The invariant of a stack: it holds no more than it may.
    pub closed spec fn well_formed(&self) -> bool {
        self.stack@.len() <= STACK_MAX
    }

    /// A stack without values.
    pub fn new() -> (stack: OperandStack)
        ensures
            stack.well_formed(),
            stack@ == Seq::<Value>::empty(),
    {
        OperandStack { stack: Vec::new() }
    }

    /// Pushes `value`. On a full stack that is a runtime error, and the
    /// stack stays as it is.
    pub fn push(&mut self, value: Value) -> (pushed: Result<(), InterpretError>)
        requires
            old(self).well_formed(),
        ensures
            final(self).well_formed(),
            old(self)@.len() < STACK_MAX ==> pushed.is_ok() && final(self)@ == old(self)@.push(
                value,
            ),
            old(self)@.len() >= STACK_MAX ==> pushed == Err::<(), InterpretError>(
                InterpretError::RuntimeError,
            ) && final(self)@ == old(self)@,
    {
        if self.stack.len() >= STACK_MAX {
            return Err(InterpretError::RuntimeError);
        }
        self.stack.push(value);
        Ok(())
    }

    /// Pops the value pushed last. On an empty stack that is a runtime
    /// error.
    pub fn pop(&mut self) -> (popped: Result<Value, InterpretError>)
        requires
            old(self).well_formed(),
        ensures
            final(self).well_formed(),
            old(self)@.len() > 0 ==> popped == Ok::<Value, InterpretError>(old(self)@.last())
                && final(self)@ == old(self)@.drop_last(),
            old(self)@.len() == 0 ==> popped == Err::<Value, InterpretError>(
                InterpretError::RuntimeError,
            ) && final(self)@ == old(self)@,
    {
        match self.stack.pop() {
            Some(value) => Ok(value),
            None => Err(InterpretError::RuntimeError),
        }
    }

    /// The number of values on the stack.
    pub fn len(&self) -> (length: usize)
        ensures
            length == self@.len(),
    {
        self.stack.len()
    }
}

/// The state of a machine: the program, the offset of the next
/// instruction, and the operands.
pub struct MachineState {
    pub code: Seq<u8>,
    pub constants: Seq<Value>,
    pub ip: int,
    pub stack: Seq<Value>,
}

/// How a run has ended: with a value or an error, and in which state.
pub struct Outcome {
    pub result: Result<Value, InterpretError>,
    pub end: MachineState,
}

/// What one instruction does: the machine goes on in another state, or
/// the run ends.
pub enum Step {
    Next(MachineState),
    Halt(Outcome),
}

impl MachineState {
    /// The state in which a run of the program begins.
    pub open spec fn initial(code: Seq<u8>, constants: Seq<Value>) -> MachineState {
        MachineState { code, constants, ip: 0, stack: Seq::empty() }
    }

    /// The invariant of a machine: it stands inside the program or at its
    /// end, and its stack holds no more than it may.
    pub open spec fn well_formed(self) -> bool {
        &&& 0 <= self.ip <= self.code.len()
        &&& self.stack.len() <= STACK_MAX
    }

    /// The state after `count` bytes have been read and the stack has
    /// become `stack`.
    pub open spec fn moved(self, count: int, stack: Seq<Value>) -> MachineState {
        MachineState { ip: self.ip + count, stack, ..self }
    }

    /// The end of the run with a runtime error, after `count` bytes have
    /// been read and the stack has become `stack`.
    pub open spec fn fault(self, count: int, stack: Seq<Value>) -> Step {
        Step::Halt(
            Outcome {
                result: Err(InterpretError::RuntimeError),
                end: self.moved(count, stack),
            },
        )
    }

    /// The step that pushes `value`; on a full stack, a runtime error.
    pub open spec fn pushing(self, value: Value) -> Step {
        if self.stack.len() < STACK_MAX {
            Step::Next(self.moved(1, self.stack.push(value)))
        } else {
            self.fault(1, self.stack)
        }
    }

    /// The operation that the next instruction asks of the arithmetic, with
    /// its two operands: the value under the top of the stack, then the
    /// top. There is none unless the instruction is binary and both values
    /// are numbers.
    pub open spec fn pending(self) -> Option<(OpCode, u64, u64)> {
        if 0 <= self.ip < self.code.len() && is_binary(decode(self.code[self.ip]))
            && self.stack.len() >= 2 {
            match (self.stack[self.stack.len() - 2], self.stack.last()) {
                (Value::Number(a), Value::Number(b)) => Some((decode(self.code[self.ip]), a, b)),
                _ => None,
            }
        } else {
            None
        }
    }

    /// What the next instruction does, where `computed` is what the
    /// arithmetic gives if it is asked.
    ///
    /// - Past the end of the program there is no instruction: a runtime
    ///   error.
    /// - A constant-load pushes the constant that its operand names; without
    ///   an operand, or one that names no constant, it is a runtime error.
    /// - `Nil`, `True` and `False` push their value.
    /// - `Negate` replaces the number on top by its negation; anything but a
    ///   number there is a runtime error, after it has been popped.
    /// - A binary operation replaces the two numbers on top by what the
    ///   arithmetic gives; with fewer than two values it is a runtime
    ///   error, and so it is after both have been popped if one is no
    ///   number.
    /// - `Return` pops the result of the run.
    /// - A byte that encodes no operation is a runtime error.
    pub open spec fn step(self, computed: u64) -> Step {
        if self.ip < 0 || self.ip >= self.code.len() {
            self.fault(0, self.stack)
        } else {
            let op = decode(self.code[self.ip]);
            match op {
                OpCode::Constant => {
                    if self.ip + 1 >= self.code.len() {
                        self.fault(1, self.stack)
                    } else if self.code[self.ip + 1] >= self.constants.len() || self.stack.len()
                        >= STACK_MAX {
                        self.fault(2, self.stack)
                    } else {
                        Step::Next(
                            self.moved(
                                2,
                                self.stack.push(self.constants[self.code[self.ip + 1] as int]),
                            ),
                        )
                    }
                },
                OpCode::Nil => self.pushing(Value::Nil),
                OpCode::True => self.pushing(Value::Bool(true)),
                OpCode::False => self.pushing(Value::Bool(false)),
                OpCode::Negate => {
                    if self.stack.len() == 0 {
                        self.fault(1, self.stack)
                    } else {
                        match self.stack.last() {
                            Value::Number(n) => Step::Next(
                                self.moved(
                                    1,
                                    self.stack.drop_last().push(Value::Number(negation(n))),
                                ),
                            ),
                            _ => self.fault(1, self.stack.drop_last()),
                        }
                    }
                },
                OpCode::Add | OpCode::Subtract | OpCode::Multiply | OpCode::Divide => {
                    if self.stack.len() < 2 {
                        self.fault(1, self.stack)
                    } else if self.pending().is_some() {
                        Step::Next(
                            self.moved(
                                1,
                                self.stack.drop_last().drop_last().push(Value::Number(computed)),
                            ),
                        )
                    } else {
                        self.fault(1, self.stack.drop_last().drop_last())
                    }
                },
                OpCode::Return => {
                    if self.stack.len() == 0 {
                        self.fault(1, self.stack)
                    } else {
                        Step::Halt(
                            Outcome {
                                result: Ok(self.stack.last()),
                                end: self.moved(1, self.stack.drop_last()),
                            },
                        )
                    }
                },
                OpCode::Unknown => self.fault(1, self.stack),
            }
        }
    }

    /// Whether `computed` is what `arithmetic` may give when the next
    /// instruction asks it; anything is where the instruction asks nothing.
    pub open spec fn computable<A: Fn(OpCode, u64, u64) -> u64>(
        self,
        arithmetic: A,
        computed: u64,
    ) -> bool {
        match self.pending() {
            Some((op, a, b)) => arithmetic.ensures((op, a, b), computed),
            None => true,
        }
    }

    /// Whether a run from this state may end in `outcome`: some chain of
    /// steps leads there, each with a number that `arithmetic` may give.
    pub open spec fn runs<A: Fn(OpCode, u64, u64) -> u64>(
        self,
        arithmetic: A,
        outcome: Outcome,
    ) -> bool
        decreases self.code.len() - self.ip,
    {
        exists|computed: u64| #[trigger]
            self.computable(arithmetic, computed) && match self.step(computed) {
                Step::Next(next) => self.ip < next.ip <= self.code.len() && next.runs(
                    arithmetic,
                    outcome,
                ),
                Step::Halt(end) => outcome == end,
            }
    }
}

/// A machine at work on one chunk. `arithmetic` gives the bits of the
/// result of a binary operation on two numbers.
pub struct VM<'v, A: Fn(OpCode, u64, u64) -> u64> {
    chunk: &'v Chunk,
    ip: usize,
    stack: OperandStack,
    arithmetic: A,
}

impl<'v, A: Fn(OpCode, u64, u64) -> u64> VM<'v, A> {
    /// The state of the machine.
    pub closed spec fn view(&self) -> MachineState {
        MachineState {
            code: self.chunk@.code,
            constants: self.chunk@.constants,
            ip: self.ip as int,
            stack: self.stack@,
        }
    }

    /// The invariant of a machine: that of its state, and its arithmetic
    /// can be asked for each binary operation.
    pub closed spec fn well_formed(&self) -> bool {
        &&& self@.well_formed()
        &&& self.stack.well_formed()
        &&& computes(self.arithmetic)
    }

    /// The arithmetic of the machine.
    pub closed spec fn arithmetic(&self) -> A {
        self.arithmetic
    }

    /// A machine at the beginning of `chunk`, with an empty stack.
    pub fn new(chunk: &'v Chunk, arithmetic: A) -> (vm: VM<'v, A>)
        requires
            computes(arithmetic),
        ensures
            vm.well_formed(),
            vm.arithmetic() == arithmetic,
            vm@ == MachineState::initial(chunk@.code, chunk@.constants),
    {
        VM { chunk, ip: 0, stack: OperandStack::new(), arithmetic }
    }

    /// Reads the byte at the instruction pointer and moves past it; at the
    /// end of the program there is none.
    fn read_byte(&mut self) -> (byte: Option<u8>)
        requires
            old(self).well_formed(),
        ensures
            final(self).well_formed(),
            final(self).arithmetic() == old(self).arithmetic(),
            byte == (if old(self)@.ip < old(self)@.code.len() {
                Some(old(self)@.code[old(self)@.ip])
            } else {
                None
            }),
            final(self)@ == (if byte.is_some() {
                old(self)@.moved(1, old(self)@.stack)
            } else {
                old(self)@
            }),
    {
        if self.ip >= self.chunk.code.len() {
            return None;
        }
        let instruction = self.chunk.code[self.ip];
        self.ip += 1;
        Some(instruction)
    }

    /// Replaces the two numbers on top of the stack by what the arithmetic
    /// gives for `op` on them.
    fn binary_op(&mut self, op: OpCode) -> (done: Result<(), InterpretError>)
        requires
            old(self).well_formed(),
            is_binary(op),
        ensures
            final(self).well_formed(),
            final(self).arithmetic() == old(self).arithmetic(),
            final(self)@.code == old(self)@.code,
            final(self)@.constants == old(self)@.constants,
            final(self)@.ip == old(self)@.ip,
            old(self)@.stack.len() < 2 ==> done.is_err() && final(self)@.stack == old(self)@.stack,
            old(self)@.stack.len() >= 2 ==> match (
                old(self)@.stack[old(self)@.stack.len() - 2],
                old(self)@.stack.last(),
            ) {
                (Value::Number(a), Value::Number(b)) => done.is_ok() && exists|computed: u64|
                    #[trigger] old(self).arithmetic().ensures((op, a, b), computed)
                        && final(self)@.stack == old(self)@.stack.drop_last().drop_last().push(
                        Value::Number(computed),
                    ),
                _ => done.is_err() && final(self)@.stack
                    == old(self)@.stack.drop_last().drop_last(),
            },
    {
        if self.stack.len() < 2 {
            return Err(InterpretError::RuntimeError);
        }
        let b = match self.stack.pop() {
            Ok(value) => value,
            Err(error) => return Err(error),
        };
        let a = match self.stack.pop() {
            Ok(value) => value,
            Err(error) => return Err(error),
        };
        assert(a == old(self)@.stack[old(self)@.stack.len() - 2]);
        assert(b == old(self)@.stack.last());
        match (a, b) {
            (Value::Number(n1), Value::Number(n2)) => {
                let computed = (self.arithmetic)(op, n1, n2);
                let pushed = self.stack.push(Value::Number(computed));
                assert(old(self).arithmetic().ensures((op, n1, n2), computed));
                pushed
            },
            _ => Err(InterpretError::RuntimeError),
        }
    }

    /// Reads the operand of a constant-load and looks the constant up: there
    /// is none where the program ends before the operand, or the operand
    /// names no constant.
    fn read_constant(&mut self) -> (constant: Option<Value>)
        requires
            old(self).well_formed(),
        ensures
            final(self).well_formed(),
            final(self).arithmetic() == old(self).arithmetic(),
            old(self)@.ip >= old(self)@.code.len() ==> constant.is_none() && final(self)@ == old(
                self,
            )@,
            old(self)@.ip < old(self)@.code.len() ==> final(self)@ == old(self)@.moved(
                1,
                old(self)@.stack,
            ) && constant == (if old(self)@.code[old(self)@.ip] < old(self)@.constants.len() {
                Some(old(self)@.constants[old(self)@.code[old(self)@.ip] as int])
            } else {
                None
            }),
    {
        match self.read_byte() {
            Some(operand) => {
                let offset = operand as usize;
                if offset < self.chunk.constants.len() {
                    Some(self.chunk.constants[offset])
                } else {
                    None
                }
            },
            None => None,
        }
    }

    /// Runs the program from where the machine stands until it returns a
    /// value or fails. The value is the result of the program: it is for
    /// the caller to print.
    pub fn run(&mut self) -> (result: Result<Value, InterpretError>)
        requires
            old(self).well_formed(),
        ensures
            final(self).well_formed(),
            final(self).arithmetic() == old(self).arithmetic(),
            old(self)@.runs(old(self).arithmetic(), Outcome { result, end: final(self)@ }),
    {
        let ghost arithmetic = self.arithmetic;
        loop
            invariant
                self.well_formed(),
                self.arithmetic() == arithmetic,
                arithmetic == old(self).arithmetic(),
                self@.code == old(self)@.code,
                forall|outcome: Outcome| #[trigger]
                    self@.runs(arithmetic, outcome) ==> old(self)@.runs(arithmetic, outcome),
            decreases self@.code.len() - self@.ip,
        {
            let ghost before = self@;
            let instruction = match self.read_byte() {
                Some(byte) => byte,
                None => {
                    proof {
                        assert(before.moved(0, before.stack) == before);
                        lemma_fails(before, arithmetic, self@);
                    }
                    return Err(InterpretError::RuntimeError);
                },
            };
            match OpCode::from_int(instruction) {
                OpCode::Constant => {
                    let pushed = match self.read_constant() {
                        Some(c) => self.stack.push(c),
                        None => Err(InterpretError::RuntimeError),
                    };
                    if pushed.is_err() {
                        proof {
                            lemma_fails(before, arithmetic, self@);
                        }
                        return Err(InterpretError::RuntimeError);
                    }
                    proof {
                        lemma_goes_on(before, arithmetic, 0, self@);
                    }
                },
                OpCode::Nil => {
                    if self.stack.push(Value::Nil).is_err() {
                        proof {
                            lemma_fails(before, arithmetic, self@);
                        }
                        return Err(InterpretError::RuntimeError);
                    }
                    proof {
                        lemma_goes_on(before, arithmetic, 0, self@);
                    }
                },
                OpCode::True => {
                    if self.stack.push(Value::Bool(true)).is_err() {
                        proof {
                            lemma_fails(before, arithmetic, self@);
                        }
                        return Err(InterpretError::RuntimeError);
                    }
                    proof {
                        lemma_goes_on(before, arithmetic, 0, self@);
                    }
                },
                OpCode::False => {
                    if self.stack.push(Value::Bool(false)).is_err() {
                        proof {
                            lemma_fails(before, arithmetic, self@);
                        }
                        return Err(InterpretError::RuntimeError);
                    }
                    proof {
                        lemma_goes_on(before, arithmetic, 0, self@);
                    }
                },
                OpCode::Return => {
                    let result = self.stack.pop();
                    proof {
                        lemma_halts(before, arithmetic, 0, Outcome { result, end: self@ });
                    }
                    return result;
                },
                OpCode::Negate => {
                    let negated = match self.stack.pop() {
                        Ok(Value::Number(n)) => self.stack.push(Value::Number(negate(n))),
                        _ => Err(InterpretError::RuntimeError),
                    };
                    if negated.is_err() {
                        proof {
                            lemma_fails(before, arithmetic, self@);
                        }
                        return Err(InterpretError::RuntimeError);
                    }
                    proof {
                        lemma_goes_on(before, arithmetic, 0, self@);
                    }
                },
                OpCode::Add | OpCode::Subtract | OpCode::Multiply | OpCode::Divide => {
                    let op = OpCode::from_int(instruction);
                    let ghost asked = self@;
                    if self.binary_op(op).is_err() {
                        proof {
                            lemma_fails(before, arithmetic, self@);
                        }
                        return Err(InterpretError::RuntimeError);
                    }
                    proof {
                        let (a, b) = match before.pending() {
                            Some((_, a, b)) => (a, b),
                            None => (0, 0),
                        };
                        let computed = choose|computed: u64| #[trigger]
                            arithmetic.ensures((op, a, b), computed) && self@.stack
                                == asked.stack.drop_last().drop_last().push(
                                Value::Number(computed),
                            );
                        lemma_goes_on(before, arithmetic, computed, self@);
                    }
                },
                OpCode::Unknown => {
                    proof {
                        lemma_fails(before, arithmetic, self@);
                    }
                    return Err(InterpretError::RuntimeError);
                },
            }
        }
    }
}

/// A run may end as the step from `state` ends it.
pub proof fn lemma_halts<A: Fn(OpCode, u64, u64) -> u64>(
    state: MachineState,
    arithmetic: A,
    computed: u64,
    outcome: Outcome,
)
    requires
        state.computable(arithmetic, computed),
        state.step(computed) == Step::Halt(outcome),
    ensures
        state.runs(arithmetic, outcome),
{
}

/// A run may end with a runtime error in the state in which the step from
/// `state` does.
pub proof fn lemma_fails<A: Fn(OpCode, u64, u64) -> u64>(
    state: MachineState,
    arithmetic: A,
    end: MachineState,
)
    requires
        state.computable(arithmetic, 0),
        state.step(0) == Step::Halt(Outcome { result: Err(InterpretError::RuntimeError), end }),
    ensures
        state.runs(arithmetic, Outcome { result: Err(InterpretError::RuntimeError), end }),
{
}

/// A run may end as a run from the next state ends.
pub proof fn lemma_goes_on<A: Fn(OpCode, u64, u64) -> u64>(
    state: MachineState,
    arithmetic: A,
    computed: u64,
    next: MachineState,
)
    requires
        state.well_formed(),
        state.computable(arithmetic, computed),
        state.step(computed) == Step::Next(next),
    ensures
        state.ip < next.ip <= state.code.len(),
        forall|outcome: Outcome| #[trigger]
            next.runs(arithmetic, outcome) ==> state.runs(arithmetic, outcome),
{
    assert forall|outcome: Outcome| #[trigger] next.runs(arithmetic, outcome) implies state.runs(
        arithmetic,
        outcome,
    ) by {
        assert(state.computable(arithmetic, computed));
    }
}

/// Where the next instruction asks nothing of the arithmetic, a run ends
/// as that instruction ends it, or as a run from the state after it ends.
pub proof fn lemma_runs_plain<A: Fn(OpCode, u64, u64) -> u64>(
    state: MachineState,
    arithmetic: A,
    outcome: Outcome,
)
    requires
        state.runs(arithmetic, outcome),
        state.pending().is_none(),
    ensures
        match state.step(0) {
            Step::Next(next) => state.ip < next.ip <= state.code.len() && next.runs(
                arithmetic,
                outcome,
            ),
            Step::Halt(end) => outcome == end,
        },
{
    let computed = choose|computed: u64| #[trigger]
        state.computable(arithmetic, computed) && match state.step(computed) {
            Step::Next(next) => state.ip < next.ip <= state.code.len() && next.runs(
                arithmetic,
                outcome,
            ),
            Step::Halt(end) => outcome == end,
        };
    assert(state.step(computed) == state.step(0));
}

/// Where the next instruction asks the arithmetic, a run ends as a run
/// ends from the state in which a number that the arithmetic may give has
/// taken the place of the two operands.
pub proof fn lemma_runs_computed<A: Fn(OpCode, u64, u64) -> u64>(
    state: MachineState,
    arithmetic: A,
    outcome: Outcome,
)
    requires
        state.runs(arithmetic, outcome),
        state.pending().is_some(),
    ensures
        exists|computed: u64| #[trigger]
            arithmetic.ensures(state.pending().unwrap(), computed) && state.moved(
                1,
                state.stack.drop_last().drop_last().push(Value::Number(computed)),
            ).runs(arithmetic, outcome),
{
    let computed = choose|computed: u64| #[trigger]
        state.computable(arithmetic, computed) && match state.step(computed) {
            Step::Next(next) => state.ip < next.ip <= state.code.len() && next.runs(
                arithmetic,
                outcome,
            ),
            Step::Halt(end) => outcome == end,
        };
    assert(arithmetic.ensures(state.pending().unwrap(), computed));
}

/// Whether `arithmetic` gives one number for each operation on two
/// numbers.
pub open spec fn is_function<A: Fn(OpCode, u64, u64) -> u64>(arithmetic: A) -> bool {
    forall|op: OpCode, a: u64, b: u64, first: u64, second: u64| #[trigger]
        arithmetic.ensures((op, a, b), first) && #[trigger] arithmetic.ensures((op, a, b), second)
            ==> first == second
}

/// With an arithmetic that gives one number for each operation, a run has
/// one outcome.
pub proof fn lemma_runs_once<A: Fn(OpCode, u64, u64) -> u64>(
    state: MachineState,
    arithmetic: A,
    first: Outcome,
    second: Outcome,
)
    requires
        is_function(arithmetic),
        state.runs(arithmetic, first),
        state.runs(arithmetic, second),
    ensures
        first == second,
    decreases state.code.len() - state.ip,
{
    if state.pending().is_none() {
        lemma_runs_plain(state, arithmetic, first);
        lemma_runs_plain(state, arithmetic, second);
        match state.step(0) {
            Step::Next(next) => lemma_runs_once(next, arithmetic, first, second),
            Step::Halt(_) => {},
        }
    } else {
        lemma_runs_computed(state, arithmetic, first);
        lemma_runs_computed(state, arithmetic, second);
        let below = state.stack.drop_last().drop_last();
        let one = choose|computed: u64| #[trigger]
            arithmetic.ensures(state.pending().unwrap(), computed) && state.moved(
                1,
                below.push(Value::Number(computed)),
            ).runs(arithmetic, first);
        let other = choose|computed: u64| #[trigger]
            arithmetic.ensures(state.pending().unwrap(), computed) && state.moved(
                1,
                below.push(Value::Number(computed)),
            ).runs(arithmetic, second);
        assert(one == other);
        lemma_runs_once(
            state.moved(1, below.push(Value::Number(one))),
            arithmetic,
            first,
            second,
        );
    }
}

} // verus!
