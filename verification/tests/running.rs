use lox::chunk::{Chunk, OpCode};
use lox::compiler::{compile, Options};
use lox::interpreter::interpret;
use lox::value::Value;
use lox::vm::{InterpretError, OperandStack, VM};

fn read_number(text: &str) -> Option<u64> {
    text.parse::<f64>().ok().map(f64::to_bits)
}

fn arithmetic(op: OpCode, a: u64, b: u64) -> u64 {
    let (a, b) = (f64::from_bits(a), f64::from_bits(b));
    let result = match op {
        OpCode::Add => a + b,
        OpCode::Subtract => a - b,
        OpCode::Multiply => a * b,
        OpCode::Divide => a / b,
        _ => unreachable!(),
    };
    result.to_bits()
}

fn number(value: f64) -> Value {
    Value::Number(value.to_bits())
}

fn value_of(source: &str) -> Result<Value, InterpretError> {
    let done = interpret(source, read_number, arithmetic);
    assert_eq!(done.result == Err(InterpretError::CompileError), !done.diagnostics.is_empty());
    assert_eq!(done.listing.is_some(), done.diagnostics.is_empty());
    done.result
}

fn chunk_of(code: &[u8], constants: &[Value]) -> Chunk {
    let mut chunk = Chunk::new();
    for byte in code {
        chunk.write(*byte, 1);
    }
    for constant in constants {
        chunk.add_constant(*constant);
    }
    chunk
}

fn run(code: &[u8], constants: &[Value]) -> Result<Value, InterpretError> {
    let chunk = chunk_of(code, constants);
    VM::new(&chunk, arithmetic).run()
}

#[test]
fn number_is_its_own_value() {
    for text in ["0", "1", "3.25", "007", "1.50", "123456789.125", "0.1"] {
        assert_eq!(value_of(text), Ok(number(text.parse::<f64>().unwrap())));
    }
    assert_eq!(value_of("  42 // the answer\n"), Ok(number(42.0)));
}

#[test]
fn number_is_loaded_and_returned_unchanged() {
    let tag = |_: &str| -> Option<u64> { Some(0xdead_beef_0bad_f00d) };
    let done = interpret("12.5", tag, arithmetic);
    assert_eq!(done.result, Ok(Value::Number(0xdead_beef_0bad_f00d)));
}

#[test]
fn precedence_of_multiplication() {
    assert_eq!(value_of("2 + 3 * 4"), Ok(number(14.0)));
    assert_eq!(value_of("2 * 3 + 4"), Ok(number(10.0)));
}

#[test]
fn unary_precedence_and_grouping() {
    assert_eq!(value_of("-2 + 3"), Ok(number(1.0)));
    assert_eq!(value_of("-(2+3)"), Ok(number(-5.0)));
    assert_eq!(value_of("(2 + 3) * 4"), Ok(number(20.0)));
    assert_eq!(value_of("--2"), Ok(number(2.0)));
}

#[test]
fn left_association() {
    assert_eq!(value_of("8 - 4 - 2"), Ok(number(2.0)));
    assert_eq!(value_of("8 / 4 / 2"), Ok(number(1.0)));
    assert_eq!(value_of("1 - 2 * 3 - 4"), Ok(number(-9.0)));
}

#[test]
fn division_follows_ieee() {
    assert_eq!(value_of("1/0"), Ok(number(f64::INFINITY)));
    assert_eq!(value_of("-1/0"), Ok(number(f64::NEG_INFINITY)));
    match value_of("0/0") {
        Ok(Value::Number(bits)) => assert!(f64::from_bits(bits).is_nan()),
        other => panic!("{:?}", other),
    }
    assert_eq!(value_of("1/4"), Ok(number(0.25)));
}

#[test]
fn operands_reach_the_arithmetic_in_order() {
    assert_eq!(value_of("7 - 2"), Ok(number(5.0)));
    assert_eq!(value_of("1 / 2"), Ok(number(0.5)));
    let first = |_: OpCode, a: u64, _: u64| -> u64 { a };
    assert_eq!(interpret("1 + 2", read_number, first).result, Ok(number(1.0)));
    let coded = |op: OpCode, _: u64, _: u64| -> u64 { op.to_byte() as u64 };
    assert_eq!(interpret("1 * 2", read_number, coded).result, Ok(Value::Number(6)));
    assert_eq!(interpret("1 - 2", read_number, coded).result, Ok(Value::Number(5)));
}

#[test]
fn compile_error_never_reaches_the_machine() {
    let called = std::cell::Cell::new(false);
    let watched = |op: OpCode, a: u64, b: u64| -> u64 {
        called.set(true);
        arithmetic(op, a, b)
    };
    let done = interpret("1 + 2 \"abc", read_number, watched);
    assert_eq!(done.result, Err(InterpretError::CompileError));
    assert_eq!(done.diagnostics, vec!["[line 1] Error: Unterminated string.".to_string()]);
    assert!(done.listing.is_none());
    assert!(!called.get());
    assert_eq!(value_of("\"abc"), Err(InterpretError::CompileError));
}

#[test]
fn interpretation_lists_the_chunk() {
    let done = interpret("1 / 0", read_number, arithmetic);
    let listing = done.listing.unwrap();
    assert_eq!(listing.title, "== Main chunk == ");
    assert_eq!(listing.lines.len(), 4);
    assert_eq!(listing.lines[2].text, "0004    | OP_DIVIDE");
}

#[test]
fn literals_are_pushed() {
    assert_eq!(run(&[8, 1], &[]), Ok(Value::Nil));
    assert_eq!(run(&[9, 1], &[]), Ok(Value::Bool(true)));
    assert_eq!(run(&[10, 1], &[]), Ok(Value::Bool(false)));
    assert_eq!(run(&[9, 8, 1], &[]), Ok(Value::Nil));
}

#[test]
fn constants_are_loaded_by_index() {
    let pool = [number(1.0), Value::Bool(true), number(3.0)];
    assert_eq!(run(&[2, 2, 1], &pool), Ok(number(3.0)));
    assert_eq!(run(&[2, 1, 1], &pool), Ok(Value::Bool(true)));
    assert_eq!(run(&[2, 0, 2, 2, 4, 1], &pool), Ok(number(4.0)));
}

#[test]
fn operations_on_what_is_no_number_fail() {
    assert_eq!(run(&[8, 3, 1], &[]), Err(InterpretError::RuntimeError));
    assert_eq!(run(&[9, 3, 1], &[]), Err(InterpretError::RuntimeError));
    for op in [4u8, 5, 6, 7] {
        assert_eq!(run(&[2, 0, 8, op, 1], &[number(1.0)]), Err(InterpretError::RuntimeError));
        assert_eq!(run(&[10, 2, 0, op, 1], &[number(1.0)]), Err(InterpretError::RuntimeError));
        assert_eq!(run(&[2, 0, 2, 0, op, 1], &[number(1.0)]).is_ok(), true);
    }
}

#[test]
fn unknown_operation_fails() {
    assert_eq!(run(&[0], &[]), Err(InterpretError::RuntimeError));
    assert_eq!(run(&[8, 11, 1], &[]), Err(InterpretError::RuntimeError));
    assert_eq!(run(&[255], &[]), Err(InterpretError::RuntimeError));
}

#[test]
fn malformed_programs_fail_without_panic() {
    assert_eq!(run(&[], &[]), Err(InterpretError::RuntimeError));
    assert_eq!(run(&[8], &[]), Err(InterpretError::RuntimeError));
    assert_eq!(run(&[1], &[]), Err(InterpretError::RuntimeError));
    assert_eq!(run(&[3, 1], &[]), Err(InterpretError::RuntimeError));
    assert_eq!(run(&[2], &[number(1.0)]), Err(InterpretError::RuntimeError));
    assert_eq!(run(&[2, 1, 1], &[number(1.0)]), Err(InterpretError::RuntimeError));
    assert_eq!(run(&[2, 0, 4, 1], &[number(1.0)]), Err(InterpretError::RuntimeError));
    assert_eq!(run(&[4, 1], &[]), Err(InterpretError::RuntimeError));
}

#[test]
fn stack_holds_two_hundred_fifty_six_values() {
    let mut code = vec![8u8; 256];
    code.push(1);
    assert_eq!(run(&code, &[]), Ok(Value::Nil));
    let mut code = vec![8u8; 257];
    code.push(1);
    assert_eq!(run(&code, &[]), Err(InterpretError::RuntimeError));
    let mut code = vec![8u8; 256];
    code.extend_from_slice(&[2, 0, 1]);
    assert_eq!(run(&code, &[number(1.0)]), Err(InterpretError::RuntimeError));
}

#[test]
fn stack_is_as_high_as_the_constants_are_many() {
    let mut source = String::new();
    for _ in 0..255 {
        source.push_str("1+(");
    }
    source.push('1');
    for _ in 0..255 {
        source.push(')');
    }
    assert_eq!(value_of(&source), Ok(number(256.0)));
    let deeper = format!("1+({})", source);
    assert!(compile(&deeper, Options::default(), read_number).result.is_err());
    let mut source = String::new();
    for _ in 0..128 {
        source.push_str("(1+");
    }
    source.push('1');
    for _ in 0..128 {
        source.push(')');
    }
    assert_eq!(value_of(&source), Ok(number(129.0)));
}

#[test]
fn machine_stops_at_the_first_return() {
    assert_eq!(run(&[9, 1, 0, 0], &[]), Ok(Value::Bool(true)));
    let chunk = chunk_of(&[9, 1, 10, 1], &[]);
    let mut vm = VM::new(&chunk, arithmetic);
    assert_eq!(vm.run(), Ok(Value::Bool(true)));
    assert_eq!(vm.run(), Ok(Value::Bool(false)));
    assert_eq!(vm.run(), Err(InterpretError::RuntimeError));
    assert_eq!(vm.run(), Err(InterpretError::RuntimeError));
}

#[test]
fn operand_stack_is_checked() {
    let mut stack = OperandStack::new();
    assert_eq!(stack.len(), 0);
    assert_eq!(stack.pop(), Err(InterpretError::RuntimeError));
    for i in 0..256u64 {
        assert_eq!(stack.push(Value::Number(i)), Ok(()));
    }
    assert_eq!(stack.len(), 256);
    assert_eq!(stack.push(Value::Nil), Err(InterpretError::RuntimeError));
    assert_eq!(stack.len(), 256);
    for i in (0..256u64).rev() {
        assert_eq!(stack.pop(), Ok(Value::Number(i)));
    }
    assert_eq!(stack.pop(), Err(InterpretError::RuntimeError));
    assert_eq!(stack.len(), 0);
}

#[test]
fn compiled_programs_run_to_numbers() {
    let sources = [
        "1",
        "-1",
        "1 + 2",
        "(1)",
        "-(-(1))",
        "1 + 2 * 3 - 4 / 5",
        "(1 + 2) * (3 - 4) / -5",
        "1 - - 1",
        "((((1 + 1) + 1) + 1) + 1)",
        "1 / 0 - 1 / 0",
    ];
    for source in sources {
        match value_of(source) {
            Ok(Value::Number(_)) => {}
            other => panic!("{}: {:?}", source, other),
        }
    }
}

#[test]
fn nested_operands_wait_on_the_stack() {
    let mut source = String::new();
    for _ in 0..170 {
        source.push_str("1+(");
    }
    source.push('1');
    for _ in 0..170 {
        source.push(')');
    }
    let chunk = compile(&source, Options::default(), read_number).result.unwrap();
    assert_eq!(chunk.code.len(), 513);
    assert_eq!(VM::new(&chunk, arithmetic).run(), Ok(number(171.0)));
}
