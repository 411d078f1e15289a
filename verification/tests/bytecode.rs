use lox::chunk::{Chunk, OpCode};
use lox::value::{negate, Value};

#[test]
fn constant_and_return_decode_to_two_instructions() {
    let mut chunk = Chunk::new();
    let index = chunk.add_constant(Value::Number(1.5f64.to_bits()));
    assert_eq!(index, 0);
    chunk.write(OpCode::Constant.to_byte(), 1);
    chunk.write(index as u8, 1);
    chunk.write(OpCode::Return.to_byte(), 1);
    let mut iter = chunk.code_iter();
    let (offset, bytes) = iter.next().unwrap();
    assert_eq!(offset, 0);
    assert_eq!(bytes, &[2u8, 0u8][..]);
    let (offset, bytes) = iter.next().unwrap();
    assert_eq!(offset, 2);
    assert_eq!(bytes, &[1u8][..]);
    assert!(iter.next().is_none());
    assert!(iter.next().is_none());
}

#[test]
fn unknown_bytes_decode_one_by_one() {
    let mut chunk = Chunk::new();
    for byte in [0u8, 11, 255] {
        chunk.write(byte, 7);
    }
    let mut iter = chunk.code_iter();
    for (at, byte) in [0u8, 11, 255].iter().enumerate() {
        let (offset, bytes) = iter.next().unwrap();
        assert_eq!(offset, at);
        assert_eq!(bytes, &[*byte][..]);
    }
    assert!(iter.next().is_none());
}

#[test]
fn constant_load_without_operand_is_cut_short() {
    let mut chunk = Chunk::new();
    chunk.write(OpCode::Return.to_byte(), 1);
    chunk.write(OpCode::Constant.to_byte(), 1);
    let mut iter = chunk.code_iter();
    assert_eq!(iter.next().unwrap().0, 0);
    let (offset, bytes) = iter.next().unwrap();
    assert_eq!(offset, 1);
    assert_eq!(bytes, &[2u8][..]);
    assert!(iter.next().is_none());
}

#[test]
fn empty_chunk_has_no_instructions() {
    let chunk = Chunk::new();
    assert!(chunk.code.is_empty());
    assert!(chunk.lines.is_empty());
    assert!(chunk.constants.is_empty());
    assert!(chunk.code_iter().next().is_none());
}

#[test]
fn bytes_and_operations() {
    let all = [
        (0u8, OpCode::Unknown),
        (1, OpCode::Return),
        (2, OpCode::Constant),
        (3, OpCode::Negate),
        (4, OpCode::Add),
        (5, OpCode::Subtract),
        (6, OpCode::Multiply),
        (7, OpCode::Divide),
        (8, OpCode::Nil),
        (9, OpCode::True),
        (10, OpCode::False),
    ];
    for (byte, op) in all {
        assert_eq!(OpCode::from_int(byte), op);
        assert_eq!(op.to_byte(), byte);
        assert_eq!(op.code_length(), if op == OpCode::Constant { 2 } else { 1 });
    }
    for byte in 11..=255u8 {
        assert_eq!(OpCode::from_int(byte), OpCode::Unknown);
    }
}

#[test]
fn write_keeps_a_line_for_every_byte() {
    let mut chunk = Chunk::new();
    chunk.write(8, 3);
    chunk.write(1, 4);
    assert_eq!(chunk.code, vec![8, 1]);
    assert_eq!(chunk.lines, vec![3, 4]);
    let copy = chunk.clone();
    assert_eq!(copy.code, chunk.code);
    assert_eq!(copy.lines, chunk.lines);
    assert_eq!(copy.constants, chunk.constants);
}

#[test]
fn add_constant_returns_successive_indices() {
    let mut chunk = Chunk::new();
    for i in 0..300usize {
        assert_eq!(chunk.add_constant(Value::Number(i as u64)), i);
    }
    assert_eq!(chunk.constants.len(), 300);
    assert_eq!(chunk.constants[299], Value::Number(299));
    assert!(chunk.code.is_empty());
}

#[test]
fn listing_of_a_small_chunk() {
    let mut chunk = Chunk::new();
    chunk.add_constant(Value::Number(1.5f64.to_bits()));
    chunk.write(OpCode::Constant.to_byte(), 1);
    chunk.write(0, 1);
    chunk.write(OpCode::Negate.to_byte(), 1);
    chunk.write(OpCode::Nil.to_byte(), 12345);
    chunk.write(OpCode::Return.to_byte(), 12345);
    let listing = chunk.disassemble_with_iterator("test chunk");
    assert_eq!(listing.title, "== test chunk == ");
    let lines: Vec<&str> = listing.lines.iter().map(|line| line.text.as_str()).collect();
    assert_eq!(
        lines,
        vec![
            "0000 0001 OP_CONSTANT 0000 '",
            "0002    | OP_NEGATE",
            "0003 12345 OP_NIL",
            "0004    | OP_RETURN",
        ]
    );
    assert_eq!(listing.lines[0].constant, Some(Value::Number(1.5f64.to_bits())));
    assert_eq!(listing.lines[1].constant, None);
    assert_eq!(listing.lines[3].constant, None);
}

#[test]
fn listing_names_every_operation() {
    let mut chunk = Chunk::new();
    for byte in [3u8, 4, 5, 6, 7, 8, 9, 10, 1, 0, 200] {
        chunk.write(byte, 1);
    }
    let listing = chunk.disassemble_with_iterator("");
    assert_eq!(listing.title, "==  == ");
    let lines: Vec<&str> = listing.lines.iter().map(|line| line.text.as_str()).collect();
    assert_eq!(
        lines,
        vec![
            "0000 0001 OP_NEGATE",
            "0001    | OP_ADD",
            "0002    | OP_SUBTRACT",
            "0003    | OP_MULTIPLY",
            "0004    | OP_DIVIDE",
            "0005    | OP_NIL",
            "0006    | OP_TRUE",
            "0007    | OP_FALSE",
            "0008    | OP_RETURN",
            "0009    | Unknown opcode [0]",
            "0010    | Unknown opcode [200]",
        ]
    );
}

#[test]
fn listing_of_constant_loads_that_name_nothing() {
    let mut chunk = Chunk::new();
    chunk.write(OpCode::Constant.to_byte(), 1);
    chunk.write(7, 2);
    chunk.write(OpCode::Constant.to_byte(), 3);
    let listing = chunk.disassemble_with_iterator("x");
    assert_eq!(listing.lines.len(), 2);
    assert_eq!(listing.lines[0].text, "0000 0001 OP_CONSTANT 0007 '");
    assert_eq!(listing.lines[0].constant, None);
    assert_eq!(listing.lines[1].text, "0002 0003 OP_CONSTANT");
    assert_eq!(listing.lines[1].constant, None);
}

#[test]
fn words_of_values() {
    assert_eq!(Value::Nil.word(), Some("nil"));
    assert_eq!(Value::Bool(true).word(), Some("true"));
    assert_eq!(Value::Bool(false).word(), Some("false"));
    assert_eq!(Value::Number(0).word(), None);
}

#[test]
fn negation_flips_the_sign() {
    assert_eq!(f64::from_bits(negate(2.5f64.to_bits())), -2.5);
    assert_eq!(f64::from_bits(negate((-2.5f64).to_bits())), 2.5);
    assert_eq!(negate(0.0f64.to_bits()), (-0.0f64).to_bits());
    assert_eq!(f64::from_bits(negate(f64::INFINITY.to_bits())), f64::NEG_INFINITY);
    assert!(f64::from_bits(negate(f64::NAN.to_bits())).is_nan());
    for x in [1.0f64, -3.75, 1e300, 5e-324, 0.0] {
        assert_eq!(negate(x.to_bits()), (-x).to_bits());
    }
}

#[test]
fn instructions_are_the_code_in_pieces() {
    let mut chunk = Chunk::new();
    for byte in [2u8, 9, 2, 2, 0, 4, 1, 77, 2, 1, 3, 2] {
        chunk.write(byte, 1);
    }
    let mut iter = chunk.code_iter();
    let mut bytes = Vec::new();
    let mut next = 0;
    while let Some((offset, instruction)) = iter.next() {
        assert_eq!(offset, next);
        assert!(!instruction.is_empty());
        let width = OpCode::from_int(instruction[0]).code_length();
        assert_eq!(instruction.len(), width.min(12 - offset));
        bytes.extend_from_slice(instruction);
        next = offset + instruction.len();
    }
    assert_eq!(bytes, chunk.code);
}

#[test]
fn operation_converts_into_its_byte() {
    assert_eq!(u8::from(OpCode::Return), 1);
    assert_eq!(u8::from(OpCode::Unknown), 0);
    let byte: u8 = OpCode::False.into();
    assert_eq!(byte, 10);
}
