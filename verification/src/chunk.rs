//! Bytecode: the operation codes, the chunk that holds a compiled program,
//! the decoding of its instructions, and a listing of them.

use crate::text::{append_decimal, append_padded, decimal, padded};
use crate::value::{Value, ValueArray};
use vstd::prelude::*;
use vstd::slice::slice_subrange;
use vstd::string::StringExecFns;

verus! {

/// The operations of the machine. `Unknown` stands for every byte that
/// encodes none of the others.
#[derive(Clone, Copy, Debug, PartialEq, Eq, Structural)]
pub enum OpCode {
    Unknown,
    Return,
    Constant,
    Negate,
    Add,
    Subtract,
    Multiply,
    Divide,
    Nil,
    True,
    False,
}

/// The operation that the byte `byte` encodes.
pub open spec fn decode(byte: u8) -> OpCode {
    if byte == 1 {
        OpCode::Return
    } else if byte == 2 {
        OpCode::Constant
    } else if byte == 3 {
        OpCode::Negate
    } else if byte == 4 {
        OpCode::Add
    } else if byte == 5 {
        OpCode::Subtract
    } else if byte == 6 {
        OpCode::Multiply
    } else if byte == 7 {
        OpCode::Divide
    } else if byte == 8 {
        OpCode::Nil
    } else if byte == 9 {
        OpCode::True
    } else if byte == 10 {
        OpCode::False
    } else {
        OpCode::Unknown
    }
}

/// The byte that encodes `op`.
pub open spec fn encode(op: OpCode) -> u8 {
    match op {
        OpCode::Unknown => 0,
        OpCode::Return => 1,
        OpCode::Constant => 2,
        OpCode::Negate => 3,
        OpCode::Add => 4,
        OpCode::Subtract => 5,
        OpCode::Multiply => 6,
        OpCode::Divide => 7,
        OpCode::Nil => 8,
        OpCode::True => 9,
        OpCode::False => 10,
    }
}

/// The number of bytes of an instruction of operation `op`: the operation
/// byte, and for a constant-load the byte of its pool index.
pub open spec fn width(op: OpCode) -> nat {
    match op {
        OpCode::Constant => 2,
        _ => 1,
    }
}

/// Every operation is decoded from the byte that encodes it.
pub proof fn lemma_decode_encode(op: OpCode)
    ensures
        decode(encode(op)) == op,
{
}

impl OpCode {
    /// The operation that `i` encodes; `Unknown` for a byte that encodes
    /// none.
    pub fn from_int(i: u8) -> (op: OpCode)
        ensures
            op == decode(i),
    {
        match i {
            1 => OpCode::Return,
            2 => OpCode::Constant,
            3 => OpCode::Negate,
            4 => OpCode::Add,
            5 => OpCode::Subtract,
            6 => OpCode::Multiply,
            7 => OpCode::Divide,
            8 => OpCode::Nil,
            9 => OpCode::True,
            10 => OpCode::False,
            _ => OpCode::Unknown,
        }
    }

    /// The byte that encodes the operation.
    pub fn to_byte(self) -> (byte: u8)
        ensures
            byte == encode(self),
    {
        match self {
            OpCode::Unknown => 0,
            OpCode::Return => 1,
            OpCode::Constant => 2,
            OpCode::Negate => 3,
            OpCode::Add => 4,
            OpCode::Subtract => 5,
            OpCode::Multiply => 6,
            OpCode::Divide => 7,
            OpCode::Nil => 8,
            OpCode::True => 9,
            OpCode::False => 10,
        }
    }

    /// The number of bytes of an instruction of this operation.
    pub fn code_length(&self) -> (length: usize)
        ensures
            length == width(*self),
    {
        match *self {
            OpCode::Return => 1,
            OpCode::Constant => 2,
            OpCode::Negate => 1,
            OpCode::Unknown => 1,
            OpCode::Add => 1,
            OpCode::Subtract => 1,
            OpCode::Multiply => 1,
            OpCode::Divide => 1,
            OpCode::Nil => 1,
            OpCode::True => 1,
            OpCode::False => 1,
        }
    }
}

impl From<OpCode> for u8 {
    /// The byte that encodes `op`.
    fn from(op: OpCode) -> (byte: u8) {
        op.to_byte()
    }
}

impl vstd::std_specs::convert::FromSpecImpl<OpCode> for u8 {
    open spec fn obeys_from_spec() -> bool {
        true
    }

    open spec fn from_spec(op: OpCode) -> u8 {
        encode(op)
    }
}

/// What a chunk holds.
pub struct ChunkView {
    pub code: Seq<u8>,
    pub lines: Seq<u32>,
    pub constants: Seq<Value>,
}

impl ChunkView {
    /// The chunk with one more byte, which comes from line `line`.
    pub open spec fn written(self, byte: u8, line: u32) -> ChunkView {
        ChunkView { code: self.code.push(byte), lines: self.lines.push(line), ..self }
    }

    /// The chunk with one more constant.
    pub open spec fn with_constant(self, value: Value) -> ChunkView {
        ChunkView { constants: self.constants.push(value), ..self }
    }

    /// A chunk without bytes or constants.
    pub open spec fn empty() -> ChunkView {
        ChunkView { code: Seq::empty(), lines: Seq::empty(), constants: Seq::empty() }
    }
}

/// A compiled program: the bytes of its instructions, for each byte the
/// source line it comes from, and the constants that the instructions
/// refer to by index.
pub struct Chunk {
    pub code: Vec<u8>,
    pub lines: Vec<u32>,
    pub constants: ValueArray,
}

impl View for Chunk {
    type V = ChunkView;

    open spec fn view(&self) -> ChunkView {
        ChunkView { code: self.code@, lines: self.lines@, constants: self.constants@ }
    }
}

impl Clone for Chunk {
    fn clone(&self) -> (copy: Chunk)
        ensures
            copy@ == self@,
    {
        let copy = Chunk {
            code: self.code.clone(),
            lines: self.lines.clone(),
            constants: self.constants.clone(),
        };
        assert(copy.code@ =~= self.code@);
        assert(copy.lines@ =~= self.lines@);
        assert(copy.constants@ =~= self.constants@);
        copy
    }
}

/// Where the instruction that begins at `offset` ends: after as many bytes
/// as its operation takes, or at the end of the code if that comes first.
pub open spec fn instruction_end(code: Seq<u8>, offset: int) -> int {
    if offset + width(decode(code[offset])) <= code.len() {
        offset + width(decode(code[offset]))
    } else {
        code.len() as int
    }
}

/// One decoded instruction: where it begins and the bytes it is made of.
pub struct Instruction {
    pub offset: int,
    pub bytes: Seq<u8>,
}

/// The instructions of `code` from `offset` on, in order.
pub open spec fn instructions(code: Seq<u8>, offset: int) -> Seq<Instruction>
    decreases code.len() - offset,
{
    if 0 <= offset < code.len() {
        seq![
            Instruction { offset, bytes: code.subrange(offset, instruction_end(code, offset)) },
        ] + instructions(code, instruction_end(code, offset))
    } else {
        Seq::empty()
    }
}

/// The bytes of `instructions`, one instruction after the other.
pub open spec fn bytes_of(instructions: Seq<Instruction>) -> Seq<u8>
    decreases instructions.len(),
{
    if instructions.len() == 0 {
        Seq::empty()
    } else {
        instructions[0].bytes + bytes_of(instructions.subrange(1, instructions.len() as int))
    }
}

/// Decoding loses and adds nothing: every instruction has a byte at least,
/// and the instructions from `offset` on, one after the other, are the
/// code from `offset` on.
pub proof fn lemma_instructions_cover(code: Seq<u8>, offset: int)
    requires
        0 <= offset <= code.len(),
    ensures
        forall|i: int|
            0 <= i < instructions(code, offset).len() ==> (#[trigger] instructions(
                code,
                offset,
            )[i]).bytes.len() > 0,
        bytes_of(instructions(code, offset)) == code.subrange(offset, code.len() as int),
    decreases code.len() - offset,
{
    if offset < code.len() {
        let end = instruction_end(code, offset);
        lemma_instructions_cover(code, end);
        let all = instructions(code, offset);
        let rest = instructions(code, end);
        assert(all.subrange(1, all.len() as int) =~= rest);
        assert forall|i: int| 0 <= i < all.len() implies (#[trigger] all[i]).bytes.len() > 0 by {
            if i > 0 {
                assert(all[i] == rest[i - 1]);
            }
        }
        assert(code.subrange(offset, end) + code.subrange(end, code.len() as int)
            =~= code.subrange(offset, code.len() as int));
    } else {
        assert(code.subrange(offset, code.len() as int) =~= Seq::<u8>::empty());
    }
}

/// A cursor over the instructions of a chunk.
pub struct ChunkCodeIterator<'a> {
    chunk: &'a Chunk,
    offset: usize,
}

impl<'a> ChunkCodeIterator<'a> {
    /// The code that is decoded.
    pub closed spec fn code(&self) -> Seq<u8> {
        self.chunk.code@
    }

    /// Where the next instruction begins.
    pub closed spec fn offset(&self) -> int {
        self.offset as int
    }

    /// The invariant of the cursor: it stands inside the code or at its end.
    pub closed spec fn well_formed(&self) -> bool {
        self.offset <= self.chunk.code.len()
    }

    /// Decodes the next instruction: where it begins and its bytes. The
    /// cursor moves past it. At the end of the code there is none.
    pub fn next(&mut self) -> (item: Option<(usize, &'a [u8])>)
        requires
            old(self).well_formed(),
        ensures
            final(self).well_formed(),
            final(self).code() == old(self).code(),
            match item {
                Some((offset, bytes)) => {
                    &&& old(self).offset() < old(self).code().len()
                    &&& offset == old(self).offset()
                    &&& offset < final(self).offset() <= old(self).code().len()
                    &&& final(self).offset() == instruction_end(old(self).code(), offset as int)
                    &&& bytes@ == old(self).code().subrange(
                        offset as int,
                        final(self).offset(),
                    )
                    &&& instructions(old(self).code(), old(self).offset()) == seq![
                        Instruction { offset: offset as int, bytes: bytes@ },
                    ] + instructions(final(self).code(), final(self).offset())
                },
                None => {
                    &&& old(self).offset() == old(self).code().len()
                    &&& final(self).offset() == old(self).offset()
                    &&& instructions(old(self).code(), old(self).offset()) == Seq::<
                        Instruction,
                    >::empty()
                },
            },
    {
        let length = self.chunk.code.len();
        if self.offset >= length {
            return None;
        }
        let current_offset = self.offset;
        let current_code = self.chunk.code[self.offset];
        let op_code = OpCode::from_int(current_code);
        let code_length = op_code.code_length();
        let end = if code_length <= length - current_offset {
            current_offset + code_length
        } else {
            length
        };
        let arr = slice_subrange(self.chunk.code.as_slice(), current_offset, end);
        self.offset = end;
        Some((current_offset, arr))
    }
}

/// The name of an operation in a listing.
pub open spec fn mnemonic(op: OpCode) -> Seq<char> {
    match op {
        OpCode::Return => "OP_RETURN"@,
        OpCode::Constant => "OP_CONSTANT"@,
        OpCode::Negate => "OP_NEGATE"@,
        OpCode::Add => "OP_ADD"@,
        OpCode::Subtract => "OP_SUBTRACT"@,
        OpCode::Multiply => "OP_MULTIPLY"@,
        OpCode::Divide => "OP_DIVIDE"@,
        OpCode::Nil => "OP_NIL"@,
        OpCode::True => "OP_TRUE"@,
        OpCode::False => "OP_FALSE"@,
        OpCode::Unknown => "Unknown opcode"@,
    }
}

/// The column of a listing that shows the source line of the byte at
/// `offset`: a mark where the byte before it, the last of the preceding
/// instruction, comes from the same line, and the line's number otherwise.
pub open spec fn line_column(lines: Seq<u32>, offset: int) -> Seq<char> {
    if offset > 0 && lines[offset] == lines[offset - 1] {
        "   | "@
    } else {
        padded(lines[offset] as nat) + " "@
    }
}

/// What a listing shows of the operation itself. For a constant-load that
/// is its name and the pool index, and an opening quote after which the
/// constant is to be shown; for a byte that encodes no operation, the byte.
pub open spec fn operation_text(instruction: Seq<u8>) -> Seq<char> {
    let op = decode(instruction[0]);
    if op == OpCode::Constant {
        if instruction.len() > 1 {
            mnemonic(op) + " "@ + padded(instruction[1] as nat) + " '"@
        } else {
            mnemonic(op)
        }
    } else if op == OpCode::Unknown {
        mnemonic(op) + " ["@ + decimal(instruction[0] as nat) + "]"@
    } else {
        mnemonic(op)
    }
}

/// The constant that an instruction loads, if it is a constant-load whose
/// index the pool has.
pub open spec fn loaded_constant(constants: Seq<Value>, instruction: Seq<u8>) -> Option<Value> {
    if decode(instruction[0]) == OpCode::Constant && instruction.len() > 1 && instruction[1]
        < constants.len() {
        Some(constants[instruction[1] as int])
    } else {
        None
    }
}

/// One line of a listing, as sequences.
pub struct ListingLineView {
    pub text: Seq<char>,
    pub constant: Option<Value>,
}

/// The line of a listing for the instruction `instruction`, which begins at
/// `offset`.
pub open spec fn listed(chunk: ChunkView, offset: int, instruction: Seq<u8>) -> ListingLineView {
    ListingLineView {
        text: padded(offset as nat) + " "@ + line_column(chunk.lines, offset) + operation_text(
            instruction,
        ),
        constant: loaded_constant(chunk.constants, instruction),
    }
}

/// A listing, as sequences.
pub struct ListingView {
    pub title: Seq<char>,
    pub lines: Seq<ListingLineView>,
}

/// The listing of `chunk` under the name `name`: a headline, and one line
/// for each instruction.
pub open spec fn listing_of(chunk: ChunkView, name: Seq<char>) -> ListingView {
    ListingView {
        title: headline(name),
        lines: Seq::new(
            instructions(chunk.code, 0).len(),
            |i: int|
                listed(
                    chunk,
                    instructions(chunk.code, 0)[i].offset,
                    instructions(chunk.code, 0)[i].bytes,
                ),
        ),
    }
}

/// The headline of a listing named `name`.
pub open spec fn headline(name: Seq<char>) -> Seq<char> {
    "== "@ + name + " == "@
}

/// One line of a listing: its text, and the constant to show after the
/// text where the instruction loads one.
pub struct ListingLine {
    pub text: String,
    pub constant: Option<Value>,
}

impl View for ListingLine {
    type V = ListingLineView;

    open spec fn view(&self) -> ListingLineView {
        ListingLineView { text: self.text@, constant: self.constant }
    }
}

/// The instructions of a chunk in readable form.
pub struct Listing {
    pub title: String,
    pub lines: Vec<ListingLine>,
}

impl View for Listing {
    type V = ListingView;

    open spec fn view(&self) -> ListingView {
        ListingView {
            title: self.title@,
            lines: Seq::new(self.lines@.len(), |i: int| self.lines@[i]@),
        }
    }
}

impl Chunk {
    /// The invariant of a chunk: every byte has its line.
    pub open spec fn well_formed(&self) -> bool {
        self.lines@.len() == self.code@.len()
    }

    /// A chunk without bytes or constants.
    pub fn new() -> (chunk: Chunk)
        ensures
            chunk@ == ChunkView::empty(),
            chunk.well_formed(),
    {
        Chunk { code: Vec::new(), constants: Vec::new(), lines: Vec::new() }
    }

    /// A cursor at the first instruction.
    pub fn code_iter(&self) -> (iter: ChunkCodeIterator<'_>)
        ensures
            iter.well_formed(),
            iter.code() == self@.code,
            iter.offset() == 0,
    {
        ChunkCodeIterator { offset: 0, chunk: self }
    }

    /// Appends one byte, which comes from line `line`.
    pub fn write(&mut self, byte: u8, line: u32)
        ensures
            final(self)@ == old(self)@.written(byte, line),
    {
        self.code.push(byte);
        self.lines.push(line);
    }

    /// Appends a constant and returns its index. The index may not fit in
    /// the one byte of an instruction's operand: that is for the caller to
    /// see to.
    pub fn add_constant(&mut self, value: Value) -> (index: usize)
        ensures
            final(self)@ == old(self)@.with_constant(value),
            index == old(self)@.constants.len(),
    {
        let new_index = self.constants.len();
        self.constants.push(value);
        new_index
    }

    /// Lists the instructions under the headline `name`.
    pub fn disassemble_with_iterator(&self, name: &str) -> (listing: Listing)
        requires
            self.well_formed(),
        ensures
            listing@ == listing_of(self@, name@),
    {
        let mut title = String::new();
        title.append("== ");
        title.append(name);
        title.append(" == ");
        assert(title@ =~= headline(name@));
        let mut lines: Vec<ListingLine> = Vec::new();
        let mut iter = self.code_iter();
        let ghost all = instructions(self@.code, 0);
        loop
            invariant
                self.well_formed(),
                iter.well_formed(),
                iter.code() == self@.code,
                all == instructions(self@.code, 0),
                lines@.len() <= all.len(),
                all.subrange(lines@.len() as int, all.len() as int) == instructions(
                    self@.code,
                    iter.offset(),
                ),
                forall|i: int|
                    0 <= i < lines@.len() ==> (#[trigger] lines@[i])@ == listed(
                        self@,
                        all[i].offset,
                        all[i].bytes,
                    ),
            ensures
                lines@.len() == all.len(),
                all == instructions(self@.code, 0),
                forall|i: int|
                    0 <= i < lines@.len() ==> (#[trigger] lines@[i])@ == listed(
                        self@,
                        all[i].offset,
                        all[i].bytes,
                    ),
            decreases self@.code.len() - iter.offset(),
        {
            let ghost done = lines@.len() as int;
            let ghost rest = all.subrange(done, all.len() as int);
            match iter.next() {
                Some((offset, instr)) => {
                    let line = self.disassemble_instruction(offset, instr);
                    lines.push(line);
                    assert(rest.len() > 0);
                    assert(all[done] == rest[0]);
                    assert(all.subrange(done + 1, all.len() as int) =~= rest.subrange(
                        1,
                        rest.len() as int,
                    ));
                    assert(rest.subrange(1, rest.len() as int) =~= instructions(
                        self@.code,
                        iter.offset(),
                    ));
                },
                None => {
                    assert(rest.len() == 0);
                    break ;
                },
            }
        }
        let listing = Listing { title, lines };
        assert(listing@.lines =~= listing_of(self@, name@).lines);
        listing
    }

    /// What a listing shows of a constant-load named `name`.
    fn disassemble_constant(&self, name: &str, instruction: &[u8]) -> (line: ListingLine)
        requires
            instruction@.len() >= 1,
            decode(instruction@[0]) == OpCode::Constant,
            name@ == mnemonic(OpCode::Constant),
        ensures
            line@.text == operation_text(instruction@),
            line@.constant == loaded_constant(self@.constants, instruction@),
    {
        let mut text = String::new();
        text.append(name);
        if instruction.len() < 2 {
            assert(text@ =~= operation_text(instruction@));
            return ListingLine { text, constant: None };
        }
        let constant_idx = instruction[1] as usize;
        text.append(" ");
        append_padded(&mut text, constant_idx);
        text.append(" '");
        assert(text@ =~= operation_text(instruction@));
        let constant = if constant_idx < self.constants.len() {
            Some(self.constants[constant_idx])
        } else {
            None
        };
        ListingLine { text, constant }
    }

    /// The line of a listing for the instruction `instruction`, which
    /// begins at `offset`.
    fn disassemble_instruction(&self, offset: usize, instruction: &[u8]) -> (line: ListingLine)
        requires
            offset < self@.lines.len(),
            instruction@.len() >= 1,
        ensures
            line@ == listed(self@, offset as int, instruction@),
    {
        let mut text = String::new();
        append_padded(&mut text, offset);
        text.append(" ");
        if offset > 0 && self.lines[offset] == self.lines[offset - 1] {
            text.append("   | ");
        } else {
            append_padded(&mut text, self.lines[offset] as usize);
            text.append(" ");
        }
        let ghost head = text@;
        assert(head =~= padded(offset as nat) + " "@ + line_column(self@.lines, offset as int));
        let op_byte = instruction[0];
        let mut constant: Option<Value> = None;
        match OpCode::from_int(op_byte) {
            OpCode::Return => text.append("OP_RETURN"),
            OpCode::Negate => text.append("OP_NEGATE"),
            OpCode::Add => text.append("OP_ADD"),
            OpCode::Subtract => text.append("OP_SUBTRACT"),
            OpCode::Multiply => text.append("OP_MULTIPLY"),
            OpCode::Divide => text.append("OP_DIVIDE"),
            OpCode::Constant => {
                let operation = self.disassemble_constant("OP_CONSTANT", instruction);
                text.append(operation.text.as_str());
                constant = operation.constant;
            },
            OpCode::Nil => text.append("OP_NIL"),
            OpCode::True => text.append("OP_TRUE"),
            OpCode::False => text.append("OP_FALSE"),
            OpCode::Unknown => {
                text.append("Unknown opcode");
                text.append(" [");
                append_decimal(&mut text, op_byte as usize);
                text.append("]");
            },
        }
        assert(text@ =~= head + operation_text(instruction@));
        assert(text@ =~= listed(self@, offset as int, instruction@).text);
        ListingLine { text, constant }
    }
}

} // verus!
