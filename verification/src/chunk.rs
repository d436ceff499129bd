//! Chunks of bytecode: the instruction bytes, the source line of each byte,
//! and the constants the instructions refer to.
use vstd::prelude::*;
use crate::value::initValueArray;
use crate::value::Value;
use crate::value::ValueArray;
use crate::value::ValueView;
use crate::value::writeValueArray;

verus! {

/// The instructions, in the order of their byte codes, from 0.
#[derive(Clone, Copy, Debug, PartialEq, Eq, Structural)]
pub enum OpCode {
    CONSTANT,
    NIL,
    TRUE,
    FALSE,
    EQUAL,
    GREATER,
    LESS,
    ADD,
    SUBTRACT,
    MULTIPLY,
    DIVIDE,
    NOT,
    NEGATE,
    RETURN,
}

/// The byte that encodes an instruction.
pub open spec fn opcode_byte(op: OpCode) -> u8 {
    match op {
        OpCode::CONSTANT => 0,
        OpCode::NIL => 1,
        OpCode::TRUE => 2,
        OpCode::FALSE => 3,
        OpCode::EQUAL => 4,
        OpCode::GREATER => 5,
        OpCode::LESS => 6,
        OpCode::ADD => 7,
        OpCode::SUBTRACT => 8,
        OpCode::MULTIPLY => 9,
        OpCode::DIVIDE => 10,
        OpCode::NOT => 11,
        OpCode::NEGATE => 12,
        OpCode::RETURN => 13,
    }
}

/// The instruction that a byte encodes, if it encodes one.
pub open spec fn opcode_of(byte: u8) -> Option<OpCode> {
    if byte == 0 {
        Some(OpCode::CONSTANT)
    } else if byte == 1 {
        Some(OpCode::NIL)
    } else if byte == 2 {
        Some(OpCode::TRUE)
    } else if byte == 3 {
        Some(OpCode::FALSE)
    } else if byte == 4 {
        Some(OpCode::EQUAL)
    } else if byte == 5 {
        Some(OpCode::GREATER)
    } else if byte == 6 {
        Some(OpCode::LESS)
    } else if byte == 7 {
        Some(OpCode::ADD)
    } else if byte == 8 {
        Some(OpCode::SUBTRACT)
    } else if byte == 9 {
        Some(OpCode::MULTIPLY)
    } else if byte == 10 {
        Some(OpCode::DIVIDE)
    } else if byte == 11 {
        Some(OpCode::NOT)
    } else if byte == 12 {
        Some(OpCode::NEGATE)
    } else if byte == 13 {
        Some(OpCode::RETURN)
    } else {
        None
    }
}

impl OpCode {
    /// The byte that encodes this instruction.
    pub fn byte(self) -> (b: u8)
        ensures
            b == opcode_byte(self),
            opcode_of(b) == Some(self),
    {
        match self {
            OpCode::CONSTANT => 0,
            OpCode::NIL => 1,
            OpCode::TRUE => 2,
            OpCode::FALSE => 3,
            OpCode::EQUAL => 4,
            OpCode::GREATER => 5,
            OpCode::LESS => 6,
            OpCode::ADD => 7,
            OpCode::SUBTRACT => 8,
            OpCode::MULTIPLY => 9,
            OpCode::DIVIDE => 10,
            OpCode::NOT => 11,
            OpCode::NEGATE => 12,
            OpCode::RETURN => 13,
        }
    }

    /// Decodes a byte.
    pub fn from_u8(byte: u8) -> (op: Option<OpCode>)
        ensures
            op == opcode_of(byte),
    {
        match byte {
            0 => Some(OpCode::CONSTANT),
            1 => Some(OpCode::NIL),
            2 => Some(OpCode::TRUE),
            3 => Some(OpCode::FALSE),
            4 => Some(OpCode::EQUAL),
            5 => Some(OpCode::GREATER),
            6 => Some(OpCode::LESS),
            7 => Some(OpCode::ADD),
            8 => Some(OpCode::SUBTRACT),
            9 => Some(OpCode::MULTIPLY),
            10 => Some(OpCode::DIVIDE),
            11 => Some(OpCode::NOT),
            12 => Some(OpCode::NEGATE),
            13 => Some(OpCode::RETURN),
            _ => None,
        }
    }
}

/// A program image that only grows.
#[derive(Debug)]
pub struct Chunk {
    pub code: Vec<u8>,
    pub lines: Vec<u32>,
    pub constants: ValueArray,
}

/// What a chunk holds, in contracts.
pub struct ChunkView {
    pub code: Seq<u8>,
    pub lines: Seq<u32>,
    pub constants: Seq<ValueView>,
}

impl View for Chunk {
    type V = ChunkView;

    open spec fn view(&self) -> ChunkView {
        ChunkView { code: self.code@, lines: self.lines@, constants: self.constants@ }
    }
}

impl ChunkView {
    /// Every byte of code has its source line.
    pub open spec fn wf(self) -> bool {
        self.code.len() == self.lines.len()
    }
}

impl Chunk {
    /// Every byte of code has its source line.
    pub open spec fn wf(&self) -> bool {
        self@.wf()
    }
}

/// The chunk of no code, no line and no constant.
pub open spec fn empty_chunk() -> ChunkView {
    ChunkView { code: Seq::empty(), lines: Seq::empty(), constants: Seq::empty() }
}

/// An empty chunk.
pub fn initChunk() -> (chunk: Chunk)
    ensures
        chunk@ == empty_chunk(),
        chunk.wf(),
{
    Chunk { code: Vec::new(), lines: Vec::new(), constants: initValueArray() }
}

/// Appends one byte of code and the source line that produced it.
pub fn writeChunk(chunk: &mut Chunk, byte: u8, line: u32)
    ensures
        final(chunk)@.code == old(chunk)@.code.push(byte),
        final(chunk)@.lines == old(chunk)@.lines.push(line),
        final(chunk)@.constants == old(chunk)@.constants,
        final(chunk).constants == old(chunk).constants,
        old(chunk).wf() ==> final(chunk).wf(),
{
    chunk.code.push(byte);
    chunk.lines.push(line);
}

/// Appends a constant and returns its index.
pub fn addConstant(chunk: &mut Chunk, value: Value) -> (index: usize)
    ensures
        index == old(chunk)@.constants.len(),
        final(chunk)@.constants == old(chunk)@.constants.push(value@),
        final(chunk).constants.values@ == old(chunk).constants.values@.push(value),
        final(chunk)@.code == old(chunk)@.code,
        final(chunk)@.lines == old(chunk)@.lines,
        old(chunk).wf() ==> final(chunk).wf(),
{
    writeValueArray(&mut chunk.constants, value);
    chunk.constants.count() - 1
}

} // verus!
