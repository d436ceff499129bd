//! The disassembler: a chunk as text, one instruction per line.
use vstd::prelude::*;
use vstd::string::*;
use crate::chunk::Chunk;
use crate::chunk::ChunkView;
use crate::chunk::OpCode;
use crate::chunk::opcode_of;
use crate::text::decimal;
use crate::text::decimal_text;
use crate::text::Fragment;
use crate::text::fragment_views;
use crate::text::FragmentView;
use crate::text::left_aligned;
use crate::text::left_aligned_text;
use crate::text::right_aligned;
use crate::text::right_aligned_text;
use crate::value::printValue;
use crate::value::shown_value;

verus! {

/// The name an instruction is listed under.
pub open spec fn mnemonic(op: OpCode) -> Seq<char> {
    match op {
        OpCode::CONSTANT => "OP_CONSTANT"@,
        OpCode::NIL => "OP_NIL"@,
        OpCode::TRUE => "OP_TRUE"@,
        OpCode::FALSE => "OP_FALSE"@,
        OpCode::EQUAL => "OP_EQUAL"@,
        OpCode::GREATER => "OP_GREATER"@,
        OpCode::LESS => "OP_LESS"@,
        OpCode::ADD => "OP_ADD"@,
        OpCode::SUBTRACT => "OP_SUBTRACT"@,
        OpCode::MULTIPLY => "OP_MULTIPLY"@,
        OpCode::DIVIDE => "OP_DIVIDE"@,
        OpCode::NOT => "OP_NOT"@,
        OpCode::NEGATE => "OP_NEGATE"@,
        OpCode::RETURN => "OP_RETURN"@,
    }
}

/// The name an instruction is listed under.
pub fn mnemonicText(op: OpCode) -> (name: &'static str)
    ensures
        name@ == mnemonic(op),
{
    match op {
        OpCode::CONSTANT => "OP_CONSTANT",
        OpCode::NIL => "OP_NIL",
        OpCode::TRUE => "OP_TRUE",
        OpCode::FALSE => "OP_FALSE",
        OpCode::EQUAL => "OP_EQUAL",
        OpCode::GREATER => "OP_GREATER",
        OpCode::LESS => "OP_LESS",
        OpCode::ADD => "OP_ADD",
        OpCode::SUBTRACT => "OP_SUBTRACT",
        OpCode::MULTIPLY => "OP_MULTIPLY",
        OpCode::DIVIDE => "OP_DIVIDE",
        OpCode::NOT => "OP_NOT",
        OpCode::NEGATE => "OP_NEGATE",
        OpCode::RETURN => "OP_RETURN",
    }
}

/// The byte at `offset` is an instruction with all it needs: its line, and
/// for `CONSTANT` the operand byte and the constant that it names.
pub open spec fn decodable(chunk: ChunkView, offset: int) -> bool {
    &&& chunk.wf()
    &&& 0 <= offset < chunk.code.len()
    &&& match opcode_of(chunk.code[offset]) {
        None => false,
        Some(OpCode::CONSTANT) => offset + 1 < chunk.code.len() && chunk.code[offset + 1]
            < chunk.constants.len(),
        Some(_) => true,
    }
}

/// The offset of the instruction after the one at `offset`.
pub open spec fn next_offset(chunk: ChunkView, offset: int) -> int {
    if opcode_of(chunk.code[offset]) == Some(OpCode::CONSTANT) {
        offset + 2
    } else {
        offset + 1
    }
}

/// Every instruction from `offset` to the end of the code is decodable.
pub open spec fn listable(chunk: ChunkView, offset: int) -> bool
    decreases chunk.code.len() - offset,
{
    if offset < 0 {
        false
    } else if offset >= chunk.code.len() {
        chunk.wf()
    } else {
        decodable(chunk, offset) && listable(chunk, next_offset(chunk, offset))
    }
}

/// What a line starts with: the offset in four digits, then the source
/// line in a column of four, or a bar where the line is that of the byte
/// before.
pub open spec fn line_start(chunk: ChunkView, offset: int) -> Seq<char> {
    right_aligned(decimal(offset as nat), 4, '0') + " "@ + (if offset > 0 && chunk.lines[offset]
        == chunk.lines[offset - 1] {
        "   | "@
    } else {
        right_aligned(decimal(chunk.lines[offset] as nat), 4, ' ') + " "@
    })
}

/// The listing of the instruction at `offset`. An instruction without
/// operand is one piece of text: the start of the line, the name and a line
/// feed. A constant instruction lists the name in a column of sixteen, the
/// index in a column of four, and the constant between quotes.
pub open spec fn instruction_listing(chunk: ChunkView, offset: int) -> Seq<FragmentView> {
    match opcode_of(chunk.code[offset]) {
        Some(OpCode::CONSTANT) => seq![
            FragmentView::Text(
                line_start(chunk, offset) + left_aligned(mnemonic(OpCode::CONSTANT), 16) + " "@
                    + right_aligned(decimal(chunk.code[offset + 1] as nat), 4, ' ') + " '"@,
            ),
            shown_value(chunk.constants[chunk.code[offset + 1] as int]),
            FragmentView::Text("'\n"@),
        ],
        Some(op) => seq![FragmentView::Text(line_start(chunk, offset) + mnemonic(op) + "\n"@)],
        None => Seq::empty(),
    }
}

/// The listings of all instructions from `offset` on.
pub open spec fn code_listing(chunk: ChunkView, offset: int) -> Seq<FragmentView>
    decreases chunk.code.len() + 1 - offset,
{
    if offset < 0 || offset >= chunk.code.len() {
        Seq::empty()
    } else {
        instruction_listing(chunk, offset) + code_listing(chunk, next_offset(chunk, offset))
    }
}

/// The listing of a chunk: a header with its name, then every instruction.
pub open spec fn chunk_listing(chunk: ChunkView, name: Seq<char>) -> Seq<FragmentView> {
    seq![FragmentView::Text("== "@ + name + " ==\n"@)] + code_listing(chunk, 0)
}

/// Whether the byte at `offset` is an instruction with all it needs.
pub fn isDecodable(chunk: &Chunk, offset: usize) -> (yes: bool)
    ensures
        yes == decodable(chunk@, offset as int),
{
    if chunk.code.len() != chunk.lines.len() || offset >= chunk.code.len() {
        return false;
    }
    match OpCode::from_u8(chunk.code[offset]) {
        None => false,
        Some(OpCode::CONSTANT) => offset + 1 < chunk.code.len() && (chunk.code[offset + 1] as usize)
            < chunk.constants.count(),
        Some(_) => true,
    }
}

/// Whether every instruction from the start of the code is decodable.
pub fn isListable(chunk: &Chunk) -> (yes: bool)
    ensures
        yes == listable(chunk@, 0),
{
    if chunk.code.len() != chunk.lines.len() {
        return false;
    }
    let mut offset: usize = 0;
    while offset < chunk.code.len()
        invariant
            chunk.wf(),
            listable(chunk@, 0) == listable(chunk@, offset as int),
        decreases chunk.code.len() - offset,
    {
        if !isDecodable(chunk, offset) {
            return false;
        }
        offset = match OpCode::from_u8(chunk.code[offset]) {
            Some(OpCode::CONSTANT) => offset + 2,
            _ => offset + 1,
        };
    }
    true
}

/// The start of the line for the instruction at `offset`.
fn lineStart(chunk: &Chunk, offset: usize) -> (text: String)
    requires
        chunk.wf(),
        offset < chunk.code@.len(),
    ensures
        text@ == line_start(chunk@, offset as int),
{
    proof {
        reveal_strlit("0");
        reveal_strlit(" ");
    }
    let digits = decimal_text(offset as u64);
    let mut text = right_aligned_text(digits.as_str(), 4, "0");
    text.append(" ");
    if offset > 0 && chunk.lines[offset] == chunk.lines[offset - 1] {
        text.append("   | ");
    } else {
        let line = decimal_text(chunk.lines[offset] as u64);
        let column = right_aligned_text(line.as_str(), 4, " ");
        text.append(column.as_str());
        text.append(" ");
    }
    assert(text@ =~= line_start(chunk@, offset as int));
    text
}

/// Lists the instruction at `offset` at the end of `out`, and returns the
/// offset of the next instruction.
pub fn disassembleInstruction(chunk: &Chunk, offset: usize, out: &mut Vec<Fragment>) -> (next:
    usize)
    requires
        decodable(chunk@, offset as int),
    ensures
        next == next_offset(chunk@, offset as int),
        offset < next <= offset + 2,
        fragment_views(final(out)@) == fragment_views(old(out)@) + instruction_listing(
            chunk@,
            offset as int,
        ),
{
    // The length of the code fits a `usize`, and so does the next offset.
    let _ = chunk.code.len();
    let start = lineStart(chunk, offset);
    match OpCode::from_u8(chunk.code[offset]) {
        Some(OpCode::CONSTANT) => constantInstruction("OP_CONSTANT", chunk, offset, start, out),
        Some(op) => simpleInstruction(mnemonicText(op), offset, start, out),
        None => offset,
    }
}

/// Lists an instruction without operand: the name, after the start of the
/// line, and a line feed.
fn simpleInstruction(name: &str, offset: usize, start: String, out: &mut Vec<Fragment>) -> (next:
    usize)
    requires
        offset < usize::MAX,
    ensures
        next == offset + 1,
        fragment_views(final(out)@) == fragment_views(old(out)@) + seq![
            FragmentView::Text(start@ + name@ + "\n"@),
        ],
{
    let mut text = start;
    text.append(name);
    text.append("\n");
    out.push(Fragment::Text(text));
    assert(fragment_views(out@) =~= fragment_views(old(out)@) + seq![
        FragmentView::Text(start@ + name@ + "\n"@),
    ]);
    offset + 1
}

/// Lists a constant instruction: the name, the index of the constant, and
/// the constant between quotes.
fn constantInstruction(
    name: &str,
    chunk: &Chunk,
    offset: usize,
    start: String,
    out: &mut Vec<Fragment>,
) -> (next: usize)
    requires
        chunk.wf(),
        offset + 1 < chunk.code@.len(),
        chunk@.code[offset + 1] < chunk@.constants.len(),
    ensures
        next == offset + 2,
        fragment_views(final(out)@) == fragment_views(old(out)@) + seq![
            FragmentView::Text(
                start@ + left_aligned(name@, 16) + " "@ + right_aligned(
                    decimal(chunk@.code[offset + 1] as nat),
                    4,
                    ' ',
                ) + " '"@,
            ),
            shown_value(chunk@.constants[chunk@.code[offset + 1] as int]),
            FragmentView::Text("'\n"@),
        ],
{
    proof {
        reveal_strlit(" ");
    }
    // The length of the code fits a `usize`, and so do the offsets in it.
    let _ = chunk.code.len();
    let constant = chunk.code[offset + 1];
    let mut text = start;
    let column = left_aligned_text(name, 16);
    text.append(column.as_str());
    text.append(" ");
    let digits = decimal_text(constant as u64);
    let index = right_aligned_text(digits.as_str(), 4, " ");
    text.append(index.as_str());
    text.append(" '");
    out.push(Fragment::Text(text));
    out.push(printValue(&chunk.constants.values[constant as usize]));
    out.push(Fragment::Text(String::from_str("'\n")));
    assert(fragment_views(out@) =~= fragment_views(old(out)@) + seq![
        FragmentView::Text(
            start@ + left_aligned(name@, 16) + " "@ + right_aligned(
                decimal(chunk@.code[offset + 1] as nat),
                4,
                ' ',
            ) + " '"@,
        ),
        shown_value(chunk@.constants[chunk@.code[offset + 1] as int]),
        FragmentView::Text("'\n"@),
    ]);
    offset + 2
}

/// Lists a whole chunk at the end of `out`, under a header with `name`.
pub fn disassembleChunk(chunk: &Chunk, name: &str, out: &mut Vec<Fragment>)
    requires
        listable(chunk@, 0),
    ensures
        fragment_views(final(out)@) == fragment_views(old(out)@) + chunk_listing(chunk@, name@),
{
    let mut header = String::from_str("== ");
    header.append(name);
    header.append(" ==\n");
    out.push(Fragment::Text(header));
    assert(fragment_views(out@) =~= fragment_views(old(out)@) + seq![
        FragmentView::Text("== "@ + name@ + " ==\n"@),
    ]);
    let mut offset: usize = 0;
    while offset < chunk.code.len()
        invariant
            listable(chunk@, offset as int),
            fragment_views(out@) + code_listing(chunk@, offset as int) == fragment_views(old(out)@)
                + chunk_listing(chunk@, name@),
        decreases chunk.code.len() - offset,
    {
        let ghost before = fragment_views(out@);
        let ghost here = offset as int;
        offset = disassembleInstruction(chunk, offset, out);
        assert(before + code_listing(chunk@, here) =~= before + instruction_listing(chunk@, here)
            + code_listing(chunk@, offset as int));
    }
    assert(code_listing(chunk@, offset as int) =~= Seq::empty());
    assert(fragment_views(out@) + Seq::<FragmentView>::empty() =~= fragment_views(out@));
}

} // verus!
