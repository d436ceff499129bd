//! What the code of a chunk does to the depth of the stack, whatever the
//! values are: the ground on which the compiler's output is known to run.
use vstd::prelude::*;
use crate::chunk::ChunkView;
use crate::chunk::OpCode;
use crate::chunk::opcode_byte;
use crate::chunk::opcode_of;
use crate::debug::listable;
use crate::debug::next_offset;
use crate::value::ValueView;
use crate::vm::depth_after_return;
use crate::vm::operands;
use crate::vm::stack_effect;
use crate::vm::width;

verus! {

/// The depth of the stack after the instructions from offset `ip` to the
/// end of `code`, run from `depth`, where none of them is a `RETURN` and
/// none fails for a malformed instruction or for want of operands; `None`
/// otherwise.
pub open spec fn depth_at_end(code: Seq<u8>, constants: nat, ip: int, depth: int) -> Option<int>
    decreases code.len() - ip,
{
    if ip == code.len() {
        Some(depth)
    } else if ip < 0 || ip > code.len() {
        None
    } else {
        match opcode_of(code[ip]) {
            None => None,
            Some(op) => {
                if op == OpCode::RETURN || depth < operands(op) || (op == OpCode::CONSTANT && (ip
                    + 1 >= code.len() || code[ip + 1] >= constants)) {
                    None
                } else {
                    depth_at_end(code, constants, ip + width(op), depth + stack_effect(op))
                }
            },
        }
    }
}

/// `short` is the start of `long`.
pub open spec fn starts<T>(long: Seq<T>, short: Seq<T>) -> bool {
    short.len() <= long.len() && long.subrange(0, short.len() as int) == short
}

/// The code from `from` on is that of one expression and a `RETURN`: run
/// from an empty stack, the instructions before the `RETURN` leave one
/// value, and the `RETURN` is the last byte and the only one.
pub open spec fn expression_program(chunk: ChunkView, from: int) -> bool {
    &&& chunk.wf()
    &&& 0 <= from < chunk.code.len()
    &&& chunk.code.last() == opcode_byte(OpCode::RETURN)
    &&& depth_at_end(chunk.code.drop_last(), chunk.constants.len(), from, 0) == Some(1int)
}

/// A start of a start is a start.
pub proof fn lemma_starts_transitive<T>(a: Seq<T>, b: Seq<T>, c: Seq<T>)
    requires
        starts(b, a),
        starts(c, b),
    ensures
        starts(c, a),
{
    assert(c.subrange(0, a.len() as int) =~= b.subrange(0, a.len() as int));
}

/// A sequence starts itself.
pub proof fn lemma_starts_same<T>(code: Seq<T>)
    ensures
        starts(code, code),
{
    assert(code.subrange(0, code.len() as int) =~= code);
}

/// A sequence starts itself, and what it becomes by one more element.
pub proof fn lemma_starts_push<T>(code: Seq<T>, byte: T)
    ensures
        starts(code.push(byte), code),
        starts(code, code),
{
    assert(code.push(byte).subrange(0, code.len() as int) =~= code);
    assert(code.subrange(0, code.len() as int) =~= code);
}

/// More constants do not change what the code does to the depth.
pub proof fn lemma_depth_more_constants(
    code: Seq<u8>,
    constants: nat,
    more: nat,
    ip: int,
    depth: int,
)
    requires
        constants <= more,
        depth_at_end(code, constants, ip, depth) is Some,
    ensures
        depth_at_end(code, more, ip, depth) == depth_at_end(code, constants, ip, depth),
    decreases code.len() - ip,
{
    if ip != code.len() {
        let op = opcode_of(code[ip]).unwrap();
        lemma_depth_more_constants(
            code,
            constants,
            more,
            ip + width(op),
            depth + stack_effect(op),
        );
    }
}

/// Code that runs from a depth runs from a greater one, and ends as much
/// higher.
pub proof fn lemma_depth_raised(code: Seq<u8>, constants: nat, ip: int, depth: int, by: int)
    requires
        0 <= by,
        depth_at_end(code, constants, ip, depth) is Some,
    ensures
        depth_at_end(code, constants, ip, depth + by) == Some(
            depth_at_end(code, constants, ip, depth)->0 + by,
        ),
    decreases code.len() - ip,
{
    if ip != code.len() {
        let op = opcode_of(code[ip]).unwrap();
        lemma_depth_raised(code, constants, ip + width(op), depth + stack_effect(op), by);
    }
}

/// Code that runs to a depth, and more code after it that runs on from
/// that depth, run together.
pub proof fn lemma_depth_joined(
    first: Seq<u8>,
    both: Seq<u8>,
    constants: nat,
    ip: int,
    depth: int,
)
    requires
        starts(both, first),
        depth_at_end(first, constants, ip, depth) is Some,
    ensures
        depth_at_end(both, constants, ip, depth) == depth_at_end(
            both,
            constants,
            first.len() as int,
            depth_at_end(first, constants, ip, depth)->0,
        ),
    decreases first.len() - ip,
{
    if ip != first.len() {
        let op = opcode_of(first[ip]).unwrap();
        assert(both.subrange(0, first.len() as int)[ip] == both[ip]);
        if op == OpCode::CONSTANT {
            assert(both.subrange(0, first.len() as int)[ip + 1] == both[ip + 1]);
        }
        lemma_depth_joined(first, both, constants, ip + width(op), depth + stack_effect(op));
    }
}

/// One more instruction without operand byte, which finds its operands.
pub proof fn lemma_depth_op(code: Seq<u8>, constants: nat, ip: int, depth: int, op: OpCode)
    requires
        depth_at_end(code, constants, ip, depth) is Some,
        op != OpCode::CONSTANT,
        op != OpCode::RETURN,
        operands(op) <= depth_at_end(code, constants, ip, depth)->0,
    ensures
        depth_at_end(code.push(opcode_byte(op)), constants, ip, depth) == Some(
            depth_at_end(code, constants, ip, depth)->0 + stack_effect(op),
        ),
{
    let longer = code.push(opcode_byte(op));
    let reached = depth_at_end(code, constants, ip, depth)->0;
    lemma_starts_push(code, opcode_byte(op));
    lemma_depth_joined(code, longer, constants, ip, depth);
    assert(longer[code.len() as int] == opcode_byte(op));
    assert(depth_at_end(longer, constants, code.len() as int, reached) == Some(
        reached + stack_effect(op),
    )) by {
        reveal_with_fuel(depth_at_end, 2);
    }
}

/// One more `CONSTANT` instruction, whose operand has its constant.
pub proof fn lemma_depth_constant(code: Seq<u8>, constants: nat, ip: int, depth: int, index: u8)
    requires
        depth_at_end(code, constants, ip, depth) is Some,
        depth_at_end(code, constants, ip, depth)->0 >= 0,
        index < constants,
    ensures
        depth_at_end(
            code.push(opcode_byte(OpCode::CONSTANT)).push(index),
            constants,
            ip,
            depth,
        ) == Some(depth_at_end(code, constants, ip, depth)->0 + 1),
{
    let longer = code.push(opcode_byte(OpCode::CONSTANT)).push(index);
    let reached = depth_at_end(code, constants, ip, depth)->0;
    assert(longer.subrange(0, code.len() as int) =~= code);
    lemma_depth_joined(code, longer, constants, ip, depth);
    assert(longer[code.len() as int] == opcode_byte(OpCode::CONSTANT));
    assert(longer[code.len() as int + 1] == index);
    assert(depth_at_end(longer, constants, code.len() as int, reached) == Some(reached + 1)) by {
        reveal_with_fuel(depth_at_end, 2);
    }
}

/// Code that leaves a value, ended by a `RETURN`, runs to that `RETURN`
/// and leaves one value less.
pub proof fn lemma_depth_return(code: Seq<u8>, constants: nat, ip: int, depth: int)
    requires
        depth_at_end(code, constants, ip, depth) is Some,
        depth_at_end(code, constants, ip, depth)->0 >= 1,
    ensures
        depth_after_return(code.push(opcode_byte(OpCode::RETURN)), constants, ip, depth) == Some(
            depth_at_end(code, constants, ip, depth)->0 - 1,
        ),
    decreases code.len() - ip,
{
    let longer = code.push(opcode_byte(OpCode::RETURN));
    if ip != code.len() {
        let op = opcode_of(code[ip]).unwrap();
        assert(longer[ip] == code[ip]);
        if op == OpCode::CONSTANT {
            assert(longer[ip + 1] == code[ip + 1]);
        }
        lemma_depth_return(code, constants, ip + width(op), depth + stack_effect(op));
    } else {
        assert(longer[ip] == opcode_byte(OpCode::RETURN));
    }
}

/// Code that runs to its end, ended by a `RETURN`, can be listed.
pub proof fn lemma_listable_program(chunk: ChunkView, ip: int, depth: int)
    requires
        chunk.wf(),
        chunk.code.len() > 0,
        chunk.code.last() == opcode_byte(OpCode::RETURN),
        depth_at_end(chunk.code.drop_last(), chunk.constants.len(), ip, depth) is Some,
    ensures
        listable(chunk, ip),
    decreases chunk.code.len() - ip,
{
    let body = chunk.code.drop_last();
    if ip != body.len() {
        let op = opcode_of(body[ip]).unwrap();
        assert(chunk.code[ip] == body[ip]);
        if op == OpCode::CONSTANT {
            assert(chunk.code[ip + 1] == body[ip + 1]);
        }
        lemma_listable_program(chunk, ip + width(op), depth + stack_effect(op));
    } else {
        assert(chunk.code[ip] == opcode_byte(OpCode::RETURN));
        assert(listable(chunk, ip + 1));
    }
}

/// A chunk that could be listed can still be listed after it has grown by
/// code that can be listed.
pub proof fn lemma_listable_grown(before: ChunkView, after: ChunkView, offset: int)
    requires
        listable(before, offset),
        0 <= offset <= before.code.len(),
        starts(after.code, before.code),
        before.constants.len() <= after.constants.len(),
        after.wf(),
        listable(after, before.code.len() as int),
    ensures
        listable(after, offset),
    decreases before.code.len() - offset,
{
    if offset < before.code.len() {
        assert(after.code.subrange(0, before.code.len() as int)[offset] == after.code[offset]);
        if opcode_of(before.code[offset]) == Some(OpCode::CONSTANT) {
            assert(after.code.subrange(0, before.code.len() as int)[offset + 1]
                == after.code[offset + 1]);
        }
        lemma_listable_grown(before, after, next_offset(before, offset));
    }
}

/// The chunk `after` is `before` with more written to it. Nothing that
/// was there has changed: the code, the lines and the constants of `before`
/// start those of `after`. The constants are 256 at most, unless there were
/// more before and none was added. What was added to the code is whole
/// instructions, each constant instruction with its operand and the
/// constant that it names.
pub open spec fn grown(after: ChunkView, before: ChunkView) -> bool {
    &&& starts(after.code, before.code)
    &&& starts(after.lines, before.lines)
    &&& starts(after.constants, before.constants)
    &&& (after.constants.len() == before.constants.len() || after.constants.len() <= 256)
    &&& listable(after, before.code.len() as int)
}

/// A chunk with a line for every byte is itself with nothing more written
/// to it.
pub proof fn lemma_grown_same(chunk: ChunkView)
    requires
        chunk.wf(),
    ensures
        grown(chunk, chunk),
{
    lemma_starts_same(chunk.code);
    lemma_starts_same(chunk.lines);
    lemma_starts_same(chunk.constants);
}

/// More written after more written is more written.
pub proof fn lemma_grown_transitive(first: ChunkView, second: ChunkView, third: ChunkView)
    requires
        grown(second, first),
        grown(third, second),
    ensures
        grown(third, first),
{
    lemma_starts_transitive(first.code, second.code, third.code);
    lemma_starts_transitive(first.lines, second.lines, third.lines);
    lemma_starts_transitive(first.constants, second.constants, third.constants);
    lemma_listable_wf(third, second.code.len() as int);
    lemma_listable_grown(second, third, first.code.len() as int);
}

/// A chunk that can be listed from an offset within its code has a line
/// for every byte.
pub proof fn lemma_listable_wf(chunk: ChunkView, offset: int)
    requires
        listable(chunk, offset),
    ensures
        chunk.wf(),
        0 <= offset,
{
}

/// One instruction without operand byte, written to a chunk.
pub proof fn lemma_grown_op(chunk: ChunkView, op: OpCode, line: u32)
    requires
        chunk.wf(),
        op != OpCode::CONSTANT,
    ensures
        grown(
            ChunkView {
                code: chunk.code.push(opcode_byte(op)),
                lines: chunk.lines.push(line),
                ..chunk
            },
            chunk,
        ),
{
    let after = ChunkView {
        code: chunk.code.push(opcode_byte(op)),
        lines: chunk.lines.push(line),
        ..chunk
    };
    lemma_starts_push(chunk.code, opcode_byte(op));
    lemma_starts_push(chunk.lines, line);
    lemma_starts_same(chunk.constants);
    assert(after.code[chunk.code.len() as int] == opcode_byte(op));
    assert(listable(after, chunk.code.len() as int)) by {
        reveal_with_fuel(listable, 2);
    }
}

/// One constant instruction, written to a chunk that holds the constant
/// that it names.
pub proof fn lemma_grown_constant(chunk: ChunkView, index: u8, line: u32, second_line: u32)
    requires
        chunk.wf(),
        index < chunk.constants.len(),
    ensures
        grown(
            ChunkView {
                code: chunk.code.push(opcode_byte(OpCode::CONSTANT)).push(index),
                lines: chunk.lines.push(line).push(second_line),
                ..chunk
            },
            chunk,
        ),
{
    let after = ChunkView {
        code: chunk.code.push(opcode_byte(OpCode::CONSTANT)).push(index),
        lines: chunk.lines.push(line).push(second_line),
        ..chunk
    };
    assert(after.code.subrange(0, chunk.code.len() as int) =~= chunk.code);
    assert(after.lines.subrange(0, chunk.lines.len() as int) =~= chunk.lines);
    lemma_starts_same(chunk.constants);
    assert(after.code[chunk.code.len() as int] == opcode_byte(OpCode::CONSTANT));
    assert(after.code[chunk.code.len() as int + 1] == index);
    assert(listable(after, chunk.code.len() as int)) by {
        reveal_with_fuel(listable, 2);
    }
}

/// One more constant, where there were fewer than 256.
pub proof fn lemma_grown_pool(chunk: ChunkView, value: ValueView)
    requires
        chunk.wf(),
        chunk.constants.len() < 256,
    ensures
        grown(ChunkView { constants: chunk.constants.push(value), ..chunk }, chunk),
{
    lemma_starts_same(chunk.code);
    lemma_starts_same(chunk.lines);
    lemma_starts_push(chunk.constants, value);
}

/// An expression's program can be listed from where it starts, and a
/// machine placed there with an empty stack runs it to its `RETURN`, which
/// leaves the stack empty.
pub proof fn lemma_expression_program(chunk: ChunkView, from: int)
    requires
        expression_program(chunk, from),
    ensures
        listable(chunk, from),
        depth_after_return(chunk.code, chunk.constants.len(), from, 0) == Some(0int),
{
    lemma_listable_program(chunk, from, 0);
    lemma_depth_return(chunk.code.drop_last(), chunk.constants.len(), from, 0);
    assert(chunk.code.drop_last().push(opcode_byte(OpCode::RETURN)) =~= chunk.code);
}

} // verus!
