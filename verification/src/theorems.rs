//! What holds of the compiler's output, of listing it and of running it.
use vstd::prelude::*;
use crate::chunk::ChunkView;
use crate::chunk::empty_chunk;
use crate::chunk::OpCode;
use crate::chunk::opcode_byte;
use crate::chunk::opcode_of;
use crate::compiler::compiled;
use crate::compiler::lemma_compiled;
use crate::compiler::lemma_compiled_reports;
use crate::debug::chunk_listing;
use crate::debug::code_listing;
use crate::debug::decodable;
use crate::debug::instruction_listing;
use crate::debug::line_start;
use crate::debug::listable;
use crate::debug::mnemonic;
use crate::debug::next_offset;
use crate::program::depth_at_end;
use crate::program::expression_program;
use crate::program::lemma_expression_program;
use crate::program::starts;
use crate::text::FragmentView;
use crate::vm::depth_after_return;
use crate::vm::SignalView;
use crate::vm::stack_effect;
use crate::vm::VMView;
use crate::vm::width;

verus! {

/// The byte at `offset` starts an instruction, for a reader that starts
/// at `from` and passes from each instruction to the next.
pub open spec fn starts_instruction(code: Seq<u8>, from: int, offset: int) -> bool
    decreases offset + 1 - from,
{
    if from >= offset || from < 0 || from >= code.len() {
        from == offset
    } else {
        match opcode_of(code[from]) {
            Some(op) => starts_instruction(code, from + width(op), offset),
            None => false,
        }
    }
}

/// In an expression's program every constant instruction names a constant
/// of the chunk, and the only `RETURN` is the last byte.
pub proof fn lemma_program_instructions(chunk: ChunkView, from: int, offset: int)
    requires
        expression_program(chunk, from),
        starts_instruction(chunk.code, from, offset),
        0 <= offset < chunk.code.len(),
    ensures
        opcode_of(chunk.code[offset]) is Some,
        opcode_of(chunk.code[offset]) == Some(OpCode::CONSTANT) ==> offset + 1 < chunk.code.len()
            && chunk.code[offset + 1] < chunk.constants.len(),
        opcode_of(chunk.code[offset]) == Some(OpCode::RETURN) <==> offset == chunk.code.len() - 1,
{
    lemma_instructions_from(chunk, from, 0, offset);
}

/// The `RETURN` that ends an expression's program is an instruction of
/// it, not the operand of one.
pub proof fn lemma_program_return(chunk: ChunkView, from: int)
    requires
        expression_program(chunk, from),
    ensures
        starts_instruction(chunk.code, from, chunk.code.len() - 1),
{
    lemma_return_from(chunk, from, 0);
}

/// What holds of the instructions of a program, from any instruction on
/// the way.
proof fn lemma_instructions_from(chunk: ChunkView, ip: int, depth: int, offset: int)
    requires
        chunk.code.len() > 0,
        chunk.code.last() == opcode_byte(OpCode::RETURN),
        depth_at_end(chunk.code.drop_last(), chunk.constants.len(), ip, depth) is Some,
        starts_instruction(chunk.code, ip, offset),
        0 <= offset < chunk.code.len(),
    ensures
        opcode_of(chunk.code[offset]) is Some,
        opcode_of(chunk.code[offset]) == Some(OpCode::CONSTANT) ==> offset + 1 < chunk.code.len()
            && chunk.code[offset + 1] < chunk.constants.len(),
        opcode_of(chunk.code[offset]) == Some(OpCode::RETURN) <==> offset == chunk.code.len() - 1,
    decreases chunk.code.len() - ip,
{
    let body = chunk.code.drop_last();
    if ip != body.len() {
        let op = opcode_of(body[ip]).unwrap();
        assert(chunk.code[ip] == body[ip]);
        if op == OpCode::CONSTANT {
            assert(chunk.code[ip + 1] == body[ip + 1]);
        }
        if ip < offset {
            lemma_instructions_from(chunk, ip + width(op), depth + stack_effect(op), offset);
        }
    }
}

/// The final `RETURN` is reached from any instruction on the way.
proof fn lemma_return_from(chunk: ChunkView, ip: int, depth: int)
    requires
        chunk.code.len() > 0,
        chunk.code.last() == opcode_byte(OpCode::RETURN),
        depth_at_end(chunk.code.drop_last(), chunk.constants.len(), ip, depth) is Some,
    ensures
        starts_instruction(chunk.code, ip, chunk.code.len() - 1),
    decreases chunk.code.len() - ip,
{
    let body = chunk.code.drop_last();
    if ip != body.len() {
        let op = opcode_of(body[ip]).unwrap();
        assert(chunk.code[ip] == body[ip]);
        lemma_return_from(chunk, ip + width(op), depth + stack_effect(op));
    }
}

/// The listing of an expression's program ends with the line of its
/// `RETURN`.
pub proof fn lemma_listing_ends_with_return(chunk: ChunkView, from: int)
    requires
        expression_program(chunk, from),
    ensures
        code_listing(chunk, from).len() > 0,
        code_listing(chunk, from).last() == FragmentView::Text(
            line_start(chunk, chunk.code.len() - 1) + mnemonic(OpCode::RETURN) + "\n"@,
        ),
{
    lemma_listing_from(chunk, from, 0);
}

/// The listing of a chunk that holds an expression's program and no
/// other code ends with the line of its `RETURN`, under any name.
pub proof fn lemma_chunk_listing_ends_with_return(chunk: ChunkView, name: Seq<char>)
    requires
        expression_program(chunk, 0),
    ensures
        chunk_listing(chunk, name).last() == FragmentView::Text(
            line_start(chunk, chunk.code.len() - 1) + mnemonic(OpCode::RETURN) + "\n"@,
        ),
{
    lemma_listing_ends_with_return(chunk, 0);
}

/// The same, from any instruction on the way.
proof fn lemma_listing_from(chunk: ChunkView, ip: int, depth: int)
    requires
        chunk.code.len() > 0,
        chunk.code.last() == opcode_byte(OpCode::RETURN),
        depth_at_end(chunk.code.drop_last(), chunk.constants.len(), ip, depth) is Some,
    ensures
        code_listing(chunk, ip).len() > 0,
        code_listing(chunk, ip).last() == FragmentView::Text(
            line_start(chunk, chunk.code.len() - 1) + mnemonic(OpCode::RETURN) + "\n"@,
        ),
    decreases chunk.code.len() - ip,
{
    let body = chunk.code.drop_last();
    if ip != body.len() {
        let op = opcode_of(body[ip]).unwrap();
        assert(chunk.code[ip] == body[ip]);
        lemma_listing_from(chunk, ip + width(op), depth + stack_effect(op));
        assert(next_offset(chunk, ip) == ip + width(op));
        assert(code_listing(chunk, ip) == instruction_listing(chunk, ip) + code_listing(
            chunk,
            next_offset(chunk, ip),
        ));
    } else {
        assert(chunk.code[ip] == opcode_byte(OpCode::RETURN));
        assert(code_listing(chunk, ip + 1) =~= Seq::<FragmentView>::empty());
        assert(code_listing(chunk, ip) =~= instruction_listing(chunk, ip));
    }
}

impl VMView {
    /// The depth at which the run from here leaves the stack after its
    /// `RETURN`.
    pub open spec fn depth_ahead(self) -> Option<int> {
        depth_after_return(
            self.chunk.code,
            self.chunk.constants.len(),
            self.ip,
            self.stack.len() as int,
        )
    }
}

/// One instruction keeps the machine well formed and bound for the same
/// depth; a `RETURN` leaves the stack at that depth, and an error leaves it
/// empty.
pub proof fn lemma_step(vm: VMView)
    requires
        vm.wf(),
    ensures
        vm.step().0.chunk == vm.chunk,
        match vm.step().1 {
            SignalView::Continue => vm.step().0.wf() && vm.ip < vm.step().0.ip
                <= vm.chunk.code.len() && vm.step().0.depth_ahead() == vm.depth_ahead(),
            SignalView::Arithmetic { op, left, right } => vm.step().0 == vm && (forall|result: u64|
                (#[trigger] vm.supplied(result)).wf() && vm.supplied(result).depth_ahead()
                    == vm.depth_ahead()),
            SignalView::Return(_) => vm.depth_ahead() == Some(vm.step().0.stack.len() as int),
            SignalView::Error(_) => vm.step().0.stack.len() == 0,
        },
{
}

/// A run keeps the machine bound for the same depth: where it stops for
/// arithmetic the machine is well formed, and so it is after any result; a
/// `RETURN` leaves the stack at that depth, and an error leaves it empty.
pub proof fn lemma_run(vm: VMView)
    requires
        vm.wf(),
    ensures
        vm.run().0.chunk == vm.chunk,
        !(vm.run().1 is Continue),
        match vm.run().1 {
            SignalView::Arithmetic { op, left, right } => vm.run().0.wf() && (forall|result: u64|
                (#[trigger] vm.run().0.supplied(result)).wf() && vm.run().0.supplied(
                    result,
                ).depth_ahead() == vm.depth_ahead()),
            SignalView::Return(_) => vm.depth_ahead() == Some(vm.run().0.stack.len() as int),
            SignalView::Error(_) => vm.run().0.stack.len() == 0,
            SignalView::Continue => true,
        },
    decreases vm.chunk.code.len() - vm.ip,
{
    lemma_step(vm);
    let (next, signal) = vm.step();
    if signal is Continue {
        lemma_run(next);
    }
}

/// Running the program of an expression ends with an empty stack,
/// whatever the arithmetic gives: neither a `RETURN` nor a runtime error
/// leaves a value behind.
pub proof fn lemma_stack_empty_at_the_end(chunk: ChunkView, results: Seq<u64>)
    requires
        expression_program(chunk, 0),
    ensures
        ({
            let (end, signal) = (VMView { chunk, ip: 0, stack: Seq::empty() }).finish(results);
            signal is Return || signal is Error ==> end.stack.len() == 0
        }),
{
    lemma_expression_program(chunk, 0);
    lemma_finish(VMView { chunk, ip: 0, stack: Seq::empty() }, results);
}

/// The same, from any well-formed machine that is bound for an empty
/// stack.
proof fn lemma_finish(vm: VMView, results: Seq<u64>)
    requires
        vm.wf(),
        vm.depth_ahead() == Some(0int),
    ensures
        vm.finish(results).1 is Return || vm.finish(results).1 is Error ==> vm.finish(
            results,
        ).0.stack.len() == 0,
    decreases results.len(),
{
    lemma_run(vm);
    let (stopped, signal) = vm.run();
    if signal is Arithmetic && results.len() > 0 {
        lemma_finish(stopped.supplied(results[0]), results.drop_first());
    }
}

/// Every instruction of a chunk that can be listed has all it needs.
pub proof fn lemma_listable_instructions(chunk: ChunkView, from: int, offset: int)
    requires
        listable(chunk, from),
        starts_instruction(chunk.code, from, offset),
        0 <= offset < chunk.code.len(),
    ensures
        decodable(chunk, offset),
    decreases offset + 1 - from,
{
    if from < offset {
        lemma_listable_instructions(chunk, next_offset(chunk, from), offset);
    }
}

/// Whatever the text, accepted or rejected, compiling it into a chunk
/// that can be listed gives a chunk that can be listed: every byte has its
/// line, every instruction is one, and every constant instruction has its
/// operand, which names a constant of the chunk. The chunk holds 256
/// constants at most if it did before.
pub proof fn lemma_compiled_instructions(
    source: Seq<u8>,
    chunk: ChunkView,
    diagnostics: Seq<FragmentView>,
    decoder: spec_fn(Seq<u8>) -> u64,
    offset: int,
)
    requires
        chunk.wf(),
        listable(chunk, 0),
        starts_instruction(compiled(source, chunk, diagnostics, decoder).chunk.code, 0, offset),
        0 <= offset < compiled(source, chunk, diagnostics, decoder).chunk.code.len(),
    ensures
        ({
            let after = compiled(source, chunk, diagnostics, decoder).chunk;
            &&& after.code.len() == after.lines.len()
            &&& starts(after.code, chunk.code)
            &&& starts(after.lines, chunk.lines)
            &&& starts(after.constants, chunk.constants)
            &&& chunk.constants.len() <= 256 ==> after.constants.len() <= 256
            &&& opcode_of(after.code[offset]) is Some
            &&& opcode_of(after.code[offset]) == Some(OpCode::CONSTANT) ==> offset + 1
                < after.code.len() && after.code[offset + 1] < after.constants.len()
        }),
{
    lemma_compiled(source, chunk, diagnostics, decoder);
    lemma_listable_instructions(
        compiled(source, chunk, diagnostics, decoder).chunk,
        0,
        offset,
    );
}

/// A text that compiles gives a chunk in which every byte has its line,
/// which ends with its only `RETURN`, and whose constant instructions name
/// constants of the chunk, of which there are 256 at most.
pub proof fn lemma_compiled_program(
    source: Seq<u8>,
    diagnostics: Seq<FragmentView>,
    decoder: spec_fn(Seq<u8>) -> u64,
    offset: int,
)
    requires
        !compiled(source, empty_chunk(), diagnostics, decoder).had_error,
        starts_instruction(
            compiled(source, empty_chunk(), diagnostics, decoder).chunk.code,
            0,
            offset,
        ),
        0 <= offset < compiled(source, empty_chunk(), diagnostics, decoder).chunk.code.len(),
    ensures
        ({
            let chunk = compiled(source, empty_chunk(), diagnostics, decoder).chunk;
            &&& chunk.code.len() == chunk.lines.len()
            &&& chunk.constants.len() <= 256
            &&& chunk.code.last() == opcode_byte(OpCode::RETURN)
            &&& starts_instruction(chunk.code, 0, chunk.code.len() - 1)
            &&& opcode_of(chunk.code[offset]) is Some
            &&& opcode_of(chunk.code[offset]) == Some(OpCode::RETURN) <==> offset
                == chunk.code.len() - 1
            &&& opcode_of(chunk.code[offset]) == Some(OpCode::CONSTANT) ==> offset + 1
                < chunk.code.len() && chunk.code[offset + 1] < chunk.constants.len()
        }),
{
    lemma_compiled(source, empty_chunk(), diagnostics, decoder);
    let chunk = compiled(source, empty_chunk(), diagnostics, decoder).chunk;
    lemma_program_instructions(chunk, 0, offset);
    lemma_program_return(chunk, 0);
}

/// Running the chunk of a text that compiles leaves the stack empty at
/// the end, whatever the arithmetic gives.
pub proof fn lemma_compiled_runs_to_an_empty_stack(
    source: Seq<u8>,
    diagnostics: Seq<FragmentView>,
    decoder: spec_fn(Seq<u8>) -> u64,
    results: Seq<u64>,
)
    requires
        !compiled(source, empty_chunk(), diagnostics, decoder).had_error,
    ensures
        ({
            let chunk = compiled(source, empty_chunk(), diagnostics, decoder).chunk;
            let (end, signal) = (VMView { chunk, ip: 0, stack: Seq::empty() }).finish(results);
            signal is Return || signal is Error ==> end.stack.len() == 0
        }),
{
    lemma_compiled(source, empty_chunk(), diagnostics, decoder);
    lemma_stack_empty_at_the_end(
        compiled(source, empty_chunk(), diagnostics, decoder).chunk,
        results,
    );
}

/// What compiling a text that compiles writes to the diagnostics is the
/// listing of the chunk, and its last line is that of the `RETURN`.
pub proof fn lemma_compiled_listing(
    source: Seq<u8>,
    diagnostics: Seq<FragmentView>,
    decoder: spec_fn(Seq<u8>) -> u64,
)
    requires
        !compiled(source, empty_chunk(), diagnostics, decoder).had_error,
    ensures
        ({
            let result = compiled(source, empty_chunk(), diagnostics, decoder);
            &&& result.diagnostics == diagnostics + chunk_listing(result.chunk, "code"@)
            &&& result.diagnostics.last() == FragmentView::Text(
                line_start(result.chunk, result.chunk.code.len() - 1) + mnemonic(OpCode::RETURN)
                    + "\n"@,
            )
        }),
{
    lemma_compiled(source, empty_chunk(), diagnostics, decoder);
    let result = compiled(source, empty_chunk(), diagnostics, decoder);
    lemma_chunk_listing_ends_with_return(result.chunk, "code"@);
    lemma_compiled_reports(source, empty_chunk(), diagnostics, decoder);
}

} // verus!
