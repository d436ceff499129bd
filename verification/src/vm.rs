//! The stack machine.
//!
//! The machine runs a chunk one instruction at a time. It decides everything
//! itself but the four arithmetic operations on numbers: where one is due it
//! stops with [`Signal::Arithmetic`], and the caller hands the result to
//! [`supply`]. [`interpret`] does so with the caller's arithmetic, from the
//! source text to the printed value.
//!
//! A machine is well formed where its chunk can be run to a `RETURN` from
//! the instruction at hand: [`checkProgram`] tells, and the compiler's output
//! always can.
use vstd::prelude::*;
use vstd::string::*;
use crate::chunk::Chunk;
use crate::chunk::ChunkView;
use crate::chunk::empty_chunk;
use crate::chunk::initChunk;
use crate::chunk::OpCode;
use crate::chunk::opcode_of;
use crate::compiler::compile;
use crate::compiler::compiled;
use crate::compiler::decodes_numbers;
use crate::compiler::decoding;
use crate::compiler::ParserView;
use crate::debug::disassembleInstruction;
use crate::debug::instruction_listing;
use crate::object::Obj;
use crate::object::takeString;
use crate::program::lemma_expression_program;
use crate::text::decimal;
use crate::text::decimal_text;
use crate::text::Fragment;
use crate::text::fragment_views;
use crate::text::FragmentView;
use crate::value::AS_BOOL;
use crate::value::AS_NUMBER;
use crate::value::is_falsey;
use crate::value::IS_NIL;
use crate::value::negated;
use crate::value::number_gt;
use crate::value::number_lt;
use crate::value::numberGreater;
use crate::value::numberLess;
use crate::value::numberNegate;
use crate::value::printValue;
use crate::value::shown_value;
use crate::value::Value;
use crate::value::value_views;
use crate::value::values_equal;
use crate::value::valuesEqual;
use crate::value::ValueView;

verus! {

/// How interpreting a source text can fail.
#[derive(Clone, Copy, Debug, PartialEq, Eq, Structural)]
pub enum InterpretError {
    COMPILE_ERROR,
    RUNTIME_ERROR,
}

/// The number of values the stack can hold.
pub const STACK_MAX: usize = 256;

/// What can go wrong while a chunk runs.
#[derive(Clone, Copy, Debug, PartialEq, Eq, Structural)]
pub enum Fault {
    /// An operand of a comparison, or of `-`, `*` or `/`, is not a number.
    OperandsMustBeNumbers,
    /// The operand of a negation is not a number.
    OperandMustBeNumber,
    /// The operands of `+` are neither two numbers nor two strings.
    OperandsMustBeTwoNumbersOrTwoStrings,
    /// A push found the stack full.
    StackOverflow,
}

/// A runtime error: what went wrong, and the source line of the instruction
/// that was running.
#[derive(Clone, Copy, Debug, PartialEq, Eq, Structural)]
pub struct RuntimeError {
    pub fault: Fault,
    pub line: u32,
}

/// How one step of the machine ends.
#[derive(Debug)]
pub enum Signal {
    /// An instruction ran; the next one is due.
    Continue,
    /// The instruction at hand is `op`, one of `ADD`, `SUBTRACT`, `MULTIPLY`
    /// and `DIVIDE`, on the numbers `left` and `right`. Nothing was changed:
    /// the machine goes on once the result is supplied.
    Arithmetic { op: OpCode, left: u64, right: u64 },
    /// `RETURN` ran: this is the value to print.
    Return(Value),
    /// The run is over with an error, and the stack was reset.
    Error(RuntimeError),
}

/// A signal, in contracts.
pub enum SignalView {
    Continue,
    Arithmetic { op: OpCode, left: u64, right: u64 },
    Return(ValueView),
    Error(RuntimeError),
}

impl View for Signal {
    type V = SignalView;

    open spec fn view(&self) -> SignalView {
        match self {
            Signal::Continue => SignalView::Continue,
            Signal::Arithmetic { op, left, right } => SignalView::Arithmetic {
                op: *op,
                left: *left,
                right: *right,
            },
            Signal::Return(value) => SignalView::Return(value@),
            Signal::Error(error) => SignalView::Error(*error),
        }
    }
}

/// The machine: the chunk it runs, the offset of the next instruction, and
/// the stack, whose last value is the top.
#[derive(Debug)]
pub struct VM {
    pub chunk: Chunk,
    pub ip: usize,
    pub stack: Vec<Value>,
}

/// A machine, in contracts.
pub struct VMView {
    pub chunk: ChunkView,
    pub ip: int,
    pub stack: Seq<ValueView>,
}

impl View for VM {
    type V = VMView;

    open spec fn view(&self) -> VMView {
        VMView { chunk: self.chunk@, ip: self.ip as int, stack: value_views(self.stack@) }
    }
}

/// How many values an instruction takes from the stack.
pub open spec fn operands(op: OpCode) -> int {
    match op {
        OpCode::CONSTANT | OpCode::NIL | OpCode::TRUE | OpCode::FALSE => 0,
        OpCode::NOT | OpCode::NEGATE | OpCode::RETURN => 1,
        _ => 2,
    }
}

/// By how much an instruction that succeeds changes the depth of the stack.
pub open spec fn stack_effect(op: OpCode) -> int {
    match op {
        OpCode::CONSTANT | OpCode::NIL | OpCode::TRUE | OpCode::FALSE => 1,
        OpCode::NOT | OpCode::NEGATE => 0,
        _ => -1,
    }
}

/// The number of bytes an instruction occupies.
pub open spec fn width(op: OpCode) -> int {
    if op == OpCode::CONSTANT {
        2
    } else {
        1
    }
}

/// The depth at which a run of `code` from offset `ip`, begun with `depth`
/// values on the stack, leaves the stack after its `RETURN`, if no
/// instruction on the way fails. `None` where the run would meet a byte that
/// is no instruction, a constant index without a constant, too few operands,
/// or the end of the code before a `RETURN`.
pub open spec fn depth_after_return(code: Seq<u8>, constants: nat, ip: int, depth: int) -> Option<
    int,
>
    decreases code.len() - ip,
{
    if ip < 0 || ip >= code.len() {
        None
    } else {
        match opcode_of(code[ip]) {
            None => None,
            Some(op) => {
                if depth < operands(op) {
                    None
                } else if op == OpCode::RETURN {
                    Some(depth - 1)
                } else if op == OpCode::CONSTANT && (ip + 1 >= code.len() || code[ip + 1]
                    >= constants) {
                    None
                } else {
                    depth_after_return(code, constants, ip + width(op), depth + stack_effect(op))
                }
            },
        }
    }
}

impl VMView {
    /// The machine can run to its `RETURN` without meeting a malformed
    /// instruction or an empty stack.
    pub open spec fn wf(self) -> bool {
        &&& self.chunk.wf()
        &&& self.stack.len() <= STACK_MAX
        &&& depth_after_return(
            self.chunk.code,
            self.chunk.constants.len(),
            self.ip,
            self.stack.len() as int,
        ) is Some
    }

    /// The machine after the bytes of the instruction at hand were read.
    pub open spec fn fetched(self, bytes: int) -> VMView {
        VMView { ip: self.ip + bytes, ..self }
    }

    /// The top of the stack is `distance` values down from the top.
    pub open spec fn peek(self, distance: int) -> ValueView {
        self.stack[self.stack.len() - 1 - distance]
    }

    /// The machine with the top `count` values replaced by `value`.
    pub open spec fn replaced(self, count: int, value: ValueView) -> VMView {
        VMView { stack: self.stack.take(self.stack.len() - count).push(value), ..self }
    }

    /// The source line of the byte before the next instruction.
    pub open spec fn current_line(self) -> u32 {
        self.chunk.lines[self.ip - 1]
    }

    /// A runtime error: the stack is reset, and the error names the line of
    /// the instruction that was running.
    pub open spec fn failed(self, fault: Fault) -> (VMView, SignalView) {
        (
            VMView { stack: Seq::empty(), ..self },
            SignalView::Error(RuntimeError { fault, line: self.current_line() }),
        )
    }

    /// A push, which fails where the stack is full.
    pub open spec fn pushed(self, value: ValueView) -> (VMView, SignalView) {
        if self.stack.len() >= STACK_MAX {
            self.failed(Fault::StackOverflow)
        } else {
            (VMView { stack: self.stack.push(value), ..self }, SignalView::Continue)
        }
    }

    /// A comparison or an arithmetic operation on the top two values.
    pub open spec fn binary(self, op: OpCode) -> (VMView, SignalView) {
        match (self.peek(1), self.peek(0)) {
            (ValueView::Number(left), ValueView::Number(right)) => {
                if op == OpCode::GREATER {
                    (
                        self.fetched(1).replaced(2, ValueView::Bool(number_gt(left, right))),
                        SignalView::Continue,
                    )
                } else if op == OpCode::LESS {
                    (
                        self.fetched(1).replaced(2, ValueView::Bool(number_lt(left, right))),
                        SignalView::Continue,
                    )
                } else {
                    (self, SignalView::Arithmetic { op, left, right })
                }
            },
            _ => self.fetched(1).failed(Fault::OperandsMustBeNumbers),
        }
    }

    /// One instruction.
    pub open spec fn step(self) -> (VMView, SignalView) {
        match opcode_of(self.chunk.code[self.ip]) {
            Some(OpCode::CONSTANT) => self.fetched(2).pushed(
                self.chunk.constants[self.chunk.code[self.ip + 1] as int],
            ),
            Some(OpCode::NIL) => self.fetched(1).pushed(ValueView::Nil),
            Some(OpCode::TRUE) => self.fetched(1).pushed(ValueView::Bool(true)),
            Some(OpCode::FALSE) => self.fetched(1).pushed(ValueView::Bool(false)),
            Some(OpCode::EQUAL) => (
                self.fetched(1).replaced(
                    2,
                    ValueView::Bool(values_equal(self.peek(1), self.peek(0))),
                ),
                SignalView::Continue,
            ),
            Some(OpCode::ADD) => match (self.peek(1), self.peek(0)) {
                (ValueView::Text(left), ValueView::Text(right)) => (
                    self.fetched(1).replaced(2, ValueView::Text(left + right)),
                    SignalView::Continue,
                ),
                (ValueView::Number(left), ValueView::Number(right)) => (
                    self,
                    SignalView::Arithmetic { op: OpCode::ADD, left, right },
                ),
                _ => self.fetched(1).failed(Fault::OperandsMustBeTwoNumbersOrTwoStrings),
            },
            Some(OpCode::NOT) => (
                self.fetched(1).replaced(1, ValueView::Bool(is_falsey(self.peek(0)))),
                SignalView::Continue,
            ),
            Some(OpCode::NEGATE) => match self.peek(0) {
                ValueView::Number(bits) => (
                    self.fetched(1).replaced(1, ValueView::Number(negated(bits))),
                    SignalView::Continue,
                ),
                _ => self.fetched(1).failed(Fault::OperandMustBeNumber),
            },
            Some(OpCode::RETURN) => (
                VMView { stack: self.stack.drop_last(), ..self.fetched(1) },
                SignalView::Return(self.peek(0)),
            ),
            Some(op) => self.binary(op),
            None => (self, SignalView::Continue),
        }
    }

    /// Steps until one ends otherwise than with `Continue`.
    pub open spec fn run(self) -> (VMView, SignalView)
        decreases self.chunk.code.len() - self.ip,
    {
        let (next, signal) = self.step();
        if signal is Continue && self.ip < next.ip <= self.chunk.code.len() && next.chunk == self.chunk {
            next.run()
        } else {
            (next, signal)
        }
    }

    /// The machine after the result of the arithmetic at hand was supplied.
    pub open spec fn supplied(self, result: u64) -> VMView {
        self.fetched(1).replaced(2, ValueView::Number(result))
    }

    /// What a trace shows before the instruction at hand runs: the stack on
    /// one line, and the listing of the instruction.
    pub open spec fn trace(self) -> Seq<FragmentView> {
        stack_trace(self.stack) + seq![FragmentView::Text("\n"@)] + instruction_listing(
            self.chunk,
            self.ip,
        )
    }

    /// What a traced run writes: the trace of every instruction that the
    /// run comes to, the one it stops at too.
    pub open spec fn traces(self) -> Seq<FragmentView>
        decreases self.chunk.code.len() - self.ip,
    {
        let (next, signal) = self.step();
        if signal is Continue && self.ip < next.ip <= self.chunk.code.len() && next.chunk
            == self.chunk {
            self.trace() + next.traces()
        } else {
            self.trace()
        }
    }

    /// What the traced runs of `finish` write, one after the other.
    pub open spec fn finish_traces(self, results: Seq<u64>) -> Seq<FragmentView>
        decreases results.len(),
    {
        let (stopped, signal) = self.run();
        if signal is Arithmetic && results.len() > 0 {
            self.traces() + stopped.supplied(results[0]).finish_traces(results.drop_first())
        } else {
            self.traces()
        }
    }

    /// Runs the machine, and supplies the `results` in order, one each
    /// time the machine stops for arithmetic, as long as there are any.
    pub open spec fn finish(self, results: Seq<u64>) -> (VMView, SignalView)
        decreases results.len(),
    {
        let (stopped, signal) = self.run();
        if signal is Arithmetic && results.len() > 0 {
            stopped.supplied(results[0]).finish(results.drop_first())
        } else {
            (stopped, signal)
        }
    }
}

/// `ADD`, `SUBTRACT`, `MULTIPLY` or `DIVIDE`.
pub open spec fn is_arithmetic(op: OpCode) -> bool {
    op == OpCode::ADD || op == OpCode::SUBTRACT || op == OpCode::MULTIPLY || op == OpCode::DIVIDE
}

/// `arithmetic` can be called on every arithmetic instruction and any two
/// numbers.
pub open spec fn computes<A: Fn(OpCode, u64, u64) -> u64>(arithmetic: A) -> bool {
    forall|op: OpCode, left: u64, right: u64|
        is_arithmetic(op) ==> #[trigger] call_requires(arithmetic, (op, left, right))
}

/// Each of the `results` is what `arithmetic` can return for the
/// operation that the machine, run from `vm` with the results before it,
/// stops for.
pub open spec fn computed_by<A: Fn(OpCode, u64, u64) -> u64>(
    arithmetic: A,
    vm: VMView,
    results: Seq<u64>,
) -> bool
    decreases results.len(),
{
    results.len() > 0 ==> {
        let (stopped, signal) = vm.run();
        &&& signal matches SignalView::Arithmetic { op, left, right }
        &&& call_ensures(arithmetic, (op, left, right), results[0])
        &&& computed_by(arithmetic, stopped.supplied(results[0]), results.drop_first())
    }
}

/// How a chunk ran, with `arithmetic` to compute and the `results` it
/// gave: to a `RETURN`, whose value is printed on a line of its own, or
/// to a runtime error, which is reported. A traced run reports the trace
/// of every instruction first.
pub open spec fn ran<A: Fn(OpCode, u64, u64) -> u64>(
    arithmetic: A,
    trace: bool,
    chunk: ChunkView,
    results: Seq<u64>,
    result: Result<(), InterpretError>,
    printed: Seq<FragmentView>,
    reported: Seq<FragmentView>,
) -> bool {
    let start = VMView { chunk, ip: 0, stack: Seq::empty() };
    let traced = if trace {
        start.finish_traces(results)
    } else {
        Seq::<FragmentView>::empty()
    };
    &&& computed_by(arithmetic, start, results)
    &&& start.finish(results).0.stack.len() == 0
    &&& match start.finish(results).1 {
        SignalView::Return(value) => {
            &&& result == Ok::<(), InterpretError>(())
            &&& printed == seq![shown_value(value), FragmentView::Text("\n"@)]
            &&& reported == traced
        },
        SignalView::Error(error) => {
            &&& result == Err::<(), InterpretError>(InterpretError::RUNTIME_ERROR)
            &&& printed == Seq::<FragmentView>::empty()
            &&& reported == traced + seq![FragmentView::Text(error_report(error))]
        },
        _ => false,
    }
}

impl VM {
    /// The machine can run to its `RETURN` without meeting a malformed
    /// instruction or an empty stack.
    pub open spec fn wf(&self) -> bool {
        self@.wf()
    }
}


/// A machine at the start of `chunk`, with an empty stack.
pub fn initVM(chunk: Chunk) -> (vm: VM)
    ensures
        vm.chunk == chunk,
        vm@ == (VMView { chunk: chunk@, ip: 0, stack: Seq::empty() }),
{
    let vm = VM { chunk, ip: 0, stack: Vec::new() };
    assert(vm@.stack =~= Seq::empty());
    vm
}

/// Whether a machine started on `chunk` can run to a `RETURN`: every byte
/// of code has its line, every byte met is an instruction, every constant
/// index has its constant, and no instruction finds too few operands.
pub fn checkProgram(chunk: &Chunk) -> (sound: bool)
    ensures
        sound == (VMView { chunk: chunk@, ip: 0, stack: Seq::empty() }).wf(),
{
    if chunk.code.len() != chunk.lines.len() {
        return false;
    }
    let count = chunk.constants.count();
    let mut ip: usize = 0;
    let mut depth: usize = 0;
    while ip < chunk.code.len()
        invariant
            ip <= chunk.code.len(),
            depth <= ip,
            chunk.wf(),
            count == chunk@.constants.len(),
            depth_after_return(chunk@.code, count as nat, 0, 0) == depth_after_return(
                chunk@.code,
                count as nat,
                ip as int,
                depth as int,
            ),
        decreases chunk.code.len() - ip,
    {
        match OpCode::from_u8(chunk.code[ip]) {
            None => {
                return false;
            },
            Some(OpCode::RETURN) => {
                return depth >= 1;
            },
            Some(OpCode::CONSTANT) => {
                if ip + 1 >= chunk.code.len() || chunk.code[ip + 1] as usize >= count {
                    return false;
                }
                ip = ip + 2;
                depth = depth + 1;
            },
            Some(OpCode::NIL) | Some(OpCode::TRUE) | Some(OpCode::FALSE) => {
                ip = ip + 1;
                depth = depth + 1;
            },
            Some(OpCode::NOT) | Some(OpCode::NEGATE) => {
                if depth < 1 {
                    return false;
                }
                ip = ip + 1;
            },
            Some(_) => {
                if depth < 2 {
                    return false;
                }
                ip = ip + 1;
                depth = depth - 1;
            },
        }
    }
    false
}

/// Empties the stack.
pub fn resetStack(vm: &mut VM)
    ensures
        final(vm)@ == (VMView { stack: Seq::empty(), ..old(vm)@ }),
        final(vm).chunk == old(vm).chunk,
        final(vm).ip == old(vm).ip,
        final(vm).stack@.len() == 0,
{
    vm.stack.clear();
    assert(vm@.stack =~= Seq::empty());
}

/// Raises a runtime error: resets the stack and reports the fault with the
/// line of the instruction that was running, the one before `ip`.
pub fn runtimeError(vm: &mut VM, fault: Fault) -> (error: RuntimeError)
    requires
        1 <= old(vm).ip <= old(vm).chunk.lines@.len(),
    ensures
        (final(vm)@, SignalView::Error(error)) == old(vm)@.failed(fault),
        final(vm).chunk == old(vm).chunk,
        final(vm).ip == old(vm).ip,
        final(vm).stack@.len() == 0,
{
    let line = vm.chunk.lines[vm.ip - 1];
    resetStack(vm);
    RuntimeError { fault, line }
}

/// The message of a fault.
pub open spec fn fault_message(fault: Fault) -> Seq<char> {
    match fault {
        Fault::OperandsMustBeNumbers => "Operands must be numbers."@,
        Fault::OperandMustBeNumber => "Operand must be a number."@,
        Fault::OperandsMustBeTwoNumbersOrTwoStrings =>
            "Operands must be two numbers or two strings."@,
        Fault::StackOverflow => "Stack overflow."@,
    }
}

/// The report of a runtime error: the message on one line, the place on
/// the next.
pub open spec fn error_report(error: RuntimeError) -> Seq<char> {
    fault_message(error.fault) + "\n[line "@ + decimal(error.line as nat) + "] in script\n"@
}

impl Fault {
    /// The message of the fault.
    pub fn message(self) -> (text: &'static str)
        ensures
            text@ == fault_message(self),
    {
        match self {
            Fault::OperandsMustBeNumbers => "Operands must be numbers.",
            Fault::OperandMustBeNumber => "Operand must be a number.",
            Fault::OperandsMustBeTwoNumbersOrTwoStrings =>
                "Operands must be two numbers or two strings.",
            Fault::StackOverflow => "Stack overflow.",
        }
    }
}

impl RuntimeError {
    /// The text to write to the diagnostic stream.
    pub fn report(&self) -> (text: String)
        ensures
            text@ == error_report(*self),
    {
        let mut text = String::from_str(self.fault.message());
        text.append("\n[line ");
        let line = decimal_text(self.line as u64);
        text.append(line.as_str());
        text.append("] in script\n");
        text
    }
}

/// Pushes `value`.
pub fn push(vm: &mut VM, value: Value)
    requires
        old(vm).stack@.len() < STACK_MAX,
    ensures
        final(vm)@ == (VMView { stack: old(vm)@.stack.push(value@), ..old(vm)@ }),
        final(vm).chunk == old(vm).chunk,
        final(vm).ip == old(vm).ip,
        final(vm).stack@ == old(vm).stack@.push(value),
{
    vm.stack.push(value);
    assert(vm@.stack =~= old(vm)@.stack.push(value@));
}

/// Takes the top value off the stack.
pub fn pop(vm: &mut VM) -> (value: Value)
    requires
        old(vm).stack@.len() > 0,
    ensures
        value@ == old(vm)@.peek(0),
        final(vm)@ == (VMView { stack: old(vm)@.stack.drop_last(), ..old(vm)@ }),
        final(vm).chunk == old(vm).chunk,
        final(vm).ip == old(vm).ip,
        final(vm).stack@ == old(vm).stack@.drop_last(),
        value == old(vm).stack@.last(),
{
    let value = vm.stack.pop().unwrap();
    assert(vm@.stack =~= old(vm)@.stack.drop_last());
    value
}

/// The value `distance` places below the top.
pub fn peek(vm: &VM, distance: usize) -> (value: &Value)
    requires
        distance < vm.stack@.len(),
    ensures
        value@ == vm@.peek(distance as int),
{
    &vm.stack[vm.stack.len() - distance - 1]
}

/// Whether a value counts as false: `nil` and `false` do.
pub fn isFalsey(value: &Value) -> (yes: bool)
    ensures
        yes == is_falsey(value@),
{
    match AS_BOOL(value) {
        Some(b) => !b,
        None => IS_NIL(value),
    }
}

/// Moves `ip` past one byte of code.
fn advance(vm: &mut VM)
    requires
        old(vm).ip < old(vm).chunk.code@.len(),
    ensures
        final(vm)@ == old(vm)@.fetched(1),
        final(vm).ip == old(vm).ip + 1,
        final(vm).chunk == old(vm).chunk,
        final(vm).stack == old(vm).stack,
{
    // The length of the code fits a `usize`, and so does the next offset.
    let _ = vm.chunk.code.len();
    vm.ip = vm.ip + 1;
}

/// Reads the byte at `ip` and moves past it.
pub fn READ_BYTE(vm: &mut VM) -> (byte: u8)
    requires
        old(vm).ip < old(vm).chunk.code@.len(),
    ensures
        byte == old(vm)@.chunk.code[old(vm)@.ip],
        final(vm)@ == old(vm)@.fetched(1),
        final(vm).chunk == old(vm).chunk,
        final(vm).stack == old(vm).stack,
{
    let byte = vm.chunk.code[vm.ip];
    advance(vm);
    byte
}

/// Reads a constant index at `ip` and returns the constant.
pub fn READ_CONSTANT(vm: &mut VM) -> (constant: &Value)
    requires
        old(vm).ip < old(vm).chunk.code@.len(),
        old(vm)@.chunk.code[old(vm)@.ip] < old(vm)@.chunk.constants.len(),
    ensures
        constant@ == old(vm)@.chunk.constants[old(vm)@.chunk.code[old(vm)@.ip] as int],
        final(vm)@ == old(vm)@.fetched(1),
        final(vm).chunk == old(vm).chunk,
        final(vm).stack == old(vm).stack,
{
    let index = READ_BYTE(vm);
    &vm.chunk.constants.values[index as usize]
}

/// Replaces the top `count` values, one or two, by `value`.
fn replace_top(vm: &mut VM, count: usize, value: Value)
    requires
        1 <= count <= 2,
        count <= old(vm).stack@.len() <= STACK_MAX,
    ensures
        final(vm)@ == old(vm)@.replaced(count as int, value@),
        final(vm).chunk == old(vm).chunk,
        final(vm).ip == old(vm).ip,
        final(vm).stack@.len() == old(vm).stack@.len() - count + 1,
{
    let _ = pop(vm);
    if count == 2 {
        let _ = pop(vm);
    }
    push(vm, value);
    assert(vm@.stack =~= old(vm)@.replaced(count as int, value@).stack);
}

/// Pushes `value` where the stack has room, and fails with a stack
/// overflow where it has none.
fn push_checked(vm: &mut VM, value: Value) -> (signal: Signal)
    requires
        1 <= old(vm).ip <= old(vm).chunk.lines@.len(),
        old(vm).stack@.len() <= STACK_MAX,
    ensures
        (final(vm)@, signal@) == old(vm)@.pushed(value@),
        final(vm).chunk == old(vm).chunk,
        final(vm).ip == old(vm).ip,
{
    if vm.stack.len() >= STACK_MAX {
        Signal::Error(runtimeError(vm, Fault::StackOverflow))
    } else {
        push(vm, value);
        Signal::Continue
    }
}

/// A comparison or an arithmetic operation on the top two values. Operands
/// that are not both numbers are a runtime error. A comparison replaces
/// them by its result; arithmetic is left to the caller.
pub fn binary_op(vm: &mut VM, op: OpCode) -> (signal: Signal)
    requires
        old(vm).chunk.wf(),
        old(vm).ip < old(vm).chunk.code@.len(),
        2 <= old(vm).stack@.len() <= STACK_MAX,
    ensures
        (final(vm)@, signal@) == old(vm)@.binary(op),
        final(vm).chunk == old(vm).chunk,
        final(vm).ip >= old(vm).ip,
{
    match (AS_NUMBER(peek(vm, 1)), AS_NUMBER(peek(vm, 0))) {
        (Some(left), Some(right)) => {
            match op {
                OpCode::GREATER => {
                    advance(vm);
                    replace_top(vm, 2, Value::BOOL(numberGreater(left, right)));
                    Signal::Continue
                },
                OpCode::LESS => {
                    advance(vm);
                    replace_top(vm, 2, Value::BOOL(numberLess(left, right)));
                    Signal::Continue
                },
                _ => Signal::Arithmetic { op, left, right },
            }
        },
        _ => {
            advance(vm);
            Signal::Error(runtimeError(vm, Fault::OperandsMustBeNumbers))
        },
    }
}

/// Adds two values: strings are joined, numbers are left to the caller,
/// and anything else is a runtime error.
fn add_op(vm: &mut VM) -> (signal: Signal)
    requires
        old(vm).wf(),
        old(vm)@.ip < old(vm)@.chunk.code.len(),
        opcode_of(old(vm)@.chunk.code[old(vm)@.ip]) == Some(OpCode::ADD),
    ensures
        (final(vm)@, signal@) == old(vm)@.step(),
        final(vm).chunk == old(vm).chunk,
        final(vm).ip >= old(vm).ip,
{
    if let (Some(left), Some(right)) = (AS_NUMBER(peek(vm, 1)), AS_NUMBER(peek(vm, 0))) {
        return Signal::Arithmetic { op: OpCode::ADD, left, right };
    }
    advance(vm);
    let right = pop(vm);
    let left = pop(vm);
    match (left, right) {
        (Value::OBJ(Obj::STRING(head)), Value::OBJ(Obj::STRING(tail))) => {
            let mut joined = head.s;
            joined.append(tail.str());
            push(vm, Value::OBJ(Obj::STRING(takeString(joined))));
            assert(vm@.stack =~= old(vm)@.fetched(1).replaced(
                2,
                ValueView::Text(head@ + tail@),
            ).stack);
            Signal::Continue
        },
        _ => Signal::Error(runtimeError(vm, Fault::OperandsMustBeTwoNumbersOrTwoStrings)),
    }
}

/// Runs the instruction at `ip`.
pub fn step(vm: &mut VM) -> (signal: Signal)
    requires
        old(vm).wf(),
    ensures
        (final(vm)@, signal@) == old(vm)@.step(),
        final(vm).chunk == old(vm).chunk,
        final(vm).ip >= old(vm).ip,
        signal@ is Continue ==> final(vm).wf() && final(vm).ip > old(vm).ip,
        signal@ is Arithmetic ==> final(vm).wf(),
        signal@ is Return ==> depth_after_return(
            old(vm)@.chunk.code,
            old(vm)@.chunk.constants.len(),
            old(vm)@.ip,
            old(vm)@.stack.len() as int,
        ) == Some(final(vm)@.stack.len() as int),
{
    match OpCode::from_u8(vm.chunk.code[vm.ip]) {
        Some(OpCode::CONSTANT) => {
            advance(vm);
            let constant = READ_CONSTANT(vm).clone();
            push_checked(vm, constant)
        },
        Some(OpCode::NIL) => {
            advance(vm);
            push_checked(vm, Value::NIL)
        },
        Some(OpCode::TRUE) => {
            advance(vm);
            push_checked(vm, Value::BOOL(true))
        },
        Some(OpCode::FALSE) => {
            advance(vm);
            push_checked(vm, Value::BOOL(false))
        },
        Some(OpCode::EQUAL) => {
            advance(vm);
            let result = valuesEqual(peek(vm, 1), peek(vm, 0));
            replace_top(vm, 2, Value::BOOL(result));
            Signal::Continue
        },
        Some(OpCode::ADD) => add_op(vm),
        Some(OpCode::NOT) => {
            advance(vm);
            let result = isFalsey(peek(vm, 0));
            replace_top(vm, 1, Value::BOOL(result));
            Signal::Continue
        },
        Some(OpCode::NEGATE) => {
            advance(vm);
            match AS_NUMBER(peek(vm, 0)) {
                Some(bits) => {
                    replace_top(vm, 1, Value::NUMBER(numberNegate(bits)));
                    Signal::Continue
                },
                None => Signal::Error(runtimeError(vm, Fault::OperandMustBeNumber)),
            }
        },
        Some(OpCode::RETURN) => {
            advance(vm);
            Signal::Return(pop(vm))
        },
        Some(op) => binary_op(vm, op),
        None => Signal::Continue,
    }
}

/// Runs instructions until one asks for arithmetic, returns, or fails.
pub fn run(vm: &mut VM) -> (signal: Signal)
    requires
        old(vm).wf(),
    ensures
        (final(vm)@, signal@) == old(vm)@.run(),
        final(vm).chunk == old(vm).chunk,
        final(vm).ip >= old(vm).ip,
        !(signal@ is Continue),
        signal@ is Arithmetic ==> final(vm).wf() && final(vm)@.step().1 == signal@,
        signal@ is Arithmetic ==> depth_after_return(
            final(vm)@.chunk.code,
            final(vm)@.chunk.constants.len(),
            final(vm)@.ip,
            final(vm)@.stack.len() as int,
        ) == depth_after_return(
            old(vm)@.chunk.code,
            old(vm)@.chunk.constants.len(),
            old(vm)@.ip,
            old(vm)@.stack.len() as int,
        ),
        signal@ is Return ==> depth_after_return(
            old(vm)@.chunk.code,
            old(vm)@.chunk.constants.len(),
            old(vm)@.ip,
            old(vm)@.stack.len() as int,
        ) == Some(final(vm)@.stack.len() as int),
        signal@ is Error ==> final(vm)@.stack.len() == 0,
{
    loop
        invariant
            vm.wf(),
            vm.chunk == old(vm).chunk,
            vm.ip >= old(vm).ip,
            vm@.run() == old(vm)@.run(),
            depth_after_return(
                old(vm)@.chunk.code,
                old(vm)@.chunk.constants.len(),
                old(vm)@.ip,
                old(vm)@.stack.len() as int,
            ) == depth_after_return(
                vm@.chunk.code,
                vm@.chunk.constants.len(),
                vm@.ip,
                vm@.stack.len() as int,
            ),
        decreases vm.chunk.code@.len() - vm.ip,
    {
        let signal = step(vm);
        match signal {
            Signal::Continue => {},
            _ => {
                return signal;
            },
        }
    }
}

/// Runs instructions as `run` does, and writes the trace of each to the
/// end of `out` before it runs.
pub fn runTraced(vm: &mut VM, out: &mut Vec<Fragment>) -> (signal: Signal)
    requires
        old(vm).wf(),
    ensures
        (final(vm)@, signal@) == old(vm)@.run(),
        fragment_views(final(out)@) == fragment_views(old(out)@) + old(vm)@.traces(),
        final(vm).chunk == old(vm).chunk,
        final(vm).ip >= old(vm).ip,
        !(signal@ is Continue),
        signal@ is Arithmetic ==> final(vm).wf() && final(vm)@.step().1 == signal@,
        signal@ is Arithmetic ==> depth_after_return(
            final(vm)@.chunk.code,
            final(vm)@.chunk.constants.len(),
            final(vm)@.ip,
            final(vm)@.stack.len() as int,
        ) == depth_after_return(
            old(vm)@.chunk.code,
            old(vm)@.chunk.constants.len(),
            old(vm)@.ip,
            old(vm)@.stack.len() as int,
        ),
        signal@ is Return ==> depth_after_return(
            old(vm)@.chunk.code,
            old(vm)@.chunk.constants.len(),
            old(vm)@.ip,
            old(vm)@.stack.len() as int,
        ) == Some(final(vm)@.stack.len() as int),
        signal@ is Error ==> final(vm)@.stack.len() == 0,
{
    loop
        invariant
            vm.wf(),
            vm.chunk == old(vm).chunk,
            vm.ip >= old(vm).ip,
            vm@.run() == old(vm)@.run(),
            fragment_views(out@) + vm@.traces() == fragment_views(old(out)@) + old(vm)@.traces(),
            depth_after_return(
                old(vm)@.chunk.code,
                old(vm)@.chunk.constants.len(),
                old(vm)@.ip,
                old(vm)@.stack.len() as int,
            ) == depth_after_return(
                vm@.chunk.code,
                vm@.chunk.constants.len(),
                vm@.ip,
                vm@.stack.len() as int,
            ),
        decreases vm.chunk.code@.len() - vm.ip,
    {
        let ghost before = vm@;
        let ghost written = fragment_views(out@);
        traceInstruction(vm, out);
        let signal = step(vm);
        match signal {
            Signal::Continue => {
                assert(written + before.traces() =~= written + before.trace() + vm@.traces());
            },
            _ => {
                assert(before.traces() == before.trace());
                return signal;
            },
        }
    }
}

/// Hands the machine the result of the arithmetic it stopped for. Where
/// the instruction at hand is no arithmetic on two numbers, nothing
/// changes and the answer is `false`.
pub fn supply(vm: &mut VM, result: u64) -> (accepted: bool)
    requires
        old(vm).wf(),
    ensures
        accepted == (old(vm)@.step().1 is Arithmetic),
        accepted ==> final(vm)@ == old(vm)@.supplied(result) && final(vm).wf(),
        accepted ==> final(vm).ip == old(vm).ip + 1,
        accepted ==> depth_after_return(
            final(vm)@.chunk.code,
            final(vm)@.chunk.constants.len(),
            final(vm)@.ip,
            final(vm)@.stack.len() as int,
        ) == depth_after_return(
            old(vm)@.chunk.code,
            old(vm)@.chunk.constants.len(),
            old(vm)@.ip,
            old(vm)@.stack.len() as int,
        ),
        !accepted ==> final(vm)@ == old(vm)@,
        final(vm).chunk == old(vm).chunk,
{
    let due = match OpCode::from_u8(vm.chunk.code[vm.ip]) {
        Some(OpCode::ADD) | Some(OpCode::SUBTRACT) | Some(OpCode::MULTIPLY) | Some(
            OpCode::DIVIDE,
        ) => AS_NUMBER(peek(vm, 1)).is_some() && AS_NUMBER(peek(vm, 0)).is_some(),
        _ => false,
    };
    if due {
        advance(vm);
        replace_top(vm, 2, Value::NUMBER(result));
    }
    due
}

/// The stack as a trace line shows it: ten spaces, each value between
/// `[ ` and ` ]` from the bottom up, and a line feed.
pub open spec fn stack_trace(stack: Seq<ValueView>) -> Seq<FragmentView>
    decreases stack.len(),
{
    if stack.len() == 0 {
        seq![FragmentView::Text("          "@)]
    } else {
        stack_trace(stack.drop_last()) + seq![
            FragmentView::Text("[ "@),
            shown_value(stack.last()),
            FragmentView::Text(" ]"@),
        ]
    }
}

/// What a trace shows before an instruction runs: the stack, and the
/// listing of the instruction.
pub fn traceInstruction(vm: &VM, out: &mut Vec<Fragment>)
    requires
        vm.wf(),
    ensures
        fragment_views(final(out)@) == fragment_views(old(out)@) + vm@.trace(),
{
    let mut shown = traceStack(vm);
    let ghost stack_line = fragment_views(shown@);
    out.append(&mut shown);
    assert(fragment_views(out@) =~= fragment_views(old(out)@) + stack_line);
    let ghost before = fragment_views(out@);
    let _ = disassembleInstruction(&vm.chunk, vm.ip, out);
    assert(fragment_views(out@) =~= fragment_views(old(out)@) + vm@.trace());
}

/// The trace line of the stack.
pub fn traceStack(vm: &VM) -> (shown: Vec<Fragment>)
    ensures
        fragment_views(shown@) == stack_trace(vm@.stack) + seq![
            FragmentView::Text("\n"@),
        ],
{
    let mut shown: Vec<Fragment> = Vec::new();
    shown.push(Fragment::Text(String::from_str("          ")));
    let mut i: usize = 0;
    assert(vm@.stack.take(0) =~= Seq::empty());
    assert(fragment_views(shown@) =~= stack_trace(vm@.stack.take(0)));
    while i < vm.stack.len()
        invariant
            i <= vm.stack@.len(),
            fragment_views(shown@) == stack_trace(vm@.stack.take(i as int)),
        decreases vm.stack@.len() - i,
    {
        let ghost before = fragment_views(shown@);
        shown.push(Fragment::Text(String::from_str("[ ")));
        shown.push(printValue(&vm.stack[i]));
        shown.push(Fragment::Text(String::from_str(" ]")));
        proof {
            let next = vm@.stack.take(i + 1);
            assert(next.drop_last() =~= vm@.stack.take(i as int));
            assert(next.last() == vm.stack@[i as int]@);
            assert(fragment_views(shown@) =~= before + seq![
                FragmentView::Text("[ "@),
                shown_value(next.last()),
                FragmentView::Text(" ]"@),
            ]);
        }
        i = i + 1;
    }
    assert(vm@.stack.take(i as int) =~= vm@.stack);
    let ghost before = fragment_views(shown@);
    shown.push(Fragment::Text(String::from_str("\n")));
    assert(fragment_views(shown@) =~= before + seq![FragmentView::Text("\n"@)]);
    shown
}


/// What interpreting a text does, given what compiling it `built`. A text
/// that does not compile is a compile error, and the diagnostics are those
/// of the compiler. A text that compiles is run: there are results of
/// `arithmetic` with which its chunk ran as `ran` says, `output` has grown
/// by what was printed and the compiler's diagnostics by what was reported.
pub open spec fn interpreted<A: Fn(OpCode, u64, u64) -> u64>(
    arithmetic: A,
    trace: bool,
    built: ParserView,
    result: Result<(), InterpretError>,
    output_before: Seq<FragmentView>,
    output: Seq<FragmentView>,
    diagnostics: Seq<FragmentView>,
) -> bool {
    if built.had_error {
        &&& result == Err::<(), InterpretError>(InterpretError::COMPILE_ERROR)
        &&& output == output_before
        &&& diagnostics == built.diagnostics
    } else {
        exists|results: Seq<u64>, printed: Seq<FragmentView>, reported: Seq<FragmentView>|
            {
                &&& #[trigger] ran(
                    arithmetic,
                    trace,
                    built.chunk,
                    results,
                    result,
                    printed,
                    reported,
                )
                &&& output == output_before + printed
                &&& diagnostics == built.diagnostics + reported
            }
    }
}

/// One more result, supplied where the results before it left the machine
/// stopped for arithmetic, is followed by a run.
pub proof fn lemma_finish_more(vm: VMView, used: Seq<u64>, result: u64)
    requires
        vm.finish(used).1 is Arithmetic,
    ensures
        vm.finish(used.push(result)) == vm.finish(used).0.supplied(result).run(),
    decreases used.len(),
{
    reveal_with_fuel(VMView::finish, 3);
    let (stopped, signal) = vm.run();
    if used.len() == 0 {
        assert(used.push(result).drop_first() =~= Seq::<u64>::empty());
        assert(used.push(result)[0] == result);
    } else {
        lemma_finish_more(stopped.supplied(used[0]), used.drop_first(), result);
        assert(used.push(result).drop_first() =~= used.drop_first().push(result));
        assert(used.push(result)[0] == used[0]);
    }
}

/// One more result, supplied where the results before it left the machine
/// stopped for arithmetic, is followed by the traces of one more run.
pub proof fn lemma_finish_traces_more(vm: VMView, used: Seq<u64>, result: u64)
    requires
        vm.finish(used).1 is Arithmetic,
    ensures
        vm.finish_traces(used.push(result)) == vm.finish_traces(used) + vm.finish(
            used,
        ).0.supplied(result).traces(),
    decreases used.len(),
{
    reveal_with_fuel(VMView::finish, 3);
    reveal_with_fuel(VMView::finish_traces, 3);
    let (stopped, signal) = vm.run();
    if used.len() == 0 {
        assert(used.push(result).drop_first() =~= Seq::<u64>::empty());
        assert(used.push(result)[0] == result);
    } else {
        let next = stopped.supplied(used[0]);
        lemma_finish_traces_more(next, used.drop_first(), result);
        assert(used.push(result).drop_first() =~= used.drop_first().push(result));
        assert(used.push(result)[0] == used[0]);
        assert(vm.traces() + (next.finish_traces(used.drop_first()) + next.finish(
            used.drop_first(),
        ).0.supplied(result).traces()) =~= vm.traces() + next.finish_traces(used.drop_first())
            + next.finish(used.drop_first()).0.supplied(result).traces());
    }
}

/// One more result, which `arithmetic` returned for the operation that
/// the machine stopped for, is computed like those before it.
pub proof fn lemma_computed_more<A: Fn(OpCode, u64, u64) -> u64>(
    arithmetic: A,
    vm: VMView,
    used: Seq<u64>,
    result: u64,
)
    requires
        computed_by(arithmetic, vm, used),
        vm.finish(used).1 matches SignalView::Arithmetic { op, left, right } && call_ensures(
            arithmetic,
            (op, left, right),
            result,
        ),
    ensures
        computed_by(arithmetic, vm, used.push(result)),
    decreases used.len(),
{
    reveal_with_fuel(VMView::finish, 3);
    reveal_with_fuel(computed_by, 3);
    let (stopped, signal) = vm.run();
    if used.len() == 0 {
        assert(used.push(result).drop_first() =~= Seq::<u64>::empty());
        assert(used.push(result)[0] == result);
    } else {
        lemma_computed_more(arithmetic, stopped.supplied(used[0]), used.drop_first(), result);
        assert(used.push(result).drop_first() =~= used.drop_first().push(result));
        assert(used.push(result)[0] == used[0]);
    }
}

/// Interprets `source`: compiles it into a fresh chunk and runs the chunk.
/// A number's lexeme is read by `decode`, and `arithmetic` computes; the
/// machine does the rest. The value of the expression goes to the end of
/// `output`, on a line of its own. To the end of `diagnostics` goes the one
/// compile error, or the listing of the chunk, then the trace of every
/// instruction before it runs where `trace` asks for it, and the runtime
/// error if there is one.
pub fn interpret<D: Fn(&str) -> u64, A: Fn(OpCode, u64, u64) -> u64>(
    source: &str,
    decode: D,
    arithmetic: A,
    trace: bool,
    output: &mut Vec<Fragment>,
    diagnostics: &mut Vec<Fragment>,
) -> (result: Result<(), InterpretError>)
    requires
        source.spec_bytes().len() < i32::MAX,
        decodes_numbers(decode),
        computes(arithmetic),
    ensures
        interpreted(
            arithmetic,
            trace,
            compiled(
                source.spec_bytes(),
                empty_chunk(),
                fragment_views(old(diagnostics)@),
                decoding(decode),
            ),
            result,
            fragment_views(old(output)@),
            fragment_views(final(output)@),
            fragment_views(final(diagnostics)@),
        ),
{
    let mut chunk = initChunk();
    let ghost built = compiled(
        source.spec_bytes(),
        empty_chunk(),
        fragment_views(old(diagnostics)@),
        decoding(decode),
    );
    if !compile(source, &mut chunk, decode, diagnostics) {
        return Err(InterpretError::COMPILE_ERROR);
    }
    proof {
        lemma_expression_program(chunk@, 0);
    }
    let ghost listed = fragment_views(diagnostics@);
    let mut vm = initVM(chunk);
    let ghost start = vm@;
    let ghost mut used: Seq<u64> = Seq::empty();
    loop
        invariant
            vm.wf(),
            vm@.chunk == start.chunk,
            start == (VMView { chunk: built.chunk, ip: 0, stack: Seq::empty() }),
            listed == built.diagnostics,
            !built.had_error,
            built == compiled(
                source.spec_bytes(),
                empty_chunk(),
                fragment_views(old(diagnostics)@),
                decoding(decode),
            ),
            computes(arithmetic),
            computed_by(arithmetic, start, used),
            start.finish(used) == vm@.run(),
            depth_after_return(
                vm@.chunk.code,
                vm@.chunk.constants.len(),
                vm@.ip,
                vm@.stack.len() as int,
            ) == Some(0int),
            fragment_views(output@) == fragment_views(old(output)@),
            trace ==> fragment_views(diagnostics@) + vm@.traces() == listed + start.finish_traces(
                used,
            ),
            !trace ==> fragment_views(diagnostics@) == listed,
        decreases vm.chunk.code@.len() - vm.ip,
    {
        let signal = if trace {
            runTraced(&mut vm, diagnostics)
        } else {
            run(&mut vm)
        };
        let ghost traced = if trace {
            start.finish_traces(used)
        } else {
            Seq::<FragmentView>::empty()
        };
        assert(fragment_views(diagnostics@) =~= listed + traced);
        match signal {
            Signal::Arithmetic { op, left, right } => {
                let answer = arithmetic(op, left, right);
                let accepted = supply(&mut vm, answer);
                proof {
                    lemma_finish_more(start, used, answer);
                    lemma_finish_traces_more(start, used, answer);
                    lemma_computed_more(arithmetic, start, used, answer);
                    used = used.push(answer);
                    if trace {
                        assert(listed + traced + vm@.traces() =~= listed + (traced + vm@.traces()));
                    }
                }
            },
            Signal::Return(value) => {
                let ghost printed = seq![shown_value(value@), FragmentView::Text("\n"@)];
                output.push(printValue(&value));
                output.push(Fragment::Text(String::from_str("\n")));
                proof {
                    assert(fragment_views(output@) =~= fragment_views(old(output)@) + printed);
                    assert(ran(
                        arithmetic,
                        trace,
                        built.chunk,
                        used,
                        Ok::<(), InterpretError>(()),
                        printed,
                        traced,
                    ));
                }
                return Ok(());
            },
            Signal::Error(error) => {
                let ghost reported = traced + seq![FragmentView::Text(error_report(error))];
                diagnostics.push(Fragment::Text(error.report()));
                proof {
                    assert(fragment_views(diagnostics@) =~= listed + traced + seq![
                        FragmentView::Text(error_report(error)),
                    ]);
                    assert(listed + traced + seq![FragmentView::Text(error_report(error))]
                        =~= listed + reported);
                    assert(fragment_views(old(output)@) + Seq::<FragmentView>::empty()
                        =~= fragment_views(old(output)@));
                    assert(ran(
                        arithmetic,
                        trace,
                        built.chunk,
                        used,
                        Err::<(), InterpretError>(InterpretError::RUNTIME_ERROR),
                        Seq::<FragmentView>::empty(),
                        reported,
                    ));
                }
                return Err(InterpretError::RUNTIME_ERROR);
            },
            Signal::Continue => {},
        }
    }
}

} // verus!
