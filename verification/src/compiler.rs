//! The compiler: a Pratt parser that emits bytecode while it parses.
//!
//! One expression is compiled into a chunk, followed by a `RETURN`. The
//! parser never computes with numbers: the caller's `decode` turns the
//! lexeme of a number into the bits of its value.
//!
//! [`ParserView`] is the parser as contracts see it, and its functions say
//! what parsing does. Each parsing function here does to the parser what
//! the function of that name does to its view. What holds of every
//! compilation is proved once, of the view: see [`lemma_compiled`],
//! [`lemma_left_associative`] and [`lemma_two_operators`].
use vstd::prelude::*;
use vstd::string::*;
use vstd::utf8::*;
use crate::chunk::addConstant;
use crate::chunk::Chunk;
use crate::chunk::ChunkView;
use crate::chunk::empty_chunk;
use crate::chunk::initChunk;
use crate::chunk::OpCode;
use crate::chunk::opcode_byte;
use crate::chunk::writeChunk;
use crate::debug::chunk_listing;
use crate::debug::disassembleChunk;
use crate::debug::listable;
use crate::object::copyString;
use crate::object::Obj;
use crate::object::ObjTrait;
use crate::program::depth_at_end;
use crate::program::expression_program;
use crate::program::grown;
use crate::program::lemma_depth_constant;
use crate::program::lemma_depth_joined;
use crate::program::lemma_depth_more_constants;
use crate::program::lemma_depth_op;
use crate::program::lemma_depth_raised;
use crate::program::lemma_grown_constant;
use crate::program::lemma_grown_op;
use crate::program::lemma_grown_pool;
use crate::program::lemma_grown_same;
use crate::program::lemma_grown_transitive;
use crate::program::lemma_listable_grown;
use crate::scanner::initScanner;
use crate::scanner::lemma_boundary_after_ascii;
use crate::scanner::lemma_boundary_at_start;
use crate::scanner::lemma_scan_bounds;
use crate::scanner::makeToken;
use crate::scanner::number_lexeme;
use crate::scanner::Scanner;
use crate::scanner::ScannerView;
use crate::scanner::scanToken;
use crate::scanner::string_lexeme;
use crate::scanner::Token;
use crate::scanner::TokenType;
use crate::scanner::TokenView;
use crate::text::Fragment;
use crate::text::fragment_views;
use crate::text::FragmentView;
use crate::text::signed_decimal;
use crate::text::signed_decimal_text;
use crate::value::Value;
use crate::value::ValueView;
use crate::vm::operands;
use crate::vm::stack_effect;

verus! {

/// The precedence levels, from the loosest to the tightest.
#[derive(Clone, Copy, Debug, PartialEq, Eq, Structural)]
pub enum Precedence {
    NONE,
    ASSIGNMENT,  // =
    OR,  // or
    AND,  // and
    EQUALITY,  // == !=
    COMPARISON,  // < > <= >=
    TERM,  // + -
    FACTOR,  // * /
    UNARY,  // ! -
    CALL,  // . ()
    PRIMARY,
}

/// The rank of a precedence level, from 0 for `NONE`.
pub open spec fn level(precedence: Precedence) -> int {
    match precedence {
        Precedence::NONE => 0,
        Precedence::ASSIGNMENT => 1,
        Precedence::OR => 2,
        Precedence::AND => 3,
        Precedence::EQUALITY => 4,
        Precedence::COMPARISON => 5,
        Precedence::TERM => 6,
        Precedence::FACTOR => 7,
        Precedence::UNARY => 8,
        Precedence::CALL => 9,
        Precedence::PRIMARY => 10,
    }
}

/// The precedence level of a rank, if there is one.
pub open spec fn precedence_at(rank: int) -> Option<Precedence> {
    if rank == 0 {
        Some(Precedence::NONE)
    } else if rank == 1 {
        Some(Precedence::ASSIGNMENT)
    } else if rank == 2 {
        Some(Precedence::OR)
    } else if rank == 3 {
        Some(Precedence::AND)
    } else if rank == 4 {
        Some(Precedence::EQUALITY)
    } else if rank == 5 {
        Some(Precedence::COMPARISON)
    } else if rank == 6 {
        Some(Precedence::TERM)
    } else if rank == 7 {
        Some(Precedence::FACTOR)
    } else if rank == 8 {
        Some(Precedence::UNARY)
    } else if rank == 9 {
        Some(Precedence::CALL)
    } else if rank == 10 {
        Some(Precedence::PRIMARY)
    } else {
        None
    }
}

/// The next tighter level; `PRIMARY` is the tightest.
pub open spec fn tighter(precedence: Precedence) -> Precedence {
    match precedence_at(level(precedence) + 1) {
        Some(next) => next,
        None => precedence,
    }
}

impl Precedence {
    /// The rank of the level.
    pub fn rank(self) -> (n: u8)
        ensures
            n == level(self),
    {
        match self {
            Precedence::NONE => 0,
            Precedence::ASSIGNMENT => 1,
            Precedence::OR => 2,
            Precedence::AND => 3,
            Precedence::EQUALITY => 4,
            Precedence::COMPARISON => 5,
            Precedence::TERM => 6,
            Precedence::FACTOR => 7,
            Precedence::UNARY => 8,
            Precedence::CALL => 9,
            Precedence::PRIMARY => 10,
        }
    }

    /// The level of a rank.
    pub fn from_u8(rank: u8) -> (precedence: Option<Precedence>)
        ensures
            precedence == precedence_at(rank as int),
    {
        match rank {
            0 => Some(Precedence::NONE),
            1 => Some(Precedence::ASSIGNMENT),
            2 => Some(Precedence::OR),
            3 => Some(Precedence::AND),
            4 => Some(Precedence::EQUALITY),
            5 => Some(Precedence::COMPARISON),
            6 => Some(Precedence::TERM),
            7 => Some(Precedence::FACTOR),
            8 => Some(Precedence::UNARY),
            9 => Some(Precedence::CALL),
            10 => Some(Precedence::PRIMARY),
            _ => None,
        }
    }
}

/// The parsing functions that a rule can name.
#[derive(Clone, Copy, Debug, PartialEq, Eq, Structural)]
pub enum Handler {
    GROUPING,
    UNARY,
    BINARY,
    NUMBER,
    STRING,
    LITERAL,
}

/// What a token kind means to the parser: how an expression that starts
/// with it is parsed, how one that goes on with it is, and how tightly it
/// binds as an operator between two operands.
#[derive(Clone, Copy, Debug, PartialEq, Eq, Structural)]
pub struct ParseRule {
    pub prefix: Option<Handler>,
    pub infix: Option<Handler>,
    pub precedence: Precedence,
}

/// The rule of each token kind.
pub open spec fn rule_of(kind: TokenType) -> ParseRule {
    match kind {
        TokenType::LEFT_PAREN => ParseRule {
            prefix: Some(Handler::GROUPING),
            infix: None,
            precedence: Precedence::NONE,
        },
        TokenType::MINUS => ParseRule {
            prefix: Some(Handler::UNARY),
            infix: Some(Handler::BINARY),
            precedence: Precedence::TERM,
        },
        TokenType::PLUS => ParseRule {
            prefix: None,
            infix: Some(Handler::BINARY),
            precedence: Precedence::TERM,
        },
        TokenType::SLASH | TokenType::STAR => ParseRule {
            prefix: None,
            infix: Some(Handler::BINARY),
            precedence: Precedence::FACTOR,
        },
        TokenType::BANG => ParseRule {
            prefix: Some(Handler::UNARY),
            infix: None,
            precedence: Precedence::NONE,
        },
        TokenType::BANG_EQUAL | TokenType::EQUAL_EQUAL => ParseRule {
            prefix: None,
            infix: Some(Handler::BINARY),
            precedence: Precedence::EQUALITY,
        },
        TokenType::GREATER | TokenType::GREATER_EQUAL | TokenType::LESS | TokenType::LESS_EQUAL =>
            ParseRule {
            prefix: None,
            infix: Some(Handler::BINARY),
            precedence: Precedence::COMPARISON,
        },
        TokenType::STRING => ParseRule {
            prefix: Some(Handler::STRING),
            infix: None,
            precedence: Precedence::NONE,
        },
        TokenType::NUMBER => ParseRule {
            prefix: Some(Handler::NUMBER),
            infix: None,
            precedence: Precedence::NONE,
        },
        TokenType::FALSE | TokenType::NIL | TokenType::TRUE => ParseRule {
            prefix: Some(Handler::LITERAL),
            infix: None,
            precedence: Precedence::NONE,
        },
        _ => ParseRule { prefix: None, infix: None, precedence: Precedence::NONE },
    }
}

/// The message for a token where an expression should start.
pub open spec fn expect_expression() -> Seq<char> {
    "Expect expression."@
}

/// The message for a group that is not closed.
pub open spec fn expect_right_paren() -> Seq<char> {
    "Expect ')' after expression."@
}

/// The message for a token after the expression.
pub open spec fn expect_end() -> Seq<char> {
    "Expect end of expression."@
}

/// The message for a constant beyond the 256 that one byte can index.
pub open spec fn too_many_constants() -> Seq<char> {
    "Too many constants in one chunk."@
}

/// The line that reports an error at `token`: the line number, the place
/// (`at end` for the end of the text, nothing for an error token, the lexeme
/// between quotes for any other token), and the message.
#[verifier::opaque]
pub open spec fn error_line(token: TokenView, message: Seq<char>) -> Seq<char> {
    "[line "@ + signed_decimal(token.line) + "] Error"@ + (if token.kind == TokenType::EOF {
        " at end"@
    } else if token.kind == TokenType::ERROR {
        Seq::<char>::empty()
    } else {
        " at '"@ + decode_utf8(token.lexeme) + "'"@
    }) + ": "@ + message + "\n"@
}

/// The line that a byte emitted after `token` is charged to.
pub open spec fn line_of(token: TokenView) -> u32 {
    if 0 <= token.line <= u32::MAX {
        token.line as u32
    } else {
        0
    }
}

/// The parser, in contracts.
pub struct ParserView {
    pub scanner: ScannerView,
    pub chunk: ChunkView,
    pub current: TokenView,
    pub previous: TokenView,
    pub had_error: bool,
    pub panic_mode: bool,
    pub diagnostics: Seq<FragmentView>,
}

impl ParserView {
    /// How much is left to parse: the bytes not scanned, and the current
    /// token unless it is the end.
    pub open spec fn measure(self) -> int {
        self.scanner.pending().len() + if self.current.kind == TokenType::EOF {
            0int
        } else {
            1int
        }
    }

    /// The scanner is between two tokens, the chunk has a line for every
    /// byte, both tokens are as the scanner makes them, and errors are
    /// suppressed only after one was reported.
    #[verifier::opaque]
    pub open spec fn wf(self) -> bool {
        &&& self.scanner.wf()
        &&& self.chunk.wf()
        &&& self.current.wf()
        &&& self.previous.wf()
        &&& (self.panic_mode ==> self.had_error)
    }

    /// The scanner is within its text.
    pub open spec fn in_range(self) -> bool {
        0 <= self.scanner.current <= self.scanner.text.len()
    }

    /// The scanner is within its text, the chunk has a line for every
    /// byte, and errors are suppressed only after one was reported.
    pub open spec fn sound(self) -> bool {
        &&& self.in_range()
        &&& self.chunk.wf()
        &&& (self.panic_mode ==> self.had_error)
    }

    /// This parser is `before` after some parsing: no more is left to
    /// parse, an error reported stays reported, and the chunk has only
    /// grown, by whole instructions and by constants up to 256. Until an
    /// error is reported the diagnostics stay as they were.
    pub open spec fn follows(self, before: ParserView) -> bool {
        &&& self.measure() <= before.measure()
        &&& (before.had_error ==> self.had_error)
        &&& grown(self.chunk, before.chunk)
        &&& (!self.had_error ==> self.diagnostics == before.diagnostics)
    }

    /// Where no error was reported, the code emitted since `before` takes
    /// a stack of depth `from` to depth `to`.
    pub open spec fn balanced(self, before: ParserView, from: int, to: int) -> bool {
        !self.had_error ==> depth_at_end(
            self.chunk.code,
            self.chunk.constants.len(),
            before.chunk.code.len() as int,
            from,
        ) == Some(to)
    }

    /// Reports an error at `token`, unless an error was reported before.
    pub open spec fn error_at(self, token: TokenView, message: Seq<char>) -> ParserView {
        if self.panic_mode {
            self
        } else {
            ParserView {
                panic_mode: true,
                had_error: true,
                diagnostics: self.diagnostics.push(
                    FragmentView::Text(error_line(token, message)),
                ),
                ..self
            }
        }
    }

    /// Reports an error at the token just consumed.
    pub open spec fn error(self, message: Seq<char>) -> ParserView {
        self.error_at(self.previous, message)
    }

    /// Reports an error at the token about to be consumed.
    pub open spec fn error_at_current(self, message: Seq<char>) -> ParserView {
        self.error_at(self.current, message)
    }

    /// Moves to the next token. An error token is reported, with its lexeme
    /// as the message, and stays the current token.
    pub open spec fn advance(self) -> ParserView {
        let (token, scanner) = self.scanner.scan();
        let moved = ParserView { scanner, previous: self.current, current: token, ..self };
        if token.kind != TokenType::ERROR {
            moved
        } else {
            moved.error_at_current(decode_utf8(token.lexeme))
        }
    }

    /// Moves past a token of `kind`, or reports `message` at another.
    pub open spec fn consume(self, kind: TokenType, message: Seq<char>) -> ParserView {
        if self.current.kind == kind {
            self.advance()
        } else {
            self.error_at_current(message)
        }
    }

    /// Appends a byte of code, charged to the line of the token just
    /// consumed.
    pub open spec fn emit_byte(self, byte: u8) -> ParserView {
        ParserView {
            chunk: ChunkView {
                code: self.chunk.code.push(byte),
                lines: self.chunk.lines.push(line_of(self.previous)),
                ..self.chunk
            },
            ..self
        }
    }

    /// Appends two bytes of code.
    pub open spec fn emit_bytes(self, byte1: u8, byte2: u8) -> ParserView {
        self.emit_byte(byte1).emit_byte(byte2)
    }

    /// Appends an instruction without operand.
    pub open spec fn emit_op(self, op: OpCode) -> ParserView {
        self.emit_byte(opcode_byte(op))
    }

    /// Adds a constant to the chunk and gives its index. A chunk holds 256
    /// constants at most, as many as one byte can index: one more is an
    /// error, the chunk stays as it is, and the index reads 0.
    pub open spec fn make_constant(self, value: ValueView) -> (ParserView, u8) {
        let index = self.chunk.constants.len();
        if index > u8::MAX {
            (self.error(too_many_constants()), 0u8)
        } else {
            (
                ParserView {
                    chunk: ChunkView { constants: self.chunk.constants.push(value), ..self.chunk },
                    ..self
                },
                index as u8,
            )
        }
    }

    /// Adds a constant and the instruction that loads it.
    pub open spec fn emit_constant(self, value: ValueView) -> ParserView {
        let (added, index) = self.make_constant(value);
        added.emit_bytes(opcode_byte(OpCode::CONSTANT), index)
    }

    /// Ends the chunk with a `RETURN`, and lists it where no error was
    /// reported.
    pub open spec fn end_compiler(self) -> ParserView {
        let ended = self.emit_op(OpCode::RETURN);
        if ended.had_error {
            ended
        } else {
            ParserView {
                diagnostics: ended.diagnostics + chunk_listing(ended.chunk, "code"@),
                ..ended
            }
        }
    }

    /// `false`, `nil` or `true`: the instruction that pushes it.
    pub open spec fn literal(self) -> ParserView {
        match self.previous.kind {
            TokenType::FALSE => self.emit_op(OpCode::FALSE),
            TokenType::NIL => self.emit_op(OpCode::NIL),
            TokenType::TRUE => self.emit_op(OpCode::TRUE),
            _ => self,
        }
    }

    /// A number: the constant that `decoder` reads from the lexeme.
    pub open spec fn number(self, decoder: spec_fn(Seq<u8>) -> u64) -> ParserView {
        self.emit_constant(ValueView::Number(decoder(self.previous.lexeme)))
    }

    /// A string: the constant with the text between the quotes.
    pub open spec fn string(self) -> ParserView {
        self.emit_constant(
            ValueView::Text(
                decode_utf8(self.previous.lexeme.subrange(1, self.previous.lexeme.len() - 1)),
            ),
        )
    }

    /// The instructions of the binary operator `kind`.
    pub open spec fn emit_binary(self, kind: TokenType) -> ParserView {
        match kind {
            TokenType::PLUS => self.emit_op(OpCode::ADD),
            TokenType::MINUS => self.emit_op(OpCode::SUBTRACT),
            TokenType::STAR => self.emit_op(OpCode::MULTIPLY),
            TokenType::SLASH => self.emit_op(OpCode::DIVIDE),
            TokenType::EQUAL_EQUAL => self.emit_op(OpCode::EQUAL),
            TokenType::BANG_EQUAL => self.emit_op(OpCode::EQUAL).emit_op(OpCode::NOT),
            TokenType::LESS => self.emit_op(OpCode::LESS),
            TokenType::LESS_EQUAL => self.emit_op(OpCode::GREATER).emit_op(OpCode::NOT),
            TokenType::GREATER => self.emit_op(OpCode::GREATER),
            TokenType::GREATER_EQUAL => self.emit_op(OpCode::LESS).emit_op(OpCode::NOT),
            _ => self,
        }
    }

    /// The instruction of the unary operator `kind`.
    pub open spec fn emit_unary(self, kind: TokenType) -> ParserView {
        match kind {
            TokenType::BANG => self.emit_op(OpCode::NOT),
            TokenType::MINUS => self.emit_op(OpCode::NEGATE),
            _ => self,
        }
    }

    /// Parses what binds at least as tightly as `precedence`: one token
    /// that starts an expression, parsed by its prefix rule, and then every
    /// operator of that precedence or tighter, each with its right operand.
    /// A first token without prefix rule is an error.
    ///
    /// The tests on the measure are there for the recursion to be well
    /// founded; on a parser that is well formed they hold.
    #[verifier::opaque]
    pub open spec fn parse_precedence(
        self,
        precedence: Precedence,
        decoder: spec_fn(Seq<u8>) -> u64,
    ) -> ParserView
        decreases self.measure(), 3int,
    {
        let started = self.advance();
        match rule_of(started.previous.kind).prefix {
            None => started.error(expect_expression()),
            Some(handler) => {
                if 0 <= started.measure() < self.measure() {
                    let operand = started.apply(handler, decoder);
                    if 0 <= operand.measure() <= started.measure() {
                        operand.infix_loop(precedence, decoder)
                    } else {
                        operand
                    }
                } else {
                    started
                }
            },
        }
    }

    /// While the current token is an operator that binds at least as
    /// tightly as `precedence`: consumes it and parses by its infix rule.
    #[verifier::opaque]
    pub open spec fn infix_loop(
        self,
        precedence: Precedence,
        decoder: spec_fn(Seq<u8>) -> u64,
    ) -> ParserView
        decreases self.measure(), 2int,
    {
        if level(precedence) <= level(rule_of(self.current.kind).precedence) {
            let consumed = self.advance();
            if 0 <= consumed.measure() < self.measure() {
                let applied = match rule_of(consumed.previous.kind).infix {
                    Some(handler) => consumed.apply(handler, decoder),
                    None => consumed,
                };
                if 0 <= applied.measure() <= consumed.measure() {
                    applied.infix_loop(precedence, decoder)
                } else {
                    applied
                }
            } else {
                consumed
            }
        } else {
            self
        }
    }

    /// Parses by the rule that `handler` names.
    #[verifier::opaque]
    pub open spec fn apply(self, handler: Handler, decoder: spec_fn(Seq<u8>) -> u64) -> ParserView
        decreases self.measure(), 5int,
    {
        match handler {
            Handler::GROUPING => self.grouping(decoder),
            Handler::UNARY => self.unary(decoder),
            Handler::BINARY => self.binary(decoder),
            Handler::NUMBER => self.number(decoder),
            Handler::STRING => self.string(),
            Handler::LITERAL => self.literal(),
        }
    }

    /// A group, whose `(` was consumed: an expression, then `)`.
    #[verifier::opaque]
    pub open spec fn grouping(self, decoder: spec_fn(Seq<u8>) -> u64) -> ParserView
        decreases self.measure(), 4int,
    {
        self.parse_precedence(Precedence::ASSIGNMENT, decoder).consume(
            TokenType::RIGHT_PAREN,
            expect_right_paren(),
        )
    }

    /// A unary operation, whose operator was consumed: the operand, which
    /// binds as tightly as a unary operator or tighter, then the instruction.
    #[verifier::opaque]
    pub open spec fn unary(self, decoder: spec_fn(Seq<u8>) -> u64) -> ParserView
        decreases self.measure(), 4int,
    {
        self.parse_precedence(Precedence::UNARY, decoder).emit_unary(self.previous.kind)
    }

    /// A binary operation, whose left operand was compiled and whose
    /// operator was consumed: the right operand, which binds tighter than
    /// the operator, then the operator's instructions.
    #[verifier::opaque]
    pub open spec fn binary(self, decoder: spec_fn(Seq<u8>) -> u64) -> ParserView
        decreases self.measure(), 4int,
    {
        self.parse_precedence(
            tighter(rule_of(self.previous.kind).precedence),
            decoder,
        ).emit_binary(self.previous.kind)
    }

    /// An expression: whatever binds as tightly as an assignment or
    /// tighter.
    pub open spec fn expression(self, decoder: spec_fn(Seq<u8>) -> u64) -> ParserView {
        self.parse_precedence(Precedence::ASSIGNMENT, decoder)
    }
}

/// The parser at the start of `source`, about to write to `chunk` and to
/// append to `diagnostics`. Both tokens are an empty `EOF` until the first
/// is read.
pub open spec fn parser_at_start(
    source: Seq<u8>,
    chunk: ChunkView,
    diagnostics: Seq<FragmentView>,
) -> ParserView {
    let eof = TokenView { kind: TokenType::EOF, lexeme: source.subrange(0, 0), line: 1 };
    ParserView {
        scanner: ScannerView { text: source, current: 0, line: 1 },
        chunk,
        current: eof,
        previous: eof,
        had_error: false,
        panic_mode: false,
        diagnostics,
    }
}

/// What compiling `source` into `chunk` leaves behind: one expression, the
/// end of the text, and a `RETURN`.
pub open spec fn compiled(
    source: Seq<u8>,
    chunk: ChunkView,
    diagnostics: Seq<FragmentView>,
    decoder: spec_fn(Seq<u8>) -> u64,
) -> ParserView {
    parser_at_start(source, chunk, diagnostics).advance().expression(decoder).consume(
        TokenType::EOF,
        expect_end(),
    ).end_compiler()
}

/// `decode` can return `bits` for a text with the bytes of `lexeme`.
pub open spec fn decodes_to<F: Fn(&str) -> u64>(decode: F, lexeme: Seq<u8>, bits: u64) -> bool {
    exists|text: &str|
        text.spec_bytes() == lexeme && #[trigger] call_ensures(decode, (text,), bits)
}

/// The value that `decode` gives for a lexeme.
pub open spec fn decoding<F: Fn(&str) -> u64>(decode: F) -> spec_fn(Seq<u8>) -> u64 {
    |lexeme: Seq<u8>| choose|bits: u64| decodes_to(decode, lexeme, bits)
}

/// `decode` can be called on the lexeme of every number, and what it
/// returns depends on the bytes of the lexeme alone.
pub open spec fn decodes_numbers<F: Fn(&str) -> u64>(decode: F) -> bool {
    &&& forall|text: &str|
        number_lexeme(text.spec_bytes()) ==> #[trigger] call_requires(decode, (text,))
    &&& forall|a: &str, b: &str, x: u64, y: u64|
        a.spec_bytes() == b.spec_bytes() && #[trigger] call_ensures(decode, (a,), x)
            && #[trigger] call_ensures(decode, (b,), y) ==> x == y
}

/// What `parse_precedence` does, one step of it written out.
proof fn lemma_parse_precedence(
    parser: ParserView,
    precedence: Precedence,
    decoder: spec_fn(Seq<u8>) -> u64,
)
    ensures
        parser.parse_precedence(precedence, decoder) == ({
            let started = parser.advance();
            match rule_of(started.previous.kind).prefix {
                None => started.error(expect_expression()),
                Some(handler) => {
                    if 0 <= started.measure() < parser.measure() {
                        let operand = started.apply(handler, decoder);
                        if 0 <= operand.measure() <= started.measure() {
                            operand.infix_loop(precedence, decoder)
                        } else {
                            operand
                        }
                    } else {
                        started
                    }
                },
            }
        }),
{
    reveal_with_fuel(ParserView::parse_precedence, 1);
    reveal_with_fuel(ParserView::apply, 1);
    reveal_with_fuel(ParserView::infix_loop, 1);
}

/// What `infix_loop` does, one step of it written out.
proof fn lemma_infix_loop(
    parser: ParserView,
    precedence: Precedence,
    decoder: spec_fn(Seq<u8>) -> u64,
)
    ensures
        parser.infix_loop(precedence, decoder) == (if level(precedence) <= level(
            rule_of(parser.current.kind).precedence,
        ) {
            let consumed = parser.advance();
            if 0 <= consumed.measure() < parser.measure() {
                let applied = match rule_of(consumed.previous.kind).infix {
                    Some(handler) => consumed.apply(handler, decoder),
                    None => consumed,
                };
                if 0 <= applied.measure() <= consumed.measure() {
                    applied.infix_loop(precedence, decoder)
                } else {
                    applied
                }
            } else {
                consumed
            }
        } else {
            parser
        }),
{
    reveal_with_fuel(ParserView::infix_loop, 2);
    reveal_with_fuel(ParserView::apply, 1);
}

/// What `apply` does: the rule that the handler names.
proof fn lemma_apply(parser: ParserView, handler: Handler, decoder: spec_fn(Seq<u8>) -> u64)
    ensures
        parser.apply(handler, decoder) == (match handler {
            Handler::GROUPING => parser.grouping(decoder),
            Handler::UNARY => parser.unary(decoder),
            Handler::BINARY => parser.binary(decoder),
            Handler::NUMBER => parser.number(decoder),
            Handler::STRING => parser.string(),
            Handler::LITERAL => parser.literal(),
        }),
{
    reveal_with_fuel(ParserView::apply, 1);
    reveal_with_fuel(ParserView::grouping, 1);
    reveal_with_fuel(ParserView::unary, 1);
    reveal_with_fuel(ParserView::binary, 1);
}

/// What the three rules that parse an operand do.
proof fn lemma_operand_rules(parser: ParserView, decoder: spec_fn(Seq<u8>) -> u64)
    ensures
        parser.grouping(decoder) == parser.parse_precedence(Precedence::ASSIGNMENT, decoder).consume(
            TokenType::RIGHT_PAREN,
            expect_right_paren(),
        ),
        parser.unary(decoder) == parser.parse_precedence(Precedence::UNARY, decoder).emit_unary(
            parser.previous.kind,
        ),
        parser.binary(decoder) == parser.parse_precedence(
            tighter(rule_of(parser.previous.kind).precedence),
            decoder,
        ).emit_binary(parser.previous.kind),
{
    reveal_with_fuel(ParserView::grouping, 1);
    reveal_with_fuel(ParserView::unary, 1);
    reveal_with_fuel(ParserView::binary, 1);
    reveal_with_fuel(ParserView::parse_precedence, 1);
}

/// Moving to the next token leaves less to parse, unless the current
/// token is the end, and writes no code.
proof fn lemma_advance_measure(parser: ParserView)
    requires
        parser.in_range(),
    ensures
        parser.advance().in_range(),
        parser.advance().measure() <= parser.measure(),
        parser.current.kind != TokenType::EOF ==> parser.advance().measure() < parser.measure(),
        parser.advance().previous == parser.current,
        parser.advance().chunk == parser.chunk,
{
    lemma_scan_bounds(parser.scanner);
}

/// A parser that goes on after one that went on goes on after the
/// first.
proof fn lemma_follows_transitive(first: ParserView, second: ParserView, third: ParserView)
    requires
        second.follows(first),
        third.follows(second),
    ensures
        third.follows(first),
{
    lemma_grown_transitive(first.chunk, second.chunk, third.chunk);
}

/// A report changes neither the scanner nor the chunk, and after it an
/// error has been reported.
proof fn lemma_error_at(parser: ParserView, token: TokenView, message: Seq<char>)
    requires
        parser.sound(),
    ensures
        parser.error_at(token, message).sound(),
        parser.error_at(token, message).follows(parser),
        parser.error_at(token, message).had_error,
        parser.error_at(token, message).chunk == parser.chunk,
        parser.error_at(token, message).scanner == parser.scanner,
        parser.error_at(token, message).current == parser.current,
{
    lemma_grown_same(parser.chunk);
}

/// Moving to the next token keeps the parser sound and writes no code.
proof fn lemma_advance(parser: ParserView)
    requires
        parser.sound(),
    ensures
        parser.advance().sound(),
        parser.advance().follows(parser),
        parser.advance().chunk == parser.chunk,
        parser.advance().previous == parser.current,
        parser.current.kind != TokenType::EOF ==> parser.advance().measure() < parser.measure(),
{
    lemma_advance_measure(parser);
    lemma_grown_same(parser.chunk);
}

/// Consuming a token keeps the parser sound and writes no code.
proof fn lemma_consume(parser: ParserView, kind: TokenType, message: Seq<char>)
    requires
        parser.sound(),
    ensures
        parser.consume(kind, message).sound(),
        parser.consume(kind, message).follows(parser),
        parser.consume(kind, message).chunk == parser.chunk,
{
    lemma_advance(parser);
    lemma_error_at(parser, parser.current, message);
}

/// An instruction without operand byte, emitted where the code since
/// `start` leaves its operands, changes the depth by its effect.
proof fn lemma_emit_op(parser: ParserView, op: OpCode, start: ParserView, from: int, depth: int)
    requires
        parser.sound(),
        op != OpCode::CONSTANT,
        op != OpCode::RETURN,
        parser.balanced(start, from, depth),
        operands(op) <= depth,
    ensures
        parser.emit_op(op).sound(),
        parser.emit_op(op).follows(parser),
        parser.emit_op(op).balanced(start, from, depth + stack_effect(op)),
        parser.emit_op(op).scanner == parser.scanner,
        parser.emit_op(op).current == parser.current,
{
    lemma_grown_op(parser.chunk, op, line_of(parser.previous));
    if !parser.had_error {
        lemma_depth_op(
            parser.chunk.code,
            parser.chunk.constants.len(),
            start.chunk.code.len() as int,
            from,
            op,
        );
    }
}

/// A constant and its instruction leave one value more on the stack.
proof fn lemma_emit_constant(parser: ParserView, value: ValueView)
    requires
        parser.sound(),
    ensures
        parser.emit_constant(value).sound(),
        parser.emit_constant(value).follows(parser),
        parser.emit_constant(value).balanced(parser, 0, 1),
{
    let (added, index) = parser.make_constant(value);
    let line = line_of(parser.previous);
    if parser.chunk.constants.len() > u8::MAX {
        lemma_error_at(parser, parser.previous, too_many_constants());
        lemma_grown_constant(parser.chunk, index, line, line);
    } else {
        lemma_grown_pool(parser.chunk, value);
        lemma_grown_constant(added.chunk, index, line, line);
        lemma_grown_transitive(parser.chunk, added.chunk, parser.emit_constant(value).chunk);
    }
    if !parser.emit_constant(value).had_error {
        lemma_depth_constant(
            added.chunk.code,
            added.chunk.constants.len(),
            added.chunk.code.len() as int,
            0,
            index,
        );
    }
}

/// The instruction of a literal leaves one value more on the stack.
proof fn lemma_literal(parser: ParserView)
    requires
        parser.sound(),
    ensures
        parser.literal().sound(),
        parser.literal().follows(parser),
        rule_of(parser.previous.kind).prefix == Some(Handler::LITERAL) ==> parser.literal().balanced(
            parser,
            0,
            1,
        ),
{
    lemma_grown_same(parser.chunk);
    if !parser.had_error {
        assert(parser.balanced(parser, 0, 0));
    }
    assert(parser.balanced(parser, 0, 0));
    lemma_emit_op(parser, OpCode::FALSE, parser, 0, 0);
    lemma_emit_op(parser, OpCode::NIL, parser, 0, 0);
    lemma_emit_op(parser, OpCode::TRUE, parser, 0, 0);
}

/// The instruction of a unary operator keeps the depth of the stack.
proof fn lemma_emit_unary(parser: ParserView, kind: TokenType, start: ParserView)
    requires
        parser.sound(),
        parser.balanced(start, 0, 1),
    ensures
        parser.emit_unary(kind).sound(),
        parser.emit_unary(kind).follows(parser),
        kind == TokenType::BANG || kind == TokenType::MINUS ==> parser.emit_unary(kind).balanced(
            start,
            0,
            1,
        ),
{
    lemma_grown_same(parser.chunk);
    lemma_emit_op(parser, OpCode::NOT, start, 0, 1);
    lemma_emit_op(parser, OpCode::NEGATE, start, 0, 1);
}

/// The instructions of a binary operator take two values and leave one.
proof fn lemma_emit_binary(parser: ParserView, kind: TokenType, start: ParserView)
    requires
        parser.sound(),
        parser.balanced(start, 1, 2),
    ensures
        parser.emit_binary(kind).sound(),
        parser.emit_binary(kind).follows(parser),
        rule_of(kind).infix == Some(Handler::BINARY) ==> parser.emit_binary(kind).balanced(
            start,
            1,
            1,
        ),
{
    lemma_grown_same(parser.chunk);
    lemma_emit_op(parser, OpCode::ADD, start, 1, 2);
    lemma_emit_op(parser, OpCode::SUBTRACT, start, 1, 2);
    lemma_emit_op(parser, OpCode::MULTIPLY, start, 1, 2);
    lemma_emit_op(parser, OpCode::DIVIDE, start, 1, 2);
    lemma_emit_op(parser, OpCode::EQUAL, start, 1, 2);
    lemma_emit_op(parser, OpCode::LESS, start, 1, 2);
    lemma_emit_op(parser, OpCode::GREATER, start, 1, 2);
    let equal = parser.emit_op(OpCode::EQUAL);
    let less = parser.emit_op(OpCode::LESS);
    let greater = parser.emit_op(OpCode::GREATER);
    lemma_emit_op(equal, OpCode::NOT, start, 1, 1);
    lemma_emit_op(less, OpCode::NOT, start, 1, 1);
    lemma_emit_op(greater, OpCode::NOT, start, 1, 1);
    lemma_follows_transitive(parser, equal, equal.emit_op(OpCode::NOT));
    lemma_follows_transitive(parser, less, less.emit_op(OpCode::NOT));
    lemma_follows_transitive(parser, greater, greater.emit_op(OpCode::NOT));
}

/// Code that leaves a value, and code after it that takes that value to
/// another depth, do so together.
proof fn lemma_balanced_joined(
    start: ParserView,
    middle: ParserView,
    end: ParserView,
    from: int,
    between: int,
    to: int,
)
    requires
        middle.follows(start),
        end.follows(middle),
        middle.balanced(start, from, between),
        end.balanced(middle, between, to),
    ensures
        end.balanced(start, from, to),
{
    if !end.had_error {
        lemma_depth_more_constants(
            middle.chunk.code,
            middle.chunk.constants.len(),
            end.chunk.constants.len(),
            start.chunk.code.len() as int,
            from,
        );
        lemma_depth_joined(
            middle.chunk.code,
            end.chunk.code,
            end.chunk.constants.len(),
            start.chunk.code.len() as int,
            from,
        );
    }
}

/// Code that takes a stack from one depth to another does so one value
/// higher.
proof fn lemma_balanced_raised(start: ParserView, end: ParserView, from: int, to: int)
    requires
        end.balanced(start, from, to),
    ensures
        end.balanced(start, from + 1, to + 1),
{
    if !end.had_error {
        lemma_depth_raised(
            end.chunk.code,
            end.chunk.constants.len(),
            start.chunk.code.len() as int,
            from,
            1,
        );
    }
}

/// Parsing at a precedence keeps the parser sound, and the code it emits
/// where no error is reported leaves one value more on the stack.
pub proof fn lemma_parse_precedence_sound(
    parser: ParserView,
    precedence: Precedence,
    decoder: spec_fn(Seq<u8>) -> u64,
)
    requires
        parser.sound(),
    ensures
        parser.parse_precedence(precedence, decoder).sound(),
        parser.parse_precedence(precedence, decoder).follows(parser),
        parser.parse_precedence(precedence, decoder).balanced(parser, 0, 1),
    decreases parser.measure(), 3int,
{
    lemma_parse_precedence(parser, precedence, decoder);
    lemma_advance(parser);
    let started = parser.advance();
    match rule_of(started.previous.kind).prefix {
        None => {
            lemma_error_at(started, started.previous, expect_expression());
            lemma_follows_transitive(parser, started, started.error(expect_expression()));
        },
        Some(handler) => {
            lemma_apply_sound(started, handler, decoder);
            let operand = started.apply(handler, decoder);
            lemma_follows_transitive(parser, started, operand);
            lemma_infix_loop_sound(operand, precedence, decoder, parser);
        },
    }
}

/// The loop over the operators keeps the parser sound, and the code
/// that left one value since `start` still leaves one.
pub proof fn lemma_infix_loop_sound(
    parser: ParserView,
    precedence: Precedence,
    decoder: spec_fn(Seq<u8>) -> u64,
    start: ParserView,
)
    requires
        parser.sound(),
        parser.follows(start),
        parser.balanced(start, 0, 1),
    ensures
        parser.infix_loop(precedence, decoder).sound(),
        parser.infix_loop(precedence, decoder).follows(parser),
        parser.infix_loop(precedence, decoder).follows(start),
        parser.infix_loop(precedence, decoder).balanced(start, 0, 1),
    decreases parser.measure(), 2int,
{
    lemma_infix_loop(parser, precedence, decoder);
    lemma_advance(parser);
    lemma_grown_same(parser.chunk);
    let consumed = parser.advance();
    if level(precedence) <= level(rule_of(parser.current.kind).precedence) {
        if consumed.measure() < parser.measure() {
            match rule_of(consumed.previous.kind).infix {
                Some(handler) => {
                    lemma_apply_sound(consumed, handler, decoder);
                    let applied = consumed.apply(handler, decoder);
                    lemma_follows_transitive(parser, consumed, applied);
                    lemma_follows_transitive(start, parser, applied);
                    lemma_balanced_joined(start, parser, consumed, 0, 1, 1);
                    lemma_balanced_joined(start, consumed, applied, 0, 1, 1);
                    lemma_infix_loop_sound(applied, precedence, decoder, start);
                    lemma_follows_transitive(
                        parser,
                        applied,
                        applied.infix_loop(precedence, decoder),
                    );
                },
                None => {
                    lemma_follows_transitive(start, parser, consumed);
                    lemma_balanced_joined(start, parser, consumed, 0, 1, 1);
                    lemma_infix_loop_sound(consumed, precedence, decoder, start);
                    lemma_follows_transitive(
                        parser,
                        consumed,
                        consumed.infix_loop(precedence, decoder),
                    );
                },
            }
        } else {
            lemma_follows_transitive(start, parser, consumed);
            lemma_balanced_joined(start, parser, consumed, 0, 1, 1);
        }
    }
}

/// Parsing by a rule keeps the parser sound. The code of a prefix rule
/// leaves one value more on the stack, and that of an infix rule, with the
/// left operand, one value in all.
pub proof fn lemma_apply_sound(
    parser: ParserView,
    handler: Handler,
    decoder: spec_fn(Seq<u8>) -> u64,
)
    requires
        parser.sound(),
    ensures
        parser.apply(handler, decoder).sound(),
        parser.apply(handler, decoder).follows(parser),
        rule_of(parser.previous.kind).prefix == Some(handler) ==> parser.apply(
            handler,
            decoder,
        ).balanced(parser, 0, 1),
        rule_of(parser.previous.kind).infix == Some(handler) ==> parser.apply(
            handler,
            decoder,
        ).balanced(parser, 1, 1),
    decreases parser.measure(), 5int,
{
    lemma_apply(parser, handler, decoder);
    lemma_operand_rules(parser, decoder);
    match handler {
        Handler::GROUPING => {
            lemma_parse_precedence_sound(parser, Precedence::ASSIGNMENT, decoder);
            let inner = parser.parse_precedence(Precedence::ASSIGNMENT, decoder);
            lemma_consume(inner, TokenType::RIGHT_PAREN, expect_right_paren());
            lemma_follows_transitive(parser, inner, parser.grouping(decoder));
        },
        Handler::UNARY => {
            lemma_parse_precedence_sound(parser, Precedence::UNARY, decoder);
            let inner = parser.parse_precedence(Precedence::UNARY, decoder);
            lemma_emit_unary(inner, parser.previous.kind, parser);
            lemma_follows_transitive(parser, inner, parser.unary(decoder));
        },
        Handler::BINARY => {
            let higher = tighter(rule_of(parser.previous.kind).precedence);
            lemma_parse_precedence_sound(parser, higher, decoder);
            let inner = parser.parse_precedence(higher, decoder);
            lemma_balanced_raised(parser, inner, 0, 1);
            lemma_emit_binary(inner, parser.previous.kind, parser);
            lemma_follows_transitive(parser, inner, parser.binary(decoder));
        },
        Handler::NUMBER => {
            lemma_emit_constant(parser, ValueView::Number(decoder(parser.previous.lexeme)));
        },
        Handler::STRING => {
            lemma_emit_constant(
                parser,
                ValueView::Text(
                    decode_utf8(parser.previous.lexeme.subrange(1, parser.previous.lexeme.len() - 1)),
                ),
            );
        },
        Handler::LITERAL => {
            lemma_literal(parser);
        },
    }
}

/// What compiling leaves behind, whether the text is accepted or not.
/// The chunk has only grown: what was there is there as it was, every
/// byte has its line, what was added to the code is whole instructions,
/// every constant instruction names a constant of the chunk, and the
/// constants are 256 at most unless there were more and none was added. A
/// chunk that could be listed can still be. Where no error was reported,
/// the code since the start is the program of one expression.
pub proof fn lemma_compiled(
    source: Seq<u8>,
    chunk: ChunkView,
    diagnostics: Seq<FragmentView>,
    decoder: spec_fn(Seq<u8>) -> u64,
)
    requires
        chunk.wf(),
    ensures
        ({
            let result = compiled(source, chunk, diagnostics, decoder);
            &&& result.chunk.wf()
            &&& grown(result.chunk, chunk)
            &&& chunk.constants.len() <= 256 ==> result.chunk.constants.len() <= 256
            &&& listable(chunk, 0) ==> listable(result.chunk, 0)
            &&& !result.had_error ==> expression_program(result.chunk, chunk.code.len() as int)
        }),
{
    let start = parser_at_start(source, chunk, diagnostics);
    lemma_advance(start);
    let first = start.advance();
    lemma_parse_precedence_sound(first, Precedence::ASSIGNMENT, decoder);
    let parsed = first.expression(decoder);
    lemma_consume(parsed, TokenType::EOF, expect_end());
    let body = parsed.consume(TokenType::EOF, expect_end());
    let ended = body.emit_op(OpCode::RETURN);
    lemma_follows_transitive(start, first, parsed);
    lemma_follows_transitive(start, parsed, body);
    lemma_grown_op(body.chunk, OpCode::RETURN, line_of(body.previous));
    lemma_grown_transitive(chunk, body.chunk, ended.chunk);
    if listable(chunk, 0) {
        lemma_listable_grown(chunk, ended.chunk, 0);
    }
    if !body.had_error {
        assert(ended.chunk.code.drop_last() =~= body.chunk.code);
        assert(expression_program(ended.chunk, chunk.code.len() as int));
    }
}

/// Compiling a text without error adds the listing of the chunk to the
/// diagnostics, and nothing else.
pub proof fn lemma_compiled_reports(
    source: Seq<u8>,
    chunk: ChunkView,
    diagnostics: Seq<FragmentView>,
    decoder: spec_fn(Seq<u8>) -> u64,
)
    requires
        chunk.wf(),
        !compiled(source, chunk, diagnostics, decoder).had_error,
    ensures
        compiled(source, chunk, diagnostics, decoder).diagnostics == diagnostics + chunk_listing(
            compiled(source, chunk, diagnostics, decoder).chunk,
            "code"@,
        ),
{
    let start = parser_at_start(source, chunk, diagnostics);
    lemma_advance(start);
    let first = start.advance();
    lemma_parse_precedence_sound(first, Precedence::ASSIGNMENT, decoder);
    let parsed = first.expression(decoder);
    lemma_consume(parsed, TokenType::EOF, expect_end());
}

/// On a sound parser the loop over the operators does what its
/// description says, with no test on the measure: an operator that binds
/// at least as tightly as `precedence` is consumed and parsed by its infix
/// rule, and the loop goes on; any other token ends it.
pub proof fn lemma_infix_loop_unguarded(
    parser: ParserView,
    precedence: Precedence,
    decoder: spec_fn(Seq<u8>) -> u64,
)
    requires
        parser.sound(),
        precedence != Precedence::NONE,
    ensures
        parser.infix_loop(precedence, decoder) == (if level(precedence) <= level(
            rule_of(parser.current.kind).precedence,
        ) {
            parser.advance().binary(decoder).infix_loop(precedence, decoder)
        } else {
            parser
        }),
{
    lemma_infix_loop(parser, precedence, decoder);
    lemma_advance(parser);
    let consumed = parser.advance();
    if level(precedence) <= level(rule_of(parser.current.kind).precedence) {
        lemma_apply(consumed, Handler::BINARY, decoder);
        lemma_apply_sound(consumed, Handler::BINARY, decoder);
    }
}

/// On a sound parser, parsing at a precedence does what its description
/// says, with no test on the measure.
pub proof fn lemma_parse_precedence_unguarded(
    parser: ParserView,
    precedence: Precedence,
    decoder: spec_fn(Seq<u8>) -> u64,
)
    requires
        parser.sound(),
    ensures
        parser.parse_precedence(precedence, decoder) == (match rule_of(
            parser.advance().previous.kind,
        ).prefix {
            None => parser.advance().error(expect_expression()),
            Some(handler) => parser.advance().apply(handler, decoder).infix_loop(
                precedence,
                decoder,
            ),
        }),
{
    lemma_parse_precedence(parser, precedence, decoder);
    lemma_advance(parser);
    let started = parser.advance();
    match rule_of(started.previous.kind).prefix {
        None => {},
        Some(handler) => {
            lemma_apply_sound(started, handler, decoder);
        },
    }
}

/// Operators of one precedence group to the left. Where the loop over
/// the operators stands at an operator, and the right operand of that
/// operator is followed by an operator of the same precedence, the first
/// operator's instructions are emitted before the second operator is
/// consumed, and the second operator's after its own right operand: what
/// is compiled is `(a OP1 b) OP2 c`.
pub proof fn lemma_left_associative(
    parser: ParserView,
    precedence: Precedence,
    decoder: spec_fn(Seq<u8>) -> u64,
)
    requires
        parser.sound(),
        precedence != Precedence::NONE,
        rule_of(parser.current.kind).infix == Some(Handler::BINARY),
        level(precedence) <= level(rule_of(parser.current.kind).precedence),
        ({
            let right = parser.advance().parse_precedence(
                tighter(rule_of(parser.current.kind).precedence),
                decoder,
            );
            &&& rule_of(right.current.kind).infix == Some(Handler::BINARY)
            &&& rule_of(right.current.kind).precedence == rule_of(parser.current.kind).precedence
        }),
    ensures
        parser.infix_loop(precedence, decoder) == ({
            let first = parser.current.kind;
            let right = parser.advance().parse_precedence(
                tighter(rule_of(first).precedence),
                decoder,
            );
            let second = right.current.kind;
            let left = right.emit_binary(first);
            let last = left.advance().parse_precedence(
                tighter(rule_of(second).precedence),
                decoder,
            );
            last.emit_binary(second).infix_loop(precedence, decoder)
        }),
{
    let first = parser.current.kind;
    let consumed = parser.advance();
    lemma_advance(parser);
    lemma_infix_loop_unguarded(parser, precedence, decoder);
    lemma_operand_rules(consumed, decoder);
    lemma_parse_precedence_sound(consumed, tighter(rule_of(first).precedence), decoder);
    let right = consumed.parse_precedence(tighter(rule_of(first).precedence), decoder);
    lemma_balanced_raised(consumed, right, 0, 1);
    lemma_emit_binary(right, first, consumed);
    let left = right.emit_binary(first);
    assert(left.scanner == right.scanner && left.current == right.current);
    lemma_infix_loop_unguarded(left, precedence, decoder);
    lemma_advance(left);
    lemma_operand_rules(left.advance(), decoder);
}

/// The bytes that a binary operator is compiled to, after its operands.
pub open spec fn operator_code(kind: TokenType) -> Seq<u8> {
    match kind {
        TokenType::PLUS => seq![opcode_byte(OpCode::ADD)],
        TokenType::MINUS => seq![opcode_byte(OpCode::SUBTRACT)],
        TokenType::STAR => seq![opcode_byte(OpCode::MULTIPLY)],
        TokenType::SLASH => seq![opcode_byte(OpCode::DIVIDE)],
        TokenType::EQUAL_EQUAL => seq![opcode_byte(OpCode::EQUAL)],
        TokenType::BANG_EQUAL => seq![opcode_byte(OpCode::EQUAL), opcode_byte(OpCode::NOT)],
        TokenType::LESS => seq![opcode_byte(OpCode::LESS)],
        TokenType::LESS_EQUAL => seq![opcode_byte(OpCode::GREATER), opcode_byte(OpCode::NOT)],
        TokenType::GREATER => seq![opcode_byte(OpCode::GREATER)],
        TokenType::GREATER_EQUAL => seq![opcode_byte(OpCode::LESS), opcode_byte(OpCode::NOT)],
        _ => Seq::empty(),
    }
}

/// The scanner after the first `count` tokens of `source`.
pub open spec fn scanner_after(source: Seq<u8>, count: nat) -> ScannerView
    decreases count,
{
    if count == 0 {
        ScannerView { text: source, current: 0, line: 1 }
    } else {
        scanner_after(source, (count - 1) as nat).scan().1
    }
}

/// The token of `source` after the first `count` tokens.
pub open spec fn token_after(source: Seq<u8>, count: nat) -> TokenView {
    scanner_after(source, count).scan().0
}

/// A number, followed by a token that does not bind as tightly as
/// `precedence`, is all that parsing at `precedence` takes: the number is
/// consumed and its constant emitted.
pub proof fn lemma_number_operand(
    parser: ParserView,
    precedence: Precedence,
    decoder: spec_fn(Seq<u8>) -> u64,
)
    requires
        parser.sound(),
        parser.current.kind == TokenType::NUMBER,
        level(rule_of(parser.scanner.scan().0.kind).precedence) < level(precedence),
    ensures
        parser.parse_precedence(precedence, decoder) == parser.advance().number(decoder),
        parser.advance().number(decoder).sound(),
{
    let started = parser.advance();
    lemma_advance(parser);
    lemma_parse_precedence_unguarded(parser, precedence, decoder);
    lemma_apply(started, Handler::NUMBER, decoder);
    lemma_emit_constant(started, ValueView::Number(decoder(started.previous.lexeme)));
    lemma_infix_loop_unguarded(started.number(decoder), precedence, decoder);
}

/// An operator that the loop takes, with a number as its right operand,
/// followed by a token that binds no tighter than the operator: the loop
/// consumes the operator and the number, emits the number's constant and
/// then the operator's instructions, and goes on from there.
pub proof fn lemma_operator_and_number(
    parser: ParserView,
    precedence: Precedence,
    decoder: spec_fn(Seq<u8>) -> u64,
)
    requires
        parser.sound(),
        precedence != Precedence::NONE,
        rule_of(parser.current.kind).infix == Some(Handler::BINARY),
        level(precedence) <= level(rule_of(parser.current.kind).precedence),
        parser.scanner.scan().0.kind == TokenType::NUMBER,
        level(rule_of(parser.scanner.scan().1.scan().0.kind).precedence) <= level(
            rule_of(parser.current.kind).precedence,
        ),
    ensures
        parser.infix_loop(precedence, decoder) == parser.advance().advance().number(
            decoder,
        ).emit_binary(parser.current.kind).infix_loop(precedence, decoder),
        parser.advance().advance().number(decoder).emit_binary(parser.current.kind).sound(),
{
    let consumed = parser.advance();
    lemma_advance(parser);
    lemma_infix_loop_unguarded(parser, precedence, decoder);
    lemma_operand_rules(consumed, decoder);
    let higher = tighter(rule_of(parser.current.kind).precedence);
    lemma_number_operand(consumed, higher, decoder);
    let right = consumed.advance().number(decoder);
    lemma_parse_precedence_sound(consumed, higher, decoder);
    lemma_balanced_raised(consumed, right, 0, 1);
    lemma_emit_binary(right, parser.current.kind, consumed);
}

/// The code of an operator's instructions is what the operator adds.
pub proof fn lemma_operator_code(parser: ParserView, kind: TokenType)
    ensures
        parser.emit_binary(kind).chunk.code == parser.chunk.code + operator_code(kind),
        parser.emit_binary(kind).chunk.constants == parser.chunk.constants,
        parser.emit_binary(kind).had_error == parser.had_error,
        parser.emit_binary(kind).panic_mode == parser.panic_mode,
        parser.emit_binary(kind).diagnostics == parser.diagnostics,
        parser.emit_binary(kind).scanner == parser.scanner,
        parser.emit_binary(kind).current == parser.current,
        parser.emit_binary(kind).previous == parser.previous,
{
    assert(parser.emit_binary(kind).chunk.code =~= parser.chunk.code + operator_code(kind));
}

/// The code of a number's constant, where the chunk has room for it.
pub proof fn lemma_number_code(parser: ParserView, decoder: spec_fn(Seq<u8>) -> u64)
    requires
        parser.chunk.constants.len() < 256,
    ensures
        parser.number(decoder).chunk.code == parser.chunk.code + seq![
            opcode_byte(OpCode::CONSTANT),
            parser.chunk.constants.len() as u8,
        ],
        parser.number(decoder).chunk.constants == parser.chunk.constants.push(
            ValueView::Number(decoder(parser.previous.lexeme)),
        ),
        parser.number(decoder).had_error == parser.had_error,
        parser.number(decoder).panic_mode == parser.panic_mode,
        parser.number(decoder).diagnostics == parser.diagnostics,
        parser.number(decoder).scanner == parser.scanner,
        parser.number(decoder).current == parser.current,
        parser.number(decoder).previous == parser.previous,
{
    assert(parser.number(decoder).chunk.code =~= parser.chunk.code + seq![
        opcode_byte(OpCode::CONSTANT),
        parser.chunk.constants.len() as u8,
    ]);
}

/// Moving to the next token, where that token is no error: the scanner
/// has read it, and nothing else has changed.
pub proof fn lemma_advance_token(parser: ParserView)
    requires
        parser.scanner.scan().0.kind != TokenType::ERROR,
    ensures
        parser.advance() == (ParserView {
            scanner: parser.scanner.scan().1,
            previous: parser.current,
            current: parser.scanner.scan().0,
            ..parser
        }),
{
}

/// A text of three numbers with two operators of one precedence between
/// them, `a OP1 b OP2 c`, compiles without error to the code of
/// `(a OP1 b) OP2 c`: the constants of `a` and `b`, the instructions of
/// `OP1`, the constant of `c`, the instructions of `OP2`, and `RETURN`. The
/// three constants are what the decoder reads from the three lexemes.
pub proof fn lemma_two_operators(
    source: Seq<u8>,
    diagnostics: Seq<FragmentView>,
    decoder: spec_fn(Seq<u8>) -> u64,
)
    requires
        token_after(source, 0).kind == TokenType::NUMBER,
        rule_of(token_after(source, 1).kind).infix == Some(Handler::BINARY),
        token_after(source, 2).kind == TokenType::NUMBER,
        rule_of(token_after(source, 3).kind).infix == Some(Handler::BINARY),
        token_after(source, 4).kind == TokenType::NUMBER,
        token_after(source, 5).kind == TokenType::EOF,
        rule_of(token_after(source, 1).kind).precedence == rule_of(
            token_after(source, 3).kind,
        ).precedence,
    ensures
        ({
            let result = compiled(source, empty_chunk(), diagnostics, decoder);
            &&& !result.had_error
            &&& result.chunk.code == seq![
                opcode_byte(OpCode::CONSTANT),
                0u8,
                opcode_byte(OpCode::CONSTANT),
                1u8,
            ] + operator_code(token_after(source, 1).kind) + seq![
                opcode_byte(OpCode::CONSTANT),
                2u8,
            ] + operator_code(token_after(source, 3).kind) + seq![opcode_byte(OpCode::RETURN)]
            &&& result.chunk.constants == seq![
                ValueView::Number(decoder(token_after(source, 0).lexeme)),
                ValueView::Number(decoder(token_after(source, 2).lexeme)),
                ValueView::Number(decoder(token_after(source, 4).lexeme)),
            ]
        }),
{
    reveal_with_fuel(scanner_after, 8);
    let first = token_after(source, 1).kind;
    let second = token_after(source, 3).kind;
    let begun = parser_at_start(source, empty_chunk(), diagnostics);
    lemma_scan_bounds(scanner_after(source, 0));
    lemma_scan_bounds(scanner_after(source, 1));
    lemma_scan_bounds(scanner_after(source, 2));
    lemma_scan_bounds(scanner_after(source, 3));
    lemma_scan_bounds(scanner_after(source, 4));
    lemma_scan_bounds(scanner_after(source, 5));
    lemma_scan_bounds(scanner_after(source, 6));
    // The first number.
    lemma_advance_token(begun);
    let opened = begun.advance();
    lemma_advance(begun);
    lemma_advance_token(opened);
    lemma_number_operand_or_loop(opened, decoder);
    let a = opened.advance().number(decoder);
    lemma_number_code(opened.advance(), decoder);
    // The first operator and the second number.
    lemma_advance_token(a);
    lemma_advance_token(a.advance());
    lemma_operator_and_number(a, Precedence::ASSIGNMENT, decoder);
    let b = a.advance().advance().number(decoder);
    lemma_number_code(a.advance().advance(), decoder);
    let ab = b.emit_binary(first);
    lemma_operator_code(b, first);
    // The second operator and the third number.
    lemma_advance_token(ab);
    lemma_advance_token(ab.advance());
    lemma_operator_and_number(ab, Precedence::ASSIGNMENT, decoder);
    let c = ab.advance().advance().number(decoder);
    lemma_number_code(ab.advance().advance(), decoder);
    let abc = c.emit_binary(second);
    lemma_operator_code(c, second);
    // The end of the text.
    lemma_infix_loop_unguarded(abc, Precedence::ASSIGNMENT, decoder);
    lemma_advance_token(abc);
    let result = compiled(source, empty_chunk(), diagnostics, decoder);
    assert(result.chunk.code =~= seq![
        opcode_byte(OpCode::CONSTANT),
        0u8,
        opcode_byte(OpCode::CONSTANT),
        1u8,
    ] + operator_code(first) + seq![opcode_byte(OpCode::CONSTANT), 2u8] + operator_code(second)
        + seq![opcode_byte(OpCode::RETURN)]);
    assert(result.chunk.constants =~= seq![
        ValueView::Number(decoder(token_after(source, 0).lexeme)),
        ValueView::Number(decoder(token_after(source, 2).lexeme)),
        ValueView::Number(decoder(token_after(source, 4).lexeme)),
    ]);
}

/// A number at the start of an expression, followed by an operator: the
/// expression is the number's constant and what the loop over the
/// operators makes of the rest.
proof fn lemma_number_operand_or_loop(parser: ParserView, decoder: spec_fn(Seq<u8>) -> u64)
    requires
        parser.sound(),
        parser.current.kind == TokenType::NUMBER,
    ensures
        parser.expression(decoder) == parser.advance().number(decoder).infix_loop(
            Precedence::ASSIGNMENT,
            decoder,
        ),
        parser.advance().number(decoder).sound(),
{
    let started = parser.advance();
    lemma_advance(parser);
    lemma_parse_precedence_unguarded(parser, Precedence::ASSIGNMENT, decoder);
    lemma_apply(started, Handler::NUMBER, decoder);
    lemma_emit_constant(started, ValueView::Number(decoder(started.previous.lexeme)));
}

/// The parser: the scanner, the chunk being written, the token about to
/// be consumed and the one just consumed, whether an error was reported,
/// whether errors are being suppressed, and the diagnostics written so far.
#[derive(Debug)]
pub struct Parser<'a> {
    pub scanner: Scanner<'a>,
    pub chunk: Chunk,
    pub current: Token<'a>,
    pub previous: Token<'a>,
    pub hadError: bool,
    pub panicMode: bool,
    pub diagnostics: Vec<Fragment>,
}

impl<'a> View for Parser<'a> {
    type V = ParserView;

    open spec fn view(&self) -> ParserView {
        ParserView {
            scanner: self.scanner@,
            chunk: self.chunk@,
            current: self.current@,
            previous: self.previous@,
            had_error: self.hadError,
            panic_mode: self.panicMode,
            diagnostics: fragment_views(self.diagnostics@),
        }
    }
}

impl<'a> Parser<'a> {
    /// The scanner is between two tokens, the chunk has a line for every
    /// byte, both tokens are as the scanner makes them, and errors are
    /// suppressed only after one was reported.
    pub open spec fn wf(&self) -> bool {
        self@.wf()
    }
}

/// A well-formed parser is sound.
pub proof fn lemma_wf_sound(parser: ParserView)
    requires
        parser.wf(),
    ensures
        parser.sound(),
{
    reveal(ParserView::wf);
}

/// The rule of a token kind.
pub fn getRule(token_type: TokenType) -> (rule: ParseRule)
    ensures
        rule == rule_of(token_type),
{
    match token_type {
        TokenType::LEFT_PAREN => ParseRule {
            prefix: Some(Handler::GROUPING),
            infix: None,
            precedence: Precedence::NONE,
        },
        TokenType::MINUS => ParseRule {
            prefix: Some(Handler::UNARY),
            infix: Some(Handler::BINARY),
            precedence: Precedence::TERM,
        },
        TokenType::PLUS => ParseRule {
            prefix: None,
            infix: Some(Handler::BINARY),
            precedence: Precedence::TERM,
        },
        TokenType::SLASH | TokenType::STAR => ParseRule {
            prefix: None,
            infix: Some(Handler::BINARY),
            precedence: Precedence::FACTOR,
        },
        TokenType::BANG => ParseRule {
            prefix: Some(Handler::UNARY),
            infix: None,
            precedence: Precedence::NONE,
        },
        TokenType::BANG_EQUAL | TokenType::EQUAL_EQUAL => ParseRule {
            prefix: None,
            infix: Some(Handler::BINARY),
            precedence: Precedence::EQUALITY,
        },
        TokenType::GREATER | TokenType::GREATER_EQUAL | TokenType::LESS | TokenType::LESS_EQUAL =>
            ParseRule {
            prefix: None,
            infix: Some(Handler::BINARY),
            precedence: Precedence::COMPARISON,
        },
        TokenType::STRING => ParseRule {
            prefix: Some(Handler::STRING),
            infix: None,
            precedence: Precedence::NONE,
        },
        TokenType::NUMBER => ParseRule {
            prefix: Some(Handler::NUMBER),
            infix: None,
            precedence: Precedence::NONE,
        },
        TokenType::FALSE | TokenType::NIL | TokenType::TRUE => ParseRule {
            prefix: Some(Handler::LITERAL),
            infix: None,
            precedence: Precedence::NONE,
        },
        _ => ParseRule { prefix: None, infix: None, precedence: Precedence::NONE },
    }
}

/// Reports an error at `token`: one line of diagnostics. While the parser
/// is in panic mode, which the first report starts, nothing is reported.
pub fn errorAt(parser: &mut Parser, token: Token, message: &str)
    ensures
        final(parser)@ == old(parser)@.error_at(token@, message@),
        old(parser).wf() ==> final(parser).wf(),
{
    proof {
        reveal(ParserView::wf);
    }
    if parser.panicMode {
        return ;
    }
    parser.panicMode = true;

    let mut text = String::from_str("[line ");
    let line = signed_decimal_text(token.line as i64);
    text.append(line.as_str());
    text.append("] Error");

    if token.token_type == TokenType::EOF {
        text.append(" at end");
    } else if token.token_type == TokenType::ERROR {
        // Nothing.
    } else {
        text.append(" at '");
        text.append(token.start);
        text.append("'");
        proof {
            encode_utf8_decode_utf8(token.start@);
        }
    }

    text.append(": ");
    text.append(message);
    text.append("\n");
    assert(text@ =~= error_line(token@, message@)) by {
        reveal(error_line);
    }
    parser.diagnostics.push(Fragment::Text(text));
    parser.hadError = true;
    assert(fragment_views(parser.diagnostics@) =~= fragment_views(old(parser).diagnostics@).push(
        FragmentView::Text(error_line(token@, message@)),
    ));
}

/// Reports an error at the token just consumed.
pub fn error(parser: &mut Parser, message: &str)
    ensures
        final(parser)@ == old(parser)@.error(message@),
        old(parser).wf() ==> final(parser).wf(),
{
    let token = parser.previous;
    errorAt(parser, token, message);
}

/// Reports an error at the token about to be consumed.
pub fn errorAtCurrent(parser: &mut Parser, message: &str)
    ensures
        final(parser)@ == old(parser)@.error_at_current(message@),
        old(parser).wf() ==> final(parser).wf(),
{
    let token = parser.current;
    errorAt(parser, token, message);
}

/// Moves to the next token. An error token is reported, with its lexeme
/// as the message, and stays the current token.
pub fn advance<'a>(parser: &mut Parser<'a>)
    requires
        old(parser).wf(),
    ensures
        final(parser)@ == old(parser)@.advance(),
        final(parser).wf(),
{
    proof {
        reveal(ParserView::wf);
    }
    parser.previous = parser.current;

    parser.current = scanToken(&mut parser.scanner);
    if parser.current.token_type != TokenType::ERROR {
        return ;
    }
    let message = parser.current.start;
    proof {
        encode_utf8_decode_utf8(message@);
    }
    errorAtCurrent(parser, message);
}

/// Moves past a token of `token_type`, or reports `message` at another.
pub fn consume<'a>(parser: &mut Parser<'a>, token_type: TokenType, message: &str)
    requires
        old(parser).wf(),
    ensures
        final(parser)@ == old(parser)@.consume(token_type, message@),
        final(parser).wf(),
{
    if parser.current.token_type == token_type {
        advance(parser);
        return ;
    }
    errorAtCurrent(parser, message);
}

/// Appends a byte of code, charged to the line of the token just
/// consumed.
pub fn emitByte<'a>(parser: &mut Parser<'a>, byte: u8)
    requires
        old(parser).wf(),
    ensures
        final(parser)@ == old(parser)@.emit_byte(byte),
        final(parser).wf(),
{
    proof {
        reveal(ParserView::wf);
    }
    writeChunk(&mut parser.chunk, byte, parser.previous.line as u32);
}

/// Appends two bytes of code.
pub fn emitBytes<'a>(parser: &mut Parser<'a>, byte1: u8, byte2: u8)
    requires
        old(parser).wf(),
    ensures
        final(parser)@ == old(parser)@.emit_bytes(byte1, byte2),
        final(parser).wf(),
{
    emitByte(parser, byte1);
    emitByte(parser, byte2);
}

/// Appends a `RETURN`.
pub fn emitReturn<'a>(parser: &mut Parser<'a>)
    requires
        old(parser).wf(),
    ensures
        final(parser)@ == old(parser)@.emit_op(OpCode::RETURN),
        final(parser).wf(),
{
    emitByte(parser, OpCode::RETURN.byte());
}

/// Adds a constant to the chunk and gives its index. A chunk holds 256
/// constants at most, as many as one byte can index: one more is an error,
/// the chunk stays as it is, and the index reads 0.
pub fn makeConstant<'a>(parser: &mut Parser<'a>, value: Value) -> (index: u8)
    requires
        old(parser).wf(),
    ensures
        (final(parser)@, index) == old(parser)@.make_constant(value@),
        final(parser).wf(),
        old(parser)@.chunk.constants.len() <= 256 ==> final(parser)@.chunk.constants.len() <= 256,
        index < final(parser)@.chunk.constants.len(),
{
    proof {
        reveal(ParserView::wf);
    }
    if parser.chunk.constants.count() > u8::MAX as usize {
        error(parser, "Too many constants in one chunk.");
        return 0;
    }
    let constant = addConstant(&mut parser.chunk, value);
    return constant as u8;
}

/// Adds a constant and the instruction that loads it.
pub fn emitConstant<'a>(parser: &mut Parser<'a>, value: Value)
    requires
        old(parser).wf(),
    ensures
        final(parser)@ == old(parser)@.emit_constant(value@),
        final(parser).wf(),
        old(parser)@.chunk.constants.len() <= 256 ==> final(parser)@.chunk.constants.len() <= 256,
{
    let i = makeConstant(parser, value);
    emitBytes(parser, OpCode::CONSTANT.byte(), i);
}

/// Ends the chunk with a `RETURN`, and lists it under the name `code`
/// where no error was reported.
pub fn endCompiler<'a>(parser: &mut Parser<'a>)
    requires
        old(parser).wf(),
        !old(parser)@.had_error ==> listable(old(parser)@.emit_op(OpCode::RETURN).chunk, 0),
    ensures
        final(parser)@ == old(parser)@.end_compiler(),
        final(parser).wf(),
{
    emitReturn(parser);

    if !parser.hadError {
        proof {
            reveal(ParserView::wf);
        }
        disassembleChunk(&parser.chunk, "code", &mut parser.diagnostics);
    }
}

/// `false`, `nil` or `true`, just consumed: the instruction that pushes
/// it.
pub fn literal<'a>(parser: &mut Parser<'a>)
    requires
        old(parser).wf(),
    ensures
        final(parser)@ == old(parser)@.literal(),
        final(parser).wf(),
{
    match parser.previous.token_type {
        TokenType::FALSE => {
            emitByte(parser, OpCode::FALSE.byte());
        },
        TokenType::NIL => {
            emitByte(parser, OpCode::NIL.byte());
        },
        TokenType::TRUE => {
            emitByte(parser, OpCode::TRUE.byte());
        },
        _ => {
            return ;
        },
    }
}

/// A number, just consumed: the constant that `decode` reads from its
/// lexeme.
pub fn number<'a, F: Fn(&str) -> u64>(parser: &mut Parser<'a>, decode: &F)
    requires
        old(parser).wf(),
        old(parser)@.previous.kind == TokenType::NUMBER,
        decodes_numbers(*decode),
    ensures
        final(parser)@ == old(parser)@.number(decoding(*decode)),
        final(parser).wf(),
{
    proof {
        reveal(ParserView::wf);
    }
    let lexeme = parser.previous.start;
    let value = decode(lexeme);
    proof {
        assert(decodes_to(*decode, parser@.previous.lexeme, value));
        let chosen = decoding(*decode)(parser@.previous.lexeme);
        assert(decodes_to(*decode, parser@.previous.lexeme, chosen));
    }
    emitConstant(parser, Value::NUMBER(value));
}

/// A string, just consumed: the constant with the text between its
/// quotes.
pub fn string<'a>(parser: &mut Parser<'a>)
    requires
        old(parser).wf(),
        old(parser)@.previous.kind == TokenType::STRING,
    ensures
        final(parser)@ == old(parser)@.string(),
        final(parser).wf(),
{
    let lexeme = parser.previous.start;
    let length = lexeme.as_bytes().len();
    proof {
        reveal(ParserView::wf);
        assert(string_lexeme(lexeme.spec_bytes()));
        lemma_boundary_after_ascii(lexeme.spec_bytes(), 0);
    }
    let (_, tail) = lexeme.split_at(1);
    proof {
        encode_utf8_valid_utf8(tail@);
        assert(tail.spec_bytes() =~= lexeme.spec_bytes().subrange(1, length as int));
        assert(tail.spec_bytes()[length - 2] == lexeme.spec_bytes()[length - 1]);
        lemma_boundary_at_start(tail.spec_bytes(), length - 2);
        assert(tail.spec_bytes().subrange(0, length - 2) =~= lexeme.spec_bytes().subrange(
            1,
            length - 1,
        ));
    }
    let text = copyString(tail, length - 2);
    emitConstant(parser, Obj::VAL(text));
}

/// Parses by the rule that `handler` names.
pub fn apply<'a, F: Fn(&str) -> u64>(parser: &mut Parser<'a>, handler: Handler, decode: &F)
    requires
        old(parser).wf(),
        decodes_numbers(*decode),
        handler == Handler::NUMBER ==> old(parser)@.previous.kind == TokenType::NUMBER,
        handler == Handler::STRING ==> old(parser)@.previous.kind == TokenType::STRING,
    ensures
        final(parser)@ == old(parser)@.apply(handler, decoding(*decode)),
        final(parser).wf(),
    decreases old(parser)@.measure(), 6int,
{
    proof {
        lemma_apply(parser@, handler, decoding(*decode));
    }
    match handler {
        Handler::GROUPING => grouping(parser, decode),
        Handler::UNARY => unary(parser, decode),
        Handler::BINARY => binary(parser, decode),
        Handler::NUMBER => number(parser, decode),
        Handler::STRING => string(parser),
        Handler::LITERAL => literal(parser),
    }
}

/// A group, whose `(` was just consumed: an expression, then `)`.
pub fn grouping<'a, F: Fn(&str) -> u64>(parser: &mut Parser<'a>, decode: &F)
    requires
        old(parser).wf(),
        decodes_numbers(*decode),
    ensures
        final(parser)@ == old(parser)@.grouping(decoding(*decode)),
        final(parser).wf(),
    decreases old(parser)@.measure(), 5int,
{
    proof {
        lemma_operand_rules(parser@, decoding(*decode));
    }
    expression(parser, decode);
    consume(parser, TokenType::RIGHT_PAREN, "Expect ')' after expression.");
}

/// A unary operation, whose operator was just consumed: the operand,
/// then the operator's instruction.
pub fn unary<'a, F: Fn(&str) -> u64>(parser: &mut Parser<'a>, decode: &F)
    requires
        old(parser).wf(),
        decodes_numbers(*decode),
    ensures
        final(parser)@ == old(parser)@.unary(decoding(*decode)),
        final(parser).wf(),
    decreases old(parser)@.measure(), 5int,
{
    proof {
        lemma_operand_rules(parser@, decoding(*decode));
    }
    let operatorType = parser.previous.token_type;

    // Compile the operand.
    parsePrecedence(parser, Precedence::UNARY, decode);

    match operatorType {
        TokenType::BANG => {
            emitByte(parser, OpCode::NOT.byte());
        },
        TokenType::MINUS => {
            emitByte(parser, OpCode::NEGATE.byte());
        },
        _ => {
            return ;
        },
    }
}

/// A binary operation, whose left operand was compiled and whose operator
/// was just consumed: the right operand, which binds tighter than the
/// operator, then the operator's instructions.
pub fn binary<'a, F: Fn(&str) -> u64>(parser: &mut Parser<'a>, decode: &F)
    requires
        old(parser).wf(),
        decodes_numbers(*decode),
    ensures
        final(parser)@ == old(parser)@.binary(decoding(*decode)),
        final(parser).wf(),
    decreases old(parser)@.measure(), 5int,
{
    proof {
        lemma_operand_rules(parser@, decoding(*decode));
    }
    // Remember the operator.
    let operatorType = parser.previous.token_type;

    // Compile the right operand.
    let rule = getRule(operatorType);
    let higher = match Precedence::from_u8(rule.precedence.rank() + 1) {
        Some(next) => next,
        None => rule.precedence,
    };
    parsePrecedence(parser, higher, decode);

    // Emit the operator instruction.
    match operatorType {
        TokenType::PLUS => {
            emitByte(parser, OpCode::ADD.byte());
        },
        TokenType::MINUS => {
            emitByte(parser, OpCode::SUBTRACT.byte());
        },
        TokenType::STAR => {
            emitByte(parser, OpCode::MULTIPLY.byte());
        },
        TokenType::SLASH => {
            emitByte(parser, OpCode::DIVIDE.byte());
        },
        TokenType::EQUAL_EQUAL => {
            emitByte(parser, OpCode::EQUAL.byte());
        },
        TokenType::BANG_EQUAL => {
            emitBytes(parser, OpCode::EQUAL.byte(), OpCode::NOT.byte());
        },
        TokenType::LESS => {
            emitByte(parser, OpCode::LESS.byte());
        },
        TokenType::LESS_EQUAL => {
            emitBytes(parser, OpCode::GREATER.byte(), OpCode::NOT.byte());
        },
        TokenType::GREATER => {
            emitByte(parser, OpCode::GREATER.byte());
        },
        TokenType::GREATER_EQUAL => {
            emitBytes(parser, OpCode::LESS.byte(), OpCode::NOT.byte());
        },
        _ => {
            return ;
        },
    }
}

/// Parses what binds at least as tightly as `precedence`: one token that
/// starts an expression, parsed by its prefix rule, and then every operator
/// of that precedence or tighter, each with its right operand. A first
/// token without prefix rule is an error, "Expect expression.", which is
/// reported unless an earlier report has put the parser in panic mode.
pub fn parsePrecedence<'a, F: Fn(&str) -> u64>(
    parser: &mut Parser<'a>,
    precedence: Precedence,
    decode: &F,
)
    requires
        old(parser).wf(),
        decodes_numbers(*decode),
        precedence != Precedence::NONE,
    ensures
        final(parser)@ == old(parser)@.parse_precedence(precedence, decoding(*decode)),
        final(parser).wf(),
    decreases old(parser)@.measure(), 3int,
{
    let ghost start = parser@;
    let ghost decoder = decoding(*decode);
    proof {
        lemma_wf_sound(start);
        lemma_advance(start);
        lemma_parse_precedence_unguarded(start, precedence, decoder);
    }
    advance(parser);
    let prefixRule = getRule(parser.previous.token_type).prefix;
    if let Some(prefixRule) = prefixRule {
        apply(parser, prefixRule, decode);
        let ghost operand = parser@;
        proof {
            lemma_apply_sound(start.advance(), prefixRule, decoder);
        }

        while precedence.rank() <= getRule(parser.current.token_type).precedence.rank()
            invariant
                parser.wf(),
                decodes_numbers(*decode),
                decoder == decoding(*decode),
                precedence != Precedence::NONE,
                start == old(parser)@,
                parser@.measure() < start.measure(),
                parser@.infix_loop(precedence, decoder) == operand.infix_loop(precedence, decoder),
            decreases parser@.measure(),
        {
            let ghost before = parser@;
            proof {
                lemma_wf_sound(before);
                lemma_advance(before);
                lemma_infix_loop_unguarded(before, precedence, decoder);
                lemma_apply(before.advance(), Handler::BINARY, decoder);
                lemma_apply_sound(before.advance(), Handler::BINARY, decoder);
            }
            advance(parser);
            let infixRule = getRule(parser.previous.token_type).infix;
            if let Some(infixRule) = infixRule {
                apply(parser, infixRule, decode);
            }
        }
        proof {
            lemma_wf_sound(parser@);
            lemma_infix_loop_unguarded(parser@, precedence, decoder);
        }
    } else {
        error(parser, "Expect expression.");
    }
}

/// An expression: whatever binds as tightly as an assignment or tighter.
pub fn expression<'a, F: Fn(&str) -> u64>(parser: &mut Parser<'a>, decode: &F)
    requires
        old(parser).wf(),
        decodes_numbers(*decode),
    ensures
        final(parser)@ == old(parser)@.expression(decoding(*decode)),
        final(parser).wf(),
    decreases old(parser)@.measure(), 4int,
{
    parsePrecedence(parser, Precedence::ASSIGNMENT, decode);
}

/// Compiles `source`, one expression, into `chunk`, and ends it with a
/// `RETURN`. What is reported goes to the end of `diagnostics`: the first
/// error, or the listing of the chunk where there was none. The answer is
/// whether the text compiled without error; the code of a text that did is
/// one expression's program. Whatever the text, the chunk only grows, by
/// whole instructions whose constants it holds, and to no more than 256
/// constants.
pub fn compile<F: Fn(&str) -> u64>(
    source: &str,
    chunk: &mut Chunk,
    decode: F,
    diagnostics: &mut Vec<Fragment>,
) -> (ok: bool)
    requires
        source.spec_bytes().len() < i32::MAX,
        old(chunk).wf(),
        listable(old(chunk)@, 0),
        decodes_numbers(decode),
    ensures
        ok == !compiled(
            source.spec_bytes(),
            old(chunk)@,
            fragment_views(old(diagnostics)@),
            decoding(decode),
        ).had_error,
        final(chunk)@ == compiled(
            source.spec_bytes(),
            old(chunk)@,
            fragment_views(old(diagnostics)@),
            decoding(decode),
        ).chunk,
        fragment_views(final(diagnostics)@) == compiled(
            source.spec_bytes(),
            old(chunk)@,
            fragment_views(old(diagnostics)@),
            decoding(decode),
        ).diagnostics,
        final(chunk).wf(),
        grown(final(chunk)@, old(chunk)@),
        old(chunk)@.constants.len() <= 256 ==> final(chunk)@.constants.len() <= 256,
        listable(final(chunk)@, 0),
        ok ==> expression_program(final(chunk)@, old(chunk)@.code.len() as int),
{
    let scanner = initScanner(source);
    let eof = makeToken(&scanner, TokenType::EOF);
    let mut parser = Parser {
        scanner,
        chunk: initChunk(),
        current: eof,
        previous: eof,
        hadError: false,
        panicMode: false,
        diagnostics: Vec::new(),
    };
    std::mem::swap(chunk, &mut parser.chunk);
    std::mem::swap(diagnostics, &mut parser.diagnostics);
    proof {
        reveal(ParserView::wf);
        assert(parser@ == parser_at_start(
            source.spec_bytes(),
            old(chunk)@,
            fragment_views(old(diagnostics)@),
        ));
        lemma_compiled(
            source.spec_bytes(),
            old(chunk)@,
            fragment_views(old(diagnostics)@),
            decoding(decode),
        );
    }

    advance(&mut parser);
    expression(&mut parser, &decode);
    consume(&mut parser, TokenType::EOF, "Expect end of expression.");
    endCompiler(&mut parser);
    std::mem::swap(chunk, &mut parser.chunk);
    std::mem::swap(diagnostics, &mut parser.diagnostics);
    !parser.hadError
}

} // verus!
