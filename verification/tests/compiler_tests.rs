use rlox::chunk::addConstant;
use rlox::chunk::initChunk;
use rlox::chunk::writeChunk;
use rlox::chunk::Chunk;
use rlox::chunk::OpCode;
use rlox::compiler::advance;
use rlox::compiler::compile;
use rlox::compiler::consume;
use rlox::compiler::emitByte;
use rlox::compiler::emitBytes;
use rlox::compiler::emitConstant;
use rlox::compiler::emitReturn;
use rlox::compiler::endCompiler;
use rlox::compiler::error;
use rlox::compiler::errorAt;
use rlox::compiler::errorAtCurrent;
use rlox::compiler::expression;
use rlox::compiler::getRule;
use rlox::compiler::makeConstant;
use rlox::compiler::parsePrecedence;
use rlox::compiler::Handler;
use rlox::compiler::Parser;
use rlox::compiler::Precedence;
use rlox::debug::isListable;
use rlox::scanner::initScanner;
use rlox::scanner::makeToken;
use rlox::scanner::Token;
use rlox::scanner::TokenType;
use rlox::text::Fragment;
use rlox::value::valuesEqual;
use rlox::value::Value;
use rlox::vm::checkProgram;

const CONSTANT: u8 = 0;
const NIL: u8 = 1;
const TRUE: u8 = 2;
const FALSE: u8 = 3;
const EQUAL: u8 = 4;
const GREATER: u8 = 5;
const LESS: u8 = 6;
const ADD: u8 = 7;
const SUBTRACT: u8 = 8;
const MULTIPLY: u8 = 9;
const DIVIDE: u8 = 10;
const NOT: u8 = 11;
const NEGATE: u8 = 12;
const RETURN: u8 = 13;

fn decode(lexeme: &str) -> u64 {
    lexeme.parse::<f64>().unwrap().to_bits()
}

fn text(fragments: &Vec<Fragment>) -> String {
    let mut all = String::new();
    for fragment in fragments {
        match fragment {
            Fragment::Text(piece) => all.push_str(piece),
            Fragment::Number(bits) => all.push_str(&format!("{}", f64::from_bits(*bits))),
        }
    }
    all
}

fn compiled(source: &str) -> (bool, Chunk, String) {
    let mut chunk = initChunk();
    let mut diagnostics = Vec::new();
    let ok = compile(source, &mut chunk, decode, &mut diagnostics);
    (ok, chunk, text(&diagnostics))
}

fn code(source: &str) -> Vec<u8> {
    let (ok, chunk, diagnostics) = compiled(source);
    assert!(ok, "{}: {}", source, diagnostics);
    assert_eq!(chunk.code.len(), chunk.lines.len());
    assert!(checkProgram(&chunk));
    assert!(isListable(&chunk));
    chunk.code
}

fn number(n: f64) -> Value {
    Value::NUMBER(n.to_bits())
}

#[test]
fn a_sum_is_compiled_to_postfix_code() {
    let (ok, chunk, diagnostics) = compiled("1 + 2");
    assert!(ok);
    assert_eq!(chunk.code, vec![CONSTANT, 0, CONSTANT, 1, ADD, RETURN]);
    assert_eq!(chunk.lines, vec![1, 1, 1, 1, 1, 1]);
    assert_eq!(chunk.constants.count(), 2);
    assert!(valuesEqual(&chunk.constants.values[0], &number(1.0)));
    assert!(valuesEqual(&chunk.constants.values[1], &number(2.0)));
    assert_eq!(
        diagnostics,
        "== code ==\n\
         0000    1 OP_CONSTANT         0 '1'\n\
         0002    | OP_CONSTANT         1 '2'\n\
         0004    | OP_ADD\n\
         0005    | OP_RETURN\n"
    );
}

#[test]
fn the_listing_of_compiled_code_ends_with_the_return() {
    for source in ["nil", "1 + 2 * 3", "!(5 - 4 > 3 * 2 == !nil)", "\"a\" + \"b\""] {
        let (ok, _, diagnostics) = compiled(source);
        assert!(ok);
        let last = diagnostics.lines().last().unwrap();
        assert!(last.ends_with(" OP_RETURN"), "{}", last);
        assert_eq!(diagnostics.matches("OP_RETURN").count(), 1);
    }
}

#[test]
fn compiled_code_ends_with_its_only_return() {
    for source in ["nil", "1 + 2 * 3", "!(5 - 4 > 3 * 2 == !nil)", "\"a\" + \"b\"", "-(1 - 13)"] {
        let code = code(source);
        assert_eq!(*code.last().unwrap(), RETURN);
        let mut offset = 0;
        while offset < code.len() - 1 {
            assert_ne!(code[offset], RETURN);
            offset += if code[offset] == CONSTANT { 2 } else { 1 };
        }
        assert_eq!(offset, code.len() - 1);
    }
    // The constant with index 13 is no return.
    let sum = code(&sum_of(14));
    assert_eq!(&sum[sum.len() - 4..], &[CONSTANT, 13, ADD, RETURN]);
}

#[test]
fn operators_of_one_precedence_are_compiled_left_to_right() {
    assert_eq!(code("10 - 4 - 3"), vec![CONSTANT, 0, CONSTANT, 1, SUBTRACT, CONSTANT, 2, SUBTRACT, RETURN]);
    assert_eq!(code("8 / 4 * 2"), vec![CONSTANT, 0, CONSTANT, 1, DIVIDE, CONSTANT, 2, MULTIPLY, RETURN]);
    assert_eq!(code("nil == nil != nil"), vec![NIL, NIL, EQUAL, NIL, EQUAL, NOT, RETURN]);
    assert_eq!(code("nil < nil >= nil"), vec![NIL, NIL, LESS, NIL, LESS, NOT, RETURN]);
}

#[test]
fn every_pair_of_operators_of_one_precedence_groups_to_the_left() {
    let levels: [&[(&str, &[u8])]; 4] = [
        &[("+", &[ADD]), ("-", &[SUBTRACT])],
        &[("*", &[MULTIPLY]), ("/", &[DIVIDE])],
        &[("==", &[EQUAL]), ("!=", &[EQUAL, NOT])],
        &[("<", &[LESS]), ("<=", &[GREATER, NOT]), (">", &[GREATER]), (">=", &[LESS, NOT])],
    ];
    for level in levels {
        for (first, first_code) in level {
            for (second, second_code) in level {
                let source = format!("1.5 {} 20 {} 0.25\0", first, second);
                let (ok, chunk, diagnostics) = compiled(&source);
                assert!(ok, "{}: {}", source, diagnostics);
                let mut expected = vec![CONSTANT, 0, CONSTANT, 1];
                expected.extend_from_slice(first_code);
                expected.extend_from_slice(&[CONSTANT, 2]);
                expected.extend_from_slice(second_code);
                expected.push(RETURN);
                assert_eq!(chunk.code, expected, "{}", source);
                assert_eq!(chunk.constants.count(), 3);
                assert!(valuesEqual(&chunk.constants.values[0], &number(1.5)));
                assert!(valuesEqual(&chunk.constants.values[1], &number(20.0)));
                assert!(valuesEqual(&chunk.constants.values[2], &number(0.25)));
            }
        }
    }
}

#[test]
fn a_tighter_operator_takes_its_operands_first() {
    assert_eq!(code("1 + 2 * 3"), vec![CONSTANT, 0, CONSTANT, 1, CONSTANT, 2, MULTIPLY, ADD, RETURN]);
    assert_eq!(code("1 * 2 + 3"), vec![CONSTANT, 0, CONSTANT, 1, MULTIPLY, CONSTANT, 2, ADD, RETURN]);
    assert_eq!(code("nil == nil < nil"), vec![NIL, NIL, NIL, LESS, EQUAL, RETURN]);
    assert_eq!(code("nil < nil + nil"), vec![NIL, NIL, NIL, ADD, LESS, RETURN]);
    assert_eq!(code("-nil * nil"), vec![NIL, NEGATE, NIL, MULTIPLY, RETURN]);
    assert_eq!(code("!nil == nil"), vec![NIL, NOT, NIL, EQUAL, RETURN]);
    assert_eq!(code("nil - -nil"), vec![NIL, NIL, NEGATE, SUBTRACT, RETURN]);
}

#[test]
fn a_group_is_compiled_as_one_operand() {
    assert_eq!(code("(nil)"), vec![NIL, RETURN]);
    assert_eq!(code("nil * (nil + nil)"), vec![NIL, NIL, NIL, ADD, MULTIPLY, RETURN]);
    assert_eq!(code("(nil - nil) - nil"), vec![NIL, NIL, SUBTRACT, NIL, SUBTRACT, RETURN]);
    assert_eq!(code("nil - (nil - nil)"), vec![NIL, NIL, NIL, SUBTRACT, SUBTRACT, RETURN]);
    assert_eq!(code("-(nil)"), vec![NIL, NEGATE, RETURN]);
    assert_eq!(code("((true))"), vec![TRUE, RETURN]);
}

#[test]
fn every_binary_operator_has_its_instructions() {
    assert_eq!(code("true + false"), vec![TRUE, FALSE, ADD, RETURN]);
    assert_eq!(code("true - false"), vec![TRUE, FALSE, SUBTRACT, RETURN]);
    assert_eq!(code("true * false"), vec![TRUE, FALSE, MULTIPLY, RETURN]);
    assert_eq!(code("true / false"), vec![TRUE, FALSE, DIVIDE, RETURN]);
    assert_eq!(code("true == false"), vec![TRUE, FALSE, EQUAL, RETURN]);
    assert_eq!(code("true != false"), vec![TRUE, FALSE, EQUAL, NOT, RETURN]);
    assert_eq!(code("true < false"), vec![TRUE, FALSE, LESS, RETURN]);
    assert_eq!(code("true <= false"), vec![TRUE, FALSE, GREATER, NOT, RETURN]);
    assert_eq!(code("true > false"), vec![TRUE, FALSE, GREATER, RETURN]);
    assert_eq!(code("true >= false"), vec![TRUE, FALSE, LESS, NOT, RETURN]);
}

#[test]
fn unary_operators_and_literals() {
    assert_eq!(code("!true"), vec![TRUE, NOT, RETURN]);
    assert_eq!(code("-false"), vec![FALSE, NEGATE, RETURN]);
    assert_eq!(code("!-!nil"), vec![NIL, NOT, NEGATE, NOT, RETURN]);
    assert_eq!(code("nil"), vec![NIL, RETURN]);
    assert_eq!(code("true"), vec![TRUE, RETURN]);
    assert_eq!(code("false"), vec![FALSE, RETURN]);
}

#[test]
fn a_string_constant_has_no_quotes() {
    let (ok, chunk, _) = compiled("\"st\" + \"\" + \"gr\u{fc}n\"");
    assert!(ok);
    assert_eq!(chunk.code, vec![CONSTANT, 0, CONSTANT, 1, ADD, CONSTANT, 2, ADD, RETURN]);
    let strings: Vec<String> = chunk
        .constants
        .values
        .iter()
        .map(|value| match rlox::object::AS_STRING(value) {
            Some(string) => String::from(string.str()),
            None => panic!("not a string"),
        })
        .collect();
    assert_eq!(strings, vec!["st", "", "gr\u{fc}n"]);
}

#[test]
fn a_number_constant_is_what_the_decoder_reads() {
    let mut chunk = initChunk();
    let mut diagnostics = Vec::new();
    let seen = std::cell::RefCell::new(Vec::new());
    let ok = compile(
        "12.5 + 007 - 3",
        &mut chunk,
        |lexeme: &str| {
            seen.borrow_mut().push(String::from(lexeme));
            lexeme.len() as u64
        },
        &mut diagnostics,
    );
    assert!(ok);
    assert_eq!(*seen.borrow(), vec!["12.5", "007", "3"]);
    assert!(matches!(chunk.constants.values[0], Value::NUMBER(4)));
    assert!(matches!(chunk.constants.values[1], Value::NUMBER(3)));
    assert!(matches!(chunk.constants.values[2], Value::NUMBER(1)));
}

#[test]
fn bytes_are_charged_to_the_line_of_their_token() {
    let (ok, chunk, _) = compiled("1 +\n2 *\n\n3");
    assert!(ok);
    assert_eq!(chunk.code, vec![CONSTANT, 0, CONSTANT, 1, CONSTANT, 2, MULTIPLY, ADD, RETURN]);
    assert_eq!(chunk.lines, vec![1, 1, 2, 2, 4, 4, 4, 4, 4]);
}

fn sum_of(count: usize) -> String {
    let mut source = String::from("1");
    for _ in 1..count {
        source.push_str(" + 1");
    }
    source
}

#[test]
fn a_chunk_holds_256_constants() {
    let (ok, chunk, _) = compiled(&sum_of(256));
    assert!(ok);
    assert_eq!(chunk.constants.count(), 256);
    assert_eq!(chunk.code[chunk.code.len() - 3], 255);
    let mut offset = 0;
    while offset < chunk.code.len() {
        if chunk.code[offset] == CONSTANT {
            assert!((chunk.code[offset + 1] as usize) < chunk.constants.count());
            offset += 2;
        } else {
            offset += 1;
        }
    }
}

#[test]
fn one_constant_more_is_too_many() {
    let (ok, chunk, diagnostics) = compiled(&sum_of(257));
    assert!(!ok);
    assert_eq!(diagnostics, "[line 1] Error at '1': Too many constants in one chunk.\n");
    // The chunk keeps its 256 constants, and the instruction of the
    // constant that has no index names constant 0.
    assert_eq!(chunk.constants.count(), 256);
    assert_eq!(&chunk.code[chunk.code.len() - 4..], &[CONSTANT, 0, ADD, RETURN]);
    assert_eq!(chunk.code.len(), chunk.lines.len());
    assert!(isListable(&chunk));
}

#[test]
fn a_rejected_text_leaves_no_more_than_256_constants() {
    let (ok, chunk, diagnostics) = compiled(&sum_of(300));
    assert!(!ok);
    assert_eq!(diagnostics, "[line 1] Error at '1': Too many constants in one chunk.\n");
    assert_eq!(chunk.constants.count(), 256);
    let mut offset = 0;
    while offset < chunk.code.len() {
        if chunk.code[offset] == CONSTANT {
            assert!((chunk.code[offset + 1] as usize) < chunk.constants.count());
            offset += 2;
        } else {
            offset += 1;
        }
    }
    assert_eq!(offset, chunk.code.len());
}

#[test]
fn every_compiled_chunk_can_be_listed() {
    for source in ["", "1 +", "(1", "1 2", ") 1", "@", "\"open", "1 + * 2", "-", "((", "1 + (2 * 3"] {
        let (ok, chunk, _) = compiled(source);
        assert!(!ok, "{}", source);
        assert_eq!(chunk.code.len(), chunk.lines.len());
        assert!(isListable(&chunk), "{}", source);
        assert_eq!(*chunk.code.last().unwrap(), RETURN);
    }
}

#[test]
fn the_constant_after_the_last_is_refused() {
    let mut parser = parser_at("nil");
    advance(&mut parser);
    for expected in 0..256usize {
        assert_eq!(makeConstant(&mut parser, Value::NIL) as usize, expected);
    }
    assert!(!parser.hadError);
    assert_eq!(parser.chunk.constants.count(), 256);
    assert_eq!(makeConstant(&mut parser, Value::BOOL(true)), 0);
    assert!(parser.hadError && parser.panicMode);
    assert_eq!(parser.chunk.constants.count(), 256);
    assert!(valuesEqual(&parser.chunk.constants.values[255], &Value::NIL));
    assert!(parser.chunk.code.is_empty() && parser.chunk.lines.is_empty());
    assert_eq!(text(&parser.diagnostics), "[line 1] Error at 'nil': Too many constants in one chunk.\n");
    emitConstant(&mut parser, Value::BOOL(true));
    assert_eq!(parser.chunk.constants.count(), 256);
    assert_eq!(parser.chunk.code, vec![CONSTANT, 0]);
}

#[test]
fn strings_count_as_constants_too() {
    let mut source = String::from("\"a\"");
    for _ in 0..256 {
        source.push_str(" + \"a\"");
    }
    let (ok, chunk, diagnostics) = compiled(&source);
    assert!(!ok);
    assert_eq!(diagnostics, "[line 1] Error at '\"a\"': Too many constants in one chunk.\n");
    assert_eq!(chunk.constants.count(), 256);
}

#[test]
fn only_the_first_error_is_reported() {
    let (ok, chunk, diagnostics) = compiled("(1 + ) * @ \"open");
    assert!(!ok);
    assert_eq!(diagnostics, "[line 1] Error at ')': Expect expression.\n");
    assert_eq!(*chunk.code.last().unwrap(), RETURN);
    assert_eq!(chunk.code.len(), chunk.lines.len());
}

#[test]
fn errors_name_their_token() {
    assert_eq!(compiled("").2, "[line 1] Error at end: Expect expression.\n");
    assert_eq!(compiled("\n\n").2, "[line 3] Error at end: Expect expression.\n");
    assert_eq!(compiled("1 +").2, "[line 1] Error at end: Expect expression.\n");
    assert_eq!(compiled("(1").2, "[line 1] Error at end: Expect ')' after expression.\n");
    assert_eq!(compiled("(1 2").2, "[line 1] Error at '2': Expect ')' after expression.\n");
    assert_eq!(compiled("1 nil").2, "[line 1] Error at 'nil': Expect end of expression.\n");
    assert_eq!(compiled("* 1").2, "[line 1] Error at '*': Expect expression.\n");
    assert_eq!(compiled("x").2, "[line 1] Error at 'x': Expect expression.\n");
    assert_eq!(compiled("1 = 2").2, "[line 1] Error at '=': Expect end of expression.\n");
    assert_eq!(compiled("1 +\n  print").2, "[line 2] Error at 'print': Expect expression.\n");
    assert_eq!(compiled("#").2, "[line 1] Error: Unexpected character.\n");
    assert_eq!(compiled("1 + \"a\nb").2, "[line 2] Error: Unterminated string.\n");
    assert_eq!(compiled("1 \u{e9}").2, "[line 1] Error: Unexpected character.\n");
}

#[test]
fn compiling_changes_nothing_that_was_written() {
    let mut chunk = initChunk();
    addConstant(&mut chunk, Value::BOOL(true));
    writeChunk(&mut chunk, OpCode::NIL.byte(), 7);
    writeChunk(&mut chunk, OpCode::RETURN.byte(), 8);
    for source in ["1 + 2", "1 +", "\"s\" @"] {
        let mut diagnostics = Vec::new();
        compile(source, &mut chunk, decode, &mut diagnostics);
        assert_eq!(&chunk.code[..2], &[NIL, RETURN]);
        assert_eq!(&chunk.lines[..2], &[7, 8]);
        assert!(valuesEqual(&chunk.constants.values[0], &Value::BOOL(true)));
        assert_eq!(chunk.code.len(), chunk.lines.len());
    }
}

#[test]
fn compiling_goes_on_at_the_end_of_a_chunk() {
    let mut chunk = initChunk();
    addConstant(&mut chunk, Value::NIL);
    writeChunk(&mut chunk, OpCode::CONSTANT.byte(), 9);
    writeChunk(&mut chunk, 0, 9);
    writeChunk(&mut chunk, OpCode::RETURN.byte(), 9);
    let mut diagnostics = vec![Fragment::Text(String::from("kept\n"))];
    assert!(compile("-5", &mut chunk, decode, &mut diagnostics));
    assert_eq!(chunk.code, vec![CONSTANT, 0, RETURN, CONSTANT, 1, NEGATE, RETURN]);
    assert_eq!(chunk.lines, vec![9, 9, 9, 1, 1, 1, 1]);
    assert_eq!(chunk.constants.count(), 2);
    assert!(text(&diagnostics).starts_with("kept\n== code ==\n0000    9 OP_CONSTANT         0 'nil'\n"));
    assert!(text(&diagnostics).ends_with("0006    | OP_RETURN\n"));
}

#[test]
fn the_rule_table() {
    let binary = |kind, precedence| {
        let rule = getRule(kind);
        assert_eq!(rule.infix, Some(Handler::BINARY));
        assert_eq!(rule.precedence, precedence);
        rule.prefix
    };
    assert_eq!(binary(TokenType::MINUS, Precedence::TERM), Some(Handler::UNARY));
    assert_eq!(binary(TokenType::PLUS, Precedence::TERM), None);
    assert_eq!(binary(TokenType::SLASH, Precedence::FACTOR), None);
    assert_eq!(binary(TokenType::STAR, Precedence::FACTOR), None);
    assert_eq!(binary(TokenType::BANG_EQUAL, Precedence::EQUALITY), None);
    assert_eq!(binary(TokenType::EQUAL_EQUAL, Precedence::EQUALITY), None);
    assert_eq!(binary(TokenType::LESS, Precedence::COMPARISON), None);
    assert_eq!(binary(TokenType::LESS_EQUAL, Precedence::COMPARISON), None);
    assert_eq!(binary(TokenType::GREATER, Precedence::COMPARISON), None);
    assert_eq!(binary(TokenType::GREATER_EQUAL, Precedence::COMPARISON), None);
    let prefix = |kind, handler| {
        let rule = getRule(kind);
        assert_eq!(rule.prefix, Some(handler));
        assert_eq!(rule.infix, None);
        assert_eq!(rule.precedence, Precedence::NONE);
    };
    prefix(TokenType::LEFT_PAREN, Handler::GROUPING);
    prefix(TokenType::BANG, Handler::UNARY);
    prefix(TokenType::NUMBER, Handler::NUMBER);
    prefix(TokenType::STRING, Handler::STRING);
    prefix(TokenType::FALSE, Handler::LITERAL);
    prefix(TokenType::NIL, Handler::LITERAL);
    prefix(TokenType::TRUE, Handler::LITERAL);
    for kind in [
        TokenType::RIGHT_PAREN,
        TokenType::LEFT_BRACE,
        TokenType::RIGHT_BRACE,
        TokenType::COMMA,
        TokenType::DOT,
        TokenType::SEMICOLON,
        TokenType::EQUAL,
        TokenType::IDENTIFIER,
        TokenType::AND,
        TokenType::CLASS,
        TokenType::ELSE,
        TokenType::FOR,
        TokenType::FUN,
        TokenType::IF,
        TokenType::OR,
        TokenType::PRINT,
        TokenType::RETURN,
        TokenType::SUPER,
        TokenType::THIS,
        TokenType::VAR,
        TokenType::WHILE,
        TokenType::ERROR,
        TokenType::EOF,
    ] {
        let rule = getRule(kind);
        assert_eq!(rule.prefix, None);
        assert_eq!(rule.infix, None);
        assert_eq!(rule.precedence, Precedence::NONE);
    }
}

#[test]
fn precedence_levels_are_ranked_from_zero() {
    let levels = [
        Precedence::NONE,
        Precedence::ASSIGNMENT,
        Precedence::OR,
        Precedence::AND,
        Precedence::EQUALITY,
        Precedence::COMPARISON,
        Precedence::TERM,
        Precedence::FACTOR,
        Precedence::UNARY,
        Precedence::CALL,
        Precedence::PRIMARY,
    ];
    for (rank, level) in levels.into_iter().enumerate() {
        assert_eq!(level.rank() as usize, rank);
        assert_eq!(Precedence::from_u8(rank as u8), Some(level));
    }
    assert_eq!(Precedence::from_u8(11), None);
    assert_eq!(Precedence::from_u8(255), None);
}

fn parser_at<'a>(source: &'a str) -> Parser<'a> {
    let scanner = initScanner(source);
    let eof = makeToken(&scanner, TokenType::EOF);
    let mut parser = Parser {
        scanner,
        chunk: initChunk(),
        current: eof,
        previous: eof,
        hadError: false,
        panicMode: false,
        diagnostics: Vec::new(),
    };
    advance(&mut parser);
    parser
}

#[test]
fn the_parser_walks_the_tokens() {
    let mut parser = parser_at("1 + 2");
    assert_eq!(parser.previous.token_type, TokenType::EOF);
    assert_eq!(parser.current.token_type, TokenType::NUMBER);
    advance(&mut parser);
    assert_eq!(parser.previous.start, "1");
    assert_eq!(parser.current.token_type, TokenType::PLUS);
    consume(&mut parser, TokenType::PLUS, "Expect '+'.");
    assert!(!parser.hadError);
    assert_eq!(parser.previous.token_type, TokenType::PLUS);
    assert_eq!(parser.current.start, "2");
    consume(&mut parser, TokenType::PLUS, "Expect '+'.");
    assert!(parser.hadError && parser.panicMode);
    assert_eq!(parser.current.start, "2");
    assert_eq!(text(&parser.diagnostics), "[line 1] Error at '2': Expect '+'.\n");
}

#[test]
fn an_error_token_is_reported_and_stays() {
    let mut parser = parser_at("1 @ 2");
    advance(&mut parser);
    assert_eq!(parser.current.token_type, TokenType::ERROR);
    assert!(parser.hadError && parser.panicMode);
    assert_eq!(text(&parser.diagnostics), "[line 1] Error: Unexpected character.\n");
}

#[test]
fn error_reports() {
    let mut parser = parser_at("abc");
    let token = Token { token_type: TokenType::STAR, start: "*", line: 12 };
    errorAt(&mut parser, token, "First.");
    assert!(parser.hadError && parser.panicMode);
    errorAt(&mut parser, token, "Suppressed.");
    assert_eq!(text(&parser.diagnostics), "[line 12] Error at '*': First.\n");

    let mut parser = parser_at("abc def");
    errorAtCurrent(&mut parser, "Here.");
    assert_eq!(text(&parser.diagnostics), "[line 1] Error at 'abc': Here.\n");

    let mut parser = parser_at("abc def");
    advance(&mut parser);
    error(&mut parser, "There.");
    assert_eq!(text(&parser.diagnostics), "[line 1] Error at 'abc': There.\n");

    let mut parser = parser_at("");
    let negative = Token { token_type: TokenType::EOF, start: "", line: -3 };
    errorAt(&mut parser, negative, "Odd.");
    assert_eq!(text(&parser.diagnostics), "[line -3] Error at end: Odd.\n");
}

#[test]
fn emitting() {
    let mut parser = parser_at("\n\nnil");
    advance(&mut parser);
    emitByte(&mut parser, 42);
    emitBytes(&mut parser, 1, 2);
    emitReturn(&mut parser);
    assert_eq!(parser.chunk.code, vec![42, 1, 2, RETURN]);
    assert_eq!(parser.chunk.lines, vec![3, 3, 3, 3]);
    assert_eq!(makeConstant(&mut parser, Value::NIL), 0);
    assert_eq!(makeConstant(&mut parser, Value::NIL), 1);
    emitConstant(&mut parser, Value::BOOL(true));
    assert_eq!(parser.chunk.code, vec![42, 1, 2, RETURN, CONSTANT, 2]);
    assert_eq!(parser.chunk.constants.count(), 3);
}

#[test]
fn parsing_stops_before_a_looser_operator() {
    let mut parser = parser_at("nil * nil + nil");
    parsePrecedence(&mut parser, Precedence::FACTOR, &decode);
    assert_eq!(parser.chunk.code, vec![NIL, NIL, MULTIPLY]);
    assert_eq!(parser.current.token_type, TokenType::PLUS);

    let mut parser = parser_at("nil * nil + nil");
    parsePrecedence(&mut parser, Precedence::UNARY, &decode);
    assert_eq!(parser.chunk.code, vec![NIL]);
    assert_eq!(parser.current.token_type, TokenType::STAR);

    let mut parser = parser_at("nil * nil + nil )");
    expression(&mut parser, &decode);
    assert_eq!(parser.chunk.code, vec![NIL, NIL, MULTIPLY, NIL, ADD]);
    assert_eq!(parser.current.token_type, TokenType::RIGHT_PAREN);
    assert!(!parser.hadError);
}

#[test]
fn the_end_of_compiling() {
    let mut parser = parser_at("nil");
    expression(&mut parser, &decode);
    endCompiler(&mut parser);
    assert_eq!(parser.chunk.code, vec![NIL, RETURN]);
    assert_eq!(text(&parser.diagnostics), "== code ==\n0000    1 OP_NIL\n0001    | OP_RETURN\n");

    let mut parser = parser_at("+");
    expression(&mut parser, &decode);
    endCompiler(&mut parser);
    assert_eq!(parser.chunk.code, vec![RETURN]);
    assert_eq!(text(&parser.diagnostics), "[line 1] Error at '+': Expect expression.\n");
}
