use rlox::chunk::addConstant;
use rlox::chunk::initChunk;
use rlox::chunk::writeChunk;
use rlox::chunk::OpCode;
use rlox::text::decimal_text;
use rlox::text::digit_text;
use rlox::text::left_aligned_text;
use rlox::text::repeated_text;
use rlox::text::right_aligned_text;
use rlox::text::signed_decimal_text;
use rlox::value::valuesEqual;
use rlox::value::Value;

fn all_opcodes() -> Vec<OpCode> {
    vec![
        OpCode::CONSTANT,
        OpCode::NIL,
        OpCode::TRUE,
        OpCode::FALSE,
        OpCode::EQUAL,
        OpCode::GREATER,
        OpCode::LESS,
        OpCode::ADD,
        OpCode::SUBTRACT,
        OpCode::MULTIPLY,
        OpCode::DIVIDE,
        OpCode::NOT,
        OpCode::NEGATE,
        OpCode::RETURN,
    ]
}

#[test]
fn opcodes_are_numbered_in_order_from_zero() {
    for (ordinal, op) in all_opcodes().into_iter().enumerate() {
        assert_eq!(op.byte() as usize, ordinal);
        assert_eq!(OpCode::from_u8(ordinal as u8), Some(op));
    }
}

#[test]
fn other_bytes_are_no_opcodes() {
    for byte in 14..=255u8 {
        assert_eq!(OpCode::from_u8(byte), None);
    }
}

#[test]
fn a_new_chunk_is_empty() {
    let chunk = initChunk();
    assert!(chunk.code.is_empty());
    assert!(chunk.lines.is_empty());
    assert_eq!(chunk.constants.count(), 0);
}

#[test]
fn every_byte_written_has_its_line() {
    let mut chunk = initChunk();
    writeChunk(&mut chunk, 1, 7);
    writeChunk(&mut chunk, 13, 9);
    writeChunk(&mut chunk, 200, 9);
    assert_eq!(chunk.code, vec![1, 13, 200]);
    assert_eq!(chunk.lines, vec![7, 9, 9]);
    assert_eq!(chunk.code.len(), chunk.lines.len());
    assert_eq!(chunk.constants.count(), 0);
}

#[test]
fn constants_are_indexed_from_zero() {
    let mut chunk = initChunk();
    assert_eq!(addConstant(&mut chunk, Value::NUMBER(1.5f64.to_bits())), 0);
    assert_eq!(addConstant(&mut chunk, Value::NIL), 1);
    assert_eq!(addConstant(&mut chunk, Value::NUMBER(1.5f64.to_bits())), 2);
    assert_eq!(chunk.constants.count(), 3);
    assert!(valuesEqual(&chunk.constants.values[0], &Value::NUMBER(1.5f64.to_bits())));
    assert!(valuesEqual(&chunk.constants.values[1], &Value::NIL));
    assert!(chunk.code.is_empty());
    assert!(chunk.lines.is_empty());
}

#[test]
fn a_chunk_takes_more_constants_than_a_byte_can_index() {
    let mut chunk = initChunk();
    for expected in 0..300usize {
        assert_eq!(addConstant(&mut chunk, Value::BOOL(true)), expected);
    }
    assert_eq!(chunk.constants.count(), 300);
}

#[test]
fn decimal_numbers() {
    assert_eq!(decimal_text(0), "0");
    assert_eq!(decimal_text(7), "7");
    assert_eq!(decimal_text(10), "10");
    assert_eq!(decimal_text(1234567890), "1234567890");
    assert_eq!(decimal_text(u64::MAX), "18446744073709551615");
    assert_eq!(signed_decimal_text(0), "0");
    assert_eq!(signed_decimal_text(42), "42");
    assert_eq!(signed_decimal_text(-42), "-42");
    assert_eq!(signed_decimal_text(i64::MAX), "9223372036854775807");
    assert_eq!(signed_decimal_text(i64::MIN), "-9223372036854775808");
    for digit in 0..10u8 {
        assert_eq!(digit_text(digit), format!("{}", digit));
    }
}

#[test]
fn columns() {
    assert_eq!(right_aligned_text("7", 4, "0"), "0007");
    assert_eq!(right_aligned_text("1234", 4, "0"), "1234");
    assert_eq!(right_aligned_text("12345", 4, "0"), "12345");
    assert_eq!(right_aligned_text("12", 4, " "), "  12");
    assert_eq!(right_aligned_text("", 3, " "), "   ");
    assert_eq!(left_aligned_text("OP_CONSTANT", 16), "OP_CONSTANT     ");
    assert_eq!(left_aligned_text("a_name_of_more_than_sixteen", 16), "a_name_of_more_than_sixteen");
    assert_eq!(left_aligned_text("", 2), "  ");
    assert_eq!(left_aligned_text("\u{e9}t\u{e9}", 5), "\u{e9}t\u{e9}  ");
    assert_eq!(repeated_text("-", 3), "---");
    assert_eq!(repeated_text("-", 0), "");
}
