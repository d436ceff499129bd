use rlox::chunk::addConstant;
use rlox::chunk::initChunk;
use rlox::chunk::writeChunk;
use rlox::chunk::Chunk;
use rlox::chunk::OpCode;
use rlox::debug::disassembleChunk;
use rlox::debug::disassembleInstruction;
use rlox::debug::isDecodable;
use rlox::debug::isListable;
use rlox::debug::mnemonicText;
use rlox::object::takeString;
use rlox::object::Obj;
use rlox::object::ObjTrait;
use rlox::text::Fragment;
use rlox::value::Value;

fn text(fragments: &Vec<Fragment>) -> String {
    let mut all = String::new();
    for fragment in fragments {
        match fragment {
            Fragment::Text(piece) => all.push_str(piece),
            Fragment::Number(bits) => all.push_str(&format!("{}", f64::from_bits(*bits))),
        }
    }
    all
}

fn sample() -> Chunk {
    // 1.2 + "st", then a return on the next line.
    let mut chunk = initChunk();
    let number = addConstant(&mut chunk, Value::NUMBER(1.2f64.to_bits()));
    let string = addConstant(&mut chunk, Obj::VAL(takeString(String::from("st"))));
    writeChunk(&mut chunk, OpCode::CONSTANT.byte(), 123);
    writeChunk(&mut chunk, number as u8, 123);
    writeChunk(&mut chunk, OpCode::CONSTANT.byte(), 123);
    writeChunk(&mut chunk, string as u8, 123);
    writeChunk(&mut chunk, OpCode::ADD.byte(), 123);
    writeChunk(&mut chunk, OpCode::RETURN.byte(), 124);
    chunk
}

#[test]
fn a_chunk_is_listed_line_by_line() {
    let mut out = Vec::new();
    disassembleChunk(&sample(), "test chunk", &mut out);
    assert_eq!(
        text(&out),
        "== test chunk ==\n\
         0000  123 OP_CONSTANT         0 '1.2'\n\
         0002    | OP_CONSTANT         1 'st'\n\
         0004    | OP_ADD\n\
         0005  124 OP_RETURN\n"
    );
}

#[test]
fn the_listing_goes_to_the_end_of_what_is_there() {
    let mut out = vec![Fragment::Text(String::from("before\n"))];
    disassembleChunk(&initChunk(), "empty", &mut out);
    assert_eq!(text(&out), "before\n== empty ==\n");
}

#[test]
fn a_number_constant_is_handed_out_as_its_bits() {
    let mut out = Vec::new();
    disassembleInstruction(&sample(), 0, &mut out);
    assert_eq!(out.len(), 3);
    assert!(matches!(&out[0], Fragment::Text(start) if start == "0000  123 OP_CONSTANT         0 '"));
    assert!(matches!(&out[1], Fragment::Number(bits) if *bits == 1.2f64.to_bits()));
    assert!(matches!(&out[2], Fragment::Text(end) if end == "'\n"));
}

#[test]
fn offsets_grow_by_one_or_two() {
    let chunk = sample();
    let mut out = Vec::new();
    assert_eq!(disassembleInstruction(&chunk, 0, &mut out), 2);
    assert_eq!(disassembleInstruction(&chunk, 2, &mut out), 4);
    assert_eq!(disassembleInstruction(&chunk, 4, &mut out), 5);
    assert_eq!(disassembleInstruction(&chunk, 5, &mut out), 6);
}

#[test]
fn every_instruction_has_its_name() {
    let names = [
        (OpCode::CONSTANT, "OP_CONSTANT"),
        (OpCode::NIL, "OP_NIL"),
        (OpCode::TRUE, "OP_TRUE"),
        (OpCode::FALSE, "OP_FALSE"),
        (OpCode::EQUAL, "OP_EQUAL"),
        (OpCode::GREATER, "OP_GREATER"),
        (OpCode::LESS, "OP_LESS"),
        (OpCode::ADD, "OP_ADD"),
        (OpCode::SUBTRACT, "OP_SUBTRACT"),
        (OpCode::MULTIPLY, "OP_MULTIPLY"),
        (OpCode::DIVIDE, "OP_DIVIDE"),
        (OpCode::NOT, "OP_NOT"),
        (OpCode::NEGATE, "OP_NEGATE"),
        (OpCode::RETURN, "OP_RETURN"),
    ];
    let mut chunk = initChunk();
    for (op, _) in names {
        if op != OpCode::CONSTANT {
            writeChunk(&mut chunk, op.byte(), 1);
        }
    }
    let mut offset = 0;
    for (op, name) in names {
        assert_eq!(mnemonicText(op), name);
        if op != OpCode::CONSTANT {
            let mut out = Vec::new();
            let next = disassembleInstruction(&chunk, offset, &mut out);
            let column = if offset == 0 { "   1" } else { "   |" };
            assert_eq!(text(&out), format!("{:04} {} {}\n", offset, column, name));
            assert_eq!(next, offset + 1);
            offset = next;
        }
    }
}

#[test]
fn wide_offsets_and_lines_are_not_cut() {
    let mut chunk = initChunk();
    for _ in 0..12345 {
        writeChunk(&mut chunk, OpCode::NIL.byte(), 1);
    }
    writeChunk(&mut chunk, OpCode::NOT.byte(), 98765);
    let mut out = Vec::new();
    disassembleInstruction(&chunk, 12344, &mut out);
    disassembleInstruction(&chunk, 12345, &mut out);
    assert_eq!(text(&out), "12344    | OP_NIL\n12345 98765 OP_NOT\n");
}

#[test]
fn malformed_code_is_recognised() {
    let chunk = sample();
    assert!(isListable(&chunk));
    for offset in [0, 2, 4, 5] {
        assert!(isDecodable(&chunk, offset));
    }
    assert!(!isDecodable(&chunk, 6));

    let mut unknown = initChunk();
    writeChunk(&mut unknown, 14, 1);
    assert!(!isDecodable(&unknown, 0));
    assert!(!isListable(&unknown));

    let mut cut = initChunk();
    writeChunk(&mut cut, OpCode::CONSTANT.byte(), 1);
    assert!(!isDecodable(&cut, 0));
    assert!(!isListable(&cut));

    let mut missing = initChunk();
    writeChunk(&mut missing, OpCode::CONSTANT.byte(), 1);
    writeChunk(&mut missing, 0, 1);
    assert!(!isDecodable(&missing, 0));
    addConstant(&mut missing, Value::NIL);
    assert!(isDecodable(&missing, 0));
    assert!(isListable(&missing));

    let mut unlined = sample();
    unlined.lines.pop();
    assert!(!isListable(&unlined));
    assert!(!isDecodable(&unlined, 0));

    assert!(isListable(&initChunk()));
}
