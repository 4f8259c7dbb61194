use cbasm::build;
use cbasm::error::AsmError;
use cbasm::lexer::lex;
use cbasm::operand::{parse_line, Instruction};
use cbasm::resolver::resolve;
use cbasm::vm::serialize;
use cbvm::builder::bytes::ByteStream;
use cbvm::bytecode::ops::Operations;
use cbvm::bytecode::types::Types;

fn contents(stream: &ByteStream) -> Vec<(u8, u64)> {
    stream.bytes.iter().map(|b| (b.tp as u8, *b.data)).collect()
}

fn stream_of(source: &str) -> ByteStream {
    build(source.to_string()).unwrap().bytecode
}

fn failure_of(source: &str) -> Option<AsmError> {
    build(source.to_string()).err()
}

fn opcode(operation: Operations) -> (u8, u64) {
    (Types::TypeOp as u8, operation as u64)
}

#[test]
fn alloc_store_flush() {
    let source = "ALLOC 10\nSTORE [r0] 5\nFLUSH";
    let assembly = build(source.to_string()).unwrap();
    assert_eq!(
        contents(&assembly.bytecode),
        vec![
            opcode(Operations::ALLOC),
            (Types::TypeU64 as u8, 16),
            opcode(Operations::STORE),
            (Types::TypeReg as u8, 0),
            (Types::TypeU64 as u8, 5),
            opcode(Operations::FLUSH),
        ]
    );
    assert!(assembly.unrecognized.is_empty());
    let mut program: Vec<Instruction> =
        lex(source.to_string()).into_iter().map(|t| parse_line(t).unwrap()).collect();
    let tables = resolve(&mut program);
    assert_eq!(tables.registers, vec!["r0".to_string()]);
    assert!(tables.labels.is_empty());
}

#[test]
fn loop_with_label_and_jump() {
    let stream = stream_of(":loop\nADD [a] [a] 1\nJMP ;loop");
    assert_eq!(
        contents(&stream),
        vec![
            opcode(Operations::FUNC),
            (Types::TypeFunc as u8, 0),
            opcode(Operations::ADD),
            (Types::TypeReg as u8, 0),
            (Types::TypeReg as u8, 0),
            (Types::TypeU64 as u8, 1),
            opcode(Operations::JMP),
            (Types::TypeJmp as u8, 0),
        ]
    );
}

#[test]
fn unknown_mnemonic_is_skipped() {
    let with = build("ALLOC 10\nFOO 1 2\nFLUSH".to_string()).unwrap();
    let alloc = stream_of("ALLOC 10");
    let flush = stream_of("FLUSH");
    let foo = build("FOO 1 2".to_string()).unwrap();
    assert_eq!(foo.bytecode.bytes.len(), 0);
    assert_eq!(foo.unrecognized, vec!["FOO".to_string()]);
    assert_eq!(with.bytecode.bytes.len(), alloc.bytes.len() + flush.bytes.len());
    assert_eq!(
        contents(&with.bytecode),
        vec![opcode(Operations::ALLOC), (Types::TypeU64 as u8, 16), opcode(Operations::FLUSH)]
    );
    assert_eq!(with.unrecognized, vec!["FOO".to_string()]);
}

#[test]
fn unknown_mnemonics_are_handed_out_in_order() {
    let assembly = build("one\nFLUSH\ntwo 1\nflush\none".to_string()).unwrap();
    assert_eq!(
        assembly.unrecognized,
        vec!["one".to_string(), "two".to_string(), "flush".to_string(), "one".to_string()]
    );
    assert_eq!(contents(&assembly.bytecode), vec![opcode(Operations::FLUSH)]);
}

#[test]
fn names_in_an_unknown_line_still_take_their_indexes() {
    let stream = stream_of("FOO [x]\nFREE [y]\nFREE [x]");
    assert_eq!(
        contents(&stream),
        vec![
            opcode(Operations::FREE),
            (Types::TypeReg as u8, 1),
            opcode(Operations::FREE),
            (Types::TypeReg as u8, 0),
        ]
    );
}

#[test]
fn forward_jump_gets_the_index_of_the_later_label() {
    let stream = stream_of("JMP ;end\n:start\nJMP ;start\n:end");
    assert_eq!(
        contents(&stream),
        vec![
            opcode(Operations::JMP),
            (Types::TypeJmp as u8, 0),
            opcode(Operations::FUNC),
            (Types::TypeFunc as u8, 1),
            opcode(Operations::JMP),
            (Types::TypeJmp as u8, 1),
            opcode(Operations::FUNC),
            (Types::TypeFunc as u8, 0),
        ]
    );
}

#[test]
fn offsets_are_emitted_with_their_numbers() {
    let stream = stream_of("WRITE (10) {2}\nFREE (0)");
    assert_eq!(
        contents(&stream),
        vec![
            opcode(Operations::WRITE),
            (Types::DerefStack as u8, 10),
            (Types::DerefHeapReg as u8, 2),
            opcode(Operations::FREE),
            (Types::DerefStack as u8, 0),
        ]
    );
}

#[test]
fn largest_literal_is_emitted_whole() {
    let stream = stream_of("ALLOC ffffffffffffffff");
    assert_eq!(
        contents(&stream),
        vec![opcode(Operations::ALLOC), (Types::TypeU64 as u8, u64::MAX)]
    );
}

#[test]
fn blank_lines_and_indentation_change_nothing() {
    let plain = stream_of("ALLOC 10\nFLUSH");
    let spaced = build("\n\n   ALLOC 10   \n\t\n\r\nFLUSH\r\n\n".to_string()).unwrap();
    assert_eq!(contents(&plain), contents(&spaced.bytecode));
    assert!(spaced.unrecognized.is_empty());
}

#[test]
fn words_between_tabs_are_assembled() {
    let tabs = build("ADD\t[a]\t1\nFLUSH".to_string()).unwrap();
    assert_eq!(
        contents(&tabs.bytecode),
        vec![
            opcode(Operations::ADD),
            (Types::TypeReg as u8, 0),
            (Types::TypeU64 as u8, 1),
            opcode(Operations::FLUSH),
        ]
    );
    assert!(tabs.unrecognized.is_empty());
}

#[test]
fn empty_source_gives_an_empty_stream() {
    assert!(stream_of("").bytes.is_empty());
    assert!(stream_of(" \n \n").bytes.is_empty());
}

#[test]
fn malformed_literal_stops_the_build() {
    assert_eq!(failure_of("ALLOC 10000000000000000"), Some(AsmError::MalformedLiteral));
    assert_eq!(failure_of("ALLOC 10\nSTORE [r0] five"), Some(AsmError::MalformedLiteral));
    assert_eq!(failure_of("FOO zz"), Some(AsmError::MalformedLiteral));
    assert_eq!(failure_of("ADD  1"), Some(AsmError::MalformedLiteral));
}

#[test]
fn offset_expression_stops_the_build() {
    assert_eq!(failure_of("STORE (r0+1) 5"), Some(AsmError::InvalidOperandValue));
    assert_eq!(failure_of("WRITE {}"), Some(AsmError::InvalidOperandValue));
}

#[test]
fn malformed_literal_comes_before_invalid_operand_value() {
    assert_eq!(failure_of("STORE (r0+1) 5\nALLOC xyz"), Some(AsmError::MalformedLiteral));
}

#[test]
fn offset_expression_behind_an_unknown_mnemonic_is_ignored() {
    let stream = stream_of("FOO (r0+1)\nFLUSH");
    assert_eq!(contents(&stream), vec![opcode(Operations::FLUSH)]);
}

#[test]
fn offset_expression_behind_flush_stops_the_build() {
    assert_eq!(failure_of("FLUSH (x)"), Some(AsmError::InvalidOperandValue));
}

#[test]
fn flush_with_an_operand_emits_it() {
    let stream = stream_of("FLUSH 1");
    assert_eq!(contents(&stream), vec![opcode(Operations::FLUSH), (Types::TypeU64 as u8, 1)]);
}

#[test]
fn stream_is_written_as_two_characters_for_each_value() {
    let stream = stream_of("ALLOC 41\nFLUSH");
    let text = serialize(&stream);
    assert_eq!(text, "\u{0b}\u{1c}\u{01}A\u{0b}\u{1f}");
    assert_eq!(text.chars().count(), 2 * stream.bytes.len());
    assert_eq!(text, stream.stringify());
}

#[test]
fn data_without_a_character_is_written_as_zero() {
    let source = "ALLOC d800\nALLOC ffffffffffffffff\nALLOC 100000041\nALLOC 10ffff\nALLOC 110000\nALLOC e000";
    let text: Vec<char> = serialize(&stream_of(source)).chars().collect();
    assert_eq!(
        text,
        vec![
            '\u{0b}', '\u{1c}', '\u{01}', '\0',
            '\u{0b}', '\u{1c}', '\u{01}', '\0',
            '\u{0b}', '\u{1c}', '\u{01}', 'A',
            '\u{0b}', '\u{1c}', '\u{01}', '\u{10ffff}',
            '\u{0b}', '\u{1c}', '\u{01}', '\0',
            '\u{0b}', '\u{1c}', '\u{01}', '\u{e000}',
        ]
    );
}

#[test]
fn empty_stream_is_written_as_empty_text() {
    assert_eq!(serialize(&stream_of("")), "");
}

#[test]
fn unknown_line_changes_nothing_wherever_it_stands() {
    let before = "ALLOC 10\nSTORE [r0] 5\n:loop";
    let after = "ADD [r1] [r0] 1\nJMP ;loop\nFLUSH";
    let plain = contents(&stream_of(&format!("{}\n{}", before, after)));
    for line in ["FOO 1 2", "FOO", "nop (r0+1) {x} ff", "flush 0"] {
        let between = format!("{}\n{}\n{}", before, line, after);
        let first = format!("{}\n{}\n{}", line, before, after);
        let last = format!("{}\n{}\n{}", before, after, line);
        assert_eq!(contents(&stream_of(&between)), plain);
        assert_eq!(contents(&stream_of(&first)), plain);
        assert_eq!(contents(&stream_of(&last)), plain);
        assert!(stream_of(line).bytes.is_empty());
    }
}

#[test]
fn unknown_line_keeps_a_failure() {
    assert_eq!(failure_of("FOO 1 2\nALLOC zz"), Some(AsmError::MalformedLiteral));
    assert_eq!(failure_of("STORE (x)\nFOO 1 2"), Some(AsmError::InvalidOperandValue));
}

#[test]
fn stream_length_is_the_sum_over_the_lines() {
    let source = "ALLOC 10\nFOO 1 2\n\n:loop\nADD [a] [a] 1\nbar\nFLUSH\nJMP ;loop\nFREE";
    let expected = 2 + 0 + 0 + 2 + 4 + 0 + 1 + 2 + 1;
    assert_eq!(stream_of(source).bytes.len(), expected);
    assert_eq!(stream_of("FLUSH 1 2 3").bytes.len(), 4);
    assert_eq!(stream_of("FUNC").bytes.len(), 1);
}
