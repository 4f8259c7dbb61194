use cbasm::error::AsmError;
use cbasm::lexer::lex;
use cbasm::operand::{Instruction, Operand, OperandKind};
use cbasm::parser::parse;
use cbasm::resolver::{intern, resolve, Namespace, SymbolTables};

fn instruction(mnemonic: &str, operands: &[(&str, OperandKind)]) -> Instruction {
    Instruction {
        mnemonic: mnemonic.to_string(),
        operands: operands
            .iter()
            .map(|(payload, kind)| Operand { payload: payload.to_string(), kind: *kind })
            .collect(),
    }
}

fn names(list: &[&str]) -> Vec<String> {
    list.iter().map(|n| n.to_string()).collect()
}

#[test]
fn kinds_have_their_namespaces() {
    assert_eq!(OperandKind::Register.namespace_of(), Some(Namespace::Registers));
    assert_eq!(OperandKind::LabelDef.namespace_of(), Some(Namespace::Labels));
    assert_eq!(OperandKind::JumpRef.namespace_of(), Some(Namespace::Labels));
    assert_eq!(OperandKind::Literal.namespace_of(), None);
    assert_eq!(OperandKind::StackOffset.namespace_of(), None);
    assert_eq!(OperandKind::HeapOffset.namespace_of(), None);
}

#[test]
fn intern_appends_a_new_name_once() {
    let mut table: Vec<String> = Vec::new();
    assert_eq!(intern(&mut table, &"a".to_string()), 0);
    assert_eq!(intern(&mut table, &"b".to_string()), 1);
    assert_eq!(intern(&mut table, &"a".to_string()), 0);
    assert_eq!(intern(&mut table, &"".to_string()), 2);
    assert_eq!(intern(&mut table, &"b".to_string()), 1);
    assert_eq!(table, names(&["a", "b", ""]));
}

#[test]
fn registers_are_numbered_by_first_occurrence() {
    let mut program = vec![
        instruction("ADD", &[("b", OperandKind::Register), ("a", OperandKind::Register)]),
        instruction("SUB", &[("a", OperandKind::Register), ("c", OperandKind::Register)]),
        instruction("FREE", &[("b", OperandKind::Register)]),
    ];
    let tables = resolve(&mut program);
    assert_eq!(tables.registers, names(&["b", "a", "c"]));
    assert_eq!(tables.labels, names(&[]));
    assert_eq!(
        program,
        vec![
            instruction("ADD", &[("0", OperandKind::Register), ("1", OperandKind::Register)]),
            instruction("SUB", &[("1", OperandKind::Register), ("2", OperandKind::Register)]),
            instruction("FREE", &[("0", OperandKind::Register)]),
        ]
    );
}

#[test]
fn register_index_is_the_same_at_every_occurrence() {
    let mut program = vec![
        instruction("STORE", &[("x", OperandKind::Register), ("1", OperandKind::Literal)]),
        instruction("FOO", &[("y", OperandKind::Register), ("x", OperandKind::Register)]),
        instruction("WRITE", &[("2", OperandKind::StackOffset), ("x", OperandKind::Register)]),
    ];
    resolve(&mut program);
    assert_eq!(program[0].operands[0].payload, "0");
    assert_eq!(program[1].operands[1].payload, "0");
    assert_eq!(program[2].operands[1].payload, "0");
    assert_eq!(program[1].operands[0].payload, "1");
}

#[test]
fn forward_and_backward_jumps_share_the_index() {
    let mut program = vec![
        instruction("JMP", &[("end", OperandKind::JumpRef)]),
        instruction("FUNC", &[("start", OperandKind::LabelDef)]),
        instruction("JMP", &[("start", OperandKind::JumpRef)]),
        instruction("FUNC", &[("end", OperandKind::LabelDef)]),
        instruction("JMP", &[("end", OperandKind::JumpRef)]),
    ];
    let tables = resolve(&mut program);
    assert_eq!(tables.labels, names(&["end", "start"]));
    assert_eq!(program[0].operands[0].payload, "0");
    assert_eq!(program[3].operands[0].payload, "0");
    assert_eq!(program[4].operands[0].payload, "0");
    assert_eq!(program[1].operands[0].payload, "1");
    assert_eq!(program[2].operands[0].payload, "1");
}

#[test]
fn registers_and_labels_do_not_share_names() {
    let mut program = vec![
        instruction("FUNC", &[("a", OperandKind::LabelDef)]),
        instruction("ADD", &[("b", OperandKind::Register), ("a", OperandKind::Register)]),
        instruction("JMP", &[("b", OperandKind::JumpRef)]),
    ];
    let tables = resolve(&mut program);
    assert_eq!(tables.registers, names(&["b", "a"]));
    assert_eq!(tables.labels, names(&["a", "b"]));
    assert_eq!(program[0].operands[0].payload, "0");
    assert_eq!(program[1].operands[0].payload, "0");
    assert_eq!(program[1].operands[1].payload, "1");
    assert_eq!(program[2].operands[0].payload, "1");
}

#[test]
fn other_operands_pass_through() {
    let mut program = vec![instruction(
        "STORE",
        &[
            ("16", OperandKind::Literal),
            ("r0+1", OperandKind::StackOffset),
            ("8", OperandKind::HeapOffset),
        ],
    )];
    let before = program.clone();
    let tables = resolve(&mut program);
    assert_eq!(program, before);
    assert_eq!(tables, SymbolTables { registers: vec![], labels: vec![] });
}

#[test]
fn dangling_jump_gets_a_fresh_index() {
    let mut program = vec![
        instruction("FUNC", &[("a", OperandKind::LabelDef)]),
        instruction("JMP", &[("nowhere", OperandKind::JumpRef)]),
    ];
    let tables = resolve(&mut program);
    assert_eq!(tables.labels, names(&["a", "nowhere"]));
    assert_eq!(program[1].operands[0].payload, "1");
}

#[test]
fn eleventh_register_gets_index_ten() {
    let text: Vec<String> = (0..11).map(|k| format!("r{}", k)).collect();
    let operands: Vec<(&str, OperandKind)> =
        text.iter().map(|n| (n.as_str(), OperandKind::Register)).collect();
    let mut program = vec![instruction("FOO", &operands)];
    let tables = resolve(&mut program);
    assert_eq!(tables.registers.len(), 11);
    assert_eq!(program[0].operands[10].payload, "10");
    assert_eq!(program[0].operands[9].payload, "9");
}

#[test]
fn resolving_twice_changes_nothing() {
    let mut program = vec![
        instruction("JMP", &[("end", OperandKind::JumpRef)]),
        instruction("ADD", &[("b", OperandKind::Register), ("a", OperandKind::Register)]),
        instruction("FUNC", &[("start", OperandKind::LabelDef)]),
        instruction("SUB", &[("a", OperandKind::Register), ("7", OperandKind::Literal)]),
        instruction("FUNC", &[("end", OperandKind::LabelDef)]),
        instruction("JMP", &[("start", OperandKind::JumpRef)]),
    ];
    resolve(&mut program);
    let once = program.clone();
    let tables = resolve(&mut program);
    assert_eq!(program, once);
    assert_eq!(tables.registers, names(&["0", "1"]));
    assert_eq!(tables.labels, names(&["0", "1"]));
}

#[test]
fn label_and_jump_resolve_to_zero() {
    let program = parse(lex(":loop\nADD [a] [a] 1\nJMP ;loop".to_string())).unwrap();
    assert_eq!(
        program,
        vec![
            instruction("FUNC", &[("0", OperandKind::LabelDef)]),
            instruction(
                "ADD",
                &[
                    ("0", OperandKind::Register),
                    ("0", OperandKind::Register),
                    ("1", OperandKind::Literal),
                ],
            ),
            instruction("JMP", &[("0", OperandKind::JumpRef)]),
        ]
    );
}

#[test]
fn label_table_of_the_loop_program() {
    let tokens = lex(":loop\nADD [a] [a] 1\nJMP ;loop".to_string());
    let mut program: Vec<Instruction> =
        tokens.into_iter().map(|t| cbasm::operand::parse_line(t).unwrap()).collect();
    let tables = resolve(&mut program);
    assert_eq!(tables.labels, names(&["loop"]));
    assert_eq!(tables.registers, names(&["a"]));
}

#[test]
fn parse_fails_on_a_malformed_literal_in_any_line() {
    assert_eq!(
        parse(lex("ALLOC 10\nFOO zz\nFLUSH".to_string())),
        Err(AsmError::MalformedLiteral)
    );
    assert_eq!(parse(lex("ADD  1".to_string())), Err(AsmError::MalformedLiteral));
}

#[test]
fn parse_of_nothing_is_nothing() {
    assert_eq!(parse(vec![]), Ok(vec![]));
}
