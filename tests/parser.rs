use flavia::instruction::Opcode;
use flavia::parser::{instruction_combined, integer_operand, opcode, program, register, ParseError};
use flavia::token::{AssemblerInstruction, Token};

#[test]
fn test_parse_instruction_form_one() {
    let result = instruction_combined("load $0 #100\n");
    assert_eq!(
        result,
        Some((
            AssemblerInstruction {
                opcode: Some(Token::Op { code: Opcode::LOAD }),
                label: None,
                directive: None,
                operand1: Some(Token::Register { reg_num: 0 }),
                operand2: Some(Token::IntegerOperand { value: 100 }),
                operand3: None
            },
            13
        ))
    );
}

#[test]
fn test_parse_instruction_form_two() {
    let result = instruction_combined("hlt");
    assert_eq!(
        result,
        Some((
            AssemblerInstruction {
                opcode: Some(Token::Op { code: Opcode::HLT }),
                label: None,
                directive: None,
                operand1: None,
                operand2: None,
                operand3: None
            },
            3
        ))
    );
}

#[test]
fn test_parse_instruction_form_three() {
    let result = instruction_combined("add $0 $1 $2\n");
    assert_eq!(
        result,
        Some((
            AssemblerInstruction {
                opcode: Some(Token::Op { code: Opcode::ADD }),
                label: None,
                directive: None,
                operand1: Some(Token::Register { reg_num: 0 }),
                operand2: Some(Token::Register { reg_num: 1 }),
                operand3: Some(Token::Register { reg_num: 2 }),
            },
            13
        ))
    );
}

#[test]
fn test_parse_instruction_form_one_with_label() {
    let result = instruction_combined("load $0 @test1\n");
    assert_eq!(
        result,
        Some((
            AssemblerInstruction {
                opcode: Some(Token::Op { code: Opcode::LOAD }),
                label: None,
                directive: None,
                operand1: Some(Token::Register { reg_num: 0 }),
                operand2: Some(Token::LabelUsage {
                    name: "test1".to_string()
                }),
                operand3: None
            },
            15
        ))
    );
}

#[test]
fn opcode_parsers_test_opcode_load() {
    let result = opcode("load");
    assert_eq!(result.is_some(), true);
    let (token, rest) = result.unwrap();
    assert_eq!(token, Token::Op { code: Opcode::LOAD });
    assert_eq!(rest, 4);

    // A word that names no operation reads as the illegal opcode.
    let result = opcode("aold");
    assert_ne!(result, Some((Token::Op { code: Opcode::LOAD }, 4)));
    assert_eq!(result, Some((Token::Op { code: Opcode::IGL }, 4)));
}

#[test]
fn test_parse_integer_operand() {
    let result = integer_operand("#10");
    assert_eq!(result.is_some(), true);
    let (value, rest) = result.unwrap();
    assert_eq!(rest, 3);
    assert_eq!(value, Token::IntegerOperand { value: 10 });

    let result = integer_operand("10");
    assert_eq!(result.is_some(), false);
}

#[test]
fn test_parse_register() {
    let result = register("$0");
    assert_eq!(result.is_some(), true);
    let result = register("0");
    assert_eq!(result.is_some(), false);
    let result = register("$a");
    assert_eq!(result.is_some(), false);
}

#[test]
fn operand_limits() {
    assert_eq!(register("$255"), Some((Token::Register { reg_num: 255 }, 4)));
    assert_eq!(register("$256"), None);
    assert_eq!(integer_operand("#-5"), Some((Token::IntegerOperand { value: -5 }, 3)));
    assert_eq!(
        integer_operand("#2147483647"),
        Some((Token::IntegerOperand { value: i32::MAX }, 11))
    );
    assert_eq!(integer_operand("#2147483648"), None);
    assert_eq!(
        integer_operand("#-2147483648"),
        Some((Token::IntegerOperand { value: i32::MIN }, 12))
    );
    assert_eq!(integer_operand("#12x"), None);
}

#[test]
fn label_declaration_opens_an_instruction() {
    let (ins, end) = instruction_combined("loop: inc $3  ").unwrap();
    assert_eq!(end, 14);
    assert_eq!(ins.label, Some(Token::LabelDeclaration { name: "loop".to_string() }));
    assert_eq!(ins.label_name(), Some("loop".to_string()));
    assert!(ins.is_label());
    assert_eq!(ins.operand1, Some(Token::Register { reg_num: 3 }));
}

#[test]
fn program_parses_whole_source() {
    let p = program("\n  load $0 #1\n\nhlt\n").unwrap();
    assert_eq!(p.instructions.len(), 2);
    assert_eq!(program("   ").unwrap().instructions.len(), 0);
    assert_eq!(program("load $0 #1\nload $ #2"), Err(ParseError { position: 11 }));
    assert_eq!(program("hlt $1 $2 $3 $4"), Err(ParseError { position: 13 }));
}
