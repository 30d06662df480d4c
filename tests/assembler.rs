use flavia::assembler::{AssembleError, Assembler, AssemblerPhase, EncodeError};
use flavia::instruction::Opcode;
use flavia::parser::ParseError;
use flavia::symbols::SymbolTable;
use flavia::token::{AssemblerInstruction, Token};
use flavia::vm::{HaltReason, VirtualMachine};

#[test]
fn test_assemble_program() {
    let mut assembler = Assembler::new();
    let test_string =
        "load $0 #100\nload $1 #1\nload $2 #0\ntest: inc $0\nneq $0 $2\njeq @test\nhlt";
    let program = assembler.assemble(test_string).unwrap();
    let mut vm = VirtualMachine::new();
    assert_eq!(program.len(), 28);
    vm.add_bytes(program);
    assert_eq!(vm.program.len(), 28);
}

#[test]
fn load_encodes_big_endian() {
    let mut assembler = Assembler::new();
    assert_eq!(assembler.assemble("load $0 #100").unwrap(), vec![1, 0, 0, 100]);
    assert_eq!(assembler.assemble("load $2 #500").unwrap(), vec![1, 2, 1, 244]);
    assert_eq!(assembler.assemble("load $1 #-2").unwrap(), vec![1, 1, 0xff, 0xfe]);
}

#[test]
fn every_instruction_is_four_bytes() {
    let mut assembler = Assembler::new();
    assert_eq!(assembler.assemble("hlt").unwrap(), vec![0, 0, 0, 0]);
    assert_eq!(assembler.assemble("inc $7").unwrap(), vec![18, 7, 0, 0]);
    assert_eq!(assembler.assemble("add $1 $2 $3").unwrap(), vec![2, 1, 2, 3]);
    assert_eq!(assembler.assemble("hlt\nhlt\nbogus").unwrap().len(), 12);
    assert_eq!(assembler.assemble("bogus").unwrap(), vec![20, 0, 0, 0]);
}

#[test]
fn label_offset_is_four_times_index() {
    let mut assembler = Assembler::new();
    assembler.assemble("load $0 #100\nload $1 #1\ntest: inc $0\nhlt").unwrap();
    assert_eq!(assembler.symbols.symbol_value("test"), Some(8));
    assert_eq!(assembler.phase, AssemblerPhase::Second);
}

#[test]
fn forward_references_resolve() {
    let mut assembler = Assembler::new();
    let code = assembler.assemble("load $3 @end\nhlt\nend: hlt").unwrap();
    assert_eq!(code, vec![1, 3, 0, 8, 0, 0, 0, 0, 0, 0, 0, 0]);
}

#[test]
fn assembled_loop_runs_to_halt() {
    let mut assembler = Assembler::new();
    let code = assembler
        .assemble("load $0 #0\nload $1 #5\nload $3 @test\ntest: inc $0\nneq $0 $1\njeq $3\nhlt")
        .unwrap();
    let mut vm = VirtualMachine::new();
    vm.add_bytes(code);
    assert_eq!(vm.run(1000), Some(HaltReason::Halt));
    assert_eq!(vm.registers[0], 5);
    assert_eq!(vm.registers[1], 5);
    assert_eq!(vm.registers[3], 12);
    assert_eq!(vm.pc(), 25);
}

#[test]
fn assembly_errors() {
    let mut assembler = Assembler::new();
    assert_eq!(
        assembler.assemble("load $0 #1\nadd $x"),
        Err(AssembleError::Parse(ParseError { position: 11 }))
    );
    assert_eq!(
        assembler.assemble("hlt\nload $0 @nowhere"),
        Err(AssembleError::Encode { index: 1, cause: EncodeError::UnresolvedLabel })
    );
    assert_eq!(
        assembler.assemble("a: hlt\na: hlt"),
        Err(AssembleError::DuplicateLabel { index: 1 })
    );
    assert_eq!(
        assembler.assemble("load #1 #2"),
        Err(AssembleError::Encode { index: 0, cause: EncodeError::OperandsTooWide })
    );
}

#[test]
fn encoding_a_parsed_instruction() {
    let table = SymbolTable::new();
    let ins = AssemblerInstruction {
        opcode: Some(Token::Op { code: Opcode::JMP }),
        label: None,
        directive: None,
        operand1: Some(Token::Register { reg_num: 4 }),
        operand2: None,
        operand3: None,
    };
    assert_eq!(ins.to_bytes(&table), Ok(vec![6, 4, 0, 0]));
    let ins = AssemblerInstruction {
        opcode: Some(Token::Register { reg_num: 1 }),
        label: None,
        directive: None,
        operand1: None,
        operand2: None,
        operand3: None,
    };
    assert_eq!(ins.to_bytes(&table), Err(EncodeError::MissingOpcode));
    let ins = AssemblerInstruction {
        opcode: Some(Token::Op { code: Opcode::HLT }),
        label: None,
        directive: Some(Token::Directive { name: "data".to_string() }),
        operand1: None,
        operand2: None,
        operand3: None,
    };
    assert_eq!(ins.to_bytes(&table), Err(EncodeError::DirectiveNotEncodable));
    let ins = AssemblerInstruction {
        opcode: Some(Token::Op { code: Opcode::HLT }),
        label: None,
        directive: None,
        operand1: Some(Token::LabelDeclaration { name: "x".to_string() }),
        operand2: None,
        operand3: None,
    };
    assert_eq!(ins.to_bytes(&table), Err(EncodeError::InvalidOperand));
}

#[test]
fn assembled_load_runs_back_to_its_value() {
    let mut assembler = Assembler::new();
    for v in [-32768i32, -2, 0, 7, 32767] {
        let code = assembler.assemble(&format!("load $6 #{}", v)).unwrap();
        let mut vm = VirtualMachine::new();
        vm.load(code);
        assert_eq!(vm.run(2), Some(HaltReason::EndOfProgram));
        assert_eq!(vm.registers[6], v);
    }
}

#[test]
fn a_line_uses_labels_of_the_loaded_program() {
    let mut assembler = Assembler::new();
    assembler.assemble("hlt\nhlt\nhere: hlt").unwrap();
    assert_eq!(assembler.encode_with_symbols("load $2 @here"), Ok(vec![1, 2, 0, 8]));
    assert_eq!(
        assembler.encode_with_symbols("load $2 @gone"),
        Err(AssembleError::Encode { index: 0, cause: EncodeError::UnresolvedLabel })
    );
    assert_eq!(
        assembler.encode_with_symbols("load $"),
        Err(AssembleError::Parse(ParseError { position: 0 }))
    );
    assert_eq!(assembler.symbols.symbol_value("here"), Some(8));
}
