use flavia::instruction::{Instruction, Opcode};

#[test]
fn test_create_hlt() {
    let opcode = Opcode::HLT;
    assert_eq!(opcode, Opcode::HLT);
}

#[test]
fn test_create_instruction() {
    let instruction = Instruction::new(Opcode::HLT);
    assert_eq!(instruction.opcode, Opcode::HLT);
}

#[test]
fn test_str_to_opcode() {
    let opcode = Opcode::from("load");
    assert_eq!(opcode, Opcode::LOAD);
    let opcode = Opcode::from("jmp");
    assert_eq!(opcode, Opcode::JMP);
    let opcode = Opcode::from("gte");
    assert_eq!(opcode, Opcode::GTE);
    let opcode = Opcode::from("caca");
    assert_eq!(opcode, Opcode::IGL);
}

#[test]
fn byte_to_opcode_is_total() {
    assert_eq!(Opcode::from(1u8), Opcode::LOAD);
    assert_eq!(Opcode::from(19u8), Opcode::DEC);
    assert_eq!(Opcode::from(20u8), Opcode::IGL);
    assert_eq!(Opcode::from(255u8), Opcode::IGL);
    for b in 0u8..=255 {
        let op = Opcode::from_byte(b);
        if op != Opcode::IGL {
            assert_eq!(op.to_byte(), b);
        }
    }
}

#[test]
fn mnemonics_round_trip() {
    for b in 0u8..=20 {
        let op = Opcode::from_byte(b);
        let m = op.mnemonic_bytes();
        assert_eq!(Opcode::from_mnemonic(&m, 0, m.len()), op);
    }
    assert_eq!(Opcode::from("LOAD"), Opcode::IGL);
}
