use flavia::instruction::Opcode;
use flavia::vm::{Fault, HaltReason, StepResult, VirtualMachine};

#[test]
fn test_create_vm() {
    let vm = VirtualMachine::new();
    for register in vm.registers.into_iter() {
        assert_eq!(register, 0);
    }
    assert_eq!(vm.heap_len() == 0, true);
    assert_eq!(vm.pc(), 0);
    assert_eq!(vm.program.is_empty(), true);
    assert_eq!(vm.remainder(), 0);
    assert_eq!(vm.equal_flag(), false);
}

#[test]
fn test_add_byte() {
    let mut vm = VirtualMachine::new();
    let bytes: Vec<u8> = vec![0, 23, 58, 231, 145];
    for &byte in bytes.iter() {
        vm.add_byte(byte);
    }
    for (idx, &byte) in vm.program.iter().enumerate() {
        assert_eq!(byte, bytes[idx]);
    }
}

#[test]
fn test_opcode_hlt() {
    let mut test_vm = VirtualMachine::new();
    let test_program = vec![Opcode::HLT as u8, 0, 0, 0];
    test_vm.program = test_program;
    test_vm.run_once();
    assert_eq!(test_vm.pc(), 1);
}

#[test]
fn test_opcode_igl() {
    let mut test_vm = VirtualMachine::new();
    let test_program = vec![Opcode::IGL as u8, 0, 0, 0];
    test_vm.program = test_program;
    test_vm.run_once();
    assert_eq!(test_vm.pc(), 1);
}

#[test]
fn vm_test_opcode_load() {
    let mut test_vm = VirtualMachine::new();
    let test_program = vec![Opcode::LOAD as u8, 0, 1, 244];
    test_vm.program = test_program;
    test_vm.run_once();
    assert_eq!(test_vm.registers[0], 500);
}

#[test]
fn test_opcode_add() {
    let mut test_vm = VirtualMachine::new();
    test_vm.registers[4] = 5;
    test_vm.registers[9] = 3;
    let test_program = vec![Opcode::ADD as u8, 4, 9, 17];
    test_vm.program = test_program;
    test_vm.run_once();
    assert_eq!(test_vm.registers[17], 8);
}

#[test]
fn test_opcode_sub() {
    let mut test_vm = VirtualMachine::new();
    test_vm.registers[8] = 5;
    test_vm.registers[3] = 3;
    let test_program = vec![Opcode::SUB as u8, 8, 3, 7];
    test_vm.program = test_program;
    test_vm.run_once();
    assert_eq!(test_vm.registers[7], 2);
}

#[test]
fn test_opcode_mul() {
    let mut test_vm = VirtualMachine::new();
    test_vm.registers[8] = 9;
    test_vm.registers[3] = 5;
    let test_program = vec![Opcode::MUL as u8, 8, 3, 12];
    test_vm.program = test_program;
    test_vm.run_once();
    assert_eq!(test_vm.registers[12], 45);
}

#[test]
fn test_opcode_div() {
    let mut test_vm = VirtualMachine::new();
    test_vm.registers[3] = 15;
    test_vm.registers[6] = 4;
    let test_program = vec![Opcode::DIV as u8, 3, 6, 19];
    test_vm.program = test_program;
    test_vm.run_once();
    assert_eq!(test_vm.registers[19], 3);
    assert_eq!(test_vm.remainder(), 3);
}

#[test]
fn test_opcode_jmp() {
    let mut test_vm = VirtualMachine::new();
    test_vm.registers[3] = 7;
    let test_program = vec![Opcode::JMP as u8, 3, 0, 0];
    test_vm.program = test_program;
    test_vm.run_once();
    assert_eq!(test_vm.pc(), 7);
}

#[test]
fn test_opcode_jmpf() {
    let mut test_vm = VirtualMachine::new();
    test_vm.registers[8] = 20;
    let test_program = vec![Opcode::JMPF as u8, 8, 0, 0];
    test_vm.program = test_program;
    test_vm.run_once();
    assert_eq!(test_vm.pc(), 22);
}

#[test]
fn test_opcode_jmpb() {
    let mut test_vm = VirtualMachine::new();
    test_vm.registers[7] = 2;
    let test_program = vec![Opcode::LOAD as u8, 0, 0, 0, Opcode::JMPB as u8, 7, 0, 0];
    test_vm.program = test_program;
    test_vm.run_once();
    test_vm.run_once();
    assert_eq!(test_vm.pc(), 4);
}

#[test]
fn test_opcode_eq() {
    let mut test_vm = VirtualMachine::new();
    test_vm.registers[3] = 10;
    test_vm.registers[7] = 10;
    let test_program = vec![Opcode::EQ as u8, 3, 7, 0, Opcode::EQ as u8, 3, 5, 0];
    test_vm.program = test_program;
    test_vm.run_once();
    assert_eq!(test_vm.equal_flag(), true);
    test_vm.run_once();
    assert_eq!(test_vm.equal_flag(), false);
}

#[test]
fn test_opcode_neq() {
    let mut test_vm = VirtualMachine::new();
    test_vm.registers[3] = 10;
    test_vm.registers[7] = 10;
    let test_program = vec![Opcode::NEQ as u8, 3, 7, 0, Opcode::NEQ as u8, 3, 5, 0];
    test_vm.program = test_program;
    test_vm.run_once();
    assert_eq!(test_vm.equal_flag(), false);
    test_vm.run_once();
    assert_eq!(test_vm.equal_flag(), true);
}

#[test]
fn test_opcode_gt() {
    let mut test_vm = VirtualMachine::new();
    test_vm.registers[3] = 5;
    test_vm.registers[7] = 10;
    let test_program = vec![Opcode::GT as u8, 3, 7, 0, Opcode::GT as u8, 7, 3, 0];
    test_vm.program = test_program;
    test_vm.run_once();
    assert_eq!(test_vm.equal_flag(), false);
    test_vm.run_once();
    assert_eq!(test_vm.equal_flag(), true);
}

#[test]
fn test_opcode_lt() {
    let mut test_vm = VirtualMachine::new();
    test_vm.registers[3] = 5;
    test_vm.registers[7] = 10;
    let test_program = vec![Opcode::LT as u8, 3, 7, 0, Opcode::LT as u8, 7, 3, 0];
    test_vm.program = test_program;
    test_vm.run_once();
    assert_eq!(test_vm.equal_flag(), true);
    test_vm.run_once();
    assert_eq!(test_vm.equal_flag(), false);
}

#[test]
fn test_opcode_gte() {
    let mut test_vm = VirtualMachine::new();
    test_vm.registers[3] = 5;
    test_vm.registers[7] = 10;
    test_vm.registers[9] = 10;
    let test_program = vec![
        Opcode::GTE as u8, 3, 7, 0,
        Opcode::GTE as u8, 7, 3, 0,
        Opcode::GTE as u8, 7, 9, 0,
    ];
    test_vm.program = test_program;
    test_vm.run_once();
    assert_eq!(test_vm.equal_flag(), false);
    test_vm.run_once();
    assert_eq!(test_vm.equal_flag(), true);
    test_vm.run_once();
    assert_eq!(test_vm.equal_flag(), true);
}

#[test]
fn test_opcode_lte() {
    let mut test_vm = VirtualMachine::new();
    test_vm.registers[3] = 5;
    test_vm.registers[7] = 10;
    test_vm.registers[9] = 10;
    let test_program = vec![
        Opcode::LTE as u8, 3, 7, 0,
        Opcode::LTE as u8, 7, 3, 0,
        Opcode::LTE as u8, 7, 9, 0,
    ];
    test_vm.program = test_program;
    test_vm.run_once();
    assert_eq!(test_vm.equal_flag(), true);
    test_vm.run_once();
    assert_eq!(test_vm.equal_flag(), false);
    test_vm.run_once();
    assert_eq!(test_vm.equal_flag(), true);
}

#[test]
fn test_opcode_jeq() {
    let mut test_vm = VirtualMachine::new();
    test_vm.registers[8] = 13;
    test_vm.registers[1] = 5;
    test_vm.registers[2] = 5;
    let test_program = vec![Opcode::EQ as u8, 1, 2, 0, Opcode::JEQ as u8, 8, 0, 0];
    test_vm.program = test_program;
    test_vm.run_once();
    test_vm.run_once();
    assert_eq!(test_vm.pc(), 13);
}

#[test]
fn test_opcode_jneq() {
    let mut test_vm = VirtualMachine::new();
    test_vm.registers[8] = 9;
    test_vm.registers[1] = 8;
    test_vm.registers[2] = 5;
    let test_program = vec![Opcode::EQ as u8, 1, 2, 0, Opcode::JNEQ as u8, 8, 0, 0];
    test_vm.program = test_program;
    test_vm.run_once();
    test_vm.run_once();
    assert_eq!(test_vm.pc(), 9);
}

// Every instruction occupies four bytes, ALOC included.
#[test]
fn test_opcode_aloc() {
    let mut test_vm = VirtualMachine::new();
    let test_program = vec![Opcode::ALOC as u8, 1, 0, 0, Opcode::ALOC as u8, 2, 0, 0];
    test_vm.registers[1] = 100;
    test_vm.registers[2] = 700;
    test_vm.program = test_program;
    test_vm.run_once();
    assert_eq!(test_vm.heap_len(), 100);
    test_vm.run_once();
    assert_eq!(test_vm.heap_len(), 800);
}

#[test]
fn test_opcode_inc() {
    let mut test_vm = VirtualMachine::new();
    let test_program = vec![Opcode::INC as u8, 1, 0, 0];
    test_vm.registers[1] = 50;
    test_vm.program = test_program;
    test_vm.run_once();
    assert_eq!(test_vm.registers[1], 51);
}

#[test]
fn test_opcode_dec() {
    let mut test_vm = VirtualMachine::new();
    let test_program = vec![Opcode::DEC as u8, 1, 0, 0];
    test_vm.registers[1] = 50;
    test_vm.program = test_program;
    test_vm.run_once();
    assert_eq!(test_vm.registers[1], 49);
}

#[test]
fn div_sets_quotient_and_remainder() {
    let mut vm = VirtualMachine::new();
    vm.registers[0] = 15;
    vm.registers[1] = 4;
    vm.program = vec![Opcode::DIV as u8, 0, 1, 2];
    assert_eq!(vm.run_once(), StepResult::Continue);
    assert_eq!(vm.registers[2], 3);
    assert_eq!(vm.remainder(), 3);
    assert_eq!(vm.pc(), 4);
}

#[test]
fn div_rounds_toward_zero() {
    let mut vm = VirtualMachine::new();
    vm.registers[0] = -7;
    vm.registers[1] = 2;
    vm.program = vec![Opcode::DIV as u8, 0, 1, 2];
    vm.run_once();
    assert_eq!(vm.registers[2], -3);
    assert_eq!(vm.remainder(), (-1i32) as u32);
}

#[test]
fn eq_then_jeq_jumps_and_jneq_does_not() {
    let mut vm = VirtualMachine::new();
    vm.registers[1] = 5;
    vm.registers[2] = 5;
    vm.registers[3] = 40;
    vm.program = vec![Opcode::EQ as u8, 1, 2, 0, Opcode::JNEQ as u8, 3, 0, 0, Opcode::JEQ as u8, 3, 0, 0];
    vm.run_once();
    assert!(vm.equal_flag());
    assert_eq!(vm.run_once(), StepResult::Continue);
    assert_eq!(vm.pc(), 8);
    assert_eq!(vm.run_once(), StepResult::Continue);
    assert_eq!(vm.pc(), 40);
}

#[test]
fn load_sign_extends() {
    let mut vm = VirtualMachine::new();
    vm.program = vec![Opcode::LOAD as u8, 5, 0xff, 0xfe];
    vm.run_once();
    assert_eq!(vm.registers[5], -2);
}

#[test]
fn halt_reasons_are_distinct() {
    let mut vm = VirtualMachine::new();
    vm.program = vec![Opcode::HLT as u8, 0, 0, 0];
    assert_eq!(vm.run_once(), StepResult::Halted(HaltReason::Halt));

    let mut vm = VirtualMachine::new();
    vm.program = vec![200, 0, 0, 0];
    assert_eq!(vm.run_once(), StepResult::Halted(HaltReason::Illegal));

    let mut vm = VirtualMachine::new();
    vm.program = vec![Opcode::INC as u8, 0, 0, 0];
    assert_eq!(vm.run_once(), StepResult::Continue);
    assert_eq!(vm.run_once(), StepResult::Halted(HaltReason::EndOfProgram));
    assert_eq!(vm.run(10), Some(HaltReason::EndOfProgram));
}

#[test]
fn division_by_zero_faults() {
    let mut vm = VirtualMachine::new();
    vm.registers[0] = 9;
    vm.program = vec![Opcode::DIV as u8, 0, 1, 2];
    assert_eq!(vm.run(10), Some(HaltReason::Fault(Fault::DivisionByZero)));
    assert_eq!(vm.pc(), 0);
    assert_eq!(vm.registers[2], 0);
}

#[test]
fn bad_register_faults() {
    let mut vm = VirtualMachine::new();
    vm.program = vec![Opcode::LOAD as u8, 32, 0, 1];
    assert_eq!(vm.run_once(), StepResult::Halted(HaltReason::Fault(Fault::InvalidRegister)));
    assert_eq!(vm.pc(), 0);
}

#[test]
fn jump_below_zero_faults() {
    let mut vm = VirtualMachine::new();
    vm.registers[0] = 10;
    vm.program = vec![Opcode::JMPB as u8, 0, 0, 0];
    assert_eq!(vm.run_once(), StepResult::Halted(HaltReason::Fault(Fault::PcOutOfBounds)));
    vm.registers[0] = -1;
    vm.program = vec![Opcode::JMP as u8, 0, 0, 0];
    assert_eq!(vm.run_once(), StepResult::Halted(HaltReason::Fault(Fault::PcOutOfBounds)));
}

#[test]
fn truncated_instruction_faults() {
    let mut vm = VirtualMachine::new();
    vm.program = vec![Opcode::LOAD as u8, 0];
    assert_eq!(vm.run_once(), StepResult::Halted(HaltReason::Fault(Fault::PcOutOfBounds)));
}

#[test]
fn overflow_faults() {
    let mut vm = VirtualMachine::new();
    vm.registers[0] = i32::MAX;
    vm.program = vec![Opcode::INC as u8, 0, 0, 0];
    assert_eq!(vm.run_once(), StepResult::Halted(HaltReason::Fault(Fault::Overflow)));
    assert_eq!(vm.registers[0], i32::MAX);
    vm.registers[0] = i32::MIN;
    vm.registers[1] = -1;
    vm.program = vec![Opcode::DIV as u8, 0, 1, 2];
    assert_eq!(vm.run_once(), StepResult::Halted(HaltReason::Fault(Fault::Overflow)));
}

#[test]
fn negative_allocation_faults() {
    let mut vm = VirtualMachine::new();
    vm.registers[0] = -5;
    vm.program = vec![Opcode::ALOC as u8, 0, 0, 0];
    assert_eq!(vm.run_once(), StepResult::Halted(HaltReason::Fault(Fault::InvalidAllocation)));
    assert_eq!(vm.heap_len(), 0);
}

#[test]
fn appending_keeps_pc_and_resumes() {
    let mut vm = VirtualMachine::new();
    vm.add_bytes(vec![Opcode::INC as u8, 0, 0, 0]);
    assert_eq!(vm.run(5), Some(HaltReason::EndOfProgram));
    assert_eq!(vm.pc(), 4);
    vm.add_bytes(vec![Opcode::INC as u8, 0, 0, 0]);
    assert_eq!(vm.run(5), Some(HaltReason::EndOfProgram));
    assert_eq!(vm.registers[0], 2);
    assert_eq!(vm.program_len(), 8);
}

#[test]
fn reset_and_load() {
    let mut vm = VirtualMachine::new();
    vm.registers[3] = 4;
    vm.add_byte(0);
    vm.run_once();
    vm.reset();
    assert_eq!(vm.pc(), 0);
    assert_eq!(vm.registers[3], 0);
    assert_eq!(vm.program_len(), 0);
    vm.load(vec![Opcode::LOAD as u8, 1, 0, 9]);
    assert_eq!(vm.run(3), Some(HaltReason::EndOfProgram));
    assert_eq!(vm.register(1), Some(9));
    assert_eq!(vm.register(32), None);
}

#[test]
fn run_stops_after_max_steps() {
    let mut vm = VirtualMachine::new();
    vm.program = vec![Opcode::JMP as u8, 0, 0, 0];
    assert_eq!(vm.run(100), None);
    assert_eq!(vm.pc(), 0);
}

#[test]
fn set_register_checks_the_index() {
    let mut vm = VirtualMachine::new();
    assert!(vm.set_register(31, -9));
    assert_eq!(vm.register(31), Some(-9));
    assert!(!vm.set_register(32, 1));
}
