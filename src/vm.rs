//! The register machine: state, one-instruction semantics and the run loop.
use vstd::prelude::*;
use crate::instruction::{Opcode, opcode_from_byte, INSTRUCTION_WIDTH};

verus! {

/// Number of general-purpose registers.
pub const REGISTER_COUNT: usize = 32;


/// A detected runtime error. The machine stops on it and its state is left as
/// it was before the faulting instruction.
#[derive(Copy, Clone, Debug, PartialEq, Eq, Structural)]
pub enum Fault {
    /// A register operand names no register.
    InvalidRegister,
    /// DIV with a zero divisor.
    DivisionByZero,
    /// An arithmetic result does not fit in 32 signed bits.
    Overflow,
    /// The program counter would leave the addressable range, or an instruction
    /// runs past the end of the program.
    PcOutOfBounds,
    /// ALOC with a negative size, or a heap that would outgrow the address space.
    InvalidAllocation,
}

/// Why the machine stopped.
#[derive(Copy, Clone, Debug, PartialEq, Eq, Structural)]
pub enum HaltReason {
    /// HLT was executed.
    Halt,
    /// A byte that names no operation was decoded.
    Illegal,
    /// The program counter reached or passed the end of the program.
    EndOfProgram,
    /// A runtime error.
    Fault(Fault),
}

/// The outcome of executing one instruction.
#[derive(Copy, Clone, Debug, PartialEq, Eq, Structural)]
pub enum StepResult {
    Continue,
    Halted(HaltReason),
}

/// The mathematical state of the machine.
pub struct MachineState {
    pub registers: Seq<i32>,
    pub heap: Seq<u8>,
    pub pc: nat,
    pub program: Seq<u8>,
    pub remainder: u32,
    pub equal_flag: bool,
}

pub open spec fn is_register(r: u8) -> bool {
    (r as int) < REGISTER_COUNT as int
}

/// A big-endian 16-bit value, sign-extended.
pub open spec fn sign_extend16(hi: u8, lo: u8) -> i32 {
    let v = hi as int * 256 + lo as int;
    (if v >= 0x8000 { v - 0x10000 } else { v }) as i32
}

pub open spec fn fits_i32(v: int) -> bool {
    i32::MIN as int <= v && v <= i32::MAX as int
}

pub open spec fn abs(v: int) -> nat {
    (if v < 0 { -v } else { v }) as nat
}

/// Integer quotient rounded toward zero.
pub open spec fn trunc_div(a: int, b: int) -> int {
    let q = abs(a) as int / abs(b) as int;
    if (a < 0) != (b < 0) { -q } else { q }
}

/// Remainder of the quotient rounded toward zero; it has the sign of `a`.
pub open spec fn trunc_rem(a: int, b: int) -> int {
    let r = abs(a) as int % abs(b) as int;
    if a < 0 { -r } else { r }
}

/// A 32-bit two's-complement value read as unsigned.
pub open spec fn wrap_u32(v: int) -> u32 {
    (if v < 0 { v + 0x1_0000_0000 } else { v }) as u32
}

pub open spec fn halted(s: MachineState, why: HaltReason) -> (MachineState, StepResult) {
    (s, StepResult::Halted(why))
}

pub open spec fn fault(s: MachineState, f: Fault) -> (MachineState, StepResult) {
    (s, StepResult::Halted(HaltReason::Fault(f)))
}

/// Continue at `pc` with the given registers.
pub open spec fn advance(s: MachineState, registers: Seq<i32>, pc: int) -> (MachineState, StepResult) {
    (MachineState { registers, pc: pc as nat, ..s }, StepResult::Continue)
}

/// A jump to an absolute target, which must not be negative nor beyond the
/// address space. A target at or past the end of the program is no fault: the
/// next step halts with `EndOfProgram`, and a host that appends code there
/// before resuming finds the machine waiting at it, as appending never
/// invalidates the program counter.
pub open spec fn jump_to(s: MachineState, target: int) -> (MachineState, StepResult) {
    if target < 0 || target > usize::MAX as int {
        fault(s, Fault::PcOutOfBounds)
    } else {
        advance(s, s.registers, target)
    }
}

pub open spec fn compare(op: Opcode, x: i32, y: i32) -> bool {
    match op {
        Opcode::EQ => x == y,
        Opcode::NEQ => x != y,
        Opcode::GT => x > y,
        Opcode::LT => x < y,
        Opcode::GTE => x >= y,
        _ => x <= y,
    }
}

pub open spec fn is_comparison(op: Opcode) -> bool {
    op == Opcode::EQ || op == Opcode::NEQ || op == Opcode::GT || op == Opcode::LT
        || op == Opcode::GTE || op == Opcode::LTE
}

/// An arithmetic result stored to register `c`, or an overflow fault.
pub open spec fn store(s: MachineState, c: u8, v: int) -> (MachineState, StepResult) {
    if !fits_i32(v) {
        fault(s, Fault::Overflow)
    } else {
        advance(s, s.registers.update(c as int, v as i32), s.pc + INSTRUCTION_WIDTH as int)
    }
}

/// The effect of a full four-byte instruction `op a b c` at `s.pc`.
pub open spec fn execute(s: MachineState, op: Opcode, a: u8, b: u8, c: u8) -> (MachineState, StepResult) {
    let next = s.pc + INSTRUCTION_WIDTH as int;
    let regs = s.registers;
    match op {
        Opcode::LOAD => if !is_register(a) {
            fault(s, Fault::InvalidRegister)
        } else {
            advance(s, regs.update(a as int, sign_extend16(b, c)), next)
        },
        Opcode::ADD | Opcode::SUB | Opcode::MUL | Opcode::DIV => if !is_register(a)
            || !is_register(b) || !is_register(c) {
            fault(s, Fault::InvalidRegister)
        } else {
            let x = regs[a as int] as int;
            let y = regs[b as int] as int;
            match op {
                Opcode::ADD => store(s, c, x + y),
                Opcode::SUB => store(s, c, x - y),
                Opcode::MUL => store(s, c, x * y),
                _ => if y == 0 {
                    fault(s, Fault::DivisionByZero)
                } else if !fits_i32(trunc_div(x, y)) {
                    fault(s, Fault::Overflow)
                } else {
                    let t = MachineState { remainder: wrap_u32(trunc_rem(x, y)), ..s };
                    advance(t, regs.update(c as int, trunc_div(x, y) as i32), next)
                },
            }
        },
        Opcode::JMP | Opcode::JMPF | Opcode::JMPB | Opcode::JEQ | Opcode::JNEQ => if !is_register(a) {
            fault(s, Fault::InvalidRegister)
        } else {
            let v = regs[a as int] as int;
            match op {
                Opcode::JMP => jump_to(s, v),
                Opcode::JMPF => jump_to(s, s.pc + 2 + v),
                Opcode::JMPB => jump_to(s, s.pc + 2 - v),
                Opcode::JEQ => if s.equal_flag { jump_to(s, v) } else { advance(s, regs, next) },
                _ => if !s.equal_flag { jump_to(s, v) } else { advance(s, regs, next) },
            }
        },
        Opcode::ALOC => if !is_register(a) {
            fault(s, Fault::InvalidRegister)
        } else {
            let n = regs[a as int] as int;
            if n < 0 || s.heap.len() + n > usize::MAX as int {
                fault(s, Fault::InvalidAllocation)
            } else {
                let t = MachineState { heap: s.heap + Seq::new(n as nat, |i: int| 0u8), ..s };
                advance(t, regs, next)
            }
        },
        Opcode::INC | Opcode::DEC => if !is_register(a) {
            fault(s, Fault::InvalidRegister)
        } else {
            let v = if op == Opcode::INC { regs[a as int] + 1 } else { regs[a as int] - 1 };
            store(s, a, v)
        },
        _ => if !is_register(a) || !is_register(b) {
            fault(s, Fault::InvalidRegister)
        } else {
            let t = MachineState { equal_flag: compare(op, regs[a as int], regs[b as int]), ..s };
            advance(t, regs, next)
        },
    }
}

/// One fetch-decode-execute cycle.
pub open spec fn step(s: MachineState) -> (MachineState, StepResult) {
    if s.pc >= s.program.len() {
        halted(s, HaltReason::EndOfProgram)
    } else {
        let op = opcode_from_byte(s.program[s.pc as int]);
        if op == Opcode::HLT {
            (MachineState { pc: s.pc + 1, ..s }, StepResult::Halted(HaltReason::Halt))
        } else if op == Opcode::IGL {
            (MachineState { pc: s.pc + 1, ..s }, StepResult::Halted(HaltReason::Illegal))
        } else if s.pc + INSTRUCTION_WIDTH > s.program.len() {
            fault(s, Fault::PcOutOfBounds)
        } else {
            execute(
                s,
                op,
                s.program[s.pc + 1int],
                s.program[s.pc + 2int],
                s.program[s.pc + 3int],
            )
        }
    }
}

/// Up to `fuel` cycles: the state reached, and why the machine stopped, if it did.
pub open spec fn run_steps(s: MachineState, fuel: nat) -> (MachineState, Option<HaltReason>)
    decreases fuel,
{
    if fuel == 0 {
        (s, None)
    } else {
        match step(s) {
            (t, StepResult::Halted(why)) => (t, Some(why)),
            (t, StepResult::Continue) => run_steps(t, (fuel - 1) as nat),
        }
    }
}

/// The machine: register file, heap, program counter, program bytes,
/// remainder register and comparison flag.
pub struct VirtualMachine {
    pub registers: [i32; 32],
    pub heap: Vec<u8>,
    pub pc: usize,
    pub program: Vec<u8>,
    pub remainder: u32,
    pub equal_flag: bool,
}

impl View for VirtualMachine {
    type V = MachineState;

    open spec fn view(&self) -> MachineState {
        MachineState {
            registers: self.registers@,
            heap: self.heap@,
            pc: self.pc as nat,
            program: self.program@,
            remainder: self.remainder,
            equal_flag: self.equal_flag,
        }
    }
}

/// The state of a fresh machine running `program`.
pub open spec fn initial_state(program: Seq<u8>) -> MachineState {
    MachineState {
        registers: Seq::new(REGISTER_COUNT as nat, |i: int| 0i32),
        heap: Seq::empty(),
        pc: 0,
        program,
        remainder: 0,
        equal_flag: false,
    }
}

impl Default for VirtualMachine {
    fn default() -> (r: VirtualMachine)
        ensures
            r@ == initial_state(Seq::empty()),
    {
        VirtualMachine::new()
    }
}

impl VirtualMachine {
    /// A machine with zeroed registers, an empty heap and an empty program.
    pub fn new() -> (r: VirtualMachine)
        ensures
            r@ == initial_state(Seq::empty()),
    {
        let r = VirtualMachine {
            registers: [0; 32],
            heap: Vec::new(),
            pc: 0,
            program: Vec::new(),
            remainder: 0,
            equal_flag: false,
        };
        assert(r@.registers =~= initial_state(Seq::empty()).registers);
        r
    }

    /// Puts the machine back in its initial state, program included.
    pub fn reset(&mut self)
        ensures
            final(self)@ == initial_state(Seq::empty()),
    {
        *self = VirtualMachine::new();
    }

    /// Replaces the program and starts it afresh from a reset machine.
    pub fn load(&mut self, bytes: Vec<u8>)
        ensures
            final(self)@ == initial_state(bytes@),
    {
        *self = VirtualMachine::new();
        self.program = bytes;
        assert(final(self)@.registers =~= initial_state(bytes@).registers);
    }

    /// The machine has `REGISTER_COUNT` registers.
    pub proof fn lemma_register_count(&self)
        ensures
            self@.registers.len() == REGISTER_COUNT,
    {
    }

    /// Sets register `idx` to `v`; `false`, and nothing changed, if there is
    /// no such register.
    pub fn set_register(&mut self, idx: usize, v: i32) -> (r: bool)
        ensures
            r == (idx < REGISTER_COUNT),
            r ==> final(self)@ == (MachineState {
                registers: old(self)@.registers.update(idx as int, v),
                ..old(self)@
            }),
            !r ==> final(self)@ == old(self)@,
    {
        if idx < REGISTER_COUNT {
            self.registers[idx] = v;
            assert(final(self)@.registers =~= old(self)@.registers.update(idx as int, v));
            true
        } else {
            false
        }
    }

    pub fn pc(&self) -> (r: usize)
        ensures
            r == self@.pc,
    {
        self.pc
    }

    pub fn heap_len(&self) -> (r: usize)
        ensures
            r == self@.heap.len(),
    {
        self.heap.len()
    }

    pub fn program_len(&self) -> (r: usize)
        ensures
            r == self@.program.len(),
    {
        self.program.len()
    }

    pub fn remainder(&self) -> (r: u32)
        ensures
            r == self@.remainder,
    {
        self.remainder
    }

    pub fn equal_flag(&self) -> (r: bool)
        ensures
            r == self@.equal_flag,
    {
        self.equal_flag
    }

    /// The value of register `idx`, if there is such a register.
    pub fn register(&self, idx: usize) -> (r: Option<i32>)
        ensures
            r == (if idx < REGISTER_COUNT { Some(self@.registers[idx as int]) } else { None }),
    {
        if idx < REGISTER_COUNT {
            Some(self.registers[idx])
        } else {
            None
        }
    }

    fn decode_opcode(&mut self) -> (r: Opcode)
        requires
            old(self).pc < old(self).program.len(),
        ensures
            r == opcode_from_byte(old(self)@.program[old(self)@.pc as int]),
            final(self)@ == (MachineState { pc: old(self)@.pc + 1, ..old(self)@ }),
    {
        let opcode = Opcode::from_byte(self.program[self.pc]);
        self.pc = self.pc + 1;
        opcode
    }

    fn next_8_bits(&mut self) -> (r: u8)
        requires
            old(self).pc < old(self).program.len(),
        ensures
            r == old(self)@.program[old(self)@.pc as int],
            final(self)@ == (MachineState { pc: old(self)@.pc + 1, ..old(self)@ }),
    {
        let result = self.program[self.pc];
        self.pc = self.pc + 1;
        result
    }

    fn next_16_bits(&mut self) -> (r: (u8, u8))
        requires
            old(self).pc + 1 < old(self).program.len(),
        ensures
            r == (old(self)@.program[old(self)@.pc as int], old(self)@.program[old(self)@.pc + 1int]),
            final(self)@ == (MachineState { pc: old(self)@.pc + 2, ..old(self)@ }),
    {
        let result = (self.program[self.pc], self.program[self.pc + 1]);
        self.pc = self.pc + 2;
        result
    }

    /// Stops on `f`, leaving the machine as it was when the instruction began.
    fn fail(&mut self, start: usize, f: Fault) -> (r: StepResult)
        ensures
            final(self)@ == (MachineState { pc: start as nat, ..old(self)@ }),
            r == StepResult::Halted(HaltReason::Fault(f)),
    {
        self.pc = start;
        StepResult::Halted(HaltReason::Fault(f))
    }

    /// Moves the program counter to `target`, which the caller has computed
    /// relative to `start`.
    fn jump(&mut self, start: usize, target: i128) -> (r: StepResult)
        ensures
            (final(self)@, r) == jump_to(MachineState { pc: start as nat, ..old(self)@ }, target as int),
    {
        if target < 0 || target > usize::MAX as i128 {
            self.fail(start, Fault::PcOutOfBounds)
        } else {
            self.pc = target as usize;
            StepResult::Continue
        }
    }

    /// Stores an arithmetic result to register `c`, or stops on overflow.
    fn store(&mut self, start: usize, c: u8, v: i64) -> (r: StepResult)
        requires
            is_register(c),
            start + 4 <= usize::MAX,
        ensures
            (final(self)@, r) == store(MachineState { pc: start as nat, ..old(self)@ }, c, v as int),
    {
        if v < i32::MIN as i64 || v > i32::MAX as i64 {
            self.fail(start, Fault::Overflow)
        } else {
            self.registers[c as usize] = v as i32;
            self.pc = start + 4;
            StepResult::Continue
        }
    }

    fn exec_load(&mut self, start: usize) -> (r: StepResult)
        requires
            old(self).pc == start + 1,
            start + 4 <= old(self).program.len(),
        ensures
            (final(self)@, r) == execute(
                MachineState { pc: start as nat, ..old(self)@ },
                Opcode::LOAD,
                old(self)@.program[start + 1int],
                old(self)@.program[start + 2int],
                old(self)@.program[start + 3int],
            ),
    {
        let ghost s0 = self@;
        let idx = self.next_8_bits();
        let (hi, lo) = self.next_16_bits();
        if idx as usize >= REGISTER_COUNT {
            return self.fail(start, Fault::InvalidRegister);
        }
        let number: u16 = ((hi as u16) << 8u16) | (lo as u16);
        assert(number == hi as int * 256 + lo as int) by (bit_vector)
            requires
                number == ((hi as u16) << 8u16) | (lo as u16),
        ;
        let value: i32 = if number >= 0x8000 { number as i32 - 0x10000 } else { number as i32 };
        self.registers[idx as usize] = value;
        assert(self@.registers =~= s0.registers.update(idx as int, sign_extend16(hi, lo)));
        StepResult::Continue
    }

    fn exec_arithmetic(&mut self, start: usize, opcode: Opcode) -> (r: StepResult)
        requires
            old(self).pc == start + 1,
            start + 4 <= old(self).program.len(),
            opcode == Opcode::ADD || opcode == Opcode::SUB || opcode == Opcode::MUL
                || opcode == Opcode::DIV,
        ensures
            (final(self)@, r) == execute(
                MachineState { pc: start as nat, ..old(self)@ },
                opcode,
                old(self)@.program[start + 1int],
                old(self)@.program[start + 2int],
                old(self)@.program[start + 3int],
            ),
    {
        let ghost s0 = self@;
        let a = self.next_8_bits();
        let b = self.next_8_bits();
        let c = self.next_8_bits();
        if a as usize >= REGISTER_COUNT || b as usize >= REGISTER_COUNT || c as usize
            >= REGISTER_COUNT {
            return self.fail(start, Fault::InvalidRegister);
        }
        let x = self.registers[a as usize] as i64;
        let y = self.registers[b as usize] as i64;
        match opcode {
            Opcode::ADD => self.store(start, c, x + y),
            Opcode::SUB => self.store(start, c, x - y),
            Opcode::MUL => {
                assert(-0x8000_0000_0000_0000 < x * y < 0x8000_0000_0000_0000) by (nonlinear_arith)
                    requires
                        -0x8000_0000 <= x < 0x8000_0000,
                        -0x8000_0000 <= y < 0x8000_0000,
                ;
                self.store(start, c, x * y)
            },
            _ => {
                if y == 0 {
                    return self.fail(start, Fault::DivisionByZero);
                }
                let mx: u64 = if x < 0 { (-x) as u64 } else { x as u64 };
                let my: u64 = if y < 0 { (-y) as u64 } else { y as u64 };
                assert(mx / my <= mx) by (nonlinear_arith)
                    requires my > 0;
                assert(mx % my < my) by (nonlinear_arith)
                    requires my > 0;
                let q = (mx / my) as i64;
                let m = (mx % my) as i64;
                let quotient: i64 = if (x < 0) != (y < 0) { -q } else { q };
                let rem: i64 = if x < 0 { -m } else { m };
                if quotient > i32::MAX as i64 {
                    return self.fail(start, Fault::Overflow);
                }
                self.registers[c as usize] = quotient as i32;
                self.remainder = if rem < 0 { (rem + 0x1_0000_0000) as u32 } else { rem as u32 };
                assert(self@.registers =~= s0.registers.update(c as int, trunc_div(x as int, y as int) as i32));
                StepResult::Continue
            },
        }
    }

    fn exec_jump(&mut self, start: usize, opcode: Opcode) -> (r: StepResult)
        requires
            old(self).pc == start + 1,
            start + 4 <= old(self).program.len(),
            opcode == Opcode::JMP || opcode == Opcode::JMPF || opcode == Opcode::JMPB
                || opcode == Opcode::JEQ || opcode == Opcode::JNEQ,
        ensures
            (final(self)@, r) == execute(
                MachineState { pc: start as nat, ..old(self)@ },
                opcode,
                old(self)@.program[start + 1int],
                old(self)@.program[start + 2int],
                old(self)@.program[start + 3int],
            ),
    {
        let a = self.next_8_bits();
        if a as usize >= REGISTER_COUNT {
            return self.fail(start, Fault::InvalidRegister);
        }
        let v = self.registers[a as usize] as i128;
        match opcode {
            Opcode::JMP => self.jump(start, v),
            Opcode::JMPF => self.jump(start, start as i128 + 2 + v),
            Opcode::JMPB => self.jump(start, start as i128 + 2 - v),
            Opcode::JEQ if self.equal_flag => self.jump(start, v),
            Opcode::JNEQ if !self.equal_flag => self.jump(start, v),
            _ => {
                self.next_16_bits();
                StepResult::Continue
            },
        }
    }

    fn exec_aloc(&mut self, start: usize) -> (r: StepResult)
        requires
            old(self).pc == start + 1,
            start + 4 <= old(self).program.len(),
        ensures
            (final(self)@, r) == execute(
                MachineState { pc: start as nat, ..old(self)@ },
                Opcode::ALOC,
                old(self)@.program[start + 1int],
                old(self)@.program[start + 2int],
                old(self)@.program[start + 3int],
            ),
    {
        let ghost s0 = self@;
        let idx = self.next_8_bits();
        self.next_16_bits();
        if idx as usize >= REGISTER_COUNT {
            return self.fail(start, Fault::InvalidRegister);
        }
        let nbytes = self.registers[idx as usize];
        if nbytes < 0 || nbytes as usize > usize::MAX - self.heap.len() {
            return self.fail(start, Fault::InvalidAllocation);
        }
        let new_len = self.heap.len() + nbytes as usize;
        self.heap.resize(new_len, 0u8);
        assert(self@.heap =~= s0.heap + Seq::new(nbytes as nat, |i: int| 0u8));
        StepResult::Continue
    }

    fn exec_step_register(&mut self, start: usize, opcode: Opcode) -> (r: StepResult)
        requires
            old(self).pc == start + 1,
            start + 4 <= old(self).program.len(),
            opcode == Opcode::INC || opcode == Opcode::DEC,
        ensures
            (final(self)@, r) == execute(
                MachineState { pc: start as nat, ..old(self)@ },
                opcode,
                old(self)@.program[start + 1int],
                old(self)@.program[start + 2int],
                old(self)@.program[start + 3int],
            ),
    {
        let idx = self.next_8_bits();
        self.next_16_bits();
        if idx as usize >= REGISTER_COUNT {
            return self.fail(start, Fault::InvalidRegister);
        }
        let v = self.registers[idx as usize] as i64;
        if opcode == Opcode::INC {
            self.store(start, idx, v + 1)
        } else {
            self.store(start, idx, v - 1)
        }
    }

    fn exec_compare(&mut self, start: usize, opcode: Opcode) -> (r: StepResult)
        requires
            old(self).pc == start + 1,
            start + 4 <= old(self).program.len(),
            is_comparison(opcode),
        ensures
            (final(self)@, r) == execute(
                MachineState { pc: start as nat, ..old(self)@ },
                opcode,
                old(self)@.program[start + 1int],
                old(self)@.program[start + 2int],
                old(self)@.program[start + 3int],
            ),
    {
        let a = self.next_8_bits();
        let b = self.next_8_bits();
        self.next_8_bits();
        if a as usize >= REGISTER_COUNT || b as usize >= REGISTER_COUNT {
            return self.fail(start, Fault::InvalidRegister);
        }
        let x = self.registers[a as usize];
        let y = self.registers[b as usize];
        self.equal_flag = match opcode {
            Opcode::EQ => x == y,
            Opcode::NEQ => x != y,
            Opcode::GT => x > y,
            Opcode::LT => x < y,
            Opcode::GTE => x >= y,
            _ => x <= y,
        };
        StepResult::Continue
    }

    /// One fetch-decode-execute cycle.
    fn execute_instruction(&mut self) -> (r: StepResult)
        ensures
            (final(self)@, r) == step(old(self)@),
    {
        if self.pc >= self.program.len() {
            return StepResult::Halted(HaltReason::EndOfProgram);
        }
        let start = self.pc;
        let opcode = self.decode_opcode();
        match opcode {
            Opcode::HLT => {
                return StepResult::Halted(HaltReason::Halt);
            },
            Opcode::IGL => {
                return StepResult::Halted(HaltReason::Illegal);
            },
            _ => {},
        }
        if self.program.len() - start < INSTRUCTION_WIDTH {
            return self.fail(start, Fault::PcOutOfBounds);
        }
        match opcode {
            Opcode::LOAD => self.exec_load(start),
            Opcode::ADD | Opcode::SUB | Opcode::MUL | Opcode::DIV => self.exec_arithmetic(
                start,
                opcode,
            ),
            Opcode::JMP | Opcode::JMPF | Opcode::JMPB | Opcode::JEQ | Opcode::JNEQ => self.exec_jump(
                start,
                opcode,
            ),
            Opcode::ALOC => self.exec_aloc(start),
            Opcode::INC | Opcode::DEC => self.exec_step_register(start, opcode),
            _ => self.exec_compare(start, opcode),
        }
    }

    /// Executes one instruction and reports whether the machine goes on.
    pub fn run_once(&mut self) -> (r: StepResult)
        ensures
            (final(self)@, r) == step(old(self)@),
    {
        self.execute_instruction()
    }

    /// Executes instructions until the machine halts, or until `max_steps`
    /// instructions have run; `None` says that the machine has not halted yet.
    pub fn run(&mut self, max_steps: u64) -> (r: Option<HaltReason>)
        ensures
            (final(self)@, r) == run_steps(old(self)@, max_steps as nat),
    {
        let mut fuel = max_steps;
        while fuel > 0
            invariant
                run_steps(self@, fuel as nat) == run_steps(old(self)@, max_steps as nat),
            decreases fuel,
        {
            match self.execute_instruction() {
                StepResult::Halted(why) => {
                    return Some(why);
                },
                StepResult::Continue => {},
            }
            fuel = fuel - 1;
        }
        None
    }

    /// Appends one byte to the program; the program counter is kept.
    pub fn add_byte(&mut self, byte: u8)
        ensures
            final(self)@ == (MachineState { program: old(self)@.program.push(byte), ..old(self)@ }),
    {
        self.program.push(byte);
    }

    /// Appends bytes to the program; the program counter is kept.
    pub fn add_bytes(&mut self, b: Vec<u8>)
        ensures
            final(self)@ == (MachineState { program: old(self)@.program + b@, ..old(self)@ }),
    {
        let mut b = b;
        self.program.append(&mut b);
    }
}

/// The opcode of the instruction at the program counter.
pub open spec fn current_opcode(s: MachineState) -> Opcode {
    opcode_from_byte(s.program[s.pc as int])
}

/// Operand byte `k` (1, 2 or 3) of the instruction at the program counter.
pub open spec fn operand_byte(s: MachineState, k: int) -> u8 {
    s.program[s.pc + k]
}

/// The instruction at the program counter is whole: all four of its bytes are there.
pub open spec fn whole_instruction(s: MachineState) -> bool {
    s.pc + INSTRUCTION_WIDTH <= s.program.len()
}

/// Execution halts on HLT, on a byte that names no operation, and at the end
/// of the program, and the result tells the three apart.
pub proof fn lemma_halt_reasons(s: MachineState)
    ensures
        s.pc >= s.program.len() ==> step(s) == (s, StepResult::Halted(HaltReason::EndOfProgram)),
        s.pc < s.program.len() && s.program[s.pc as int] == 0 ==> step(s) == (
            MachineState { pc: s.pc + 1, ..s },
            StepResult::Halted(HaltReason::Halt),
        ),
        s.pc < s.program.len() && s.program[s.pc as int] >= 20 ==> step(s) == (
            MachineState { pc: s.pc + 1, ..s },
            StepResult::Halted(HaltReason::Illegal),
        ),
{
}

/// A fault stops the machine and leaves its state as it was.
pub proof fn lemma_fault_keeps_state(s: MachineState)
    ensures
        step(s).1 matches StepResult::Halted(HaltReason::Fault(_)) ==> step(s).0 == s,
{
}

/// Division by zero is a fault.
pub proof fn lemma_division_by_zero(s: MachineState)
    requires
        s.pc < s.program.len(),
        whole_instruction(s),
        current_opcode(s) == Opcode::DIV,
        is_register(operand_byte(s, 1)),
        is_register(operand_byte(s, 2)),
        is_register(operand_byte(s, 3)),
        s.registers[operand_byte(s, 2) as int] == 0,
    ensures
        step(s) == fault(s, Fault::DivisionByZero),
{
}

/// An instruction with a register operand that names no register is a fault:
/// the first operand of every instruction, the second of arithmetic and
/// comparisons, the third of arithmetic.
pub proof fn lemma_invalid_register(s: MachineState)
    requires
        s.pc < s.program.len(),
        whole_instruction(s),
        current_opcode(s) != Opcode::HLT,
        current_opcode(s) != Opcode::IGL,
        !is_register(operand_byte(s, 1)) || (is_arithmetic(current_opcode(s)) && (!is_register(
            operand_byte(s, 2),
        ) || !is_register(operand_byte(s, 3)))) || (is_comparison(current_opcode(s))
            && !is_register(operand_byte(s, 2))),
    ensures
        step(s) == fault(s, Fault::InvalidRegister),
{
}

pub open spec fn is_arithmetic(op: Opcode) -> bool {
    op == Opcode::ADD || op == Opcode::SUB || op == Opcode::MUL || op == Opcode::DIV
}

/// DIV stores the quotient rounded toward zero and the remainder of that
/// quotient, which together give back the dividend; nothing else changes but
/// the program counter, which moves to the next instruction.
pub proof fn lemma_division(s: MachineState)
    requires
        s.pc < s.program.len(),
        whole_instruction(s),
        current_opcode(s) == Opcode::DIV,
        is_register(operand_byte(s, 1)),
        is_register(operand_byte(s, 2)),
        is_register(operand_byte(s, 3)),
        s.registers[operand_byte(s, 2) as int] != 0,
        !(s.registers[operand_byte(s, 1) as int] == i32::MIN && s.registers[operand_byte(s, 2) as int]
            == -1),
    ensures
        ({
            let a = s.registers[operand_byte(s, 1) as int] as int;
            let d = s.registers[operand_byte(s, 2) as int] as int;
            let q = trunc_div(a, d);
            let r = trunc_rem(a, d);
            &&& step(s).1 == StepResult::Continue
            &&& step(s).0 == MachineState {
                registers: s.registers.update(operand_byte(s, 3) as int, q as i32),
                pc: (s.pc + INSTRUCTION_WIDTH) as nat,
                remainder: wrap_u32(r),
                ..s
            }
            &&& a == q * d + r
            &&& abs(r) < abs(d)
        }),
{
    let a = s.registers[operand_byte(s, 1) as int] as int;
    let d = s.registers[operand_byte(s, 2) as int] as int;
    let ma = abs(a) as int;
    let md = abs(d) as int;
    assert(ma == (ma / md) * md + ma % md && 0 <= ma % md < md) by (nonlinear_arith)
        requires md > 0;
    assert(ma / md <= ma) by (nonlinear_arith)
        requires md > 0, ma >= 0;
    let q = trunc_div(a, d);
    if md == 1 {
        assert(ma / md == ma) by (nonlinear_arith)
            requires md == 1;
    } else {
        assert(ma / md <= ma / 2) by (nonlinear_arith)
            requires md >= 2, ma >= 0;
    }
    assert(fits_i32(q));
    assert(a == q * d + trunc_rem(a, d)) by (nonlinear_arith)
        requires
            ma == (ma / md) * md + ma % md,
            ma == (if a < 0 { -a } else { a }),
            md == (if d < 0 { -d } else { d }),
            q == (if (a < 0) != (d < 0) { -(ma / md) } else { ma / md }),
            trunc_rem(a, d) == (if a < 0 { -(ma % md) } else { ma % md }),
    ;
}

/// A jump, taken, to a negative byte offset is a fault.
pub proof fn lemma_jump_below_zero(s: MachineState)
    requires
        s.pc < s.program.len(),
        whole_instruction(s),
        current_opcode(s) == Opcode::JMP || current_opcode(s) == Opcode::JMPB || (current_opcode(s)
            == Opcode::JEQ && s.equal_flag) || (current_opcode(s) == Opcode::JNEQ && !s.equal_flag),
        is_register(operand_byte(s, 1)),
        current_opcode(s) != Opcode::JMPB ==> s.registers[operand_byte(s, 1) as int] < 0,
        current_opcode(s) == Opcode::JMPB ==> s.registers[operand_byte(s, 1) as int] > s.pc + 2,
    ensures
        step(s) == fault(s, Fault::PcOutOfBounds),
{
}

/// An instruction cut short by the end of the program is a fault.
pub proof fn lemma_truncated_instruction(s: MachineState)
    requires
        s.pc < s.program.len(),
        !whole_instruction(s),
        current_opcode(s) != Opcode::HLT,
        current_opcode(s) != Opcode::IGL,
    ensures
        step(s) == fault(s, Fault::PcOutOfBounds),
{
}

/// The heap never shrinks: every step keeps it or extends it.
pub proof fn lemma_heap_grows(s: MachineState)
    ensures
        s.heap.len() <= step(s).0.heap.len(),
        step(s).0.heap.subrange(0, s.heap.len() as int) == s.heap,
{
    assert(s.heap.subrange(0, s.heap.len() as int) =~= s.heap);
    let t = step(s).0;
    if t.heap != s.heap {
        assert(t.heap.subrange(0, s.heap.len() as int) =~= s.heap);
    }
}

/// ALOC adds exactly the register's byte count to the heap, as zero bytes.
pub proof fn lemma_aloc_adds(s: MachineState)
    requires
        s.pc < s.program.len(),
        whole_instruction(s),
        current_opcode(s) == Opcode::ALOC,
        is_register(operand_byte(s, 1)),
        s.registers[operand_byte(s, 1) as int] >= 0,
        s.heap.len() + s.registers[operand_byte(s, 1) as int] <= usize::MAX,
    ensures
        step(s).1 == StepResult::Continue,
        step(s).0.heap == s.heap + Seq::new(
            s.registers[operand_byte(s, 1) as int] as nat,
            |i: int| 0u8,
        ),
        step(s).0.heap.len() == s.heap.len() + s.registers[operand_byte(s, 1) as int],
{
}

/// ALOC with a negative byte count is a fault, and the heap stays as it was.
pub proof fn lemma_aloc_negative(s: MachineState)
    requires
        s.pc < s.program.len(),
        whole_instruction(s),
        current_opcode(s) == Opcode::ALOC,
        is_register(operand_byte(s, 1)),
        s.registers[operand_byte(s, 1) as int] < 0,
    ensures
        step(s) == fault(s, Fault::InvalidAllocation),
{
}

/// A comparison sets the flag; JEQ then jumps exactly when it is set, and
/// JNEQ exactly when it is not, otherwise moving on to the next instruction.
pub proof fn lemma_conditional_jumps(s: MachineState)
    requires
        s.pc < s.program.len(),
        whole_instruction(s),
        is_register(operand_byte(s, 1)),
    ensures
        is_comparison(current_opcode(s)) && is_register(operand_byte(s, 2)) ==> step(s) == (
            MachineState {
                equal_flag: compare(
                    current_opcode(s),
                    s.registers[operand_byte(s, 1) as int],
                    s.registers[operand_byte(s, 2) as int],
                ),
                pc: (s.pc + INSTRUCTION_WIDTH) as nat,
                ..s
            },
            StepResult::Continue,
        ),
        ({
            let target = s.registers[operand_byte(s, 1) as int];
            let jumps = (current_opcode(s) == Opcode::JEQ && s.equal_flag) || (current_opcode(s)
                == Opcode::JNEQ && !s.equal_flag);
            (current_opcode(s) == Opcode::JEQ || current_opcode(s) == Opcode::JNEQ) && target >= 0
                ==> step(s) == advance(
                s,
                s.registers,
                if jumps { target as int } else { s.pc + INSTRUCTION_WIDTH },
            )
        }),
{
}

} // verus!
