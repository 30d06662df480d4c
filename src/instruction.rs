//! The closed set of operation codes, their byte encoding and their mnemonics.
use vstd::prelude::*;
use vstd::string::StringSliceAdditionalSpecFns;

verus! {

/// Width in bytes of every encoded instruction: the opcode and three operand
/// bytes. Label offsets and the machine's decoding both rest on it.
pub const INSTRUCTION_WIDTH: usize = 4;

/// Operation selector: the first byte of every encoded instruction.
#[derive(Copy, Clone, Debug, PartialEq, Eq, Structural)]
pub enum Opcode {
    /// Stops execution.
    HLT,
    /// Loads a 16-bit immediate into a register.
    LOAD,
    ADD,
    SUB,
    MUL,
    /// Integer division; also sets the remainder register.
    DIV,
    /// Absolute jump to the byte offset held in a register.
    JMP,
    /// Relative jump forwards.
    JMPF,
    /// Relative jump backwards.
    JMPB,
    EQ,
    NEQ,
    GT,
    LT,
    GTE,
    LTE,
    /// Jump if the last comparison held.
    JEQ,
    /// Jump if the last comparison did not hold.
    JNEQ,
    /// Grows the heap by the number of bytes held in a register.
    ALOC,
    INC,
    DEC,
    /// Illegal instruction: stops execution with a diagnosable cause.
    IGL,
}

/// The wire value of an opcode.
pub open spec fn opcode_byte(op: Opcode) -> u8 {
    match op {
        Opcode::HLT => 0,
        Opcode::LOAD => 1,
        Opcode::ADD => 2,
        Opcode::SUB => 3,
        Opcode::MUL => 4,
        Opcode::DIV => 5,
        Opcode::JMP => 6,
        Opcode::JMPF => 7,
        Opcode::JMPB => 8,
        Opcode::EQ => 9,
        Opcode::NEQ => 10,
        Opcode::GT => 11,
        Opcode::LT => 12,
        Opcode::GTE => 13,
        Opcode::LTE => 14,
        Opcode::JEQ => 15,
        Opcode::JNEQ => 16,
        Opcode::ALOC => 17,
        Opcode::INC => 18,
        Opcode::DEC => 19,
        Opcode::IGL => 20,
    }
}

/// Decoding a byte: total, every byte without an operation is `IGL`.
pub open spec fn opcode_from_byte(b: u8) -> Opcode {
    if b == 0 { Opcode::HLT }
    else if b == 1 { Opcode::LOAD }
    else if b == 2 { Opcode::ADD }
    else if b == 3 { Opcode::SUB }
    else if b == 4 { Opcode::MUL }
    else if b == 5 { Opcode::DIV }
    else if b == 6 { Opcode::JMP }
    else if b == 7 { Opcode::JMPF }
    else if b == 8 { Opcode::JMPB }
    else if b == 9 { Opcode::EQ }
    else if b == 10 { Opcode::NEQ }
    else if b == 11 { Opcode::GT }
    else if b == 12 { Opcode::LT }
    else if b == 13 { Opcode::GTE }
    else if b == 14 { Opcode::LTE }
    else if b == 15 { Opcode::JEQ }
    else if b == 16 { Opcode::JNEQ }
    else if b == 17 { Opcode::ALOC }
    else if b == 18 { Opcode::INC }
    else if b == 19 { Opcode::DEC }
    else { Opcode::IGL }
}

/// The canonical lowercase mnemonic of an opcode, as bytes of source text.
pub open spec fn mnemonic(op: Opcode) -> Seq<u8> {
    match op {
        Opcode::HLT => seq![104u8, 108, 116],
        Opcode::LOAD => seq![108u8, 111, 97, 100],
        Opcode::ADD => seq![97u8, 100, 100],
        Opcode::SUB => seq![115u8, 117, 98],
        Opcode::MUL => seq![109u8, 117, 108],
        Opcode::DIV => seq![100u8, 105, 118],
        Opcode::JMP => seq![106u8, 109, 112],
        Opcode::JMPF => seq![106u8, 109, 112, 102],
        Opcode::JMPB => seq![106u8, 109, 112, 98],
        Opcode::EQ => seq![101u8, 113],
        Opcode::NEQ => seq![110u8, 101, 113],
        Opcode::GT => seq![103u8, 116],
        Opcode::LT => seq![108u8, 116],
        Opcode::GTE => seq![103u8, 116, 101],
        Opcode::LTE => seq![108u8, 116, 101],
        Opcode::JEQ => seq![106u8, 101, 113],
        Opcode::JNEQ => seq![106u8, 110, 101, 113],
        Opcode::ALOC => seq![97u8, 108, 111, 99],
        Opcode::INC => seq![105u8, 110, 99],
        Opcode::DEC => seq![100u8, 101, 99],
        Opcode::IGL => seq![105u8, 103, 108],
    }
}

/// Reading a mnemonic: total, every word that names no operation is `IGL`.
pub open spec fn opcode_from_mnemonic(w: Seq<u8>) -> Opcode {
    if w == mnemonic(Opcode::HLT) { Opcode::HLT }
    else if w == mnemonic(Opcode::LOAD) { Opcode::LOAD }
    else if w == mnemonic(Opcode::ADD) { Opcode::ADD }
    else if w == mnemonic(Opcode::SUB) { Opcode::SUB }
    else if w == mnemonic(Opcode::MUL) { Opcode::MUL }
    else if w == mnemonic(Opcode::DIV) { Opcode::DIV }
    else if w == mnemonic(Opcode::JMP) { Opcode::JMP }
    else if w == mnemonic(Opcode::JMPF) { Opcode::JMPF }
    else if w == mnemonic(Opcode::JMPB) { Opcode::JMPB }
    else if w == mnemonic(Opcode::EQ) { Opcode::EQ }
    else if w == mnemonic(Opcode::NEQ) { Opcode::NEQ }
    else if w == mnemonic(Opcode::GT) { Opcode::GT }
    else if w == mnemonic(Opcode::LT) { Opcode::LT }
    else if w == mnemonic(Opcode::GTE) { Opcode::GTE }
    else if w == mnemonic(Opcode::LTE) { Opcode::LTE }
    else if w == mnemonic(Opcode::JEQ) { Opcode::JEQ }
    else if w == mnemonic(Opcode::JNEQ) { Opcode::JNEQ }
    else if w == mnemonic(Opcode::ALOC) { Opcode::ALOC }
    else if w == mnemonic(Opcode::INC) { Opcode::INC }
    else if w == mnemonic(Opcode::DEC) { Opcode::DEC }
    else { Opcode::IGL }
}

impl Opcode {
    /// The byte that encodes this opcode.
    pub fn to_byte(self) -> (r: u8)
        ensures
            r == opcode_byte(self),
    {
        match self {
            Opcode::HLT => 0,
            Opcode::LOAD => 1,
            Opcode::ADD => 2,
            Opcode::SUB => 3,
            Opcode::MUL => 4,
            Opcode::DIV => 5,
            Opcode::JMP => 6,
            Opcode::JMPF => 7,
            Opcode::JMPB => 8,
            Opcode::EQ => 9,
            Opcode::NEQ => 10,
            Opcode::GT => 11,
            Opcode::LT => 12,
            Opcode::GTE => 13,
            Opcode::LTE => 14,
            Opcode::JEQ => 15,
            Opcode::JNEQ => 16,
            Opcode::ALOC => 17,
            Opcode::INC => 18,
            Opcode::DEC => 19,
            Opcode::IGL => 20,
        }
    }

    /// Decodes a byte; an unrecognized byte gives `IGL`.
    pub fn from_byte(b: u8) -> (r: Opcode)
        ensures
            r == opcode_from_byte(b),
    {
        match b {
            0 => Opcode::HLT,
            1 => Opcode::LOAD,
            2 => Opcode::ADD,
            3 => Opcode::SUB,
            4 => Opcode::MUL,
            5 => Opcode::DIV,
            6 => Opcode::JMP,
            7 => Opcode::JMPF,
            8 => Opcode::JMPB,
            9 => Opcode::EQ,
            10 => Opcode::NEQ,
            11 => Opcode::GT,
            12 => Opcode::LT,
            13 => Opcode::GTE,
            14 => Opcode::LTE,
            15 => Opcode::JEQ,
            16 => Opcode::JNEQ,
            17 => Opcode::ALOC,
            18 => Opcode::INC,
            19 => Opcode::DEC,
            _ => Opcode::IGL,
        }
    }
    /// The opcode that the mnemonic in `b[start..end]` names.
    pub fn from_mnemonic(b: &[u8], start: usize, end: usize) -> (r: Opcode)
        requires
            start <= end <= b@.len(),
        ensures
            r == opcode_from_mnemonic(b@.subrange(start as int, end as int)),
    {
        let ghost w = b@.subrange(start as int, end as int);
        let ops = [
            Opcode::HLT, Opcode::LOAD, Opcode::ADD, Opcode::SUB, Opcode::MUL, Opcode::DIV,
            Opcode::JMP, Opcode::JMPF, Opcode::JMPB, Opcode::EQ, Opcode::NEQ, Opcode::GT,
            Opcode::LT, Opcode::GTE, Opcode::LTE, Opcode::JEQ, Opcode::JNEQ, Opcode::ALOC,
            Opcode::INC, Opcode::DEC,
        ];
        let mut k: usize = 0;
        while k < 20
            invariant
                0 <= k <= 20,
                start <= end <= b@.len(),
                w == b@.subrange(start as int, end as int),
                ops@ == seq![
                    Opcode::HLT, Opcode::LOAD, Opcode::ADD, Opcode::SUB, Opcode::MUL, Opcode::DIV,
                    Opcode::JMP, Opcode::JMPF, Opcode::JMPB, Opcode::EQ, Opcode::NEQ, Opcode::GT,
                    Opcode::LT, Opcode::GTE, Opcode::LTE, Opcode::JEQ, Opcode::JNEQ, Opcode::ALOC,
                    Opcode::INC, Opcode::DEC,
                ],
                forall|j: int| 0 <= j < k ==> w != mnemonic(#[trigger] ops@[j]),
            decreases 20 - k,
        {
            let op = ops[k];
            let m = op.mnemonic_bytes();
            if word_equals(b, start, end, &m) {
                proof {
                    assert(w == mnemonic(ops@[k as int]));
                    assert forall|j: int| 0 <= j < k implies w != mnemonic(#[trigger] ops@[j]) by {}
                }
                return op;
            }
            k = k + 1;
        }
        Opcode::IGL
    }

    /// The bytes of this opcode's mnemonic.
    pub fn mnemonic_bytes(self) -> (r: Vec<u8>)
        ensures
            r@ == mnemonic(self),
    {
        let r = match self {
            Opcode::HLT => vec![104u8, 108, 116],
            Opcode::LOAD => vec![108u8, 111, 97, 100],
            Opcode::ADD => vec![97u8, 100, 100],
            Opcode::SUB => vec![115u8, 117, 98],
            Opcode::MUL => vec![109u8, 117, 108],
            Opcode::DIV => vec![100u8, 105, 118],
            Opcode::JMP => vec![106u8, 109, 112],
            Opcode::JMPF => vec![106u8, 109, 112, 102],
            Opcode::JMPB => vec![106u8, 109, 112, 98],
            Opcode::EQ => vec![101u8, 113],
            Opcode::NEQ => vec![110u8, 101, 113],
            Opcode::GT => vec![103u8, 116],
            Opcode::LT => vec![108u8, 116],
            Opcode::GTE => vec![103u8, 116, 101],
            Opcode::LTE => vec![108u8, 116, 101],
            Opcode::JEQ => vec![106u8, 101, 113],
            Opcode::JNEQ => vec![106u8, 110, 101, 113],
            Opcode::ALOC => vec![97u8, 108, 111, 99],
            Opcode::INC => vec![105u8, 110, 99],
            Opcode::DEC => vec![100u8, 101, 99],
            Opcode::IGL => vec![105u8, 103, 108],
        };
        assert(r@ =~= mnemonic(self));
        r
    }
}

/// Whether `b[start..end]` spells `word`.
fn word_equals(b: &[u8], start: usize, end: usize, word: &Vec<u8>) -> (r: bool)
    requires
        start <= end <= b@.len(),
    ensures
        r == (b@.subrange(start as int, end as int) == word@),
{
    if end - start != word.len() {
        return false;
    }
    let mut k: usize = 0;
    while k < word.len()
        invariant
            end - start == word@.len(),
            start <= end <= b@.len(),
            0 <= k <= word@.len(),
            forall|j: int| 0 <= j < k ==> b@[start + j] == word@[j],
        decreases word@.len() - k,
    {
        if b[start + k] != word[k] {
            assert(b@.subrange(start as int, end as int)[k as int] != word@[k as int]);
            return false;
        }
        k = k + 1;
    }
    assert(b@.subrange(start as int, end as int) =~= word@);
    true
}

impl From<u8> for Opcode {
    fn from(value: u8) -> Opcode {
        Opcode::from_byte(value)
    }
}

impl vstd::std_specs::convert::FromSpecImpl<u8> for Opcode {
    open spec fn obeys_from_spec() -> bool {
        true
    }

    open spec fn from_spec(v: u8) -> Opcode {
        opcode_from_byte(v)
    }
}

impl<'a> From<&'a str> for Opcode {
    fn from(v: &'a str) -> Opcode {
        let b = v.as_bytes();
        assert(b@.subrange(0, b@.len() as int) =~= b@);
        Opcode::from_mnemonic(b, 0, b.len())
    }
}

impl<'a> vstd::std_specs::convert::FromSpecImpl<&'a str> for Opcode {
    open spec fn obeys_from_spec() -> bool {
        true
    }

    open spec fn from_spec(v: &'a str) -> Opcode {
        opcode_from_mnemonic(v.spec_bytes())
    }
}

/// An instruction reduced to its operation.
#[derive(Debug, PartialEq, Eq, Structural)]
pub struct Instruction {
    pub opcode: Opcode,
}

impl Instruction {
    pub fn new(opcode: Opcode) -> (r: Instruction)
        ensures
            r.opcode == opcode,
    {
        Instruction { opcode }
    }
}

/// Every opcode survives encoding to its byte and decoding back.
pub proof fn lemma_opcode_byte_round_trip(op: Opcode)
    ensures
        opcode_from_byte(opcode_byte(op)) == op,
{
}

} // verus!
