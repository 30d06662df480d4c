//! The two-phase assembler: label collection, then code generation.
use vstd::prelude::*;
use crate::instruction::{Opcode, opcode_byte, opcode_from_byte, INSTRUCTION_WIDTH};
use crate::parser::instruction_view;
use crate::vm::{MachineState, advance, is_register, sign_extend16, step};
use crate::parser::{ParseError, Program, program, parse_spec};
use crate::symbols::{Symbol, SymbolTable, SymbolType, lookup};
use crate::token::{Token, TokenView, AssemblerInstruction, InstructionView, declared_label};

verus! {


/// The largest number of instructions a program may have, so that every
/// label offset fits in 32 bits and the code in memory.
pub const MAX_INSTRUCTIONS: usize = 0x3fff_ffff;

/// Why one instruction cannot be lowered to bytes.
#[derive(Copy, Clone, Debug, PartialEq, Eq, Structural)]
pub enum EncodeError {
    /// The opcode field holds no opcode token.
    MissingOpcode,
    /// The instruction is a directive, which has no bytecode.
    DirectiveNotEncodable,
    /// An operand field holds a token that is no operand.
    InvalidOperand,
    /// A label reference names no declared label.
    UnresolvedLabel,
    /// The operands take more than the three bytes an instruction has for them.
    OperandsTooWide,
}

/// Why a program cannot be assembled.
#[derive(Copy, Clone, Debug, PartialEq, Eq, Structural)]
pub enum AssembleError {
    Parse(ParseError),
    /// The instruction at `index` declares a label that an earlier one declared.
    DuplicateLabel { index: usize },
    /// The instruction at `index` cannot be encoded.
    Encode { index: usize, cause: EncodeError },
    /// The program has more than `MAX_INSTRUCTIONS` instructions.
    ProgramTooLarge,
}

/// Where the assembler is in its two passes.
#[derive(Copy, Clone, Debug, PartialEq, Eq, Structural)]
pub enum AssemblerPhase {
    First,
    Second,
}

impl Default for AssemblerPhase {
    fn default() -> (r: AssemblerPhase)
        ensures
            r == AssemblerPhase::First,
    {
        AssemblerPhase::First
    }
}

/// The low 16 bits of `v`, big-endian.
pub open spec fn be16(v: int) -> Seq<u8> {
    let u = v % 0x10000;
    seq![(u / 256) as u8, (u % 256) as u8]
}

pub open spec fn operand_bytes(t: TokenView, table: Seq<(Seq<char>, u32)>) -> Result<Seq<u8>, EncodeError> {
    match t {
        TokenView::Register(r) => Ok(seq![r]),
        TokenView::Integer(v) => Ok(be16(v as int)),
        TokenView::LabelUsage(name) => match lookup(table, name) {
            Some(offset) => Ok(be16(offset as int)),
            None => Err(EncodeError::UnresolvedLabel),
        },
        _ => Err(EncodeError::InvalidOperand),
    }
}

pub open spec fn field_bytes(o: Option<TokenView>, table: Seq<(Seq<char>, u32)>) -> Result<Seq<u8>, EncodeError> {
    match o {
        Some(t) => operand_bytes(t, table),
        None => Ok(Seq::empty()),
    }
}

/// The bytes of one instruction: its opcode, its operands in order, zeros to
/// fill four bytes.
pub open spec fn encode_instruction(i: InstructionView, table: Seq<(Seq<char>, u32)>) -> Result<Seq<u8>, EncodeError> {
    if i.directive.is_some() {
        Err(EncodeError::DirectiveNotEncodable)
    } else {
        match i.opcode {
            Some(TokenView::Op(code)) => match field_bytes(i.operand1, table) {
                Err(e) => Err(e),
                Ok(b1) => match field_bytes(i.operand2, table) {
                    Err(e) => Err(e),
                    Ok(b2) => match field_bytes(i.operand3, table) {
                        Err(e) => Err(e),
                        Ok(b3) => {
                            let ops = b1 + b2 + b3;
                            if ops.len() > 3 {
                                Err(EncodeError::OperandsTooWide)
                            } else {
                                Ok(seq![opcode_byte(code)] + ops + Seq::new(
                                    (3 - ops.len()) as nat,
                                    |k: int| 0u8,
                                ))
                            }
                        },
                    },
                },
            },
            _ => Err(EncodeError::MissingOpcode),
        }
    }
}

/// Phase 1 over the first `n` instructions: each declared label bound to four
/// times the index of its instruction.
pub open spec fn collect_labels(instrs: Seq<InstructionView>, n: nat) -> Result<Seq<(Seq<char>, u32)>, AssembleError>
    decreases n,
{
    if n == 0 {
        Ok(Seq::empty())
    } else {
        match collect_labels(instrs, (n - 1) as nat) {
            Err(e) => Err(e),
            Ok(t) => match declared_label(instrs[n - 1]) {
                None => Ok(t),
                Some(name) => if lookup(t, name).is_some() {
                    Err(AssembleError::DuplicateLabel { index: (n - 1) as usize })
                } else {
                    Ok(t.push((name, (INSTRUCTION_WIDTH * (n - 1)) as u32)))
                },
            },
        }
    }
}

/// Phase 2 over the first `n` instructions: their bytes, concatenated.
pub open spec fn encode_all(instrs: Seq<InstructionView>, table: Seq<(Seq<char>, u32)>, n: nat) -> Result<Seq<u8>, AssembleError>
    decreases n,
{
    if n == 0 {
        Ok(Seq::empty())
    } else {
        match encode_all(instrs, table, (n - 1) as nat) {
            Err(e) => Err(e),
            Ok(code) => match encode_instruction(instrs[n - 1], table) {
                Err(cause) => Err(AssembleError::Encode { index: (n - 1) as usize, cause }),
                Ok(bytes) => Ok(code + bytes),
            },
        }
    }
}

/// Both phases over a parsed program.
pub open spec fn assemble_program(instrs: Seq<InstructionView>) -> Result<Seq<u8>, AssembleError> {
    if instrs.len() > MAX_INSTRUCTIONS {
        Err(AssembleError::ProgramTooLarge)
    } else {
        match collect_labels(instrs, instrs.len()) {
            Err(e) => Err(e),
            Ok(table) => encode_all(instrs, table, instrs.len()),
        }
    }
}

/// What assembling `src` gives.
pub open spec fn assemble_spec(src: &str) -> Result<Seq<u8>, AssembleError> {
    match parse_spec(src) {
        Err(p) => Err(AssembleError::Parse(ParseError { position: p as usize })),
        Ok(instrs) => assemble_program(instrs),
    }
}

/// Appends the big-endian low 16 bits of `v` to `out`.
fn push_be16(out: &mut Vec<u8>, v: i64)
    requires
        i32::MIN <= v <= u32::MAX,
    ensures
        final(out)@ == old(out)@ + be16(v as int),
{
    let w: u64 = if v < 0 { (v + 0x1_0000_0000) as u64 } else { v as u64 };
    assert(w as int % 0x10000 == v % 0x10000) by (nonlinear_arith)
        requires
            w == (if v < 0 { v + 0x1_0000_0000 } else { v as int }),
    ;
    let u = w % 0x10000;
    out.push((u / 256) as u8);
    out.push((u % 256) as u8);
    assert(final(out)@ =~= old(out)@ + be16(v as int));
}

impl AssemblerInstruction {
    /// Appends the bytes of operand `t` to `results`.
    fn extract_operand(t: &Token, results: &mut Vec<u8>, symbols: &SymbolTable) -> (r: Result<(), EncodeError>)
        ensures
            match operand_bytes(t@, symbols@) {
                Ok(bytes) => r is Ok && final(results)@ == old(results)@ + bytes,
                Err(e) => r == Err::<(), EncodeError>(e) && final(results)@ == old(results)@,
            },
    {
        match t {
            Token::Register { reg_num } => {
                results.push(*reg_num);
                assert(final(results)@ =~= old(results)@ + seq![*reg_num]);
                Ok(())
            },
            Token::IntegerOperand { value } => {
                push_be16(results, *value as i64);
                Ok(())
            },
            Token::LabelUsage { name } => match symbols.symbol_value(name.as_str()) {
                Some(offset) => {
                    push_be16(results, offset as i64);
                    Ok(())
                },
                None => Err(EncodeError::UnresolvedLabel),
            },
            _ => Err(EncodeError::InvalidOperand),
        }
    }

    fn extract_field(o: &Option<Token>, results: &mut Vec<u8>, symbols: &SymbolTable) -> (r: Result<(), EncodeError>)
        ensures
            match field_bytes(crate::token::opt_view(*o), symbols@) {
                Ok(bytes) => r is Ok && final(results)@ == old(results)@ + bytes,
                Err(e) => r == Err::<(), EncodeError>(e) && final(results)@ == old(results)@,
            },
    {
        match o {
            Some(t) => AssemblerInstruction::extract_operand(t, results, symbols),
            None => {
                assert(final(results)@ =~= old(results)@ + Seq::<u8>::empty());
                Ok(())
            },
        }
    }

    /// The four bytes of this instruction, with label references resolved
    /// through `symbols`.
    pub fn to_bytes(&self, symbols: &SymbolTable) -> (r: Result<Vec<u8>, EncodeError>)
        ensures
            match r {
                Ok(bytes) => encode_instruction(self@, symbols@) == Ok::<Seq<u8>, EncodeError>(bytes@),
                Err(e) => encode_instruction(self@, symbols@) == Err::<Seq<u8>, EncodeError>(e),
            },
            r is Ok ==> r->Ok_0@.len() == INSTRUCTION_WIDTH,
    {
        if self.directive.is_some() {
            return Err(EncodeError::DirectiveNotEncodable);
        }
        let code = match &self.opcode {
            Some(Token::Op { code }) => *code,
            _ => {
                return Err(EncodeError::MissingOpcode);
            },
        };
        let mut results: Vec<u8> = Vec::new();
        results.push(code.to_byte());
        AssemblerInstruction::extract_field(&self.operand1, &mut results, symbols)?;
        AssemblerInstruction::extract_field(&self.operand2, &mut results, symbols)?;
        AssemblerInstruction::extract_field(&self.operand3, &mut results, symbols)?;
        if results.len() > INSTRUCTION_WIDTH {
            return Err(EncodeError::OperandsTooWide);
        }
        let ghost filled = results@;
        while results.len() < INSTRUCTION_WIDTH
            invariant
                filled.len() <= results@.len() <= INSTRUCTION_WIDTH,
                results@ == filled + Seq::new((results@.len() - filled.len()) as nat, |k: int| 0u8),
            decreases INSTRUCTION_WIDTH - results@.len(),
        {
            results.push(0u8);
            assert(results@ =~= filled + Seq::new((results@.len() - filled.len()) as nat, |k: int| 0u8));
        }
        proof {
            let b1 = field_bytes(crate::token::opt_view(self.operand1), symbols@)->Ok_0;
            let b2 = field_bytes(crate::token::opt_view(self.operand2), symbols@)->Ok_0;
            let b3 = field_bytes(crate::token::opt_view(self.operand3), symbols@)->Ok_0;
            let ops = b1 + b2 + b3;
            assert(filled =~= seq![opcode_byte(code)] + ops);
            assert(results@ =~= seq![opcode_byte(code)] + ops + Seq::new((3 - ops.len()) as nat, |k: int| 0u8));
        }
        Ok(results)
    }
}

/// The assembler: its phase and the symbol table of the program being assembled.
#[derive(Debug)]
pub struct Assembler {
    pub phase: AssemblerPhase,
    pub symbols: SymbolTable,
}

impl Assembler {
    pub fn new() -> (r: Assembler)
        ensures
            r.phase == AssemblerPhase::First,
            r.symbols@ == Seq::<(Seq<char>, u32)>::empty(),
    {
        Assembler { phase: AssemblerPhase::First, symbols: SymbolTable::new() }
    }

    /// Assembles `raw`: parses it, collects its labels, then emits four bytes
    /// for each instruction. Nothing is emitted for a program with an error.
    pub fn assemble(&mut self, raw: &str) -> (r: Result<Vec<u8>, AssembleError>)
        ensures
            match r {
                Ok(code) => assemble_spec(raw) == Ok::<Seq<u8>, AssembleError>(code@),
                Err(e) => assemble_spec(raw) == Err::<Seq<u8>, AssembleError>(e),
            },
            r is Ok ==> parse_spec(raw) is Ok && r->Ok_0@.len() == INSTRUCTION_WIDTH
                * parse_spec(raw)->Ok_0.len(),
            r is Ok ==> final(self).phase == AssemblerPhase::Second && final(self).symbols@
                == collect_labels(parse_spec(raw)->Ok_0, parse_spec(raw)->Ok_0.len())->Ok_0,
    {
        self.phase = AssemblerPhase::First;
        self.symbols = SymbolTable::new();
        let p = match program(raw) {
            Ok(p) => p,
            Err(e) => {
                return Err(AssembleError::Parse(e));
            },
        };
        if p.instructions.len() > MAX_INSTRUCTIONS {
            return Err(AssembleError::ProgramTooLarge);
        }
        self.process_first_phase(&p)?;
        proof {
            lemma_code_width(p@, self.symbols@, p@.len());
        }
        self.process_second_phase(&p)
    }

    /// Encodes `raw` against the labels of the last program assembled, without
    /// collecting labels of its own: the way a shell assembles one more line
    /// for a program already loaded.
    pub fn encode_with_symbols(&self, raw: &str) -> (r: Result<Vec<u8>, AssembleError>)
        ensures
            match parse_spec(raw) {
                Err(p) => r == Err::<Vec<u8>, AssembleError>(
                    AssembleError::Parse(ParseError { position: p as usize }),
                ),
                Ok(instrs) => if instrs.len() > MAX_INSTRUCTIONS {
                    r == Err::<Vec<u8>, AssembleError>(AssembleError::ProgramTooLarge)
                } else {
                    match r {
                        Ok(code) => encode_all(instrs, self.symbols@, instrs.len()) == Ok::<
                            Seq<u8>,
                            AssembleError,
                        >(code@),
                        Err(e) => encode_all(instrs, self.symbols@, instrs.len()) == Err::<
                            Seq<u8>,
                            AssembleError,
                        >(e),
                    }
                },
            },
    {
        let p = match program(raw) {
            Ok(p) => p,
            Err(e) => {
                return Err(AssembleError::Parse(e));
            },
        };
        if p.instructions.len() > MAX_INSTRUCTIONS {
            return Err(AssembleError::ProgramTooLarge);
        }
        self.process_second_phase(&p)
    }

    /// Phase 1: builds the symbol table, then moves to phase 2.
    fn process_first_phase(&mut self, p: &Program) -> (r: Result<(), AssembleError>)
        requires
            old(self).symbols@ == Seq::<(Seq<char>, u32)>::empty(),
            p@.len() <= MAX_INSTRUCTIONS,
        ensures
            match collect_labels(p@, p@.len()) {
                Ok(t) => r is Ok && final(self).symbols@ == t && final(self).phase
                    == AssemblerPhase::Second,
                Err(e) => r == Err::<(), AssembleError>(e),
            },
    {
        self.extract_labels(p)?;
        self.phase = AssemblerPhase::Second;
        Ok(())
    }

    /// Phase 2: the bytes of every instruction, in order.
    fn process_second_phase(&self, p: &Program) -> (r: Result<Vec<u8>, AssembleError>)
        requires
            p@.len() <= MAX_INSTRUCTIONS,
        ensures
            match r {
                Ok(code) => encode_all(p@, self.symbols@, p@.len()) == Ok::<Seq<u8>, AssembleError>(code@),
                Err(e) => encode_all(p@, self.symbols@, p@.len()) == Err::<Seq<u8>, AssembleError>(e),
            },
    {
        let mut code: Vec<u8> = Vec::new();
        let mut k: usize = 0;
        while k < p.instructions.len()
            invariant
                0 <= k <= p@.len() <= MAX_INSTRUCTIONS,
                p@.len() == p.instructions@.len(),
                encode_all(p@, self.symbols@, k as nat) == Ok::<Seq<u8>, AssembleError>(code@),
                code@.len() == INSTRUCTION_WIDTH * k,
            decreases p@.len() - k,
        {
            assert(p@[k as int] == p.instructions@[k as int]@);
            match p.instructions[k].to_bytes(&self.symbols) {
                Ok(bytes) => {
                    let mut bytes = bytes;
                    code.append(&mut bytes);
                },
                Err(cause) => {
                    proof {
                        assert(encode_all(p@, self.symbols@, (k + 1) as nat) == Err::<Seq<u8>, AssembleError>(
                            AssembleError::Encode { index: k, cause },
                        ));
                        lemma_encode_all_err_stays(p@, self.symbols@, (k + 1) as nat, p@.len());
                    }
                    return Err(AssembleError::Encode { index: k, cause });
                },
            }
            k = k + 1;
        }
        Ok(code)
    }

    /// Binds each declared label to the offset of its instruction; a label
    /// declared twice is an error.
    fn extract_labels(&mut self, p: &Program) -> (r: Result<(), AssembleError>)
        requires
            old(self).symbols@ == Seq::<(Seq<char>, u32)>::empty(),
            p@.len() <= MAX_INSTRUCTIONS,
        ensures
            final(self).phase == old(self).phase,
            match collect_labels(p@, p@.len()) {
                Ok(t) => r is Ok && final(self).symbols@ == t,
                Err(e) => r == Err::<(), AssembleError>(e),
            },
    {
        let mut k: usize = 0;
        while k < p.instructions.len()
            invariant
                0 <= k <= p@.len() <= MAX_INSTRUCTIONS,
                p@.len() == p.instructions@.len(),
                self.phase == old(self).phase,
                collect_labels(p@, k as nat) == Ok::<Seq<(Seq<char>, u32)>, AssembleError>(self.symbols@),
            decreases p@.len() - k,
        {
            let i = &p.instructions[k];
            assert(p@[k as int] == i@);
            if i.is_label() {
                if let Some(name) = i.label_name() {
                    if self.symbols.symbol_value(name.as_str()).is_some() {
                        proof {
                            lemma_collect_labels_err_stays(p@, (k + 1) as nat, p@.len());
                        }
                        return Err(AssembleError::DuplicateLabel { index: k });
                    }
                    let offset = (k * INSTRUCTION_WIDTH) as u32;
                    self.symbols.add_symbol(Symbol::new(name, SymbolType::Label, offset));
                }
            }
            k = k + 1;
        }
        Ok(())
    }
}

proof fn lemma_encode_all_err_stays(instrs: Seq<InstructionView>, table: Seq<(Seq<char>, u32)>, n: nat, m: nat)
    requires
        n <= m,
        encode_all(instrs, table, n) is Err,
    ensures
        encode_all(instrs, table, m) == encode_all(instrs, table, n),
    decreases m - n,
{
    if n < m {
        lemma_encode_all_err_stays(instrs, table, n, (m - 1) as nat);
    }
}

proof fn lemma_collect_labels_err_stays(instrs: Seq<InstructionView>, n: nat, m: nat)
    requires
        n <= m,
        collect_labels(instrs, n) is Err,
    ensures
        collect_labels(instrs, m) == collect_labels(instrs, n),
    decreases m - n,
{
    if n < m {
        lemma_collect_labels_err_stays(instrs, n, (m - 1) as nat);
    }
}

/// Every instruction that encodes takes exactly `INSTRUCTION_WIDTH` bytes,
/// whatever its operands.
pub proof fn lemma_instruction_width(i: InstructionView, table: Seq<(Seq<char>, u32)>)
    ensures
        encode_instruction(i, table) matches Ok(b) ==> b.len() == INSTRUCTION_WIDTH,
{
    lemma_field_width(i.operand1, table);
    lemma_field_width(i.operand2, table);
    lemma_field_width(i.operand3, table);
}

proof fn lemma_field_width(o: Option<TokenView>, table: Seq<(Seq<char>, u32)>)
    ensures
        field_bytes(o, table) matches Ok(b) ==> b.len() == field_width(o),
{
}

/// Assembled code is `INSTRUCTION_WIDTH` bytes per instruction.
pub proof fn lemma_code_width(instrs: Seq<InstructionView>, table: Seq<(Seq<char>, u32)>, n: nat)
    requires
        n <= instrs.len(),
    ensures
        encode_all(instrs, table, n) matches Ok(code) ==> code.len() == INSTRUCTION_WIDTH * n,
    decreases n,
{
    if n > 0 {
        lemma_code_width(instrs, table, (n - 1) as nat);
        lemma_instruction_width(instrs[n - 1], table);
    }
}

/// A label declared by the instruction at index `k` resolves to
/// `INSTRUCTION_WIDTH * k`, wherever it is referenced.
pub proof fn lemma_label_offset(instrs: Seq<InstructionView>, k: int)
    requires
        0 <= k < instrs.len() <= MAX_INSTRUCTIONS,
        declared_label(instrs[k]) is Some,
        collect_labels(instrs, instrs.len()) is Ok,
    ensures
        lookup(collect_labels(instrs, instrs.len())->Ok_0, declared_label(instrs[k])->Some_0)
            == Some((INSTRUCTION_WIDTH * k) as u32),
{
    lemma_label_offset_prefix(instrs, k, instrs.len());
}

proof fn lemma_label_offset_prefix(instrs: Seq<InstructionView>, k: int, n: nat)
    requires
        0 <= k < n <= instrs.len() <= MAX_INSTRUCTIONS,
        declared_label(instrs[k]) is Some,
        collect_labels(instrs, n) is Ok,
    ensures
        lookup(collect_labels(instrs, n)->Ok_0, declared_label(instrs[k])->Some_0) == Some(
            (INSTRUCTION_WIDTH * k) as u32,
        ),
    decreases n,
{
    let name = declared_label(instrs[k])->Some_0;
    let prev = collect_labels(instrs, (n - 1) as nat);
    if n - 1 > k {
        lemma_label_offset_prefix(instrs, k, (n - 1) as nat);
        let t = prev->Ok_0;
        if let Some(other) = declared_label(instrs[n - 1]) {
            crate::symbols::lemma_lookup_push(t, (other, (INSTRUCTION_WIDTH * (n - 1)) as u32), name);
        }
    } else {
        let t = prev->Ok_0;
        crate::symbols::lemma_lookup_push(t, (name, (INSTRUCTION_WIDTH * k) as u32), name);
    }
}

/// How many bytes an operand takes once encoded.
pub open spec fn operand_width(t: TokenView) -> nat {
    match t {
        TokenView::Register(_) => 1,
        _ => 2,
    }
}

/// What an operand stands for once encoded: a register's index, or the low
/// 16 bits of an integer or of a label's offset.
pub open spec fn operand_value(t: TokenView, table: Seq<(Seq<char>, u32)>) -> int {
    match t {
        TokenView::Register(r) => r as int,
        TokenView::Integer(v) => v as int % 0x10000,
        TokenView::LabelUsage(name) => lookup(table, name)->Some_0 as int % 0x10000,
        _ => 0,
    }
}

/// A big-endian field of `w` bytes at the start of `b`.
pub open spec fn read_field(b: Seq<u8>, w: nat) -> int {
    if w == 1 {
        b[0] as int
    } else {
        b[0] as int * 256 + b[1] as int
    }
}

/// Decodes one field per token in `ts`, each as wide as its token.
pub open spec fn decode_fields(b: Seq<u8>, ts: Seq<TokenView>) -> Seq<int>
    decreases ts.len(),
{
    if ts.len() == 0 {
        Seq::empty()
    } else {
        seq![read_field(b, operand_width(ts[0]))] + decode_fields(
            b.subrange(operand_width(ts[0]) as int, b.len() as int),
            ts.drop_first(),
        )
    }
}

/// How many bytes an optional operand takes once encoded.
pub open spec fn field_width(o: Option<TokenView>) -> nat {
    match o {
        Some(t) => operand_width(t),
        None => 0,
    }
}

pub open spec fn present(o: Option<TokenView>) -> Seq<TokenView> {
    match o {
        Some(t) => seq![t],
        None => Seq::empty(),
    }
}

/// The operands an instruction carries, in order.
pub open spec fn operands_of(i: InstructionView) -> Seq<TokenView> {
    present(i.operand1) + present(i.operand2) + present(i.operand3)
}

proof fn lemma_decode_field(
    o: Option<TokenView>,
    ts: Seq<TokenView>,
    x: Seq<u8>,
    rest: Seq<u8>,
    table: Seq<(Seq<char>, u32)>,
)
    requires
        field_bytes(o, table) == Ok::<Seq<u8>, EncodeError>(x),
    ensures
        decode_fields(x + rest, present(o) + ts) == present(o).map_values(
            |t: TokenView| operand_value(t, table),
        ) + decode_fields(rest, ts),
{
    match o {
        None => {
            assert(x + rest =~= rest);
            assert(present(o) + ts =~= ts);
            assert(present(o).map_values(|t: TokenView| operand_value(t, table)) + decode_fields(
                rest,
                ts,
            ) =~= decode_fields(rest, ts));
        },
        Some(t) => {
            let u = seq![t] + ts;
            assert(u[0] == t);
            assert(u.drop_first() =~= ts);
            let w = operand_width(t);
            let xr = x + rest;
            assert(xr.subrange(w as int, xr.len() as int) =~= rest);
            match t {
                TokenView::Register(r) => {},
                TokenView::Integer(v) => {
                    let q = v as int % 0x10000;
                    assert((q / 256) as u8 as int * 256 + (q % 256) as u8 as int == q);
                },
                TokenView::LabelUsage(name) => {
                    let q = lookup(table, name)->Some_0 as int % 0x10000;
                    assert((q / 256) as u8 as int * 256 + (q % 256) as u8 as int == q);
                },
                _ => {},
            }
            assert(read_field(xr, w) == operand_value(t, table));
            assert(present(o).map_values(|t: TokenView| operand_value(t, table)) =~= seq![
                operand_value(t, table),
            ]);
        },
    }
}

/// Decoding recovers what was encoded: the first byte decodes to the
/// instruction's opcode, the operand fields to the operands' values, and the
/// bytes after them are zero.
pub proof fn lemma_encode_decode(i: InstructionView, table: Seq<(Seq<char>, u32)>)
    requires
        encode_instruction(i, table) is Ok,
    ensures
        ({
            let b = encode_instruction(i, table)->Ok_0;
            let ops = operands_of(i);
            let used = 1 + decode_width(ops);
            &&& i.opcode matches Some(TokenView::Op(code))
            &&& opcode_from_byte(b[0]) == code
            &&& decode_fields(b.drop_first(), ops) == ops.map_values(
                |t: TokenView| operand_value(t, table),
            )
            &&& used <= INSTRUCTION_WIDTH
            &&& forall|k: int| used <= k < INSTRUCTION_WIDTH ==> b[k] == 0
        }),
{
    let b = encode_instruction(i, table)->Ok_0;
    let code = i.opcode->Some_0->Op_0;
    crate::instruction::lemma_opcode_byte_round_trip(code);
    let b1 = field_bytes(i.operand1, table)->Ok_0;
    let b2 = field_bytes(i.operand2, table)->Ok_0;
    let b3 = field_bytes(i.operand3, table)->Ok_0;
    let n = b1.len() + b2.len() + b3.len();
    let zeros = Seq::new((3 - n) as nat, |k: int| 0u8);
    let first = present(i.operand1);
    let second = present(i.operand2);
    let third = present(i.operand3);
    assert(b.drop_first() =~= b1 + (b2 + (b3 + zeros)));
    lemma_decode_field(i.operand3, Seq::empty(), b3, zeros, table);
    assert(third + Seq::<TokenView>::empty() =~= third);
    lemma_decode_field(i.operand2, third, b2, b3 + zeros, table);
    lemma_decode_field(i.operand1, second + third, b1, b2 + (b3 + zeros), table);
    assert(operands_of(i) =~= first + (second + third));
    let f = |t: TokenView| operand_value(t, table);
    assert(decode_fields(zeros, Seq::empty()) =~= Seq::<int>::empty());
    assert((first + (second + third)).map_values(f) =~= first.map_values(f) + (second.map_values(f) + (
    third.map_values(f) + Seq::<int>::empty())));
    lemma_field_width(i.operand1, table);
    lemma_field_width(i.operand2, table);
    lemma_field_width(i.operand3, table);
    lemma_decode_width(i);
}

/// The bytes the operand fields of `ts` take.
pub open spec fn decode_width(ts: Seq<TokenView>) -> nat
    decreases ts.len(),
{
    if ts.len() == 0 {
        0
    } else {
        operand_width(ts[0]) + decode_width(ts.drop_first())
    }
}

proof fn lemma_decode_width(i: InstructionView)
    ensures
        decode_width(operands_of(i)) == field_width(i.operand1) + field_width(i.operand2)
            + field_width(i.operand3),
{
    let first = present(i.operand1);
    let second = present(i.operand2);
    let third = present(i.operand3);
    lemma_decode_width_concat(second, third);
    lemma_decode_width_concat(first, second + third);
    assert(operands_of(i) =~= first + (second + third));
    reveal_with_fuel(decode_width, 2);
}

proof fn lemma_decode_width_concat(a: Seq<TokenView>, c: Seq<TokenView>)
    ensures
        decode_width(a + c) == decode_width(a) + decode_width(c),
    decreases a.len(),
{
    if a.len() == 0 {
        assert(a + c =~= c);
    } else {
        assert((a + c).drop_first() =~= a.drop_first() + c);
        lemma_decode_width_concat(a.drop_first(), c);
    }
}

/// Assembling `load $r #v` and executing it sets register `r` to `v`, for
/// every `v` that 16 bits hold.
pub proof fn lemma_load_round_trip(s: MachineState, r: u8, v: i32, table: Seq<(Seq<char>, u32)>)
    requires
        is_register(r),
        -0x8000 <= v < 0x8000,
        s.pc + INSTRUCTION_WIDTH <= s.program.len(),
        s.program.subrange(s.pc as int, s.pc + INSTRUCTION_WIDTH) == encode_instruction(
            instruction_view(
                None,
                TokenView::Op(Opcode::LOAD),
                Some(TokenView::Register(r)),
                Some(TokenView::Integer(v)),
                None,
            ),
            table,
        )->Ok_0,
    ensures
        step(s) == advance(s, s.registers.update(r as int, v), s.pc + INSTRUCTION_WIDTH),
{
    let i = instruction_view(
        None,
        TokenView::Op(Opcode::LOAD),
        Some(TokenView::Register(r)),
        Some(TokenView::Integer(v)),
        None,
    );
    let b = encode_instruction(i, table)->Ok_0;
    let q = v as int % 0x10000;
    assert(b == seq![1u8, r] + be16(v as int) + Seq::new(0, |k: int| 0u8));
    assert(s.program[s.pc as int] == b[0]);
    assert(s.program[s.pc + 1int] == b[1]);
    assert(s.program[s.pc + 2int] == b[2]);
    assert(s.program[s.pc + 3int] == b[3]);
    assert(sign_extend16((q / 256) as u8, (q % 256) as u8) == v);
}

/// No two instructions declare the same label.
pub open spec fn labels_distinct(instrs: Seq<InstructionView>) -> bool {
    forall|j: int, k: int|
        0 <= j < k < instrs.len() && (#[trigger] declared_label(instrs[j])) is Some
            ==> declared_label(instrs[j]) != #[trigger] declared_label(instrs[k])
}

/// How many of the first `n` instructions declare a label.
pub open spec fn label_count(instrs: Seq<InstructionView>, n: nat) -> nat
    decreases n,
{
    if n == 0 {
        0
    } else {
        label_count(instrs, (n - 1) as nat) + if declared_label(instrs[n - 1]) is Some {
            1nat
        } else {
            0nat
        }
    }
}

/// Phase 1 succeeds where no label is declared twice; the table then holds
/// one entry per declaring instruction and binds no name that none declares.
pub proof fn lemma_labels_collected(instrs: Seq<InstructionView>, n: nat)
    requires
        n <= instrs.len() <= MAX_INSTRUCTIONS,
        labels_distinct(instrs),
    ensures
        collect_labels(instrs, n) is Ok,
        collect_labels(instrs, n)->Ok_0.len() == label_count(instrs, n),
        forall|name: Seq<char>|
            (forall|k: int| 0 <= k < n ==> declared_label(instrs[k]) != Some(name)) ==> lookup(
                #[trigger] collect_labels(instrs, n)->Ok_0,
                name,
            ) is None,
    decreases n,
{
    if n > 0 {
        lemma_labels_collected(instrs, (n - 1) as nat);
        let t = collect_labels(instrs, (n - 1) as nat)->Ok_0;
        if let Some(name) = declared_label(instrs[n - 1]) {
            assert forall|k: int| 0 <= k < n - 1 implies declared_label(instrs[k]) != Some(name) by {
                assert(declared_label(instrs[k]) != declared_label(instrs[n - 1]));
            }
            let e = (name, (INSTRUCTION_WIDTH * (n - 1)) as u32);
            assert forall|x: Seq<char>|
                (forall|k: int| 0 <= k < n ==> declared_label(instrs[k]) != Some(x)) implies lookup(
                #[trigger] collect_labels(instrs, n)->Ok_0,
                x,
            ) is None by {
                assert(declared_label(instrs[n - 1]) != Some(x));
                assert forall|k: int| 0 <= k < n - 1 implies declared_label(instrs[k]) != Some(x) by {
                    assert(declared_label(instrs[k]) != Some(x));
                }
                crate::symbols::lemma_lookup_push(t, e, x);
            }
        } else {
            assert forall|x: Seq<char>|
                (forall|k: int| 0 <= k < n ==> declared_label(instrs[k]) != Some(x)) implies lookup(
                #[trigger] collect_labels(instrs, n)->Ok_0,
                x,
            ) is None by {
                assert forall|k: int| 0 <= k < n - 1 implies declared_label(instrs[k]) != Some(x) by {
                    assert(declared_label(instrs[k]) != Some(x));
                }
            }
        }
    }
}

/// Some instruction declares `name`.
pub open spec fn label_declared(instrs: Seq<InstructionView>, name: Seq<char>) -> bool {
    exists|j: int| 0 <= j < instrs.len() && declared_label(instrs[j]) == Some(name)
}

/// An operand field the assembler can lower: empty, a register, an integer,
/// or a reference to a label that the program declares.
pub open spec fn field_lowerable(instrs: Seq<InstructionView>, o: Option<TokenView>) -> bool {
    match o {
        None => true,
        Some(TokenView::Register(_)) => true,
        Some(TokenView::Integer(_)) => true,
        Some(TokenView::LabelUsage(name)) => label_declared(instrs, name),
        _ => false,
    }
}

/// An instruction the assembler can lower: an opcode, no directive, lowerable
/// operands that fit in three bytes.
pub open spec fn lowerable(instrs: Seq<InstructionView>, i: InstructionView) -> bool {
    &&& i.directive is None
    &&& i.opcode matches Some(TokenView::Op(_))
    &&& field_lowerable(instrs, i.operand1)
    &&& field_lowerable(instrs, i.operand2)
    &&& field_lowerable(instrs, i.operand3)
    &&& field_width(i.operand1) + field_width(i.operand2) + field_width(i.operand3) <= 3
}

proof fn lemma_field_lowered(instrs: Seq<InstructionView>, o: Option<TokenView>)
    requires
        instrs.len() <= MAX_INSTRUCTIONS,
        labels_distinct(instrs),
        field_lowerable(instrs, o),
    ensures
        field_bytes(o, collect_labels(instrs, instrs.len())->Ok_0) is Ok,
{
    lemma_labels_collected(instrs, instrs.len());
    if let Some(TokenView::LabelUsage(name)) = o {
        let j = choose|j: int| 0 <= j < instrs.len() && declared_label(instrs[j]) == Some(name);
        lemma_label_offset(instrs, j);
    }
}

/// Assembly succeeds on a program whose instructions can all be lowered and
/// whose labels are declared once each, and gives four bytes per instruction
/// whatever their operands.
pub proof fn lemma_assembly_succeeds(instrs: Seq<InstructionView>)
    requires
        instrs.len() <= MAX_INSTRUCTIONS,
        labels_distinct(instrs),
        forall|k: int| 0 <= k < instrs.len() ==> lowerable(instrs, #[trigger] instrs[k]),
    ensures
        assemble_program(instrs) is Ok,
        assemble_program(instrs)->Ok_0.len() == INSTRUCTION_WIDTH * instrs.len(),
{
    lemma_labels_collected(instrs, instrs.len());
    let table = collect_labels(instrs, instrs.len())->Ok_0;
    lemma_all_encoded(instrs, table, instrs.len());
    lemma_code_width(instrs, table, instrs.len());
}

proof fn lemma_all_encoded(instrs: Seq<InstructionView>, table: Seq<(Seq<char>, u32)>, n: nat)
    requires
        n <= instrs.len() <= MAX_INSTRUCTIONS,
        labels_distinct(instrs),
        table == collect_labels(instrs, instrs.len())->Ok_0,
        forall|k: int| 0 <= k < instrs.len() ==> lowerable(instrs, #[trigger] instrs[k]),
    ensures
        encode_all(instrs, table, n) is Ok,
    decreases n,
{
    if n > 0 {
        lemma_all_encoded(instrs, table, (n - 1) as nat);
        let i = instrs[n - 1];
        assert(lowerable(instrs, i));
        lemma_field_lowered(instrs, i.operand1);
        lemma_field_lowered(instrs, i.operand2);
        lemma_field_lowered(instrs, i.operand3);
        lemma_field_width(i.operand1, table);
        lemma_field_width(i.operand2, table);
        lemma_field_width(i.operand3, table);
    }
}

/// Each instruction's four bytes stand at four times its index in the code.
pub proof fn lemma_code_slices(instrs: Seq<InstructionView>, table: Seq<(Seq<char>, u32)>, n: nat)
    requires
        n <= instrs.len(),
        encode_all(instrs, table, n) is Ok,
    ensures
        forall|k: int|
            0 <= k < n ==> (#[trigger] encode_instruction(instrs[k], table)) is Ok
                && encode_all(instrs, table, n)->Ok_0.subrange(
                INSTRUCTION_WIDTH * k,
                INSTRUCTION_WIDTH * k + INSTRUCTION_WIDTH,
            ) == encode_instruction(instrs[k], table)->Ok_0,
    decreases n,
{
    if n > 0 {
        lemma_code_slices(instrs, table, (n - 1) as nat);
        lemma_code_width(instrs, table, (n - 1) as nat);
        lemma_instruction_width(instrs[n - 1], table);
        let prev = encode_all(instrs, table, (n - 1) as nat)->Ok_0;
        let last = encode_instruction(instrs[n - 1], table)->Ok_0;
        let code = encode_all(instrs, table, n)->Ok_0;
        assert(code == prev + last);
        assert forall|k: int| 0 <= k < n implies (#[trigger] encode_instruction(instrs[k], table)) is Ok
            && code.subrange(INSTRUCTION_WIDTH * k, INSTRUCTION_WIDTH * k + INSTRUCTION_WIDTH)
            == encode_instruction(instrs[k], table)->Ok_0 by {
            if k < n - 1 {
                assert(code.subrange(INSTRUCTION_WIDTH * k, INSTRUCTION_WIDTH * k + INSTRUCTION_WIDTH)
                    =~= prev.subrange(INSTRUCTION_WIDTH * k, INSTRUCTION_WIDTH * k + INSTRUCTION_WIDTH));
            } else {
                assert(code.subrange(INSTRUCTION_WIDTH * k, INSTRUCTION_WIDTH * k + INSTRUCTION_WIDTH)
                    =~= last);
            }
        }
    }
}

/// Decoding assembled code recovers every instruction: at four times its
/// index stands a byte that decodes to its opcode, followed by fields that
/// decode to its operands' values, then zeros.
pub proof fn lemma_program_encode_decode(instrs: Seq<InstructionView>)
    requires
        assemble_program(instrs) is Ok,
    ensures
        forall|k: int|
            0 <= k < instrs.len() ==> {
                let code = assemble_program(instrs)->Ok_0;
                let table = collect_labels(instrs, instrs.len())->Ok_0;
                let at = INSTRUCTION_WIDTH * k;
                let ops = operands_of(#[trigger] instrs[k]);
                &&& instrs[k].opcode matches Some(TokenView::Op(c))
                &&& opcode_from_byte(code[at]) == c
                &&& decode_fields(code.subrange(at + 1, at + INSTRUCTION_WIDTH), ops)
                    == ops.map_values(|t: TokenView| operand_value(t, table))
                &&& forall|j: int| 1 + decode_width(ops) <= j < INSTRUCTION_WIDTH ==> #[trigger] code[at + j] == 0
            },
{
    let table = collect_labels(instrs, instrs.len())->Ok_0;
    let code = assemble_program(instrs)->Ok_0;
    lemma_code_slices(instrs, table, instrs.len());
    lemma_code_width(instrs, table, instrs.len());
    assert forall|k: int| 0 <= k < instrs.len() implies {
        let at = INSTRUCTION_WIDTH * k;
        let ops = operands_of(#[trigger] instrs[k]);
        &&& instrs[k].opcode matches Some(TokenView::Op(c))
        &&& opcode_from_byte(code[at]) == c
        &&& decode_fields(code.subrange(at + 1, at + INSTRUCTION_WIDTH), ops) == ops.map_values(
            |t: TokenView| operand_value(t, table),
        )
        &&& forall|j: int| 1 + decode_width(ops) <= j < INSTRUCTION_WIDTH ==> #[trigger] code[at + j] == 0
    } by {
        let at = INSTRUCTION_WIDTH * k;
        let b = encode_instruction(instrs[k], table)->Ok_0;
        lemma_encode_decode(instrs[k], table);
        let slice = code.subrange(at, at + INSTRUCTION_WIDTH);
        lemma_instruction_width(instrs[k], table);
        assert(INSTRUCTION_WIDTH * k + INSTRUCTION_WIDTH <= INSTRUCTION_WIDTH * instrs.len()) by (nonlinear_arith)
            requires 0 <= k < instrs.len();
        assert(slice == b);
        assert forall|j: int| 0 <= j < INSTRUCTION_WIDTH implies code[at + j] == b[j] by {
            assert(slice[j] == code[at + j]);
        }
        assert(code.subrange(at + 1, at + INSTRUCTION_WIDTH) =~= b.drop_first());
        assert(code[at] == b[0]);
        let ops = operands_of(instrs[k]);
        assert(decode_fields(code.subrange(at + 1, at + INSTRUCTION_WIDTH), ops) == ops.map_values(
            |t: TokenView| operand_value(t, table),
        ));
        assert forall|j: int| 1 + decode_width(ops) <= j < INSTRUCTION_WIDTH implies #[trigger] code[at + j] == 0 by {
            assert(b[j] == 0);
        }

    }
}

} // verus!
