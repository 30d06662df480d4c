//! The grammar of assembly source and its parser.
//!
//! Source is read as bytes. Tokens are separated by whitespace (space, tab,
//! carriage return, line feed):
//! - a label declaration `name:` may open an instruction, `name` being one or
//!   more ASCII letters or digits;
//! - the mnemonic is one or more ASCII letters, read by `opcode_from_mnemonic`;
//! - up to three operands follow it: `$N` a register (N at most 255), `#N` or
//!   `#-N` an integer that fits in 32 signed bits, `@name` a label reference.
//!
//! A token other than a label declaration must be followed by whitespace or by
//! the end of the source. A program is a sequence of instructions, with any
//! whitespace around them, and must use up the whole source.
use vstd::prelude::*;
use crate::instruction::{Opcode, opcode_from_mnemonic};
use crate::token::{Token, TokenView, AssemblerInstruction, InstructionView};
use crate::vm::fits_i32;
use vstd::utf8::*;
use vstd::string::*;

verus! {

pub open spec fn is_space(c: u8) -> bool {
    c == 32 || c == 9 || c == 10 || c == 13
}

pub open spec fn is_digit(c: u8) -> bool {
    48 <= c <= 57
}

pub open spec fn is_alpha(c: u8) -> bool {
    (65 <= c <= 90) || (97 <= c <= 122)
}

pub open spec fn is_alnum(c: u8) -> bool {
    is_alpha(c) || is_digit(c)
}

/// A class of characters that a token is made of.
#[derive(Copy, Clone, Debug, PartialEq, Eq, Structural)]
pub enum CharClass {
    Space,
    Digit,
    Alpha,
    Alnum,
}

pub open spec fn in_class(k: CharClass, c: u8) -> bool {
    match k {
        CharClass::Space => is_space(c),
        CharClass::Digit => is_digit(c),
        CharClass::Alpha => is_alpha(c),
        CharClass::Alnum => is_alnum(c),
    }
}

/// The end of the run of characters of class `k` that starts at `i`.
pub open spec fn run_end(b: Seq<u8>, i: int, k: CharClass) -> int
    decreases b.len() - i,
{
    if 0 <= i < b.len() && in_class(k, b[i]) {
        run_end(b, i + 1, k)
    } else {
        i
    }
}

/// The first position at or after `i` that holds no whitespace.
pub open spec fn skip_space(b: Seq<u8>, i: int) -> int {
    run_end(b, i, CharClass::Space)
}

/// A token may end at `i`: whitespace or the end of the source follows.
pub open spec fn at_boundary(b: Seq<u8>, i: int) -> bool {
    i >= b.len() || is_space(b[i])
}

/// The value of a string of decimal digits.
pub open spec fn digits_value(d: Seq<u8>) -> nat
    decreases d.len(),
{
    if d.len() == 0 {
        0
    } else {
        digits_value(d.drop_last()) * 10 + (d.last() - 48) as nat
    }
}

/// ASCII bytes read as characters.
pub open spec fn ascii_text(d: Seq<u8>) -> Seq<char> {
    d.map_values(|c: u8| c as char)
}

proof fn lemma_run_end_bounds(b: Seq<u8>, i: int, k: CharClass)
    requires
        0 <= i <= b.len(),
    ensures
        i <= run_end(b, i, k) <= b.len(),
        forall|j: int| i <= j < run_end(b, i, k) ==> in_class(k, #[trigger] b[j]),
        run_end(b, i, k) < b.len() ==> !in_class(k, b[run_end(b, i, k)]),
    decreases b.len() - i,
{
    if i < b.len() && in_class(k, b[i]) {
        lemma_run_end_bounds(b, i + 1, k);
    }
}

proof fn lemma_digits_prefix_monotone(d: Seq<u8>, j: int)
    requires
        0 <= j <= d.len(),
        forall|k: int| 0 <= k < d.len() ==> is_digit(#[trigger] d[k]),
    ensures
        digits_value(d.subrange(0, j)) <= digits_value(d),
    decreases d.len(),
{
    if j < d.len() {
        let e = d.drop_last();
        assert(e.subrange(0, j) =~= d.subrange(0, j));
        lemma_digits_prefix_monotone(e, j);
        assert(digits_value(e) <= digits_value(d)) by (nonlinear_arith)
            requires digits_value(d) == digits_value(e) * 10 + (d.last() - 48) as nat;
    } else {
        assert(d.subrange(0, j) =~= d);
    }
}

fn in_class_exec(k: CharClass, c: u8) -> (r: bool)
    ensures
        r == in_class(k, c),
{
    match k {
        CharClass::Space => c == 32 || c == 9 || c == 10 || c == 13,
        CharClass::Digit => 48 <= c && c <= 57,
        CharClass::Alpha => (65 <= c && c <= 90) || (97 <= c && c <= 122),
        CharClass::Alnum => (65 <= c && c <= 90) || (97 <= c && c <= 122) || (48 <= c && c
            <= 57),
    }
}

/// Scans the run of characters of class `k` that starts at `i`.
pub fn scan(b: &[u8], i: usize, k: CharClass) -> (r: usize)
    requires
        i <= b@.len(),
    ensures
        r == run_end(b@, i as int, k),
        i <= r <= b@.len(),
{
    let mut j = i;
    while j < b.len() && in_class_exec(k, b[j])
        invariant
            i <= j <= b@.len(),
            run_end(b@, i as int, k) == run_end(b@, j as int, k),
        decreases b@.len() - j,
    {
        j = j + 1;
    }
    j
}

/// The value of the digits in `b[start..end]`, if it is at most `limit`.
pub fn parse_digits(b: &[u8], start: usize, end: usize, limit: u64) -> (r: Option<u64>)
    requires
        start <= end <= b@.len(),
        forall|k: int| start <= k < end ==> is_digit(#[trigger] b@[k]),
    ensures
        r == (if digits_value(b@.subrange(start as int, end as int)) <= limit {
            Some(digits_value(b@.subrange(start as int, end as int)) as u64)
        } else {
            None
        }),
{
    let ghost d = b@.subrange(start as int, end as int);
    let mut acc: u64 = 0;
    let mut i = start;
    assert(b@.subrange(start as int, start as int) =~= Seq::<u8>::empty());
    while i < end
        invariant
            start <= i <= end <= b@.len(),
            d == b@.subrange(start as int, end as int),
            forall|k: int| start <= k < end ==> is_digit(#[trigger] b@[k]),
            acc == digits_value(b@.subrange(start as int, i as int)),
            acc <= limit,
        decreases end - i,
    {
        let digit = (b[i] - 48) as u64;
        let ghost p = b@.subrange(start as int, i as int + 1);
        assert(p.drop_last() =~= b@.subrange(start as int, i as int));
        assert(digits_value(p) == acc * 10 + digit);
        assert(p =~= d.subrange(0, i - start + 1));
        if digit > limit || acc > (limit - digit) / 10 {
            proof {
                assert(acc * 10 + digit > limit) by (nonlinear_arith)
                    requires digit > limit || acc > (limit - digit) / 10;
                lemma_digits_prefix_monotone(d, i - start + 1);
            }
            return None;
        }
        assert(acc * 10 + digit <= limit) by (nonlinear_arith)
            requires acc <= (limit - digit) / 10, digit <= 9;
        acc = acc * 10 + digit;
        i = i + 1;
    }
    assert(b@.subrange(start as int, i as int) =~= d);
    Some(acc)
}

/// Characters whose UTF-8 encoding is all ASCII are those bytes read as characters.
proof fn lemma_ascii_encoding(cs: Seq<char>)
    requires
        forall|k: int| 0 <= k < encode_utf8(cs).len() ==> #[trigger] encode_utf8(cs)[k] < 128,
    ensures
        cs == ascii_text(encode_utf8(cs)),
    decreases cs.len(),
{
    let e = encode_utf8(cs);
    if cs.len() == 0 {
        assert(ascii_text(e) =~= cs);
    } else {
        let c = cs[0] as u32;
        let rest = encode_utf8(cs.drop_first());
        assert(e == encode_scalar(c) + rest);
        assert(e[0] < 128);
        char_is_scalar(cs[0]);
        char_u32_cast(cs[0], c);
        assert(e[0] == encode_scalar(c)[0]);
        assert(has_width_1_encoding(c)) by {
            if has_width_2_encoding(c) {
                assert(leading_byte_width_2(c) >= 128) by (bit_vector);
            } else if has_width_3_encoding(c) {
                assert(leading_byte_width_3(c) >= 128) by (bit_vector);
            } else if has_width_4_encoding(c) {
                assert(leading_byte_width_4(c) >= 128) by (bit_vector);
            }
        }
        assert(leading_byte_width_1(c) == c) by (bit_vector)
            requires has_width_1_encoding(c);
        assert(e =~= seq![c as u8] + rest);
        assert forall|k: int| 0 <= k < rest.len() implies #[trigger] rest[k] < 128 by {
            assert(rest[k] == e[k + 1]);
        }
        lemma_ascii_encoding(cs.drop_first());
        assert((c as u8) as char == cs[0]);
        assert forall|k: int| 0 <= k < cs.len() implies #[trigger] ascii_text(e)[k] == cs[k] by {
            if k > 0 {
                assert(e[k] == rest[k - 1]);
                assert(ascii_text(rest)[k - 1] == cs.drop_first()[k - 1]);
            }
        }
        assert(ascii_text(e) =~= cs);
    }
}

/// The text of `b[start..end]`, where `b` is the encoding of `src` and the
/// bytes in that range, and the one after it, are ASCII.
fn ascii_slice(src: &str, b: &[u8], start: usize, end: usize) -> (r: String)
    requires
        b@ == src.spec_bytes(),
        start <= end <= b@.len(),
        forall|k: int| start <= k < end ==> #[trigger] b@[k] < 128,
        end < b@.len() ==> b@[end as int] < 128,
    ensures
        r@ == ascii_text(b@.subrange(start as int, end as int)),
{
    proof {
        encode_utf8_valid_utf8(src@);
        if end < b@.len() {
            is_char_boundary_iff_not_is_continuation_byte(b@, end as int);
        } else {
            is_char_boundary_start_end_of_seq(b@);
        }
    }
    let (head, _tail) = src.split_at(end);
    proof {
        encode_utf8_valid_utf8(head@);
        let hb = head.spec_bytes();
        if start < end {
            assert(hb[start as int] == b@[start as int]);
            is_char_boundary_iff_not_is_continuation_byte(hb, start as int);
        } else {
            is_char_boundary_start_end_of_seq(hb);
        }
    }
    let (_front, piece) = head.split_at(start);
    proof {
        let pb = piece.spec_bytes();
        assert(pb =~= b@.subrange(start as int, end as int));
        assert forall|k: int| 0 <= k < pb.len() implies #[trigger] pb[k] < 128 by {
            assert(pb[k] == b@[start + k]);
        }
        lemma_ascii_encoding(piece@);
    }
    piece.to_owned()
}

pub open spec fn is_sigil(c: u8) -> bool {
    c == 36 || c == 35 || c == 64
}

/// `$N`: a register index of at most 255.
pub open spec fn register_at(b: Seq<u8>, i: int) -> Option<(TokenView, int)> {
    if 0 <= i < b.len() && b[i] == 36 {
        let e = run_end(b, i + 1, CharClass::Digit);
        let v = digits_value(b.subrange(i + 1, e));
        if e > i + 1 && at_boundary(b, e) && v <= 255 {
            Some((TokenView::Register(v as u8), e))
        } else {
            None
        }
    } else {
        None
    }
}

/// `#N` or `#-N`: an integer that fits in 32 signed bits.
pub open spec fn integer_at(b: Seq<u8>, i: int) -> Option<(TokenView, int)> {
    if 0 <= i < b.len() && b[i] == 35 {
        let negative = i + 1 < b.len() && b[i + 1] == 45;
        let d = if negative { i + 2 } else { i + 1 };
        let e = run_end(b, d, CharClass::Digit);
        let m = digits_value(b.subrange(d, e)) as int;
        let v = if negative { -m } else { m };
        if e > d && at_boundary(b, e) && fits_i32(v) {
            Some((TokenView::Integer(v as i32), e))
        } else {
            None
        }
    } else {
        None
    }
}

/// `@name`: a reference to a label.
pub open spec fn label_usage_at(b: Seq<u8>, i: int) -> Option<(TokenView, int)> {
    if 0 <= i < b.len() && b[i] == 64 {
        let e = run_end(b, i + 1, CharClass::Alnum);
        if e > i + 1 && at_boundary(b, e) {
            Some((TokenView::LabelUsage(ascii_text(b.subrange(i + 1, e))), e))
        } else {
            None
        }
    } else {
        None
    }
}

pub open spec fn operand_at(b: Seq<u8>, i: int) -> Option<(TokenView, int)> {
    if 0 <= i < b.len() && b[i] == 35 {
        integer_at(b, i)
    } else if 0 <= i < b.len() && b[i] == 64 {
        label_usage_at(b, i)
    } else {
        register_at(b, i)
    }
}

/// `name:`: the declaration of a label.
pub open spec fn label_declaration_at(b: Seq<u8>, i: int) -> Option<(TokenView, int)> {
    let e = run_end(b, i, CharClass::Alnum);
    if 0 <= i && e > i && e < b.len() && b[e] == 58 {
        Some((TokenView::LabelDeclaration(ascii_text(b.subrange(i, e))), e + 1))
    } else {
        None
    }
}

/// A mnemonic; a word that names no operation reads as `IGL`.
pub open spec fn opcode_at(b: Seq<u8>, i: int) -> Option<(TokenView, int)> {
    let e = run_end(b, i, CharClass::Alpha);
    if 0 <= i && e > i && at_boundary(b, e) {
        Some((TokenView::Op(opcode_from_mnemonic(b.subrange(i, e))), e))
    } else {
        None
    }
}

/// The operand after whitespace at `p`: `Some(None)` where none begins there,
/// `None` where one begins but is malformed.
pub open spec fn next_operand_at(b: Seq<u8>, p: int) -> Option<Option<(TokenView, int)>> {
    let j = skip_space(b, p);
    if 0 <= j < b.len() && is_sigil(b[j]) {
        match operand_at(b, j) {
            Some(t) => Some(Some(t)),
            None => None,
        }
    } else {
        Some(None)
    }
}

pub open spec fn instruction_view(
    label: Option<TokenView>,
    op: TokenView,
    o1: Option<TokenView>,
    o2: Option<TokenView>,
    o3: Option<TokenView>,
) -> InstructionView {
    InstructionView {
        opcode: Some(op),
        label,
        directive: None,
        operand1: o1,
        operand2: o2,
        operand3: o3,
    }
}

/// One instruction starting at `i`, with the whitespace that follows it.
pub open spec fn instruction_at(b: Seq<u8>, i: int) -> Option<(InstructionView, int)> {
    let (label, p) = match label_declaration_at(b, i) {
        Some((t, e)) => (Some(t), skip_space(b, e)),
        None => (None, i),
    };
    match opcode_at(b, p) {
        None => None,
        Some((op, e0)) => match next_operand_at(b, e0) {
            None => None,
            Some(None) => Some((instruction_view(label, op, None, None, None), skip_space(b, e0))),
            Some(Some((t1, e1))) => match next_operand_at(b, e1) {
                None => None,
                Some(None) => Some(
                    (instruction_view(label, op, Some(t1), None, None), skip_space(b, e1)),
                ),
                Some(Some((t2, e2))) => match next_operand_at(b, e2) {
                    None => None,
                    Some(None) => Some(
                        (instruction_view(label, op, Some(t1), Some(t2), None), skip_space(b, e2)),
                    ),
                    Some(Some((t3, e3))) => Some(
                        (
                            instruction_view(label, op, Some(t1), Some(t2), Some(t3)),
                            skip_space(b, e3),
                        ),
                    ),
                },
            },
        },
    }
}

/// The instructions from `i` to the end of the source, or the position of the
/// first instruction that does not parse.
pub open spec fn program_from(b: Seq<u8>, i: int) -> Result<Seq<InstructionView>, int>
    decreases b.len() - i,
{
    let j = skip_space(b, i);
    if j < i || j >= b.len() {
        Ok(Seq::empty())
    } else {
        match instruction_at(b, j) {
            None => Err(j),
            Some((ins, e)) => if e <= j || e > b.len() {
                Err(j)
            } else {
                match program_from(b, e) {
                    Ok(rest) => Ok(seq![ins] + rest),
                    Err(p) => Err(p),
                }
            },
        }
    }
}

pub open spec fn token_result(r: Option<(Token, usize)>) -> Option<(TokenView, int)> {
    match r {
        Some((t, e)) => Some((t@, e as int)),
        None => None,
    }
}

fn boundary(b: &[u8], i: usize) -> (r: bool)
    ensures
        r == at_boundary(b@, i as int),
{
    i >= b.len() || in_class_exec(CharClass::Space, b[i])
}

fn register_from(b: &[u8], i: usize) -> (r: Option<(Token, usize)>)
    requires
        i <= b@.len(),
    ensures
        token_result(r) == register_at(b@, i as int),
{
    if i >= b.len() || b[i] != 36 {
        return None;
    }
    let e = scan(b, i + 1, CharClass::Digit);
    proof {
        lemma_run_end_bounds(b@, i + 1, CharClass::Digit);
    }
    if e == i + 1 || !boundary(b, e) {
        return None;
    }
    match parse_digits(b, i + 1, e, 255) {
        Some(v) => Some((Token::Register { reg_num: v as u8 }, e)),
        None => None,
    }
}

fn integer_from(b: &[u8], i: usize) -> (r: Option<(Token, usize)>)
    requires
        i <= b@.len(),
    ensures
        token_result(r) == integer_at(b@, i as int),
{
    if i >= b.len() || b[i] != 35 {
        return None;
    }
    let negative = i + 1 < b.len() && b[i + 1] == 45;
    let d = if negative { i + 2 } else { i + 1 };
    let e = scan(b, d, CharClass::Digit);
    proof {
        lemma_run_end_bounds(b@, d as int, CharClass::Digit);
    }
    if e == d || !boundary(b, e) {
        return None;
    }
    let limit: u64 = if negative { 0x8000_0000 } else { 0x7fff_ffff };
    match parse_digits(b, d, e, limit) {
        Some(m) => {
            let value: i32 = if negative { (0 - (m as i64)) as i32 } else { m as i32 };
            Some((Token::IntegerOperand { value }, e))
        },
        None => None,
    }
}

fn label_usage_from(src: &str, b: &[u8], i: usize) -> (r: Option<(Token, usize)>)
    requires
        b@ == src.spec_bytes(),
        i <= b@.len(),
    ensures
        token_result(r) == label_usage_at(b@, i as int),
{
    if i >= b.len() || b[i] != 64 {
        return None;
    }
    let e = scan(b, i + 1, CharClass::Alnum);
    proof {
        lemma_run_end_bounds(b@, i + 1, CharClass::Alnum);
    }
    if e == i + 1 || !boundary(b, e) {
        return None;
    }
    let name = ascii_slice(src, b, i + 1, e);
    Some((Token::LabelUsage { name }, e))
}

fn operand_from(src: &str, b: &[u8], i: usize) -> (r: Option<(Token, usize)>)
    requires
        b@ == src.spec_bytes(),
        i <= b@.len(),
    ensures
        token_result(r) == operand_at(b@, i as int),
{
    if i < b.len() && b[i] == 35 {
        integer_from(b, i)
    } else if i < b.len() && b[i] == 64 {
        label_usage_from(src, b, i)
    } else {
        register_from(b, i)
    }
}

fn label_declaration_from(src: &str, b: &[u8], i: usize) -> (r: Option<(Token, usize)>)
    requires
        b@ == src.spec_bytes(),
        i <= b@.len(),
    ensures
        token_result(r) == label_declaration_at(b@, i as int),
{
    let e = scan(b, i, CharClass::Alnum);
    proof {
        lemma_run_end_bounds(b@, i as int, CharClass::Alnum);
    }
    if e == i || e >= b.len() || b[e] != 58 {
        return None;
    }
    let name = ascii_slice(src, b, i, e);
    Some((Token::LabelDeclaration { name }, e + 1))
}

fn opcode_from(b: &[u8], i: usize) -> (r: Option<(Token, usize)>)
    requires
        i <= b@.len(),
    ensures
        token_result(r) == opcode_at(b@, i as int),
{
    let e = scan(b, i, CharClass::Alpha);
    if e == i || !boundary(b, e) {
        return None;
    }
    let code = Opcode::from_mnemonic(b, i, e);
    Some((Token::Op { code }, e))
}

fn next_operand_from(src: &str, b: &[u8], p: usize) -> (r: Option<Option<(Token, usize)>>)
    requires
        b@ == src.spec_bytes(),
        p <= b@.len(),
    ensures
        match r {
            None => next_operand_at(b@, p as int).is_none(),
            Some(o) => next_operand_at(b@, p as int) == Some(token_result(o)),
        },
        match r {
            Some(Some((_, e))) => p < e <= b@.len(),
            _ => true,
        },
{
    let j = scan(b, p, CharClass::Space);
    if j < b.len() && (b[j] == 36 || b[j] == 35 || b[j] == 64) {
        proof {
            lemma_run_end_bounds(b@, j as int + 1, CharClass::Digit);
            if j + 2 <= b.len() {
                lemma_run_end_bounds(b@, j as int + 2, CharClass::Digit);
            }
            lemma_run_end_bounds(b@, j as int + 1, CharClass::Alnum);
        }
        match operand_from(src, b, j) {
            Some(t) => Some(Some(t)),
            None => None,
        }
    } else {
        Some(None)
    }
}

pub open spec fn instruction_result(r: Option<(AssemblerInstruction, usize)>) -> Option<(InstructionView, int)> {
    match r {
        Some((ins, e)) => Some((ins@, e as int)),
        None => None,
    }
}

fn instruction_from(src: &str, b: &[u8], i: usize) -> (r: Option<(AssemblerInstruction, usize)>)
    requires
        b@ == src.spec_bytes(),
        i <= b@.len(),
    ensures
        instruction_result(r) == instruction_at(b@, i as int),
        match r {
            Some((_, e)) => i < e <= b@.len(),
            None => true,
        },
{
    let (label, p) = match label_declaration_from(src, b, i) {
        Some((t, e)) => {
            proof {
                lemma_run_end_bounds(b@, i as int, CharClass::Alnum);
            }
            (Some(t), scan(b, e, CharClass::Space))
        },
        None => (None, i),
    };
    proof {
        lemma_run_end_bounds(b@, p as int, CharClass::Alpha);
    }
    let (op, e0) = match opcode_from(b, p) {
        Some(x) => x,
        None => {
            return None;
        },
    };
    let mut ins = AssemblerInstruction {
        opcode: Some(op),
        label,
        directive: None,
        operand1: None,
        operand2: None,
        operand3: None,
    };
    let mut end = e0;
    match next_operand_from(src, b, e0) {
        None => {
            return None;
        },
        Some(None) => {},
        Some(Some((t1, e1))) => {
            ins.operand1 = Some(t1);
            end = e1;
            match next_operand_from(src, b, e1) {
                None => {
                    return None;
                },
                Some(None) => {},
                Some(Some((t2, e2))) => {
                    ins.operand2 = Some(t2);
                    end = e2;
                    match next_operand_from(src, b, e2) {
                        None => {
                            return None;
                        },
                        Some(None) => {},
                        Some(Some((t3, e3))) => {
                            ins.operand3 = Some(t3);
                            end = e3;
                        },
                    }
                },
            }
        },
    }
    let e = scan(b, end, CharClass::Space);
    Some((ins, e))
}

/// A parse failure: the byte position of the instruction that does not parse.
#[derive(Copy, Clone, Debug, PartialEq, Eq, Structural)]
pub struct ParseError {
    pub position: usize,
}

/// A parsed program: its instructions in source order.
#[derive(Debug, PartialEq)]
pub struct Program {
    pub instructions: Vec<AssemblerInstruction>,
}

impl View for Program {
    type V = Seq<InstructionView>;

    open spec fn view(&self) -> Seq<InstructionView> {
        self.instructions@.map_values(|i: AssemblerInstruction| i@)
    }
}

/// The program that `src` spells, or the position of its first malformed instruction.
pub open spec fn parse_spec(src: &str) -> Result<Seq<InstructionView>, int> {
    program_from(src.spec_bytes(), 0)
}

/// Parses a whole program; nothing of a malformed source is returned.
pub fn program(src: &str) -> (r: Result<Program, ParseError>)
    ensures
        match r {
            Ok(p) => parse_spec(src) == Ok::<Seq<InstructionView>, int>(p@),
            Err(e) => parse_spec(src) == Err::<Seq<InstructionView>, int>(e.position as int),
        },
{
    let b = src.as_bytes();
    let mut instructions: Vec<AssemblerInstruction> = Vec::new();
    let mut pos: usize = 0;
    loop
        invariant
            b@ == src.spec_bytes(),
            pos <= b@.len(),
            program_from(b@, 0) == (match program_from(b@, pos as int) {
                Ok(rest) => Ok(instructions@.map_values(|i: AssemblerInstruction| i@) + rest),
                Err(p) => Err(p),
            }),
        decreases b@.len() - pos,
    {
        let j = scan(b, pos, CharClass::Space);
        if j >= b.len() {
            assert(instructions@.map_values(|i: AssemblerInstruction| i@) + Seq::empty()
                =~= instructions@.map_values(|i: AssemblerInstruction| i@));
            return Ok(Program { instructions });
        }
        match instruction_from(src, b, j) {
            None => {
                return Err(ParseError { position: j });
            },
            Some((ins, e)) => {
                let ghost before = instructions@.map_values(|i: AssemblerInstruction| i@);
                let ghost iv = ins@;
                instructions.push(ins);
                proof {
                    let after = instructions@.map_values(|i: AssemblerInstruction| i@);
                    assert(after =~= before.push(iv));
                    match program_from(b@, e as int) {
                        Ok(rest) => {
                            assert(before + (seq![iv] + rest) =~= after + rest);
                        },
                        Err(_) => {},
                    }
                }
                pos = e;
            },
        }
    }
}

/// A register operand at the start of `input`, and where it ends.
pub fn register(input: &str) -> (r: Option<(Token, usize)>)
    ensures
        token_result(r) == register_at(input.spec_bytes(), 0),
{
    register_from(input.as_bytes(), 0)
}

/// An integer operand at the start of `input`, and where it ends.
pub fn integer_operand(input: &str) -> (r: Option<(Token, usize)>)
    ensures
        token_result(r) == integer_at(input.spec_bytes(), 0),
{
    integer_from(input.as_bytes(), 0)
}

/// A mnemonic at the start of `input`, and where it ends.
pub fn opcode(input: &str) -> (r: Option<(Token, usize)>)
    ensures
        token_result(r) == opcode_at(input.spec_bytes(), 0),
{
    opcode_from(input.as_bytes(), 0)
}

/// One instruction at the start of `input`, and where it and the whitespace
/// after it end.
pub fn instruction_combined(input: &str) -> (r: Option<(AssemblerInstruction, usize)>)
    ensures
        instruction_result(r) == instruction_at(input.spec_bytes(), 0),
{
    instruction_from(input, input.as_bytes(), 0)
}

} // verus!
