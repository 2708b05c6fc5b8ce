//! The assembler: a line-oriented compiler from source text to an object.
//!
//! Each line is truncated at `;`, trimmed, and is then blank, a label
//! declaration (ending in `:`), or `mnemonic operand[, operand]*`. The
//! mnemonic is matched case-insensitively against the real opcodes first
//! and a fixed pseudo-instruction table second. Operands are `%name`
//! registers, numeric literals (decimal, or `0x`/`0o`/`0b` prefixed), or
//! label references, which record a relocation use and emit a zero
//! placeholder. Assembly halts at the first error, reported with its
//! 1-based line number.

use vstd::prelude::*;
use vstd::string::StringSliceAdditionalSpecFns;
use crate::emu::wrap16;
use crate::emu::wrap16_of;
use crate::isa::Instruction;
use crate::isa::Opcode;
use crate::isa::Register;
use crate::obj::Obj;
use crate::obj::has_key;
use crate::obj::spec_u32_le_bytes;
use crate::obj::table_view;

verus! {

/// An error of assembling one source line.
#[derive(Clone, Copy, PartialEq, Eq, Structural, Debug)]
pub enum AsmError {
    /// The mnemonic names neither a real opcode nor a pseudo-instruction.
    UnknownMnemonic,
    /// A `%name` operand names no register.
    UnknownRegister,
    /// A literal starts with `0` and an unknown base letter.
    UnknownBase,
    /// A numeric literal has an invalid digit, no digits, or does not fit
    /// in 16 bits.
    MalformedLiteral,
    /// An operand is empty.
    EmptyOperand,
    /// A mnemonic got the wrong number of operands.
    WrongOperandCount,
    /// The operand kinds do not fit the mnemonic.
    InvalidOperands,
    /// A label was declared twice.
    DuplicateLabel,
}

impl AsmError {
    /// A short description of the error.
    pub fn msg(&self) -> &'static str {
        match self {
            AsmError::UnknownMnemonic => "unknown mnemonic",
            AsmError::UnknownRegister => "unknown register",
            AsmError::UnknownBase => "unknown base",
            AsmError::MalformedLiteral => "could not parse literal",
            AsmError::EmptyOperand => "empty operand",
            AsmError::WrongOperandCount => "wrong number of operands",
            AsmError::InvalidOperands => "invalid operands",
            AsmError::DuplicateLabel => "label already declared",
        }
    }
}

/// A parsed operand: a 16-bit literal, a register, or a label reference.
#[derive(PartialEq, Eq, Debug)]
pub enum Operand {
    Literal(u16),
    Register(Register),
    Label(Vec<u8>),
}

/// The mathematical value of an operand, with the label name as a byte
/// sequence.
pub enum OperandV {
    Literal(u16),
    Register(Register),
    Label(Seq<u8>),
}

impl Operand {
    /// The mathematical value of this operand.
    pub open spec fn view_op(self) -> OperandV {
        match self {
            Operand::Literal(x) => OperandV::Literal(x),
            Operand::Register(r) => OperandV::Register(r),
            Operand::Label(l) => OperandV::Label(l@),
        }
    }
}

/// The ASCII-lowered form of one byte.
pub open spec fn lower(b: u8) -> u8 {
    if 65 <= b <= 90 {
        (b + 32) as u8
    } else {
        b
    }
}

/// The ASCII-lowered form of a byte string.
pub open spec fn lower_seq(s: Seq<u8>) -> Seq<u8> {
    s.map_values(|b: u8| lower(b))
}

/// Lowercases a byte string, ASCII-wise.
fn to_lower(s: &[u8]) -> (r: Vec<u8>)
    ensures
        r@ == lower_seq(s@),
{
    let mut r: Vec<u8> = Vec::new();
    proof {
        assert(r@ =~= lower_seq(s@).take(0));
    }
    let mut i: usize = 0;
    while i < s.len()
        invariant
            0 <= i <= s@.len(),
            r@ == lower_seq(s@).take(i as int),
        decreases s@.len() - i,
    {
        let b = s[i];
        if 65 <= b && b <= 90 {
            r.push(b + 32);
        } else {
            r.push(b);
        }
        proof {
            assert(r@ =~= lower_seq(s@).take(i as int + 1));
        }
        i = i + 1;
    }
    proof {
        assert(lower_seq(s@).take(i as int) =~= lower_seq(s@));
    }
    r
}

/// The value of one ASCII digit under `radix`, if it is a digit of it.
pub open spec fn spec_digit(b: u8, radix: u16) -> Option<u16> {
    let v: u16 = if 48 <= b <= 57 {
        (b - 48) as u16
    } else if 97 <= b <= 102 {
        (b - 87) as u16
    } else if 65 <= b <= 70 {
        (b - 55) as u16
    } else {
        99
    };
    if v < radix {
        Some(v)
    } else {
        None
    }
}

/// The numeric value of a digit string under `radix`, unbounded, or `None`
/// when some byte is no digit of the radix.
pub open spec fn spec_digits_num(s: Seq<u8>, radix: u16) -> Option<int>
    decreases s.len(),
{
    if s.len() == 0 {
        Some(0)
    } else {
        match (spec_digits_num(s.drop_last(), radix), spec_digit(s.last(), radix)) {
            (Some(v), Some(d)) => Some(v * radix + d),
            _ => None,
        }
    }
}

/// The 16-bit value of a numeral: its digits' value, provided there is at
/// least one digit, every byte is a digit of the radix, and the value fits.
pub open spec fn spec_parse_radix(s: Seq<u8>, radix: u16) -> Option<u16> {
    if s.len() == 0 {
        None
    } else {
        match spec_digits_num(s, radix) {
            Some(v) => if v < 0x10000 {
                Some(v as u16)
            } else {
                None
            },
            None => None,
        }
    }
}

/// A digit string's value is never negative.
proof fn lemma_digits_num_nonneg(s: Seq<u8>, radix: u16)
    requires
        2 <= radix,
        spec_digits_num(s, radix) is Some,
    ensures
        spec_digits_num(s, radix).unwrap() >= 0,
    decreases s.len(),
{
    if s.len() > 0 {
        lemma_digits_num_nonneg(s.drop_last(), radix);
        let v = spec_digits_num(s.drop_last(), radix).unwrap();
        assert(v * radix >= 0) by (nonlinear_arith)
            requires
                v >= 0,
                radix >= 2,
        ;
    }
}

/// A digit string's value never shrinks as digits are appended.
proof fn lemma_digits_num_prefix_le(s: Seq<u8>, radix: u16, i: int)
    requires
        2 <= radix,
        0 <= i <= s.len(),
        spec_digits_num(s, radix) is Some,
    ensures
        spec_digits_num(s.take(i), radix) is Some,
        spec_digits_num(s.take(i), radix).unwrap() <= spec_digits_num(s, radix).unwrap(),
    decreases s.len() - i,
{
    if i == s.len() {
        assert(s.take(i) =~= s);
    } else {
        lemma_digits_num_prefix_le(s, radix, i + 1);
        let t = s.take(i + 1);
        assert(t.drop_last() =~= s.take(i));
        assert(t.last() == s[i]);
        let v = spec_digits_num(s.take(i), radix).unwrap();
        let d = spec_digit(s[i], radix).unwrap();
        lemma_digits_num_nonneg(s.take(i), radix);
        assert(spec_digits_num(t, radix).unwrap() == v * radix + d);
        assert(v * radix >= v * 2 >= v) by (nonlinear_arith)
            requires
                radix >= 2,
                v >= 0,
        ;
    }
}

/// Parses the digits of a numeral under `radix`.
fn parse_radix(s: &[u8], radix: u16) -> (r: Result<u16, AsmError>)
    requires
        2 <= radix <= 16,
    ensures
        ({
            match spec_parse_radix(s@, radix) {
                Some(v) => r == Ok::<u16, AsmError>(v),
                None => r == Err::<u16, AsmError>(AsmError::MalformedLiteral),
            }
        }),
{
    if s.len() == 0 {
        return Err(AsmError::MalformedLiteral);
    }
    let ghost whole = s@;
    let mut acc: u32 = 0;
    let mut i: usize = 0;
    while i < s.len()
        invariant
            2 <= radix <= 16,
            0 <= i <= s@.len(),
            s@.len() > 0,
            whole == s@,
            acc <= 0xffff,
            spec_digits_num(s@.take(i as int), radix) == Some(acc as int),
        decreases s@.len() - i,
    {
        let b = s[i];
        let v: u16 = if 48 <= b && b <= 57 {
            b as u16 - 48
        } else if 97 <= b && b <= 102 {
            b as u16 - 87
        } else if 65 <= b && b <= 70 {
            b as u16 - 55
        } else {
            99
        };
        if v >= radix {
            proof {
                assert(spec_digit(s@[i as int], radix) is None);
                assert(s@.take(i as int + 1).drop_last() =~= s@.take(i as int));
                assert(s@.take(i as int + 1).last() == s@[i as int]);
                lemma_whole_none(s@, radix, i as int + 1);
            }
            return Err(AsmError::MalformedLiteral);
        }
        proof {
            vstd::arithmetic::mul::lemma_mul_upper_bound(acc as int, 0xffff, radix as int, 16);
        }
        let next = acc * radix as u32 + v as u32;
        proof {
            assert(s@.take(i as int + 1).drop_last() =~= s@.take(i as int));
            assert(s@.take(i as int + 1).last() == s@[i as int]);
        }
        if next > 0xffff {
            proof {
                lemma_overflow_none(s@, radix, i as int + 1, next as int);
            }
            return Err(AsmError::MalformedLiteral);
        }
        acc = next;
        i = i + 1;
    }
    proof {
        assert(s@.take(i as int) =~= s@);
    }
    Ok(acc as u16)
}

/// Whether `s` is the two bytes `c0 c1`.
fn is2(s: &[u8], c0: u8, c1: u8) -> (r: bool)
    ensures
        r == (s@ == seq![c0, c1]),
{
    let r = s.len() == 2 && s[0] == c0 && s[1] == c1;
    proof {
        if r {
            assert(s@ =~= seq![c0, c1]);
        }
    }
    r
}

/// Whether `s` is the three bytes `c0 c1 c2`.
fn is3(s: &[u8], c0: u8, c1: u8, c2: u8) -> (r: bool)
    ensures
        r == (s@ == seq![c0, c1, c2]),
{
    let r = s.len() == 3 && s[0] == c0 && s[1] == c1 && s[2] == c2;
    proof {
        if r {
            assert(s@ =~= seq![c0, c1, c2]);
        }
    }
    r
}

/// Whether `s` is the five bytes `c0 c1 c2 c3 c4`.
fn is5(s: &[u8], c0: u8, c1: u8, c2: u8, c3: u8, c4: u8) -> (r: bool)
    ensures
        r == (s@ == seq![c0, c1, c2, c3, c4]),
{
    let r = s.len() == 5 && s[0] == c0 && s[1] == c1 && s[2] == c2 && s[3] == c3 && s[4] == c4;
    proof {
        if r {
            assert(s@ =~= seq![c0, c1, c2, c3, c4]);
        }
    }
    r
}

/// The register a lowercased `%` operand names, if any.
pub open spec fn spec_register_from_name(s: Seq<u8>) -> Option<Register> {
    if s == seq![114u8, 48u8] {
        Some(Register::R0)
    } else if s == seq![114u8, 49u8] {
        Some(Register::R1)
    } else if s == seq![114u8, 50u8] {
        Some(Register::R2)
    } else if s == seq![114u8, 51u8] {
        Some(Register::R3)
    } else if s == seq![114u8, 52u8] {
        Some(Register::R4)
    } else if s == seq![114u8, 53u8] {
        Some(Register::R5)
    } else if s == seq![114u8, 54u8] {
        Some(Register::R6)
    } else if s == seq![114u8, 55u8] {
        Some(Register::R7)
    } else if s == seq![114u8, 56u8] {
        Some(Register::R8)
    } else if s == seq![112u8, 99u8] {
        Some(Register::PC)
    } else if s == seq![115u8, 112u8] {
        Some(Register::SP)
    } else if s == seq![114u8, 97u8] {
        Some(Register::RA)
    } else if s == seq![115u8, 116u8, 115u8] {
        Some(Register::STS)
    } else {
        None
    }
}

/// Looks a lowercased register name up.
fn register_from_name(s: &[u8]) -> (r: Option<Register>)
    ensures
        r == spec_register_from_name(s@),
{
    if is2(s, 114u8, 48u8) {
        Some(Register::R0)
    } else if is2(s, 114u8, 49u8) {
        Some(Register::R1)
    } else if is2(s, 114u8, 50u8) {
        Some(Register::R2)
    } else if is2(s, 114u8, 51u8) {
        Some(Register::R3)
    } else if is2(s, 114u8, 52u8) {
        Some(Register::R4)
    } else if is2(s, 114u8, 53u8) {
        Some(Register::R5)
    } else if is2(s, 114u8, 54u8) {
        Some(Register::R6)
    } else if is2(s, 114u8, 55u8) {
        Some(Register::R7)
    } else if is2(s, 114u8, 56u8) {
        Some(Register::R8)
    } else if is2(s, 112u8, 99u8) {
        Some(Register::PC)
    } else if is2(s, 115u8, 112u8) {
        Some(Register::SP)
    } else if is2(s, 114u8, 97u8) {
        Some(Register::RA)
    } else if is3(s, 115u8, 116u8, 115u8) {
        Some(Register::STS)
    } else {
        None
    }
}

/// The real opcode a lowercased mnemonic names, if any.
pub open spec fn spec_opcode_from_name(s: Seq<u8>) -> Option<Opcode> {
    if s == seq![97u8, 100u8, 100u8] {
        Some(Opcode::Add)
    } else if s == seq![115u8, 117u8, 98u8] {
        Some(Opcode::Sub)
    } else if s == seq![109u8, 117u8, 108u8] {
        Some(Opcode::Mul)
    } else if s == seq![100u8, 105u8, 118u8] {
        Some(Opcode::Div)
    } else if s == seq![114u8, 101u8, 109u8] {
        Some(Opcode::Rem)
    } else if s == seq![97u8, 110u8, 100u8] {
        Some(Opcode::And)
    } else if s == seq![111u8, 114u8] {
        Some(Opcode::Or)
    } else if s == seq![120u8, 111u8, 114u8] {
        Some(Opcode::Xor)
    } else if s == seq![108u8, 98u8] {
        Some(Opcode::Lb)
    } else if s == seq![108u8, 98u8, 117u8] {
        Some(Opcode::Lbu)
    } else if s == seq![108u8, 119u8] {
        Some(Opcode::Lw)
    } else if s == seq![115u8, 98u8] {
        Some(Opcode::Sb)
    } else if s == seq![115u8, 119u8] {
        Some(Opcode::Sw)
    } else if s == seq![106u8, 101u8, 113u8] {
        Some(Opcode::Jeq)
    } else if s == seq![106u8, 110u8, 101u8] {
        Some(Opcode::Jne)
    } else if s == seq![106u8, 103u8, 116u8] {
        Some(Opcode::Jgt)
    } else if s == seq![106u8, 108u8, 116u8] {
        Some(Opcode::Jlt)
    } else {
        None
    }
}

/// Looks a lowercased mnemonic up among the real opcodes.
fn opcode_from_name(s: &[u8]) -> (r: Option<Opcode>)
    ensures
        r == spec_opcode_from_name(s@),
{
    if is3(s, 97u8, 100u8, 100u8) {
        Some(Opcode::Add)
    } else if is3(s, 115u8, 117u8, 98u8) {
        Some(Opcode::Sub)
    } else if is3(s, 109u8, 117u8, 108u8) {
        Some(Opcode::Mul)
    } else if is3(s, 100u8, 105u8, 118u8) {
        Some(Opcode::Div)
    } else if is3(s, 114u8, 101u8, 109u8) {
        Some(Opcode::Rem)
    } else if is3(s, 97u8, 110u8, 100u8) {
        Some(Opcode::And)
    } else if is2(s, 111u8, 114u8) {
        Some(Opcode::Or)
    } else if is3(s, 120u8, 111u8, 114u8) {
        Some(Opcode::Xor)
    } else if is2(s, 108u8, 98u8) {
        Some(Opcode::Lb)
    } else if is3(s, 108u8, 98u8, 117u8) {
        Some(Opcode::Lbu)
    } else if is2(s, 108u8, 119u8) {
        Some(Opcode::Lw)
    } else if is2(s, 115u8, 98u8) {
        Some(Opcode::Sb)
    } else if is2(s, 115u8, 119u8) {
        Some(Opcode::Sw)
    } else if is3(s, 106u8, 101u8, 113u8) {
        Some(Opcode::Jeq)
    } else if is3(s, 106u8, 110u8, 101u8) {
        Some(Opcode::Jne)
    } else if is3(s, 106u8, 103u8, 116u8) {
        Some(Opcode::Jgt)
    } else if is3(s, 106u8, 108u8, 116u8) {
        Some(Opcode::Jlt)
    } else {
        None
    }
}

/// The result of parsing a numeral as an operand.
pub open spec fn spec_lit_operand(s: Seq<u8>, radix: u16) -> Result<OperandV, AsmError> {
    match spec_parse_radix(s, radix) {
        Some(v) => Ok(OperandV::Literal(v)),
        None => Err(AsmError::MalformedLiteral),
    }
}

/// The operand a token denotes: `%name` a register, a token starting with a
/// digit a literal (decimal, or hex/octal/binary under a `0x`/`0o`/`0b`
/// prefix, case-insensitive), anything else a label reference. An empty
/// token, an unknown register, an unknown base letter, and a malformed
/// numeral are errors.
pub open spec fn spec_parse_operand(s: Seq<u8>) -> Result<OperandV, AsmError> {
    if s.len() == 0 {
        Err(AsmError::EmptyOperand)
    } else if s[0] == 48 {
        if s.len() == 1 {
            Ok(OperandV::Literal(0))
        } else if s[1] == 120u8 || s[1] == 88u8 {
            spec_lit_operand(s.skip(2), 16)
        } else if s[1] == 111u8 || s[1] == 79u8 {
            spec_lit_operand(s.skip(2), 8)
        } else if s[1] == 98u8 || s[1] == 66u8 {
            spec_lit_operand(s.skip(2), 2)
        } else if 48 <= s[1] <= 57 {
            spec_lit_operand(s, 10)
        } else {
            Err(AsmError::UnknownBase)
        }
    } else if 48 <= s[0] <= 57 {
        spec_lit_operand(s, 10)
    } else if s[0] == 37u8 {
        match spec_register_from_name(lower_seq(s.skip(1))) {
            Some(r) => Ok(OperandV::Register(r)),
            None => Err(AsmError::UnknownRegister),
        }
    } else {
        Ok(OperandV::Label(s))
    }
}

impl Operand {
    /// Parses one trimmed operand token.
    pub fn parse(s: &[u8]) -> (r: Result<Operand, AsmError>)
        ensures
            ({
                match r {
                    Ok(op) => spec_parse_operand(s@) == Ok::<_, AsmError>(op.view_op()),
                    Err(e) => spec_parse_operand(s@) == Err::<OperandV, _>(e),
                }
            }),
    {
        if s.len() == 0 {
            return Err(AsmError::EmptyOperand);
        }
        let b0 = s[0];
        if b0 == 48 {
            if s.len() == 1 {
                return Ok(Operand::Literal(0));
            }
            let b1 = s[1];
            let radix: u16 = if b1 == 120u8 || b1 == 88u8 {
                16
            } else if b1 == 111u8 || b1 == 79u8 {
                8
            } else if b1 == 98u8 || b1 == 66u8 {
                2
            } else if 48 <= b1 && b1 <= 57 {
                10
            } else {
                return Err(AsmError::UnknownBase);
            };
            let digits = if radix == 10 {
                &s[0..s.len()]
            } else {
                &s[2..s.len()]
            };
            proof {
                if radix != 10 {
                    assert(digits@ =~= s@.skip(2));
                } else {
                    assert(digits@ =~= s@);
                }
            }
            match parse_radix(digits, radix) {
                Ok(v) => Ok(Operand::Literal(v)),
                Err(e) => Err(e),
            }
        } else if 48 <= b0 && b0 <= 57 {
            match parse_radix(s, 10) {
                Ok(v) => Ok(Operand::Literal(v)),
                Err(e) => Err(e),
            }
        } else if b0 == 37u8 {
            let rest = &s[1..s.len()];
            proof {
                assert(rest@ =~= s@.skip(1));
            }
            let low = to_lower(rest);
            match register_from_name(low.as_slice()) {
                Some(r) => Ok(Operand::Register(r)),
                None => Err(AsmError::UnknownRegister),
            }
        } else {
            let mut name: Vec<u8> = Vec::new();
            let mut i: usize = 0;
            proof {
                assert(name@ =~= s@.take(0));
            }
            while i < s.len()
                invariant
                    0 <= i <= s@.len(),
                    name@ == s@.take(i as int),
                decreases s@.len() - i,
            {
                name.push(s[i]);
                proof {
                    assert(name@ =~= s@.take(i as int + 1));
                }
                i = i + 1;
            }
            proof {
                assert(name@ =~= s@);
            }
            Ok(Operand::Label(name))
        }
    }
}

/// Whether a byte is ASCII whitespace, as line trimming sees it.
pub open spec fn is_ws(b: u8) -> bool {
    b == 32 || (9 <= b <= 13)
}

/// A byte string with its leading whitespace removed.
pub open spec fn trim_front(s: Seq<u8>) -> Seq<u8>
    decreases s.len(),
{
    if s.len() > 0 && is_ws(s[0]) {
        trim_front(s.skip(1))
    } else {
        s
    }
}

/// A byte string with its trailing whitespace removed.
pub open spec fn trim_back(s: Seq<u8>) -> Seq<u8>
    decreases s.len(),
{
    if s.len() > 0 && is_ws(s.last()) {
        trim_back(s.drop_last())
    } else {
        s
    }
}

/// A byte string with whitespace removed from both ends.
pub open spec fn spec_trim(s: Seq<u8>) -> Seq<u8> {
    trim_back(trim_front(s))
}

/// Trims ASCII whitespace from both ends.
#[verifier::loop_isolation(false)]
fn trim(s: &[u8]) -> (r: &[u8])
    ensures
        r@ == spec_trim(s@),
{
    proof {
        assert(s@.skip(0) =~= s@);
    }
    let mut a: usize = 0;
    while a < s.len() && (s[a] == 32 || (9 <= s[a] && s[a] <= 13))
        invariant
            0 <= a <= s@.len(),
            trim_front(s@) == trim_front(s@.skip(a as int)),
        decreases s@.len() - a,
    {
        proof {
            assert(s@.skip(a as int)[0] == s@[a as int]);
            assert(s@.skip(a as int).skip(1) =~= s@.skip(a as int + 1));
        }
        a = a + 1;
    }
    proof {
        if a < s@.len() {
            assert(s@.skip(a as int)[0] == s@[a as int]);
        }
        assert(trim_front(s@) == s@.skip(a as int));
    }
    let ghost f = s@.skip(a as int);
    proof {
        assert(f.take(s@.len() - a) =~= f);
    }
    let mut b: usize = s.len();
    while b > a && (s[b - 1] == 32 || (9 <= s[b - 1] && s[b - 1] <= 13))
        invariant
            a <= b <= s@.len(),
            trim_back(f) == trim_back(f.take(b - a)),
        decreases b,
    {
        proof {
            assert(f.take(b - a).last() == s@[b as int - 1]);
            assert(f.take(b - a).drop_last() =~= f.take(b - a - 1));
        }
        b = b - 1;
    }
    proof {
        if b > a {
            assert(f.take(b - a).last() == s@[b as int - 1]);
        }
        assert(trim_back(f) == f.take(b - a));
    }
    let r = &s[a..b];
    proof {
        assert(r@ =~= f.take(b - a));
    }
    r
}

/// The position of the first occurrence of byte `c`, if any.
pub open spec fn spec_find_byte(s: Seq<u8>, c: u8) -> Option<int>
    decreases s.len(),
{
    if s.len() == 0 {
        None
    } else if s[0] == c {
        Some(0)
    } else {
        match spec_find_byte(s.skip(1), c) {
            None => None,
            Some(i) => Some(i + 1),
        }
    }
}

/// The first occurrence is at the first index holding the byte.
proof fn lemma_find_byte_at(s: Seq<u8>, c: u8, i: int)
    requires
        0 <= i < s.len(),
        s[i] == c,
        forall|k: int| 0 <= k < i ==> s[k] != c,
    ensures
        spec_find_byte(s, c) == Some(i),
    decreases i,
{
    if i == 0 {
    } else {
        assert(forall|k: int| 0 <= k < i - 1 ==> s.skip(1)[k] == s[k + 1]);
        lemma_find_byte_at(s.skip(1), c, i - 1);
    }
}

/// Bytes without an occurrence have none to find.
proof fn lemma_find_byte_none(s: Seq<u8>, c: u8)
    requires
        forall|k: int| 0 <= k < s.len() ==> s[k] != c,
    ensures
        spec_find_byte(s, c) is None,
    decreases s.len(),
{
    if s.len() > 0 {
        assert(forall|k: int| 0 <= k < s.len() - 1 ==> s.skip(1)[k] == s[k + 1]);
        lemma_find_byte_none(s.skip(1), c);
    }
}

/// Finds the first occurrence of byte `c` in `s`.
fn find_byte(s: &[u8], c: u8) -> (r: Option<usize>)
    ensures
        ({
            match r {
                Some(p) => spec_find_byte(s@, c) == Some(p as int) && p < s@.len(),
                None => spec_find_byte(s@, c) is None,
            }
        }),
{
    let mut i: usize = 0;
    while i < s.len() && s[i] != c
        invariant
            0 <= i <= s@.len(),
            forall|k: int| 0 <= k < i ==> s@[k] != c,
        decreases s@.len() - i,
    {
        i = i + 1;
    }
    if i == s.len() {
        proof {
            lemma_find_byte_none(s@, c);
        }
        None
    } else {
        proof {
            lemma_find_byte_at(s@, c, i as int);
        }
        Some(i)
    }
}

/// A digit string with an invalid digit among its first `i` bytes has no
/// value.
proof fn lemma_whole_none(s: Seq<u8>, radix: u16, i: int)
    requires
        0 < i <= s.len(),
        spec_digits_num(s.take(i), radix) is None,
    ensures
        spec_digits_num(s, radix) is None,
    decreases s.len() - i,
{
    if i == s.len() {
        assert(s.take(i) =~= s);
    } else {
        let t = s.take(i + 1);
        assert(t.drop_last() =~= s.take(i));
        lemma_whole_none(s, radix, i + 1);
    }
}

/// A digit string whose prefix already exceeds 16 bits has no 16-bit value.
proof fn lemma_overflow_none(s: Seq<u8>, radix: u16, i: int, v: int)
    requires
        2 <= radix,
        0 < i <= s.len(),
        spec_digits_num(s.take(i), radix) == Some(v),
        v > 0xffff,
    ensures
        spec_parse_radix(s, radix) is None,
{
    if spec_digits_num(s, radix) is Some {
        lemma_digits_num_prefix_le(s, radix, i);
    }
}

/// The mathematical state of an object under assembly.
pub struct AsmState {
    pub labels: Seq<(Seq<u8>, u16)>,
    pub label_uses: Seq<(Seq<u8>, u16)>,
    pub data: Seq<u8>,
}

/// The mathematical state of an object.
pub open spec fn obj_view(o: Obj) -> AsmState {
    AsmState {
        labels: table_view(o.labels@),
        label_uses: table_view(o.label_uses@),
        data: o.data@,
    }
}

/// The views of a list of operands.
pub open spec fn ops_view(v: Seq<Operand>) -> Seq<OperandV> {
    v.map_values(|o: Operand| o.view_op())
}

/// The state after one instruction's 4-byte encoding is appended.
pub open spec fn spec_emit(st: AsmState, i: Instruction) -> AsmState
    recommends
        i.wf(),
{
    AsmState { data: st.data + spec_u32_le_bytes(i.spec_encode()), ..st }
}

/// The state after a relocation use is recorded `off` bytes past the
/// current end of the data.
pub open spec fn spec_use(st: AsmState, l: Seq<u8>, off: u16) -> AsmState {
    AsmState { label_uses: st.label_uses.push((l, wrap16(st.data.len() + off))), ..st }
}

/// The 16-bit negation of a literal.
pub open spec fn spec_negate(x: u16) -> u16 {
    wrap16(-(x as int))
}

/// Negates a literal with 16-bit wraparound.
pub fn negate(x: u16) -> (r: u16)
    ensures
        r == spec_negate(x),
{
    let r = wrap16_of(0x10000 - x as u32);
    proof {
        vstd::arithmetic::div_mod::lemma_mod_multiples_vanish(1, -(x as int), 0x10000);
    }
    r
}

/// Assembly of a 3-operand form: destination, first source, and a second
/// operand that may be a register, a literal, or a label (which records a
/// relocation use at the 2-byte immediate slot and emits a zero
/// placeholder). An opcode without the needed form rejects the operands.
pub open spec fn spec_asm3(
    op: Opcode,
    a: OperandV,
    b: OperandV,
    c: OperandV,
    st: AsmState,
) -> Result<AsmState, AsmError> {
    match (a, b, c) {
        (OperandV::Register(rd), OperandV::Register(r1), OperandV::Register(r2)) => if op.spec_valid_r() {
            Ok(spec_emit(st, Instruction::R(op, rd, r1, r2)))
        } else {
            Err(AsmError::InvalidOperands)
        },
        (OperandV::Register(rd), OperandV::Register(r1), OperandV::Literal(imm)) => if op.spec_valid_i() {
            Ok(spec_emit(st, Instruction::I(op, rd, r1, imm)))
        } else {
            Err(AsmError::InvalidOperands)
        },
        (OperandV::Register(rd), OperandV::Register(r1), OperandV::Label(l)) => if op.spec_valid_i() {
            Ok(spec_emit(spec_use(st, l, 2), Instruction::I(op, rd, r1, 0)))
        } else {
            Err(AsmError::InvalidOperands)
        },
        _ => Err(AsmError::InvalidOperands),
    }
}

/// Assembly of a 2-operand form: destination and one operand; a register
/// second operand becomes the first source, a literal or label the
/// immediate.
pub open spec fn spec_asm2(
    op: Opcode,
    a: OperandV,
    b: OperandV,
    st: AsmState,
) -> Result<AsmState, AsmError> {
    match (a, b) {
        (OperandV::Register(rd), OperandV::Register(r1)) => if op.spec_valid_i() {
            Ok(spec_emit(st, Instruction::I(op, rd, r1, 0)))
        } else {
            Err(AsmError::InvalidOperands)
        },
        (OperandV::Register(rd), OperandV::Literal(imm)) => if op.spec_valid_i() {
            Ok(spec_emit(st, Instruction::I(op, rd, Register::R0, imm)))
        } else {
            Err(AsmError::InvalidOperands)
        },
        (OperandV::Register(rd), OperandV::Label(l)) => if op.spec_valid_i() {
            Ok(spec_emit(spec_use(st, l, 2), Instruction::I(op, rd, Register::R0, 0)))
        } else {
            Err(AsmError::InvalidOperands)
        },
        _ => Err(AsmError::InvalidOperands),
    }
}

/// Assembly of a 1-operand branch form: the operand is the first source
/// register, or the immediate, with every other field `R0`.
pub open spec fn spec_asm1(op: Opcode, a: OperandV, st: AsmState) -> AsmState
    recommends
        op.spec_valid_i(),
{
    match a {
        OperandV::Register(r1) => spec_emit(st, Instruction::I(op, Register::R0, r1, 0)),
        OperandV::Literal(imm) => spec_emit(st, Instruction::I(op, Register::R0, Register::R0, imm)),
        OperandV::Label(l) => spec_emit(
            spec_use(st, l, 2),
            Instruction::I(op, Register::R0, Register::R0, 0),
        ),
    }
}

/// What one mnemonic with its parsed operands does to the object: real
/// opcodes assemble by their arity group, and each pseudo-instruction
/// expands to exactly one real instruction or data directive.
pub open spec fn spec_assemble_instr(
    mn: Seq<u8>,
    ops: Seq<OperandV>,
    st: AsmState,
) -> Result<AsmState, AsmError> {
    match spec_opcode_from_name(mn) {
        Some(op) => {
            if op.spec_valid_r() {
                if ops.len() != 3 {
                    Err(AsmError::WrongOperandCount)
                } else if op == Opcode::Sub && ops[2] is Literal {
                    spec_asm3(
                        Opcode::Add,
                        ops[0],
                        ops[1],
                        OperandV::Literal(spec_negate(ops[2]->Literal_0)),
                        st,
                    )
                } else {
                    spec_asm3(op, ops[0], ops[1], ops[2], st)
                }
            } else if op == Opcode::Lb || op == Opcode::Lbu || op == Opcode::Lw || op == Opcode::Sb
                || op == Opcode::Sw {
                if ops.len() == 3 {
                    spec_asm3(op, ops[0], ops[1], ops[2], st)
                } else if ops.len() == 2 {
                    spec_asm2(op, ops[0], ops[1], st)
                } else {
                    Err(AsmError::WrongOperandCount)
                }
            } else {
                if ops.len() == 2 {
                    spec_asm2(op, ops[0], ops[1], st)
                } else if ops.len() == 1 {
                    Ok(spec_asm1(op, ops[0], st))
                } else {
                    Err(AsmError::WrongOperandCount)
                }
            }
        },
        None => {
            if mn == seq![110u8, 111u8, 112u8] {  // nop
                Ok(
                    spec_emit(
                        st,
                        Instruction::R(Opcode::Add, Register::R0, Register::R0, Register::R0),
                    ),
                )
            } else if mn == seq![104u8, 108u8, 116u8] {  // hlt
                Ok(
                    spec_emit(
                        st,
                        Instruction::I(Opcode::And, Register::STS, Register::STS, 0xfeff),
                    ),
                )
            } else if mn == seq![109u8, 111u8, 118u8] {  // mov
                if ops.len() != 2 {
                    Err(AsmError::WrongOperandCount)
                } else {
                    spec_asm2(Opcode::Add, ops[0], ops[1], st)
                }
            } else if mn == seq![110u8, 101u8, 103u8] {  // neg
                if ops.len() != 2 {
                    Err(AsmError::WrongOperandCount)
                } else {
                    spec_asm3(Opcode::Sub, ops[0], OperandV::Register(Register::R0), ops[1], st)
                }
            } else if mn == seq![110u8, 111u8, 116u8] {  // not
                if ops.len() != 2 {
                    Err(AsmError::WrongOperandCount)
                } else {
                    spec_asm3(Opcode::Xor, ops[0], ops[1], OperandV::Literal(0xffff), st)
                }
            } else if mn == seq![99u8, 109u8, 112u8] {  // cmp
                if ops.len() != 2 {
                    Err(AsmError::WrongOperandCount)
                } else if ops[1] is Literal {
                    spec_asm3(
                        Opcode::Add,
                        OperandV::Register(Register::R0),
                        ops[0],
                        OperandV::Literal(spec_negate(ops[1]->Literal_0)),
                        st,
                    )
                } else {
                    spec_asm3(Opcode::Sub, OperandV::Register(Register::R0), ops[0], ops[1], st)
                }
            } else if mn == seq![106u8, 109u8, 112u8] {  // jmp
                if ops.len() == 2 {
                    spec_asm3(Opcode::Add, OperandV::Register(Register::PC), ops[0], ops[1], st)
                } else if ops.len() == 1 {
                    spec_asm2(Opcode::Add, OperandV::Register(Register::PC), ops[0], st)
                } else {
                    Err(AsmError::WrongOperandCount)
                }
            } else if mn == seq![105u8, 110u8, 99u8] {  // inc
                if ops.len() != 1 {
                    Err(AsmError::WrongOperandCount)
                } else {
                    spec_asm3(Opcode::Add, ops[0], ops[0], OperandV::Literal(1), st)
                }
            } else if mn == seq![46u8, 100u8, 98u8] {  // .db
                if ops.len() != 1 {
                    Err(AsmError::WrongOperandCount)
                } else {
                    match ops[0] {
                        OperandV::Literal(x) => Ok(
                            AsmState { data: st.data.push((x % 0x100) as u8), ..st },
                        ),
                        _ => Err(AsmError::InvalidOperands),
                    }
                }
            } else if mn == seq![46u8, 100u8, 119u8] {  // .dw
                if ops.len() != 1 {
                    Err(AsmError::WrongOperandCount)
                } else {
                    match ops[0] {
                        OperandV::Literal(x) => Ok(
                            AsmState {
                                data: st.data + seq![(x % 0x100) as u8, (x / 0x100) as u8],
                                ..st
                            },
                        ),
                        OperandV::Label(l) => Ok(
                            AsmState {
                                label_uses: spec_use(st, l, 0).label_uses,
                                data: st.data + seq![0u8, 0u8],
                                ..st
                            },
                        ),
                        _ => Err(AsmError::InvalidOperands),
                    }
                }
            } else if mn == seq![46u8, 115u8, 107u8, 105u8, 112u8] {  // .skip
                if ops.len() != 1 {
                    Err(AsmError::WrongOperandCount)
                } else {
                    match ops[0] {
                        OperandV::Literal(x) => Ok(
                            AsmState { data: st.data + Seq::new(x as nat, |i: int| 0u8), ..st },
                        ),
                        _ => Err(AsmError::InvalidOperands),
                    }
                }
            } else {
                Err(AsmError::UnknownMnemonic)
            }
        },
    }
}

/// The assembler: accumulates one object as lines are assembled.
pub struct Assembler {
    pub obj: Obj,
}

impl Assembler {
    /// A fresh assembler with an empty object.
    pub fn new() -> (r: Assembler)
        ensures
            obj_view(r.obj) == (AsmState {
                labels: Seq::<(Seq<u8>, u16)>::empty(),
                label_uses: Seq::<(Seq<u8>, u16)>::empty(),
                data: Seq::<u8>::empty(),
            }),
    {
        let r = Assembler { obj: Obj::new() };
        proof {
            assert(table_view(r.obj.labels@) =~= Seq::<(Seq<u8>, u16)>::empty());
            assert(table_view(r.obj.label_uses@) =~= Seq::<(Seq<u8>, u16)>::empty());
        }
        r
    }

    /// Assembles a 3-operand form.
    fn assemble_3(&mut self, opcode: Opcode, a: &Operand, b: &Operand, c: &Operand) -> (r: Result<
        (),
        AsmError,
    >)
        ensures
            ({
                match spec_asm3(opcode, a.view_op(), b.view_op(), c.view_op(), obj_view(old(self).obj)) {
                    Ok(st) => r == Ok::<(), AsmError>(()) && obj_view(final(self).obj) == st,
                    Err(e) => r == Err::<(), AsmError>(e) && *final(self) == *old(self),
                }
            }),
    {
        match (a, b, c) {
            (Operand::Register(rd), Operand::Register(r1), Operand::Register(r2)) => {
                if opcode.valid_r() {
                    self.obj.emit_instr(Instruction::R(opcode, *rd, *r1, *r2));
                    Ok(())
                } else {
                    Err(AsmError::InvalidOperands)
                }
            },
            (Operand::Register(rd), Operand::Register(r1), Operand::Literal(imm)) => {
                if opcode.valid_i() {
                    self.obj.emit_instr(Instruction::I(opcode, *rd, *r1, *imm));
                    Ok(())
                } else {
                    Err(AsmError::InvalidOperands)
                }
            },
            (Operand::Register(rd), Operand::Register(r1), Operand::Label(l)) => {
                if opcode.valid_i() {
                    let ghost prev = self.obj.label_uses@;
                    self.obj.insert_label_usage(crate::obj::copy_bytes(l), 2);
                    proof {
                        crate::obj::lemma_table_view_push(prev, self.obj.label_uses@.last());
                    }
                    self.obj.emit_instr(Instruction::I(opcode, *rd, *r1, 0));
                    Ok(())
                } else {
                    Err(AsmError::InvalidOperands)
                }
            },
            _ => Err(AsmError::InvalidOperands),
        }
    }

    /// Assembles a 2-operand form.
    fn assemble_2(&mut self, opcode: Opcode, a: &Operand, b: &Operand) -> (r: Result<(), AsmError>)
        ensures
            ({
                match spec_asm2(opcode, a.view_op(), b.view_op(), obj_view(old(self).obj)) {
                    Ok(st) => r == Ok::<(), AsmError>(()) && obj_view(final(self).obj) == st,
                    Err(e) => r == Err::<(), AsmError>(e) && *final(self) == *old(self),
                }
            }),
    {
        match (a, b) {
            (Operand::Register(rd), Operand::Register(r1)) => {
                if opcode.valid_i() {
                    self.obj.emit_instr(Instruction::I(opcode, *rd, *r1, 0));
                    Ok(())
                } else {
                    Err(AsmError::InvalidOperands)
                }
            },
            (Operand::Register(rd), Operand::Literal(imm)) => {
                if opcode.valid_i() {
                    self.obj.emit_instr(Instruction::I(opcode, *rd, Register::R0, *imm));
                    Ok(())
                } else {
                    Err(AsmError::InvalidOperands)
                }
            },
            (Operand::Register(rd), Operand::Label(l)) => {
                if opcode.valid_i() {
                    let ghost prev = self.obj.label_uses@;
                    self.obj.insert_label_usage(crate::obj::copy_bytes(l), 2);
                    proof {
                        crate::obj::lemma_table_view_push(prev, self.obj.label_uses@.last());
                    }
                    self.obj.emit_instr(Instruction::I(opcode, *rd, Register::R0, 0));
                    Ok(())
                } else {
                    Err(AsmError::InvalidOperands)
                }
            },
            _ => Err(AsmError::InvalidOperands),
        }
    }

    /// Assembles a 1-operand branch form.
    fn assemble_1(&mut self, opcode: Opcode, a: &Operand)
        requires
            opcode.spec_valid_i(),
        ensures
            obj_view(final(self).obj) == spec_asm1(opcode, a.view_op(), obj_view(old(self).obj)),
    {
        match a {
            Operand::Register(r1) => {
                self.obj.emit_instr(Instruction::I(opcode, Register::R0, *r1, 0));
            },
            Operand::Literal(imm) => {
                self.obj.emit_instr(Instruction::I(opcode, Register::R0, Register::R0, *imm));
            },
            Operand::Label(l) => {
                let ghost prev = self.obj.label_uses@;
                self.obj.insert_label_usage(crate::obj::copy_bytes(l), 2);
                proof {
                    crate::obj::lemma_table_view_push(prev, self.obj.label_uses@.last());
                }
                self.obj.emit_instr(Instruction::I(opcode, Register::R0, Register::R0, 0));
            },
        }
    }
}

/// An owned copy of a byte slice.
fn copy_slice(s: &[u8]) -> (r: Vec<u8>)
    ensures
        r@ == s@,
{
    let mut r: Vec<u8> = Vec::new();
    proof {
        assert(r@ =~= s@.take(0));
    }
    let mut i: usize = 0;
    while i < s.len()
        invariant
            0 <= i <= s@.len(),
            r@ == s@.take(i as int),
        decreases s@.len() - i,
    {
        r.push(s[i]);
        proof {
            assert(r@ =~= s@.take(i as int + 1));
        }
        i = i + 1;
    }
    proof {
        assert(s@.take(i as int) =~= s@);
    }
    r
}

/// Appending one operand to a list appends its view.
proof fn lemma_ops_view_push(t: Seq<Operand>, e: Operand)
    ensures
        ops_view(t.push(e)) == ops_view(t).push(e.view_op()),
{
    let lhs = ops_view(t.push(e));
    let rhs = ops_view(t).push(e.view_op());
    assert forall|q: int| 0 <= q < lhs.len() implies lhs[q] == rhs[q] by {
        if q < t.len() {
            assert(t.push(e)[q] == t[q]);
        } else {
            assert(t.push(e)[q] == e);
        }
    }
    assert(lhs =~= rhs);
}

/// A found byte stands inside the bytes searched.
proof fn lemma_find_byte_bounds(s: Seq<u8>, c: u8)
    ensures
        spec_find_byte(s, c) matches Some(i) ==> 0 <= i < s.len(),
    decreases s.len(),
{
    if s.len() > 0 && s[0] != c {
        lemma_find_byte_bounds(s.skip(1), c);
    }
}

/// The comma-separated pieces of an operand list, a trailing empty piece
/// dropped.
pub open spec fn spec_split_commas(s: Seq<u8>) -> Seq<Seq<u8>>
    decreases s.len(),
    via spec_split_commas_decreases
{
    if s.len() == 0 {
        Seq::empty()
    } else {
        match spec_find_byte(s, 44) {
            None => seq![s],
            Some(p) => seq![s.take(p)] + spec_split_commas(s.skip(p + 1)),
        }
    }
}

#[via_fn]
proof fn spec_split_commas_decreases(s: Seq<u8>) {
    lemma_find_byte_bounds(s, 44);
}

/// The operands a comma-split list of tokens denotes: each piece trimmed
/// and parsed, the first error winning.
pub open spec fn spec_parse_operands(items: Seq<Seq<u8>>) -> Result<Seq<OperandV>, AsmError>
    decreases items.len(),
{
    if items.len() == 0 {
        Ok(Seq::empty())
    } else {
        match spec_parse_operand(spec_trim(items[0])) {
            Err(e) => Err(e),
            Ok(op) => match spec_parse_operands(items.skip(1)) {
                Err(e) => Err(e),
                Ok(rest) => Ok(seq![op] + rest),
            },
        }
    }
}

/// What one source line does to the object: nothing when blank after
/// comment stripping and trimming; a line ending in `:` declares a label at
/// the current data length; otherwise the mnemonic before the first space
/// is assembled with the comma-separated operands after it.
pub open spec fn spec_assemble_line(line: Seq<u8>, st: AsmState) -> Result<AsmState, AsmError> {
    let code = match spec_find_byte(line, 59) {
        None => line,
        Some(p) => line.take(p),
    };
    let t = spec_trim(code);
    if t.len() == 0 {
        Ok(st)
    } else if t.last() == 58 {
        let name = t.drop_last();
        if has_key(st.labels, name) {
            Err(AsmError::DuplicateLabel)
        } else {
            Ok(AsmState { labels: st.labels.push((name, wrap16(st.data.len() as int))), ..st })
        }
    } else {
        let mn = match spec_find_byte(t, 32) {
            None => t,
            Some(p) => t.take(p),
        };
        let rest = match spec_find_byte(t, 32) {
            None => Seq::<u8>::empty(),
            Some(p) => t.skip(p + 1),
        };
        match spec_parse_operands(spec_split_commas(rest)) {
            Err(e) => Err(e),
            Ok(ops) => spec_assemble_instr(lower_seq(mn), ops, st),
        }
    }
}

/// The source's lines: split at every newline, a trailing carriage return
/// stripped from each line, with no final empty line after a trailing
/// newline.
pub open spec fn strip_cr(s: Seq<u8>) -> Seq<u8> {
    if s.len() > 0 && s.last() == 13 {
        s.drop_last()
    } else {
        s
    }
}

/// The lines of a source text.
pub open spec fn spec_split_lines(b: Seq<u8>) -> Seq<Seq<u8>>
    decreases b.len(),
    via spec_split_lines_decreases
{
    if b.len() == 0 {
        Seq::empty()
    } else {
        match spec_find_byte(b, 10) {
            None => seq![strip_cr(b)],
            Some(p) => seq![strip_cr(b.take(p))] + spec_split_lines(b.skip(p + 1)),
        }
    }
}

#[via_fn]
proof fn spec_split_lines_decreases(b: Seq<u8>) {
    lemma_find_byte_bounds(b, 10);
}

/// The views of a list of lines.
pub open spec fn lines_view(v: Seq<Vec<u8>>) -> Seq<Seq<u8>> {
    v.map_values(|l: Vec<u8>| l@)
}

/// Appending one line to a list appends its view.
proof fn lemma_lines_view_push(t: Seq<Vec<u8>>, e: Vec<u8>)
    ensures
        lines_view(t.push(e)) == lines_view(t).push(e@),
{
    let lhs = lines_view(t.push(e));
    let rhs = lines_view(t).push(e@);
    assert forall|q: int| 0 <= q < lhs.len() implies lhs[q] == rhs[q] by {
        if q < t.len() {
            assert(t.push(e)[q] == t[q]);
        } else {
            assert(t.push(e)[q] == e);
        }
    }
    assert(lhs =~= rhs);
}

/// Copies one line, stripping a trailing carriage return.
fn strip_cr_vec(s: &[u8]) -> (r: Vec<u8>)
    ensures
        r@ == strip_cr(s@),
{
    if s.len() > 0 && s[s.len() - 1] == 13 {
        let r = copy_slice(&s[0..s.len() - 1]);
        proof {
            assert(r@ =~= s@.drop_last());
        }
        r
    } else {
        copy_slice(s)
    }
}

/// Splits a source text into its lines.
#[verifier::loop_isolation(false)]
fn split_lines(b: &[u8]) -> (r: Vec<Vec<u8>>)
    ensures
        lines_view(r@) == spec_split_lines(b@),
{
    let mut out: Vec<Vec<u8>> = Vec::new();
    proof {
        assert(lines_view(out@) =~= Seq::<Seq<u8>>::empty());
        assert(Seq::<Seq<u8>>::empty() + spec_split_lines(b@.skip(0)) =~= spec_split_lines(
            b@.skip(0),
        ));
        assert(b@.skip(0) =~= b@);
    }
    let mut pos: usize = 0;
    while pos < b.len()
        invariant
            0 <= pos <= b@.len(),
            spec_split_lines(b@) == lines_view(out@) + spec_split_lines(b@.skip(pos as int)),
        decreases b@.len() - pos,
    {
        let ghost rem = b@.skip(pos as int);
        let ghost outv = lines_view(out@);
        let sub = &b[pos..b.len()];
        proof {
            assert(sub@ =~= rem);
        }
        match find_byte(sub, 10) {
            Some(p) => {
                let line = strip_cr_vec(&b[pos..pos + p]);
                proof {
                    assert(b@.subrange(pos as int, pos + p) =~= rem.take(p as int));
                }
                out.push(line);
                proof {
                    lemma_lines_view_push(out@.drop_last(), out@.last());
                    assert(out@.drop_last() =~= out@.take(out@.len() - 1));
                    assert(rem.skip(p + 1) =~= b@.skip(pos + p + 1));
                    assert(outv.push(strip_cr(rem.take(p as int))) + spec_split_lines(
                        rem.skip(p + 1),
                    ) =~= outv + (seq![strip_cr(rem.take(p as int))] + spec_split_lines(
                        rem.skip(p + 1),
                    )));
                }
                pos = pos + p + 1;
            },
            None => {
                let line = strip_cr_vec(sub);
                out.push(line);
                proof {
                    lemma_lines_view_push(out@.drop_last(), out@.last());
                    assert(b@.skip(b@.len() as int) =~= Seq::<u8>::empty());
                    assert(outv.push(strip_cr(rem)) + spec_split_lines(Seq::<u8>::empty()) =~= outv
                        + seq![strip_cr(rem)]);
                }
                pos = b.len();
            },
        }
    }
    proof {
        assert(b@.skip(pos as int).len() == 0);
        assert(lines_view(out@) + spec_split_lines(b@.skip(pos as int)) =~= lines_view(out@));
    }
    out
}

/// Assembly of a whole source, line by line from a given state: the final
/// state, or the first error with its 1-based line number and the state the
/// failing line found.
pub open spec fn spec_assemble_all(lines: Seq<Seq<u8>>, st: AsmState) -> Result<
    AsmState,
    (int, AsmError, AsmState),
>
    decreases lines.len(),
{
    if lines.len() == 0 {
        Ok(st)
    } else {
        match spec_assemble_line(lines[0], st) {
            Err(e) => Err((1, e, st)),
            Ok(st2) => match spec_assemble_all(lines.skip(1), st2) {
                Ok(stf) => Ok(stf),
                Err((n, e, stp)) => Err((n + 1, e, stp)),
            },
        }
    }
}

impl Assembler {
    /// Assembles one mnemonic with its parsed operands, exactly as
    /// [`spec_assemble_instr`] describes. `mn` is the lowercased mnemonic.
    fn assemble_instr(&mut self, mn: &[u8], operands: &Vec<Operand>) -> (r: Result<(), AsmError>)
        ensures
            ({
                match spec_assemble_instr(mn@, ops_view(operands@), obj_view(old(self).obj)) {
                    Ok(st) => r == Ok::<(), AsmError>(()) && obj_view(final(self).obj) == st,
                    Err(e) => r == Err::<(), AsmError>(e) && *final(self) == *old(self),
                }
            }),
    {
        proof {
            assert(forall|q: int| 0 <= q < operands@.len() ==> ops_view(operands@)[q]
                == operands@[q].view_op());
        }
        match opcode_from_name(mn) {
            Some(op) => {
                if op.valid_r() {
                    if operands.len() != 3 {
                        return Err(AsmError::WrongOperandCount);
                    }
                    let sub_lit = match (op, &operands[2]) {
                        (Opcode::Sub, Operand::Literal(_)) => true,
                        _ => false,
                    };
                    if sub_lit {
                        let l = match &operands[2] {
                            Operand::Literal(l) => *l,
                            _ => 0,
                        };
                        let neg = Operand::Literal(negate(l));
                        self.assemble_3(Opcode::Add, &operands[0], &operands[1], &neg)
                    } else {
                        self.assemble_3(op, &operands[0], &operands[1], &operands[2])
                    }
                } else {
                    let mem = match op {
                        Opcode::Lb | Opcode::Lbu | Opcode::Lw | Opcode::Sb | Opcode::Sw => true,
                        _ => false,
                    };
                    if mem {
                        if operands.len() == 3 {
                            self.assemble_3(op, &operands[0], &operands[1], &operands[2])
                        } else if operands.len() == 2 {
                            self.assemble_2(op, &operands[0], &operands[1])
                        } else {
                            Err(AsmError::WrongOperandCount)
                        }
                    } else {
                        if operands.len() == 2 {
                            self.assemble_2(op, &operands[0], &operands[1])
                        } else if operands.len() == 1 {
                            self.assemble_1(op, &operands[0]);
                            Ok(())
                        } else {
                            Err(AsmError::WrongOperandCount)
                        }
                    }
                }
            },
            None => {
                if is3(mn, 110, 111, 112) {  // nop
                    self.obj.emit_instr(
                        Instruction::R(Opcode::Add, Register::R0, Register::R0, Register::R0),
                    );
                    Ok(())
                } else if is3(mn, 104, 108, 116) {  // hlt
                    self.obj.emit_instr(
                        Instruction::I(Opcode::And, Register::STS, Register::STS, 0xfeff),
                    );
                    Ok(())
                } else if is3(mn, 109, 111, 118) {  // mov
                    if operands.len() != 2 {
                        return Err(AsmError::WrongOperandCount);
                    }
                    self.assemble_2(Opcode::Add, &operands[0], &operands[1])
                } else if is3(mn, 110, 101, 103) {  // neg
                    if operands.len() != 2 {
                        return Err(AsmError::WrongOperandCount);
                    }
                    let r0 = Operand::Register(Register::R0);
                    self.assemble_3(Opcode::Sub, &operands[0], &r0, &operands[1])
                } else if is3(mn, 110, 111, 116) {  // not
                    if operands.len() != 2 {
                        return Err(AsmError::WrongOperandCount);
                    }
                    let ffff = Operand::Literal(0xffff);
                    self.assemble_3(Opcode::Xor, &operands[0], &operands[1], &ffff)
                } else if is3(mn, 99, 109, 112) {  // cmp
                    if operands.len() != 2 {
                        return Err(AsmError::WrongOperandCount);
                    }
                    let r0 = Operand::Register(Register::R0);
                    let lit = match &operands[1] {
                        Operand::Literal(l) => Some(*l),
                        _ => None,
                    };
                    match lit {
                        Some(l) => {
                            let neg = Operand::Literal(negate(l));
                            self.assemble_3(Opcode::Add, &r0, &operands[0], &neg)
                        },
                        None => self.assemble_3(Opcode::Sub, &r0, &operands[0], &operands[1]),
                    }
                } else if is3(mn, 106, 109, 112) {  // jmp
                    let pc = Operand::Register(Register::PC);
                    if operands.len() == 2 {
                        self.assemble_3(Opcode::Add, &pc, &operands[0], &operands[1])
                    } else if operands.len() == 1 {
                        self.assemble_2(Opcode::Add, &pc, &operands[0])
                    } else {
                        Err(AsmError::WrongOperandCount)
                    }
                } else if is3(mn, 105, 110, 99) {  // inc
                    if operands.len() != 1 {
                        return Err(AsmError::WrongOperandCount);
                    }
                    let one = Operand::Literal(1);
                    self.assemble_3(Opcode::Add, &operands[0], &operands[0], &one)
                } else if is3(mn, 46, 100, 98) {  // .db
                    if operands.len() != 1 {
                        return Err(AsmError::WrongOperandCount);
                    }
                    match &operands[0] {
                        Operand::Literal(x) => {
                            self.obj.data.push((*x % 0x100) as u8);
                            Ok(())
                        },
                        _ => Err(AsmError::InvalidOperands),
                    }
                } else if is3(mn, 46, 100, 119) {  // .dw
                    if operands.len() != 1 {
                        return Err(AsmError::WrongOperandCount);
                    }
                    match &operands[0] {
                        Operand::Literal(x) => {
                            let ghost d0 = self.obj.data@;
                            self.obj.data.push((*x % 0x100) as u8);
                            self.obj.data.push((*x / 0x100) as u8);
                            proof {
                                assert(self.obj.data@ =~= d0 + seq![
                                    (x % 0x100) as u8,
                                    (x / 0x100) as u8,
                                ]);
                            }
                            Ok(())
                        },
                        Operand::Label(l) => {
                            let ghost prev = self.obj.label_uses@;
                            let ghost d0 = self.obj.data@;
                            self.obj.insert_label_usage(crate::obj::copy_bytes(l), 0);
                            proof {
                                crate::obj::lemma_table_view_push(prev, self.obj.label_uses@.last());
                            }
                            self.obj.data.push(0);
                            self.obj.data.push(0);
                            proof {
                                assert(self.obj.data@ =~= d0 + seq![0u8, 0u8]);
                            }
                            Ok(())
                        },
                        _ => Err(AsmError::InvalidOperands),
                    }
                } else if is5(mn, 46, 115, 107, 105, 112) {  // .skip
                    if operands.len() != 1 {
                        return Err(AsmError::WrongOperandCount);
                    }
                    match &operands[0] {
                        Operand::Literal(x) => {
                            let n = *x;
                            let ghost d0 = self.obj.data@;
                            let mut k: u16 = 0;
                            while k < n
                                invariant
                                    0 <= k <= n,
                                    self.obj.data@ == d0 + Seq::new(k as nat, |i: int| 0u8),
                                    self.obj.labels@ == old(self).obj.labels@,
                                    self.obj.label_uses@ == old(self).obj.label_uses@,
                                decreases n - k,
                            {
                                self.obj.data.push(0);
                                proof {
                                    assert(self.obj.data@ =~= d0 + Seq::new(
                                        k as nat + 1,
                                        |i: int| 0u8,
                                    ));
                                }
                                k = k + 1;
                            }
                            Ok(())
                        },
                        _ => Err(AsmError::InvalidOperands),
                    }
                } else {
                    Err(AsmError::UnknownMnemonic)
                }
            },
        }
    }

    /// Assembles one source line, exactly as [`spec_assemble_line`]
    /// describes. A failing line leaves the object untouched.
    #[verifier::loop_isolation(false)]
    #[verifier::rlimit(50)]
    fn assemble_line(&mut self, line: &[u8]) -> (r: Result<(), AsmError>)
        ensures
            ({
                match spec_assemble_line(line@, obj_view(old(self).obj)) {
                    Ok(st) => r == Ok::<(), AsmError>(()) && obj_view(final(self).obj) == st,
                    Err(e) => r == Err::<(), AsmError>(e) && *final(self) == *old(self),
                }
            }),
    {
        let code: &[u8] = match find_byte(line, 59) {
            Some(p) => &line[0..p],
            None => line,
        };
        proof {
            if spec_find_byte(line@, 59) is Some {
                assert(code@ =~= line@.take(spec_find_byte(line@, 59).unwrap()));
            }
        }
        let t = trim(code);
        if t.len() == 0 {
            return Ok(());
        }
        if t[t.len() - 1] == 58 {
            let name = &t[0..t.len() - 1];
            proof {
                assert(name@ =~= t@.drop_last());
                crate::obj::lemma_lookup_has_key(table_view(self.obj.labels@), name@);
            }
            let ghost prevl = self.obj.labels@;
            match self.obj.insert_label(copy_slice(name)) {
                Ok(()) => {
                    proof {
                        crate::obj::lemma_table_view_push(prevl, self.obj.labels@.last());
                    }
                    Ok(())
                },
                Err(_) => Err(AsmError::DuplicateLabel),
            }
        } else {
            let found = find_byte(t, 32);
            let mn_raw: &[u8] = match found {
                Some(p) => &t[0..p],
                None => t,
            };
            let rest: &[u8] = match found {
                Some(p) => &t[p + 1..t.len()],
                None => &t[0..0],
            };
            proof {
                if spec_find_byte(t@, 32) is Some {
                    let p = spec_find_byte(t@, 32).unwrap();
                    assert(mn_raw@ =~= t@.take(p));
                    assert(rest@ =~= t@.skip(p + 1));
                } else {
                    assert(rest@ =~= Seq::<u8>::empty());
                }
            }
            let mnv = to_lower(mn_raw);
            let ghost whole = spec_parse_operands(spec_split_commas(rest@));
            let mut ops: Vec<Operand> = Vec::new();
            proof {
                assert(rest@.skip(0) =~= rest@);
                assert(ops_view(ops@) =~= Seq::<OperandV>::empty());
                if spec_parse_operands(spec_split_commas(rest@)) is Ok {
                    assert(Seq::<OperandV>::empty() + spec_parse_operands(
                        spec_split_commas(rest@),
                    ).unwrap() =~= spec_parse_operands(spec_split_commas(rest@)).unwrap());
                }
            }
            let mut pos: usize = 0;
            while pos < rest.len()
                invariant
                    0 <= pos <= rest@.len(),
                    whole == (match spec_parse_operands(spec_split_commas(rest@.skip(pos as int))) {
                        Err(e) => Err::<Seq<OperandV>, AsmError>(e),
                        Ok(tail) => Ok(ops_view(ops@) + tail),
                    }),
                    self.obj == old(self).obj,
                decreases rest@.len() - pos,
            {
                let ghost rem = rest@.skip(pos as int);
                let ghost opsv = ops_view(ops@);
                let sub = &rest[pos..rest.len()];
                proof {
                    assert(sub@ =~= rem);
                }
                let seg: &[u8];
                let next: usize;
                match find_byte(sub, 44) {
                    Some(p) => {
                        seg = &rest[pos..pos + p];
                        next = pos + p + 1;
                        proof {
                            assert(seg@ =~= rem.take(p as int));
                            assert(rem.skip(p + 1) =~= rest@.skip(next as int));
                        }
                    },
                    None => {
                        seg = sub;
                        next = rest.len();
                        proof {
                            assert(rest@.skip(next as int) =~= Seq::<u8>::empty());
                            assert(spec_split_commas(rem) =~= seq![rem]);
                        }
                    },
                }
                proof {
                    let items = spec_split_commas(rem);
                    if spec_find_byte(rem, 44) is Some {
                        let p = spec_find_byte(rem, 44).unwrap();
                        lemma_find_byte_bounds(rem, 44);
                        assert(items == seq![rem.take(p)] + spec_split_commas(rem.skip(p + 1)));
                        assert(items[0] == rem.take(p));
                        assert(items.skip(1) =~= spec_split_commas(rest@.skip(next as int)));
                    } else {
                        assert(items == seq![rem]);
                        assert(items[0] == rem);
                        assert(items.skip(1) =~= Seq::<Seq<u8>>::empty());
                        assert(spec_parse_operands(Seq::<Seq<u8>>::empty()) == Ok::<
                            Seq<OperandV>,
                            AsmError,
                        >(Seq::<OperandV>::empty()));
                    }
                    assert(seg@ == items[0]);
                }
                let t2 = trim(seg);
                match Operand::parse(t2) {
                    Ok(op) => {
                        let ghost prevops = ops@;
                        ops.push(op);
                        proof {
                            lemma_ops_view_push(prevops, ops@.last());
                            if spec_parse_operands(
                                spec_split_commas(rest@.skip(next as int)),
                            ) is Ok {
                                let tail2 = spec_parse_operands(
                                    spec_split_commas(rest@.skip(next as int)),
                                ).unwrap();
                                assert(opsv + (seq![op.view_op()] + tail2) =~= ops_view(ops@)
                                    + tail2);
                            }
                        }
                    },
                    Err(e) => {
                        return Err(e);
                    },
                }
                pos = next;
            }
            proof {
                assert(rest@.skip(pos as int).len() == 0);
                assert(spec_split_commas(rest@.skip(pos as int)) =~= Seq::<Seq<u8>>::empty());
                if whole is Ok {
                    assert(ops_view(ops@) + Seq::<OperandV>::empty() =~= ops_view(ops@));
                }
            }
            self.assemble_instr(mnv.as_slice(), &ops)
        }
    }

    /// Assembles a whole source text, line by line, into this assembler's
    /// object. The first failing line stops assembly and is reported with
    /// its 1-based line number; the object keeps what the earlier lines
    /// assembled.
    #[verifier::loop_isolation(false)]
    pub fn assemble(&mut self, src: &str) -> (r: Result<(), (usize, AsmError)>)
        ensures
            ({
                let lines = spec_split_lines(src.spec_bytes());
                match spec_assemble_all(lines, obj_view(old(self).obj)) {
                    Ok(st) => r == Ok::<(), (usize, AsmError)>(()) && obj_view(final(self).obj)
                        == st,
                    Err((n, e, st)) => (r matches Err(p) && p.0 == n && p.1 == e) && obj_view(
                        final(self).obj,
                    ) == st,
                }
            }),
    {
        let bytes = src.as_bytes();
        let lines = split_lines(bytes);
        let ghost all = spec_split_lines(bytes@);
        let ghost whole = spec_assemble_all(all, obj_view(self.obj));
        proof {
            assert(all.skip(0) =~= all);
        }
        let mut i: usize = 0;
        while i < lines.len()
            invariant
                0 <= i <= lines@.len(),
                all.len() == lines@.len(),
                forall|q: int| 0 <= q < all.len() ==> all[q] == lines@[q]@,
                whole == (match spec_assemble_all(all.skip(i as int), obj_view(self.obj)) {
                    Ok(st) => Ok::<AsmState, (int, AsmError, AsmState)>(st),
                    Err((n, e, st)) => Err::<AsmState, (int, AsmError, AsmState)>(
                        ((n + i) as int, e, st),
                    ),
                }),
            decreases lines@.len() - i,
        {
            let ghost cur = obj_view(self.obj);
            proof {
                assert(all.skip(i as int)[0] == all[i as int]);
                assert(all.skip(i as int).skip(1) =~= all.skip(i as int + 1));
            }
            match self.assemble_line(lines[i].as_slice()) {
                Ok(()) => {},
                Err(e) => {
                    return Err((i + 1, e));
                },
            }
            i = i + 1;
        }
        proof {
            assert(all.skip(i as int).len() == 0);
        }
        Ok(())
    }
}

} // verus!
