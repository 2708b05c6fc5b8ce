//! Instruction set definition: registers, opcodes, and the 32-bit
//! instruction encoding.
//!
//! An instruction is stored as two little-endian 16-bit halfwords at
//! consecutive addresses. Within the 32-bit word: bits 0-6 hold the opcode,
//! bit 7 the form flag (0 = register form, 1 = immediate form), bits 8-11
//! the destination register, bits 12-15 the first source register, and bits
//! 16-31 either the second source register (register form, low 4 bits only)
//! or a 16-bit immediate (immediate form).

use vstd::prelude::*;

verus! {

/// Bit index of the ZERO flag within the status register.
pub const STS_ZERO: u16 = 0;
/// Bit index of the NEG flag within the status register.
pub const STS_NEG: u16 = 1;
/// Bit index of the RUN flag within the status register.
pub const STS_RUN: u16 = 8;

/// Base address of the memory-mapped display framebuffer.
pub const VRAM_ADDR: u16 = 0xc000;
/// Base address of the memory-mapped serial port.
pub const SERIAL_IO_ADDR: u16 = 0xf000;

/// One of the 13 architectural registers, plus the hardwired-zero `R0`.
///
/// `R0` reads as 0 and discards writes; the other 13 names denote mutable
/// 16-bit storage slots.
#[derive(Copy, Clone, PartialEq, Eq, Structural, Debug)]
pub enum Register {
    R0,
    R1,
    R2,
    R3,
    R4,
    R5,
    R6,
    R7,
    R8,
    PC,
    SP,
    RA,
    STS,
}

impl Register {
    /// The 4-bit code of this register in the instruction encoding.
    pub open spec fn spec_code(self) -> u32 {
        match self {
            Register::R0 => 0,
            Register::R1 => 1,
            Register::R2 => 2,
            Register::R3 => 3,
            Register::R4 => 4,
            Register::R5 => 5,
            Register::R6 => 6,
            Register::R7 => 7,
            Register::R8 => 8,
            Register::PC => 9,
            Register::SP => 10,
            Register::RA => 11,
            Register::STS => 12,
        }
    }

    pub fn code(self) -> (c: u32)
        ensures
            c == self.spec_code(),
    {
        match self {
            Register::R0 => 0,
            Register::R1 => 1,
            Register::R2 => 2,
            Register::R3 => 3,
            Register::R4 => 4,
            Register::R5 => 5,
            Register::R6 => 6,
            Register::R7 => 7,
            Register::R8 => 8,
            Register::PC => 9,
            Register::SP => 10,
            Register::RA => 11,
            Register::STS => 12,
        }
    }

    /// The register denoted by a 4-bit field, if any: codes 13-15 are unused.
    pub open spec fn spec_from_code(x: u32) -> Option<Register> {
        if x == 0 {
            Some(Register::R0)
        } else if x == 1 {
            Some(Register::R1)
        } else if x == 2 {
            Some(Register::R2)
        } else if x == 3 {
            Some(Register::R3)
        } else if x == 4 {
            Some(Register::R4)
        } else if x == 5 {
            Some(Register::R5)
        } else if x == 6 {
            Some(Register::R6)
        } else if x == 7 {
            Some(Register::R7)
        } else if x == 8 {
            Some(Register::R8)
        } else if x == 9 {
            Some(Register::PC)
        } else if x == 10 {
            Some(Register::SP)
        } else if x == 11 {
            Some(Register::RA)
        } else if x == 12 {
            Some(Register::STS)
        } else {
            None
        }
    }

    pub fn from_code(x: u32) -> (r: Option<Register>)
        ensures
            r == Self::spec_from_code(x),
    {
        if x == 0 {
            Some(Register::R0)
        } else if x == 1 {
            Some(Register::R1)
        } else if x == 2 {
            Some(Register::R2)
        } else if x == 3 {
            Some(Register::R3)
        } else if x == 4 {
            Some(Register::R4)
        } else if x == 5 {
            Some(Register::R5)
        } else if x == 6 {
            Some(Register::R6)
        } else if x == 7 {
            Some(Register::R7)
        } else if x == 8 {
            Some(Register::R8)
        } else if x == 9 {
            Some(Register::PC)
        } else if x == 10 {
            Some(Register::SP)
        } else if x == 11 {
            Some(Register::RA)
        } else if x == 12 {
            Some(Register::STS)
        } else {
            None
        }
    }
}

proof fn lemma_register_code_roundtrip(r: Register)
    ensures
        r.spec_code() < 13,
        Register::spec_from_code(r.spec_code()) == Some(r),
{
    match r {
        Register::R0 => {},
        Register::R1 => {},
        Register::R2 => {},
        Register::R3 => {},
        Register::R4 => {},
        Register::R5 => {},
        Register::R6 => {},
        Register::R7 => {},
        Register::R8 => {},
        Register::PC => {},
        Register::SP => {},
        Register::RA => {},
        Register::STS => {},
    }
}

/// One of the 17 operations. Not every opcode is valid in both instruction
/// forms: see [`Opcode::spec_valid_r`] and [`Opcode::spec_valid_i`].
#[derive(Copy, Clone, PartialEq, Eq, Structural, Debug)]
pub enum Opcode {
    Add,
    Sub,
    Mul,
    Div,
    Rem,
    And,
    Or,
    Xor,
    Lb,
    Lbu,
    Lw,
    Sb,
    Sw,
    Jeq,
    Jne,
    Jgt,
    Jlt,
}

impl Opcode {
    /// The 7-bit code of this opcode in the instruction encoding.
    pub open spec fn spec_code(self) -> u32 {
        match self {
            Opcode::Add => 1,
            Opcode::Sub => 2,
            Opcode::Mul => 3,
            Opcode::Div => 4,
            Opcode::Rem => 5,
            Opcode::And => 6,
            Opcode::Or => 7,
            Opcode::Xor => 8,
            Opcode::Lb => 9,
            Opcode::Lbu => 10,
            Opcode::Lw => 11,
            Opcode::Sb => 12,
            Opcode::Sw => 13,
            Opcode::Jeq => 14,
            Opcode::Jne => 15,
            Opcode::Jgt => 16,
            Opcode::Jlt => 17,
        }
    }

    pub fn code(self) -> (c: u32)
        ensures
            c == self.spec_code(),
    {
        match self {
            Opcode::Add => 1,
            Opcode::Sub => 2,
            Opcode::Mul => 3,
            Opcode::Div => 4,
            Opcode::Rem => 5,
            Opcode::And => 6,
            Opcode::Or => 7,
            Opcode::Xor => 8,
            Opcode::Lb => 9,
            Opcode::Lbu => 10,
            Opcode::Lw => 11,
            Opcode::Sb => 12,
            Opcode::Sw => 13,
            Opcode::Jeq => 14,
            Opcode::Jne => 15,
            Opcode::Jgt => 16,
            Opcode::Jlt => 17,
        }
    }

    /// The opcode denoted by a 7-bit field, if any.
    pub open spec fn spec_from_code(x: u32) -> Option<Opcode> {
        if x == 1 {
            Some(Opcode::Add)
        } else if x == 2 {
            Some(Opcode::Sub)
        } else if x == 3 {
            Some(Opcode::Mul)
        } else if x == 4 {
            Some(Opcode::Div)
        } else if x == 5 {
            Some(Opcode::Rem)
        } else if x == 6 {
            Some(Opcode::And)
        } else if x == 7 {
            Some(Opcode::Or)
        } else if x == 8 {
            Some(Opcode::Xor)
        } else if x == 9 {
            Some(Opcode::Lb)
        } else if x == 10 {
            Some(Opcode::Lbu)
        } else if x == 11 {
            Some(Opcode::Lw)
        } else if x == 12 {
            Some(Opcode::Sb)
        } else if x == 13 {
            Some(Opcode::Sw)
        } else if x == 14 {
            Some(Opcode::Jeq)
        } else if x == 15 {
            Some(Opcode::Jne)
        } else if x == 16 {
            Some(Opcode::Jgt)
        } else if x == 17 {
            Some(Opcode::Jlt)
        } else {
            None
        }
    }

    pub fn from_code(x: u32) -> (r: Option<Opcode>)
        ensures
            r == Self::spec_from_code(x),
    {
        if x == 1 {
            Some(Opcode::Add)
        } else if x == 2 {
            Some(Opcode::Sub)
        } else if x == 3 {
            Some(Opcode::Mul)
        } else if x == 4 {
            Some(Opcode::Div)
        } else if x == 5 {
            Some(Opcode::Rem)
        } else if x == 6 {
            Some(Opcode::And)
        } else if x == 7 {
            Some(Opcode::Or)
        } else if x == 8 {
            Some(Opcode::Xor)
        } else if x == 9 {
            Some(Opcode::Lb)
        } else if x == 10 {
            Some(Opcode::Lbu)
        } else if x == 11 {
            Some(Opcode::Lw)
        } else if x == 12 {
            Some(Opcode::Sb)
        } else if x == 13 {
            Some(Opcode::Sw)
        } else if x == 14 {
            Some(Opcode::Jeq)
        } else if x == 15 {
            Some(Opcode::Jne)
        } else if x == 16 {
            Some(Opcode::Jgt)
        } else if x == 17 {
            Some(Opcode::Jlt)
        } else {
            None
        }
    }

    /// Whether this opcode has a register form: only the eight ALU operations do.
    pub open spec fn spec_valid_r(self) -> bool {
        match self {
            Opcode::Add | Opcode::Sub | Opcode::Mul | Opcode::Div | Opcode::Rem | Opcode::And
                | Opcode::Or | Opcode::Xor => true,
            _ => false,
        }
    }

    pub fn valid_r(&self) -> (b: bool)
        ensures
            b == self.spec_valid_r(),
    {
        match self {
            Opcode::Add | Opcode::Sub | Opcode::Mul | Opcode::Div | Opcode::Rem | Opcode::And
                | Opcode::Or | Opcode::Xor => true,
            _ => false,
        }
    }

    /// Whether this opcode has an immediate form: all but `Sub`, whose
    /// immediate form is expressed as `Add` of the negated literal.
    pub open spec fn spec_valid_i(self) -> bool {
        self != Opcode::Sub
    }

    pub fn valid_i(&self) -> (b: bool)
        ensures
            b == self.spec_valid_i(),
    {
        match self {
            Opcode::Sub => false,
            _ => true,
        }
    }
}

proof fn lemma_opcode_code_roundtrip(op: Opcode)
    ensures
        1 <= op.spec_code() < 0x80,
        Opcode::spec_from_code(op.spec_code()) == Some(op),
{
    match op {
        Opcode::Add => {},
        Opcode::Sub => {},
        Opcode::Mul => {},
        Opcode::Div => {},
        Opcode::Rem => {},
        Opcode::And => {},
        Opcode::Or => {},
        Opcode::Xor => {},
        Opcode::Lb => {},
        Opcode::Lbu => {},
        Opcode::Lw => {},
        Opcode::Sb => {},
        Opcode::Sw => {},
        Opcode::Jeq => {},
        Opcode::Jne => {},
        Opcode::Jgt => {},
        Opcode::Jlt => {},
    }
}

/// A decoded instruction: either register form (`R`) or immediate form (`I`).
/// Both share (opcode, destination register, first source register).
#[derive(Copy, Clone, PartialEq, Eq, Structural, Debug)]
pub enum Instruction {
    R(Opcode, Register, Register, Register),
    I(Opcode, Register, Register, u16),
}

/// Extracts the components of an encoded instruction word by place value:
/// each equation peels one field out of the weighted sum.
proof fn lemma_encoding_fields(a: u32, f: u32, d: u32, s: u32, w: u32)
    by (bit_vector)
    requires
        a < 0x80,
        f < 2,
        d < 0x10,
        s < 0x10,
        w < 0x10000,
    ensures
        (a + f * 0x80 + d * 0x100 + s * 0x1000 + w * 0x10000) < 0x100000000,
        ((a + f * 0x80 + d * 0x100 + s * 0x1000 + w * 0x10000) as u32) % 0x80 == a,
        (((a + f * 0x80 + d * 0x100 + s * 0x1000 + w * 0x10000) as u32) / 0x80) % 2 == f,
        (((a + f * 0x80 + d * 0x100 + s * 0x1000 + w * 0x10000) as u32) / 0x100) % 0x10 == d,
        (((a + f * 0x80 + d * 0x100 + s * 0x1000 + w * 0x10000) as u32) / 0x1000) % 0x10 == s,
        ((a + f * 0x80 + d * 0x100 + s * 0x1000 + w * 0x10000) as u32) / 0x10000 == w,
{
}

impl Instruction {
    /// An instruction is well formed when its opcode is valid in its form.
    pub open spec fn wf(self) -> bool {
        match self {
            Instruction::R(op, _, _, _) => op.spec_valid_r(),
            Instruction::I(op, _, _, _) => op.spec_valid_i(),
        }
    }

    /// The 32-bit encoding of a well-formed instruction.
    pub open spec fn spec_encode(self) -> u32 {
        match self {
            Instruction::R(op, rd, r1, r2) => (op.spec_code() + rd.spec_code() * 0x100
                + r1.spec_code() * 0x1000 + r2.spec_code() * 0x10000) as u32,
            Instruction::I(op, rd, r1, imm) => (op.spec_code() + 0x80 + rd.spec_code() * 0x100
                + r1.spec_code() * 0x1000 + (imm as u32) * 0x10000) as u32,
        }
    }

    /// Encodes this instruction as a 32-bit word.
    ///
    /// Callers must pass a well-formed instruction: an opcode/form mismatch
    /// has no encoding.
    pub fn as_u32(&self) -> (r: u32)
        requires
            self.wf(),
        ensures
            r == self.spec_encode(),
    {
        proof {
            match *self {
                Instruction::R(op, rd, r1, r2) => {
                    lemma_opcode_code_roundtrip(op);
                    lemma_register_code_roundtrip(rd);
                    lemma_register_code_roundtrip(r1);
                    lemma_register_code_roundtrip(r2);
                },
                Instruction::I(op, rd, r1, _) => {
                    lemma_opcode_code_roundtrip(op);
                    lemma_register_code_roundtrip(rd);
                    lemma_register_code_roundtrip(r1);
                },
            }
        }
        match *self {
            Instruction::R(op, rd, r1, r2) => op.code() + rd.code() * 0x100 + r1.code() * 0x1000
                + r2.code() * 0x10000,
            Instruction::I(op, rd, r1, imm) => op.code() + 0x80 + rd.code() * 0x100 + r1.code()
                * 0x1000 + (imm as u32) * 0x10000,
        }
    }

    /// The instruction denoted by a 32-bit word, if any.
    ///
    /// Decoding rejects an unknown opcode, an unused register code in any
    /// register field, and an opcode that is invalid in the encoded form.
    /// In register form only the low 4 bits of the upper halfword are read.
    pub open spec fn spec_decode(x: u32) -> Option<Instruction> {
        match (Opcode::spec_from_code(x % 0x80), Register::spec_from_code((x / 0x100) % 0x10),
            Register::spec_from_code((x / 0x1000) % 0x10)) {
            (Some(op), Some(rd), Some(r1)) => {
                if (x / 0x80) % 2 == 1 {
                    if op.spec_valid_i() {
                        Some(Instruction::I(op, rd, r1, (x / 0x10000) as u16))
                    } else {
                        None
                    }
                } else {
                    if op.spec_valid_r() {
                        match Register::spec_from_code((x / 0x10000) % 0x10) {
                            Some(r2) => Some(Instruction::R(op, rd, r1, r2)),
                            None => None,
                        }
                    } else {
                        None
                    }
                }
            },
            _ => None,
        }
    }

    /// Decodes a 32-bit word; `None` marks an illegal encoding.
    pub fn from_u32(x: u32) -> (r: Option<Instruction>)
        ensures
            r == Self::spec_decode(x),
            r matches Some(i) ==> i.wf(),
    {
        let op = match Opcode::from_code(x % 0x80) {
            Some(op) => op,
            None => {
                return None;
            },
        };
        let rd = match Register::from_code((x / 0x100) % 0x10) {
            Some(rd) => rd,
            None => {
                return None;
            },
        };
        let r1 = match Register::from_code((x / 0x1000) % 0x10) {
            Some(r1) => r1,
            None => {
                return None;
            },
        };
        if (x / 0x80) % 2 == 1 {
            if op.valid_i() {
                Some(Instruction::I(op, rd, r1, (x / 0x10000) as u16))
            } else {
                None
            }
        } else {
            if op.valid_r() {
                match Register::from_code((x / 0x10000) % 0x10) {
                    Some(r2) => Some(Instruction::R(op, rd, r1, r2)),
                    None => None,
                }
            } else {
                None
            }
        }
    }

    /// The opcode, shared by both forms.
    pub open spec fn spec_opc(self) -> Opcode {
        match self {
            Instruction::R(op, _, _, _) => op,
            Instruction::I(op, _, _, _) => op,
        }
    }

    pub fn opc(&self) -> (op: Opcode)
        ensures
            op == self.spec_opc(),
    {
        match *self {
            Instruction::R(op, _, _, _) => op,
            Instruction::I(op, _, _, _) => op,
        }
    }

    /// The destination register, shared by both forms.
    pub open spec fn spec_rd(self) -> Register {
        match self {
            Instruction::R(_, rd, _, _) => rd,
            Instruction::I(_, rd, _, _) => rd,
        }
    }

    pub fn rd(&self) -> (rd: Register)
        ensures
            rd == self.spec_rd(),
    {
        match *self {
            Instruction::R(_, rd, _, _) => rd,
            Instruction::I(_, rd, _, _) => rd,
        }
    }

    /// The first source register, shared by both forms.
    pub open spec fn spec_r1(self) -> Register {
        match self {
            Instruction::R(_, _, r1, _) => r1,
            Instruction::I(_, _, r1, _) => r1,
        }
    }

    pub fn r1(&self) -> (r1: Register)
        ensures
            r1 == self.spec_r1(),
    {
        match *self {
            Instruction::R(_, _, r1, _) => r1,
            Instruction::I(_, _, r1, _) => r1,
        }
    }

    /// The immediate operand, present in immediate form only.
    pub open spec fn spec_imm(self) -> Option<u16> {
        match self {
            Instruction::I(_, _, _, imm) => Some(imm),
            Instruction::R(_, _, _, _) => None,
        }
    }

    pub fn imm(&self) -> (r: Option<u16>)
        ensures
            r == self.spec_imm(),
    {
        match *self {
            Instruction::I(_, _, _, imm) => Some(imm),
            Instruction::R(_, _, _, _) => None,
        }
    }
}

/// Encoding and decoding round-trip: decoding the encoding of any well-formed
/// instruction yields that instruction back.
pub proof fn lemma_decode_encode(i: Instruction)
    requires
        i.wf(),
    ensures
        Instruction::spec_decode(i.spec_encode()) == Some(i),
{
    match i {
        Instruction::R(op, rd, r1, r2) => {
            lemma_opcode_code_roundtrip(op);
            lemma_register_code_roundtrip(rd);
            lemma_register_code_roundtrip(r1);
            lemma_register_code_roundtrip(r2);
            lemma_encoding_fields(op.spec_code(), 0, rd.spec_code(), r1.spec_code(), r2.spec_code());
        },
        Instruction::I(op, rd, r1, imm) => {
            lemma_opcode_code_roundtrip(op);
            lemma_register_code_roundtrip(rd);
            lemma_register_code_roundtrip(r1);
            lemma_encoding_fields(op.spec_code(), 1, rd.spec_code(), r1.spec_code(), imm as u32);
        },
    }
}

} // verus!
