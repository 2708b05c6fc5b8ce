//! The emulator: 65536 bytes of memory plus 13 registers, stepped one
//! instruction at a time.
//!
//! `cycle` performs one fetch-decode-execute transition and reports a
//! structured outcome (the decoded instruction and at most one memory
//! address read or written) that a host polls to drive memory-mapped
//! devices. The whole transition is specified by [`spec_cycle`].

use vstd::prelude::*;
use vstd::arithmetic::div_mod::lemma_fundamental_div_mod;
use vstd::arithmetic::div_mod::lemma_mod_multiples_vanish;
use vstd::arithmetic::div_mod::lemma_small_mod;
use vstd::arithmetic::div_mod::lemma_div_nonincreasing;
use vstd::arithmetic::div_mod::lemma_mod_bound;
use crate::isa::Instruction;
use crate::isa::Opcode;
use crate::isa::Register;
use crate::isa::STS_NEG;
use crate::isa::STS_RUN;
use crate::isa::STS_ZERO;

verus! {

/// Size of the flat byte-addressable memory.
pub const MEM_LEN: usize = 65536;

/// Size of a serialized emulator state: the whole memory followed by the 12
/// stored registers as little-endian 16-bit values.
pub const STATE_LEN: usize = 65560;

/// The 13 mutable 16-bit registers. `R0` is not stored: it reads as 0 and
/// discards writes.
#[derive(Clone, Copy, PartialEq, Eq, Structural, Debug)]
pub struct Registers {
    pub r1: u16,
    pub r2: u16,
    pub r3: u16,
    pub r4: u16,
    pub r5: u16,
    pub r6: u16,
    pub r7: u16,
    pub r8: u16,
    pub pc: u16,
    pub sp: u16,
    pub ra: u16,
    pub sts: u16,
}

impl Registers {
    /// All registers cleared to zero.
    pub open spec fn spec_zeroed() -> Registers {
        Registers {
            r1: 0,
            r2: 0,
            r3: 0,
            r4: 0,
            r5: 0,
            r6: 0,
            r7: 0,
            r8: 0,
            pc: 0,
            sp: 0,
            ra: 0,
            sts: 0,
        }
    }

    /// The value a register read yields: 0 for `R0`, the stored slot otherwise.
    pub open spec fn spec_read(self, reg: Register) -> u16 {
        match reg {
            Register::R0 => 0,
            Register::R1 => self.r1,
            Register::R2 => self.r2,
            Register::R3 => self.r3,
            Register::R4 => self.r4,
            Register::R5 => self.r5,
            Register::R6 => self.r6,
            Register::R7 => self.r7,
            Register::R8 => self.r8,
            Register::PC => self.pc,
            Register::SP => self.sp,
            Register::RA => self.ra,
            Register::STS => self.sts,
        }
    }

    /// The register file after a write: unchanged for `R0`.
    pub open spec fn spec_write(self, reg: Register, x: u16) -> Registers {
        match reg {
            Register::R0 => self,
            Register::R1 => Registers { r1: x, ..self },
            Register::R2 => Registers { r2: x, ..self },
            Register::R3 => Registers { r3: x, ..self },
            Register::R4 => Registers { r4: x, ..self },
            Register::R5 => Registers { r5: x, ..self },
            Register::R6 => Registers { r6: x, ..self },
            Register::R7 => Registers { r7: x, ..self },
            Register::R8 => Registers { r8: x, ..self },
            Register::PC => Registers { pc: x, ..self },
            Register::SP => Registers { sp: x, ..self },
            Register::RA => Registers { ra: x, ..self },
            Register::STS => Registers { sts: x, ..self },
        }
    }

    pub fn read(&self, reg: Register) -> (x: u16)
        ensures
            x == self.spec_read(reg),
    {
        match reg {
            Register::R0 => 0,
            Register::R1 => self.r1,
            Register::R2 => self.r2,
            Register::R3 => self.r3,
            Register::R4 => self.r4,
            Register::R5 => self.r5,
            Register::R6 => self.r6,
            Register::R7 => self.r7,
            Register::R8 => self.r8,
            Register::PC => self.pc,
            Register::SP => self.sp,
            Register::RA => self.ra,
            Register::STS => self.sts,
        }
    }

    /// A mutable handle on the storage slot behind a register: `None` for
    /// `R0`, which has no slot. Writing through the handle is the same as
    /// writing the register.
    pub fn get_mut(&mut self, reg: Register) -> (r: Option<&mut u16>)
        ensures
            reg == Register::R0 ==> r is None && *final(self) == *old(self),
            reg != Register::R0 ==> (r matches Some(p) && *p == old(self).spec_read(reg)
                && *final(self) == old(self).spec_write(reg, *final(p))),
    {
        match reg {
            Register::R0 => None,
            Register::R1 => Some(&mut self.r1),
            Register::R2 => Some(&mut self.r2),
            Register::R3 => Some(&mut self.r3),
            Register::R4 => Some(&mut self.r4),
            Register::R5 => Some(&mut self.r5),
            Register::R6 => Some(&mut self.r6),
            Register::R7 => Some(&mut self.r7),
            Register::R8 => Some(&mut self.r8),
            Register::PC => Some(&mut self.pc),
            Register::SP => Some(&mut self.sp),
            Register::RA => Some(&mut self.ra),
            Register::STS => Some(&mut self.sts),
        }
    }

    pub fn write(&mut self, reg: Register, x: u16)
        ensures
            *final(self) == old(self).spec_write(reg, x),
    {
        match reg {
            Register::R0 => {},
            Register::R1 => {
                self.r1 = x;
            },
            Register::R2 => {
                self.r2 = x;
            },
            Register::R3 => {
                self.r3 = x;
            },
            Register::R4 => {
                self.r4 = x;
            },
            Register::R5 => {
                self.r5 = x;
            },
            Register::R6 => {
                self.r6 = x;
            },
            Register::R7 => {
                self.r7 = x;
            },
            Register::R8 => {
                self.r8 = x;
            },
            Register::PC => {
                self.pc = x;
            },
            Register::SP => {
                self.sp = x;
            },
            Register::RA => {
                self.ra = x;
            },
            Register::STS => {
                self.sts = x;
            },
        }
    }
}

impl Default for Registers {
    /// A fresh register file is all zeroes.
    fn default() -> (r: Registers)
        ensures
            r == Registers::spec_zeroed(),
    {
        Registers {
            r1: 0,
            r2: 0,
            r3: 0,
            r4: 0,
            r5: 0,
            r6: 0,
            r7: 0,
            r8: 0,
            pc: 0,
            sp: 0,
            ra: 0,
            sts: 0,
        }
    }
}

/// Whether bit `n` of `x` is set.
pub open spec fn spec_get_bit(x: u16, n: u16) -> bool {
    x & (1u16 << n) != 0
}

pub fn get_bit(x: u16, n: u16) -> (b: bool)
    requires
        n < 16,
    ensures
        b == spec_get_bit(x, n),
{
    x & (1u16 << n) != 0
}

/// `x` with bit `n` set to `on`.
pub open spec fn spec_set_bit(x: u16, n: u16, on: bool) -> u16 {
    if on {
        x | (1u16 << n)
    } else {
        x & !(1u16 << n)
    }
}

pub fn set_bit(x: &mut u16, n: u16, on: bool)
    requires
        n < 16,
    ensures
        *final(x) == spec_set_bit(*old(x), n, on),
{
    if on {
        *x = *x | (1u16 << n);
    } else {
        *x = *x & !(1u16 << n);
    }
}

/// The low byte of a 16-bit value.
pub open spec fn lo8(x: u16) -> u8 {
    (x % 0x100) as u8
}

/// The high byte of a 16-bit value.
pub open spec fn hi8(x: u16) -> u8 {
    (x / 0x100) as u8
}

/// The 16-bit value stored little-endian as two bytes.
pub open spec fn word_of(lo: u8, hi: u8) -> u16 {
    (lo + hi * 0x100) as u16
}

/// Reduction of a mathematical integer into the 16 bits that the machine
/// keeps: every arithmetic result is taken modulo 65536.
pub open spec fn wrap16(x: int) -> u16 {
    (x % 0x10000) as u16
}

/// The byte read at `addr`.
pub open spec fn spec_read8(mem: Seq<u8>, addr: u16) -> u8
    recommends
        mem.len() == MEM_LEN,
{
    mem[addr as int]
}

/// The little-endian 16-bit value read at `addr`. A read at the last byte of
/// memory yields only that byte: the implied high byte does not exist.
pub open spec fn spec_read16(mem: Seq<u8>, addr: u16) -> u16
    recommends
        mem.len() == MEM_LEN,
{
    word_of(spec_read8(mem, addr), if addr < 0xffff { spec_read8(mem, (addr + 1) as u16) } else { 0 })
}

/// Memory after one byte is stored at `addr`.
pub open spec fn spec_write8(mem: Seq<u8>, addr: u16, x: u8) -> Seq<u8>
    recommends
        mem.len() == MEM_LEN,
{
    mem.update(addr as int, x)
}

/// Memory after a little-endian 16-bit store at `addr`. A store at the last
/// byte of memory writes only the low byte.
pub open spec fn spec_write16(mem: Seq<u8>, addr: u16, x: u16) -> Seq<u8>
    recommends
        mem.len() == MEM_LEN,
{
    if addr < 0xffff {
        spec_write8(spec_write8(mem, addr, lo8(x)), (addr + 1) as u16, hi8(x))
    } else {
        spec_write8(mem, addr, lo8(x))
    }
}

/// The 12 stored registers serialized as little-endian 16-bit values, in
/// enumeration order.
pub open spec fn spec_regs_bytes(r: Registers) -> Seq<u8> {
    seq![
        lo8(r.r1), hi8(r.r1),
        lo8(r.r2), hi8(r.r2),
        lo8(r.r3), hi8(r.r3),
        lo8(r.r4), hi8(r.r4),
        lo8(r.r5), hi8(r.r5),
        lo8(r.r6), hi8(r.r6),
        lo8(r.r7), hi8(r.r7),
        lo8(r.r8), hi8(r.r8),
        lo8(r.pc), hi8(r.pc),
        lo8(r.sp), hi8(r.sp),
        lo8(r.ra), hi8(r.ra),
        lo8(r.sts), hi8(r.sts),
    ]
}

/// The register file reconstructed from a serialized state buffer.
pub open spec fn spec_regs_from_bytes(d: Seq<u8>) -> Registers
    recommends
        d.len() >= STATE_LEN,
{
    Registers {
        r1: word_of(d[MEM_LEN + 0], d[MEM_LEN + 1]),
        r2: word_of(d[MEM_LEN + 2], d[MEM_LEN + 3]),
        r3: word_of(d[MEM_LEN + 4], d[MEM_LEN + 5]),
        r4: word_of(d[MEM_LEN + 6], d[MEM_LEN + 7]),
        r5: word_of(d[MEM_LEN + 8], d[MEM_LEN + 9]),
        r6: word_of(d[MEM_LEN + 10], d[MEM_LEN + 11]),
        r7: word_of(d[MEM_LEN + 12], d[MEM_LEN + 13]),
        r8: word_of(d[MEM_LEN + 14], d[MEM_LEN + 15]),
        pc: word_of(d[MEM_LEN + 16], d[MEM_LEN + 17]),
        sp: word_of(d[MEM_LEN + 18], d[MEM_LEN + 19]),
        ra: word_of(d[MEM_LEN + 20], d[MEM_LEN + 21]),
        sts: word_of(d[MEM_LEN + 22], d[MEM_LEN + 23]),
    }
}

/// The serialized form of a whole emulator state.
pub open spec fn spec_state_bytes(mem: Seq<u8>, regs: Registers) -> Seq<u8> {
    mem + spec_regs_bytes(regs)
}

/// Splitting a 16-bit value into bytes and reassembling them is the identity.
pub proof fn lemma_word_bytes_roundtrip(x: u16)
    ensures
        word_of(lo8(x), hi8(x)) == x,
{
    lemma_fundamental_div_mod(x as int, 0x100);
}

/// What one step did to memory, beyond the state transition itself: the
/// decoded instruction (`None` marks an illegal encoding), and the single
/// address read or written, if the opcode touched memory.
#[derive(Clone, Copy, PartialEq, Eq, Debug)]
pub struct CycleOutput {
    pub instr: Option<Instruction>,
    pub mem_load: Option<u16>,
    pub mem_store: Option<u16>,
}

/// The emulator state: flat memory plus the register file.
pub struct Emulator {
    pub memory: Vec<u8>,
    pub registers: Registers,
}

impl Emulator {
    /// Memory always spans exactly the 16-bit address space.
    pub open spec fn wf(self) -> bool {
        self.memory@.len() == MEM_LEN
    }

    /// A fresh emulator: zeroed memory and registers.
    pub fn new() -> (r: Emulator)
        ensures
            r.wf(),
            r.memory@ == Seq::<u8>::new(MEM_LEN as nat, |i: int| 0u8),
            r.registers == Registers::spec_zeroed(),
    {
        let e = Emulator { memory: vec![0u8; MEM_LEN], registers: Registers::default() };
        proof {
            assert(e.memory@ =~= Seq::<u8>::new(MEM_LEN as nat, |i: int| 0u8));
        }
        e
    }

    /// Sets or clears the RUN bit of the status register.
    pub fn set_run(&mut self, run: bool)
        ensures
            final(self).registers.sts == spec_set_bit(old(self).registers.sts, STS_RUN, run),
            final(self).registers == (old(self).registers.spec_write(
                Register::STS,
                spec_set_bit(old(self).registers.sts, STS_RUN, run),
            )),
            final(self).memory@ == old(self).memory@,
    {
        set_bit(&mut self.registers.sts, STS_RUN, run);
    }

    /// Whether the RUN bit of the status register is set.
    pub fn running(&mut self) -> (b: bool)
        ensures
            b == spec_get_bit(old(self).registers.sts, STS_RUN),
            *final(self) == *old(self),
    {
        get_bit(self.registers.sts, STS_RUN)
    }

    /// Clears memory and registers to zero.
    pub fn reset(&mut self)
        ensures
            final(self).wf(),
            final(self).memory@ == Seq::<u8>::new(MEM_LEN as nat, |i: int| 0u8),
            final(self).registers == Registers::spec_zeroed(),
    {
        *self = Self::new();
    }

    /// Clears the registers only: the response to an undecodable instruction.
    pub fn soft_reset(&mut self)
        ensures
            final(self).memory@ == old(self).memory@,
            final(self).registers == Registers::spec_zeroed(),
    {
        self.registers = Registers::default();
    }

    /// Reads the byte at `addr`.
    pub fn load_byte(&self, addr: u16) -> (x: u8)
        requires
            self.wf(),
        ensures
            x == spec_read8(self.memory@, addr),
    {
        self.memory[addr as usize]
    }

    /// Reads the little-endian 16-bit value at `addr`, truncated at the end
    /// of memory.
    pub fn load_word(&self, addr: u16) -> (x: u16)
        requires
            self.wf(),
        ensures
            x == spec_read16(self.memory@, addr),
    {
        let lo = self.load_byte(addr);
        let hi = if addr < 0xffff {
            self.load_byte(addr + 1)
        } else {
            0
        };
        lo as u16 + hi as u16 * 0x100
    }

    /// Stores one byte at `addr`.
    pub fn store_byte(&mut self, addr: u16, x: u8)
        requires
            old(self).wf(),
        ensures
            final(self).wf(),
            final(self).memory@ == spec_write8(old(self).memory@, addr, x),
            final(self).registers == old(self).registers,
    {
        self.memory[addr as usize] = x;
    }

    /// Stores a little-endian 16-bit value at `addr`, truncated at the end
    /// of memory.
    pub fn store_word(&mut self, addr: u16, x: u16)
        requires
            old(self).wf(),
        ensures
            final(self).wf(),
            final(self).memory@ == spec_write16(old(self).memory@, addr, x),
            final(self).registers == old(self).registers,
    {
        self.store_byte(addr, (x % 0x100) as u8);
        if addr < 0xffff {
            self.store_byte(addr + 1, (x / 0x100) as u8);
        }
    }

    /// Serializes the full state: all of memory, then the 12 registers as
    /// little-endian 16-bit values in enumeration order.
    pub fn save_state(&self) -> (out: Vec<u8>)
        requires
            self.wf(),
        ensures
            out@ == spec_state_bytes(self.memory@, self.registers),
            out@.len() == STATE_LEN,
    {
        let mut out: Vec<u8> = Vec::new();
        out.extend_from_slice(self.memory.as_slice());
        let r = &self.registers;
        out.push((r.r1 % 0x100) as u8);
        out.push((r.r1 / 0x100) as u8);
        out.push((r.r2 % 0x100) as u8);
        out.push((r.r2 / 0x100) as u8);
        out.push((r.r3 % 0x100) as u8);
        out.push((r.r3 / 0x100) as u8);
        out.push((r.r4 % 0x100) as u8);
        out.push((r.r4 / 0x100) as u8);
        out.push((r.r5 % 0x100) as u8);
        out.push((r.r5 / 0x100) as u8);
        out.push((r.r6 % 0x100) as u8);
        out.push((r.r6 / 0x100) as u8);
        out.push((r.r7 % 0x100) as u8);
        out.push((r.r7 / 0x100) as u8);
        out.push((r.r8 % 0x100) as u8);
        out.push((r.r8 / 0x100) as u8);
        out.push((r.pc % 0x100) as u8);
        out.push((r.pc / 0x100) as u8);
        out.push((r.sp % 0x100) as u8);
        out.push((r.sp / 0x100) as u8);
        out.push((r.ra % 0x100) as u8);
        out.push((r.ra / 0x100) as u8);
        out.push((r.sts % 0x100) as u8);
        out.push((r.sts / 0x100) as u8);
        proof {
            assert(out@ =~= spec_state_bytes(self.memory@, self.registers));
        }
        out
    }

    /// Rebuilds an emulator from a serialized state. A buffer shorter than
    /// the fixed total size is rejected.
    pub fn from_state(data: Vec<u8>) -> (r: Option<Emulator>)
        ensures
            data@.len() < STATE_LEN ==> r is None,
            data@.len() >= STATE_LEN ==> (r matches Some(e) && e.wf() && e.memory@
                == data@.subrange(0, MEM_LEN as int) && e.registers == spec_regs_from_bytes(
                data@,
            )),
    {
        if data.len() < STATE_LEN {
            return None;
        }
        let registers = Registers {
            r1: Self::word_at(&data, MEM_LEN),
            r2: Self::word_at(&data, MEM_LEN + 2),
            r3: Self::word_at(&data, MEM_LEN + 4),
            r4: Self::word_at(&data, MEM_LEN + 6),
            r5: Self::word_at(&data, MEM_LEN + 8),
            r6: Self::word_at(&data, MEM_LEN + 10),
            r7: Self::word_at(&data, MEM_LEN + 12),
            r8: Self::word_at(&data, MEM_LEN + 14),
            pc: Self::word_at(&data, MEM_LEN + 16),
            sp: Self::word_at(&data, MEM_LEN + 18),
            ra: Self::word_at(&data, MEM_LEN + 20),
            sts: Self::word_at(&data, MEM_LEN + 22),
        };
        let mut data = data;
        data.truncate(MEM_LEN);
        Some(Emulator { memory: data, registers })
    }

    /// Reads the little-endian 16-bit value at byte index `i` of a buffer.
    fn word_at(data: &Vec<u8>, i: usize) -> (x: u16)
        requires
            i + 1 < data@.len(),
            i + 1 < STATE_LEN,
        ensures
            x == word_of(data@[i as int], data@[i + 1]),
    {
        data[i] as u16 + data[i + 1] as u16 * 0x100
    }
}

/// Saving the emulator state and restoring it reproduces the same memory
/// and register values.
pub proof fn lemma_state_roundtrip(mem: Seq<u8>, regs: Registers)
    requires
        mem.len() == MEM_LEN,
    ensures
        spec_state_bytes(mem, regs).len() == STATE_LEN,
        spec_state_bytes(mem, regs).subrange(0, MEM_LEN as int) == mem,
        spec_regs_from_bytes(spec_state_bytes(mem, regs)) == regs,
{
    let s = spec_state_bytes(mem, regs);
    assert(s.subrange(0, MEM_LEN as int) =~= mem);
    lemma_word_bytes_roundtrip(regs.r1);
    lemma_word_bytes_roundtrip(regs.r2);
    lemma_word_bytes_roundtrip(regs.r3);
    lemma_word_bytes_roundtrip(regs.r4);
    lemma_word_bytes_roundtrip(regs.r5);
    lemma_word_bytes_roundtrip(regs.r6);
    lemma_word_bytes_roundtrip(regs.r7);
    lemma_word_bytes_roundtrip(regs.r8);
    lemma_word_bytes_roundtrip(regs.pc);
    lemma_word_bytes_roundtrip(regs.sp);
    lemma_word_bytes_roundtrip(regs.ra);
    lemma_word_bytes_roundtrip(regs.sts);
}

/// Reads of `R0` always yield 0, and writes to it change nothing: no write
/// to any register can make `R0` read otherwise.
pub proof fn lemma_r0_hardwired_zero(regs: Registers, reg: Register, x: u16)
    ensures
        regs.spec_read(Register::R0) == 0,
        regs.spec_write(Register::R0, x) == regs,
        regs.spec_write(reg, x).spec_read(Register::R0) == 0,
{
}

/// The value of `x` reinterpreted as a two's-complement signed 16-bit integer.
pub open spec fn to_signed(x: u16) -> int {
    if x < 0x8000 {
        x as int
    } else {
        x as int - 0x10000
    }
}

/// The magnitude of an integer.
pub open spec fn abs_of(a: int) -> int {
    if a < 0 {
        -a
    } else {
        a
    }
}

/// Signed division truncating toward zero, as machine division does.
pub open spec fn trunc_div(a: int, b: int) -> int {
    if (a < 0) == (b < 0) {
        abs_of(a) / abs_of(b)
    } else {
        -(abs_of(a) / abs_of(b))
    }
}

/// Signed remainder: the magnitude of `a` reduced by the magnitude of `b`,
/// with the sign of the dividend.
pub open spec fn trunc_rem(a: int, b: int) -> int {
    if a < 0 {
        -(abs_of(a) % abs_of(b))
    } else {
        abs_of(a) % abs_of(b)
    }
}

/// The result an ALU opcode computes from its two 16-bit operands.
///
/// `Add`/`Sub`/`Mul` wrap modulo 65536. `Div`/`Rem` reinterpret both operands
/// as signed values, wrap the result, and yield the sentinel 0xffff when the
/// divisor is zero rather than faulting. `And`/`Or`/`Xor` are bitwise.
pub open spec fn spec_alu(op: Opcode, a: u16, b: u16) -> u16
    recommends
        op.spec_valid_r(),
{
    match op {
        Opcode::Add => wrap16(a + b),
        Opcode::Sub => wrap16(a - b),
        Opcode::Mul => wrap16(a * b),
        Opcode::Div => if b == 0 {
            0xffff
        } else {
            wrap16(trunc_div(to_signed(a), to_signed(b)))
        },
        Opcode::Rem => if b == 0 {
            0xffff
        } else {
            wrap16(trunc_rem(to_signed(a), to_signed(b)))
        },
        Opcode::And => a & b,
        Opcode::Or => a | b,
        Opcode::Xor => a ^ b,
        _ => 0,
    }
}

/// Reduces a 32-bit intermediate into the 16 bits the machine keeps.
pub(crate) fn wrap16_of(x: u32) -> (r: u16)
    ensures
        r == wrap16(x as int),
{
    (x % 0x10000) as u16
}

/// The magnitude of a 16-bit value read as signed.
fn magnitude(x: u16) -> (m: u32)
    ensures
        m == abs_of(to_signed(x)),
        m <= 0x8000,
        m == 0 <==> x == 0,
{
    if x >= 0x8000 {
        0x10000 - x as u32
    } else {
        x as u32
    }
}

/// Computes one ALU operation.
pub fn alu_eval(op: Opcode, a: u16, b: u16) -> (r: u16)
    requires
        op.spec_valid_r(),
    ensures
        r == spec_alu(op, a, b),
{
    match op {
        Opcode::Add => wrap16_of(a as u32 + b as u32),
        Opcode::Sub => {
            let r = wrap16_of(a as u32 + 0x10000 - b as u32);
            proof {
                lemma_mod_multiples_vanish(1, a - b, 0x10000);
            }
            r
        },
        Opcode::Mul => {
            proof {
                vstd::arithmetic::mul::lemma_mul_upper_bound(a as int, 0xffff, b as int, 0xffff);
            }
            wrap16_of(a as u32 * b as u32)
        },
        Opcode::Div => {
            if b == 0 {
                0xffff
            } else {
                let ma = magnitude(a);
                let mb = magnitude(b);
                let q = ma / mb;
                proof {
                    lemma_div_nonincreasing(ma as int, mb as int);
                }
                if (a >= 0x8000) != (b >= 0x8000) {
                    if q == 0 {
                        0
                    } else {
                        proof {
                            lemma_mod_multiples_vanish(1, -(q as int), 0x10000);
                            lemma_small_mod((0x10000 - q) as nat, 0x10000);
                        }
                        (0x10000 - q) as u16
                    }
                } else {
                    proof {
                        lemma_small_mod(q as nat, 0x10000);
                    }
                    q as u16
                }
            }
        },
        Opcode::Rem => {
            if b == 0 {
                0xffff
            } else {
                let ma = magnitude(a);
                let mb = magnitude(b);
                let m = ma % mb;
                proof {
                    lemma_mod_bound(ma as int, mb as int);
                }
                if a >= 0x8000 {
                    if m == 0 {
                        0
                    } else {
                        proof {
                            lemma_mod_multiples_vanish(1, -(m as int), 0x10000);
                            lemma_small_mod((0x10000 - m) as nat, 0x10000);
                        }
                        (0x10000 - m) as u16
                    }
                } else {
                    proof {
                        lemma_small_mod(m as nat, 0x10000);
                    }
                    m as u16
                }
            }
        },
        Opcode::And => a & b,
        Opcode::Or => a | b,
        Opcode::Xor => a ^ b,
        _ => 0,
    }
}

/// The status register after an ALU result: ZERO reflects whether the result
/// is zero, NEG its top bit; all other bits are kept.
pub open spec fn spec_alu_flags(sts: u16, r: u16) -> u16 {
    spec_set_bit(spec_set_bit(sts, STS_ZERO, r == 0), STS_NEG, spec_get_bit(r, 15))
}

/// The register file after one ALU instruction: flags from the result, then
/// the result written to the destination (discarded for `R0`; a destination
/// of `STS` overwrites the flags).
pub open spec fn spec_exec_alu(regs: Registers, i: Instruction) -> Registers
    recommends
        i.spec_opc().spec_valid_r(),
{
    let a = regs.spec_read(i.spec_r1());
    let b = match i {
        Instruction::R(_, _, _, r2) => regs.spec_read(r2),
        Instruction::I(_, _, _, imm) => imm,
    };
    let r = spec_alu(i.spec_opc(), a, b);
    regs.spec_write(Register::STS, spec_alu_flags(regs.sts, r)).spec_write(i.spec_rd(), r)
}

/// The effective address of memory and branch operations: the first source
/// register plus the immediate, with 16-bit wraparound.
pub open spec fn spec_eff_addr(regs: Registers, i: Instruction) -> u16
    recommends
        i.spec_imm() is Some,
{
    wrap16(regs.spec_read(i.spec_r1()) + i.spec_imm().unwrap())
}

/// The value a load opcode reads at `addr`: `Lb` sign-extends the byte,
/// `Lbu` zero-extends it, `Lw` reads a little-endian 16-bit word.
pub open spec fn spec_load_value(op: Opcode, mem: Seq<u8>, addr: u16) -> u16
    recommends
        mem.len() == MEM_LEN,
{
    match op {
        Opcode::Lb => {
            let bv = spec_read8(mem, addr);
            if bv >= 0x80 {
                (bv + 0xff00) as u16
            } else {
                bv as u16
            }
        },
        Opcode::Lbu => spec_read8(mem, addr) as u16,
        _ => spec_read16(mem, addr),
    }
}

/// Whether a branch opcode is taken under the given status bits. `Jgt` and
/// `Jlt` pair ZERO with NEG in the architecture's own convention, which is
/// load-bearing for existing programs.
pub open spec fn spec_branch_taken(op: Opcode, sts: u16) -> bool {
    match op {
        Opcode::Jeq => spec_get_bit(sts, STS_ZERO),
        Opcode::Jne => !spec_get_bit(sts, STS_ZERO),
        Opcode::Jgt => !spec_get_bit(sts, STS_ZERO) && spec_get_bit(sts, STS_NEG),
        Opcode::Jlt => !spec_get_bit(sts, STS_ZERO) && !spec_get_bit(sts, STS_NEG),
        _ => false,
    }
}

/// The 32-bit instruction word fetched at `PC`: two little-endian 16-bit
/// halfwords at consecutive addresses.
pub open spec fn spec_fetch(mem: Seq<u8>, regs: Registers) -> u32
    recommends
        mem.len() == MEM_LEN,
{
    (spec_read16(mem, regs.pc) + 0x10000 * spec_read16(mem, wrap16(regs.pc + 2))) as u32
}

/// One whole fetch-decode-execute transition: the memory, registers, and
/// step outcome that follow from the given state.
///
/// An undecodable word clears all registers (a soft reset) and leaves memory
/// untouched. Otherwise `PC` advances by 4 before the instruction body runs,
/// so branch targets compose with the advanced `PC`.
pub open spec fn spec_cycle(mem: Seq<u8>, regs: Registers) -> (Seq<u8>, Registers, CycleOutput)
    recommends
        mem.len() == MEM_LEN,
{
    match Instruction::spec_decode(spec_fetch(mem, regs)) {
        None => (
            mem,
            Registers::spec_zeroed(),
            CycleOutput { instr: None, mem_load: None, mem_store: None },
        ),
        Some(i) => {
            let regs1 = regs.spec_write(Register::PC, wrap16(regs.pc + 4));
            let op = i.spec_opc();
            if op.spec_valid_r() {
                (
                    mem,
                    spec_exec_alu(regs1, i),
                    CycleOutput { instr: Some(i), mem_load: None, mem_store: None },
                )
            } else if op == Opcode::Lb || op == Opcode::Lbu || op == Opcode::Lw {
                let addr = spec_eff_addr(regs1, i);
                (
                    mem,
                    regs1.spec_write(i.spec_rd(), spec_load_value(op, mem, addr)),
                    CycleOutput { instr: Some(i), mem_load: Some(addr), mem_store: None },
                )
            } else if op == Opcode::Sb {
                let addr = spec_eff_addr(regs1, i);
                (
                    spec_write8(mem, addr, lo8(regs1.spec_read(i.spec_rd()))),
                    regs1,
                    CycleOutput { instr: Some(i), mem_load: None, mem_store: Some(addr) },
                )
            } else if op == Opcode::Sw {
                let addr = spec_eff_addr(regs1, i);
                (
                    spec_write16(mem, addr, regs1.spec_read(i.spec_rd())),
                    regs1,
                    CycleOutput { instr: Some(i), mem_load: None, mem_store: Some(addr) },
                )
            } else {
                let out = CycleOutput { instr: Some(i), mem_load: None, mem_store: None };
                if spec_branch_taken(op, regs1.sts) {
                    (mem, regs1.spec_write(Register::PC, spec_eff_addr(regs1, i)), out)
                } else {
                    (mem, regs1, out)
                }
            }
        },
    }
}

impl Emulator {
    /// The effective address of a memory or branch instruction.
    fn get_i_addr(&self, instr: Instruction) -> (addr: u16)
        requires
            instr.spec_imm() is Some,
        ensures
            addr == spec_eff_addr(self.registers, instr),
    {
        let imm = match instr.imm() {
            Some(imm) => imm,
            None => 0,
        };
        wrap16_of(self.registers.read(instr.r1()) as u32 + imm as u32)
    }

    /// Executes one ALU instruction: computes the result, sets the flags,
    /// writes the destination.
    fn exec_alu(&mut self, instr: Instruction)
        requires
            old(self).wf(),
            instr.spec_opc().spec_valid_r(),
        ensures
            final(self).wf(),
            final(self).memory@ == old(self).memory@,
            final(self).registers == spec_exec_alu(old(self).registers, instr),
    {
        let a = self.registers.read(instr.r1());
        let b = match instr {
            Instruction::R(_, _, _, r2) => self.registers.read(r2),
            Instruction::I(_, _, _, imm) => imm,
        };
        let r = alu_eval(instr.opc(), a, b);
        set_bit(&mut self.registers.sts, STS_ZERO, r == 0);
        set_bit(&mut self.registers.sts, STS_NEG, get_bit(r, 15));
        self.registers.write(instr.rd(), r);
    }

    /// Performs one fetch-decode-execute step, exactly as [`spec_cycle`]
    /// describes, and reports the decoded instruction together with the one
    /// memory address the opcode read or written, if any.
    pub fn cycle(&mut self) -> (out: CycleOutput)
        requires
            old(self).wf(),
        ensures
            final(self).wf(),
            final(self).memory@ == spec_cycle(old(self).memory@, old(self).registers).0,
            final(self).registers == spec_cycle(old(self).memory@, old(self).registers).1,
            out == spec_cycle(old(self).memory@, old(self).registers).2,
    {
        let w0 = self.load_word(self.registers.pc);
        let w1 = self.load_word(wrap16_of(self.registers.pc as u32 + 2));
        let raw = w0 as u32 + 0x10000 * w1 as u32;
        let instr = match Instruction::from_u32(raw) {
            Some(i) => i,
            None => {
                self.soft_reset();
                return CycleOutput { instr: None, mem_load: None, mem_store: None };
            },
        };
        let npc = wrap16_of(self.registers.pc as u32 + 4);
        self.registers.pc = npc;

        match instr.opc() {
            Opcode::Add | Opcode::Sub | Opcode::Mul | Opcode::Div | Opcode::Rem | Opcode::And
                | Opcode::Or | Opcode::Xor => {
                self.exec_alu(instr);
                CycleOutput { instr: Some(instr), mem_load: None, mem_store: None }
            },
            Opcode::Lb => {
                let addr = self.get_i_addr(instr);
                let bv = self.load_byte(addr);
                let v = if bv >= 0x80 {
                    bv as u16 + 0xff00
                } else {
                    bv as u16
                };
                self.registers.write(instr.rd(), v);
                CycleOutput { instr: Some(instr), mem_load: Some(addr), mem_store: None }
            },
            Opcode::Lbu => {
                let addr = self.get_i_addr(instr);
                let v = self.load_byte(addr) as u16;
                self.registers.write(instr.rd(), v);
                CycleOutput { instr: Some(instr), mem_load: Some(addr), mem_store: None }
            },
            Opcode::Lw => {
                let addr = self.get_i_addr(instr);
                let v = self.load_word(addr);
                self.registers.write(instr.rd(), v);
                CycleOutput { instr: Some(instr), mem_load: Some(addr), mem_store: None }
            },
            Opcode::Sb => {
                let addr = self.get_i_addr(instr);
                let v = self.registers.read(instr.rd());
                self.store_byte(addr, (v % 0x100) as u8);
                CycleOutput { instr: Some(instr), mem_load: None, mem_store: Some(addr) }
            },
            Opcode::Sw => {
                let addr = self.get_i_addr(instr);
                let v = self.registers.read(instr.rd());
                self.store_word(addr, v);
                CycleOutput { instr: Some(instr), mem_load: None, mem_store: Some(addr) }
            },
            Opcode::Jeq => {
                if get_bit(self.registers.sts, STS_ZERO) {
                    let t = self.get_i_addr(instr);
                    self.registers.pc = t;
                }
                CycleOutput { instr: Some(instr), mem_load: None, mem_store: None }
            },
            Opcode::Jne => {
                if !get_bit(self.registers.sts, STS_ZERO) {
                    let t = self.get_i_addr(instr);
                    self.registers.pc = t;
                }
                CycleOutput { instr: Some(instr), mem_load: None, mem_store: None }
            },
            Opcode::Jgt => {
                if !get_bit(self.registers.sts, STS_ZERO) && get_bit(self.registers.sts, STS_NEG) {
                    let t = self.get_i_addr(instr);
                    self.registers.pc = t;
                }
                CycleOutput { instr: Some(instr), mem_load: None, mem_store: None }
            },
            Opcode::Jlt => {
                if !get_bit(self.registers.sts, STS_ZERO) && !get_bit(self.registers.sts, STS_NEG) {
                    let t = self.get_i_addr(instr);
                    self.registers.pc = t;
                }
                CycleOutput { instr: Some(instr), mem_load: None, mem_store: None }
            },
        }
    }
}

/// `Add`, `Sub` and `Mul` wrap modulo 65536.
pub proof fn lemma_alu_wrapping(a: u16, b: u16)
    ensures
        spec_alu(Opcode::Add, a, b) == wrap16(a + b),
        spec_alu(Opcode::Sub, a, b) == wrap16(a - b),
        spec_alu(Opcode::Mul, a, b) == wrap16(a * b),
{
}

/// After any ALU operation, ZERO holds exactly when the result is zero, NEG
/// exactly when its top bit is set, and the RUN bit is untouched.
pub proof fn lemma_alu_flags(sts: u16, r: u16)
    by (bit_vector)
    ensures
        spec_get_bit(spec_alu_flags(sts, r), STS_ZERO) == (r == 0),
        spec_get_bit(spec_alu_flags(sts, r), STS_NEG) == (r >= 0x8000),
        spec_get_bit(spec_alu_flags(sts, r), STS_RUN) == spec_get_bit(sts, STS_RUN),
        spec_get_bit(r, 15) == (r >= 0x8000),
{
}

/// `Div` and `Rem` by zero yield the sentinel 0xffff for any dividend, and
/// never fault.
pub proof fn lemma_div_rem_by_zero(a: u16)
    ensures
        spec_alu(Opcode::Div, a, 0) == 0xffff,
        spec_alu(Opcode::Rem, a, 0) == 0xffff,
{
}

/// Effective addresses wrap around the 16-bit address space, so every memory
/// or branch operand stays inside memory: there is no out-of-range fault.
pub proof fn lemma_eff_addr_wraps(regs: Registers, i: Instruction)
    requires
        i.spec_imm() is Some,
    ensures
        spec_eff_addr(regs, i) == (regs.spec_read(i.spec_r1()) + i.spec_imm().unwrap()) % 0x10000,
        spec_eff_addr(regs, i) < MEM_LEN,
{
}

/// An undecodable instruction word triggers exactly one soft reset: every
/// register is cleared (stopping execution, since RUN is among them), memory
/// is untouched, and the outcome marks "no instruction". The all-zero word
/// is such an illegal encoding.
pub proof fn lemma_illegal_word_soft_reset(mem: Seq<u8>, regs: Registers)
    requires
        mem.len() == MEM_LEN,
        Instruction::spec_decode(spec_fetch(mem, regs)) is None,
    ensures
        spec_cycle(mem, regs).0 == mem,
        spec_cycle(mem, regs).1 == Registers::spec_zeroed(),
        spec_cycle(mem, regs).2 == (CycleOutput { instr: None, mem_load: None, mem_store: None }),
        Instruction::spec_decode(0) is None,
        !spec_get_bit(Registers::spec_zeroed().sts, STS_RUN),
{
    assert(!spec_get_bit(0u16, STS_RUN)) by (bit_vector);
}

} // verus!
