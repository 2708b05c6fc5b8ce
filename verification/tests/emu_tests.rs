use q16::Instruction;
use q16::Opcode;
use q16::Register;
use q16::emu::Emulator;
use q16::emu::MEM_LEN;
use q16::emu::STATE_LEN;
use q16::emu::get_bit;
use q16::emu::set_bit;
use q16::isa::STS_NEG;
use q16::isa::STS_RUN;
use q16::isa::STS_ZERO;

fn write_instr(e: &mut Emulator, addr: u16, i: Instruction) {
    let x = i.as_u32();
    e.store_word(addr, (x & 0xffff) as u16);
    e.store_word(addr.wrapping_add(2), (x >> 16) as u16);
}

#[test]
fn add_wraps_and_sets_zero() {
    // Add with r1=0xffff, imm=1 wraps to 0: ZERO set, NEG clear
    let mut e = Emulator::new();
    e.registers.r1 = 0xffff;
    write_instr(&mut e, 0, Instruction::I(Opcode::Add, Register::R2, Register::R1, 1));
    let out = e.cycle();
    assert_eq!(out.instr, Some(Instruction::I(Opcode::Add, Register::R2, Register::R1, 1)));
    assert_eq!(e.registers.r2, 0);
    assert!(get_bit(e.registers.sts, STS_ZERO));
    assert!(!get_bit(e.registers.sts, STS_NEG));
    assert_eq!(e.registers.pc, 4);
}

#[test]
fn sub_and_mul_wrap() {
    let mut e = Emulator::new();
    e.registers.r1 = 3;
    e.registers.r2 = 5;
    write_instr(&mut e, 0, Instruction::R(Opcode::Sub, Register::R3, Register::R1, Register::R2));
    e.cycle();
    assert_eq!(e.registers.r3, 0xfffe);
    assert!(get_bit(e.registers.sts, STS_NEG));

    let mut e = Emulator::new();
    e.registers.r1 = 0x8000;
    write_instr(&mut e, 0, Instruction::I(Opcode::Mul, Register::R3, Register::R1, 2));
    e.cycle();
    assert_eq!(e.registers.r3, 0);
}

#[test]
fn div_rem_by_zero_yield_sentinel() {
    for op in [Opcode::Div, Opcode::Rem] {
        let mut e = Emulator::new();
        e.registers.r1 = 1234;
        write_instr(&mut e, 0, Instruction::I(op, Register::R2, Register::R1, 0));
        e.cycle();
        assert_eq!(e.registers.r2, 0xffff);
        // also in register form, and for another dividend
        let mut e = Emulator::new();
        e.registers.r1 = 0x8000;
        write_instr(&mut e, 0, Instruction::R(op, Register::R3, Register::R1, Register::R2));
        e.cycle();
        assert_eq!(e.registers.r3, 0xffff);
    }
}

#[test]
fn div_rem_signed_semantics() {
    // -7 / 2 truncates toward zero to -3; -7 % 2 is -1
    let mut e = Emulator::new();
    e.registers.r1 = (-7i16) as u16;
    write_instr(&mut e, 0, Instruction::I(Opcode::Div, Register::R2, Register::R1, 2));
    write_instr(&mut e, 4, Instruction::I(Opcode::Rem, Register::R3, Register::R1, 2));
    e.cycle();
    e.cycle();
    assert_eq!(e.registers.r2 as i16, -3);
    assert_eq!(e.registers.r3 as i16, -1);

    // minimum value divided by -1 wraps instead of faulting
    let mut e = Emulator::new();
    e.registers.r1 = 0x8000;
    e.registers.r2 = 0xffff;
    write_instr(&mut e, 0, Instruction::R(Opcode::Div, Register::R3, Register::R1, Register::R2));
    write_instr(&mut e, 4, Instruction::R(Opcode::Rem, Register::R4, Register::R1, Register::R2));
    e.cycle();
    e.cycle();
    assert_eq!(e.registers.r3, 0x8000);
    assert_eq!(e.registers.r4, 0);
}

#[test]
fn load_effective_address_wraps() {
    // r1=0xffff, imm=2 gives effective address 1, not a fault
    let mut e = Emulator::new();
    e.registers.r1 = 0xffff;
    e.store_byte(1, 0xab);
    write_instr(&mut e, 4, Instruction::I(Opcode::Lbu, Register::R2, Register::R1, 2));
    e.registers.pc = 4;
    let out = e.cycle();
    assert_eq!(out.mem_load, Some(1));
    assert_eq!(out.mem_store, None);
    assert_eq!(e.registers.r2, 0xab);
}

#[test]
fn lb_sign_extends_lbu_zero_extends() {
    let mut e = Emulator::new();
    e.store_byte(0x100, 0x80);
    write_instr(&mut e, 0, Instruction::I(Opcode::Lb, Register::R1, Register::R0, 0x100));
    write_instr(&mut e, 4, Instruction::I(Opcode::Lbu, Register::R2, Register::R0, 0x100));
    e.cycle();
    e.cycle();
    assert_eq!(e.registers.r1, 0xff80);
    assert_eq!(e.registers.r2, 0x0080);
}

#[test]
fn store_word_truncates_at_end_of_memory() {
    let mut e = Emulator::new();
    e.store_word(0xffff, 0xabcd);
    assert_eq!(e.load_byte(0xffff), 0xcd);
    assert_eq!(e.load_byte(0), 0);
    assert_eq!(e.load_word(0xffff), 0x00cd);

    e.store_word(0x10, 0x1234);
    assert_eq!(e.load_byte(0x10), 0x34);
    assert_eq!(e.load_byte(0x11), 0x12);
    assert_eq!(e.load_word(0x10), 0x1234);
}

#[test]
fn stores_report_their_address() {
    let mut e = Emulator::new();
    e.registers.r1 = 0xbeef;
    write_instr(&mut e, 0, Instruction::I(Opcode::Sw, Register::R1, Register::R0, 0x2000));
    write_instr(&mut e, 4, Instruction::I(Opcode::Sb, Register::R1, Register::R0, 0x3000));
    let out = e.cycle();
    assert_eq!(out.mem_store, Some(0x2000));
    assert_eq!(out.mem_load, None);
    assert_eq!(e.load_word(0x2000), 0xbeef);
    let out = e.cycle();
    assert_eq!(out.mem_store, Some(0x3000));
    assert_eq!(e.load_byte(0x3000), 0xef);
}

#[test]
fn branch_flag_convention() {
    // Jeq taken iff ZERO; Jne iff not ZERO; Jgt iff !ZERO && NEG;
    // Jlt iff !ZERO && !NEG -- the architecture's own pairing
    let cases = [
        (Opcode::Jeq, true, false, true),
        (Opcode::Jeq, false, true, false),
        (Opcode::Jne, false, false, true),
        (Opcode::Jne, true, false, false),
        (Opcode::Jgt, false, true, true),
        (Opcode::Jgt, false, false, false),
        (Opcode::Jgt, true, true, false),
        (Opcode::Jlt, false, false, true),
        (Opcode::Jlt, false, true, false),
        (Opcode::Jlt, true, false, false),
    ];
    for (op, zero, neg, taken) in cases {
        let mut e = Emulator::new();
        set_bit(&mut e.registers.sts, STS_ZERO, zero);
        set_bit(&mut e.registers.sts, STS_NEG, neg);
        write_instr(&mut e, 0, Instruction::I(op, Register::R0, Register::R0, 0x40));
        e.cycle();
        if taken {
            assert_eq!(e.registers.pc, 0x40, "{:?} should be taken", op);
        } else {
            assert_eq!(e.registers.pc, 4, "{:?} should fall through", op);
        }
    }
}

#[test]
fn illegal_word_soft_resets_once() {
    // an all-zero-bits word is illegal: one cycle clears every register
    // (stopping execution) and leaves memory untouched
    let mut e = Emulator::new();
    e.store_byte(0x1234, 0x56);
    e.set_run(true);
    e.registers.r1 = 7;
    e.registers.sp = 0x8000;
    let out = e.cycle();
    assert_eq!(out.instr, None);
    assert_eq!(out.mem_load, None);
    assert_eq!(out.mem_store, None);
    assert!(!e.running());
    assert_eq!(e.registers.r1, 0);
    assert_eq!(e.registers.sp, 0);
    assert_eq!(e.registers.sts, 0);
    assert_eq!(e.registers.pc, 0);
    assert_eq!(e.load_byte(0x1234), 0x56);
    assert_eq!(e.memory.len(), MEM_LEN);
}

#[test]
fn writes_to_r0_are_discarded() {
    let mut e = Emulator::new();
    e.registers.r1 = 41;
    // Add r0, r1, 1 computes 42 but discards it
    write_instr(&mut e, 0, Instruction::I(Opcode::Add, Register::R0, Register::R1, 1));
    e.cycle();
    assert_eq!(e.registers.read(Register::R0), 0);
    // flags still reflect the computed result
    assert!(!get_bit(e.registers.sts, STS_ZERO));
    assert!(e.registers.get_mut(Register::R0).is_none());
    e.registers.write(Register::R0, 0xffff);
    assert_eq!(e.registers.read(Register::R0), 0);
}

#[test]
fn run_bit_controls_running() {
    let mut e = Emulator::new();
    assert!(!e.running());
    e.set_run(true);
    assert!(e.running());
    assert!(get_bit(e.registers.sts, STS_RUN));
    e.set_run(false);
    assert!(!e.running());
}

#[test]
fn save_and_restore_state() {
    let mut e = Emulator::new();
    e.store_byte(0, 0x11);
    e.store_byte(0xffff, 0x22);
    e.registers.r1 = 1;
    e.registers.r8 = 8;
    e.registers.pc = 0x1234;
    e.registers.sts = 0x0101;
    let state = e.save_state();
    assert_eq!(state.len(), STATE_LEN);

    let e2 = Emulator::from_state(state).unwrap();
    assert_eq!(e2.memory, e.memory);
    assert_eq!(e2.registers, e.registers);
}

#[test]
fn restore_rejects_short_buffer() {
    assert!(Emulator::from_state(vec![0; STATE_LEN - 1]).is_none());
    assert!(Emulator::from_state(Vec::new()).is_none());
    assert!(Emulator::from_state(vec![0; STATE_LEN]).is_some());
}

#[test]
fn unused_status_bits_persist_across_alu_ops() {
    let mut e = Emulator::new();
    e.registers.sts = 0xf00c | (1 << STS_RUN as u16);
    e.registers.r1 = 1;
    write_instr(&mut e, 0, Instruction::I(Opcode::Add, Register::R2, Register::R1, 1));
    e.cycle();
    // ZERO and NEG reflect the result; every other bit is kept
    assert_eq!(e.registers.sts, 0xf00c | (1 << STS_RUN as u16));
    assert!(e.running());
}

#[test]
fn reset_clears_everything() {
    let mut e = Emulator::new();
    e.store_byte(5, 9);
    e.registers.r1 = 3;
    e.reset();
    assert_eq!(e.load_byte(5), 0);
    assert_eq!(e.registers.r1, 0);
    assert_eq!(e.memory.len(), MEM_LEN);
}
