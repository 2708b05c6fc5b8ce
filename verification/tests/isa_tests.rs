use q16::Instruction;
use q16::Opcode;
use q16::Register;

#[test]
fn encode_exact_values() {
    // immediate form: opcode in bits 0-6, form flag at bit 7, rd at 8-11,
    // r1 at 12-15, imm at 16-31
    assert_eq!(
        Instruction::I(Opcode::Add, Register::R1, Register::R0, 5).as_u32(),
        0x0005_0181
    );
    // register form: r2 in bits 16-19
    assert_eq!(
        Instruction::R(Opcode::Sub, Register::R2, Register::R3, Register::R4).as_u32(),
        0x0004_3202
    );
    assert_eq!(
        Instruction::I(Opcode::Jlt, Register::R0, Register::R0, 0xffff).as_u32(),
        0xffff_0091
    );
}

#[test]
fn decode_encode_round_trip() {
    let samples = [
        Instruction::R(Opcode::Add, Register::R0, Register::R0, Register::R0),
        Instruction::R(Opcode::Xor, Register::STS, Register::PC, Register::SP),
        Instruction::R(Opcode::Div, Register::R8, Register::RA, Register::R1),
        Instruction::I(Opcode::Add, Register::R1, Register::R0, 5),
        Instruction::I(Opcode::Lw, Register::R2, Register::R1, 0xffff),
        Instruction::I(Opcode::Sw, Register::R3, Register::SP, 2),
        Instruction::I(Opcode::Jeq, Register::R0, Register::R0, 16),
        Instruction::I(Opcode::And, Register::STS, Register::STS, 0xfeff),
    ];
    for i in samples {
        assert_eq!(Instruction::from_u32(i.as_u32()), Some(i));
    }
}

#[test]
fn decode_rejects_illegal_words() {
    // opcode 0 does not exist: the all-zero word is illegal
    assert_eq!(Instruction::from_u32(0), None);
    // opcode 18 does not exist
    assert_eq!(Instruction::from_u32(18), None);
    // register code 13 in the rd field is unused
    assert_eq!(Instruction::from_u32(1 + 13 * 0x100), None);
    // Sub has no immediate form
    assert_eq!(Instruction::from_u32(2 + 0x80), None);
    // branches have no register form
    assert_eq!(Instruction::from_u32(14), None);
    // memory operations have no register form
    assert_eq!(Instruction::from_u32(11), None);
    // register form ignores bits 20-31
    let base = Instruction::R(Opcode::Add, Register::R1, Register::R2, Register::R3).as_u32();
    assert_eq!(
        Instruction::from_u32(base | 0xfff0_0000),
        Some(Instruction::R(Opcode::Add, Register::R1, Register::R2, Register::R3))
    );
}

#[test]
fn shared_field_accessors() {
    let r = Instruction::R(Opcode::Mul, Register::R5, Register::R6, Register::R7);
    assert_eq!(r.opc(), Opcode::Mul);
    assert_eq!(r.rd(), Register::R5);
    assert_eq!(r.r1(), Register::R6);
    assert_eq!(r.imm(), None);

    let i = Instruction::I(Opcode::Lb, Register::R1, Register::R2, 0x1234);
    assert_eq!(i.opc(), Opcode::Lb);
    assert_eq!(i.rd(), Register::R1);
    assert_eq!(i.r1(), Register::R2);
    assert_eq!(i.imm(), Some(0x1234));
}
