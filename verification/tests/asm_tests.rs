use q16::Instruction;
use q16::Opcode;
use q16::Register;
use q16::assembler::AsmError;
use q16::assembler::Assembler;
use q16::emu::Emulator;
use q16::emu::get_bit;
use q16::isa::STS_ZERO;

fn assemble(src: &str) -> Result<Vec<u8>, (usize, AsmError)> {
    let mut a = Assembler::new();
    a.assemble(src)?;
    Ok(a.obj.out_bin().expect("all labels resolved"))
}

fn enc(i: Instruction) -> Vec<u8> {
    i.as_u32().to_le_bytes().to_vec()
}

#[test]
fn assembles_real_instructions() {
    let bin = assemble("add %r1, %r2, %r3\nadd %r1, %r2, 7\nxor %r4, %r4, 0xffff\n").unwrap();
    let mut want = enc(Instruction::R(Opcode::Add, Register::R1, Register::R2, Register::R3));
    want.extend(enc(Instruction::I(Opcode::Add, Register::R1, Register::R2, 7)));
    want.extend(enc(Instruction::I(Opcode::Xor, Register::R4, Register::R4, 0xffff)));
    assert_eq!(bin, want);
}

#[test]
fn sub_immediate_becomes_add_of_negation() {
    let bin = assemble("sub %r1, %r1, 5").unwrap();
    assert_eq!(bin, enc(Instruction::I(Opcode::Add, Register::R1, Register::R1, 0xfffb)));
}

#[test]
fn memory_ops_accept_two_or_three_operands() {
    let bin = assemble("lw %r1, %r2, 8\nlw %r1, %r2\nsb %r3, 0x100\n").unwrap();
    let mut want = enc(Instruction::I(Opcode::Lw, Register::R1, Register::R2, 8));
    want.extend(enc(Instruction::I(Opcode::Lw, Register::R1, Register::R2, 0)));
    want.extend(enc(Instruction::I(Opcode::Sb, Register::R3, Register::R0, 0x100)));
    assert_eq!(bin, want);
}

#[test]
fn pseudo_instruction_expansions() {
    let bin = assemble(
        "nop\nhlt\nmov %r1, %r2\nneg %r1, %r2\nnot %r1, %r2\ncmp %r1, 5\ncmp %r1, %r2\njmp %r1, 4\njmp 8\ninc %r5\n",
    )
    .unwrap();
    let mut want = enc(Instruction::R(Opcode::Add, Register::R0, Register::R0, Register::R0));
    want.extend(enc(Instruction::I(Opcode::And, Register::STS, Register::STS, 0xfeff)));
    want.extend(enc(Instruction::I(Opcode::Add, Register::R1, Register::R2, 0)));
    want.extend(enc(Instruction::R(Opcode::Sub, Register::R1, Register::R0, Register::R2)));
    want.extend(enc(Instruction::I(Opcode::Xor, Register::R1, Register::R2, 0xffff)));
    want.extend(enc(Instruction::I(Opcode::Add, Register::R0, Register::R1, 0xfffb)));
    want.extend(enc(Instruction::R(Opcode::Sub, Register::R0, Register::R1, Register::R2)));
    want.extend(enc(Instruction::I(Opcode::Add, Register::PC, Register::R1, 4)));
    want.extend(enc(Instruction::I(Opcode::Add, Register::PC, Register::R0, 8)));
    want.extend(enc(Instruction::I(Opcode::Add, Register::R5, Register::R5, 1)));
    assert_eq!(bin, want);
}

#[test]
fn data_directives() {
    let bin = assemble(".db 0x12\n.dw 0x3456\n.skip 3\n.db 255\n").unwrap();
    assert_eq!(bin, vec![0x12, 0x56, 0x34, 0, 0, 0, 255]);
}

#[test]
fn numeric_literal_bases() {
    let bin = assemble(".dw 0x10\n.dw 0o10\n.dw 0b10\n.dw 10\n.dw 010\n.dw 0\n").unwrap();
    assert_eq!(bin, vec![16, 0, 8, 0, 2, 0, 10, 0, 10, 0, 0, 0]);
}

#[test]
fn comments_case_and_blank_lines() {
    let bin = assemble("; a comment\n\n  NOP  ; trailing\n\tAdD %R1, %r2, %R3\n").unwrap();
    let mut want = enc(Instruction::R(Opcode::Add, Register::R0, Register::R0, Register::R0));
    want.extend(enc(Instruction::R(Opcode::Add, Register::R1, Register::R2, Register::R3)));
    assert_eq!(bin, want);
}

#[test]
fn labels_resolve_forward_and_backward() {
    let src = "start:\nnop\njmp start\n.dw end\nend:\n";
    let bin = assemble(src).unwrap();
    let mut want = enc(Instruction::R(Opcode::Add, Register::R0, Register::R0, Register::R0));
    // jmp start expands to Add %pc, start: an immediate of 0 patched to 0
    want.extend(enc(Instruction::I(Opcode::Add, Register::PC, Register::R0, 0)));
    // .dw end holds the address after itself: 10
    want.extend([10, 0]);
    assert_eq!(bin, want);
}

#[test]
fn each_error_has_an_input() {
    let cases: &[(&str, AsmError)] = &[
        ("frob %r1", AsmError::UnknownMnemonic),
        ("add %r1, %r2, %r9", AsmError::UnknownRegister),
        ("mov %r1, 0q5", AsmError::UnknownBase),
        ("mov %r1, 0x", AsmError::MalformedLiteral),
        ("mov %r1, 12g4", AsmError::MalformedLiteral),
        ("mov %r1, 0x10000", AsmError::MalformedLiteral),
        ("add %r1, , %r2", AsmError::EmptyOperand),
        ("add %r1, %r2", AsmError::WrongOperandCount),
        ("jmp %r1, %r2, %r3", AsmError::WrongOperandCount),
        ("add 5, %r2, %r3", AsmError::InvalidOperands),
        ("sub %r1, %r2, somewhere", AsmError::InvalidOperands),
        (".db %r1", AsmError::InvalidOperands),
        ("a:\na:", AsmError::DuplicateLabel),
    ];
    for (src, want) in cases {
        let mut a = Assembler::new();
        match a.assemble(src) {
            Err((_, e)) => assert_eq!(e, *want, "for {:?}", src),
            Ok(()) => panic!("{:?} should not assemble", src),
        }
    }
}

#[test]
fn errors_carry_one_based_line_numbers() {
    let mut a = Assembler::new();
    assert_eq!(a.assemble("nop\nnop\nbadop\n"), Err((3, AsmError::UnknownMnemonic)));
    let mut a = Assembler::new();
    assert_eq!(a.assemble("frob"), Err((1, AsmError::UnknownMnemonic)));
}

#[test]
fn compare_and_branch_program_runs() {
    // assembling mov/cmp/jeq and running until RUN clears lands at the
    // labeled instruction with ZERO set
    let src = "mov %r1, 5\ncmp %r1, 5\njeq target\nhlt\ntarget:\nhlt\n";
    let bin = assemble(src).unwrap();
    let mut e = Emulator::new();
    for (i, b) in bin.iter().enumerate() {
        e.store_byte(i as u16, *b);
    }
    e.set_run(true);
    let mut steps = 0;
    while e.running() {
        e.cycle();
        steps += 1;
        assert!(steps < 100, "program should halt");
    }
    // the taken branch lands on the hlt at `target` (16), which executes
    // and leaves PC just past itself
    assert_eq!(e.registers.pc, 20);
    assert_eq!(e.registers.r1, 5);
    assert!(get_bit(e.registers.sts, STS_ZERO));
    assert_eq!(steps, 4);
}

#[test]
fn assembled_object_tables() {
    let mut a = Assembler::new();
    a.assemble("top:\nnop\njne top\n.dw tail\ntail:\n").unwrap();
    let o = a.obj;
    assert_eq!(o.labels, vec![(b"top".to_vec(), 0), (b"tail".to_vec(), 10)]);
    // the jne immediate slot sits 2 bytes into its instruction at 4; the
    // .dw placeholder starts at 8
    assert_eq!(o.label_uses, vec![(b"top".to_vec(), 6), (b"tail".to_vec(), 8)]);
    assert_eq!(o.data.len(), 10);
}

#[test]
fn assembled_objects_link() {
    let mut a = Assembler::new();
    a.assemble("jmp entry\n").unwrap();
    let mut b = Assembler::new();
    b.assemble("entry:\nhlt\n").unwrap();
    let mut merged = a.obj;
    merged.extend(b.obj).unwrap();
    let bin = merged.out_bin().unwrap();
    let mut want = enc(Instruction::I(Opcode::Add, Register::PC, Register::R0, 4));
    want.extend(enc(Instruction::I(Opcode::And, Register::STS, Register::STS, 0xfeff)));
    assert_eq!(bin, want);
}
