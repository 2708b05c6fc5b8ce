use q16::Instruction;
use q16::Opcode;
use q16::Register;
use q16::obj::Obj;
use q16::obj::ObjError;

#[test]
fn empty_object_bytes() {
    let o = Obj::new();
    // magic, then two empty tables: a zero entry count each
    assert_eq!(o.out_obj(), vec![0x51, 0x31, 0x36, 0, 0, 0, 0]);
}

#[test]
fn object_round_trip() {
    let mut o = Obj::new();
    o.insert_label(b"main".to_vec()).unwrap();
    o.insert_label_usage(b"later".to_vec(), 2);
    o.emit_instr(Instruction::I(Opcode::Jeq, Register::R0, Register::R0, 0));
    o.insert_label(b"later".to_vec()).unwrap();
    o.insert_label_usage(b"main".to_vec(), 2);
    o.emit_instr(Instruction::I(Opcode::Jne, Register::R0, Register::R0, 0));

    let labels = o.labels.clone();
    let label_uses = o.label_uses.clone();
    let data = o.data.clone();
    assert_eq!(labels, vec![(b"main".to_vec(), 0), (b"later".to_vec(), 4)]);
    assert_eq!(label_uses, vec![(b"later".to_vec(), 2), (b"main".to_vec(), 6)]);

    let bytes = o.out_obj();
    let o2 = Obj::load(&bytes).unwrap();
    assert_eq!(o2.labels, labels);
    assert_eq!(o2.label_uses, label_uses);
    assert_eq!(o2.data, data);
}

#[test]
fn duplicate_label_within_one_object() {
    let mut o = Obj::new();
    assert!(o.insert_label(b"a".to_vec()).is_ok());
    assert_eq!(o.insert_label(b"a".to_vec()), Err(ObjError::DuplicateLabel));
}

#[test]
fn linking_duplicate_label_fails() {
    let mut a = Obj::new();
    a.insert_label(b"shared".to_vec()).unwrap();
    let mut b = Obj::new();
    b.insert_label(b"shared".to_vec()).unwrap();
    assert_eq!(a.extend(b), Err(ObjError::DuplicateLabel));
}

#[test]
fn linking_undefined_label_fails() {
    // a `.dw someundeclared` records a use with no defining object
    let mut o = Obj::new();
    o.insert_label_usage(b"someundeclared".to_vec(), 0);
    o.data.extend([0, 0]);
    assert_eq!(o.out_bin(), Err(ObjError::UndefinedLabel));
}

#[test]
fn extend_rebases_offsets() {
    let mut a = Obj::new();
    a.insert_label(b"first".to_vec()).unwrap();
    a.data.extend([1, 2, 3, 4]);

    let mut b = Obj::new();
    b.data.extend([5, 6]);
    b.insert_label(b"second".to_vec()).unwrap();
    b.insert_label_usage(b"first".to_vec(), 0);
    b.data.extend([0, 0]);

    a.extend(b).unwrap();
    assert_eq!(a.labels, vec![(b"first".to_vec(), 0), (b"second".to_vec(), 6)]);
    assert_eq!(a.label_uses, vec![(b"first".to_vec(), 6)]);
    assert_eq!(a.data, vec![1, 2, 3, 4, 5, 6, 0, 0]);
}

#[test]
fn out_bin_patches_every_use() {
    let mut o = Obj::new();
    o.data.extend([0, 0, 0xaa, 0, 0]);
    o.insert_label(b"here".to_vec()).unwrap(); // offset 5
    o.label_uses.push((b"here".to_vec(), 0));
    o.label_uses.push((b"here".to_vec(), 3));
    let bin = o.out_bin().unwrap();
    assert_eq!(bin, vec![5, 0, 0xaa, 5, 0]);
}

#[test]
fn out_bin_rejects_out_of_range_patch() {
    let mut o = Obj::new();
    o.insert_label(b"x".to_vec()).unwrap();
    o.data.extend([0]);
    o.label_uses.push((b"x".to_vec(), 0));
    assert_eq!(o.out_bin(), Err(ObjError::PatchOutOfRange));
}

#[test]
fn load_rejects_malformed_bytes() {
    assert_eq!(Obj::load(b"QQ"), Err(ObjError::Truncated));
    assert_eq!(Obj::load(b"Q17\x00\x00\x00\x00"), Err(ObjError::BadMagic));
    assert_eq!(Obj::load(b"Q16"), Err(ObjError::Truncated));
    // count says one entry but the bytes end before it
    assert_eq!(Obj::load(b"Q16\x01\x00ab"), Err(ObjError::Truncated));
    // a name with no offset bytes after its terminator
    assert_eq!(Obj::load(b"Q16\x01\x00ab\x00\x05"), Err(ObjError::Truncated));
}

#[test]
fn error_messages_name_the_failure() {
    assert_eq!(ObjError::DuplicateLabel.msg(), "duplicate label");
    assert_eq!(ObjError::UndefinedLabel.msg(), "undefined label");
    assert_eq!(ObjError::BadMagic.msg(), "invalid magic bytes");
}
