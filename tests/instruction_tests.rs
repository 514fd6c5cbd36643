use apkdoctor::instructions::{
    decode_insn, decode_insns, FillArrayDataPayload, Ins11n, Ins10x, Ins35c, Ins51l, Instruction,
    PackedSwitchPayload, SparseSwitchPayload, TInstruction,
};
use apkdoctor::DeserializeError;

fn write(insns: &[Instruction]) -> Vec<u8> {
    let mut out = vec![];
    for i in insns {
        i.serialize(&mut out);
    }
    out
}

#[test]
fn decodes_common_shapes() {
    // const/4 v0, #-1; invoke-virtual {v0, v1}, meth@0x1234; return-void
    let bytes = vec![0x12, 0xf0, 0x6e, 0x20, 0x34, 0x12, 0x10, 0x00, 0x0e, 0x00];
    let (insns, end) = decode_insns(&bytes, 0, 5).unwrap();
    assert_eq!(end, 10);
    assert_eq!(
        insns,
        vec![
            Instruction::Ins11n(Ins11n { op: 0x12, a: 0, b: -1 }),
            Instruction::Ins35c(Ins35c { op: 0x6e, a: 2, b: 0x1234, c: 0, d: 1, e: 0, f: 0, g: 0 }),
            Instruction::Ins10x(Ins10x { op: 0x0e }),
        ]
    );
    assert_eq!(insns[1].size(), 6);
    assert_eq!(write(&insns), bytes);
}

#[test]
fn decodes_wide_constant() {
    let bytes = vec![0x18, 0x02, 0x08, 0x07, 0x06, 0x05, 0x04, 0x03, 0x02, 0x81];
    let (insn, end) = decode_insn(&bytes, 0).unwrap();
    assert_eq!(end, 10);
    assert_eq!(insn, Instruction::Ins51l(Ins51l { op: 0x18, a: 2, b: 0x8102_0304_0506_0708u64 as i64 }));
    assert_eq!(write(&[insn]), bytes);
}

#[test]
fn payloads_round_trip() {
    let packed = Instruction::PackedSwitchPayload(PackedSwitchPayload {
        size: 2,
        first_key: 10,
        targets: vec![4, 8],
    });
    let sparse = Instruction::SparseSwitchPayload(SparseSwitchPayload {
        size: 1,
        keys: vec![-5],
        targets: vec![12],
    });
    let fill = Instruction::FillArrayDataPayload(FillArrayDataPayload {
        element_width: 1,
        size: 3,
        data: vec![1, 2, 3],
    });
    assert_eq!(packed.size(), 16);
    assert_eq!(sparse.size(), 12);
    assert_eq!(fill.size(), 12);
    let bytes = write(&[packed, sparse, fill]);
    assert_eq!(bytes.len(), 40);
    assert_eq!(&bytes[0..4], &[0x00, 0x01, 0x02, 0x00]);
    assert_eq!(&bytes[16..20], &[0x00, 0x02, 0x01, 0x00]);
    assert_eq!(&bytes[28..40], &[0x00, 0x03, 0x01, 0x00, 0x03, 0x00, 0x00, 0x00, 1, 2, 3, 0]);
    let (insns, end) = decode_insns(&bytes, 0, 20).unwrap();
    assert_eq!(end, 40);
    assert_eq!(insns.len(), 3);
    assert_eq!(write(&insns), bytes);
}

#[test]
fn rejects_bad_nop_and_overrun() {
    assert_eq!(decode_insn(&[0x00, 0x04], 0), Err(DeserializeError::FormatError));
    assert_eq!(decode_insn(&[0x14, 0x00, 0x01], 0), Err(DeserializeError::IoError));
    // A three-unit instruction where only two units remain.
    assert_eq!(
        decode_insns(&[0x14, 0x00, 0x01, 0x00, 0x00, 0x00], 0, 2),
        Err(DeserializeError::FormatError)
    );
}

#[test]
fn every_opcode_has_a_shape() {
    for op in 1u16..=0xff {
        let bytes = vec![op as u8, 0, 0, 0, 0, 0, 0, 0, 0, 0];
        let (insn, end) = decode_insn(&bytes, 0).unwrap();
        assert_eq!(end, insn.size());
        assert_eq!(write(&[insn]), bytes[..end].to_vec());
    }
}
