//! The bytecode instruction codec: one record per instruction shape, keyed by the
//! opcode byte, plus the three payload pseudo-instructions introduced by opcode `0x00`.
use crate::decode::{decode_i16, decode_i32, decode_i64, decode_i8, decode_u16, decode_u32, decode_u8};
use crate::dex_structs::{encode_bytes, lemma_occurs_concat, lemma_occurs_prefix};
use crate::encode::{encode_i16, encode_i32, encode_i64, encode_i8, encode_u16, encode_u32, encode_u8};
use crate::wire::{
    le_bytes, lemma_le_bytes_injective, lemma_le_bytes_len, lemma_le_bytes_u8, lemma_pow256_values,
    occurs_at,
};
use crate::DeserializeError;
use vstd::arithmetic::div_mod::lemma_fundamental_div_mod;
use vstd::prelude::*;

verus! {

broadcast use lemma_le_bytes_len;

pub trait TInstruction: Sized {
    /// The instruction's bytes, opcode first.
    spec fn encoding(&self) -> Seq<u8>;

    /// Register nibbles fit in four bits; payload counts match their lists.
    spec fn well_formed(&self) -> bool;

    /// Reads the rest of an instruction whose opcode `op` was read just before `pos`.
    fn deserialize(data: &[u8], pos: usize, op: u8) -> (res: Result<(Self, usize), DeserializeError>)
        ensures
            res matches Ok((v, end)) ==> v.well_formed() && pos < end <= data@.len()
                && v.encoding() == le_bytes(op as int, 1) + data@.subrange(pos as int, end as int),
            res is Err ==> forall|v: Self|
                v.well_formed() && v.encoding()[0] == op ==> !occurs_at(
                    data@,
                    pos as int,
                    #[trigger] v.encoding().drop_first(),
                ),
    ;

    /// Appends the instruction's bytes, opcode first.
    fn serialize(&self, out: &mut Vec<u8>)
        requires
            self.well_formed(),
        ensures
            final(out)@ == old(out)@ + self.encoding(),
    ;

    /// Size of the instruction in bytes.
    fn size(&self) -> (r: usize)
        requires
            self.well_formed(),
            self.encoding().len() <= usize::MAX,
        ensures
            r == self.encoding().len(),
    ;
}

/// The four-bit two's-complement pattern of a value in `-8..8`.
pub open spec fn nibble(v: int) -> int {
    if v < 0 {
        v + 16
    } else {
        v
    }
}

/// A byte is its high nibble times sixteen plus its low nibble.
proof fn lemma_nibbles(b: u8)
    ensures
        (b / 16) * 16 + b % 16 == b,
        b / 16 < 16,
        b % 16 < 16,
{
    lemma_fundamental_div_mod(b as int, 16);
}

#[derive(Debug, Clone, Copy, PartialEq, Eq, Structural)]
pub struct Ins10x {
    pub op: u8,
}

impl TInstruction for Ins10x {
    open spec fn encoding(&self) -> Seq<u8> {
        le_bytes(self.op as int, 1) + le_bytes(0, 1)
    }

    open spec fn well_formed(&self) -> bool {
        true
    }

    fn deserialize(data: &[u8], pos: usize, op: u8) -> (res: Result<(Self, usize), DeserializeError>) {
        let (byte0, p) = match decode_u8(data, pos) {
            Ok(r) => r,
            Err(e) => {
                assert forall|v: Self| v.well_formed() && v.encoding()[0] == op implies !occurs_at(
                    data@,
                    pos as int,
                    #[trigger] v.encoding().drop_first(),
                ) by {
                    assert(v.encoding().drop_first().len() == 1);
                }
                return Err(e);
            },
        };
        if byte0 != 0 {
            assert forall|v: Self| v.well_formed() && v.encoding()[0] == op implies !occurs_at(
                data@,
                pos as int,
                #[trigger] v.encoding().drop_first(),
            ) by {
                if occurs_at(data@, pos as int, v.encoding().drop_first()) {
                    lemma_le_bytes_u8(0);
                    lemma_le_bytes_u8(byte0);
                    assert(v.encoding()[1] == 0);
                    assert(v.encoding().drop_first()[0] == data@.subrange(pos as int, pos + v.encoding().drop_first().len())[0]);
                    assert(data@.subrange(pos as int, pos + 1)[0] == byte0);
                }
            }
            return Err(DeserializeError::FormatError);
        }
        let v = Ins10x { op };
        assert(v.encoding() =~= le_bytes(op as int, 1) + data@.subrange(pos as int, p as int));
        Ok((v, p))
    }

    fn serialize(&self, out: &mut Vec<u8>) {
        encode_u8(out, self.op);
        encode_u8(out, 0);
        assert(out@ =~= old(out)@ + self.encoding());
    }

    fn size(&self) -> (r: usize) {
        2
    }
}

#[derive(Debug, Clone, Copy, PartialEq, Eq, Structural)]
pub struct Ins12x {
    pub op: u8,
    pub a: u8,
    pub b: u8,
}

impl TInstruction for Ins12x {
    open spec fn encoding(&self) -> Seq<u8> {
        le_bytes(self.op as int, 1) + le_bytes(self.b * 16 + self.a, 1)
    }

    open spec fn well_formed(&self) -> bool {
        self.a < 16 && self.b < 16
    }

    fn deserialize(data: &[u8], pos: usize, op: u8) -> (res: Result<(Self, usize), DeserializeError>) {
        let (byte0, p) = match decode_u8(data, pos) {
            Ok(r) => r,
            Err(e) => {
                assert forall|v: Self| v.well_formed() && v.encoding()[0] == op implies !occurs_at(
                    data@,
                    pos as int,
                    #[trigger] v.encoding().drop_first(),
                ) by {
                    assert(v.encoding().drop_first().len() == 1);
                }
                return Err(e);
            },
        };
        let a = byte0 % 16;
        let b = byte0 / 16;
        proof {
            lemma_nibbles(byte0);
        }
        let v = Ins12x { op, a, b };
        assert(v.encoding() =~= le_bytes(op as int, 1) + data@.subrange(pos as int, p as int));
        Ok((v, p))
    }

    fn serialize(&self, out: &mut Vec<u8>) {
        encode_u8(out, self.op);
        encode_u8(out, self.b * 16 + self.a);
        assert(out@ =~= old(out)@ + self.encoding());
    }

    fn size(&self) -> (r: usize) {
        2
    }
}

#[derive(Debug, Clone, Copy, PartialEq, Eq, Structural)]
pub struct Ins11n {
    pub op: u8,
    pub a: u8,
    pub b: i8,
}

impl TInstruction for Ins11n {
    open spec fn encoding(&self) -> Seq<u8> {
        le_bytes(self.op as int, 1) + le_bytes(nibble(self.b as int) * 16 + self.a, 1)
    }

    open spec fn well_formed(&self) -> bool {
        self.a < 16 && -8 <= self.b < 8
    }

    fn deserialize(data: &[u8], pos: usize, op: u8) -> (res: Result<(Self, usize), DeserializeError>) {
        let (byte0, p) = match decode_u8(data, pos) {
            Ok(r) => r,
            Err(e) => {
                assert forall|v: Self| v.well_formed() && v.encoding()[0] == op implies !occurs_at(
                    data@,
                    pos as int,
                    #[trigger] v.encoding().drop_first(),
                ) by {
                    assert(v.encoding().drop_first().len() == 1);
                }
                return Err(e);
            },
        };
        let a = byte0 % 16;
        let b: i8 = if byte0 / 16 >= 8 {
            (byte0 / 16) as i8 - 16
        } else {
            (byte0 / 16) as i8
        };
        proof {
            lemma_nibbles(byte0);
        }
        let v = Ins11n { op, a, b };
        assert(v.encoding() =~= le_bytes(op as int, 1) + data@.subrange(pos as int, p as int));
        Ok((v, p))
    }

    fn serialize(&self, out: &mut Vec<u8>) {
        encode_u8(out, self.op);
        let high: u8 = if self.b < 0 {
            (self.b + 16) as u8
        } else {
            self.b as u8
        };
        encode_u8(out, high * 16 + self.a);
        assert(out@ =~= old(out)@ + self.encoding());
    }

    fn size(&self) -> (r: usize) {
        2
    }
}

#[derive(Debug, Clone, Copy, PartialEq, Eq, Structural)]
pub struct Ins11x {
    pub op: u8,
    pub a: u8,
}

impl TInstruction for Ins11x {
    open spec fn encoding(&self) -> Seq<u8> {
        le_bytes(self.op as int, 1) + le_bytes(self.a as int, 1)
    }

    open spec fn well_formed(&self) -> bool {
        true
    }

    fn deserialize(data: &[u8], pos: usize, op: u8) -> (res: Result<(Self, usize), DeserializeError>) {
        let (a, p) = match decode_u8(data, pos) {
            Ok(r) => r,
            Err(e) => {
                assert forall|v: Self| v.well_formed() && v.encoding()[0] == op implies !occurs_at(
                    data@,
                    pos as int,
                    #[trigger] v.encoding().drop_first(),
                ) by {
                    assert(v.encoding().drop_first().len() == 1);
                }
                return Err(e);
            },
        };
        let v = Ins11x { op, a };
        assert(v.encoding() =~= le_bytes(op as int, 1) + data@.subrange(pos as int, p as int));
        Ok((v, p))
    }

    fn serialize(&self, out: &mut Vec<u8>) {
        encode_u8(out, self.op);
        encode_u8(out, self.a);
        assert(out@ =~= old(out)@ + self.encoding());
    }

    fn size(&self) -> (r: usize) {
        2
    }
}

#[derive(Debug, Clone, Copy, PartialEq, Eq, Structural)]
pub struct Ins10t {
    pub op: u8,
    pub a: i8,
}

impl TInstruction for Ins10t {
    open spec fn encoding(&self) -> Seq<u8> {
        le_bytes(self.op as int, 1) + le_bytes(self.a as int, 1)
    }

    open spec fn well_formed(&self) -> bool {
        true
    }

    fn deserialize(data: &[u8], pos: usize, op: u8) -> (res: Result<(Self, usize), DeserializeError>) {
        let (a, p) = match decode_i8(data, pos) {
            Ok(r) => r,
            Err(e) => {
                assert forall|v: Self| v.well_formed() && v.encoding()[0] == op implies !occurs_at(
                    data@,
                    pos as int,
                    #[trigger] v.encoding().drop_first(),
                ) by {
                    assert(v.encoding().drop_first().len() == 1);
                }
                return Err(e);
            },
        };
        let v = Ins10t { op, a };
        assert(v.encoding() =~= le_bytes(op as int, 1) + data@.subrange(pos as int, p as int));
        Ok((v, p))
    }

    fn serialize(&self, out: &mut Vec<u8>) {
        encode_u8(out, self.op);
        encode_i8(out, self.a);
        assert(out@ =~= old(out)@ + self.encoding());
    }

    fn size(&self) -> (r: usize) {
        2
    }
}

#[derive(Debug, Clone, Copy, PartialEq, Eq, Structural)]
pub struct Ins20t {
    pub op: u8,
    pub a: i16,
}

impl TInstruction for Ins20t {
    open spec fn encoding(&self) -> Seq<u8> {
        le_bytes(self.op as int, 1) + le_bytes(0, 1) + le_bytes(self.a as int, 2)
    }

    open spec fn well_formed(&self) -> bool {
        true
    }

    fn deserialize(data: &[u8], pos: usize, op: u8) -> (res: Result<(Self, usize), DeserializeError>) {
        let (byte0, p) = match decode_u8(data, pos) {
            Ok(r) => r,
            Err(e) => {
                assert forall|v: Self| v.well_formed() && v.encoding()[0] == op implies !occurs_at(
                    data@,
                    pos as int,
                    #[trigger] v.encoding().drop_first(),
                ) by {
                    assert(v.encoding().drop_first().len() == 3);
                }
                return Err(e);
            },
        };
        if byte0 != 0 {
            assert forall|v: Self| v.well_formed() && v.encoding()[0] == op implies !occurs_at(
                data@,
                pos as int,
                #[trigger] v.encoding().drop_first(),
            ) by {
                if occurs_at(data@, pos as int, v.encoding().drop_first()) {
                    lemma_le_bytes_u8(0);
                    lemma_le_bytes_u8(byte0);
                    assert(v.encoding()[1] == 0);
                    assert(v.encoding().drop_first()[0] == data@.subrange(pos as int, pos + v.encoding().drop_first().len())[0]);
                    assert(data@.subrange(pos as int, pos + 1)[0] == byte0);
                }
            }
            return Err(DeserializeError::FormatError);
        }
        let (a, p) = match decode_i16(data, p) {
            Ok(r) => r,
            Err(e) => {
                assert forall|v: Self| v.well_formed() && v.encoding()[0] == op implies !occurs_at(
                    data@,
                    pos as int,
                    #[trigger] v.encoding().drop_first(),
                ) by {
                    assert(v.encoding().drop_first().len() == 3);
                }
                return Err(e);
            },
        };
        proof {
            lemma_occurs_concat(data@, pos as int, le_bytes(byte0 as int, 1), le_bytes(a as int, 2));
        }
        let v = Ins20t { op, a };
        assert(v.encoding() =~= le_bytes(op as int, 1) + data@.subrange(pos as int, p as int));
        Ok((v, p))
    }

    fn serialize(&self, out: &mut Vec<u8>) {
        encode_u8(out, self.op);
        encode_u8(out, 0);
        encode_i16(out, self.a);
        assert(out@ =~= old(out)@ + self.encoding());
    }

    fn size(&self) -> (r: usize) {
        4
    }
}

#[derive(Debug, Clone, Copy, PartialEq, Eq, Structural)]
pub struct Ins20bc {
    pub op: u8,
    pub a: i8,
    pub b: u16,
}

impl TInstruction for Ins20bc {
    open spec fn encoding(&self) -> Seq<u8> {
        le_bytes(self.op as int, 1) + le_bytes(self.a as int, 1) + le_bytes(self.b as int, 2)
    }

    open spec fn well_formed(&self) -> bool {
        true
    }

    fn deserialize(data: &[u8], pos: usize, op: u8) -> (res: Result<(Self, usize), DeserializeError>) {
        let (a, p) = match decode_i8(data, pos) {
            Ok(r) => r,
            Err(e) => {
                assert forall|v: Self| v.well_formed() && v.encoding()[0] == op implies !occurs_at(
                    data@,
                    pos as int,
                    #[trigger] v.encoding().drop_first(),
                ) by {
                    assert(v.encoding().drop_first().len() == 3);
                }
                return Err(e);
            },
        };
        let (b, p) = match decode_u16(data, p) {
            Ok(r) => r,
            Err(e) => {
                assert forall|v: Self| v.well_formed() && v.encoding()[0] == op implies !occurs_at(
                    data@,
                    pos as int,
                    #[trigger] v.encoding().drop_first(),
                ) by {
                    assert(v.encoding().drop_first().len() == 3);
                }
                return Err(e);
            },
        };
        proof {
            lemma_occurs_concat(data@, pos as int, le_bytes(a as int, 1), le_bytes(b as int, 2));
        }
        let v = Ins20bc { op, a, b };
        assert(v.encoding() =~= le_bytes(op as int, 1) + data@.subrange(pos as int, p as int));
        Ok((v, p))
    }

    fn serialize(&self, out: &mut Vec<u8>) {
        encode_u8(out, self.op);
        encode_i8(out, self.a);
        encode_u16(out, self.b);
        assert(out@ =~= old(out)@ + self.encoding());
    }

    fn size(&self) -> (r: usize) {
        4
    }
}

#[derive(Debug, Clone, Copy, PartialEq, Eq, Structural)]
pub struct Ins22x {
    pub op: u8,
    pub a: u8,
    pub b: u16,
}

impl TInstruction for Ins22x {
    open spec fn encoding(&self) -> Seq<u8> {
        le_bytes(self.op as int, 1) + le_bytes(self.a as int, 1) + le_bytes(self.b as int, 2)
    }

    open spec fn well_formed(&self) -> bool {
        true
    }

    fn deserialize(data: &[u8], pos: usize, op: u8) -> (res: Result<(Self, usize), DeserializeError>) {
        let (a, p) = match decode_u8(data, pos) {
            Ok(r) => r,
            Err(e) => {
                assert forall|v: Self| v.well_formed() && v.encoding()[0] == op implies !occurs_at(
                    data@,
                    pos as int,
                    #[trigger] v.encoding().drop_first(),
                ) by {
                    assert(v.encoding().drop_first().len() == 3);
                }
                return Err(e);
            },
        };
        let (b, p) = match decode_u16(data, p) {
            Ok(r) => r,
            Err(e) => {
                assert forall|v: Self| v.well_formed() && v.encoding()[0] == op implies !occurs_at(
                    data@,
                    pos as int,
                    #[trigger] v.encoding().drop_first(),
                ) by {
                    assert(v.encoding().drop_first().len() == 3);
                }
                return Err(e);
            },
        };
        proof {
            lemma_occurs_concat(data@, pos as int, le_bytes(a as int, 1), le_bytes(b as int, 2));
        }
        let v = Ins22x { op, a, b };
        assert(v.encoding() =~= le_bytes(op as int, 1) + data@.subrange(pos as int, p as int));
        Ok((v, p))
    }

    fn serialize(&self, out: &mut Vec<u8>) {
        encode_u8(out, self.op);
        encode_u8(out, self.a);
        encode_u16(out, self.b);
        assert(out@ =~= old(out)@ + self.encoding());
    }

    fn size(&self) -> (r: usize) {
        4
    }
}

#[derive(Debug, Clone, Copy, PartialEq, Eq, Structural)]
pub struct Ins21t {
    pub op: u8,
    pub a: u8,
    pub b: i16,
}

impl TInstruction for Ins21t {
    open spec fn encoding(&self) -> Seq<u8> {
        le_bytes(self.op as int, 1) + le_bytes(self.a as int, 1) + le_bytes(self.b as int, 2)
    }

    open spec fn well_formed(&self) -> bool {
        true
    }

    fn deserialize(data: &[u8], pos: usize, op: u8) -> (res: Result<(Self, usize), DeserializeError>) {
        let (a, p) = match decode_u8(data, pos) {
            Ok(r) => r,
            Err(e) => {
                assert forall|v: Self| v.well_formed() && v.encoding()[0] == op implies !occurs_at(
                    data@,
                    pos as int,
                    #[trigger] v.encoding().drop_first(),
                ) by {
                    assert(v.encoding().drop_first().len() == 3);
                }
                return Err(e);
            },
        };
        let (b, p) = match decode_i16(data, p) {
            Ok(r) => r,
            Err(e) => {
                assert forall|v: Self| v.well_formed() && v.encoding()[0] == op implies !occurs_at(
                    data@,
                    pos as int,
                    #[trigger] v.encoding().drop_first(),
                ) by {
                    assert(v.encoding().drop_first().len() == 3);
                }
                return Err(e);
            },
        };
        proof {
            lemma_occurs_concat(data@, pos as int, le_bytes(a as int, 1), le_bytes(b as int, 2));
        }
        let v = Ins21t { op, a, b };
        assert(v.encoding() =~= le_bytes(op as int, 1) + data@.subrange(pos as int, p as int));
        Ok((v, p))
    }

    fn serialize(&self, out: &mut Vec<u8>) {
        encode_u8(out, self.op);
        encode_u8(out, self.a);
        encode_i16(out, self.b);
        assert(out@ =~= old(out)@ + self.encoding());
    }

    fn size(&self) -> (r: usize) {
        4
    }
}

#[derive(Debug, Clone, Copy, PartialEq, Eq, Structural)]
pub struct Ins21s {
    pub op: u8,
    pub a: u8,
    pub b: i16,
}

impl TInstruction for Ins21s {
    open spec fn encoding(&self) -> Seq<u8> {
        le_bytes(self.op as int, 1) + le_bytes(self.a as int, 1) + le_bytes(self.b as int, 2)
    }

    open spec fn well_formed(&self) -> bool {
        true
    }

    fn deserialize(data: &[u8], pos: usize, op: u8) -> (res: Result<(Self, usize), DeserializeError>) {
        let (a, p) = match decode_u8(data, pos) {
            Ok(r) => r,
            Err(e) => {
                assert forall|v: Self| v.well_formed() && v.encoding()[0] == op implies !occurs_at(
                    data@,
                    pos as int,
                    #[trigger] v.encoding().drop_first(),
                ) by {
                    assert(v.encoding().drop_first().len() == 3);
                }
                return Err(e);
            },
        };
        let (b, p) = match decode_i16(data, p) {
            Ok(r) => r,
            Err(e) => {
                assert forall|v: Self| v.well_formed() && v.encoding()[0] == op implies !occurs_at(
                    data@,
                    pos as int,
                    #[trigger] v.encoding().drop_first(),
                ) by {
                    assert(v.encoding().drop_first().len() == 3);
                }
                return Err(e);
            },
        };
        proof {
            lemma_occurs_concat(data@, pos as int, le_bytes(a as int, 1), le_bytes(b as int, 2));
        }
        let v = Ins21s { op, a, b };
        assert(v.encoding() =~= le_bytes(op as int, 1) + data@.subrange(pos as int, p as int));
        Ok((v, p))
    }

    fn serialize(&self, out: &mut Vec<u8>) {
        encode_u8(out, self.op);
        encode_u8(out, self.a);
        encode_i16(out, self.b);
        assert(out@ =~= old(out)@ + self.encoding());
    }

    fn size(&self) -> (r: usize) {
        4
    }
}

#[derive(Debug, Clone, Copy, PartialEq, Eq, Structural)]
pub struct Ins21h {
    pub op: u8,
    pub a: u8,
    pub b: i16,
}

impl TInstruction for Ins21h {
    open spec fn encoding(&self) -> Seq<u8> {
        le_bytes(self.op as int, 1) + le_bytes(self.a as int, 1) + le_bytes(self.b as int, 2)
    }

    open spec fn well_formed(&self) -> bool {
        true
    }

    fn deserialize(data: &[u8], pos: usize, op: u8) -> (res: Result<(Self, usize), DeserializeError>) {
        let (a, p) = match decode_u8(data, pos) {
            Ok(r) => r,
            Err(e) => {
                assert forall|v: Self| v.well_formed() && v.encoding()[0] == op implies !occurs_at(
                    data@,
                    pos as int,
                    #[trigger] v.encoding().drop_first(),
                ) by {
                    assert(v.encoding().drop_first().len() == 3);
                }
                return Err(e);
            },
        };
        let (b, p) = match decode_i16(data, p) {
            Ok(r) => r,
            Err(e) => {
                assert forall|v: Self| v.well_formed() && v.encoding()[0] == op implies !occurs_at(
                    data@,
                    pos as int,
                    #[trigger] v.encoding().drop_first(),
                ) by {
                    assert(v.encoding().drop_first().len() == 3);
                }
                return Err(e);
            },
        };
        proof {
            lemma_occurs_concat(data@, pos as int, le_bytes(a as int, 1), le_bytes(b as int, 2));
        }
        let v = Ins21h { op, a, b };
        assert(v.encoding() =~= le_bytes(op as int, 1) + data@.subrange(pos as int, p as int));
        Ok((v, p))
    }

    fn serialize(&self, out: &mut Vec<u8>) {
        encode_u8(out, self.op);
        encode_u8(out, self.a);
        encode_i16(out, self.b);
        assert(out@ =~= old(out)@ + self.encoding());
    }

    fn size(&self) -> (r: usize) {
        4
    }
}

#[derive(Debug, Clone, Copy, PartialEq, Eq, Structural)]
pub struct Ins21c {
    pub op: u8,
    pub a: u8,
    pub b: u16,
}

impl TInstruction for Ins21c {
    open spec fn encoding(&self) -> Seq<u8> {
        le_bytes(self.op as int, 1) + le_bytes(self.a as int, 1) + le_bytes(self.b as int, 2)
    }

    open spec fn well_formed(&self) -> bool {
        true
    }

    fn deserialize(data: &[u8], pos: usize, op: u8) -> (res: Result<(Self, usize), DeserializeError>) {
        let (a, p) = match decode_u8(data, pos) {
            Ok(r) => r,
            Err(e) => {
                assert forall|v: Self| v.well_formed() && v.encoding()[0] == op implies !occurs_at(
                    data@,
                    pos as int,
                    #[trigger] v.encoding().drop_first(),
                ) by {
                    assert(v.encoding().drop_first().len() == 3);
                }
                return Err(e);
            },
        };
        let (b, p) = match decode_u16(data, p) {
            Ok(r) => r,
            Err(e) => {
                assert forall|v: Self| v.well_formed() && v.encoding()[0] == op implies !occurs_at(
                    data@,
                    pos as int,
                    #[trigger] v.encoding().drop_first(),
                ) by {
                    assert(v.encoding().drop_first().len() == 3);
                }
                return Err(e);
            },
        };
        proof {
            lemma_occurs_concat(data@, pos as int, le_bytes(a as int, 1), le_bytes(b as int, 2));
        }
        let v = Ins21c { op, a, b };
        assert(v.encoding() =~= le_bytes(op as int, 1) + data@.subrange(pos as int, p as int));
        Ok((v, p))
    }

    fn serialize(&self, out: &mut Vec<u8>) {
        encode_u8(out, self.op);
        encode_u8(out, self.a);
        encode_u16(out, self.b);
        assert(out@ =~= old(out)@ + self.encoding());
    }

    fn size(&self) -> (r: usize) {
        4
    }
}

#[derive(Debug, Clone, Copy, PartialEq, Eq, Structural)]
pub struct Ins23x {
    pub op: u8,
    pub a: u8,
    pub b: u8,
    pub c: u8,
}

impl TInstruction for Ins23x {
    open spec fn encoding(&self) -> Seq<u8> {
        le_bytes(self.op as int, 1) + le_bytes(self.a as int, 1) + le_bytes(self.b as int, 1) + le_bytes(self.c as int, 1)
    }

    open spec fn well_formed(&self) -> bool {
        true
    }

    fn deserialize(data: &[u8], pos: usize, op: u8) -> (res: Result<(Self, usize), DeserializeError>) {
        let (a, p) = match decode_u8(data, pos) {
            Ok(r) => r,
            Err(e) => {
                assert forall|v: Self| v.well_formed() && v.encoding()[0] == op implies !occurs_at(
                    data@,
                    pos as int,
                    #[trigger] v.encoding().drop_first(),
                ) by {
                    assert(v.encoding().drop_first().len() == 3);
                }
                return Err(e);
            },
        };
        let (b, p) = match decode_u8(data, p) {
            Ok(r) => r,
            Err(e) => {
                assert forall|v: Self| v.well_formed() && v.encoding()[0] == op implies !occurs_at(
                    data@,
                    pos as int,
                    #[trigger] v.encoding().drop_first(),
                ) by {
                    assert(v.encoding().drop_first().len() == 3);
                }
                return Err(e);
            },
        };
        let (c, p) = match decode_u8(data, p) {
            Ok(r) => r,
            Err(e) => {
                assert forall|v: Self| v.well_formed() && v.encoding()[0] == op implies !occurs_at(
                    data@,
                    pos as int,
                    #[trigger] v.encoding().drop_first(),
                ) by {
                    assert(v.encoding().drop_first().len() == 3);
                }
                return Err(e);
            },
        };
        proof {
            lemma_occurs_concat(data@, pos as int, le_bytes(a as int, 1), le_bytes(b as int, 1));
            lemma_occurs_concat(data@, pos as int, le_bytes(a as int, 1) + le_bytes(b as int, 1), le_bytes(c as int, 1));
        }
        let v = Ins23x { op, a, b, c };
        assert(v.encoding() =~= le_bytes(op as int, 1) + data@.subrange(pos as int, p as int));
        Ok((v, p))
    }

    fn serialize(&self, out: &mut Vec<u8>) {
        encode_u8(out, self.op);
        encode_u8(out, self.a);
        encode_u8(out, self.b);
        encode_u8(out, self.c);
        assert(out@ =~= old(out)@ + self.encoding());
    }

    fn size(&self) -> (r: usize) {
        4
    }
}

#[derive(Debug, Clone, Copy, PartialEq, Eq, Structural)]
pub struct Ins22b {
    pub op: u8,
    pub a: u8,
    pub b: u8,
    pub c: u8,
}

impl TInstruction for Ins22b {
    open spec fn encoding(&self) -> Seq<u8> {
        le_bytes(self.op as int, 1) + le_bytes(self.a as int, 1) + le_bytes(self.b as int, 1) + le_bytes(self.c as int, 1)
    }

    open spec fn well_formed(&self) -> bool {
        true
    }

    fn deserialize(data: &[u8], pos: usize, op: u8) -> (res: Result<(Self, usize), DeserializeError>) {
        let (a, p) = match decode_u8(data, pos) {
            Ok(r) => r,
            Err(e) => {
                assert forall|v: Self| v.well_formed() && v.encoding()[0] == op implies !occurs_at(
                    data@,
                    pos as int,
                    #[trigger] v.encoding().drop_first(),
                ) by {
                    assert(v.encoding().drop_first().len() == 3);
                }
                return Err(e);
            },
        };
        let (b, p) = match decode_u8(data, p) {
            Ok(r) => r,
            Err(e) => {
                assert forall|v: Self| v.well_formed() && v.encoding()[0] == op implies !occurs_at(
                    data@,
                    pos as int,
                    #[trigger] v.encoding().drop_first(),
                ) by {
                    assert(v.encoding().drop_first().len() == 3);
                }
                return Err(e);
            },
        };
        let (c, p) = match decode_u8(data, p) {
            Ok(r) => r,
            Err(e) => {
                assert forall|v: Self| v.well_formed() && v.encoding()[0] == op implies !occurs_at(
                    data@,
                    pos as int,
                    #[trigger] v.encoding().drop_first(),
                ) by {
                    assert(v.encoding().drop_first().len() == 3);
                }
                return Err(e);
            },
        };
        proof {
            lemma_occurs_concat(data@, pos as int, le_bytes(a as int, 1), le_bytes(b as int, 1));
            lemma_occurs_concat(data@, pos as int, le_bytes(a as int, 1) + le_bytes(b as int, 1), le_bytes(c as int, 1));
        }
        let v = Ins22b { op, a, b, c };
        assert(v.encoding() =~= le_bytes(op as int, 1) + data@.subrange(pos as int, p as int));
        Ok((v, p))
    }

    fn serialize(&self, out: &mut Vec<u8>) {
        encode_u8(out, self.op);
        encode_u8(out, self.a);
        encode_u8(out, self.b);
        encode_u8(out, self.c);
        assert(out@ =~= old(out)@ + self.encoding());
    }

    fn size(&self) -> (r: usize) {
        4
    }
}

#[derive(Debug, Clone, Copy, PartialEq, Eq, Structural)]
pub struct Ins22t {
    pub op: u8,
    pub a: u8,
    pub b: u8,
    pub c: i16,
}

impl TInstruction for Ins22t {
    open spec fn encoding(&self) -> Seq<u8> {
        le_bytes(self.op as int, 1) + le_bytes(self.b * 16 + self.a, 1) + le_bytes(self.c as int, 2)
    }

    open spec fn well_formed(&self) -> bool {
        self.a < 16 && self.b < 16
    }

    fn deserialize(data: &[u8], pos: usize, op: u8) -> (res: Result<(Self, usize), DeserializeError>) {
        let (byte0, p) = match decode_u8(data, pos) {
            Ok(r) => r,
            Err(e) => {
                assert forall|v: Self| v.well_formed() && v.encoding()[0] == op implies !occurs_at(
                    data@,
                    pos as int,
                    #[trigger] v.encoding().drop_first(),
                ) by {
                    assert(v.encoding().drop_first().len() == 3);
                }
                return Err(e);
            },
        };
        let a = byte0 % 16;
        let b = byte0 / 16;
        proof {
            lemma_nibbles(byte0);
        }
        let (c, p) = match decode_i16(data, p) {
            Ok(r) => r,
            Err(e) => {
                assert forall|v: Self| v.well_formed() && v.encoding()[0] == op implies !occurs_at(
                    data@,
                    pos as int,
                    #[trigger] v.encoding().drop_first(),
                ) by {
                    assert(v.encoding().drop_first().len() == 3);
                }
                return Err(e);
            },
        };
        proof {
            lemma_occurs_concat(data@, pos as int, le_bytes(byte0 as int, 1), le_bytes(c as int, 2));
        }
        let v = Ins22t { op, a, b, c };
        assert(v.encoding() =~= le_bytes(op as int, 1) + data@.subrange(pos as int, p as int));
        Ok((v, p))
    }

    fn serialize(&self, out: &mut Vec<u8>) {
        encode_u8(out, self.op);
        encode_u8(out, self.b * 16 + self.a);
        encode_i16(out, self.c);
        assert(out@ =~= old(out)@ + self.encoding());
    }

    fn size(&self) -> (r: usize) {
        4
    }
}

#[derive(Debug, Clone, Copy, PartialEq, Eq, Structural)]
pub struct Ins22s {
    pub op: u8,
    pub a: u8,
    pub b: u8,
    pub c: i16,
}

impl TInstruction for Ins22s {
    open spec fn encoding(&self) -> Seq<u8> {
        le_bytes(self.op as int, 1) + le_bytes(self.b * 16 + self.a, 1) + le_bytes(self.c as int, 2)
    }

    open spec fn well_formed(&self) -> bool {
        self.a < 16 && self.b < 16
    }

    fn deserialize(data: &[u8], pos: usize, op: u8) -> (res: Result<(Self, usize), DeserializeError>) {
        let (byte0, p) = match decode_u8(data, pos) {
            Ok(r) => r,
            Err(e) => {
                assert forall|v: Self| v.well_formed() && v.encoding()[0] == op implies !occurs_at(
                    data@,
                    pos as int,
                    #[trigger] v.encoding().drop_first(),
                ) by {
                    assert(v.encoding().drop_first().len() == 3);
                }
                return Err(e);
            },
        };
        let a = byte0 % 16;
        let b = byte0 / 16;
        proof {
            lemma_nibbles(byte0);
        }
        let (c, p) = match decode_i16(data, p) {
            Ok(r) => r,
            Err(e) => {
                assert forall|v: Self| v.well_formed() && v.encoding()[0] == op implies !occurs_at(
                    data@,
                    pos as int,
                    #[trigger] v.encoding().drop_first(),
                ) by {
                    assert(v.encoding().drop_first().len() == 3);
                }
                return Err(e);
            },
        };
        proof {
            lemma_occurs_concat(data@, pos as int, le_bytes(byte0 as int, 1), le_bytes(c as int, 2));
        }
        let v = Ins22s { op, a, b, c };
        assert(v.encoding() =~= le_bytes(op as int, 1) + data@.subrange(pos as int, p as int));
        Ok((v, p))
    }

    fn serialize(&self, out: &mut Vec<u8>) {
        encode_u8(out, self.op);
        encode_u8(out, self.b * 16 + self.a);
        encode_i16(out, self.c);
        assert(out@ =~= old(out)@ + self.encoding());
    }

    fn size(&self) -> (r: usize) {
        4
    }
}

#[derive(Debug, Clone, Copy, PartialEq, Eq, Structural)]
pub struct Ins22c {
    pub op: u8,
    pub a: u8,
    pub b: u8,
    pub c: u16,
}

impl TInstruction for Ins22c {
    open spec fn encoding(&self) -> Seq<u8> {
        le_bytes(self.op as int, 1) + le_bytes(self.b * 16 + self.a, 1) + le_bytes(self.c as int, 2)
    }

    open spec fn well_formed(&self) -> bool {
        self.a < 16 && self.b < 16
    }

    fn deserialize(data: &[u8], pos: usize, op: u8) -> (res: Result<(Self, usize), DeserializeError>) {
        let (byte0, p) = match decode_u8(data, pos) {
            Ok(r) => r,
            Err(e) => {
                assert forall|v: Self| v.well_formed() && v.encoding()[0] == op implies !occurs_at(
                    data@,
                    pos as int,
                    #[trigger] v.encoding().drop_first(),
                ) by {
                    assert(v.encoding().drop_first().len() == 3);
                }
                return Err(e);
            },
        };
        let a = byte0 % 16;
        let b = byte0 / 16;
        proof {
            lemma_nibbles(byte0);
        }
        let (c, p) = match decode_u16(data, p) {
            Ok(r) => r,
            Err(e) => {
                assert forall|v: Self| v.well_formed() && v.encoding()[0] == op implies !occurs_at(
                    data@,
                    pos as int,
                    #[trigger] v.encoding().drop_first(),
                ) by {
                    assert(v.encoding().drop_first().len() == 3);
                }
                return Err(e);
            },
        };
        proof {
            lemma_occurs_concat(data@, pos as int, le_bytes(byte0 as int, 1), le_bytes(c as int, 2));
        }
        let v = Ins22c { op, a, b, c };
        assert(v.encoding() =~= le_bytes(op as int, 1) + data@.subrange(pos as int, p as int));
        Ok((v, p))
    }

    fn serialize(&self, out: &mut Vec<u8>) {
        encode_u8(out, self.op);
        encode_u8(out, self.b * 16 + self.a);
        encode_u16(out, self.c);
        assert(out@ =~= old(out)@ + self.encoding());
    }

    fn size(&self) -> (r: usize) {
        4
    }
}

#[derive(Debug, Clone, Copy, PartialEq, Eq, Structural)]
pub struct Ins22cs {
    pub op: u8,
    pub a: u8,
    pub b: u8,
    pub c: u16,
}

impl TInstruction for Ins22cs {
    open spec fn encoding(&self) -> Seq<u8> {
        le_bytes(self.op as int, 1) + le_bytes(self.b * 16 + self.a, 1) + le_bytes(self.c as int, 2)
    }

    open spec fn well_formed(&self) -> bool {
        self.a < 16 && self.b < 16
    }

    fn deserialize(data: &[u8], pos: usize, op: u8) -> (res: Result<(Self, usize), DeserializeError>) {
        let (byte0, p) = match decode_u8(data, pos) {
            Ok(r) => r,
            Err(e) => {
                assert forall|v: Self| v.well_formed() && v.encoding()[0] == op implies !occurs_at(
                    data@,
                    pos as int,
                    #[trigger] v.encoding().drop_first(),
                ) by {
                    assert(v.encoding().drop_first().len() == 3);
                }
                return Err(e);
            },
        };
        let a = byte0 % 16;
        let b = byte0 / 16;
        proof {
            lemma_nibbles(byte0);
        }
        let (c, p) = match decode_u16(data, p) {
            Ok(r) => r,
            Err(e) => {
                assert forall|v: Self| v.well_formed() && v.encoding()[0] == op implies !occurs_at(
                    data@,
                    pos as int,
                    #[trigger] v.encoding().drop_first(),
                ) by {
                    assert(v.encoding().drop_first().len() == 3);
                }
                return Err(e);
            },
        };
        proof {
            lemma_occurs_concat(data@, pos as int, le_bytes(byte0 as int, 1), le_bytes(c as int, 2));
        }
        let v = Ins22cs { op, a, b, c };
        assert(v.encoding() =~= le_bytes(op as int, 1) + data@.subrange(pos as int, p as int));
        Ok((v, p))
    }

    fn serialize(&self, out: &mut Vec<u8>) {
        encode_u8(out, self.op);
        encode_u8(out, self.b * 16 + self.a);
        encode_u16(out, self.c);
        assert(out@ =~= old(out)@ + self.encoding());
    }

    fn size(&self) -> (r: usize) {
        4
    }
}

#[derive(Debug, Clone, Copy, PartialEq, Eq, Structural)]
pub struct Ins30t {
    pub op: u8,
    pub a: i32,
}

impl TInstruction for Ins30t {
    open spec fn encoding(&self) -> Seq<u8> {
        le_bytes(self.op as int, 1) + le_bytes(0, 1) + le_bytes(self.a as int, 4)
    }

    open spec fn well_formed(&self) -> bool {
        true
    }

    fn deserialize(data: &[u8], pos: usize, op: u8) -> (res: Result<(Self, usize), DeserializeError>) {
        let (byte0, p) = match decode_u8(data, pos) {
            Ok(r) => r,
            Err(e) => {
                assert forall|v: Self| v.well_formed() && v.encoding()[0] == op implies !occurs_at(
                    data@,
                    pos as int,
                    #[trigger] v.encoding().drop_first(),
                ) by {
                    assert(v.encoding().drop_first().len() == 5);
                }
                return Err(e);
            },
        };
        if byte0 != 0 {
            assert forall|v: Self| v.well_formed() && v.encoding()[0] == op implies !occurs_at(
                data@,
                pos as int,
                #[trigger] v.encoding().drop_first(),
            ) by {
                if occurs_at(data@, pos as int, v.encoding().drop_first()) {
                    lemma_le_bytes_u8(0);
                    lemma_le_bytes_u8(byte0);
                    assert(v.encoding()[1] == 0);
                    assert(v.encoding().drop_first()[0] == data@.subrange(pos as int, pos + v.encoding().drop_first().len())[0]);
                    assert(data@.subrange(pos as int, pos + 1)[0] == byte0);
                }
            }
            return Err(DeserializeError::FormatError);
        }
        let (a, p) = match decode_i32(data, p) {
            Ok(r) => r,
            Err(e) => {
                assert forall|v: Self| v.well_formed() && v.encoding()[0] == op implies !occurs_at(
                    data@,
                    pos as int,
                    #[trigger] v.encoding().drop_first(),
                ) by {
                    assert(v.encoding().drop_first().len() == 5);
                }
                return Err(e);
            },
        };
        proof {
            lemma_occurs_concat(data@, pos as int, le_bytes(byte0 as int, 1), le_bytes(a as int, 4));
        }
        let v = Ins30t { op, a };
        assert(v.encoding() =~= le_bytes(op as int, 1) + data@.subrange(pos as int, p as int));
        Ok((v, p))
    }

    fn serialize(&self, out: &mut Vec<u8>) {
        encode_u8(out, self.op);
        encode_u8(out, 0);
        encode_i32(out, self.a);
        assert(out@ =~= old(out)@ + self.encoding());
    }

    fn size(&self) -> (r: usize) {
        6
    }
}

#[derive(Debug, Clone, Copy, PartialEq, Eq, Structural)]
pub struct Ins32x {
    pub op: u8,
    pub a: u16,
    pub b: u16,
}

impl TInstruction for Ins32x {
    open spec fn encoding(&self) -> Seq<u8> {
        le_bytes(self.op as int, 1) + le_bytes(0, 1) + le_bytes(self.a as int, 2) + le_bytes(self.b as int, 2)
    }

    open spec fn well_formed(&self) -> bool {
        true
    }

    fn deserialize(data: &[u8], pos: usize, op: u8) -> (res: Result<(Self, usize), DeserializeError>) {
        let (byte0, p) = match decode_u8(data, pos) {
            Ok(r) => r,
            Err(e) => {
                assert forall|v: Self| v.well_formed() && v.encoding()[0] == op implies !occurs_at(
                    data@,
                    pos as int,
                    #[trigger] v.encoding().drop_first(),
                ) by {
                    assert(v.encoding().drop_first().len() == 5);
                }
                return Err(e);
            },
        };
        if byte0 != 0 {
            assert forall|v: Self| v.well_formed() && v.encoding()[0] == op implies !occurs_at(
                data@,
                pos as int,
                #[trigger] v.encoding().drop_first(),
            ) by {
                if occurs_at(data@, pos as int, v.encoding().drop_first()) {
                    lemma_le_bytes_u8(0);
                    lemma_le_bytes_u8(byte0);
                    assert(v.encoding()[1] == 0);
                    assert(v.encoding().drop_first()[0] == data@.subrange(pos as int, pos + v.encoding().drop_first().len())[0]);
                    assert(data@.subrange(pos as int, pos + 1)[0] == byte0);
                }
            }
            return Err(DeserializeError::FormatError);
        }
        let (a, p) = match decode_u16(data, p) {
            Ok(r) => r,
            Err(e) => {
                assert forall|v: Self| v.well_formed() && v.encoding()[0] == op implies !occurs_at(
                    data@,
                    pos as int,
                    #[trigger] v.encoding().drop_first(),
                ) by {
                    assert(v.encoding().drop_first().len() == 5);
                }
                return Err(e);
            },
        };
        let (b, p) = match decode_u16(data, p) {
            Ok(r) => r,
            Err(e) => {
                assert forall|v: Self| v.well_formed() && v.encoding()[0] == op implies !occurs_at(
                    data@,
                    pos as int,
                    #[trigger] v.encoding().drop_first(),
                ) by {
                    assert(v.encoding().drop_first().len() == 5);
                }
                return Err(e);
            },
        };
        proof {
            lemma_occurs_concat(data@, pos as int, le_bytes(byte0 as int, 1), le_bytes(a as int, 2));
            lemma_occurs_concat(data@, pos as int, le_bytes(byte0 as int, 1) + le_bytes(a as int, 2), le_bytes(b as int, 2));
        }
        let v = Ins32x { op, a, b };
        assert(v.encoding() =~= le_bytes(op as int, 1) + data@.subrange(pos as int, p as int));
        Ok((v, p))
    }

    fn serialize(&self, out: &mut Vec<u8>) {
        encode_u8(out, self.op);
        encode_u8(out, 0);
        encode_u16(out, self.a);
        encode_u16(out, self.b);
        assert(out@ =~= old(out)@ + self.encoding());
    }

    fn size(&self) -> (r: usize) {
        6
    }
}

#[derive(Debug, Clone, Copy, PartialEq, Eq, Structural)]
pub struct Ins31i {
    pub op: u8,
    pub a: u8,
    pub b: i32,
}

impl TInstruction for Ins31i {
    open spec fn encoding(&self) -> Seq<u8> {
        le_bytes(self.op as int, 1) + le_bytes(self.a as int, 1) + le_bytes(self.b as int, 4)
    }

    open spec fn well_formed(&self) -> bool {
        true
    }

    fn deserialize(data: &[u8], pos: usize, op: u8) -> (res: Result<(Self, usize), DeserializeError>) {
        let (a, p) = match decode_u8(data, pos) {
            Ok(r) => r,
            Err(e) => {
                assert forall|v: Self| v.well_formed() && v.encoding()[0] == op implies !occurs_at(
                    data@,
                    pos as int,
                    #[trigger] v.encoding().drop_first(),
                ) by {
                    assert(v.encoding().drop_first().len() == 5);
                }
                return Err(e);
            },
        };
        let (b, p) = match decode_i32(data, p) {
            Ok(r) => r,
            Err(e) => {
                assert forall|v: Self| v.well_formed() && v.encoding()[0] == op implies !occurs_at(
                    data@,
                    pos as int,
                    #[trigger] v.encoding().drop_first(),
                ) by {
                    assert(v.encoding().drop_first().len() == 5);
                }
                return Err(e);
            },
        };
        proof {
            lemma_occurs_concat(data@, pos as int, le_bytes(a as int, 1), le_bytes(b as int, 4));
        }
        let v = Ins31i { op, a, b };
        assert(v.encoding() =~= le_bytes(op as int, 1) + data@.subrange(pos as int, p as int));
        Ok((v, p))
    }

    fn serialize(&self, out: &mut Vec<u8>) {
        encode_u8(out, self.op);
        encode_u8(out, self.a);
        encode_i32(out, self.b);
        assert(out@ =~= old(out)@ + self.encoding());
    }

    fn size(&self) -> (r: usize) {
        6
    }
}

#[derive(Debug, Clone, Copy, PartialEq, Eq, Structural)]
pub struct Ins31t {
    pub op: u8,
    pub a: u8,
    pub b: i32,
}

impl TInstruction for Ins31t {
    open spec fn encoding(&self) -> Seq<u8> {
        le_bytes(self.op as int, 1) + le_bytes(self.a as int, 1) + le_bytes(self.b as int, 4)
    }

    open spec fn well_formed(&self) -> bool {
        true
    }

    fn deserialize(data: &[u8], pos: usize, op: u8) -> (res: Result<(Self, usize), DeserializeError>) {
        let (a, p) = match decode_u8(data, pos) {
            Ok(r) => r,
            Err(e) => {
                assert forall|v: Self| v.well_formed() && v.encoding()[0] == op implies !occurs_at(
                    data@,
                    pos as int,
                    #[trigger] v.encoding().drop_first(),
                ) by {
                    assert(v.encoding().drop_first().len() == 5);
                }
                return Err(e);
            },
        };
        let (b, p) = match decode_i32(data, p) {
            Ok(r) => r,
            Err(e) => {
                assert forall|v: Self| v.well_formed() && v.encoding()[0] == op implies !occurs_at(
                    data@,
                    pos as int,
                    #[trigger] v.encoding().drop_first(),
                ) by {
                    assert(v.encoding().drop_first().len() == 5);
                }
                return Err(e);
            },
        };
        proof {
            lemma_occurs_concat(data@, pos as int, le_bytes(a as int, 1), le_bytes(b as int, 4));
        }
        let v = Ins31t { op, a, b };
        assert(v.encoding() =~= le_bytes(op as int, 1) + data@.subrange(pos as int, p as int));
        Ok((v, p))
    }

    fn serialize(&self, out: &mut Vec<u8>) {
        encode_u8(out, self.op);
        encode_u8(out, self.a);
        encode_i32(out, self.b);
        assert(out@ =~= old(out)@ + self.encoding());
    }

    fn size(&self) -> (r: usize) {
        6
    }
}

#[derive(Debug, Clone, Copy, PartialEq, Eq, Structural)]
pub struct Ins31c {
    pub op: u8,
    pub a: u8,
    pub b: u32,
}

impl TInstruction for Ins31c {
    open spec fn encoding(&self) -> Seq<u8> {
        le_bytes(self.op as int, 1) + le_bytes(self.a as int, 1) + le_bytes(self.b as int, 4)
    }

    open spec fn well_formed(&self) -> bool {
        true
    }

    fn deserialize(data: &[u8], pos: usize, op: u8) -> (res: Result<(Self, usize), DeserializeError>) {
        let (a, p) = match decode_u8(data, pos) {
            Ok(r) => r,
            Err(e) => {
                assert forall|v: Self| v.well_formed() && v.encoding()[0] == op implies !occurs_at(
                    data@,
                    pos as int,
                    #[trigger] v.encoding().drop_first(),
                ) by {
                    assert(v.encoding().drop_first().len() == 5);
                }
                return Err(e);
            },
        };
        let (b, p) = match decode_u32(data, p) {
            Ok(r) => r,
            Err(e) => {
                assert forall|v: Self| v.well_formed() && v.encoding()[0] == op implies !occurs_at(
                    data@,
                    pos as int,
                    #[trigger] v.encoding().drop_first(),
                ) by {
                    assert(v.encoding().drop_first().len() == 5);
                }
                return Err(e);
            },
        };
        proof {
            lemma_occurs_concat(data@, pos as int, le_bytes(a as int, 1), le_bytes(b as int, 4));
        }
        let v = Ins31c { op, a, b };
        assert(v.encoding() =~= le_bytes(op as int, 1) + data@.subrange(pos as int, p as int));
        Ok((v, p))
    }

    fn serialize(&self, out: &mut Vec<u8>) {
        encode_u8(out, self.op);
        encode_u8(out, self.a);
        encode_u32(out, self.b);
        assert(out@ =~= old(out)@ + self.encoding());
    }

    fn size(&self) -> (r: usize) {
        6
    }
}

#[derive(Debug, Clone, Copy, PartialEq, Eq, Structural)]
pub struct Ins35c {
    pub op: u8,
    pub a: u8,
    pub b: u16,
    pub c: u8,
    pub d: u8,
    pub e: u8,
    pub f: u8,
    pub g: u8,
}

impl TInstruction for Ins35c {
    open spec fn encoding(&self) -> Seq<u8> {
        le_bytes(self.op as int, 1) + le_bytes(self.a * 16 + self.g, 1) + le_bytes(self.b as int, 2) + le_bytes(self.d * 16 + self.c, 1) + le_bytes(self.f * 16 + self.e, 1)
    }

    open spec fn well_formed(&self) -> bool {
        self.g < 16 && self.a < 16 && self.c < 16 && self.d < 16 && self.e < 16 && self.f < 16
    }

    fn deserialize(data: &[u8], pos: usize, op: u8) -> (res: Result<(Self, usize), DeserializeError>) {
        let (byte0, p) = match decode_u8(data, pos) {
            Ok(r) => r,
            Err(e) => {
                assert forall|v: Self| v.well_formed() && v.encoding()[0] == op implies !occurs_at(
                    data@,
                    pos as int,
                    #[trigger] v.encoding().drop_first(),
                ) by {
                    assert(v.encoding().drop_first().len() == 5);
                }
                return Err(e);
            },
        };
        let g = byte0 % 16;
        let a = byte0 / 16;
        proof {
            lemma_nibbles(byte0);
        }
        let (b, p) = match decode_u16(data, p) {
            Ok(r) => r,
            Err(e) => {
                assert forall|v: Self| v.well_formed() && v.encoding()[0] == op implies !occurs_at(
                    data@,
                    pos as int,
                    #[trigger] v.encoding().drop_first(),
                ) by {
                    assert(v.encoding().drop_first().len() == 5);
                }
                return Err(e);
            },
        };
        let (byte2, p) = match decode_u8(data, p) {
            Ok(r) => r,
            Err(e) => {
                assert forall|v: Self| v.well_formed() && v.encoding()[0] == op implies !occurs_at(
                    data@,
                    pos as int,
                    #[trigger] v.encoding().drop_first(),
                ) by {
                    assert(v.encoding().drop_first().len() == 5);
                }
                return Err(e);
            },
        };
        let c = byte2 % 16;
        let d = byte2 / 16;
        proof {
            lemma_nibbles(byte2);
        }
        let (byte3, p) = match decode_u8(data, p) {
            Ok(r) => r,
            Err(e) => {
                assert forall|v: Self| v.well_formed() && v.encoding()[0] == op implies !occurs_at(
                    data@,
                    pos as int,
                    #[trigger] v.encoding().drop_first(),
                ) by {
                    assert(v.encoding().drop_first().len() == 5);
                }
                return Err(e);
            },
        };
        let e = byte3 % 16;
        let f = byte3 / 16;
        proof {
            lemma_nibbles(byte3);
        }
        proof {
            lemma_occurs_concat(data@, pos as int, le_bytes(byte0 as int, 1), le_bytes(b as int, 2));
            lemma_occurs_concat(data@, pos as int, le_bytes(byte0 as int, 1) + le_bytes(b as int, 2), le_bytes(byte2 as int, 1));
            lemma_occurs_concat(data@, pos as int, le_bytes(byte0 as int, 1) + le_bytes(b as int, 2) + le_bytes(byte2 as int, 1), le_bytes(byte3 as int, 1));
        }
        let v = Ins35c { op, a, b, c, d, e, f, g };
        assert(v.encoding() =~= le_bytes(op as int, 1) + data@.subrange(pos as int, p as int));
        Ok((v, p))
    }

    fn serialize(&self, out: &mut Vec<u8>) {
        encode_u8(out, self.op);
        encode_u8(out, self.a * 16 + self.g);
        encode_u16(out, self.b);
        encode_u8(out, self.d * 16 + self.c);
        encode_u8(out, self.f * 16 + self.e);
        assert(out@ =~= old(out)@ + self.encoding());
    }

    fn size(&self) -> (r: usize) {
        6
    }
}

#[derive(Debug, Clone, Copy, PartialEq, Eq, Structural)]
pub struct Ins35ms {
    pub op: u8,
    pub a: u8,
    pub b: u16,
    pub c: u8,
    pub d: u8,
    pub e: u8,
    pub f: u8,
    pub g: u8,
}

impl TInstruction for Ins35ms {
    open spec fn encoding(&self) -> Seq<u8> {
        le_bytes(self.op as int, 1) + le_bytes(self.a * 16 + self.g, 1) + le_bytes(self.b as int, 2) + le_bytes(self.d * 16 + self.c, 1) + le_bytes(self.f * 16 + self.e, 1)
    }

    open spec fn well_formed(&self) -> bool {
        self.g < 16 && self.a < 16 && self.c < 16 && self.d < 16 && self.e < 16 && self.f < 16
    }

    fn deserialize(data: &[u8], pos: usize, op: u8) -> (res: Result<(Self, usize), DeserializeError>) {
        let (byte0, p) = match decode_u8(data, pos) {
            Ok(r) => r,
            Err(e) => {
                assert forall|v: Self| v.well_formed() && v.encoding()[0] == op implies !occurs_at(
                    data@,
                    pos as int,
                    #[trigger] v.encoding().drop_first(),
                ) by {
                    assert(v.encoding().drop_first().len() == 5);
                }
                return Err(e);
            },
        };
        let g = byte0 % 16;
        let a = byte0 / 16;
        proof {
            lemma_nibbles(byte0);
        }
        let (b, p) = match decode_u16(data, p) {
            Ok(r) => r,
            Err(e) => {
                assert forall|v: Self| v.well_formed() && v.encoding()[0] == op implies !occurs_at(
                    data@,
                    pos as int,
                    #[trigger] v.encoding().drop_first(),
                ) by {
                    assert(v.encoding().drop_first().len() == 5);
                }
                return Err(e);
            },
        };
        let (byte2, p) = match decode_u8(data, p) {
            Ok(r) => r,
            Err(e) => {
                assert forall|v: Self| v.well_formed() && v.encoding()[0] == op implies !occurs_at(
                    data@,
                    pos as int,
                    #[trigger] v.encoding().drop_first(),
                ) by {
                    assert(v.encoding().drop_first().len() == 5);
                }
                return Err(e);
            },
        };
        let c = byte2 % 16;
        let d = byte2 / 16;
        proof {
            lemma_nibbles(byte2);
        }
        let (byte3, p) = match decode_u8(data, p) {
            Ok(r) => r,
            Err(e) => {
                assert forall|v: Self| v.well_formed() && v.encoding()[0] == op implies !occurs_at(
                    data@,
                    pos as int,
                    #[trigger] v.encoding().drop_first(),
                ) by {
                    assert(v.encoding().drop_first().len() == 5);
                }
                return Err(e);
            },
        };
        let e = byte3 % 16;
        let f = byte3 / 16;
        proof {
            lemma_nibbles(byte3);
        }
        proof {
            lemma_occurs_concat(data@, pos as int, le_bytes(byte0 as int, 1), le_bytes(b as int, 2));
            lemma_occurs_concat(data@, pos as int, le_bytes(byte0 as int, 1) + le_bytes(b as int, 2), le_bytes(byte2 as int, 1));
            lemma_occurs_concat(data@, pos as int, le_bytes(byte0 as int, 1) + le_bytes(b as int, 2) + le_bytes(byte2 as int, 1), le_bytes(byte3 as int, 1));
        }
        let v = Ins35ms { op, a, b, c, d, e, f, g };
        assert(v.encoding() =~= le_bytes(op as int, 1) + data@.subrange(pos as int, p as int));
        Ok((v, p))
    }

    fn serialize(&self, out: &mut Vec<u8>) {
        encode_u8(out, self.op);
        encode_u8(out, self.a * 16 + self.g);
        encode_u16(out, self.b);
        encode_u8(out, self.d * 16 + self.c);
        encode_u8(out, self.f * 16 + self.e);
        assert(out@ =~= old(out)@ + self.encoding());
    }

    fn size(&self) -> (r: usize) {
        6
    }
}

#[derive(Debug, Clone, Copy, PartialEq, Eq, Structural)]
pub struct Ins35mi {
    pub op: u8,
    pub a: u8,
    pub b: u16,
    pub c: u8,
    pub d: u8,
    pub e: u8,
    pub f: u8,
    pub g: u8,
}

impl TInstruction for Ins35mi {
    open spec fn encoding(&self) -> Seq<u8> {
        le_bytes(self.op as int, 1) + le_bytes(self.a * 16 + self.g, 1) + le_bytes(self.b as int, 2) + le_bytes(self.d * 16 + self.c, 1) + le_bytes(self.f * 16 + self.e, 1)
    }

    open spec fn well_formed(&self) -> bool {
        self.g < 16 && self.a < 16 && self.c < 16 && self.d < 16 && self.e < 16 && self.f < 16
    }

    fn deserialize(data: &[u8], pos: usize, op: u8) -> (res: Result<(Self, usize), DeserializeError>) {
        let (byte0, p) = match decode_u8(data, pos) {
            Ok(r) => r,
            Err(e) => {
                assert forall|v: Self| v.well_formed() && v.encoding()[0] == op implies !occurs_at(
                    data@,
                    pos as int,
                    #[trigger] v.encoding().drop_first(),
                ) by {
                    assert(v.encoding().drop_first().len() == 5);
                }
                return Err(e);
            },
        };
        let g = byte0 % 16;
        let a = byte0 / 16;
        proof {
            lemma_nibbles(byte0);
        }
        let (b, p) = match decode_u16(data, p) {
            Ok(r) => r,
            Err(e) => {
                assert forall|v: Self| v.well_formed() && v.encoding()[0] == op implies !occurs_at(
                    data@,
                    pos as int,
                    #[trigger] v.encoding().drop_first(),
                ) by {
                    assert(v.encoding().drop_first().len() == 5);
                }
                return Err(e);
            },
        };
        let (byte2, p) = match decode_u8(data, p) {
            Ok(r) => r,
            Err(e) => {
                assert forall|v: Self| v.well_formed() && v.encoding()[0] == op implies !occurs_at(
                    data@,
                    pos as int,
                    #[trigger] v.encoding().drop_first(),
                ) by {
                    assert(v.encoding().drop_first().len() == 5);
                }
                return Err(e);
            },
        };
        let c = byte2 % 16;
        let d = byte2 / 16;
        proof {
            lemma_nibbles(byte2);
        }
        let (byte3, p) = match decode_u8(data, p) {
            Ok(r) => r,
            Err(e) => {
                assert forall|v: Self| v.well_formed() && v.encoding()[0] == op implies !occurs_at(
                    data@,
                    pos as int,
                    #[trigger] v.encoding().drop_first(),
                ) by {
                    assert(v.encoding().drop_first().len() == 5);
                }
                return Err(e);
            },
        };
        let e = byte3 % 16;
        let f = byte3 / 16;
        proof {
            lemma_nibbles(byte3);
        }
        proof {
            lemma_occurs_concat(data@, pos as int, le_bytes(byte0 as int, 1), le_bytes(b as int, 2));
            lemma_occurs_concat(data@, pos as int, le_bytes(byte0 as int, 1) + le_bytes(b as int, 2), le_bytes(byte2 as int, 1));
            lemma_occurs_concat(data@, pos as int, le_bytes(byte0 as int, 1) + le_bytes(b as int, 2) + le_bytes(byte2 as int, 1), le_bytes(byte3 as int, 1));
        }
        let v = Ins35mi { op, a, b, c, d, e, f, g };
        assert(v.encoding() =~= le_bytes(op as int, 1) + data@.subrange(pos as int, p as int));
        Ok((v, p))
    }

    fn serialize(&self, out: &mut Vec<u8>) {
        encode_u8(out, self.op);
        encode_u8(out, self.a * 16 + self.g);
        encode_u16(out, self.b);
        encode_u8(out, self.d * 16 + self.c);
        encode_u8(out, self.f * 16 + self.e);
        assert(out@ =~= old(out)@ + self.encoding());
    }

    fn size(&self) -> (r: usize) {
        6
    }
}

#[derive(Debug, Clone, Copy, PartialEq, Eq, Structural)]
pub struct Ins3rc {
    pub op: u8,
    pub a: u8,
    pub b: u16,
    pub c: u16,
}

impl TInstruction for Ins3rc {
    open spec fn encoding(&self) -> Seq<u8> {
        le_bytes(self.op as int, 1) + le_bytes(self.a as int, 1) + le_bytes(self.b as int, 2) + le_bytes(self.c as int, 2)
    }

    open spec fn well_formed(&self) -> bool {
        true
    }

    fn deserialize(data: &[u8], pos: usize, op: u8) -> (res: Result<(Self, usize), DeserializeError>) {
        let (a, p) = match decode_u8(data, pos) {
            Ok(r) => r,
            Err(e) => {
                assert forall|v: Self| v.well_formed() && v.encoding()[0] == op implies !occurs_at(
                    data@,
                    pos as int,
                    #[trigger] v.encoding().drop_first(),
                ) by {
                    assert(v.encoding().drop_first().len() == 5);
                }
                return Err(e);
            },
        };
        let (b, p) = match decode_u16(data, p) {
            Ok(r) => r,
            Err(e) => {
                assert forall|v: Self| v.well_formed() && v.encoding()[0] == op implies !occurs_at(
                    data@,
                    pos as int,
                    #[trigger] v.encoding().drop_first(),
                ) by {
                    assert(v.encoding().drop_first().len() == 5);
                }
                return Err(e);
            },
        };
        let (c, p) = match decode_u16(data, p) {
            Ok(r) => r,
            Err(e) => {
                assert forall|v: Self| v.well_formed() && v.encoding()[0] == op implies !occurs_at(
                    data@,
                    pos as int,
                    #[trigger] v.encoding().drop_first(),
                ) by {
                    assert(v.encoding().drop_first().len() == 5);
                }
                return Err(e);
            },
        };
        proof {
            lemma_occurs_concat(data@, pos as int, le_bytes(a as int, 1), le_bytes(b as int, 2));
            lemma_occurs_concat(data@, pos as int, le_bytes(a as int, 1) + le_bytes(b as int, 2), le_bytes(c as int, 2));
        }
        let v = Ins3rc { op, a, b, c };
        assert(v.encoding() =~= le_bytes(op as int, 1) + data@.subrange(pos as int, p as int));
        Ok((v, p))
    }

    fn serialize(&self, out: &mut Vec<u8>) {
        encode_u8(out, self.op);
        encode_u8(out, self.a);
        encode_u16(out, self.b);
        encode_u16(out, self.c);
        assert(out@ =~= old(out)@ + self.encoding());
    }

    fn size(&self) -> (r: usize) {
        6
    }
}

#[derive(Debug, Clone, Copy, PartialEq, Eq, Structural)]
pub struct Ins3rms {
    pub op: u8,
    pub a: u8,
    pub b: u16,
    pub c: u16,
}

impl TInstruction for Ins3rms {
    open spec fn encoding(&self) -> Seq<u8> {
        le_bytes(self.op as int, 1) + le_bytes(self.a as int, 1) + le_bytes(self.b as int, 2) + le_bytes(self.c as int, 2)
    }

    open spec fn well_formed(&self) -> bool {
        true
    }

    fn deserialize(data: &[u8], pos: usize, op: u8) -> (res: Result<(Self, usize), DeserializeError>) {
        let (a, p) = match decode_u8(data, pos) {
            Ok(r) => r,
            Err(e) => {
                assert forall|v: Self| v.well_formed() && v.encoding()[0] == op implies !occurs_at(
                    data@,
                    pos as int,
                    #[trigger] v.encoding().drop_first(),
                ) by {
                    assert(v.encoding().drop_first().len() == 5);
                }
                return Err(e);
            },
        };
        let (b, p) = match decode_u16(data, p) {
            Ok(r) => r,
            Err(e) => {
                assert forall|v: Self| v.well_formed() && v.encoding()[0] == op implies !occurs_at(
                    data@,
                    pos as int,
                    #[trigger] v.encoding().drop_first(),
                ) by {
                    assert(v.encoding().drop_first().len() == 5);
                }
                return Err(e);
            },
        };
        let (c, p) = match decode_u16(data, p) {
            Ok(r) => r,
            Err(e) => {
                assert forall|v: Self| v.well_formed() && v.encoding()[0] == op implies !occurs_at(
                    data@,
                    pos as int,
                    #[trigger] v.encoding().drop_first(),
                ) by {
                    assert(v.encoding().drop_first().len() == 5);
                }
                return Err(e);
            },
        };
        proof {
            lemma_occurs_concat(data@, pos as int, le_bytes(a as int, 1), le_bytes(b as int, 2));
            lemma_occurs_concat(data@, pos as int, le_bytes(a as int, 1) + le_bytes(b as int, 2), le_bytes(c as int, 2));
        }
        let v = Ins3rms { op, a, b, c };
        assert(v.encoding() =~= le_bytes(op as int, 1) + data@.subrange(pos as int, p as int));
        Ok((v, p))
    }

    fn serialize(&self, out: &mut Vec<u8>) {
        encode_u8(out, self.op);
        encode_u8(out, self.a);
        encode_u16(out, self.b);
        encode_u16(out, self.c);
        assert(out@ =~= old(out)@ + self.encoding());
    }

    fn size(&self) -> (r: usize) {
        6
    }
}

#[derive(Debug, Clone, Copy, PartialEq, Eq, Structural)]
pub struct Ins3rmi {
    pub op: u8,
    pub a: u8,
    pub b: u16,
    pub c: u16,
}

impl TInstruction for Ins3rmi {
    open spec fn encoding(&self) -> Seq<u8> {
        le_bytes(self.op as int, 1) + le_bytes(self.a as int, 1) + le_bytes(self.b as int, 2) + le_bytes(self.c as int, 2)
    }

    open spec fn well_formed(&self) -> bool {
        true
    }

    fn deserialize(data: &[u8], pos: usize, op: u8) -> (res: Result<(Self, usize), DeserializeError>) {
        let (a, p) = match decode_u8(data, pos) {
            Ok(r) => r,
            Err(e) => {
                assert forall|v: Self| v.well_formed() && v.encoding()[0] == op implies !occurs_at(
                    data@,
                    pos as int,
                    #[trigger] v.encoding().drop_first(),
                ) by {
                    assert(v.encoding().drop_first().len() == 5);
                }
                return Err(e);
            },
        };
        let (b, p) = match decode_u16(data, p) {
            Ok(r) => r,
            Err(e) => {
                assert forall|v: Self| v.well_formed() && v.encoding()[0] == op implies !occurs_at(
                    data@,
                    pos as int,
                    #[trigger] v.encoding().drop_first(),
                ) by {
                    assert(v.encoding().drop_first().len() == 5);
                }
                return Err(e);
            },
        };
        let (c, p) = match decode_u16(data, p) {
            Ok(r) => r,
            Err(e) => {
                assert forall|v: Self| v.well_formed() && v.encoding()[0] == op implies !occurs_at(
                    data@,
                    pos as int,
                    #[trigger] v.encoding().drop_first(),
                ) by {
                    assert(v.encoding().drop_first().len() == 5);
                }
                return Err(e);
            },
        };
        proof {
            lemma_occurs_concat(data@, pos as int, le_bytes(a as int, 1), le_bytes(b as int, 2));
            lemma_occurs_concat(data@, pos as int, le_bytes(a as int, 1) + le_bytes(b as int, 2), le_bytes(c as int, 2));
        }
        let v = Ins3rmi { op, a, b, c };
        assert(v.encoding() =~= le_bytes(op as int, 1) + data@.subrange(pos as int, p as int));
        Ok((v, p))
    }

    fn serialize(&self, out: &mut Vec<u8>) {
        encode_u8(out, self.op);
        encode_u8(out, self.a);
        encode_u16(out, self.b);
        encode_u16(out, self.c);
        assert(out@ =~= old(out)@ + self.encoding());
    }

    fn size(&self) -> (r: usize) {
        6
    }
}

#[derive(Debug, Clone, Copy, PartialEq, Eq, Structural)]
pub struct Ins45cc {
    pub op: u8,
    pub a: u8,
    pub b: u16,
    pub c: u8,
    pub d: u8,
    pub e: u8,
    pub f: u8,
    pub g: u8,
    pub h: u16,
}

impl TInstruction for Ins45cc {
    open spec fn encoding(&self) -> Seq<u8> {
        le_bytes(self.op as int, 1) + le_bytes(self.a * 16 + self.g, 1) + le_bytes(self.b as int, 2) + le_bytes(self.d * 16 + self.c, 1) + le_bytes(self.f * 16 + self.e, 1) + le_bytes(self.h as int, 2)
    }

    open spec fn well_formed(&self) -> bool {
        self.g < 16 && self.a < 16 && self.c < 16 && self.d < 16 && self.e < 16 && self.f < 16
    }

    fn deserialize(data: &[u8], pos: usize, op: u8) -> (res: Result<(Self, usize), DeserializeError>) {
        let (byte0, p) = match decode_u8(data, pos) {
            Ok(r) => r,
            Err(e) => {
                assert forall|v: Self| v.well_formed() && v.encoding()[0] == op implies !occurs_at(
                    data@,
                    pos as int,
                    #[trigger] v.encoding().drop_first(),
                ) by {
                    assert(v.encoding().drop_first().len() == 7);
                }
                return Err(e);
            },
        };
        let g = byte0 % 16;
        let a = byte0 / 16;
        proof {
            lemma_nibbles(byte0);
        }
        let (b, p) = match decode_u16(data, p) {
            Ok(r) => r,
            Err(e) => {
                assert forall|v: Self| v.well_formed() && v.encoding()[0] == op implies !occurs_at(
                    data@,
                    pos as int,
                    #[trigger] v.encoding().drop_first(),
                ) by {
                    assert(v.encoding().drop_first().len() == 7);
                }
                return Err(e);
            },
        };
        let (byte2, p) = match decode_u8(data, p) {
            Ok(r) => r,
            Err(e) => {
                assert forall|v: Self| v.well_formed() && v.encoding()[0] == op implies !occurs_at(
                    data@,
                    pos as int,
                    #[trigger] v.encoding().drop_first(),
                ) by {
                    assert(v.encoding().drop_first().len() == 7);
                }
                return Err(e);
            },
        };
        let c = byte2 % 16;
        let d = byte2 / 16;
        proof {
            lemma_nibbles(byte2);
        }
        let (byte3, p) = match decode_u8(data, p) {
            Ok(r) => r,
            Err(e) => {
                assert forall|v: Self| v.well_formed() && v.encoding()[0] == op implies !occurs_at(
                    data@,
                    pos as int,
                    #[trigger] v.encoding().drop_first(),
                ) by {
                    assert(v.encoding().drop_first().len() == 7);
                }
                return Err(e);
            },
        };
        let e = byte3 % 16;
        let f = byte3 / 16;
        proof {
            lemma_nibbles(byte3);
        }
        let (h, p) = match decode_u16(data, p) {
            Ok(r) => r,
            Err(e) => {
                assert forall|v: Self| v.well_formed() && v.encoding()[0] == op implies !occurs_at(
                    data@,
                    pos as int,
                    #[trigger] v.encoding().drop_first(),
                ) by {
                    assert(v.encoding().drop_first().len() == 7);
                }
                return Err(e);
            },
        };
        proof {
            lemma_occurs_concat(data@, pos as int, le_bytes(byte0 as int, 1), le_bytes(b as int, 2));
            lemma_occurs_concat(data@, pos as int, le_bytes(byte0 as int, 1) + le_bytes(b as int, 2), le_bytes(byte2 as int, 1));
            lemma_occurs_concat(data@, pos as int, le_bytes(byte0 as int, 1) + le_bytes(b as int, 2) + le_bytes(byte2 as int, 1), le_bytes(byte3 as int, 1));
            lemma_occurs_concat(data@, pos as int, le_bytes(byte0 as int, 1) + le_bytes(b as int, 2) + le_bytes(byte2 as int, 1) + le_bytes(byte3 as int, 1), le_bytes(h as int, 2));
        }
        let v = Ins45cc { op, a, b, c, d, e, f, g, h };
        assert(v.encoding() =~= le_bytes(op as int, 1) + data@.subrange(pos as int, p as int));
        Ok((v, p))
    }

    fn serialize(&self, out: &mut Vec<u8>) {
        encode_u8(out, self.op);
        encode_u8(out, self.a * 16 + self.g);
        encode_u16(out, self.b);
        encode_u8(out, self.d * 16 + self.c);
        encode_u8(out, self.f * 16 + self.e);
        encode_u16(out, self.h);
        assert(out@ =~= old(out)@ + self.encoding());
    }

    fn size(&self) -> (r: usize) {
        8
    }
}

#[derive(Debug, Clone, Copy, PartialEq, Eq, Structural)]
pub struct Ins4rcc {
    pub op: u8,
    pub a: u8,
    pub b: u16,
    pub c: u16,
    pub h: u16,
}

impl TInstruction for Ins4rcc {
    open spec fn encoding(&self) -> Seq<u8> {
        le_bytes(self.op as int, 1) + le_bytes(self.a as int, 1) + le_bytes(self.b as int, 2) + le_bytes(self.c as int, 2) + le_bytes(self.h as int, 2)
    }

    open spec fn well_formed(&self) -> bool {
        true
    }

    fn deserialize(data: &[u8], pos: usize, op: u8) -> (res: Result<(Self, usize), DeserializeError>) {
        let (a, p) = match decode_u8(data, pos) {
            Ok(r) => r,
            Err(e) => {
                assert forall|v: Self| v.well_formed() && v.encoding()[0] == op implies !occurs_at(
                    data@,
                    pos as int,
                    #[trigger] v.encoding().drop_first(),
                ) by {
                    assert(v.encoding().drop_first().len() == 7);
                }
                return Err(e);
            },
        };
        let (b, p) = match decode_u16(data, p) {
            Ok(r) => r,
            Err(e) => {
                assert forall|v: Self| v.well_formed() && v.encoding()[0] == op implies !occurs_at(
                    data@,
                    pos as int,
                    #[trigger] v.encoding().drop_first(),
                ) by {
                    assert(v.encoding().drop_first().len() == 7);
                }
                return Err(e);
            },
        };
        let (c, p) = match decode_u16(data, p) {
            Ok(r) => r,
            Err(e) => {
                assert forall|v: Self| v.well_formed() && v.encoding()[0] == op implies !occurs_at(
                    data@,
                    pos as int,
                    #[trigger] v.encoding().drop_first(),
                ) by {
                    assert(v.encoding().drop_first().len() == 7);
                }
                return Err(e);
            },
        };
        let (h, p) = match decode_u16(data, p) {
            Ok(r) => r,
            Err(e) => {
                assert forall|v: Self| v.well_formed() && v.encoding()[0] == op implies !occurs_at(
                    data@,
                    pos as int,
                    #[trigger] v.encoding().drop_first(),
                ) by {
                    assert(v.encoding().drop_first().len() == 7);
                }
                return Err(e);
            },
        };
        proof {
            lemma_occurs_concat(data@, pos as int, le_bytes(a as int, 1), le_bytes(b as int, 2));
            lemma_occurs_concat(data@, pos as int, le_bytes(a as int, 1) + le_bytes(b as int, 2), le_bytes(c as int, 2));
            lemma_occurs_concat(data@, pos as int, le_bytes(a as int, 1) + le_bytes(b as int, 2) + le_bytes(c as int, 2), le_bytes(h as int, 2));
        }
        let v = Ins4rcc { op, a, b, c, h };
        assert(v.encoding() =~= le_bytes(op as int, 1) + data@.subrange(pos as int, p as int));
        Ok((v, p))
    }

    fn serialize(&self, out: &mut Vec<u8>) {
        encode_u8(out, self.op);
        encode_u8(out, self.a);
        encode_u16(out, self.b);
        encode_u16(out, self.c);
        encode_u16(out, self.h);
        assert(out@ =~= old(out)@ + self.encoding());
    }

    fn size(&self) -> (r: usize) {
        8
    }
}

#[derive(Debug, Clone, Copy, PartialEq, Eq, Structural)]
pub struct Ins51l {
    pub op: u8,
    pub a: u8,
    pub b: i64,
}

impl TInstruction for Ins51l {
    open spec fn encoding(&self) -> Seq<u8> {
        le_bytes(self.op as int, 1) + le_bytes(self.a as int, 1) + le_bytes(self.b as int, 8)
    }

    open spec fn well_formed(&self) -> bool {
        true
    }

    fn deserialize(data: &[u8], pos: usize, op: u8) -> (res: Result<(Self, usize), DeserializeError>) {
        let (a, p) = match decode_u8(data, pos) {
            Ok(r) => r,
            Err(e) => {
                assert forall|v: Self| v.well_formed() && v.encoding()[0] == op implies !occurs_at(
                    data@,
                    pos as int,
                    #[trigger] v.encoding().drop_first(),
                ) by {
                    assert(v.encoding().drop_first().len() == 9);
                }
                return Err(e);
            },
        };
        let (b, p) = match decode_i64(data, p) {
            Ok(r) => r,
            Err(e) => {
                assert forall|v: Self| v.well_formed() && v.encoding()[0] == op implies !occurs_at(
                    data@,
                    pos as int,
                    #[trigger] v.encoding().drop_first(),
                ) by {
                    assert(v.encoding().drop_first().len() == 9);
                }
                return Err(e);
            },
        };
        proof {
            lemma_occurs_concat(data@, pos as int, le_bytes(a as int, 1), le_bytes(b as int, 8));
        }
        let v = Ins51l { op, a, b };
        assert(v.encoding() =~= le_bytes(op as int, 1) + data@.subrange(pos as int, p as int));
        Ok((v, p))
    }

    fn serialize(&self, out: &mut Vec<u8>) {
        encode_u8(out, self.op);
        encode_u8(out, self.a);
        encode_i64(out, self.b);
        assert(out@ =~= old(out)@ + self.encoding());
    }

    fn size(&self) -> (r: usize) {
        10
    }
}


/// 32-bit values, little-endian, one after another.
pub open spec fn i32_seq(s: Seq<i32>) -> Seq<u8>
    decreases s.len(),
{
    if s.len() == 0 {
        seq![]
    } else {
        i32_seq(s.drop_last()) + le_bytes(s.last() as int, 4)
    }
}

pub proof fn lemma_i32_seq_len(s: Seq<i32>)
    ensures
        i32_seq(s).len() == 4 * s.len(),
    decreases s.len(),
{
    if s.len() > 0 {
        lemma_i32_seq_len(s.drop_last());
    }
}

/// Reads `count` 32-bit values.
pub fn decode_i32_list(data: &[u8], pos: usize, count: usize) -> (res: Result<
    (Vec<i32>, usize),
    DeserializeError,
>)
    ensures
        res matches Ok((v, end)) ==> v@.len() == count && end == pos + i32_seq(v@).len()
            && occurs_at(data@, pos as int, i32_seq(v@)),
        res is Err ==> pos + 4 * count > data@.len(),
{
    if pos > data.len() {
        return Err(DeserializeError::IoError);
    }
    let mut items: Vec<i32> = Vec::new();
    let mut p = pos;
    let mut i: usize = 0;
    assert(data@.subrange(pos as int, pos as int) =~= i32_seq(items@));
    while i < count
        invariant
            i <= count,
            items@.len() == i,
            p == pos + i32_seq(items@).len(),
            p == pos + 4 * i,
            occurs_at(data@, pos as int, i32_seq(items@)),
        decreases count - i,
    {
        let (item, next) = match decode_i32(data, p) {
            Ok(r) => r,
            Err(e) => return Err(e),
        };
        proof {
            lemma_occurs_concat(data@, pos as int, i32_seq(items@), le_bytes(item as int, 4));
        }
        let ghost prev = items@;
        items.push(item);
        assert(items@.drop_last() =~= prev);
        proof {
            lemma_i32_seq_len(items@);
        }
        p = next;
        i = i + 1;
    }
    Ok((items, p))
}

pub fn encode_i32_list(items: &Vec<i32>, out: &mut Vec<u8>)
    ensures
        final(out)@ == old(out)@ + i32_seq(items@),
{
    let mut i: usize = 0;
    while i < items.len()
        invariant
            i <= items@.len(),
            out@ == old(out)@ + i32_seq(items@.take(i as int)),
        decreases items@.len() - i,
    {
        assert(items@.take(i + 1).drop_last() =~= items@.take(i as int));
        encode_i32(out, items[i]);
        assert(out@ =~= old(out)@ + i32_seq(items@.take(i + 1)));
        i = i + 1;
    }
    assert(items@.take(items@.len() as int) =~= items@);
}

/// The target table of a `packed-switch`: consecutive keys from `first_key`.
#[derive(Debug, PartialEq, Eq)]
pub struct PackedSwitchPayload {
    pub size: u16,
    pub first_key: i32,
    pub targets: Vec<i32>,
}

impl TInstruction for PackedSwitchPayload {
    open spec fn encoding(&self) -> Seq<u8> {
        le_bytes(0, 1) + le_bytes(1, 1) + le_bytes(self.size as int, 2) + le_bytes(
            self.first_key as int,
            4,
        ) + i32_seq(self.targets@)
    }

    open spec fn well_formed(&self) -> bool {
        self.targets@.len() == self.size
    }

    fn deserialize(data: &[u8], pos: usize, op: u8) -> (res: Result<(Self, usize), DeserializeError>) {
        let (ident, p) = match decode_u8(data, pos) {
            Ok(r) => r,
            Err(e) => {
                assert forall|v: Self| v.well_formed() && v.encoding()[0] == op implies !occurs_at(
                    data@,
                    pos as int,
                    #[trigger] v.encoding().drop_first(),
                ) by {
                    if occurs_at(data@, pos as int, v.encoding().drop_first()) {
                        lemma_pow256_values();
                        lemma_le_bytes_u8(0);
                        lemma_le_bytes_u8(1);
                        lemma_le_bytes_u8(2);
                        lemma_le_bytes_u8(3);
                        assert(v.encoding().drop_first() =~= le_bytes(1, 1) + le_bytes(v.size as int, 2) + le_bytes(v.first_key as int, 4) + i32_seq(v.targets@));
                        lemma_occurs_prefix(data@, pos as int, le_bytes(1, 1) + le_bytes(v.size as int, 2) + le_bytes(v.first_key as int, 4), i32_seq(v.targets@));
                        lemma_occurs_prefix(data@, pos as int, le_bytes(1, 1) + le_bytes(v.size as int, 2), le_bytes(v.first_key as int, 4));
                        lemma_occurs_prefix(data@, pos as int, le_bytes(1, 1), le_bytes(v.size as int, 2));
                    }
                }
                return Err(e);
            },
        };
        if op != 0 || ident != 1 {
            assert forall|v: Self| v.well_formed() && v.encoding()[0] == op implies !occurs_at(
                data@,
                pos as int,
                #[trigger] v.encoding().drop_first(),
            ) by {
                if occurs_at(data@, pos as int, v.encoding().drop_first()) {
                    lemma_pow256_values();
                    lemma_le_bytes_u8(0);
                    lemma_le_bytes_u8(1);
                    lemma_le_bytes_u8(2);
                    lemma_le_bytes_u8(3);
                    assert(v.encoding().drop_first() =~= le_bytes(1, 1) + le_bytes(v.size as int, 2) + le_bytes(v.first_key as int, 4) + i32_seq(v.targets@));
                    lemma_occurs_prefix(data@, pos as int, le_bytes(1, 1) + le_bytes(v.size as int, 2) + le_bytes(v.first_key as int, 4), i32_seq(v.targets@));
                    lemma_occurs_prefix(data@, pos as int, le_bytes(1, 1) + le_bytes(v.size as int, 2), le_bytes(v.first_key as int, 4));
                    lemma_occurs_prefix(data@, pos as int, le_bytes(1, 1), le_bytes(v.size as int, 2));
                    lemma_le_bytes_u8(ident);
                    assert(v.encoding()[0] == 0);
                    assert(v.encoding().drop_first()[0] == data@.subrange(pos as int, pos + v.encoding().drop_first().len())[0]);
                    assert(data@.subrange(pos as int, pos + 1)[0] == ident);
                }
            }
            return Err(DeserializeError::FormatError);
        }
        let (size, p) = match decode_u16(data, p) {
            Ok(r) => r,
            Err(e) => {
                assert forall|v: Self| v.well_formed() && v.encoding()[0] == op implies !occurs_at(
                    data@,
                    pos as int,
                    #[trigger] v.encoding().drop_first(),
                ) by {
                    if occurs_at(data@, pos as int, v.encoding().drop_first()) {
                        lemma_pow256_values();
                        lemma_le_bytes_u8(0);
                        lemma_le_bytes_u8(1);
                        lemma_le_bytes_u8(2);
                        lemma_le_bytes_u8(3);
                        assert(v.encoding().drop_first() =~= le_bytes(1, 1) + le_bytes(v.size as int, 2) + le_bytes(v.first_key as int, 4) + i32_seq(v.targets@));
                        lemma_occurs_prefix(data@, pos as int, le_bytes(1, 1) + le_bytes(v.size as int, 2) + le_bytes(v.first_key as int, 4), i32_seq(v.targets@));
                        lemma_occurs_prefix(data@, pos as int, le_bytes(1, 1) + le_bytes(v.size as int, 2), le_bytes(v.first_key as int, 4));
                        lemma_occurs_prefix(data@, pos as int, le_bytes(1, 1), le_bytes(v.size as int, 2));
                    }
                }
                return Err(e);
            },
        };
        let (first_key, p) = match decode_i32(data, p) {
            Ok(r) => r,
            Err(e) => {
                assert forall|v: Self| v.well_formed() && v.encoding()[0] == op implies !occurs_at(
                    data@,
                    pos as int,
                    #[trigger] v.encoding().drop_first(),
                ) by {
                    if occurs_at(data@, pos as int, v.encoding().drop_first()) {
                        lemma_pow256_values();
                        lemma_le_bytes_u8(0);
                        lemma_le_bytes_u8(1);
                        lemma_le_bytes_u8(2);
                        lemma_le_bytes_u8(3);
                        assert(v.encoding().drop_first() =~= le_bytes(1, 1) + le_bytes(v.size as int, 2) + le_bytes(v.first_key as int, 4) + i32_seq(v.targets@));
                        lemma_occurs_prefix(data@, pos as int, le_bytes(1, 1) + le_bytes(v.size as int, 2) + le_bytes(v.first_key as int, 4), i32_seq(v.targets@));
                        lemma_occurs_prefix(data@, pos as int, le_bytes(1, 1) + le_bytes(v.size as int, 2), le_bytes(v.first_key as int, 4));
                        lemma_occurs_prefix(data@, pos as int, le_bytes(1, 1), le_bytes(v.size as int, 2));
                    }
                }
                return Err(e);
            },
        };
        let (targets, p) = match decode_i32_list(data, p, size as usize) {
            Ok(r) => r,
            Err(e) => {
                assert forall|v: Self| v.well_formed() && v.encoding()[0] == op implies !occurs_at(
                    data@,
                    pos as int,
                    #[trigger] v.encoding().drop_first(),
                ) by {
                    if occurs_at(data@, pos as int, v.encoding().drop_first()) {
                        lemma_pow256_values();
                        lemma_le_bytes_u8(0);
                        lemma_le_bytes_u8(1);
                        lemma_le_bytes_u8(2);
                        lemma_le_bytes_u8(3);
                        assert(v.encoding().drop_first() =~= le_bytes(1, 1) + le_bytes(v.size as int, 2) + le_bytes(v.first_key as int, 4) + i32_seq(v.targets@));
                        lemma_occurs_prefix(data@, pos as int, le_bytes(1, 1) + le_bytes(v.size as int, 2) + le_bytes(v.first_key as int, 4), i32_seq(v.targets@));
                        lemma_occurs_prefix(data@, pos as int, le_bytes(1, 1) + le_bytes(v.size as int, 2), le_bytes(v.first_key as int, 4));
                        lemma_occurs_prefix(data@, pos as int, le_bytes(1, 1), le_bytes(v.size as int, 2));
                        lemma_le_bytes_injective(size as int, v.size as int, 2);
                        lemma_i32_seq_len(v.targets@);
                    }
                }
                return Err(e);
            },
        };
        proof {
            let a = le_bytes(1, 1);
            let b = le_bytes(size as int, 2);
            let c = le_bytes(first_key as int, 4);
            lemma_occurs_concat(data@, pos as int, a, b);
            lemma_occurs_concat(data@, pos as int, a + b, c);
            lemma_occurs_concat(data@, pos as int, a + b + c, i32_seq(targets@));
        }
        let v = PackedSwitchPayload { size, first_key, targets };
        assert(v.encoding() =~= le_bytes(op as int, 1) + data@.subrange(pos as int, p as int));
        Ok((v, p))
    }

    fn serialize(&self, out: &mut Vec<u8>) {
        encode_u8(out, 0x00);
        encode_u8(out, 0x01);
        encode_u16(out, self.size);
        encode_i32(out, self.first_key);
        encode_i32_list(&self.targets, out);
        assert(out@ =~= old(out)@ + self.encoding());
    }

    fn size(&self) -> (r: usize) {
        proof {
            lemma_i32_seq_len(self.targets@);
        }
        self.size as usize * 4 + 8
    }
}

/// The key and target tables of a `sparse-switch`.
#[derive(Debug, PartialEq, Eq)]
pub struct SparseSwitchPayload {
    pub size: u16,
    pub keys: Vec<i32>,
    pub targets: Vec<i32>,
}

impl TInstruction for SparseSwitchPayload {
    open spec fn encoding(&self) -> Seq<u8> {
        le_bytes(0, 1) + le_bytes(2, 1) + le_bytes(self.size as int, 2) + i32_seq(self.keys@)
            + i32_seq(self.targets@)
    }

    open spec fn well_formed(&self) -> bool {
        self.keys@.len() == self.size && self.targets@.len() == self.size
    }

    fn deserialize(data: &[u8], pos: usize, op: u8) -> (res: Result<(Self, usize), DeserializeError>) {
        let (ident, p) = match decode_u8(data, pos) {
            Ok(r) => r,
            Err(e) => {
                assert forall|v: Self| v.well_formed() && v.encoding()[0] == op implies !occurs_at(
                    data@,
                    pos as int,
                    #[trigger] v.encoding().drop_first(),
                ) by {
                    if occurs_at(data@, pos as int, v.encoding().drop_first()) {
                        lemma_pow256_values();
                        lemma_le_bytes_u8(0);
                        lemma_le_bytes_u8(1);
                        lemma_le_bytes_u8(2);
                        lemma_le_bytes_u8(3);
                        assert(v.encoding().drop_first() =~= le_bytes(2, 1) + le_bytes(v.size as int, 2) + i32_seq(v.keys@) + i32_seq(v.targets@));
                        lemma_occurs_prefix(data@, pos as int, le_bytes(2, 1) + le_bytes(v.size as int, 2) + i32_seq(v.keys@), i32_seq(v.targets@));
                        lemma_occurs_prefix(data@, pos as int, le_bytes(2, 1) + le_bytes(v.size as int, 2), i32_seq(v.keys@));
                        lemma_occurs_prefix(data@, pos as int, le_bytes(2, 1), le_bytes(v.size as int, 2));
                    }
                }
                return Err(e);
            },
        };
        if op != 0 || ident != 2 {
            assert forall|v: Self| v.well_formed() && v.encoding()[0] == op implies !occurs_at(
                data@,
                pos as int,
                #[trigger] v.encoding().drop_first(),
            ) by {
                if occurs_at(data@, pos as int, v.encoding().drop_first()) {
                    lemma_pow256_values();
                    lemma_le_bytes_u8(0);
                    lemma_le_bytes_u8(1);
                    lemma_le_bytes_u8(2);
                    lemma_le_bytes_u8(3);
                    assert(v.encoding().drop_first() =~= le_bytes(2, 1) + le_bytes(v.size as int, 2) + i32_seq(v.keys@) + i32_seq(v.targets@));
                    lemma_occurs_prefix(data@, pos as int, le_bytes(2, 1) + le_bytes(v.size as int, 2) + i32_seq(v.keys@), i32_seq(v.targets@));
                    lemma_occurs_prefix(data@, pos as int, le_bytes(2, 1) + le_bytes(v.size as int, 2), i32_seq(v.keys@));
                    lemma_occurs_prefix(data@, pos as int, le_bytes(2, 1), le_bytes(v.size as int, 2));
                    lemma_le_bytes_u8(ident);
                    assert(v.encoding()[0] == 0);
                    assert(v.encoding().drop_first()[0] == data@.subrange(pos as int, pos + v.encoding().drop_first().len())[0]);
                    assert(data@.subrange(pos as int, pos + 1)[0] == ident);
                }
            }
            return Err(DeserializeError::FormatError);
        }
        let (size, p) = match decode_u16(data, p) {
            Ok(r) => r,
            Err(e) => {
                assert forall|v: Self| v.well_formed() && v.encoding()[0] == op implies !occurs_at(
                    data@,
                    pos as int,
                    #[trigger] v.encoding().drop_first(),
                ) by {
                    if occurs_at(data@, pos as int, v.encoding().drop_first()) {
                        lemma_pow256_values();
                        lemma_le_bytes_u8(0);
                        lemma_le_bytes_u8(1);
                        lemma_le_bytes_u8(2);
                        lemma_le_bytes_u8(3);
                        assert(v.encoding().drop_first() =~= le_bytes(2, 1) + le_bytes(v.size as int, 2) + i32_seq(v.keys@) + i32_seq(v.targets@));
                        lemma_occurs_prefix(data@, pos as int, le_bytes(2, 1) + le_bytes(v.size as int, 2) + i32_seq(v.keys@), i32_seq(v.targets@));
                        lemma_occurs_prefix(data@, pos as int, le_bytes(2, 1) + le_bytes(v.size as int, 2), i32_seq(v.keys@));
                        lemma_occurs_prefix(data@, pos as int, le_bytes(2, 1), le_bytes(v.size as int, 2));
                    }
                }
                return Err(e);
            },
        };
        let (keys, p) = match decode_i32_list(data, p, size as usize) {
            Ok(r) => r,
            Err(e) => {
                assert forall|v: Self| v.well_formed() && v.encoding()[0] == op implies !occurs_at(
                    data@,
                    pos as int,
                    #[trigger] v.encoding().drop_first(),
                ) by {
                    if occurs_at(data@, pos as int, v.encoding().drop_first()) {
                        lemma_pow256_values();
                        lemma_le_bytes_u8(0);
                        lemma_le_bytes_u8(1);
                        lemma_le_bytes_u8(2);
                        lemma_le_bytes_u8(3);
                        assert(v.encoding().drop_first() =~= le_bytes(2, 1) + le_bytes(v.size as int, 2) + i32_seq(v.keys@) + i32_seq(v.targets@));
                        lemma_occurs_prefix(data@, pos as int, le_bytes(2, 1) + le_bytes(v.size as int, 2) + i32_seq(v.keys@), i32_seq(v.targets@));
                        lemma_occurs_prefix(data@, pos as int, le_bytes(2, 1) + le_bytes(v.size as int, 2), i32_seq(v.keys@));
                        lemma_occurs_prefix(data@, pos as int, le_bytes(2, 1), le_bytes(v.size as int, 2));
                        lemma_le_bytes_injective(size as int, v.size as int, 2);
                        lemma_i32_seq_len(v.keys@);
                        lemma_i32_seq_len(v.targets@);
                    }
                }
                return Err(e);
            },
        };
        let (targets, p) = match decode_i32_list(data, p, size as usize) {
            Ok(r) => r,
            Err(e) => {
                assert forall|v: Self| v.well_formed() && v.encoding()[0] == op implies !occurs_at(
                    data@,
                    pos as int,
                    #[trigger] v.encoding().drop_first(),
                ) by {
                    if occurs_at(data@, pos as int, v.encoding().drop_first()) {
                        lemma_pow256_values();
                        lemma_le_bytes_u8(0);
                        lemma_le_bytes_u8(1);
                        lemma_le_bytes_u8(2);
                        lemma_le_bytes_u8(3);
                        assert(v.encoding().drop_first() =~= le_bytes(2, 1) + le_bytes(v.size as int, 2) + i32_seq(v.keys@) + i32_seq(v.targets@));
                        lemma_occurs_prefix(data@, pos as int, le_bytes(2, 1) + le_bytes(v.size as int, 2) + i32_seq(v.keys@), i32_seq(v.targets@));
                        lemma_occurs_prefix(data@, pos as int, le_bytes(2, 1) + le_bytes(v.size as int, 2), i32_seq(v.keys@));
                        lemma_occurs_prefix(data@, pos as int, le_bytes(2, 1), le_bytes(v.size as int, 2));
                        lemma_le_bytes_injective(size as int, v.size as int, 2);
                        lemma_i32_seq_len(v.keys@);
                        lemma_i32_seq_len(v.targets@);
                        lemma_i32_seq_len(keys@);
                    }
                }
                return Err(e);
            },
        };
        proof {
            let a = le_bytes(2, 1);
            let b = le_bytes(size as int, 2);
            lemma_occurs_concat(data@, pos as int, a, b);
            lemma_occurs_concat(data@, pos as int, a + b, i32_seq(keys@));
            lemma_occurs_concat(data@, pos as int, a + b + i32_seq(keys@), i32_seq(targets@));
        }
        let v = SparseSwitchPayload { size, keys, targets };
        assert(v.encoding() =~= le_bytes(op as int, 1) + data@.subrange(pos as int, p as int));
        Ok((v, p))
    }

    fn serialize(&self, out: &mut Vec<u8>) {
        encode_u8(out, 0x00);
        encode_u8(out, 0x02);
        encode_u16(out, self.size);
        encode_i32_list(&self.keys, out);
        encode_i32_list(&self.targets, out);
        assert(out@ =~= old(out)@ + self.encoding());
    }

    fn size(&self) -> (r: usize) {
        proof {
            lemma_i32_seq_len(self.keys@);
            lemma_i32_seq_len(self.targets@);
        }
        self.size as usize * 8 + 4
    }
}

/// The data of a `fill-array-data`: `size` elements of `element_width` bytes each, then
/// one zero byte when that leaves the payload an odd number of bytes long.
#[derive(Debug, PartialEq, Eq)]
pub struct FillArrayDataPayload {
    pub element_width: u16,
    pub size: u32,
    pub data: Vec<u8>,
}

impl FillArrayDataPayload {
    pub open spec fn padding(&self) -> Seq<u8> {
        if self.data@.len() % 2 == 1 {
            le_bytes(0, 1)
        } else {
            seq![]
        }
    }
}

impl TInstruction for FillArrayDataPayload {
    open spec fn encoding(&self) -> Seq<u8> {
        le_bytes(0, 1) + le_bytes(3, 1) + le_bytes(self.element_width as int, 2) + le_bytes(
            self.size as int,
            4,
        ) + self.data@ + self.padding()
    }

    open spec fn well_formed(&self) -> bool {
        self.data@.len() == self.element_width * self.size
    }

    fn deserialize(data: &[u8], pos: usize, op: u8) -> (res: Result<(Self, usize), DeserializeError>) {
        let (ident, p) = match decode_u8(data, pos) {
            Ok(r) => r,
            Err(e) => {
                assert forall|v: Self| v.well_formed() && v.encoding()[0] == op implies !occurs_at(
                    data@,
                    pos as int,
                    #[trigger] v.encoding().drop_first(),
                ) by {
                    if occurs_at(data@, pos as int, v.encoding().drop_first()) {
                        lemma_pow256_values();
                        lemma_le_bytes_u8(0);
                        lemma_le_bytes_u8(1);
                        lemma_le_bytes_u8(2);
                        lemma_le_bytes_u8(3);
                        assert(v.encoding().drop_first() =~= le_bytes(3, 1) + le_bytes(v.element_width as int, 2) + le_bytes(v.size as int, 4) + v.data@ + v.padding());
                        lemma_occurs_prefix(data@, pos as int, le_bytes(3, 1) + le_bytes(v.element_width as int, 2) + le_bytes(v.size as int, 4) + v.data@, v.padding());
                        lemma_occurs_prefix(data@, pos as int, le_bytes(3, 1) + le_bytes(v.element_width as int, 2) + le_bytes(v.size as int, 4), v.data@);
                        lemma_occurs_prefix(data@, pos as int, le_bytes(3, 1) + le_bytes(v.element_width as int, 2), le_bytes(v.size as int, 4));
                        lemma_occurs_prefix(data@, pos as int, le_bytes(3, 1), le_bytes(v.element_width as int, 2));
                    }
                }
                return Err(e);
            },
        };
        if op != 0 || ident != 3 {
            assert forall|v: Self| v.well_formed() && v.encoding()[0] == op implies !occurs_at(
                data@,
                pos as int,
                #[trigger] v.encoding().drop_first(),
            ) by {
                if occurs_at(data@, pos as int, v.encoding().drop_first()) {
                    lemma_pow256_values();
                    lemma_le_bytes_u8(0);
                    lemma_le_bytes_u8(1);
                    lemma_le_bytes_u8(2);
                    lemma_le_bytes_u8(3);
                    assert(v.encoding().drop_first() =~= le_bytes(3, 1) + le_bytes(v.element_width as int, 2) + le_bytes(v.size as int, 4) + v.data@ + v.padding());
                    lemma_occurs_prefix(data@, pos as int, le_bytes(3, 1) + le_bytes(v.element_width as int, 2) + le_bytes(v.size as int, 4) + v.data@, v.padding());
                    lemma_occurs_prefix(data@, pos as int, le_bytes(3, 1) + le_bytes(v.element_width as int, 2) + le_bytes(v.size as int, 4), v.data@);
                    lemma_occurs_prefix(data@, pos as int, le_bytes(3, 1) + le_bytes(v.element_width as int, 2), le_bytes(v.size as int, 4));
                    lemma_occurs_prefix(data@, pos as int, le_bytes(3, 1), le_bytes(v.element_width as int, 2));
                    lemma_le_bytes_u8(ident);
                    assert(v.encoding()[0] == 0);
                    assert(v.encoding().drop_first()[0] == data@.subrange(pos as int, pos + v.encoding().drop_first().len())[0]);
                    assert(data@.subrange(pos as int, pos + 1)[0] == ident);
                }
            }
            return Err(DeserializeError::FormatError);
        }
        let (element_width, p) = match decode_u16(data, p) {
            Ok(r) => r,
            Err(e) => {
                assert forall|v: Self| v.well_formed() && v.encoding()[0] == op implies !occurs_at(
                    data@,
                    pos as int,
                    #[trigger] v.encoding().drop_first(),
                ) by {
                    if occurs_at(data@, pos as int, v.encoding().drop_first()) {
                        lemma_pow256_values();
                        lemma_le_bytes_u8(0);
                        lemma_le_bytes_u8(1);
                        lemma_le_bytes_u8(2);
                        lemma_le_bytes_u8(3);
                        assert(v.encoding().drop_first() =~= le_bytes(3, 1) + le_bytes(v.element_width as int, 2) + le_bytes(v.size as int, 4) + v.data@ + v.padding());
                        lemma_occurs_prefix(data@, pos as int, le_bytes(3, 1) + le_bytes(v.element_width as int, 2) + le_bytes(v.size as int, 4) + v.data@, v.padding());
                        lemma_occurs_prefix(data@, pos as int, le_bytes(3, 1) + le_bytes(v.element_width as int, 2) + le_bytes(v.size as int, 4), v.data@);
                        lemma_occurs_prefix(data@, pos as int, le_bytes(3, 1) + le_bytes(v.element_width as int, 2), le_bytes(v.size as int, 4));
                        lemma_occurs_prefix(data@, pos as int, le_bytes(3, 1), le_bytes(v.element_width as int, 2));
                    }
                }
                return Err(e);
            },
        };
        let (size, p) = match decode_u32(data, p) {
            Ok(r) => r,
            Err(e) => {
                assert forall|v: Self| v.well_formed() && v.encoding()[0] == op implies !occurs_at(
                    data@,
                    pos as int,
                    #[trigger] v.encoding().drop_first(),
                ) by {
                    if occurs_at(data@, pos as int, v.encoding().drop_first()) {
                        lemma_pow256_values();
                        lemma_le_bytes_u8(0);
                        lemma_le_bytes_u8(1);
                        lemma_le_bytes_u8(2);
                        lemma_le_bytes_u8(3);
                        assert(v.encoding().drop_first() =~= le_bytes(3, 1) + le_bytes(v.element_width as int, 2) + le_bytes(v.size as int, 4) + v.data@ + v.padding());
                        lemma_occurs_prefix(data@, pos as int, le_bytes(3, 1) + le_bytes(v.element_width as int, 2) + le_bytes(v.size as int, 4) + v.data@, v.padding());
                        lemma_occurs_prefix(data@, pos as int, le_bytes(3, 1) + le_bytes(v.element_width as int, 2) + le_bytes(v.size as int, 4), v.data@);
                        lemma_occurs_prefix(data@, pos as int, le_bytes(3, 1) + le_bytes(v.element_width as int, 2), le_bytes(v.size as int, 4));
                        lemma_occurs_prefix(data@, pos as int, le_bytes(3, 1), le_bytes(v.element_width as int, 2));
                    }
                }
                return Err(e);
            },
        };
        assert(element_width as u64 * size as u64 <= 0xffff * 0xffff_ffff) by (nonlinear_arith)
            requires
                element_width <= 0xffff,
                size <= 0xffff_ffff,
        ;
        let n: u64 = element_width as u64 * size as u64;
        if n > (data.len() - p) as u64 {
            assert forall|v: Self| v.well_formed() && v.encoding()[0] == op implies !occurs_at(
                data@,
                pos as int,
                #[trigger] v.encoding().drop_first(),
            ) by {
                if occurs_at(data@, pos as int, v.encoding().drop_first()) {
                    lemma_pow256_values();
                    lemma_le_bytes_u8(0);
                    lemma_le_bytes_u8(1);
                    lemma_le_bytes_u8(2);
                    lemma_le_bytes_u8(3);
                    assert(v.encoding().drop_first() =~= le_bytes(3, 1) + le_bytes(v.element_width as int, 2) + le_bytes(v.size as int, 4) + v.data@ + v.padding());
                    lemma_occurs_prefix(data@, pos as int, le_bytes(3, 1) + le_bytes(v.element_width as int, 2) + le_bytes(v.size as int, 4) + v.data@, v.padding());
                    lemma_occurs_prefix(data@, pos as int, le_bytes(3, 1) + le_bytes(v.element_width as int, 2) + le_bytes(v.size as int, 4), v.data@);
                    lemma_occurs_prefix(data@, pos as int, le_bytes(3, 1) + le_bytes(v.element_width as int, 2), le_bytes(v.size as int, 4));
                    lemma_occurs_prefix(data@, pos as int, le_bytes(3, 1), le_bytes(v.element_width as int, 2));
                    lemma_le_bytes_injective(element_width as int, v.element_width as int, 2);
                    lemma_le_bytes_injective(size as int, v.size as int, 4);
                }
            }
            return Err(DeserializeError::IoError);
        }
        let n = n as usize;
        let mut bytes: Vec<u8> = Vec::new();
        let mut i: usize = 0;
        while i < n
            invariant
                i <= n,
                p + n <= data@.len(),
                bytes@ == data@.subrange(p as int, p + i),
            decreases n - i,
        {
            bytes.push(data[p + i]);
            assert(bytes@ =~= data@.subrange(p as int, p + i + 1));
            i = i + 1;
        }
        proof {
            let a = le_bytes(3, 1);
            let b = le_bytes(element_width as int, 2);
            let c = le_bytes(size as int, 4);
            lemma_occurs_concat(data@, pos as int, a, b);
            lemma_occurs_concat(data@, pos as int, a + b, c);
            lemma_occurs_concat(data@, pos as int, a + b + c, bytes@);
        }
        let mut end = p + n;
        if n % 2 == 1 {
            let (zero, next) = match decode_u8(data, end) {
                Ok(r) => r,
                Err(e) => {
                    assert forall|v: Self| v.well_formed() && v.encoding()[0] == op implies !occurs_at(
                        data@,
                        pos as int,
                        #[trigger] v.encoding().drop_first(),
                    ) by {
                        if occurs_at(data@, pos as int, v.encoding().drop_first()) {
                            lemma_pow256_values();
                            lemma_le_bytes_u8(0);
                            lemma_le_bytes_u8(1);
                            lemma_le_bytes_u8(2);
                            lemma_le_bytes_u8(3);
                            assert(v.encoding().drop_first() =~= le_bytes(3, 1) + le_bytes(v.element_width as int, 2) + le_bytes(v.size as int, 4) + v.data@ + v.padding());
                            lemma_occurs_prefix(data@, pos as int, le_bytes(3, 1) + le_bytes(v.element_width as int, 2) + le_bytes(v.size as int, 4) + v.data@, v.padding());
                            lemma_occurs_prefix(data@, pos as int, le_bytes(3, 1) + le_bytes(v.element_width as int, 2) + le_bytes(v.size as int, 4), v.data@);
                            lemma_occurs_prefix(data@, pos as int, le_bytes(3, 1) + le_bytes(v.element_width as int, 2), le_bytes(v.size as int, 4));
                            lemma_occurs_prefix(data@, pos as int, le_bytes(3, 1), le_bytes(v.element_width as int, 2));
                            lemma_le_bytes_injective(element_width as int, v.element_width as int, 2);
                            lemma_le_bytes_injective(size as int, v.size as int, 4);
                        }
                    }
                    return Err(e);
                },
            };
            if zero != 0 {
                assert forall|v: Self| v.well_formed() && v.encoding()[0] == op implies !occurs_at(
                    data@,
                    pos as int,
                    #[trigger] v.encoding().drop_first(),
                ) by {
                    if occurs_at(data@, pos as int, v.encoding().drop_first()) {
                        lemma_pow256_values();
                        lemma_le_bytes_u8(0);
                        lemma_le_bytes_u8(1);
                        lemma_le_bytes_u8(2);
                        lemma_le_bytes_u8(3);
                        assert(v.encoding().drop_first() =~= le_bytes(3, 1) + le_bytes(v.element_width as int, 2) + le_bytes(v.size as int, 4) + v.data@ + v.padding());
                        lemma_occurs_prefix(data@, pos as int, le_bytes(3, 1) + le_bytes(v.element_width as int, 2) + le_bytes(v.size as int, 4) + v.data@, v.padding());
                        lemma_occurs_prefix(data@, pos as int, le_bytes(3, 1) + le_bytes(v.element_width as int, 2) + le_bytes(v.size as int, 4), v.data@);
                        lemma_occurs_prefix(data@, pos as int, le_bytes(3, 1) + le_bytes(v.element_width as int, 2), le_bytes(v.size as int, 4));
                        lemma_occurs_prefix(data@, pos as int, le_bytes(3, 1), le_bytes(v.element_width as int, 2));
                        lemma_le_bytes_injective(element_width as int, v.element_width as int, 2);
                        lemma_le_bytes_injective(size as int, v.size as int, 4);
                        lemma_le_bytes_u8(zero);
                        assert(v.padding() == le_bytes(0, 1));
                    }
                }
                return Err(DeserializeError::FormatError);
            }
            proof {
                let a = le_bytes(3, 1);
                let b = le_bytes(element_width as int, 2);
                let c = le_bytes(size as int, 4);
                lemma_occurs_concat(data@, pos as int, a + b + c + bytes@, le_bytes(0, 1));
            }
            end = next;
        }
        let v = FillArrayDataPayload { element_width, size, data: bytes };
        assert(v.encoding() =~= le_bytes(op as int, 1) + data@.subrange(pos as int, end as int));
        Ok((v, end))
    }

    fn serialize(&self, out: &mut Vec<u8>) {
        encode_u8(out, 0x00);
        encode_u8(out, 0x03);
        encode_u16(out, self.element_width);
        encode_u32(out, self.size);
        encode_bytes(out, self.data.as_slice());
        if self.data.len() % 2 == 1 {
            encode_u8(out, 0x00);
        }
        assert(out@ =~= old(out)@ + self.encoding());
    }

    fn size(&self) -> (r: usize) {
        let size = self.data.len() + 8;
        if size % 2 == 1 {
            return size + 1;
        }
        size
    }
}

/// One decoded instruction, of whichever shape its opcode selects.
#[derive(Debug, PartialEq, Eq)]
pub enum Instruction {
    Ins10x(Ins10x),
    Ins12x(Ins12x),
    Ins11n(Ins11n),
    Ins11x(Ins11x),
    Ins10t(Ins10t),
    Ins20t(Ins20t),
    Ins20bc(Ins20bc),
    Ins22x(Ins22x),
    Ins21t(Ins21t),
    Ins21s(Ins21s),
    Ins21h(Ins21h),
    Ins21c(Ins21c),
    Ins23x(Ins23x),
    Ins22b(Ins22b),
    Ins22t(Ins22t),
    Ins22s(Ins22s),
    Ins22c(Ins22c),
    Ins22cs(Ins22cs),
    Ins30t(Ins30t),
    Ins32x(Ins32x),
    Ins31i(Ins31i),
    Ins31t(Ins31t),
    Ins31c(Ins31c),
    Ins35c(Ins35c),
    Ins35ms(Ins35ms),
    Ins35mi(Ins35mi),
    Ins3rc(Ins3rc),
    Ins3rms(Ins3rms),
    Ins3rmi(Ins3rmi),
    Ins45cc(Ins45cc),
    Ins4rcc(Ins4rcc),
    Ins51l(Ins51l),
    PackedSwitchPayload(PackedSwitchPayload),
    SparseSwitchPayload(SparseSwitchPayload),
    FillArrayDataPayload(FillArrayDataPayload),
}

impl Instruction {
    pub open spec fn encoding(self) -> Seq<u8> {
        match self {
            Instruction::Ins10x(i) => i.encoding(),
            Instruction::Ins12x(i) => i.encoding(),
            Instruction::Ins11n(i) => i.encoding(),
            Instruction::Ins11x(i) => i.encoding(),
            Instruction::Ins10t(i) => i.encoding(),
            Instruction::Ins20t(i) => i.encoding(),
            Instruction::Ins20bc(i) => i.encoding(),
            Instruction::Ins22x(i) => i.encoding(),
            Instruction::Ins21t(i) => i.encoding(),
            Instruction::Ins21s(i) => i.encoding(),
            Instruction::Ins21h(i) => i.encoding(),
            Instruction::Ins21c(i) => i.encoding(),
            Instruction::Ins23x(i) => i.encoding(),
            Instruction::Ins22b(i) => i.encoding(),
            Instruction::Ins22t(i) => i.encoding(),
            Instruction::Ins22s(i) => i.encoding(),
            Instruction::Ins22c(i) => i.encoding(),
            Instruction::Ins22cs(i) => i.encoding(),
            Instruction::Ins30t(i) => i.encoding(),
            Instruction::Ins32x(i) => i.encoding(),
            Instruction::Ins31i(i) => i.encoding(),
            Instruction::Ins31t(i) => i.encoding(),
            Instruction::Ins31c(i) => i.encoding(),
            Instruction::Ins35c(i) => i.encoding(),
            Instruction::Ins35ms(i) => i.encoding(),
            Instruction::Ins35mi(i) => i.encoding(),
            Instruction::Ins3rc(i) => i.encoding(),
            Instruction::Ins3rms(i) => i.encoding(),
            Instruction::Ins3rmi(i) => i.encoding(),
            Instruction::Ins45cc(i) => i.encoding(),
            Instruction::Ins4rcc(i) => i.encoding(),
            Instruction::Ins51l(i) => i.encoding(),
            Instruction::PackedSwitchPayload(i) => i.encoding(),
            Instruction::SparseSwitchPayload(i) => i.encoding(),
            Instruction::FillArrayDataPayload(i) => i.encoding(),
        }
    }

    pub open spec fn well_formed(self) -> bool {
        match self {
            Instruction::Ins10x(i) => i.well_formed(),
            Instruction::Ins12x(i) => i.well_formed(),
            Instruction::Ins11n(i) => i.well_formed(),
            Instruction::Ins11x(i) => i.well_formed(),
            Instruction::Ins10t(i) => i.well_formed(),
            Instruction::Ins20t(i) => i.well_formed(),
            Instruction::Ins20bc(i) => i.well_formed(),
            Instruction::Ins22x(i) => i.well_formed(),
            Instruction::Ins21t(i) => i.well_formed(),
            Instruction::Ins21s(i) => i.well_formed(),
            Instruction::Ins21h(i) => i.well_formed(),
            Instruction::Ins21c(i) => i.well_formed(),
            Instruction::Ins23x(i) => i.well_formed(),
            Instruction::Ins22b(i) => i.well_formed(),
            Instruction::Ins22t(i) => i.well_formed(),
            Instruction::Ins22s(i) => i.well_formed(),
            Instruction::Ins22c(i) => i.well_formed(),
            Instruction::Ins22cs(i) => i.well_formed(),
            Instruction::Ins30t(i) => i.well_formed(),
            Instruction::Ins32x(i) => i.well_formed(),
            Instruction::Ins31i(i) => i.well_formed(),
            Instruction::Ins31t(i) => i.well_formed(),
            Instruction::Ins31c(i) => i.well_formed(),
            Instruction::Ins35c(i) => i.well_formed(),
            Instruction::Ins35ms(i) => i.well_formed(),
            Instruction::Ins35mi(i) => i.well_formed(),
            Instruction::Ins3rc(i) => i.well_formed(),
            Instruction::Ins3rms(i) => i.well_formed(),
            Instruction::Ins3rmi(i) => i.well_formed(),
            Instruction::Ins45cc(i) => i.well_formed(),
            Instruction::Ins4rcc(i) => i.well_formed(),
            Instruction::Ins51l(i) => i.well_formed(),
            Instruction::PackedSwitchPayload(i) => i.well_formed(),
            Instruction::SparseSwitchPayload(i) => i.well_formed(),
            Instruction::FillArrayDataPayload(i) => i.well_formed(),
        }
    }

    /// The position of this instruction's shape in the list of shapes.
    pub open spec fn shape(self) -> nat {
        match self {
            Instruction::Ins10x(_) => 0,
            Instruction::Ins12x(_) => 1,
            Instruction::Ins11n(_) => 2,
            Instruction::Ins11x(_) => 3,
            Instruction::Ins10t(_) => 4,
            Instruction::Ins20t(_) => 5,
            Instruction::Ins20bc(_) => 6,
            Instruction::Ins22x(_) => 7,
            Instruction::Ins21t(_) => 8,
            Instruction::Ins21s(_) => 9,
            Instruction::Ins21h(_) => 10,
            Instruction::Ins21c(_) => 11,
            Instruction::Ins23x(_) => 12,
            Instruction::Ins22b(_) => 13,
            Instruction::Ins22t(_) => 14,
            Instruction::Ins22s(_) => 15,
            Instruction::Ins22c(_) => 16,
            Instruction::Ins22cs(_) => 17,
            Instruction::Ins30t(_) => 18,
            Instruction::Ins32x(_) => 19,
            Instruction::Ins31i(_) => 20,
            Instruction::Ins31t(_) => 21,
            Instruction::Ins31c(_) => 22,
            Instruction::Ins35c(_) => 23,
            Instruction::Ins35ms(_) => 24,
            Instruction::Ins35mi(_) => 25,
            Instruction::Ins3rc(_) => 26,
            Instruction::Ins3rms(_) => 27,
            Instruction::Ins3rmi(_) => 28,
            Instruction::Ins45cc(_) => 29,
            Instruction::Ins4rcc(_) => 30,
            Instruction::Ins51l(_) => 31,
            Instruction::PackedSwitchPayload(_) => 32,
            Instruction::SparseSwitchPayload(_) => 33,
            Instruction::FillArrayDataPayload(_) => 34,
        }
    }

    /// Size of the instruction in bytes.
    pub fn size(&self) -> (r: usize)
        requires
            self.well_formed(),
            self.encoding().len() <= usize::MAX,
        ensures
            r == self.encoding().len(),
    {
        match self {
            Instruction::Ins10x(i) => i.size(),
            Instruction::Ins12x(i) => i.size(),
            Instruction::Ins11n(i) => i.size(),
            Instruction::Ins11x(i) => i.size(),
            Instruction::Ins10t(i) => i.size(),
            Instruction::Ins20t(i) => i.size(),
            Instruction::Ins20bc(i) => i.size(),
            Instruction::Ins22x(i) => i.size(),
            Instruction::Ins21t(i) => i.size(),
            Instruction::Ins21s(i) => i.size(),
            Instruction::Ins21h(i) => i.size(),
            Instruction::Ins21c(i) => i.size(),
            Instruction::Ins23x(i) => i.size(),
            Instruction::Ins22b(i) => i.size(),
            Instruction::Ins22t(i) => i.size(),
            Instruction::Ins22s(i) => i.size(),
            Instruction::Ins22c(i) => i.size(),
            Instruction::Ins22cs(i) => i.size(),
            Instruction::Ins30t(i) => i.size(),
            Instruction::Ins32x(i) => i.size(),
            Instruction::Ins31i(i) => i.size(),
            Instruction::Ins31t(i) => i.size(),
            Instruction::Ins31c(i) => i.size(),
            Instruction::Ins35c(i) => i.size(),
            Instruction::Ins35ms(i) => i.size(),
            Instruction::Ins35mi(i) => i.size(),
            Instruction::Ins3rc(i) => i.size(),
            Instruction::Ins3rms(i) => i.size(),
            Instruction::Ins3rmi(i) => i.size(),
            Instruction::Ins45cc(i) => i.size(),
            Instruction::Ins4rcc(i) => i.size(),
            Instruction::Ins51l(i) => i.size(),
            Instruction::PackedSwitchPayload(i) => i.size(),
            Instruction::SparseSwitchPayload(i) => i.size(),
            Instruction::FillArrayDataPayload(i) => i.size(),
        }
    }

    pub fn serialize(&self, out: &mut Vec<u8>)
        requires
            self.well_formed(),
        ensures
            final(out)@ == old(out)@ + self.encoding(),
    {
        match self {
            Instruction::Ins10x(i) => i.serialize(out),
            Instruction::Ins12x(i) => i.serialize(out),
            Instruction::Ins11n(i) => i.serialize(out),
            Instruction::Ins11x(i) => i.serialize(out),
            Instruction::Ins10t(i) => i.serialize(out),
            Instruction::Ins20t(i) => i.serialize(out),
            Instruction::Ins20bc(i) => i.serialize(out),
            Instruction::Ins22x(i) => i.serialize(out),
            Instruction::Ins21t(i) => i.serialize(out),
            Instruction::Ins21s(i) => i.serialize(out),
            Instruction::Ins21h(i) => i.serialize(out),
            Instruction::Ins21c(i) => i.serialize(out),
            Instruction::Ins23x(i) => i.serialize(out),
            Instruction::Ins22b(i) => i.serialize(out),
            Instruction::Ins22t(i) => i.serialize(out),
            Instruction::Ins22s(i) => i.serialize(out),
            Instruction::Ins22c(i) => i.serialize(out),
            Instruction::Ins22cs(i) => i.serialize(out),
            Instruction::Ins30t(i) => i.serialize(out),
            Instruction::Ins32x(i) => i.serialize(out),
            Instruction::Ins31i(i) => i.serialize(out),
            Instruction::Ins31t(i) => i.serialize(out),
            Instruction::Ins31c(i) => i.serialize(out),
            Instruction::Ins35c(i) => i.serialize(out),
            Instruction::Ins35ms(i) => i.serialize(out),
            Instruction::Ins35mi(i) => i.serialize(out),
            Instruction::Ins3rc(i) => i.serialize(out),
            Instruction::Ins3rms(i) => i.serialize(out),
            Instruction::Ins3rmi(i) => i.serialize(out),
            Instruction::Ins45cc(i) => i.serialize(out),
            Instruction::Ins4rcc(i) => i.serialize(out),
            Instruction::Ins51l(i) => i.serialize(out),
            Instruction::PackedSwitchPayload(i) => i.serialize(out),
            Instruction::SparseSwitchPayload(i) => i.serialize(out),
            Instruction::FillArrayDataPayload(i) => i.serialize(out),
        }
    }
}

/// The dispatch table: the shape that an opcode selects (for opcode `0x00`, the byte
/// after it chooses between `nop` and the three payloads); `35` where none does.
pub open spec fn opcode_shape(op: u8, next: u8) -> nat {
    if op == 0x00 {
        if next == 0 {
            0
        } else if next == 1 {
            32
        } else if next == 2 {
            33
        } else if next == 3 {
            34
        } else {
            35
        }
    } else if op == 0x01 {
        1
    } else if op == 0x02 {
        7
    } else if op == 0x03 {
        19
    } else if op == 0x04 {
        1
    } else if op == 0x05 {
        7
    } else if op == 0x06 {
        19
    } else if op == 0x07 {
        1
    } else if op == 0x08 {
        7
    } else if op == 0x09 {
        19
    } else if op == 0x0a {
        3
    } else if op == 0x0b {
        3
    } else if op == 0x0c {
        3
    } else if op == 0x0d {
        3
    } else if op == 0x0e {
        0
    } else if op == 0x0f {
        3
    } else if op == 0x10 {
        3
    } else if op == 0x11 {
        3
    } else if op == 0x12 {
        2
    } else if op == 0x13 {
        9
    } else if op == 0x14 {
        20
    } else if op == 0x15 {
        10
    } else if op == 0x16 {
        9
    } else if op == 0x17 {
        20
    } else if op == 0x18 {
        31
    } else if op == 0x19 {
        10
    } else if op == 0x1a {
        11
    } else if op == 0x1b {
        22
    } else if op == 0x1c {
        11
    } else if op == 0x1d {
        3
    } else if op == 0x1e {
        3
    } else if op == 0x1f {
        11
    } else if op == 0x20 {
        16
    } else if op == 0x21 {
        1
    } else if op == 0x22 {
        11
    } else if op == 0x23 {
        16
    } else if op == 0x24 {
        23
    } else if op == 0x25 {
        26
    } else if op == 0x26 {
        21
    } else if op == 0x27 {
        3
    } else if op == 0x28 {
        4
    } else if op == 0x29 {
        5
    } else if op == 0x2a {
        18
    } else if op == 0x2b {
        21
    } else if op == 0x2c {
        21
    } else if 0x2d <= op <= 0x31 {
        12
    } else if 0x32 <= op <= 0x37 {
        14
    } else if 0x38 <= op <= 0x3d {
        8
    } else if 0x3e <= op <= 0x43 {
        0
    } else if 0x44 <= op <= 0x51 {
        12
    } else if 0x52 <= op <= 0x5f {
        16
    } else if 0x60 <= op <= 0x6d {
        11
    } else if 0x6e <= op <= 0x72 {
        23
    } else if op == 0x73 {
        0
    } else if 0x74 <= op <= 0x78 {
        26
    } else if 0x79 <= op <= 0x7a {
        0
    } else if 0x7b <= op <= 0x8f {
        1
    } else if 0x90 <= op <= 0xaf {
        12
    } else if 0xb0 <= op <= 0xcf {
        1
    } else if 0xd0 <= op <= 0xd7 {
        15
    } else if 0xd8 <= op <= 0xe2 {
        13
    } else if 0xe3 <= op <= 0xf9 {
        0
    } else if op == 0xfa {
        29
    } else if op == 0xfb {
        30
    } else if op == 0xfc {
        23
    } else if op == 0xfd {
        26
    } else if op == 0xfe {
        11
    } else {
        11
    }
}


/// Decodes `nop` or one of the payloads, which share opcode `0x00`.
fn decode_nop_or_payload(data: &[u8], p: usize, op: u8) -> (res: Result<(Instruction, usize), DeserializeError>)
    requires
        p < data@.len(),
        op == 0,
    ensures
        data@[p as int] > 3 ==> res == Err::<(Instruction, usize), DeserializeError>(
            DeserializeError::FormatError,
        ),
        res matches Ok((i, end)) ==> i.well_formed() && p < end <= data@.len()
            && i.encoding() == le_bytes(op as int, 1) + data@.subrange(p as int, end as int)
            && i.shape() == opcode_shape(op, data@[p as int]),
        res is Err ==> forall|i: Instruction|
            i.well_formed() && i.shape() == opcode_shape(op, data@[p as int]) && i.encoding()[0]
                == op ==> !occurs_at(data@, p as int, #[trigger] i.encoding().drop_first()),
{
    let next = data[p];
    if next == 0 {
        match Ins10x::deserialize(data, p, op) {
            Ok((i, end)) => Ok((Instruction::Ins10x(i), end)),
            Err(e) => Err(e),
        }
    } else if next == 1 {
        match PackedSwitchPayload::deserialize(data, p, op) {
            Ok((i, end)) => Ok((Instruction::PackedSwitchPayload(i), end)),
            Err(e) => Err(e),
        }
    } else if next == 2 {
        match SparseSwitchPayload::deserialize(data, p, op) {
            Ok((i, end)) => Ok((Instruction::SparseSwitchPayload(i), end)),
            Err(e) => Err(e),
        }
    } else if next == 3 {
        match FillArrayDataPayload::deserialize(data, p, op) {
            Ok((i, end)) => Ok((Instruction::FillArrayDataPayload(i), end)),
            Err(e) => Err(e),
        }
    } else {
        Err(DeserializeError::FormatError)
    }
}

/// Decodes the rest of an instruction with an opcode in `0x01..=0x3f`.
#[verifier::rlimit(100)]
fn decode_opcode_01_3f(data: &[u8], p: usize, op: u8) -> (res: Result<(Instruction, usize), DeserializeError>)
    requires
        p < data@.len(),
        0x01 <= op <= 0x3f,
    ensures
        res matches Ok((i, end)) ==> i.well_formed() && p < end <= data@.len()
            && i.encoding() == le_bytes(op as int, 1) + data@.subrange(p as int, end as int)
            && i.shape() == opcode_shape(op, data@[p as int]),
        res is Err ==> forall|i: Instruction|
            i.well_formed() && i.shape() == opcode_shape(op, data@[p as int]) && i.encoding()[0]
                == op ==> !occurs_at(data@, p as int, #[trigger] i.encoding().drop_first()),
{
    match op {
        0x01 => match Ins12x::deserialize(data, p, op) {
            Ok((i, end)) => Ok((Instruction::Ins12x(i), end)),
            Err(e) => Err(e),
        },
        0x02 => match Ins22x::deserialize(data, p, op) {
            Ok((i, end)) => Ok((Instruction::Ins22x(i), end)),
            Err(e) => Err(e),
        },
        0x03 => match Ins32x::deserialize(data, p, op) {
            Ok((i, end)) => Ok((Instruction::Ins32x(i), end)),
            Err(e) => Err(e),
        },
        0x04 => match Ins12x::deserialize(data, p, op) {
            Ok((i, end)) => Ok((Instruction::Ins12x(i), end)),
            Err(e) => Err(e),
        },
        0x05 => match Ins22x::deserialize(data, p, op) {
            Ok((i, end)) => Ok((Instruction::Ins22x(i), end)),
            Err(e) => Err(e),
        },
        0x06 => match Ins32x::deserialize(data, p, op) {
            Ok((i, end)) => Ok((Instruction::Ins32x(i), end)),
            Err(e) => Err(e),
        },
        0x07 => match Ins12x::deserialize(data, p, op) {
            Ok((i, end)) => Ok((Instruction::Ins12x(i), end)),
            Err(e) => Err(e),
        },
        0x08 => match Ins22x::deserialize(data, p, op) {
            Ok((i, end)) => Ok((Instruction::Ins22x(i), end)),
            Err(e) => Err(e),
        },
        0x09 => match Ins32x::deserialize(data, p, op) {
            Ok((i, end)) => Ok((Instruction::Ins32x(i), end)),
            Err(e) => Err(e),
        },
        0x0a..=0x0d => match Ins11x::deserialize(data, p, op) {
            Ok((i, end)) => Ok((Instruction::Ins11x(i), end)),
            Err(e) => Err(e),
        },
        0x0e => match Ins10x::deserialize(data, p, op) {
            Ok((i, end)) => Ok((Instruction::Ins10x(i), end)),
            Err(e) => Err(e),
        },
        0x0f..=0x11 => match Ins11x::deserialize(data, p, op) {
            Ok((i, end)) => Ok((Instruction::Ins11x(i), end)),
            Err(e) => Err(e),
        },
        0x12 => match Ins11n::deserialize(data, p, op) {
            Ok((i, end)) => Ok((Instruction::Ins11n(i), end)),
            Err(e) => Err(e),
        },
        0x13 => match Ins21s::deserialize(data, p, op) {
            Ok((i, end)) => Ok((Instruction::Ins21s(i), end)),
            Err(e) => Err(e),
        },
        0x14 => match Ins31i::deserialize(data, p, op) {
            Ok((i, end)) => Ok((Instruction::Ins31i(i), end)),
            Err(e) => Err(e),
        },
        0x15 => match Ins21h::deserialize(data, p, op) {
            Ok((i, end)) => Ok((Instruction::Ins21h(i), end)),
            Err(e) => Err(e),
        },
        0x16 => match Ins21s::deserialize(data, p, op) {
            Ok((i, end)) => Ok((Instruction::Ins21s(i), end)),
            Err(e) => Err(e),
        },
        0x17 => match Ins31i::deserialize(data, p, op) {
            Ok((i, end)) => Ok((Instruction::Ins31i(i), end)),
            Err(e) => Err(e),
        },
        0x18 => match Ins51l::deserialize(data, p, op) {
            Ok((i, end)) => Ok((Instruction::Ins51l(i), end)),
            Err(e) => Err(e),
        },
        0x19 => match Ins21h::deserialize(data, p, op) {
            Ok((i, end)) => Ok((Instruction::Ins21h(i), end)),
            Err(e) => Err(e),
        },
        0x1a => match Ins21c::deserialize(data, p, op) {
            Ok((i, end)) => Ok((Instruction::Ins21c(i), end)),
            Err(e) => Err(e),
        },
        0x1b => match Ins31c::deserialize(data, p, op) {
            Ok((i, end)) => Ok((Instruction::Ins31c(i), end)),
            Err(e) => Err(e),
        },
        0x1c => match Ins21c::deserialize(data, p, op) {
            Ok((i, end)) => Ok((Instruction::Ins21c(i), end)),
            Err(e) => Err(e),
        },
        0x1d..=0x1e => match Ins11x::deserialize(data, p, op) {
            Ok((i, end)) => Ok((Instruction::Ins11x(i), end)),
            Err(e) => Err(e),
        },
        0x1f => match Ins21c::deserialize(data, p, op) {
            Ok((i, end)) => Ok((Instruction::Ins21c(i), end)),
            Err(e) => Err(e),
        },
        0x20 => match Ins22c::deserialize(data, p, op) {
            Ok((i, end)) => Ok((Instruction::Ins22c(i), end)),
            Err(e) => Err(e),
        },
        0x21 => match Ins12x::deserialize(data, p, op) {
            Ok((i, end)) => Ok((Instruction::Ins12x(i), end)),
            Err(e) => Err(e),
        },
        0x22 => match Ins21c::deserialize(data, p, op) {
            Ok((i, end)) => Ok((Instruction::Ins21c(i), end)),
            Err(e) => Err(e),
        },
        0x23 => match Ins22c::deserialize(data, p, op) {
            Ok((i, end)) => Ok((Instruction::Ins22c(i), end)),
            Err(e) => Err(e),
        },
        0x24 => match Ins35c::deserialize(data, p, op) {
            Ok((i, end)) => Ok((Instruction::Ins35c(i), end)),
            Err(e) => Err(e),
        },
        0x25 => match Ins3rc::deserialize(data, p, op) {
            Ok((i, end)) => Ok((Instruction::Ins3rc(i), end)),
            Err(e) => Err(e),
        },
        0x26 => match Ins31t::deserialize(data, p, op) {
            Ok((i, end)) => Ok((Instruction::Ins31t(i), end)),
            Err(e) => Err(e),
        },
        0x27 => match Ins11x::deserialize(data, p, op) {
            Ok((i, end)) => Ok((Instruction::Ins11x(i), end)),
            Err(e) => Err(e),
        },
        0x28 => match Ins10t::deserialize(data, p, op) {
            Ok((i, end)) => Ok((Instruction::Ins10t(i), end)),
            Err(e) => Err(e),
        },
        0x29 => match Ins20t::deserialize(data, p, op) {
            Ok((i, end)) => Ok((Instruction::Ins20t(i), end)),
            Err(e) => Err(e),
        },
        0x2a => match Ins30t::deserialize(data, p, op) {
            Ok((i, end)) => Ok((Instruction::Ins30t(i), end)),
            Err(e) => Err(e),
        },
        0x2b..=0x2c => match Ins31t::deserialize(data, p, op) {
            Ok((i, end)) => Ok((Instruction::Ins31t(i), end)),
            Err(e) => Err(e),
        },
        0x2d..=0x31 => match Ins23x::deserialize(data, p, op) {
            Ok((i, end)) => Ok((Instruction::Ins23x(i), end)),
            Err(e) => Err(e),
        },
        0x32..=0x37 => match Ins22t::deserialize(data, p, op) {
            Ok((i, end)) => Ok((Instruction::Ins22t(i), end)),
            Err(e) => Err(e),
        },
        0x38..=0x3d => match Ins21t::deserialize(data, p, op) {
            Ok((i, end)) => Ok((Instruction::Ins21t(i), end)),
            Err(e) => Err(e),
        },
        0x3e..=0x3f => match Ins10x::deserialize(data, p, op) {
            Ok((i, end)) => Ok((Instruction::Ins10x(i), end)),
            Err(e) => Err(e),
        },
        _ => Err(DeserializeError::FormatError),
    }
}

/// Decodes the rest of an instruction with an opcode in `0x40..=0x7f`.
#[verifier::rlimit(100)]
fn decode_opcode_40_7f(data: &[u8], p: usize, op: u8) -> (res: Result<(Instruction, usize), DeserializeError>)
    requires
        p < data@.len(),
        0x40 <= op <= 0x7f,
    ensures
        res matches Ok((i, end)) ==> i.well_formed() && p < end <= data@.len()
            && i.encoding() == le_bytes(op as int, 1) + data@.subrange(p as int, end as int)
            && i.shape() == opcode_shape(op, data@[p as int]),
        res is Err ==> forall|i: Instruction|
            i.well_formed() && i.shape() == opcode_shape(op, data@[p as int]) && i.encoding()[0]
                == op ==> !occurs_at(data@, p as int, #[trigger] i.encoding().drop_first()),
{
    match op {
        0x40..=0x43 => match Ins10x::deserialize(data, p, op) {
            Ok((i, end)) => Ok((Instruction::Ins10x(i), end)),
            Err(e) => Err(e),
        },
        0x44..=0x51 => match Ins23x::deserialize(data, p, op) {
            Ok((i, end)) => Ok((Instruction::Ins23x(i), end)),
            Err(e) => Err(e),
        },
        0x52..=0x5f => match Ins22c::deserialize(data, p, op) {
            Ok((i, end)) => Ok((Instruction::Ins22c(i), end)),
            Err(e) => Err(e),
        },
        0x60..=0x6d => match Ins21c::deserialize(data, p, op) {
            Ok((i, end)) => Ok((Instruction::Ins21c(i), end)),
            Err(e) => Err(e),
        },
        0x6e..=0x72 => match Ins35c::deserialize(data, p, op) {
            Ok((i, end)) => Ok((Instruction::Ins35c(i), end)),
            Err(e) => Err(e),
        },
        0x73 => match Ins10x::deserialize(data, p, op) {
            Ok((i, end)) => Ok((Instruction::Ins10x(i), end)),
            Err(e) => Err(e),
        },
        0x74..=0x78 => match Ins3rc::deserialize(data, p, op) {
            Ok((i, end)) => Ok((Instruction::Ins3rc(i), end)),
            Err(e) => Err(e),
        },
        0x79..=0x7a => match Ins10x::deserialize(data, p, op) {
            Ok((i, end)) => Ok((Instruction::Ins10x(i), end)),
            Err(e) => Err(e),
        },
        0x7b..=0x7f => match Ins12x::deserialize(data, p, op) {
            Ok((i, end)) => Ok((Instruction::Ins12x(i), end)),
            Err(e) => Err(e),
        },
        _ => Err(DeserializeError::FormatError),
    }
}

/// Decodes the rest of an instruction with an opcode in `0x80..=0xbf`.
#[verifier::rlimit(100)]
fn decode_opcode_80_bf(data: &[u8], p: usize, op: u8) -> (res: Result<(Instruction, usize), DeserializeError>)
    requires
        p < data@.len(),
        0x80 <= op <= 0xbf,
    ensures
        res matches Ok((i, end)) ==> i.well_formed() && p < end <= data@.len()
            && i.encoding() == le_bytes(op as int, 1) + data@.subrange(p as int, end as int)
            && i.shape() == opcode_shape(op, data@[p as int]),
        res is Err ==> forall|i: Instruction|
            i.well_formed() && i.shape() == opcode_shape(op, data@[p as int]) && i.encoding()[0]
                == op ==> !occurs_at(data@, p as int, #[trigger] i.encoding().drop_first()),
{
    match op {
        0x80..=0x8f => match Ins12x::deserialize(data, p, op) {
            Ok((i, end)) => Ok((Instruction::Ins12x(i), end)),
            Err(e) => Err(e),
        },
        0x90..=0xaf => match Ins23x::deserialize(data, p, op) {
            Ok((i, end)) => Ok((Instruction::Ins23x(i), end)),
            Err(e) => Err(e),
        },
        0xb0..=0xbf => match Ins12x::deserialize(data, p, op) {
            Ok((i, end)) => Ok((Instruction::Ins12x(i), end)),
            Err(e) => Err(e),
        },
        _ => Err(DeserializeError::FormatError),
    }
}

/// Decodes the rest of an instruction with an opcode in `0xc0..=0xff`.
#[verifier::rlimit(100)]
fn decode_opcode_c0_ff(data: &[u8], p: usize, op: u8) -> (res: Result<(Instruction, usize), DeserializeError>)
    requires
        p < data@.len(),
        0xc0 <= op <= 0xff,
    ensures
        res matches Ok((i, end)) ==> i.well_formed() && p < end <= data@.len()
            && i.encoding() == le_bytes(op as int, 1) + data@.subrange(p as int, end as int)
            && i.shape() == opcode_shape(op, data@[p as int]),
        res is Err ==> forall|i: Instruction|
            i.well_formed() && i.shape() == opcode_shape(op, data@[p as int]) && i.encoding()[0]
                == op ==> !occurs_at(data@, p as int, #[trigger] i.encoding().drop_first()),
{
    match op {
        0xc0..=0xcf => match Ins12x::deserialize(data, p, op) {
            Ok((i, end)) => Ok((Instruction::Ins12x(i), end)),
            Err(e) => Err(e),
        },
        0xd0..=0xd7 => match Ins22s::deserialize(data, p, op) {
            Ok((i, end)) => Ok((Instruction::Ins22s(i), end)),
            Err(e) => Err(e),
        },
        0xd8..=0xe2 => match Ins22b::deserialize(data, p, op) {
            Ok((i, end)) => Ok((Instruction::Ins22b(i), end)),
            Err(e) => Err(e),
        },
        0xe3..=0xf9 => match Ins10x::deserialize(data, p, op) {
            Ok((i, end)) => Ok((Instruction::Ins10x(i), end)),
            Err(e) => Err(e),
        },
        0xfa => match Ins45cc::deserialize(data, p, op) {
            Ok((i, end)) => Ok((Instruction::Ins45cc(i), end)),
            Err(e) => Err(e),
        },
        0xfb => match Ins4rcc::deserialize(data, p, op) {
            Ok((i, end)) => Ok((Instruction::Ins4rcc(i), end)),
            Err(e) => Err(e),
        },
        0xfc => match Ins35c::deserialize(data, p, op) {
            Ok((i, end)) => Ok((Instruction::Ins35c(i), end)),
            Err(e) => Err(e),
        },
        0xfd => match Ins3rc::deserialize(data, p, op) {
            Ok((i, end)) => Ok((Instruction::Ins3rc(i), end)),
            Err(e) => Err(e),
        },
        0xfe..=0xff => match Ins21c::deserialize(data, p, op) {
            Ok((i, end)) => Ok((Instruction::Ins21c(i), end)),
            Err(e) => Err(e),
        },
        _ => Err(DeserializeError::FormatError),
    }
}

/// Decodes the rest of the instruction whose opcode `op` was read just before `p`.
fn decode_after_opcode(data: &[u8], p: usize, op: u8) -> (res: Result<(Instruction, usize), DeserializeError>)
    requires
        p < data@.len(),
    ensures
        op == 0 && data@[p as int] > 3 ==> res == Err::<(Instruction, usize), DeserializeError>(
            DeserializeError::FormatError,
        ),
        res matches Ok((i, end)) ==> i.well_formed() && p < end <= data@.len()
            && i.encoding() == le_bytes(op as int, 1) + data@.subrange(p as int, end as int)
            && i.shape() == opcode_shape(op, data@[p as int]),
        res is Err ==> forall|i: Instruction|
            i.well_formed() && i.shape() == opcode_shape(op, data@[p as int]) && i.encoding()[0]
                == op ==> !occurs_at(data@, p as int, #[trigger] i.encoding().drop_first()),
{
    if op == 0 {
        decode_nop_or_payload(data, p, op)
    } else if op < 0x40 {
        decode_opcode_01_3f(data, p, op)
    } else if op < 0x80 {
        decode_opcode_40_7f(data, p, op)
    } else if op < 0xc0 {
        decode_opcode_80_bf(data, p, op)
    } else {
        decode_opcode_c0_ff(data, p, op)
    }
}

/// Decodes the instruction at `pos`, choosing its shape by its opcode.
pub fn decode_insn(data: &[u8], pos: usize) -> (res: Result<(Instruction, usize), DeserializeError>)
    ensures
        pos + 2 <= data@.len() && data@[pos as int] == 0 && data@[pos + 1] > 3 ==> res == Err::<
            (Instruction, usize),
            DeserializeError,
        >(DeserializeError::FormatError),
        res matches Ok((i, end)) ==> i.well_formed() && end == pos + i.encoding().len()
            && occurs_at(data@, pos as int, i.encoding()) && i.encoding().len() >= 2
            && i.shape() == opcode_shape(data@[pos as int], data@[pos + 1]),
        res is Err ==> forall|i: Instruction|
            i.well_formed() && i.shape() == opcode_shape(i.encoding()[0], i.encoding()[1])
                ==> !occurs_at(data@, pos as int, #[trigger] i.encoding()),
{
    let (op, p) = match decode_u8(data, pos) {
        Ok(r) => r,
        Err(e) => {
            assert forall|i: Instruction|
                i.well_formed() && i.shape() == opcode_shape(i.encoding()[0], i.encoding()[1])
                    implies !occurs_at(data@, pos as int, #[trigger] i.encoding()) by {
                lemma_insn_len(i);
            }
            return Err(e);
        },
    };
    if p >= data.len() {
        assert forall|i: Instruction|
            i.well_formed() && i.shape() == opcode_shape(i.encoding()[0], i.encoding()[1])
                implies !occurs_at(data@, pos as int, #[trigger] i.encoding()) by {
            lemma_insn_len(i);
        }
        return Err(DeserializeError::IoError);
    }
    proof {
        lemma_le_bytes_u8(op);
        assert(data@.subrange(pos as int, pos + 1) =~= seq![data@[pos as int]]);
        assert(seq![op][0] == seq![data@[pos as int]][0]);
    }
    let res = decode_after_opcode(data, p, op);
    match res {
        Ok((i, end)) => {
            proof {
                assert(data@.subrange(pos as int, end as int) =~= data@.subrange(pos as int, pos + 1)
                    + data@.subrange(p as int, end as int));
            }
            Ok((i, end))
        },
        Err(e) => {
            assert forall|i: Instruction|
                i.well_formed() && i.shape() == opcode_shape(i.encoding()[0], i.encoding()[1])
                    implies !occurs_at(data@, pos as int, #[trigger] i.encoding()) by {
                if occurs_at(data@, pos as int, i.encoding()) {
                    lemma_insn_len(i);
                    let e = i.encoding();
                    assert(e[0] == data@.subrange(pos as int, pos + e.len())[0]);
                    assert(e[1] == data@.subrange(pos as int, pos + e.len())[1]);
                    assert(data@.subrange(p as int, p + e.drop_first().len()) =~= e.drop_first());
                }
            }
            Err(e)
        },
    }
}

/// Every instruction is a whole number of code units, at least one.
proof fn lemma_insn_len(i: Instruction)
    ensures
        i.encoding().len() >= 2,
        i.encoding().len() % 2 == 0,
{
    match i {
        Instruction::PackedSwitchPayload(x) => {
            lemma_i32_seq_len(x.targets@);
        },
        Instruction::SparseSwitchPayload(x) => {
            lemma_i32_seq_len(x.keys@);
            lemma_i32_seq_len(x.targets@);
        },
        Instruction::FillArrayDataPayload(x) => {},
        _ => {},
    }
}

/// A well-formed instruction of the shape that its opcode selects.
pub open spec fn insn_consistent(i: Instruction) -> bool {
    i.well_formed() && i.shape() == opcode_shape(i.encoding()[0], i.encoding()[1])
}

/// Instruction encodings are prefix-free: two instructions of the shapes their opcodes
/// select, found at the same place, have the same encoding.
pub proof fn lemma_insn_prefix_free(data: Seq<u8>, pos: int, i: Instruction, j: Instruction)
    requires
        insn_consistent(i),
        insn_consistent(j),
        occurs_at(data, pos, i.encoding()),
        occurs_at(data, pos, j.encoding()),
    ensures
        i.encoding() == j.encoding(),
{
    lemma_insn_len(i);
    lemma_insn_len(j);
    let ei = i.encoding();
    let ej = j.encoding();
    assert(ei[0] == data.subrange(pos, pos + ei.len())[0]);
    assert(ej[0] == data.subrange(pos, pos + ej.len())[0]);
    assert(ei[1] == data.subrange(pos, pos + ei.len())[1]);
    assert(ej[1] == data.subrange(pos, pos + ej.len())[1]);
    assert(i.shape() == j.shape());
    lemma_pow256_values();
    match i {
        Instruction::PackedSwitchPayload(a) => {
            let b = j->PackedSwitchPayload_0;
            let ha = le_bytes(0, 1) + le_bytes(1, 1);
            lemma_occurs_prefix(data, pos, ha + le_bytes(a.size as int, 2) + le_bytes(a.first_key as int, 4), i32_seq(a.targets@));
            lemma_occurs_prefix(data, pos, ha + le_bytes(b.size as int, 2) + le_bytes(b.first_key as int, 4), i32_seq(b.targets@));
            lemma_occurs_prefix(data, pos, ha + le_bytes(a.size as int, 2), le_bytes(a.first_key as int, 4));
            lemma_occurs_prefix(data, pos, ha + le_bytes(b.size as int, 2), le_bytes(b.first_key as int, 4));
            lemma_occurs_prefix(data, pos, ha, le_bytes(a.size as int, 2));
            lemma_occurs_prefix(data, pos, ha, le_bytes(b.size as int, 2));
            lemma_le_bytes_injective(a.size as int, b.size as int, 2);
            lemma_i32_seq_len(a.targets@);
            lemma_i32_seq_len(b.targets@);
        },
        Instruction::SparseSwitchPayload(a) => {
            let b = j->SparseSwitchPayload_0;
            let ha = le_bytes(0, 1) + le_bytes(2, 1);
            lemma_occurs_prefix(data, pos, ha + le_bytes(a.size as int, 2) + i32_seq(a.keys@), i32_seq(a.targets@));
            lemma_occurs_prefix(data, pos, ha + le_bytes(b.size as int, 2) + i32_seq(b.keys@), i32_seq(b.targets@));
            lemma_occurs_prefix(data, pos, ha + le_bytes(a.size as int, 2), i32_seq(a.keys@));
            lemma_occurs_prefix(data, pos, ha + le_bytes(b.size as int, 2), i32_seq(b.keys@));
            lemma_occurs_prefix(data, pos, ha, le_bytes(a.size as int, 2));
            lemma_occurs_prefix(data, pos, ha, le_bytes(b.size as int, 2));
            lemma_le_bytes_injective(a.size as int, b.size as int, 2);
            lemma_i32_seq_len(a.keys@);
            lemma_i32_seq_len(b.keys@);
            lemma_i32_seq_len(a.targets@);
            lemma_i32_seq_len(b.targets@);
        },
        Instruction::FillArrayDataPayload(a) => {
            let b = j->FillArrayDataPayload_0;
            let ha = le_bytes(0, 1) + le_bytes(3, 1);
            let wa = le_bytes(a.element_width as int, 2);
            let wb = le_bytes(b.element_width as int, 2);
            let sa = le_bytes(a.size as int, 4);
            let sb = le_bytes(b.size as int, 4);
            lemma_occurs_prefix(data, pos, ha + wa + sa + a.data@, a.padding());
            lemma_occurs_prefix(data, pos, ha + wb + sb + b.data@, b.padding());
            lemma_occurs_prefix(data, pos, ha + wa + sa, a.data@);
            lemma_occurs_prefix(data, pos, ha + wb + sb, b.data@);
            lemma_occurs_prefix(data, pos, ha + wa, sa);
            lemma_occurs_prefix(data, pos, ha + wb, sb);
            lemma_occurs_prefix(data, pos, ha, wa);
            lemma_occurs_prefix(data, pos, ha, wb);
            lemma_le_bytes_injective(a.element_width as int, b.element_width as int, 2);
            lemma_le_bytes_injective(a.size as int, b.size as int, 4);
        },
        _ => {},
    }
    assert(ei.len() == ej.len());
}

/// The first `k + 1` instructions encode as the first `k` followed by the next one.
proof fn lemma_insns_encoding_prefix(s: Seq<Instruction>, k: int)
    requires
        0 <= k < s.len(),
    ensures
        insns_encoding(s.take(k + 1)) == insns_encoding(s.take(k)) + s[k].encoding(),
{
    assert(s.take(k + 1).drop_last() =~= s.take(k));
}

/// Where the instructions of `s` occur, so do those of each of its prefixes.
proof fn lemma_insns_occurs_take(data: Seq<u8>, pos: int, s: Seq<Instruction>, j: int)
    requires
        0 <= j <= s.len(),
        occurs_at(data, pos, insns_encoding(s)),
    ensures
        occurs_at(data, pos, insns_encoding(s.take(j))),
    decreases s.len() - j,
{
    if j == s.len() {
        assert(s.take(j) =~= s);
    } else {
        lemma_insns_occurs_take(data, pos, s, j + 1);
        lemma_insns_encoding_prefix(s, j);
        lemma_occurs_prefix(data, pos, insns_encoding(s.take(j)), s[j].encoding());
    }
}

/// The instructions of `s`, one after another.
pub open spec fn insns_encoding(s: Seq<Instruction>) -> Seq<u8>
    decreases s.len(),
{
    if s.len() == 0 {
        seq![]
    } else {
        insns_encoding(s.drop_last()) + s.last().encoding()
    }
}

/// Decodes instructions at `pos` until exactly `insns_size` 16-bit code units are used.
pub fn decode_insns(data: &[u8], pos: usize, insns_size: usize) -> (res: Result<
    (Vec<Instruction>, usize),
    DeserializeError,
>)
    ensures
        res matches Ok((v, end)) ==> (forall|i: int|
            0 <= i < v@.len() ==> insn_consistent(#[trigger] v@[i])) && insns_encoding(v@).len()
            == 2 * insns_size && end == pos + 2 * insns_size && occurs_at(
            data@,
            pos as int,
            insns_encoding(v@),
        ),
        res is Err ==> forall|s: Seq<Instruction>|
            (forall|i: int| 0 <= i < s.len() ==> insn_consistent(#[trigger] s[i]))
                && insns_encoding(s).len() == 2 * insns_size ==> !occurs_at(
                data@,
                pos as int,
                #[trigger] insns_encoding(s),
            ),
{
    if pos > data.len() {
        return Err(DeserializeError::IoError);
    }
    let mut insns: Vec<Instruction> = Vec::new();
    let mut remaining = insns_size;
    let mut p = pos;
    assert(data@.subrange(pos as int, pos as int) =~= insns_encoding(insns@));
    while remaining > 0
        invariant
            remaining <= insns_size,
            forall|i: int| 0 <= i < insns@.len() ==> insn_consistent(#[trigger] insns@[i]),
            insns_encoding(insns@).len() == 2 * (insns_size - remaining),
            p == pos + insns_encoding(insns@).len(),
            occurs_at(data@, pos as int, insns_encoding(insns@)),
            forall|s: Seq<Instruction>|
                (forall|i: int| 0 <= i < s.len() ==> insn_consistent(#[trigger] s[i]))
                    && insns_encoding(s).len() == 2 * insns_size && #[trigger] occurs_at(
                    data@,
                    pos as int,
                    insns_encoding(s),
                ) ==> insns@.len() <= s.len() && insns_encoding(s.take(insns@.len() as int))
                    == insns_encoding(insns@),
        decreases remaining,
    {
        let k = insns.len();
        let (insn, next) = match decode_insn(data, p) {
            Ok(r) => r,
            Err(e) => {
                assert forall|s: Seq<Instruction>|
                    (forall|i: int| 0 <= i < s.len() ==> insn_consistent(#[trigger] s[i]))
                        && insns_encoding(s).len() == 2 * insns_size implies !occurs_at(
                    data@,
                    pos as int,
                    #[trigger] insns_encoding(s),
                ) by {
                    if occurs_at(data@, pos as int, insns_encoding(s)) {
                        if s.len() == k {
                            assert(s.take(k as int) =~= s);
                        } else {
                            lemma_insns_occurs_take(data@, pos as int, s, k + 1);
                            lemma_insns_encoding_prefix(s, k as int);
                            lemma_occurs_prefix(data@, pos as int, insns_encoding(s.take(k as int)), s[k as int].encoding());
                            assert(insn_consistent(s[k as int]));
                        }
                    }
                }
                return Err(e);
            },
        };
        proof {
            lemma_insn_len(insn);
        }
        let units = insn.size() / 2;
        if insn.size() % 2 != 0 || units > remaining {
            assert forall|s: Seq<Instruction>|
                (forall|i: int| 0 <= i < s.len() ==> insn_consistent(#[trigger] s[i]))
                    && insns_encoding(s).len() == 2 * insns_size implies !occurs_at(
                data@,
                pos as int,
                #[trigger] insns_encoding(s),
            ) by {
                if occurs_at(data@, pos as int, insns_encoding(s)) {
                    if s.len() == k {
                        assert(s.take(k as int) =~= s);
                    } else {
                        lemma_insns_occurs_take(data@, pos as int, s, k + 1);
                        lemma_insns_encoding_prefix(s, k as int);
                        lemma_occurs_prefix(data@, pos as int, insns_encoding(s.take(k as int)), s[k as int].encoding());
                        assert(insn_consistent(s[k as int]));
                        lemma_insn_prefix_free(data@, p as int, insn, s[k as int]);
                        lemma_insns_take_len(s, k + 1);
                    }
                }
            }
            return Err(DeserializeError::FormatError);
        }
        proof {
            lemma_occurs_concat(data@, pos as int, insns_encoding(insns@), insn.encoding());
        }
        let ghost prev = insns@;
        insns.push(insn);
        assert(insns@.drop_last() =~= prev);
        proof {
            assert forall|s: Seq<Instruction>|
                (forall|i: int| 0 <= i < s.len() ==> insn_consistent(#[trigger] s[i]))
                    && insns_encoding(s).len() == 2 * insns_size && #[trigger] occurs_at(
                    data@,
                    pos as int,
                    insns_encoding(s),
                ) implies insns@.len() <= s.len() && insns_encoding(s.take(insns@.len() as int))
                == insns_encoding(insns@) by {
                if s.len() == k {
                    assert(s.take(k as int) =~= s);
                } else {
                    lemma_insns_occurs_take(data@, pos as int, s, k + 1);
                    lemma_insns_encoding_prefix(s, k as int);
                    lemma_occurs_prefix(data@, pos as int, insns_encoding(s.take(k as int)), s[k as int].encoding());
                    assert(insn_consistent(s[k as int]));
                    lemma_insn_prefix_free(data@, p as int, insn, s[k as int]);
                }
            }
        }
        remaining = remaining - units;
        p = next;
    }
    Ok((insns, p))
}

/// A prefix of the instructions encodes to no more bytes than all of them.
proof fn lemma_insns_take_len(s: Seq<Instruction>, j: int)
    requires
        0 <= j <= s.len(),
    ensures
        insns_encoding(s.take(j)).len() <= insns_encoding(s).len(),
    decreases s.len() - j,
{
    if j < s.len() {
        lemma_insns_take_len(s, j + 1);
        lemma_insns_encoding_prefix(s, j);
    } else {
        assert(s.take(j) =~= s);
    }
}

} // verus!
