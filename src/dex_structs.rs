//! The structural records of a DEX file. Every record type implements [`DexStruct`]:
//! it can be read from a position of the input, appended to an output, and report
//! its encoded size, all against one spec function, its `encoding`.
use crate::decode::{
    lemma_sleb128_prefix_free, lemma_uleb128_prefix_free, lemma_uleb128p1_prefix_free,
    decode_sleb128, decode_u16, decode_u32, decode_u8, decode_uleb128, decode_uleb128p1,
};
use crate::encode::{
    encode_sleb128, encode_u16, encode_u32, encode_u8, encode_uleb128, encode_uleb128p1,
    size_sleb128, size_uleb128, size_uleb128p1,
};
use crate::wire::{
    le_bytes, le_value, lemma_le_bytes_injective, lemma_le_bytes_len, lemma_le_bytes_value,
    lemma_pow256_values, occurs_at, sleb128_bytes, uleb128_bytes, uleb128p1_bytes,
};
pub use crate::encoded_value::{
    AnnotationElement, AnnotationItem, EncodedAnnotation, EncodedArray, EncodedArrayItem,
    EncodedValue,
};
use crate::DeserializeError;
use vstd::prelude::*;

verus! {

broadcast use lemma_le_bytes_len;

pub trait DexStruct: Sized {
    /// The bytes of this record on the wire.
    spec fn encoding(&self) -> Seq<u8>;

    /// This record can be written: every count field can hold its list's length.
    spec fn well_formed(&self) -> bool;

    /// The alignment, relative to the file start, that each record of this kind needs.
    spec fn spec_alignment() -> nat;

    fn alignment() -> (r: usize)
        ensures
            r == Self::spec_alignment(),
            r == 1 || r == 4,
    ;

    /// Reads one record at `pos`; on success also returns the position just past it.
    /// It fails only where no well-formed record is encoded at `pos`.
    fn deserialize(data: &[u8], pos: usize) -> (res: Result<(Self, usize), DeserializeError>)
        ensures
            res matches Ok((v, end)) ==> v.well_formed() && end == pos + v.encoding().len()
                && occurs_at(data@, pos as int, v.encoding()),
            res is Err ==> forall|v: Self|
                v.well_formed() ==> !occurs_at(data@, pos as int, #[trigger] v.encoding()),
    ;

    /// The encoding is prefix-free: two well-formed records whose encodings both start
    /// at `pos` have the same encoding.
    proof fn lemma_prefix_free(data: Seq<u8>, pos: int, a: Self, b: Self)
        requires
            a.well_formed(),
            b.well_formed(),
            occurs_at(data, pos, a.encoding()),
            occurs_at(data, pos, b.encoding()),
        ensures
            a.encoding() == b.encoding(),
    ;

    /// Appends the record's bytes to `out`.
    fn serialize(&self, out: &mut Vec<u8>)
        requires
            self.well_formed(),
        ensures
            final(out)@ == old(out)@ + self.encoding(),
    ;

    /// The number of bytes `serialize` writes.
    fn size(&self) -> (r: usize)
        requires
            self.well_formed(),
            self.encoding().len() <= usize::MAX,
        ensures
            r == self.encoding().len(),
    ;
}

/// The records of `s`, one after another, with no padding between them.
pub open spec fn encode_seq<T: DexStruct>(s: Seq<T>) -> Seq<u8>
    decreases s.len(),
{
    if s.len() == 0 {
        seq![]
    } else {
        encode_seq(s.drop_last()) + s.last().encoding()
    }
}

pub open spec fn all_well_formed<T: DexStruct>(s: Seq<T>) -> bool {
    forall|i: int| 0 <= i < s.len() ==> (#[trigger] s[i]).well_formed()
}

/// Two adjacent occurrences make one.
pub proof fn lemma_occurs_concat(data: Seq<u8>, pos: int, a: Seq<u8>, b: Seq<u8>)
    requires
        occurs_at(data, pos, a),
        occurs_at(data, pos + a.len(), b),
    ensures
        occurs_at(data, pos, a + b),
{
    assert(data.subrange(pos, pos + a.len() + b.len()) =~= a + b) by {
        assert forall|i: int| 0 <= i < a.len() + b.len() implies data.subrange(
            pos,
            pos + a.len() + b.len(),
        )[i] == (a + b)[i] by {
            if i < a.len() {
                assert(data.subrange(pos, pos + a.len())[i] == a[i]);
            } else {
                assert(data.subrange(pos + a.len(), pos + a.len() + b.len())[i - a.len()] == b[i
                    - a.len()]);
            }
        }
    }
}

/// Where a concatenation occurs, so do its two parts.
pub proof fn lemma_occurs_prefix(data: Seq<u8>, pos: int, a: Seq<u8>, b: Seq<u8>)
    requires
        occurs_at(data, pos, a + b),
    ensures
        occurs_at(data, pos, a),
        occurs_at(data, pos + a.len(), b),
{
    let whole = data.subrange(pos, pos + a.len() + b.len());
    assert(whole == a + b);
    assert(data.subrange(pos, pos + a.len()) =~= whole.subrange(0, a.len() as int));
    assert(whole.subrange(0, a.len() as int) =~= a);
    assert(data.subrange(pos + a.len(), pos + a.len() + b.len()) =~= whole.subrange(
        a.len() as int,
        (a.len() + b.len()) as int,
    ));
    assert(whole.subrange(a.len() as int, (a.len() + b.len()) as int) =~= b);
}

/// A prefix of the records encodes to a prefix of the bytes.
pub proof fn lemma_encode_seq_prefix<T: DexStruct>(s: Seq<T>, i: int)
    requires
        0 <= i < s.len(),
    ensures
        encode_seq(s.take(i + 1)) == encode_seq(s.take(i)) + s[i].encoding(),
{
    assert(s.take(i + 1).drop_last() =~= s.take(i));
}

/// Where the records of `s` occur, so do those of each of its prefixes.
pub proof fn lemma_encode_seq_occurs_take<T: DexStruct>(data: Seq<u8>, pos: int, s: Seq<T>, j: int)
    requires
        0 <= j <= s.len(),
        occurs_at(data, pos, encode_seq(s)),
    ensures
        occurs_at(data, pos, encode_seq(s.take(j))),
    decreases s.len() - j,
{
    if j == s.len() {
        assert(s.take(j) =~= s);
    } else {
        lemma_encode_seq_occurs_take(data, pos, s, j + 1);
        lemma_encode_seq_prefix(s, j);
        lemma_occurs_prefix(data, pos, encode_seq(s.take(j)), s[j].encoding());
    }
}

/// Two equally long lists of well-formed records whose encodings both start at `pos`
/// have the same encoding.
pub proof fn lemma_encode_seq_prefix_free<T: DexStruct>(
    data: Seq<u8>,
    pos: int,
    s: Seq<T>,
    t: Seq<T>,
    k: int,
)
    requires
        s.len() == t.len(),
        0 <= k <= s.len(),
        all_well_formed(s),
        all_well_formed(t),
        occurs_at(data, pos, encode_seq(s)),
        occurs_at(data, pos, encode_seq(t)),
    ensures
        encode_seq(s.take(k)) == encode_seq(t.take(k)),
    decreases k,
{
    if k == 0 {
        assert(s.take(0) =~= t.take(0));
    } else {
        lemma_encode_seq_prefix_free(data, pos, s, t, k - 1);
        lemma_encode_seq_occurs_take(data, pos, s, k);
        lemma_encode_seq_occurs_take(data, pos, t, k);
        lemma_encode_seq_prefix(s, k - 1);
        lemma_encode_seq_prefix(t, k - 1);
        let e = encode_seq(s.take(k - 1));
        lemma_occurs_prefix(data, pos, e, s[k - 1].encoding());
        lemma_occurs_prefix(data, pos, e, t[k - 1].encoding());
        T::lemma_prefix_free(data, pos + e.len(), s[k - 1], t[k - 1]);
    }
}

/// The whole-list form of [`lemma_encode_seq_prefix_free`].
pub proof fn lemma_encode_seq_equal<T: DexStruct>(data: Seq<u8>, pos: int, s: Seq<T>, t: Seq<T>)
    requires
        s.len() == t.len(),
        all_well_formed(s),
        all_well_formed(t),
        occurs_at(data, pos, encode_seq(s)),
        occurs_at(data, pos, encode_seq(t)),
    ensures
        encode_seq(s) == encode_seq(t),
{
    lemma_encode_seq_prefix_free(data, pos, s, t, s.len() as int);
    assert(s.take(s.len() as int) =~= s);
    assert(t.take(t.len() as int) =~= t);
}

/// Reads `count` consecutive records of one kind.
pub fn deserialize_items<T: DexStruct>(data: &[u8], pos: usize, count: usize) -> (res: Result<
    (Vec<T>, usize),
    DeserializeError,
>)
    ensures
        res matches Ok((v, end)) ==> v@.len() == count && all_well_formed(v@) && end == pos
            + encode_seq(v@).len() && occurs_at(data@, pos as int, encode_seq(v@)),
        res is Err ==> forall|s: Seq<T>|
            s.len() == count && all_well_formed(s) ==> !occurs_at(
                data@,
                pos as int,
                #[trigger] encode_seq(s),
            ),
{
    if pos > data.len() {
        return Err(DeserializeError::IoError);
    }
    let mut items: Vec<T> = Vec::new();
    let mut p = pos;
    assert(data@.subrange(pos as int, pos as int) =~= encode_seq(items@));
    let mut i: usize = 0;
    while i < count
        invariant
            i <= count,
            items@.len() == i,
            all_well_formed(items@),
            p == pos + encode_seq(items@).len(),
            occurs_at(data@, pos as int, encode_seq(items@)),
            forall|s: Seq<T>|
                s.len() == count && all_well_formed(s) && #[trigger] occurs_at(
                    data@,
                    pos as int,
                    encode_seq(s),
                ) ==> encode_seq(s.take(i as int)) == encode_seq(items@),
        decreases count - i,
    {
        let (item, next) = match T::deserialize(data, p) {
            Ok(r) => r,
            Err(e) => {
                assert forall|s: Seq<T>|
                    s.len() == count && all_well_formed(s) implies !occurs_at(
                    data@,
                    pos as int,
                    #[trigger] encode_seq(s),
                ) by {
                    if occurs_at(data@, pos as int, encode_seq(s)) {
                        lemma_encode_seq_occurs_take(data@, pos as int, s, i + 1);
                        lemma_encode_seq_prefix(s, i as int);
                        lemma_occurs_prefix(data@, pos as int, encode_seq(s.take(i as int)), s[i as int].encoding());
                    }
                }
                return Err(e);
            },
        };
        proof {
            lemma_occurs_concat(data@, pos as int, encode_seq(items@), item.encoding());
        }
        let ghost prev = items@;
        items.push(item);
        proof {
            assert(items@.drop_last() =~= prev);
            assert forall|s: Seq<T>|
                s.len() == count && all_well_formed(s) && #[trigger] occurs_at(
                    data@,
                    pos as int,
                    encode_seq(s),
                ) implies encode_seq(s.take(i + 1)) == encode_seq(items@) by {
                lemma_encode_seq_occurs_take(data@, pos as int, s, i + 1);
                lemma_encode_seq_prefix(s, i as int);
                lemma_occurs_prefix(data@, pos as int, encode_seq(s.take(i as int)), s[i as int].encoding());
                T::lemma_prefix_free(data@, p as int, item, s[i as int]);
            }
        }
        p = next;
        i = i + 1;
    }
    Ok((items, p))
}

/// Appends each record in turn.
pub fn serialize_items<T: DexStruct>(items: &Vec<T>, out: &mut Vec<u8>)
    requires
        all_well_formed(items@),
    ensures
        final(out)@ == old(out)@ + encode_seq(items@),
{
    let mut i: usize = 0;
    while i < items.len()
        invariant
            i <= items@.len(),
            all_well_formed(items@),
            out@ == old(out)@ + encode_seq(items@.take(i as int)),
        decreases items@.len() - i,
    {
        proof {
            lemma_encode_seq_prefix(items@, i as int);
        }
        items[i].serialize(out);
        assert(out@ =~= old(out)@ + encode_seq(items@.take(i + 1)));
        i = i + 1;
    }
    assert(items@.take(items@.len() as int) =~= items@);
}

pub proof fn lemma_encode_seq_take_len<T: DexStruct>(s: Seq<T>, i: int)
    requires
        0 <= i <= s.len(),
    ensures
        encode_seq(s.take(i)).len() <= encode_seq(s).len(),
    decreases s.len() - i,
{
    if i < s.len() {
        lemma_encode_seq_take_len(s, i + 1);
        lemma_encode_seq_prefix(s, i);
    } else {
        assert(s.take(i) =~= s);
    }
}

/// The total encoded size of the records.
pub fn size_items<T: DexStruct>(items: &Vec<T>) -> (r: usize)
    requires
        all_well_formed(items@),
        encode_seq(items@).len() <= usize::MAX,
    ensures
        r == encode_seq(items@).len(),
{
    let mut total: usize = 0;
    let mut i: usize = 0;
    while i < items.len()
        invariant
            i <= items@.len(),
            all_well_formed(items@),
            encode_seq(items@).len() <= usize::MAX,
            total == encode_seq(items@.take(i as int)).len(),
        decreases items@.len() - i,
    {
        proof {
            lemma_encode_seq_prefix(items@, i as int);
            lemma_encode_seq_take_len(items@, i + 1);
        }
        total = total + items[i].size();
        i = i + 1;
    }
    assert(items@.take(items@.len() as int) =~= items@);
    total
}

/// An entry of the string identifiers table: where the string's data lies.
#[derive(Debug, Clone, Copy, PartialEq, Eq, Structural)]
pub struct StringIdItem {
    pub string_data_off: u32,
}

impl DexStruct for StringIdItem {
    open spec fn encoding(&self) -> Seq<u8> {
        le_bytes(self.string_data_off as int, 4)
    }

    open spec fn well_formed(&self) -> bool {
        true
    }

    open spec fn spec_alignment() -> nat {
        4
    }

    fn alignment() -> (r: usize) {
        4
    }

    proof fn lemma_prefix_free(data: Seq<u8>, pos: int, a: Self, b: Self) {
        assert(a.encoding().len() == b.encoding().len());
    }

    fn deserialize(data: &[u8], pos: usize) -> (res: Result<(Self, usize), DeserializeError>) {
        let (string_data_off, p) = match decode_u32(data, pos) {
            Ok(r) => r,
            Err(e) => return Err(e),
        };
        Ok((Self { string_data_off }, p))
    }

    fn serialize(&self, out: &mut Vec<u8>) {
        encode_u32(out, self.string_data_off);
    }

    fn size(&self) -> (r: usize) {
        4
    }
}

/// An entry of the type identifiers table: the string index of its descriptor.
#[derive(Debug, Clone, Copy, PartialEq, Eq, Structural)]
pub struct TypeIdItem {
    pub descriptor_idx: u32,
}

impl DexStruct for TypeIdItem {
    open spec fn encoding(&self) -> Seq<u8> {
        le_bytes(self.descriptor_idx as int, 4)
    }

    open spec fn well_formed(&self) -> bool {
        true
    }

    open spec fn spec_alignment() -> nat {
        4
    }

    fn alignment() -> (r: usize) {
        4
    }

    proof fn lemma_prefix_free(data: Seq<u8>, pos: int, a: Self, b: Self) {
        assert(a.encoding().len() == b.encoding().len());
    }

    fn deserialize(data: &[u8], pos: usize) -> (res: Result<(Self, usize), DeserializeError>) {
        let (descriptor_idx, p) = match decode_u32(data, pos) {
            Ok(r) => r,
            Err(e) => return Err(e),
        };
        Ok((Self { descriptor_idx }, p))
    }

    fn serialize(&self, out: &mut Vec<u8>) {
        encode_u32(out, self.descriptor_idx);
    }

    fn size(&self) -> (r: usize) {
        4
    }
}

/// A method prototype: short form, return type and parameter list.
#[derive(Debug, Clone, Copy, PartialEq, Eq, Structural)]
pub struct ProtoIdItem {
    pub shorty_idx: u32,
    pub return_type_idx: u32,
    pub parameters_off: u32,
}

impl DexStruct for ProtoIdItem {
    open spec fn encoding(&self) -> Seq<u8> {
        le_bytes(self.shorty_idx as int, 4) + le_bytes(self.return_type_idx as int, 4) + le_bytes(self.parameters_off as int, 4)
    }

    open spec fn well_formed(&self) -> bool {
        true
    }

    open spec fn spec_alignment() -> nat {
        4
    }

    fn alignment() -> (r: usize) {
        4
    }

    proof fn lemma_prefix_free(data: Seq<u8>, pos: int, a: Self, b: Self) {
        assert(a.encoding().len() == b.encoding().len());
    }

    fn deserialize(data: &[u8], pos: usize) -> (res: Result<(Self, usize), DeserializeError>) {
        let (shorty_idx, p) = match decode_u32(data, pos) {
            Ok(r) => r,
            Err(e) => return Err(e),
        };
        let (return_type_idx, p) = match decode_u32(data, p) {
            Ok(r) => r,
            Err(e) => return Err(e),
        };
        let (parameters_off, p) = match decode_u32(data, p) {
            Ok(r) => r,
            Err(e) => return Err(e),
        };
        proof {
            lemma_occurs_concat(data@, pos as int, le_bytes(shorty_idx as int, 4), le_bytes(return_type_idx as int, 4));
            lemma_occurs_concat(data@, pos as int, le_bytes(shorty_idx as int, 4) + le_bytes(return_type_idx as int, 4), le_bytes(parameters_off as int, 4));
        }
        Ok((Self { shorty_idx, return_type_idx, parameters_off }, p))
    }

    fn serialize(&self, out: &mut Vec<u8>) {
        encode_u32(out, self.shorty_idx);
        encode_u32(out, self.return_type_idx);
        encode_u32(out, self.parameters_off);
        assert(out@ =~= old(out)@ + self.encoding());
    }

    fn size(&self) -> (r: usize) {
        12
    }
}

/// A field reference: defining class, type and name.
#[derive(Debug, Clone, Copy, PartialEq, Eq, Structural)]
pub struct FieldIdItem {
    pub class_idx: u16,
    pub type_idx: u16,
    pub name_idx: u32,
}

impl DexStruct for FieldIdItem {
    open spec fn encoding(&self) -> Seq<u8> {
        le_bytes(self.class_idx as int, 2) + le_bytes(self.type_idx as int, 2) + le_bytes(self.name_idx as int, 4)
    }

    open spec fn well_formed(&self) -> bool {
        true
    }

    open spec fn spec_alignment() -> nat {
        4
    }

    fn alignment() -> (r: usize) {
        4
    }

    proof fn lemma_prefix_free(data: Seq<u8>, pos: int, a: Self, b: Self) {
        assert(a.encoding().len() == b.encoding().len());
    }

    fn deserialize(data: &[u8], pos: usize) -> (res: Result<(Self, usize), DeserializeError>) {
        let (class_idx, p) = match decode_u16(data, pos) {
            Ok(r) => r,
            Err(e) => return Err(e),
        };
        let (type_idx, p) = match decode_u16(data, p) {
            Ok(r) => r,
            Err(e) => return Err(e),
        };
        let (name_idx, p) = match decode_u32(data, p) {
            Ok(r) => r,
            Err(e) => return Err(e),
        };
        proof {
            lemma_occurs_concat(data@, pos as int, le_bytes(class_idx as int, 2), le_bytes(type_idx as int, 2));
            lemma_occurs_concat(data@, pos as int, le_bytes(class_idx as int, 2) + le_bytes(type_idx as int, 2), le_bytes(name_idx as int, 4));
        }
        Ok((Self { class_idx, type_idx, name_idx }, p))
    }

    fn serialize(&self, out: &mut Vec<u8>) {
        encode_u16(out, self.class_idx);
        encode_u16(out, self.type_idx);
        encode_u32(out, self.name_idx);
        assert(out@ =~= old(out)@ + self.encoding());
    }

    fn size(&self) -> (r: usize) {
        8
    }
}

/// A method reference: defining class, prototype and name.
#[derive(Debug, Clone, Copy, PartialEq, Eq, Structural)]
pub struct MethodIdItem {
    pub class_idx: u16,
    pub proto_idx: u16,
    pub name_idx: u32,
}

impl DexStruct for MethodIdItem {
    open spec fn encoding(&self) -> Seq<u8> {
        le_bytes(self.class_idx as int, 2) + le_bytes(self.proto_idx as int, 2) + le_bytes(self.name_idx as int, 4)
    }

    open spec fn well_formed(&self) -> bool {
        true
    }

    open spec fn spec_alignment() -> nat {
        4
    }

    fn alignment() -> (r: usize) {
        4
    }

    proof fn lemma_prefix_free(data: Seq<u8>, pos: int, a: Self, b: Self) {
        assert(a.encoding().len() == b.encoding().len());
    }

    fn deserialize(data: &[u8], pos: usize) -> (res: Result<(Self, usize), DeserializeError>) {
        let (class_idx, p) = match decode_u16(data, pos) {
            Ok(r) => r,
            Err(e) => return Err(e),
        };
        let (proto_idx, p) = match decode_u16(data, p) {
            Ok(r) => r,
            Err(e) => return Err(e),
        };
        let (name_idx, p) = match decode_u32(data, p) {
            Ok(r) => r,
            Err(e) => return Err(e),
        };
        proof {
            lemma_occurs_concat(data@, pos as int, le_bytes(class_idx as int, 2), le_bytes(proto_idx as int, 2));
            lemma_occurs_concat(data@, pos as int, le_bytes(class_idx as int, 2) + le_bytes(proto_idx as int, 2), le_bytes(name_idx as int, 4));
        }
        Ok((Self { class_idx, proto_idx, name_idx }, p))
    }

    fn serialize(&self, out: &mut Vec<u8>) {
        encode_u16(out, self.class_idx);
        encode_u16(out, self.proto_idx);
        encode_u32(out, self.name_idx);
        assert(out@ =~= old(out)@ + self.encoding());
    }

    fn size(&self) -> (r: usize) {
        8
    }
}

/// A class definition.
#[derive(Debug, Clone, Copy, PartialEq, Eq, Structural)]
pub struct ClassDefItem {
    pub class_idx: u32,
    pub access_flags: u32,
    pub superclass_idx: u32,
    pub interfaces_off: u32,
    pub source_file_idx: u32,
    pub annotations_off: u32,
    pub class_data_off: u32,
    pub static_values_off: u32,
}

impl DexStruct for ClassDefItem {
    open spec fn encoding(&self) -> Seq<u8> {
        le_bytes(self.class_idx as int, 4) + le_bytes(self.access_flags as int, 4) + le_bytes(self.superclass_idx as int, 4) + le_bytes(self.interfaces_off as int, 4) + le_bytes(self.source_file_idx as int, 4) + le_bytes(self.annotations_off as int, 4) + le_bytes(self.class_data_off as int, 4) + le_bytes(self.static_values_off as int, 4)
    }

    open spec fn well_formed(&self) -> bool {
        true
    }

    open spec fn spec_alignment() -> nat {
        4
    }

    fn alignment() -> (r: usize) {
        4
    }

    proof fn lemma_prefix_free(data: Seq<u8>, pos: int, a: Self, b: Self) {
        assert(a.encoding().len() == b.encoding().len());
    }

    fn deserialize(data: &[u8], pos: usize) -> (res: Result<(Self, usize), DeserializeError>) {
        let (class_idx, p) = match decode_u32(data, pos) {
            Ok(r) => r,
            Err(e) => return Err(e),
        };
        let (access_flags, p) = match decode_u32(data, p) {
            Ok(r) => r,
            Err(e) => return Err(e),
        };
        let (superclass_idx, p) = match decode_u32(data, p) {
            Ok(r) => r,
            Err(e) => return Err(e),
        };
        let (interfaces_off, p) = match decode_u32(data, p) {
            Ok(r) => r,
            Err(e) => return Err(e),
        };
        let (source_file_idx, p) = match decode_u32(data, p) {
            Ok(r) => r,
            Err(e) => return Err(e),
        };
        let (annotations_off, p) = match decode_u32(data, p) {
            Ok(r) => r,
            Err(e) => return Err(e),
        };
        let (class_data_off, p) = match decode_u32(data, p) {
            Ok(r) => r,
            Err(e) => return Err(e),
        };
        let (static_values_off, p) = match decode_u32(data, p) {
            Ok(r) => r,
            Err(e) => return Err(e),
        };
        proof {
            lemma_occurs_concat(data@, pos as int, le_bytes(class_idx as int, 4), le_bytes(access_flags as int, 4));
            lemma_occurs_concat(data@, pos as int, le_bytes(class_idx as int, 4) + le_bytes(access_flags as int, 4), le_bytes(superclass_idx as int, 4));
            lemma_occurs_concat(data@, pos as int, le_bytes(class_idx as int, 4) + le_bytes(access_flags as int, 4) + le_bytes(superclass_idx as int, 4), le_bytes(interfaces_off as int, 4));
            lemma_occurs_concat(data@, pos as int, le_bytes(class_idx as int, 4) + le_bytes(access_flags as int, 4) + le_bytes(superclass_idx as int, 4) + le_bytes(interfaces_off as int, 4), le_bytes(source_file_idx as int, 4));
            lemma_occurs_concat(data@, pos as int, le_bytes(class_idx as int, 4) + le_bytes(access_flags as int, 4) + le_bytes(superclass_idx as int, 4) + le_bytes(interfaces_off as int, 4) + le_bytes(source_file_idx as int, 4), le_bytes(annotations_off as int, 4));
            lemma_occurs_concat(data@, pos as int, le_bytes(class_idx as int, 4) + le_bytes(access_flags as int, 4) + le_bytes(superclass_idx as int, 4) + le_bytes(interfaces_off as int, 4) + le_bytes(source_file_idx as int, 4) + le_bytes(annotations_off as int, 4), le_bytes(class_data_off as int, 4));
            lemma_occurs_concat(data@, pos as int, le_bytes(class_idx as int, 4) + le_bytes(access_flags as int, 4) + le_bytes(superclass_idx as int, 4) + le_bytes(interfaces_off as int, 4) + le_bytes(source_file_idx as int, 4) + le_bytes(annotations_off as int, 4) + le_bytes(class_data_off as int, 4), le_bytes(static_values_off as int, 4));
        }
        Ok((Self { class_idx, access_flags, superclass_idx, interfaces_off, source_file_idx, annotations_off, class_data_off, static_values_off }, p))
    }

    fn serialize(&self, out: &mut Vec<u8>) {
        encode_u32(out, self.class_idx);
        encode_u32(out, self.access_flags);
        encode_u32(out, self.superclass_idx);
        encode_u32(out, self.interfaces_off);
        encode_u32(out, self.source_file_idx);
        encode_u32(out, self.annotations_off);
        encode_u32(out, self.class_data_off);
        encode_u32(out, self.static_values_off);
        assert(out@ =~= old(out)@ + self.encoding());
    }

    fn size(&self) -> (r: usize) {
        32
    }
}

/// An entry of the call site identifiers table.
#[derive(Debug, Clone, Copy, PartialEq, Eq, Structural)]
pub struct CallSiteIdItem {
    pub call_site_off: u32,
}

impl DexStruct for CallSiteIdItem {
    open spec fn encoding(&self) -> Seq<u8> {
        le_bytes(self.call_site_off as int, 4)
    }

    open spec fn well_formed(&self) -> bool {
        true
    }

    open spec fn spec_alignment() -> nat {
        4
    }

    fn alignment() -> (r: usize) {
        4
    }

    proof fn lemma_prefix_free(data: Seq<u8>, pos: int, a: Self, b: Self) {
        assert(a.encoding().len() == b.encoding().len());
    }

    fn deserialize(data: &[u8], pos: usize) -> (res: Result<(Self, usize), DeserializeError>) {
        let (call_site_off, p) = match decode_u32(data, pos) {
            Ok(r) => r,
            Err(e) => return Err(e),
        };
        Ok((Self { call_site_off }, p))
    }

    fn serialize(&self, out: &mut Vec<u8>) {
        encode_u32(out, self.call_site_off);
    }

    fn size(&self) -> (r: usize) {
        4
    }
}

/// A method handle.
#[derive(Debug, Clone, Copy, PartialEq, Eq, Structural)]
pub struct MethodHandleItem {
    pub method_handle_type: u16,
    pub unused1: u16,
    pub field_or_method_id: u16,
    pub unused2: u16,
}

impl DexStruct for MethodHandleItem {
    open spec fn encoding(&self) -> Seq<u8> {
        le_bytes(self.method_handle_type as int, 2) + le_bytes(self.unused1 as int, 2) + le_bytes(self.field_or_method_id as int, 2) + le_bytes(self.unused2 as int, 2)
    }

    open spec fn well_formed(&self) -> bool {
        true
    }

    open spec fn spec_alignment() -> nat {
        4
    }

    fn alignment() -> (r: usize) {
        4
    }

    proof fn lemma_prefix_free(data: Seq<u8>, pos: int, a: Self, b: Self) {
        assert(a.encoding().len() == b.encoding().len());
    }

    fn deserialize(data: &[u8], pos: usize) -> (res: Result<(Self, usize), DeserializeError>) {
        let (method_handle_type, p) = match decode_u16(data, pos) {
            Ok(r) => r,
            Err(e) => return Err(e),
        };
        let (unused1, p) = match decode_u16(data, p) {
            Ok(r) => r,
            Err(e) => return Err(e),
        };
        let (field_or_method_id, p) = match decode_u16(data, p) {
            Ok(r) => r,
            Err(e) => return Err(e),
        };
        let (unused2, p) = match decode_u16(data, p) {
            Ok(r) => r,
            Err(e) => return Err(e),
        };
        proof {
            lemma_occurs_concat(data@, pos as int, le_bytes(method_handle_type as int, 2), le_bytes(unused1 as int, 2));
            lemma_occurs_concat(data@, pos as int, le_bytes(method_handle_type as int, 2) + le_bytes(unused1 as int, 2), le_bytes(field_or_method_id as int, 2));
            lemma_occurs_concat(data@, pos as int, le_bytes(method_handle_type as int, 2) + le_bytes(unused1 as int, 2) + le_bytes(field_or_method_id as int, 2), le_bytes(unused2 as int, 2));
        }
        Ok((Self { method_handle_type, unused1, field_or_method_id, unused2 }, p))
    }

    fn serialize(&self, out: &mut Vec<u8>) {
        encode_u16(out, self.method_handle_type);
        encode_u16(out, self.unused1);
        encode_u16(out, self.field_or_method_id);
        encode_u16(out, self.unused2);
        assert(out@ =~= old(out)@ + self.encoding());
    }

    fn size(&self) -> (r: usize) {
        8
    }
}

/// A field of a class data item: index delta and access flags.
#[derive(Debug, Clone, Copy, PartialEq, Eq, Structural)]
pub struct EncodedField {
    pub field_idx_off: u32,
    pub access_flags: u32,
}

impl DexStruct for EncodedField {
    open spec fn encoding(&self) -> Seq<u8> {
        uleb128_bytes(self.field_idx_off as nat) + uleb128_bytes(self.access_flags as nat)
    }

    open spec fn well_formed(&self) -> bool {
        true
    }

    open spec fn spec_alignment() -> nat {
        1
    }

    fn alignment() -> (r: usize) {
        1
    }

    proof fn lemma_prefix_free(data: Seq<u8>, pos: int, a: Self, b: Self) {
        lemma_occurs_prefix(data, pos, uleb128_bytes(a.field_idx_off as nat), uleb128_bytes(a.access_flags as nat));
        lemma_occurs_prefix(data, pos, uleb128_bytes(b.field_idx_off as nat), uleb128_bytes(b.access_flags as nat));
        lemma_uleb128_prefix_free(data, pos, a.field_idx_off, b.field_idx_off);
        lemma_uleb128_prefix_free(data, pos + (uleb128_bytes(a.field_idx_off as nat)).len(), a.access_flags, b.access_flags);
    }

    fn deserialize(data: &[u8], pos: usize) -> (res: Result<(Self, usize), DeserializeError>) {
        let (field_idx_off, p) = match decode_uleb128(data, pos) {
            Ok(r) => r,
            Err(e) => {
                proof {
                    assert forall|v: Self| v.well_formed() implies !occurs_at(
                        data@,
                        pos as int,
                        #[trigger] v.encoding(),
                    ) by {
                        if occurs_at(data@, pos as int, v.encoding()) {
                            assert(v.encoding() == uleb128_bytes(v.field_idx_off as nat) + uleb128_bytes(v.access_flags as nat));
                            lemma_occurs_prefix(data@, pos as int, uleb128_bytes(v.field_idx_off as nat), uleb128_bytes(v.access_flags as nat));
                            lemma_pow256_values();
                        }
                    }
                }
                return Err(e);
            },
        };
        let (access_flags, p) = match decode_uleb128(data, p) {
            Ok(r) => r,
            Err(e) => {
                proof {
                    assert forall|v: Self| v.well_formed() implies !occurs_at(
                        data@,
                        pos as int,
                        #[trigger] v.encoding(),
                    ) by {
                        if occurs_at(data@, pos as int, v.encoding()) {
                            assert(v.encoding() == uleb128_bytes(v.field_idx_off as nat) + uleb128_bytes(v.access_flags as nat));
                            lemma_occurs_prefix(data@, pos as int, uleb128_bytes(v.field_idx_off as nat), uleb128_bytes(v.access_flags as nat));
                            lemma_pow256_values();
                            lemma_uleb128_prefix_free(data@, pos as int, field_idx_off, v.field_idx_off);
                        }
                    }
                }
                return Err(e);
            },
        };
        proof {
            lemma_occurs_concat(data@, pos as int, uleb128_bytes(field_idx_off as nat), uleb128_bytes(access_flags as nat));
        }
        Ok((Self { field_idx_off, access_flags }, p))
    }

    fn serialize(&self, out: &mut Vec<u8>) {
        encode_uleb128(out, self.field_idx_off);
        encode_uleb128(out, self.access_flags);
        assert(out@ =~= old(out)@ + self.encoding());
    }

    fn size(&self) -> (r: usize) {
        size_uleb128(self.field_idx_off) + size_uleb128(self.access_flags)
    }
}

/// A method of a class data item: index delta, access flags and code offset.
#[derive(Debug, Clone, Copy, PartialEq, Eq, Structural)]
pub struct EncodedMethod {
    pub method_idx_off: u32,
    pub access_flags: u32,
    pub code_off: u32,
}

impl DexStruct for EncodedMethod {
    open spec fn encoding(&self) -> Seq<u8> {
        uleb128_bytes(self.method_idx_off as nat) + uleb128_bytes(self.access_flags as nat) + uleb128_bytes(self.code_off as nat)
    }

    open spec fn well_formed(&self) -> bool {
        true
    }

    open spec fn spec_alignment() -> nat {
        1
    }

    fn alignment() -> (r: usize) {
        1
    }

    proof fn lemma_prefix_free(data: Seq<u8>, pos: int, a: Self, b: Self) {
        lemma_occurs_prefix(data, pos, uleb128_bytes(a.method_idx_off as nat) + uleb128_bytes(a.access_flags as nat), uleb128_bytes(a.code_off as nat));
        lemma_occurs_prefix(data, pos, uleb128_bytes(b.method_idx_off as nat) + uleb128_bytes(b.access_flags as nat), uleb128_bytes(b.code_off as nat));
        lemma_occurs_prefix(data, pos, uleb128_bytes(a.method_idx_off as nat), uleb128_bytes(a.access_flags as nat));
        lemma_occurs_prefix(data, pos, uleb128_bytes(b.method_idx_off as nat), uleb128_bytes(b.access_flags as nat));
        lemma_uleb128_prefix_free(data, pos, a.method_idx_off, b.method_idx_off);
        lemma_uleb128_prefix_free(data, pos + (uleb128_bytes(a.method_idx_off as nat)).len(), a.access_flags, b.access_flags);
        lemma_uleb128_prefix_free(data, pos + (uleb128_bytes(a.method_idx_off as nat) + uleb128_bytes(a.access_flags as nat)).len(), a.code_off, b.code_off);
    }

    fn deserialize(data: &[u8], pos: usize) -> (res: Result<(Self, usize), DeserializeError>) {
        let (method_idx_off, p) = match decode_uleb128(data, pos) {
            Ok(r) => r,
            Err(e) => {
                proof {
                    assert forall|v: Self| v.well_formed() implies !occurs_at(
                        data@,
                        pos as int,
                        #[trigger] v.encoding(),
                    ) by {
                        if occurs_at(data@, pos as int, v.encoding()) {
                            assert(v.encoding() == uleb128_bytes(v.method_idx_off as nat) + uleb128_bytes(v.access_flags as nat) + uleb128_bytes(v.code_off as nat));
                            lemma_occurs_prefix(data@, pos as int, uleb128_bytes(v.method_idx_off as nat) + uleb128_bytes(v.access_flags as nat), uleb128_bytes(v.code_off as nat));
                            lemma_occurs_prefix(data@, pos as int, uleb128_bytes(v.method_idx_off as nat), uleb128_bytes(v.access_flags as nat));
                            lemma_pow256_values();
                        }
                    }
                }
                return Err(e);
            },
        };
        let (access_flags, p) = match decode_uleb128(data, p) {
            Ok(r) => r,
            Err(e) => {
                proof {
                    assert forall|v: Self| v.well_formed() implies !occurs_at(
                        data@,
                        pos as int,
                        #[trigger] v.encoding(),
                    ) by {
                        if occurs_at(data@, pos as int, v.encoding()) {
                            assert(v.encoding() == uleb128_bytes(v.method_idx_off as nat) + uleb128_bytes(v.access_flags as nat) + uleb128_bytes(v.code_off as nat));
                            lemma_occurs_prefix(data@, pos as int, uleb128_bytes(v.method_idx_off as nat) + uleb128_bytes(v.access_flags as nat), uleb128_bytes(v.code_off as nat));
                            lemma_occurs_prefix(data@, pos as int, uleb128_bytes(v.method_idx_off as nat), uleb128_bytes(v.access_flags as nat));
                            lemma_pow256_values();
                            lemma_uleb128_prefix_free(data@, pos as int, method_idx_off, v.method_idx_off);
                        }
                    }
                }
                return Err(e);
            },
        };
        let (code_off, p) = match decode_uleb128(data, p) {
            Ok(r) => r,
            Err(e) => {
                proof {
                    assert forall|v: Self| v.well_formed() implies !occurs_at(
                        data@,
                        pos as int,
                        #[trigger] v.encoding(),
                    ) by {
                        if occurs_at(data@, pos as int, v.encoding()) {
                            assert(v.encoding() == uleb128_bytes(v.method_idx_off as nat) + uleb128_bytes(v.access_flags as nat) + uleb128_bytes(v.code_off as nat));
                            lemma_occurs_prefix(data@, pos as int, uleb128_bytes(v.method_idx_off as nat) + uleb128_bytes(v.access_flags as nat), uleb128_bytes(v.code_off as nat));
                            lemma_occurs_prefix(data@, pos as int, uleb128_bytes(v.method_idx_off as nat), uleb128_bytes(v.access_flags as nat));
                            lemma_pow256_values();
                            lemma_uleb128_prefix_free(data@, pos as int, method_idx_off, v.method_idx_off);
                            lemma_uleb128_prefix_free(data@, pos + (uleb128_bytes(v.method_idx_off as nat)).len(), access_flags, v.access_flags);
                        }
                    }
                }
                return Err(e);
            },
        };
        proof {
            lemma_occurs_concat(data@, pos as int, uleb128_bytes(method_idx_off as nat), uleb128_bytes(access_flags as nat));
            lemma_occurs_concat(data@, pos as int, uleb128_bytes(method_idx_off as nat) + uleb128_bytes(access_flags as nat), uleb128_bytes(code_off as nat));
        }
        Ok((Self { method_idx_off, access_flags, code_off }, p))
    }

    fn serialize(&self, out: &mut Vec<u8>) {
        encode_uleb128(out, self.method_idx_off);
        encode_uleb128(out, self.access_flags);
        encode_uleb128(out, self.code_off);
        assert(out@ =~= old(out)@ + self.encoding());
    }

    fn size(&self) -> (r: usize) {
        size_uleb128(self.method_idx_off) + size_uleb128(self.access_flags) + size_uleb128(self.code_off)
    }
}

/// One type index of a type list.
#[derive(Debug, Clone, Copy, PartialEq, Eq, Structural)]
pub struct TypeItem {
    pub type_idx: u16,
}

impl DexStruct for TypeItem {
    open spec fn encoding(&self) -> Seq<u8> {
        le_bytes(self.type_idx as int, 2)
    }

    open spec fn well_formed(&self) -> bool {
        true
    }

    open spec fn spec_alignment() -> nat {
        1
    }

    fn alignment() -> (r: usize) {
        1
    }

    proof fn lemma_prefix_free(data: Seq<u8>, pos: int, a: Self, b: Self) {
        assert(a.encoding().len() == b.encoding().len());
    }

    fn deserialize(data: &[u8], pos: usize) -> (res: Result<(Self, usize), DeserializeError>) {
        let (type_idx, p) = match decode_u16(data, pos) {
            Ok(r) => r,
            Err(e) => return Err(e),
        };
        Ok((Self { type_idx }, p))
    }

    fn serialize(&self, out: &mut Vec<u8>) {
        encode_u16(out, self.type_idx);
    }

    fn size(&self) -> (r: usize) {
        2
    }
}

/// A range of instructions covered by a handler list.
#[derive(Debug, Clone, Copy, PartialEq, Eq, Structural)]
pub struct TryItem {
    pub start_addr: u32,
    pub insn_count: u16,
    pub handler_off: u16,
}

impl DexStruct for TryItem {
    open spec fn encoding(&self) -> Seq<u8> {
        le_bytes(self.start_addr as int, 4) + le_bytes(self.insn_count as int, 2) + le_bytes(self.handler_off as int, 2)
    }

    open spec fn well_formed(&self) -> bool {
        true
    }

    open spec fn spec_alignment() -> nat {
        1
    }

    fn alignment() -> (r: usize) {
        1
    }

    proof fn lemma_prefix_free(data: Seq<u8>, pos: int, a: Self, b: Self) {
        assert(a.encoding().len() == b.encoding().len());
    }

    fn deserialize(data: &[u8], pos: usize) -> (res: Result<(Self, usize), DeserializeError>) {
        let (start_addr, p) = match decode_u32(data, pos) {
            Ok(r) => r,
            Err(e) => return Err(e),
        };
        let (insn_count, p) = match decode_u16(data, p) {
            Ok(r) => r,
            Err(e) => return Err(e),
        };
        let (handler_off, p) = match decode_u16(data, p) {
            Ok(r) => r,
            Err(e) => return Err(e),
        };
        proof {
            lemma_occurs_concat(data@, pos as int, le_bytes(start_addr as int, 4), le_bytes(insn_count as int, 2));
            lemma_occurs_concat(data@, pos as int, le_bytes(start_addr as int, 4) + le_bytes(insn_count as int, 2), le_bytes(handler_off as int, 2));
        }
        Ok((Self { start_addr, insn_count, handler_off }, p))
    }

    fn serialize(&self, out: &mut Vec<u8>) {
        encode_u32(out, self.start_addr);
        encode_u16(out, self.insn_count);
        encode_u16(out, self.handler_off);
        assert(out@ =~= old(out)@ + self.encoding());
    }

    fn size(&self) -> (r: usize) {
        8
    }
}

/// A typed catch handler: exception type and handler address.
#[derive(Debug, Clone, Copy, PartialEq, Eq, Structural)]
pub struct EncodedTypeAddressPair {
    pub type_idx: u32,
    pub addr: u32,
}

impl DexStruct for EncodedTypeAddressPair {
    open spec fn encoding(&self) -> Seq<u8> {
        uleb128_bytes(self.type_idx as nat) + uleb128_bytes(self.addr as nat)
    }

    open spec fn well_formed(&self) -> bool {
        true
    }

    open spec fn spec_alignment() -> nat {
        1
    }

    fn alignment() -> (r: usize) {
        1
    }

    proof fn lemma_prefix_free(data: Seq<u8>, pos: int, a: Self, b: Self) {
        lemma_occurs_prefix(data, pos, uleb128_bytes(a.type_idx as nat), uleb128_bytes(a.addr as nat));
        lemma_occurs_prefix(data, pos, uleb128_bytes(b.type_idx as nat), uleb128_bytes(b.addr as nat));
        lemma_uleb128_prefix_free(data, pos, a.type_idx, b.type_idx);
        lemma_uleb128_prefix_free(data, pos + (uleb128_bytes(a.type_idx as nat)).len(), a.addr, b.addr);
    }

    fn deserialize(data: &[u8], pos: usize) -> (res: Result<(Self, usize), DeserializeError>) {
        let (type_idx, p) = match decode_uleb128(data, pos) {
            Ok(r) => r,
            Err(e) => {
                proof {
                    assert forall|v: Self| v.well_formed() implies !occurs_at(
                        data@,
                        pos as int,
                        #[trigger] v.encoding(),
                    ) by {
                        if occurs_at(data@, pos as int, v.encoding()) {
                            assert(v.encoding() == uleb128_bytes(v.type_idx as nat) + uleb128_bytes(v.addr as nat));
                            lemma_occurs_prefix(data@, pos as int, uleb128_bytes(v.type_idx as nat), uleb128_bytes(v.addr as nat));
                            lemma_pow256_values();
                        }
                    }
                }
                return Err(e);
            },
        };
        let (addr, p) = match decode_uleb128(data, p) {
            Ok(r) => r,
            Err(e) => {
                proof {
                    assert forall|v: Self| v.well_formed() implies !occurs_at(
                        data@,
                        pos as int,
                        #[trigger] v.encoding(),
                    ) by {
                        if occurs_at(data@, pos as int, v.encoding()) {
                            assert(v.encoding() == uleb128_bytes(v.type_idx as nat) + uleb128_bytes(v.addr as nat));
                            lemma_occurs_prefix(data@, pos as int, uleb128_bytes(v.type_idx as nat), uleb128_bytes(v.addr as nat));
                            lemma_pow256_values();
                            lemma_uleb128_prefix_free(data@, pos as int, type_idx, v.type_idx);
                        }
                    }
                }
                return Err(e);
            },
        };
        proof {
            lemma_occurs_concat(data@, pos as int, uleb128_bytes(type_idx as nat), uleb128_bytes(addr as nat));
        }
        Ok((Self { type_idx, addr }, p))
    }

    fn serialize(&self, out: &mut Vec<u8>) {
        encode_uleb128(out, self.type_idx);
        encode_uleb128(out, self.addr);
        assert(out@ =~= old(out)@ + self.encoding());
    }

    fn size(&self) -> (r: usize) {
        size_uleb128(self.type_idx) + size_uleb128(self.addr)
    }
}

/// The annotations of one field.
#[derive(Debug, Clone, Copy, PartialEq, Eq, Structural)]
pub struct FieldAnnotation {
    pub field_idx: u32,
    pub annotations_off: u32,
}

impl DexStruct for FieldAnnotation {
    open spec fn encoding(&self) -> Seq<u8> {
        le_bytes(self.field_idx as int, 4) + le_bytes(self.annotations_off as int, 4)
    }

    open spec fn well_formed(&self) -> bool {
        true
    }

    open spec fn spec_alignment() -> nat {
        1
    }

    fn alignment() -> (r: usize) {
        1
    }

    proof fn lemma_prefix_free(data: Seq<u8>, pos: int, a: Self, b: Self) {
        assert(a.encoding().len() == b.encoding().len());
    }

    fn deserialize(data: &[u8], pos: usize) -> (res: Result<(Self, usize), DeserializeError>) {
        let (field_idx, p) = match decode_u32(data, pos) {
            Ok(r) => r,
            Err(e) => return Err(e),
        };
        let (annotations_off, p) = match decode_u32(data, p) {
            Ok(r) => r,
            Err(e) => return Err(e),
        };
        proof {
            lemma_occurs_concat(data@, pos as int, le_bytes(field_idx as int, 4), le_bytes(annotations_off as int, 4));
        }
        Ok((Self { field_idx, annotations_off }, p))
    }

    fn serialize(&self, out: &mut Vec<u8>) {
        encode_u32(out, self.field_idx);
        encode_u32(out, self.annotations_off);
        assert(out@ =~= old(out)@ + self.encoding());
    }

    fn size(&self) -> (r: usize) {
        8
    }
}

/// The annotations of one method.
#[derive(Debug, Clone, Copy, PartialEq, Eq, Structural)]
pub struct MethodAnnotation {
    pub method_idx: u32,
    pub annotations_off: u32,
}

impl DexStruct for MethodAnnotation {
    open spec fn encoding(&self) -> Seq<u8> {
        le_bytes(self.method_idx as int, 4) + le_bytes(self.annotations_off as int, 4)
    }

    open spec fn well_formed(&self) -> bool {
        true
    }

    open spec fn spec_alignment() -> nat {
        1
    }

    fn alignment() -> (r: usize) {
        1
    }

    proof fn lemma_prefix_free(data: Seq<u8>, pos: int, a: Self, b: Self) {
        assert(a.encoding().len() == b.encoding().len());
    }

    fn deserialize(data: &[u8], pos: usize) -> (res: Result<(Self, usize), DeserializeError>) {
        let (method_idx, p) = match decode_u32(data, pos) {
            Ok(r) => r,
            Err(e) => return Err(e),
        };
        let (annotations_off, p) = match decode_u32(data, p) {
            Ok(r) => r,
            Err(e) => return Err(e),
        };
        proof {
            lemma_occurs_concat(data@, pos as int, le_bytes(method_idx as int, 4), le_bytes(annotations_off as int, 4));
        }
        Ok((Self { method_idx, annotations_off }, p))
    }

    fn serialize(&self, out: &mut Vec<u8>) {
        encode_u32(out, self.method_idx);
        encode_u32(out, self.annotations_off);
        assert(out@ =~= old(out)@ + self.encoding());
    }

    fn size(&self) -> (r: usize) {
        8
    }
}

/// The parameter annotations of one method.
#[derive(Debug, Clone, Copy, PartialEq, Eq, Structural)]
pub struct ParameterAnnotation {
    pub method_idx: u32,
    pub annotations_off: u32,
}

impl DexStruct for ParameterAnnotation {
    open spec fn encoding(&self) -> Seq<u8> {
        le_bytes(self.method_idx as int, 4) + le_bytes(self.annotations_off as int, 4)
    }

    open spec fn well_formed(&self) -> bool {
        true
    }

    open spec fn spec_alignment() -> nat {
        1
    }

    fn alignment() -> (r: usize) {
        1
    }

    proof fn lemma_prefix_free(data: Seq<u8>, pos: int, a: Self, b: Self) {
        assert(a.encoding().len() == b.encoding().len());
    }

    fn deserialize(data: &[u8], pos: usize) -> (res: Result<(Self, usize), DeserializeError>) {
        let (method_idx, p) = match decode_u32(data, pos) {
            Ok(r) => r,
            Err(e) => return Err(e),
        };
        let (annotations_off, p) = match decode_u32(data, p) {
            Ok(r) => r,
            Err(e) => return Err(e),
        };
        proof {
            lemma_occurs_concat(data@, pos as int, le_bytes(method_idx as int, 4), le_bytes(annotations_off as int, 4));
        }
        Ok((Self { method_idx, annotations_off }, p))
    }

    fn serialize(&self, out: &mut Vec<u8>) {
        encode_u32(out, self.method_idx);
        encode_u32(out, self.annotations_off);
        assert(out@ =~= old(out)@ + self.encoding());
    }

    fn size(&self) -> (r: usize) {
        8
    }
}

/// One entry of an annotation set reference list.
#[derive(Debug, Clone, Copy, PartialEq, Eq, Structural)]
pub struct AnnotationSetRefItem {
    pub annotations_off: u32,
}

impl DexStruct for AnnotationSetRefItem {
    open spec fn encoding(&self) -> Seq<u8> {
        le_bytes(self.annotations_off as int, 4)
    }

    open spec fn well_formed(&self) -> bool {
        true
    }

    open spec fn spec_alignment() -> nat {
        1
    }

    fn alignment() -> (r: usize) {
        1
    }

    proof fn lemma_prefix_free(data: Seq<u8>, pos: int, a: Self, b: Self) {
        assert(a.encoding().len() == b.encoding().len());
    }

    fn deserialize(data: &[u8], pos: usize) -> (res: Result<(Self, usize), DeserializeError>) {
        let (annotations_off, p) = match decode_u32(data, pos) {
            Ok(r) => r,
            Err(e) => return Err(e),
        };
        Ok((Self { annotations_off }, p))
    }

    fn serialize(&self, out: &mut Vec<u8>) {
        encode_u32(out, self.annotations_off);
    }

    fn size(&self) -> (r: usize) {
        4
    }
}

/// One entry of an annotation set: where the annotation lies.
#[derive(Debug, Clone, Copy, PartialEq, Eq, Structural)]
pub struct AnnotationOffItem {
    pub annotation_off: u32,
}

impl DexStruct for AnnotationOffItem {
    open spec fn encoding(&self) -> Seq<u8> {
        le_bytes(self.annotation_off as int, 4)
    }

    open spec fn well_formed(&self) -> bool {
        true
    }

    open spec fn spec_alignment() -> nat {
        1
    }

    fn alignment() -> (r: usize) {
        1
    }

    proof fn lemma_prefix_free(data: Seq<u8>, pos: int, a: Self, b: Self) {
        assert(a.encoding().len() == b.encoding().len());
    }

    fn deserialize(data: &[u8], pos: usize) -> (res: Result<(Self, usize), DeserializeError>) {
        let (annotation_off, p) = match decode_u32(data, pos) {
            Ok(r) => r,
            Err(e) => return Err(e),
        };
        Ok((Self { annotation_off }, p))
    }

    fn serialize(&self, out: &mut Vec<u8>) {
        encode_u32(out, self.annotation_off);
    }

    fn size(&self) -> (r: usize) {
        4
    }
}


/// A list of type indices, such as a method's parameter types.
#[derive(Debug, PartialEq, Eq)]
pub struct TypeList {
    pub list: Vec<TypeItem>,
}

impl DexStruct for TypeList {
    open spec fn encoding(&self) -> Seq<u8> {
        le_bytes(self.list@.len() as int, 4) + encode_seq(self.list@)
    }

    open spec fn well_formed(&self) -> bool {
        self.list@.len() <= u32::MAX && all_well_formed(self.list@)
    }

    open spec fn spec_alignment() -> nat {
        4
    }

    fn alignment() -> (r: usize) {
        4
    }

    proof fn lemma_prefix_free(data: Seq<u8>, pos: int, a: Self, b: Self) {
        lemma_occurs_prefix(data, pos, le_bytes(a.list@.len() as int, 4), encode_seq(a.list@));
        lemma_occurs_prefix(data, pos, le_bytes(b.list@.len() as int, 4), encode_seq(b.list@));
        lemma_pow256_values();
        lemma_le_bytes_injective(a.list@.len() as int, b.list@.len() as int, 4);
        lemma_encode_seq_equal(data, pos + 4, a.list@, b.list@);
    }

    fn deserialize(data: &[u8], pos: usize) -> (res: Result<(Self, usize), DeserializeError>) {
        let (count, p) = match decode_u32(data, pos) {
            Ok(r) => r,
            Err(e) => {
                proof {
                    assert forall|v: Self| v.well_formed() implies !occurs_at(
                        data@,
                        pos as int,
                        #[trigger] v.encoding(),
                    ) by {
                        if occurs_at(data@, pos as int, v.encoding()) {
                            assert(v.encoding() == le_bytes(v.list@.len() as int, 4) + encode_seq(v.list@));
                            lemma_occurs_prefix(data@, pos as int, le_bytes(v.list@.len() as int, 4), encode_seq(v.list@));
                            lemma_pow256_values();
                        }
                    }
                }
                return Err(e);
            },
        };
        let (list, p) = match deserialize_items::<TypeItem>(data, p, count as usize) {
            Ok(r) => r,
            Err(e) => {
                proof {
                    assert forall|v: Self| v.well_formed() implies !occurs_at(
                        data@,
                        pos as int,
                        #[trigger] v.encoding(),
                    ) by {
                        if occurs_at(data@, pos as int, v.encoding()) {
                            assert(v.encoding() == le_bytes(v.list@.len() as int, 4) + encode_seq(v.list@));
                            lemma_occurs_prefix(data@, pos as int, le_bytes(v.list@.len() as int, 4), encode_seq(v.list@));
                            lemma_pow256_values();
                            lemma_le_bytes_injective(count as int, v.list@.len() as int, 4);
                        }
                    }
                }
                return Err(e);
            },
        };
        proof {
            lemma_occurs_concat(data@, pos as int, le_bytes(count as int, 4), encode_seq(list@));
        }
        Ok((Self { list }, p))
    }

    fn serialize(&self, out: &mut Vec<u8>) {
        encode_u32(out, self.list.len() as u32);
        serialize_items(&self.list, out);
        assert(out@ =~= old(out)@ + self.encoding());
    }

    fn size(&self) -> (r: usize) {
        4 + size_items(&self.list)
    }
}

/// A list of annotation sets, one per parameter.
#[derive(Debug, PartialEq, Eq)]
pub struct AnnotationSetRefList {
    pub list: Vec<AnnotationSetRefItem>,
}

impl DexStruct for AnnotationSetRefList {
    open spec fn encoding(&self) -> Seq<u8> {
        le_bytes(self.list@.len() as int, 4) + encode_seq(self.list@)
    }

    open spec fn well_formed(&self) -> bool {
        self.list@.len() <= u32::MAX && all_well_formed(self.list@)
    }

    open spec fn spec_alignment() -> nat {
        4
    }

    fn alignment() -> (r: usize) {
        4
    }

    proof fn lemma_prefix_free(data: Seq<u8>, pos: int, a: Self, b: Self) {
        lemma_occurs_prefix(data, pos, le_bytes(a.list@.len() as int, 4), encode_seq(a.list@));
        lemma_occurs_prefix(data, pos, le_bytes(b.list@.len() as int, 4), encode_seq(b.list@));
        lemma_pow256_values();
        lemma_le_bytes_injective(a.list@.len() as int, b.list@.len() as int, 4);
        lemma_encode_seq_equal(data, pos + 4, a.list@, b.list@);
    }

    fn deserialize(data: &[u8], pos: usize) -> (res: Result<(Self, usize), DeserializeError>) {
        let (count, p) = match decode_u32(data, pos) {
            Ok(r) => r,
            Err(e) => {
                proof {
                    assert forall|v: Self| v.well_formed() implies !occurs_at(
                        data@,
                        pos as int,
                        #[trigger] v.encoding(),
                    ) by {
                        if occurs_at(data@, pos as int, v.encoding()) {
                            assert(v.encoding() == le_bytes(v.list@.len() as int, 4) + encode_seq(v.list@));
                            lemma_occurs_prefix(data@, pos as int, le_bytes(v.list@.len() as int, 4), encode_seq(v.list@));
                            lemma_pow256_values();
                        }
                    }
                }
                return Err(e);
            },
        };
        let (list, p) = match deserialize_items::<AnnotationSetRefItem>(data, p, count as usize) {
            Ok(r) => r,
            Err(e) => {
                proof {
                    assert forall|v: Self| v.well_formed() implies !occurs_at(
                        data@,
                        pos as int,
                        #[trigger] v.encoding(),
                    ) by {
                        if occurs_at(data@, pos as int, v.encoding()) {
                            assert(v.encoding() == le_bytes(v.list@.len() as int, 4) + encode_seq(v.list@));
                            lemma_occurs_prefix(data@, pos as int, le_bytes(v.list@.len() as int, 4), encode_seq(v.list@));
                            lemma_pow256_values();
                            lemma_le_bytes_injective(count as int, v.list@.len() as int, 4);
                        }
                    }
                }
                return Err(e);
            },
        };
        proof {
            lemma_occurs_concat(data@, pos as int, le_bytes(count as int, 4), encode_seq(list@));
        }
        Ok((Self { list }, p))
    }

    fn serialize(&self, out: &mut Vec<u8>) {
        encode_u32(out, self.list.len() as u32);
        serialize_items(&self.list, out);
        assert(out@ =~= old(out)@ + self.encoding());
    }

    fn size(&self) -> (r: usize) {
        4 + size_items(&self.list)
    }
}

/// A set of annotations.
#[derive(Debug, PartialEq, Eq)]
pub struct AnnotationSetItem {
    pub entries: Vec<AnnotationOffItem>,
}

impl DexStruct for AnnotationSetItem {
    open spec fn encoding(&self) -> Seq<u8> {
        le_bytes(self.entries@.len() as int, 4) + encode_seq(self.entries@)
    }

    open spec fn well_formed(&self) -> bool {
        self.entries@.len() <= u32::MAX && all_well_formed(self.entries@)
    }

    open spec fn spec_alignment() -> nat {
        4
    }

    fn alignment() -> (r: usize) {
        4
    }

    proof fn lemma_prefix_free(data: Seq<u8>, pos: int, a: Self, b: Self) {
        lemma_occurs_prefix(data, pos, le_bytes(a.entries@.len() as int, 4), encode_seq(a.entries@));
        lemma_occurs_prefix(data, pos, le_bytes(b.entries@.len() as int, 4), encode_seq(b.entries@));
        lemma_pow256_values();
        lemma_le_bytes_injective(a.entries@.len() as int, b.entries@.len() as int, 4);
        lemma_encode_seq_equal(data, pos + 4, a.entries@, b.entries@);
    }

    fn deserialize(data: &[u8], pos: usize) -> (res: Result<(Self, usize), DeserializeError>) {
        let (count, p) = match decode_u32(data, pos) {
            Ok(r) => r,
            Err(e) => {
                proof {
                    assert forall|v: Self| v.well_formed() implies !occurs_at(
                        data@,
                        pos as int,
                        #[trigger] v.encoding(),
                    ) by {
                        if occurs_at(data@, pos as int, v.encoding()) {
                            assert(v.encoding() == le_bytes(v.entries@.len() as int, 4) + encode_seq(v.entries@));
                            lemma_occurs_prefix(data@, pos as int, le_bytes(v.entries@.len() as int, 4), encode_seq(v.entries@));
                            lemma_pow256_values();
                        }
                    }
                }
                return Err(e);
            },
        };
        let (entries, p) = match deserialize_items::<AnnotationOffItem>(data, p, count as usize) {
            Ok(r) => r,
            Err(e) => {
                proof {
                    assert forall|v: Self| v.well_formed() implies !occurs_at(
                        data@,
                        pos as int,
                        #[trigger] v.encoding(),
                    ) by {
                        if occurs_at(data@, pos as int, v.encoding()) {
                            assert(v.encoding() == le_bytes(v.entries@.len() as int, 4) + encode_seq(v.entries@));
                            lemma_occurs_prefix(data@, pos as int, le_bytes(v.entries@.len() as int, 4), encode_seq(v.entries@));
                            lemma_pow256_values();
                            lemma_le_bytes_injective(count as int, v.entries@.len() as int, 4);
                        }
                    }
                }
                return Err(e);
            },
        };
        proof {
            lemma_occurs_concat(data@, pos as int, le_bytes(count as int, 4), encode_seq(entries@));
        }
        Ok((Self { entries }, p))
    }

    fn serialize(&self, out: &mut Vec<u8>) {
        encode_u32(out, self.entries.len() as u32);
        serialize_items(&self.entries, out);
        assert(out@ =~= old(out)@ + self.encoding());
    }

    fn size(&self) -> (r: usize) {
        4 + size_items(&self.entries)
    }
}


/// The encoded length of the header, which well-formed files record in `header_size`.
pub const HEADER_SIZE: u32 = 0x70;

/// Reads `N` raw bytes.
pub fn decode_array<const N: usize>(data: &[u8], pos: usize) -> (res: Result<
    ([u8; N], usize),
    DeserializeError,
>)
    ensures
        res is Err <==> pos + N > data@.len(),
        res matches Ok((v, end)) ==> end == pos + N && occurs_at(data@, pos as int, v@),
{
    if pos > data.len() || N > data.len() - pos {
        return Err(DeserializeError::IoError);
    }
    let mut arr = [0u8; N];
    let mut i: usize = 0;
    while i < N
        invariant
            i <= N,
            pos + N <= data.len(),
            arr@.len() == N,
            forall|j: int| 0 <= j < i ==> arr@[j] == data@[pos + j],
        decreases N - i,
    {
        arr[i] = data[pos + i];
        i = i + 1;
    }
    assert(data@.subrange(pos as int, pos + N) =~= arr@);
    Ok((arr, pos + N))
}

/// Appends raw bytes.
pub fn encode_bytes(out: &mut Vec<u8>, bytes: &[u8])
    ensures
        final(out)@ == old(out)@ + bytes@,
{
    let mut i: usize = 0;
    while i < bytes.len()
        invariant
            i <= bytes@.len(),
            out@ == old(out)@ + bytes@.take(i as int),
        decreases bytes@.len() - i,
    {
        out.push(bytes[i]);
        assert(out@ =~= old(out)@ + bytes@.take(i + 1));
        i = i + 1;
    }
    assert(bytes@.take(bytes@.len() as int) =~= bytes@);
}

/// A string of bytes that ends at its first zero byte.
pub open spec fn zero_terminated(s: Seq<u8>) -> bool {
    &&& s.len() >= 1
    &&& s.last() == 0
    &&& forall|i: int| 0 <= i < s.len() - 1 ==> s[i] != 0
}

/// Reads bytes up to and including the first zero byte.
pub fn decode_zero_terminated(data: &[u8], pos: usize) -> (res: Result<
    (Vec<u8>, usize),
    DeserializeError,
>)
    ensures
        res matches Ok((v, end)) ==> zero_terminated(v@) && end == pos + v@.len() && occurs_at(
            data@,
            pos as int,
            v@,
        ),
        res is Err ==> forall|s: Seq<u8>|
            #[trigger] zero_terminated(s) ==> !occurs_at(data@, pos as int, s),
{
    let mut bytes: Vec<u8> = Vec::new();
    let mut i: usize = pos;
    if pos > data.len() {
        return Err(DeserializeError::IoError);
    }
    while i < data.len()
        invariant
            pos <= i <= data.len(),
            bytes@ == data@.subrange(pos as int, i as int),
            forall|j: int| 0 <= j < bytes@.len() ==> bytes@[j] != 0,
        decreases data.len() - i,
    {
        let b = data[i];
        bytes.push(b);
        assert(bytes@ =~= data@.subrange(pos as int, i + 1));
        if b == 0 {
            return Ok((bytes, i + 1));
        }
        i = i + 1;
    }
    assert forall|s: Seq<u8>| #[trigger] zero_terminated(s) implies !occurs_at(data@, pos as int, s) by {
        if occurs_at(data@, pos as int, s) {
            let j = s.len() - 1;
            assert(s[j] == data@.subrange(pos as int, pos + s.len())[j]);
            assert(bytes@[j] == data@[pos + j]);
        }
    }
    Err(DeserializeError::IoError)
}

/// The file header: magic, checksum, signature, and the size and offset of each table.
#[derive(Debug, Clone, Copy, PartialEq, Eq)]
pub struct Header {
    pub magic: [u8; 8],
    pub checksum: u32,
    pub signature: [u8; 20],
    pub file_size: u32,
    pub header_size: u32,
    pub endian_tag: u32,
    pub link_size: u32,
    pub link_off: u32,
    pub map_off: u32,
    pub string_ids_size: u32,
    pub string_ids_off: u32,
    pub type_ids_size: u32,
    pub type_ids_off: u32,
    pub proto_ids_size: u32,
    pub proto_ids_off: u32,
    pub field_ids_size: u32,
    pub field_ids_off: u32,
    pub method_ids_size: u32,
    pub method_ids_off: u32,
    pub class_defs_size: u32,
    pub class_defs_off: u32,
    pub data_size: u32,
    pub data_off: u32,
}

impl DexStruct for Header {
    open spec fn encoding(&self) -> Seq<u8> {
        self.magic@ + le_bytes(self.checksum as int, 4) + self.signature@ + le_bytes(self.file_size as int, 4) + le_bytes(self.header_size as int, 4) + le_bytes(self.endian_tag as int, 4) + le_bytes(self.link_size as int, 4) + le_bytes(self.link_off as int, 4) + le_bytes(self.map_off as int, 4) + le_bytes(self.string_ids_size as int, 4) + le_bytes(self.string_ids_off as int, 4) + le_bytes(self.type_ids_size as int, 4) + le_bytes(self.type_ids_off as int, 4) + le_bytes(self.proto_ids_size as int, 4) + le_bytes(self.proto_ids_off as int, 4) + le_bytes(self.field_ids_size as int, 4) + le_bytes(self.field_ids_off as int, 4) + le_bytes(self.method_ids_size as int, 4) + le_bytes(self.method_ids_off as int, 4) + le_bytes(self.class_defs_size as int, 4) + le_bytes(self.class_defs_off as int, 4) + le_bytes(self.data_size as int, 4) + le_bytes(self.data_off as int, 4)
    }

    open spec fn well_formed(&self) -> bool {
        true
    }

    open spec fn spec_alignment() -> nat {
        1
    }

    fn alignment() -> (r: usize) {
        1
    }

    proof fn lemma_prefix_free(data: Seq<u8>, pos: int, a: Self, b: Self) {
        assert(a.encoding().len() == b.encoding().len());
    }

    fn deserialize(data: &[u8], pos: usize) -> (res: Result<(Self, usize), DeserializeError>) {
        if pos > data.len() || data.len() - pos < HEADER_SIZE as usize {
            assert forall|v: Header| v.well_formed() implies !occurs_at(
                data@,
                pos as int,
                #[trigger] v.encoding(),
            ) by {
                assert(v.encoding().len() == HEADER_SIZE);
            }
            return Err(DeserializeError::IoError);
        }
        let (magic, p) = match decode_array::<8>(data, pos) {
            Ok(r) => r,
            Err(e) => return Err(e),
        };
        let (checksum, p) = match decode_u32(data, p) {
            Ok(r) => r,
            Err(e) => return Err(e),
        };
        let (signature, p) = match decode_array::<20>(data, p) {
            Ok(r) => r,
            Err(e) => return Err(e),
        };
        let (file_size, p) = match decode_u32(data, p) {
            Ok(r) => r,
            Err(e) => return Err(e),
        };
        let (header_size, p) = match decode_u32(data, p) {
            Ok(r) => r,
            Err(e) => return Err(e),
        };
        let (endian_tag, p) = match decode_u32(data, p) {
            Ok(r) => r,
            Err(e) => return Err(e),
        };
        let (link_size, p) = match decode_u32(data, p) {
            Ok(r) => r,
            Err(e) => return Err(e),
        };
        let (link_off, p) = match decode_u32(data, p) {
            Ok(r) => r,
            Err(e) => return Err(e),
        };
        let (map_off, p) = match decode_u32(data, p) {
            Ok(r) => r,
            Err(e) => return Err(e),
        };
        let (string_ids_size, p) = match decode_u32(data, p) {
            Ok(r) => r,
            Err(e) => return Err(e),
        };
        let (string_ids_off, p) = match decode_u32(data, p) {
            Ok(r) => r,
            Err(e) => return Err(e),
        };
        let (type_ids_size, p) = match decode_u32(data, p) {
            Ok(r) => r,
            Err(e) => return Err(e),
        };
        let (type_ids_off, p) = match decode_u32(data, p) {
            Ok(r) => r,
            Err(e) => return Err(e),
        };
        let (proto_ids_size, p) = match decode_u32(data, p) {
            Ok(r) => r,
            Err(e) => return Err(e),
        };
        let (proto_ids_off, p) = match decode_u32(data, p) {
            Ok(r) => r,
            Err(e) => return Err(e),
        };
        let (field_ids_size, p) = match decode_u32(data, p) {
            Ok(r) => r,
            Err(e) => return Err(e),
        };
        let (field_ids_off, p) = match decode_u32(data, p) {
            Ok(r) => r,
            Err(e) => return Err(e),
        };
        let (method_ids_size, p) = match decode_u32(data, p) {
            Ok(r) => r,
            Err(e) => return Err(e),
        };
        let (method_ids_off, p) = match decode_u32(data, p) {
            Ok(r) => r,
            Err(e) => return Err(e),
        };
        let (class_defs_size, p) = match decode_u32(data, p) {
            Ok(r) => r,
            Err(e) => return Err(e),
        };
        let (class_defs_off, p) = match decode_u32(data, p) {
            Ok(r) => r,
            Err(e) => return Err(e),
        };
        let (data_size, p) = match decode_u32(data, p) {
            Ok(r) => r,
            Err(e) => return Err(e),
        };
        let (data_off, p) = match decode_u32(data, p) {
            Ok(r) => r,
            Err(e) => return Err(e),
        };
        proof {
            lemma_occurs_concat(data@, pos as int, magic@, le_bytes(checksum as int, 4));
            lemma_occurs_concat(data@, pos as int, magic@ + le_bytes(checksum as int, 4), signature@);
            lemma_occurs_concat(data@, pos as int, magic@ + le_bytes(checksum as int, 4) + signature@, le_bytes(file_size as int, 4));
            lemma_occurs_concat(data@, pos as int, magic@ + le_bytes(checksum as int, 4) + signature@ + le_bytes(file_size as int, 4), le_bytes(header_size as int, 4));
            lemma_occurs_concat(data@, pos as int, magic@ + le_bytes(checksum as int, 4) + signature@ + le_bytes(file_size as int, 4) + le_bytes(header_size as int, 4), le_bytes(endian_tag as int, 4));
            lemma_occurs_concat(data@, pos as int, magic@ + le_bytes(checksum as int, 4) + signature@ + le_bytes(file_size as int, 4) + le_bytes(header_size as int, 4) + le_bytes(endian_tag as int, 4), le_bytes(link_size as int, 4));
            lemma_occurs_concat(data@, pos as int, magic@ + le_bytes(checksum as int, 4) + signature@ + le_bytes(file_size as int, 4) + le_bytes(header_size as int, 4) + le_bytes(endian_tag as int, 4) + le_bytes(link_size as int, 4), le_bytes(link_off as int, 4));
            lemma_occurs_concat(data@, pos as int, magic@ + le_bytes(checksum as int, 4) + signature@ + le_bytes(file_size as int, 4) + le_bytes(header_size as int, 4) + le_bytes(endian_tag as int, 4) + le_bytes(link_size as int, 4) + le_bytes(link_off as int, 4), le_bytes(map_off as int, 4));
            lemma_occurs_concat(data@, pos as int, magic@ + le_bytes(checksum as int, 4) + signature@ + le_bytes(file_size as int, 4) + le_bytes(header_size as int, 4) + le_bytes(endian_tag as int, 4) + le_bytes(link_size as int, 4) + le_bytes(link_off as int, 4) + le_bytes(map_off as int, 4), le_bytes(string_ids_size as int, 4));
            lemma_occurs_concat(data@, pos as int, magic@ + le_bytes(checksum as int, 4) + signature@ + le_bytes(file_size as int, 4) + le_bytes(header_size as int, 4) + le_bytes(endian_tag as int, 4) + le_bytes(link_size as int, 4) + le_bytes(link_off as int, 4) + le_bytes(map_off as int, 4) + le_bytes(string_ids_size as int, 4), le_bytes(string_ids_off as int, 4));
            lemma_occurs_concat(data@, pos as int, magic@ + le_bytes(checksum as int, 4) + signature@ + le_bytes(file_size as int, 4) + le_bytes(header_size as int, 4) + le_bytes(endian_tag as int, 4) + le_bytes(link_size as int, 4) + le_bytes(link_off as int, 4) + le_bytes(map_off as int, 4) + le_bytes(string_ids_size as int, 4) + le_bytes(string_ids_off as int, 4), le_bytes(type_ids_size as int, 4));
            lemma_occurs_concat(data@, pos as int, magic@ + le_bytes(checksum as int, 4) + signature@ + le_bytes(file_size as int, 4) + le_bytes(header_size as int, 4) + le_bytes(endian_tag as int, 4) + le_bytes(link_size as int, 4) + le_bytes(link_off as int, 4) + le_bytes(map_off as int, 4) + le_bytes(string_ids_size as int, 4) + le_bytes(string_ids_off as int, 4) + le_bytes(type_ids_size as int, 4), le_bytes(type_ids_off as int, 4));
            lemma_occurs_concat(data@, pos as int, magic@ + le_bytes(checksum as int, 4) + signature@ + le_bytes(file_size as int, 4) + le_bytes(header_size as int, 4) + le_bytes(endian_tag as int, 4) + le_bytes(link_size as int, 4) + le_bytes(link_off as int, 4) + le_bytes(map_off as int, 4) + le_bytes(string_ids_size as int, 4) + le_bytes(string_ids_off as int, 4) + le_bytes(type_ids_size as int, 4) + le_bytes(type_ids_off as int, 4), le_bytes(proto_ids_size as int, 4));
            lemma_occurs_concat(data@, pos as int, magic@ + le_bytes(checksum as int, 4) + signature@ + le_bytes(file_size as int, 4) + le_bytes(header_size as int, 4) + le_bytes(endian_tag as int, 4) + le_bytes(link_size as int, 4) + le_bytes(link_off as int, 4) + le_bytes(map_off as int, 4) + le_bytes(string_ids_size as int, 4) + le_bytes(string_ids_off as int, 4) + le_bytes(type_ids_size as int, 4) + le_bytes(type_ids_off as int, 4) + le_bytes(proto_ids_size as int, 4), le_bytes(proto_ids_off as int, 4));
            lemma_occurs_concat(data@, pos as int, magic@ + le_bytes(checksum as int, 4) + signature@ + le_bytes(file_size as int, 4) + le_bytes(header_size as int, 4) + le_bytes(endian_tag as int, 4) + le_bytes(link_size as int, 4) + le_bytes(link_off as int, 4) + le_bytes(map_off as int, 4) + le_bytes(string_ids_size as int, 4) + le_bytes(string_ids_off as int, 4) + le_bytes(type_ids_size as int, 4) + le_bytes(type_ids_off as int, 4) + le_bytes(proto_ids_size as int, 4) + le_bytes(proto_ids_off as int, 4), le_bytes(field_ids_size as int, 4));
            lemma_occurs_concat(data@, pos as int, magic@ + le_bytes(checksum as int, 4) + signature@ + le_bytes(file_size as int, 4) + le_bytes(header_size as int, 4) + le_bytes(endian_tag as int, 4) + le_bytes(link_size as int, 4) + le_bytes(link_off as int, 4) + le_bytes(map_off as int, 4) + le_bytes(string_ids_size as int, 4) + le_bytes(string_ids_off as int, 4) + le_bytes(type_ids_size as int, 4) + le_bytes(type_ids_off as int, 4) + le_bytes(proto_ids_size as int, 4) + le_bytes(proto_ids_off as int, 4) + le_bytes(field_ids_size as int, 4), le_bytes(field_ids_off as int, 4));
            lemma_occurs_concat(data@, pos as int, magic@ + le_bytes(checksum as int, 4) + signature@ + le_bytes(file_size as int, 4) + le_bytes(header_size as int, 4) + le_bytes(endian_tag as int, 4) + le_bytes(link_size as int, 4) + le_bytes(link_off as int, 4) + le_bytes(map_off as int, 4) + le_bytes(string_ids_size as int, 4) + le_bytes(string_ids_off as int, 4) + le_bytes(type_ids_size as int, 4) + le_bytes(type_ids_off as int, 4) + le_bytes(proto_ids_size as int, 4) + le_bytes(proto_ids_off as int, 4) + le_bytes(field_ids_size as int, 4) + le_bytes(field_ids_off as int, 4), le_bytes(method_ids_size as int, 4));
            lemma_occurs_concat(data@, pos as int, magic@ + le_bytes(checksum as int, 4) + signature@ + le_bytes(file_size as int, 4) + le_bytes(header_size as int, 4) + le_bytes(endian_tag as int, 4) + le_bytes(link_size as int, 4) + le_bytes(link_off as int, 4) + le_bytes(map_off as int, 4) + le_bytes(string_ids_size as int, 4) + le_bytes(string_ids_off as int, 4) + le_bytes(type_ids_size as int, 4) + le_bytes(type_ids_off as int, 4) + le_bytes(proto_ids_size as int, 4) + le_bytes(proto_ids_off as int, 4) + le_bytes(field_ids_size as int, 4) + le_bytes(field_ids_off as int, 4) + le_bytes(method_ids_size as int, 4), le_bytes(method_ids_off as int, 4));
            lemma_occurs_concat(data@, pos as int, magic@ + le_bytes(checksum as int, 4) + signature@ + le_bytes(file_size as int, 4) + le_bytes(header_size as int, 4) + le_bytes(endian_tag as int, 4) + le_bytes(link_size as int, 4) + le_bytes(link_off as int, 4) + le_bytes(map_off as int, 4) + le_bytes(string_ids_size as int, 4) + le_bytes(string_ids_off as int, 4) + le_bytes(type_ids_size as int, 4) + le_bytes(type_ids_off as int, 4) + le_bytes(proto_ids_size as int, 4) + le_bytes(proto_ids_off as int, 4) + le_bytes(field_ids_size as int, 4) + le_bytes(field_ids_off as int, 4) + le_bytes(method_ids_size as int, 4) + le_bytes(method_ids_off as int, 4), le_bytes(class_defs_size as int, 4));
            lemma_occurs_concat(data@, pos as int, magic@ + le_bytes(checksum as int, 4) + signature@ + le_bytes(file_size as int, 4) + le_bytes(header_size as int, 4) + le_bytes(endian_tag as int, 4) + le_bytes(link_size as int, 4) + le_bytes(link_off as int, 4) + le_bytes(map_off as int, 4) + le_bytes(string_ids_size as int, 4) + le_bytes(string_ids_off as int, 4) + le_bytes(type_ids_size as int, 4) + le_bytes(type_ids_off as int, 4) + le_bytes(proto_ids_size as int, 4) + le_bytes(proto_ids_off as int, 4) + le_bytes(field_ids_size as int, 4) + le_bytes(field_ids_off as int, 4) + le_bytes(method_ids_size as int, 4) + le_bytes(method_ids_off as int, 4) + le_bytes(class_defs_size as int, 4), le_bytes(class_defs_off as int, 4));
            lemma_occurs_concat(data@, pos as int, magic@ + le_bytes(checksum as int, 4) + signature@ + le_bytes(file_size as int, 4) + le_bytes(header_size as int, 4) + le_bytes(endian_tag as int, 4) + le_bytes(link_size as int, 4) + le_bytes(link_off as int, 4) + le_bytes(map_off as int, 4) + le_bytes(string_ids_size as int, 4) + le_bytes(string_ids_off as int, 4) + le_bytes(type_ids_size as int, 4) + le_bytes(type_ids_off as int, 4) + le_bytes(proto_ids_size as int, 4) + le_bytes(proto_ids_off as int, 4) + le_bytes(field_ids_size as int, 4) + le_bytes(field_ids_off as int, 4) + le_bytes(method_ids_size as int, 4) + le_bytes(method_ids_off as int, 4) + le_bytes(class_defs_size as int, 4) + le_bytes(class_defs_off as int, 4), le_bytes(data_size as int, 4));
            lemma_occurs_concat(data@, pos as int, magic@ + le_bytes(checksum as int, 4) + signature@ + le_bytes(file_size as int, 4) + le_bytes(header_size as int, 4) + le_bytes(endian_tag as int, 4) + le_bytes(link_size as int, 4) + le_bytes(link_off as int, 4) + le_bytes(map_off as int, 4) + le_bytes(string_ids_size as int, 4) + le_bytes(string_ids_off as int, 4) + le_bytes(type_ids_size as int, 4) + le_bytes(type_ids_off as int, 4) + le_bytes(proto_ids_size as int, 4) + le_bytes(proto_ids_off as int, 4) + le_bytes(field_ids_size as int, 4) + le_bytes(field_ids_off as int, 4) + le_bytes(method_ids_size as int, 4) + le_bytes(method_ids_off as int, 4) + le_bytes(class_defs_size as int, 4) + le_bytes(class_defs_off as int, 4) + le_bytes(data_size as int, 4), le_bytes(data_off as int, 4));
        }
        Ok((Self { magic, checksum, signature, file_size, header_size, endian_tag, link_size, link_off, map_off, string_ids_size, string_ids_off, type_ids_size, type_ids_off, proto_ids_size, proto_ids_off, field_ids_size, field_ids_off, method_ids_size, method_ids_off, class_defs_size, class_defs_off, data_size, data_off }, p))
    }

    fn serialize(&self, out: &mut Vec<u8>) {
        encode_bytes(out, &self.magic);
        encode_u32(out, self.checksum);
        encode_bytes(out, &self.signature);
        encode_u32(out, self.file_size);
        encode_u32(out, self.header_size);
        encode_u32(out, self.endian_tag);
        encode_u32(out, self.link_size);
        encode_u32(out, self.link_off);
        encode_u32(out, self.map_off);
        encode_u32(out, self.string_ids_size);
        encode_u32(out, self.string_ids_off);
        encode_u32(out, self.type_ids_size);
        encode_u32(out, self.type_ids_off);
        encode_u32(out, self.proto_ids_size);
        encode_u32(out, self.proto_ids_off);
        encode_u32(out, self.field_ids_size);
        encode_u32(out, self.field_ids_off);
        encode_u32(out, self.method_ids_size);
        encode_u32(out, self.method_ids_off);
        encode_u32(out, self.class_defs_size);
        encode_u32(out, self.class_defs_off);
        encode_u32(out, self.data_size);
        encode_u32(out, self.data_off);
        assert(out@ =~= old(out)@ + self.encoding());
    }

    fn size(&self) -> (r: usize) {
        HEADER_SIZE as usize
    }
}

/// Two headers found at the same place agree on the fields that locate the rest of the file.
pub proof fn lemma_header_fields(data: Seq<u8>, pos: int, a: Header, b: Header)
    requires
        occurs_at(data, pos, a.encoding()),
        occurs_at(data, pos, b.encoding()),
    ensures
        a.file_size == b.file_size,
        a.map_off == b.map_off,
        a.link_size == b.link_size,
        a.link_off == b.link_off,
{
    lemma_occurs_prefix(data, pos, a.magic@ + le_bytes(a.checksum as int, 4) + a.signature@ + le_bytes(a.file_size as int, 4) + le_bytes(a.header_size as int, 4) + le_bytes(a.endian_tag as int, 4) + le_bytes(a.link_size as int, 4) + le_bytes(a.link_off as int, 4) + le_bytes(a.map_off as int, 4) + le_bytes(a.string_ids_size as int, 4) + le_bytes(a.string_ids_off as int, 4) + le_bytes(a.type_ids_size as int, 4) + le_bytes(a.type_ids_off as int, 4) + le_bytes(a.proto_ids_size as int, 4) + le_bytes(a.proto_ids_off as int, 4) + le_bytes(a.field_ids_size as int, 4) + le_bytes(a.field_ids_off as int, 4) + le_bytes(a.method_ids_size as int, 4) + le_bytes(a.method_ids_off as int, 4) + le_bytes(a.class_defs_size as int, 4) + le_bytes(a.class_defs_off as int, 4) + le_bytes(a.data_size as int, 4), le_bytes(a.data_off as int, 4));
    lemma_occurs_prefix(data, pos, a.magic@ + le_bytes(a.checksum as int, 4) + a.signature@ + le_bytes(a.file_size as int, 4) + le_bytes(a.header_size as int, 4) + le_bytes(a.endian_tag as int, 4) + le_bytes(a.link_size as int, 4) + le_bytes(a.link_off as int, 4) + le_bytes(a.map_off as int, 4) + le_bytes(a.string_ids_size as int, 4) + le_bytes(a.string_ids_off as int, 4) + le_bytes(a.type_ids_size as int, 4) + le_bytes(a.type_ids_off as int, 4) + le_bytes(a.proto_ids_size as int, 4) + le_bytes(a.proto_ids_off as int, 4) + le_bytes(a.field_ids_size as int, 4) + le_bytes(a.field_ids_off as int, 4) + le_bytes(a.method_ids_size as int, 4) + le_bytes(a.method_ids_off as int, 4) + le_bytes(a.class_defs_size as int, 4) + le_bytes(a.class_defs_off as int, 4), le_bytes(a.data_size as int, 4));
    lemma_occurs_prefix(data, pos, a.magic@ + le_bytes(a.checksum as int, 4) + a.signature@ + le_bytes(a.file_size as int, 4) + le_bytes(a.header_size as int, 4) + le_bytes(a.endian_tag as int, 4) + le_bytes(a.link_size as int, 4) + le_bytes(a.link_off as int, 4) + le_bytes(a.map_off as int, 4) + le_bytes(a.string_ids_size as int, 4) + le_bytes(a.string_ids_off as int, 4) + le_bytes(a.type_ids_size as int, 4) + le_bytes(a.type_ids_off as int, 4) + le_bytes(a.proto_ids_size as int, 4) + le_bytes(a.proto_ids_off as int, 4) + le_bytes(a.field_ids_size as int, 4) + le_bytes(a.field_ids_off as int, 4) + le_bytes(a.method_ids_size as int, 4) + le_bytes(a.method_ids_off as int, 4) + le_bytes(a.class_defs_size as int, 4), le_bytes(a.class_defs_off as int, 4));
    lemma_occurs_prefix(data, pos, a.magic@ + le_bytes(a.checksum as int, 4) + a.signature@ + le_bytes(a.file_size as int, 4) + le_bytes(a.header_size as int, 4) + le_bytes(a.endian_tag as int, 4) + le_bytes(a.link_size as int, 4) + le_bytes(a.link_off as int, 4) + le_bytes(a.map_off as int, 4) + le_bytes(a.string_ids_size as int, 4) + le_bytes(a.string_ids_off as int, 4) + le_bytes(a.type_ids_size as int, 4) + le_bytes(a.type_ids_off as int, 4) + le_bytes(a.proto_ids_size as int, 4) + le_bytes(a.proto_ids_off as int, 4) + le_bytes(a.field_ids_size as int, 4) + le_bytes(a.field_ids_off as int, 4) + le_bytes(a.method_ids_size as int, 4) + le_bytes(a.method_ids_off as int, 4), le_bytes(a.class_defs_size as int, 4));
    lemma_occurs_prefix(data, pos, a.magic@ + le_bytes(a.checksum as int, 4) + a.signature@ + le_bytes(a.file_size as int, 4) + le_bytes(a.header_size as int, 4) + le_bytes(a.endian_tag as int, 4) + le_bytes(a.link_size as int, 4) + le_bytes(a.link_off as int, 4) + le_bytes(a.map_off as int, 4) + le_bytes(a.string_ids_size as int, 4) + le_bytes(a.string_ids_off as int, 4) + le_bytes(a.type_ids_size as int, 4) + le_bytes(a.type_ids_off as int, 4) + le_bytes(a.proto_ids_size as int, 4) + le_bytes(a.proto_ids_off as int, 4) + le_bytes(a.field_ids_size as int, 4) + le_bytes(a.field_ids_off as int, 4) + le_bytes(a.method_ids_size as int, 4), le_bytes(a.method_ids_off as int, 4));
    lemma_occurs_prefix(data, pos, a.magic@ + le_bytes(a.checksum as int, 4) + a.signature@ + le_bytes(a.file_size as int, 4) + le_bytes(a.header_size as int, 4) + le_bytes(a.endian_tag as int, 4) + le_bytes(a.link_size as int, 4) + le_bytes(a.link_off as int, 4) + le_bytes(a.map_off as int, 4) + le_bytes(a.string_ids_size as int, 4) + le_bytes(a.string_ids_off as int, 4) + le_bytes(a.type_ids_size as int, 4) + le_bytes(a.type_ids_off as int, 4) + le_bytes(a.proto_ids_size as int, 4) + le_bytes(a.proto_ids_off as int, 4) + le_bytes(a.field_ids_size as int, 4) + le_bytes(a.field_ids_off as int, 4), le_bytes(a.method_ids_size as int, 4));
    lemma_occurs_prefix(data, pos, a.magic@ + le_bytes(a.checksum as int, 4) + a.signature@ + le_bytes(a.file_size as int, 4) + le_bytes(a.header_size as int, 4) + le_bytes(a.endian_tag as int, 4) + le_bytes(a.link_size as int, 4) + le_bytes(a.link_off as int, 4) + le_bytes(a.map_off as int, 4) + le_bytes(a.string_ids_size as int, 4) + le_bytes(a.string_ids_off as int, 4) + le_bytes(a.type_ids_size as int, 4) + le_bytes(a.type_ids_off as int, 4) + le_bytes(a.proto_ids_size as int, 4) + le_bytes(a.proto_ids_off as int, 4) + le_bytes(a.field_ids_size as int, 4), le_bytes(a.field_ids_off as int, 4));
    lemma_occurs_prefix(data, pos, a.magic@ + le_bytes(a.checksum as int, 4) + a.signature@ + le_bytes(a.file_size as int, 4) + le_bytes(a.header_size as int, 4) + le_bytes(a.endian_tag as int, 4) + le_bytes(a.link_size as int, 4) + le_bytes(a.link_off as int, 4) + le_bytes(a.map_off as int, 4) + le_bytes(a.string_ids_size as int, 4) + le_bytes(a.string_ids_off as int, 4) + le_bytes(a.type_ids_size as int, 4) + le_bytes(a.type_ids_off as int, 4) + le_bytes(a.proto_ids_size as int, 4) + le_bytes(a.proto_ids_off as int, 4), le_bytes(a.field_ids_size as int, 4));
    lemma_occurs_prefix(data, pos, a.magic@ + le_bytes(a.checksum as int, 4) + a.signature@ + le_bytes(a.file_size as int, 4) + le_bytes(a.header_size as int, 4) + le_bytes(a.endian_tag as int, 4) + le_bytes(a.link_size as int, 4) + le_bytes(a.link_off as int, 4) + le_bytes(a.map_off as int, 4) + le_bytes(a.string_ids_size as int, 4) + le_bytes(a.string_ids_off as int, 4) + le_bytes(a.type_ids_size as int, 4) + le_bytes(a.type_ids_off as int, 4) + le_bytes(a.proto_ids_size as int, 4), le_bytes(a.proto_ids_off as int, 4));
    lemma_occurs_prefix(data, pos, a.magic@ + le_bytes(a.checksum as int, 4) + a.signature@ + le_bytes(a.file_size as int, 4) + le_bytes(a.header_size as int, 4) + le_bytes(a.endian_tag as int, 4) + le_bytes(a.link_size as int, 4) + le_bytes(a.link_off as int, 4) + le_bytes(a.map_off as int, 4) + le_bytes(a.string_ids_size as int, 4) + le_bytes(a.string_ids_off as int, 4) + le_bytes(a.type_ids_size as int, 4) + le_bytes(a.type_ids_off as int, 4), le_bytes(a.proto_ids_size as int, 4));
    lemma_occurs_prefix(data, pos, a.magic@ + le_bytes(a.checksum as int, 4) + a.signature@ + le_bytes(a.file_size as int, 4) + le_bytes(a.header_size as int, 4) + le_bytes(a.endian_tag as int, 4) + le_bytes(a.link_size as int, 4) + le_bytes(a.link_off as int, 4) + le_bytes(a.map_off as int, 4) + le_bytes(a.string_ids_size as int, 4) + le_bytes(a.string_ids_off as int, 4) + le_bytes(a.type_ids_size as int, 4), le_bytes(a.type_ids_off as int, 4));
    lemma_occurs_prefix(data, pos, a.magic@ + le_bytes(a.checksum as int, 4) + a.signature@ + le_bytes(a.file_size as int, 4) + le_bytes(a.header_size as int, 4) + le_bytes(a.endian_tag as int, 4) + le_bytes(a.link_size as int, 4) + le_bytes(a.link_off as int, 4) + le_bytes(a.map_off as int, 4) + le_bytes(a.string_ids_size as int, 4) + le_bytes(a.string_ids_off as int, 4), le_bytes(a.type_ids_size as int, 4));
    lemma_occurs_prefix(data, pos, a.magic@ + le_bytes(a.checksum as int, 4) + a.signature@ + le_bytes(a.file_size as int, 4) + le_bytes(a.header_size as int, 4) + le_bytes(a.endian_tag as int, 4) + le_bytes(a.link_size as int, 4) + le_bytes(a.link_off as int, 4) + le_bytes(a.map_off as int, 4) + le_bytes(a.string_ids_size as int, 4), le_bytes(a.string_ids_off as int, 4));
    lemma_occurs_prefix(data, pos, a.magic@ + le_bytes(a.checksum as int, 4) + a.signature@ + le_bytes(a.file_size as int, 4) + le_bytes(a.header_size as int, 4) + le_bytes(a.endian_tag as int, 4) + le_bytes(a.link_size as int, 4) + le_bytes(a.link_off as int, 4) + le_bytes(a.map_off as int, 4), le_bytes(a.string_ids_size as int, 4));
    lemma_occurs_prefix(data, pos, a.magic@ + le_bytes(a.checksum as int, 4) + a.signature@ + le_bytes(a.file_size as int, 4) + le_bytes(a.header_size as int, 4) + le_bytes(a.endian_tag as int, 4) + le_bytes(a.link_size as int, 4) + le_bytes(a.link_off as int, 4), le_bytes(a.map_off as int, 4));
    lemma_occurs_prefix(data, pos, a.magic@ + le_bytes(a.checksum as int, 4) + a.signature@ + le_bytes(a.file_size as int, 4) + le_bytes(a.header_size as int, 4) + le_bytes(a.endian_tag as int, 4) + le_bytes(a.link_size as int, 4), le_bytes(a.link_off as int, 4));
    lemma_occurs_prefix(data, pos, a.magic@ + le_bytes(a.checksum as int, 4) + a.signature@ + le_bytes(a.file_size as int, 4) + le_bytes(a.header_size as int, 4) + le_bytes(a.endian_tag as int, 4), le_bytes(a.link_size as int, 4));
    lemma_occurs_prefix(data, pos, a.magic@ + le_bytes(a.checksum as int, 4) + a.signature@ + le_bytes(a.file_size as int, 4) + le_bytes(a.header_size as int, 4), le_bytes(a.endian_tag as int, 4));
    lemma_occurs_prefix(data, pos, a.magic@ + le_bytes(a.checksum as int, 4) + a.signature@ + le_bytes(a.file_size as int, 4), le_bytes(a.header_size as int, 4));
    lemma_occurs_prefix(data, pos, a.magic@ + le_bytes(a.checksum as int, 4) + a.signature@, le_bytes(a.file_size as int, 4));
    lemma_occurs_prefix(data, pos, a.magic@ + le_bytes(a.checksum as int, 4), a.signature@);
    lemma_occurs_prefix(data, pos, a.magic@, le_bytes(a.checksum as int, 4));
    lemma_occurs_prefix(data, pos, b.magic@ + le_bytes(b.checksum as int, 4) + b.signature@ + le_bytes(b.file_size as int, 4) + le_bytes(b.header_size as int, 4) + le_bytes(b.endian_tag as int, 4) + le_bytes(b.link_size as int, 4) + le_bytes(b.link_off as int, 4) + le_bytes(b.map_off as int, 4) + le_bytes(b.string_ids_size as int, 4) + le_bytes(b.string_ids_off as int, 4) + le_bytes(b.type_ids_size as int, 4) + le_bytes(b.type_ids_off as int, 4) + le_bytes(b.proto_ids_size as int, 4) + le_bytes(b.proto_ids_off as int, 4) + le_bytes(b.field_ids_size as int, 4) + le_bytes(b.field_ids_off as int, 4) + le_bytes(b.method_ids_size as int, 4) + le_bytes(b.method_ids_off as int, 4) + le_bytes(b.class_defs_size as int, 4) + le_bytes(b.class_defs_off as int, 4) + le_bytes(b.data_size as int, 4), le_bytes(b.data_off as int, 4));
    lemma_occurs_prefix(data, pos, b.magic@ + le_bytes(b.checksum as int, 4) + b.signature@ + le_bytes(b.file_size as int, 4) + le_bytes(b.header_size as int, 4) + le_bytes(b.endian_tag as int, 4) + le_bytes(b.link_size as int, 4) + le_bytes(b.link_off as int, 4) + le_bytes(b.map_off as int, 4) + le_bytes(b.string_ids_size as int, 4) + le_bytes(b.string_ids_off as int, 4) + le_bytes(b.type_ids_size as int, 4) + le_bytes(b.type_ids_off as int, 4) + le_bytes(b.proto_ids_size as int, 4) + le_bytes(b.proto_ids_off as int, 4) + le_bytes(b.field_ids_size as int, 4) + le_bytes(b.field_ids_off as int, 4) + le_bytes(b.method_ids_size as int, 4) + le_bytes(b.method_ids_off as int, 4) + le_bytes(b.class_defs_size as int, 4) + le_bytes(b.class_defs_off as int, 4), le_bytes(b.data_size as int, 4));
    lemma_occurs_prefix(data, pos, b.magic@ + le_bytes(b.checksum as int, 4) + b.signature@ + le_bytes(b.file_size as int, 4) + le_bytes(b.header_size as int, 4) + le_bytes(b.endian_tag as int, 4) + le_bytes(b.link_size as int, 4) + le_bytes(b.link_off as int, 4) + le_bytes(b.map_off as int, 4) + le_bytes(b.string_ids_size as int, 4) + le_bytes(b.string_ids_off as int, 4) + le_bytes(b.type_ids_size as int, 4) + le_bytes(b.type_ids_off as int, 4) + le_bytes(b.proto_ids_size as int, 4) + le_bytes(b.proto_ids_off as int, 4) + le_bytes(b.field_ids_size as int, 4) + le_bytes(b.field_ids_off as int, 4) + le_bytes(b.method_ids_size as int, 4) + le_bytes(b.method_ids_off as int, 4) + le_bytes(b.class_defs_size as int, 4), le_bytes(b.class_defs_off as int, 4));
    lemma_occurs_prefix(data, pos, b.magic@ + le_bytes(b.checksum as int, 4) + b.signature@ + le_bytes(b.file_size as int, 4) + le_bytes(b.header_size as int, 4) + le_bytes(b.endian_tag as int, 4) + le_bytes(b.link_size as int, 4) + le_bytes(b.link_off as int, 4) + le_bytes(b.map_off as int, 4) + le_bytes(b.string_ids_size as int, 4) + le_bytes(b.string_ids_off as int, 4) + le_bytes(b.type_ids_size as int, 4) + le_bytes(b.type_ids_off as int, 4) + le_bytes(b.proto_ids_size as int, 4) + le_bytes(b.proto_ids_off as int, 4) + le_bytes(b.field_ids_size as int, 4) + le_bytes(b.field_ids_off as int, 4) + le_bytes(b.method_ids_size as int, 4) + le_bytes(b.method_ids_off as int, 4), le_bytes(b.class_defs_size as int, 4));
    lemma_occurs_prefix(data, pos, b.magic@ + le_bytes(b.checksum as int, 4) + b.signature@ + le_bytes(b.file_size as int, 4) + le_bytes(b.header_size as int, 4) + le_bytes(b.endian_tag as int, 4) + le_bytes(b.link_size as int, 4) + le_bytes(b.link_off as int, 4) + le_bytes(b.map_off as int, 4) + le_bytes(b.string_ids_size as int, 4) + le_bytes(b.string_ids_off as int, 4) + le_bytes(b.type_ids_size as int, 4) + le_bytes(b.type_ids_off as int, 4) + le_bytes(b.proto_ids_size as int, 4) + le_bytes(b.proto_ids_off as int, 4) + le_bytes(b.field_ids_size as int, 4) + le_bytes(b.field_ids_off as int, 4) + le_bytes(b.method_ids_size as int, 4), le_bytes(b.method_ids_off as int, 4));
    lemma_occurs_prefix(data, pos, b.magic@ + le_bytes(b.checksum as int, 4) + b.signature@ + le_bytes(b.file_size as int, 4) + le_bytes(b.header_size as int, 4) + le_bytes(b.endian_tag as int, 4) + le_bytes(b.link_size as int, 4) + le_bytes(b.link_off as int, 4) + le_bytes(b.map_off as int, 4) + le_bytes(b.string_ids_size as int, 4) + le_bytes(b.string_ids_off as int, 4) + le_bytes(b.type_ids_size as int, 4) + le_bytes(b.type_ids_off as int, 4) + le_bytes(b.proto_ids_size as int, 4) + le_bytes(b.proto_ids_off as int, 4) + le_bytes(b.field_ids_size as int, 4) + le_bytes(b.field_ids_off as int, 4), le_bytes(b.method_ids_size as int, 4));
    lemma_occurs_prefix(data, pos, b.magic@ + le_bytes(b.checksum as int, 4) + b.signature@ + le_bytes(b.file_size as int, 4) + le_bytes(b.header_size as int, 4) + le_bytes(b.endian_tag as int, 4) + le_bytes(b.link_size as int, 4) + le_bytes(b.link_off as int, 4) + le_bytes(b.map_off as int, 4) + le_bytes(b.string_ids_size as int, 4) + le_bytes(b.string_ids_off as int, 4) + le_bytes(b.type_ids_size as int, 4) + le_bytes(b.type_ids_off as int, 4) + le_bytes(b.proto_ids_size as int, 4) + le_bytes(b.proto_ids_off as int, 4) + le_bytes(b.field_ids_size as int, 4), le_bytes(b.field_ids_off as int, 4));
    lemma_occurs_prefix(data, pos, b.magic@ + le_bytes(b.checksum as int, 4) + b.signature@ + le_bytes(b.file_size as int, 4) + le_bytes(b.header_size as int, 4) + le_bytes(b.endian_tag as int, 4) + le_bytes(b.link_size as int, 4) + le_bytes(b.link_off as int, 4) + le_bytes(b.map_off as int, 4) + le_bytes(b.string_ids_size as int, 4) + le_bytes(b.string_ids_off as int, 4) + le_bytes(b.type_ids_size as int, 4) + le_bytes(b.type_ids_off as int, 4) + le_bytes(b.proto_ids_size as int, 4) + le_bytes(b.proto_ids_off as int, 4), le_bytes(b.field_ids_size as int, 4));
    lemma_occurs_prefix(data, pos, b.magic@ + le_bytes(b.checksum as int, 4) + b.signature@ + le_bytes(b.file_size as int, 4) + le_bytes(b.header_size as int, 4) + le_bytes(b.endian_tag as int, 4) + le_bytes(b.link_size as int, 4) + le_bytes(b.link_off as int, 4) + le_bytes(b.map_off as int, 4) + le_bytes(b.string_ids_size as int, 4) + le_bytes(b.string_ids_off as int, 4) + le_bytes(b.type_ids_size as int, 4) + le_bytes(b.type_ids_off as int, 4) + le_bytes(b.proto_ids_size as int, 4), le_bytes(b.proto_ids_off as int, 4));
    lemma_occurs_prefix(data, pos, b.magic@ + le_bytes(b.checksum as int, 4) + b.signature@ + le_bytes(b.file_size as int, 4) + le_bytes(b.header_size as int, 4) + le_bytes(b.endian_tag as int, 4) + le_bytes(b.link_size as int, 4) + le_bytes(b.link_off as int, 4) + le_bytes(b.map_off as int, 4) + le_bytes(b.string_ids_size as int, 4) + le_bytes(b.string_ids_off as int, 4) + le_bytes(b.type_ids_size as int, 4) + le_bytes(b.type_ids_off as int, 4), le_bytes(b.proto_ids_size as int, 4));
    lemma_occurs_prefix(data, pos, b.magic@ + le_bytes(b.checksum as int, 4) + b.signature@ + le_bytes(b.file_size as int, 4) + le_bytes(b.header_size as int, 4) + le_bytes(b.endian_tag as int, 4) + le_bytes(b.link_size as int, 4) + le_bytes(b.link_off as int, 4) + le_bytes(b.map_off as int, 4) + le_bytes(b.string_ids_size as int, 4) + le_bytes(b.string_ids_off as int, 4) + le_bytes(b.type_ids_size as int, 4), le_bytes(b.type_ids_off as int, 4));
    lemma_occurs_prefix(data, pos, b.magic@ + le_bytes(b.checksum as int, 4) + b.signature@ + le_bytes(b.file_size as int, 4) + le_bytes(b.header_size as int, 4) + le_bytes(b.endian_tag as int, 4) + le_bytes(b.link_size as int, 4) + le_bytes(b.link_off as int, 4) + le_bytes(b.map_off as int, 4) + le_bytes(b.string_ids_size as int, 4) + le_bytes(b.string_ids_off as int, 4), le_bytes(b.type_ids_size as int, 4));
    lemma_occurs_prefix(data, pos, b.magic@ + le_bytes(b.checksum as int, 4) + b.signature@ + le_bytes(b.file_size as int, 4) + le_bytes(b.header_size as int, 4) + le_bytes(b.endian_tag as int, 4) + le_bytes(b.link_size as int, 4) + le_bytes(b.link_off as int, 4) + le_bytes(b.map_off as int, 4) + le_bytes(b.string_ids_size as int, 4), le_bytes(b.string_ids_off as int, 4));
    lemma_occurs_prefix(data, pos, b.magic@ + le_bytes(b.checksum as int, 4) + b.signature@ + le_bytes(b.file_size as int, 4) + le_bytes(b.header_size as int, 4) + le_bytes(b.endian_tag as int, 4) + le_bytes(b.link_size as int, 4) + le_bytes(b.link_off as int, 4) + le_bytes(b.map_off as int, 4), le_bytes(b.string_ids_size as int, 4));
    lemma_occurs_prefix(data, pos, b.magic@ + le_bytes(b.checksum as int, 4) + b.signature@ + le_bytes(b.file_size as int, 4) + le_bytes(b.header_size as int, 4) + le_bytes(b.endian_tag as int, 4) + le_bytes(b.link_size as int, 4) + le_bytes(b.link_off as int, 4), le_bytes(b.map_off as int, 4));
    lemma_occurs_prefix(data, pos, b.magic@ + le_bytes(b.checksum as int, 4) + b.signature@ + le_bytes(b.file_size as int, 4) + le_bytes(b.header_size as int, 4) + le_bytes(b.endian_tag as int, 4) + le_bytes(b.link_size as int, 4), le_bytes(b.link_off as int, 4));
    lemma_occurs_prefix(data, pos, b.magic@ + le_bytes(b.checksum as int, 4) + b.signature@ + le_bytes(b.file_size as int, 4) + le_bytes(b.header_size as int, 4) + le_bytes(b.endian_tag as int, 4), le_bytes(b.link_size as int, 4));
    lemma_occurs_prefix(data, pos, b.magic@ + le_bytes(b.checksum as int, 4) + b.signature@ + le_bytes(b.file_size as int, 4) + le_bytes(b.header_size as int, 4), le_bytes(b.endian_tag as int, 4));
    lemma_occurs_prefix(data, pos, b.magic@ + le_bytes(b.checksum as int, 4) + b.signature@ + le_bytes(b.file_size as int, 4), le_bytes(b.header_size as int, 4));
    lemma_occurs_prefix(data, pos, b.magic@ + le_bytes(b.checksum as int, 4) + b.signature@, le_bytes(b.file_size as int, 4));
    lemma_occurs_prefix(data, pos, b.magic@ + le_bytes(b.checksum as int, 4), b.signature@);
    lemma_occurs_prefix(data, pos, b.magic@, le_bytes(b.checksum as int, 4));
    lemma_pow256_values();
    lemma_le_bytes_injective(a.file_size as int, b.file_size as int, 4);
    lemma_le_bytes_injective(a.link_size as int, b.link_size as int, 4);
    lemma_le_bytes_injective(a.link_off as int, b.link_off as int, 4);
    lemma_le_bytes_injective(a.map_off as int, b.map_off as int, 4);
}

/// Two map items with the same encoding are the same.
pub proof fn lemma_map_item_injective(data: Seq<u8>, pos: int, a: MapItem, b: MapItem)
    requires
        occurs_at(data, pos, a.encoding()),
        occurs_at(data, pos, b.encoding()),
    ensures
        a == b,
{
    let ta = le_bytes(a.type_code.spec_code() as int, 2);
    let tb = le_bytes(b.type_code.spec_code() as int, 2);
    let ua = le_bytes(a.unused as int, 2);
    let ub = le_bytes(b.unused as int, 2);
    let sa = le_bytes(a.size as int, 4);
    let sb = le_bytes(b.size as int, 4);
    lemma_occurs_prefix(data, pos, ta + ua + sa, le_bytes(a.offset as int, 4));
    lemma_occurs_prefix(data, pos, tb + ub + sb, le_bytes(b.offset as int, 4));
    lemma_occurs_prefix(data, pos, ta + ua, sa);
    lemma_occurs_prefix(data, pos, tb + ub, sb);
    lemma_occurs_prefix(data, pos, ta, ua);
    lemma_occurs_prefix(data, pos, tb, ub);
    lemma_pow256_values();
    lemma_le_bytes_injective(a.type_code.spec_code() as int, b.type_code.spec_code() as int, 2);
    lemma_le_bytes_injective(a.unused as int, b.unused as int, 2);
    lemma_le_bytes_injective(a.size as int, b.size as int, 4);
    lemma_le_bytes_injective(a.offset as int, b.offset as int, 4);
}

/// Two lists of map items found at the same place, equally long, are the same list.
proof fn lemma_map_items_equal(data: Seq<u8>, pos: int, s: Seq<MapItem>, t: Seq<MapItem>, k: int)
    requires
        s.len() == t.len(),
        0 <= k <= s.len(),
        occurs_at(data, pos, encode_seq(s)),
        occurs_at(data, pos, encode_seq(t)),
    ensures
        s.take(k) == t.take(k),
    decreases k,
{
    if k == 0 {
        assert(s.take(0) =~= t.take(0));
    } else {
        lemma_map_items_equal(data, pos, s, t, k - 1);
        lemma_encode_seq_occurs_take(data, pos, s, k);
        lemma_encode_seq_occurs_take(data, pos, t, k);
        lemma_encode_seq_prefix(s, k - 1);
        lemma_encode_seq_prefix(t, k - 1);
        let e = encode_seq(s.take(k - 1));
        lemma_occurs_prefix(data, pos, e, s[k - 1].encoding());
        lemma_occurs_prefix(data, pos, e, t[k - 1].encoding());
        lemma_map_item_injective(data, pos + e.len(), s[k - 1], t[k - 1]);
        assert(s.take(k) =~= t.take(k));
    }
}

/// Two map lists found at the same place are the same list.
pub proof fn lemma_map_list_equal(data: Seq<u8>, pos: int, a: MapList, b: MapList)
    requires
        a.well_formed(),
        b.well_formed(),
        occurs_at(data, pos, a.encoding()),
        occurs_at(data, pos, b.encoding()),
    ensures
        a.list@ == b.list@,
{
    lemma_occurs_prefix(data, pos, le_bytes(a.list@.len() as int, 4), encode_seq(a.list@));
    lemma_occurs_prefix(data, pos, le_bytes(b.list@.len() as int, 4), encode_seq(b.list@));
    lemma_pow256_values();
    lemma_le_bytes_injective(a.list@.len() as int, b.list@.len() as int, 4);
    lemma_map_items_equal(data, pos + 4, a.list@, b.list@, a.list@.len() as int);
    assert(a.list@.take(a.list@.len() as int) =~= a.list@);
    assert(b.list@.take(b.list@.len() as int) =~= b.list@);
}

/// The kind of a section, as the map list names it.
#[derive(Debug, PartialEq, Eq, Hash, Clone, Copy, Structural)]
pub enum TypeCode {
    TypeHeaderItem,
    TypeStringIdItem,
    TypeTypeIdItem,
    TypeProtoIdItem,
    TypeFieldIdItem,
    TypeMethodIdItem,
    TypeClassDefItem,
    TypeCallSiteIdItem,
    TypeMethodHandleItem,
    TypeMapList,
    TypeTypeList,
    TypeAnnotationSetRefList,
    TypeAnnotationSetItem,
    TypeClassDataItem,
    TypeCodeItem,
    TypeStringDataItem,
    TypeDebugInfoItem,
    TypeAnnotationItem,
    TypeEncodedArrayItem,
    TypeAnnotationsDirectoryItem,
    TypeHiddenapiClassDataItem,
}

impl TypeCode {
    /// The 16-bit value that stands for this kind on the wire.
    pub open spec fn spec_code(self) -> u16 {
        match self {
            TypeCode::TypeHeaderItem => 0x0000,
            TypeCode::TypeStringIdItem => 0x0001,
            TypeCode::TypeTypeIdItem => 0x0002,
            TypeCode::TypeProtoIdItem => 0x0003,
            TypeCode::TypeFieldIdItem => 0x0004,
            TypeCode::TypeMethodIdItem => 0x0005,
            TypeCode::TypeClassDefItem => 0x0006,
            TypeCode::TypeCallSiteIdItem => 0x0007,
            TypeCode::TypeMethodHandleItem => 0x0008,
            TypeCode::TypeMapList => 0x1000,
            TypeCode::TypeTypeList => 0x1001,
            TypeCode::TypeAnnotationSetRefList => 0x1002,
            TypeCode::TypeAnnotationSetItem => 0x1003,
            TypeCode::TypeClassDataItem => 0x2000,
            TypeCode::TypeCodeItem => 0x2001,
            TypeCode::TypeStringDataItem => 0x2002,
            TypeCode::TypeDebugInfoItem => 0x2003,
            TypeCode::TypeAnnotationItem => 0x2004,
            TypeCode::TypeEncodedArrayItem => 0x2005,
            TypeCode::TypeAnnotationsDirectoryItem => 0x2006,
            TypeCode::TypeHiddenapiClassDataItem => 0xF000,
        }
    }

    pub fn code(&self) -> (r: u16)
        ensures
            r == self.spec_code(),
    {
        match self {
            TypeCode::TypeHeaderItem => 0x0000,
            TypeCode::TypeStringIdItem => 0x0001,
            TypeCode::TypeTypeIdItem => 0x0002,
            TypeCode::TypeProtoIdItem => 0x0003,
            TypeCode::TypeFieldIdItem => 0x0004,
            TypeCode::TypeMethodIdItem => 0x0005,
            TypeCode::TypeClassDefItem => 0x0006,
            TypeCode::TypeCallSiteIdItem => 0x0007,
            TypeCode::TypeMethodHandleItem => 0x0008,
            TypeCode::TypeMapList => 0x1000,
            TypeCode::TypeTypeList => 0x1001,
            TypeCode::TypeAnnotationSetRefList => 0x1002,
            TypeCode::TypeAnnotationSetItem => 0x1003,
            TypeCode::TypeClassDataItem => 0x2000,
            TypeCode::TypeCodeItem => 0x2001,
            TypeCode::TypeStringDataItem => 0x2002,
            TypeCode::TypeDebugInfoItem => 0x2003,
            TypeCode::TypeAnnotationItem => 0x2004,
            TypeCode::TypeEncodedArrayItem => 0x2005,
            TypeCode::TypeAnnotationsDirectoryItem => 0x2006,
            TypeCode::TypeHiddenapiClassDataItem => 0xF000,
        }
    }

    /// The kind that a 16-bit value stands for; `None` for a value outside the closed set.
    pub fn from_code(v: u16) -> (r: Option<TypeCode>)
        ensures
            r matches Some(t) ==> t.spec_code() == v,
            r is None ==> forall|t: TypeCode| t.spec_code() != v,
    {
        match v {
            0x0000 => Some(TypeCode::TypeHeaderItem),
            0x0001 => Some(TypeCode::TypeStringIdItem),
            0x0002 => Some(TypeCode::TypeTypeIdItem),
            0x0003 => Some(TypeCode::TypeProtoIdItem),
            0x0004 => Some(TypeCode::TypeFieldIdItem),
            0x0005 => Some(TypeCode::TypeMethodIdItem),
            0x0006 => Some(TypeCode::TypeClassDefItem),
            0x0007 => Some(TypeCode::TypeCallSiteIdItem),
            0x0008 => Some(TypeCode::TypeMethodHandleItem),
            0x1000 => Some(TypeCode::TypeMapList),
            0x1001 => Some(TypeCode::TypeTypeList),
            0x1002 => Some(TypeCode::TypeAnnotationSetRefList),
            0x1003 => Some(TypeCode::TypeAnnotationSetItem),
            0x2000 => Some(TypeCode::TypeClassDataItem),
            0x2001 => Some(TypeCode::TypeCodeItem),
            0x2002 => Some(TypeCode::TypeStringDataItem),
            0x2003 => Some(TypeCode::TypeDebugInfoItem),
            0x2004 => Some(TypeCode::TypeAnnotationItem),
            0x2005 => Some(TypeCode::TypeEncodedArrayItem),
            0x2006 => Some(TypeCode::TypeAnnotationsDirectoryItem),
            0xF000 => Some(TypeCode::TypeHiddenapiClassDataItem),
            _ => None,
        }
    }
}

/// One entry of the map list: a section's kind, record count and offset.
#[derive(Debug, Clone, Copy, PartialEq, Eq, Structural)]
pub struct MapItem {
    pub type_code: TypeCode,
    pub unused: u16,
    pub size: u32,
    pub offset: u32,
}

impl DexStruct for MapItem {
    open spec fn encoding(&self) -> Seq<u8> {
        le_bytes(self.type_code.spec_code() as int, 2) + le_bytes(self.unused as int, 2) + le_bytes(
            self.size as int,
            4,
        ) + le_bytes(self.offset as int, 4)
    }

    open spec fn well_formed(&self) -> bool {
        true
    }

    open spec fn spec_alignment() -> nat {
        1
    }

    fn alignment() -> (r: usize) {
        1
    }

    proof fn lemma_prefix_free(data: Seq<u8>, pos: int, a: Self, b: Self) {
        assert(a.encoding().len() == b.encoding().len());
    }

    fn deserialize(data: &[u8], pos: usize) -> (res: Result<(Self, usize), DeserializeError>)
        ensures
            pos + 2 <= data@.len() && (forall|t: TypeCode|
                t.spec_code() != le_value(data@.subrange(pos as int, pos + 2))) ==> res == Err::<
                (Self, usize),
                DeserializeError,
            >(DeserializeError::FormatError),
    {
        let (code, p) = match decode_u16(data, pos) {
            Ok(r) => r,
            Err(e) => return Err(e),
        };
        proof {
            lemma_pow256_values();
            lemma_le_bytes_value(code as int, 2);
            vstd::arithmetic::div_mod::lemma_small_mod(code as nat, 0x1_0000);
        }
        let type_code = match TypeCode::from_code(code) {
            Some(t) => t,
            None => {
                assert forall|v: MapItem| v.well_formed() implies !occurs_at(
                    data@,
                    pos as int,
                    #[trigger] v.encoding(),
                ) by {
                    if occurs_at(data@, pos as int, v.encoding()) {
                        let a = le_bytes(v.type_code.spec_code() as int, 2);
                        let b = le_bytes(v.unused as int, 2);
                        let c = le_bytes(v.size as int, 4);
                        lemma_occurs_prefix(data@, pos as int, a + b + c, le_bytes(v.offset as int, 4));
                        lemma_occurs_prefix(data@, pos as int, a + b, c);
                        lemma_occurs_prefix(data@, pos as int, a, b);
                        lemma_pow256_values();
                        lemma_le_bytes_injective(code as int, v.type_code.spec_code() as int, 2);
                    }
                }
                return Err(DeserializeError::FormatError);
            },
        };
        let (unused, p) = match decode_u16(data, p) {
            Ok(r) => r,
            Err(e) => return Err(e),
        };
        let (size, p) = match decode_u32(data, p) {
            Ok(r) => r,
            Err(e) => return Err(e),
        };
        let (offset, p) = match decode_u32(data, p) {
            Ok(r) => r,
            Err(e) => return Err(e),
        };
        proof {
            lemma_occurs_concat(data@, pos as int, le_bytes(code as int, 2), le_bytes(unused as int, 2));
            lemma_occurs_concat(
                data@,
                pos as int,
                le_bytes(code as int, 2) + le_bytes(unused as int, 2),
                le_bytes(size as int, 4),
            );
            lemma_occurs_concat(
                data@,
                pos as int,
                le_bytes(code as int, 2) + le_bytes(unused as int, 2) + le_bytes(size as int, 4),
                le_bytes(offset as int, 4),
            );
        }
        Ok((MapItem { type_code, unused, size, offset }, p))
    }

    fn serialize(&self, out: &mut Vec<u8>) {
        encode_u16(out, self.type_code.code());
        encode_u16(out, self.unused);
        encode_u32(out, self.size);
        encode_u32(out, self.offset);
        assert(out@ =~= old(out)@ + self.encoding());
    }

    fn size(&self) -> (r: usize) {
        12
    }
}

impl MapList {
    /// The last entry for sections of the given kind, if any.
    pub fn get(&self, type_code: TypeCode) -> (r: Option<MapItem>)
        ensures
            r matches Some(m) ==> exists|i: int|
                0 <= i < self.list@.len() && self.list@[i] == m && m.type_code == type_code && (
                forall|j: int| i < j < self.list@.len() ==> (#[trigger] self.list@[j]).type_code
                    != type_code),
            r is None ==> forall|i: int|
                0 <= i < self.list@.len() ==> (#[trigger] self.list@[i]).type_code != type_code,
    {
        let mut i: usize = self.list.len();
        while i > 0
            invariant
                i <= self.list@.len(),
                forall|j: int|
                    i <= j < self.list@.len() ==> (#[trigger] self.list@[j]).type_code != type_code,
            decreases i,
        {
            i = i - 1;
            let item = self.list[i];
            if item.type_code == type_code {
                return Some(item);
            }
        }
        None
    }
}

/// The directory of sections: one entry per section, ordered by offset.
#[derive(Debug, PartialEq, Eq)]
pub struct MapList {
    pub list: Vec<MapItem>,
}

impl DexStruct for MapList {
    open spec fn encoding(&self) -> Seq<u8> {
        le_bytes(self.list@.len() as int, 4) + encode_seq(self.list@)
    }

    open spec fn well_formed(&self) -> bool {
        self.list@.len() <= u32::MAX && all_well_formed(self.list@)
    }

    open spec fn spec_alignment() -> nat {
        4
    }

    fn alignment() -> (r: usize) {
        4
    }

    proof fn lemma_prefix_free(data: Seq<u8>, pos: int, a: Self, b: Self) {
        lemma_occurs_prefix(data, pos, le_bytes(a.list@.len() as int, 4), encode_seq(a.list@));
        lemma_occurs_prefix(data, pos, le_bytes(b.list@.len() as int, 4), encode_seq(b.list@));
        lemma_pow256_values();
        lemma_le_bytes_injective(a.list@.len() as int, b.list@.len() as int, 4);
        lemma_encode_seq_equal(data, pos + 4, a.list@, b.list@);
    }

    fn deserialize(data: &[u8], pos: usize) -> (res: Result<(Self, usize), DeserializeError>) {
        let (count, p) = match decode_u32(data, pos) {
            Ok(r) => r,
            Err(e) => {
                proof {
                    assert forall|v: Self| v.well_formed() implies !occurs_at(
                        data@,
                        pos as int,
                        #[trigger] v.encoding(),
                    ) by {
                        if occurs_at(data@, pos as int, v.encoding()) {
                            assert(v.encoding() == le_bytes(v.list@.len() as int, 4) + encode_seq(v.list@));
                            lemma_occurs_prefix(data@, pos as int, le_bytes(v.list@.len() as int, 4), encode_seq(v.list@));
                            lemma_pow256_values();
                        }
                    }
                }
                return Err(e);
            },
        };
        let (list, p) = match deserialize_items::<MapItem>(data, p, count as usize) {
            Ok(r) => r,
            Err(e) => {
                proof {
                    assert forall|v: Self| v.well_formed() implies !occurs_at(
                        data@,
                        pos as int,
                        #[trigger] v.encoding(),
                    ) by {
                        if occurs_at(data@, pos as int, v.encoding()) {
                            assert(v.encoding() == le_bytes(v.list@.len() as int, 4) + encode_seq(v.list@));
                            lemma_occurs_prefix(data@, pos as int, le_bytes(v.list@.len() as int, 4), encode_seq(v.list@));
                            lemma_pow256_values();
                            lemma_le_bytes_injective(count as int, v.list@.len() as int, 4);
                        }
                    }
                }
                return Err(e);
            },
        };
        proof {
            lemma_occurs_concat(data@, pos as int, le_bytes(count as int, 4), encode_seq(list@));
        }
        Ok((Self { list }, p))
    }

    fn serialize(&self, out: &mut Vec<u8>) {
        encode_u32(out, self.list.len() as u32);
        serialize_items(&self.list, out);
        assert(out@ =~= old(out)@ + self.encoding());
    }

    fn size(&self) -> (r: usize) {
        4 + size_items(&self.list)
    }
}

/// 16-bit code units, little-endian, one after another.
pub open spec fn u16_seq(s: Seq<u16>) -> Seq<u8>
    decreases s.len(),
{
    if s.len() == 0 {
        seq![]
    } else {
        u16_seq(s.drop_last()) + le_bytes(s.last() as int, 2)
    }
}

/// ULEB128p1 values, one after another.
pub open spec fn uleb128p1_seq(s: Seq<i32>) -> Seq<u8>
    decreases s.len(),
{
    if s.len() == 0 {
        seq![]
    } else {
        uleb128p1_seq(s.drop_last()) + uleb128p1_bytes(s.last() as int)
    }
}

pub proof fn lemma_u16_seq_len(s: Seq<u16>)
    ensures
        u16_seq(s).len() == 2 * s.len(),
    decreases s.len(),
{
    if s.len() > 0 {
        lemma_u16_seq_len(s.drop_last());
    }
}

/// Reads `count` 16-bit code units.
pub fn decode_u16_list(data: &[u8], pos: usize, count: usize) -> (res: Result<
    (Vec<u16>, usize),
    DeserializeError,
>)
    ensures
        res matches Ok((v, end)) ==> v@.len() == count && end == pos + u16_seq(v@).len()
            && occurs_at(data@, pos as int, u16_seq(v@)),
        res is Err ==> pos + 2 * count > data@.len(),
{
    if pos > data.len() {
        return Err(DeserializeError::IoError);
    }
    let mut items: Vec<u16> = Vec::new();
    let mut p = pos;
    let mut i: usize = 0;
    assert(data@.subrange(pos as int, pos as int) =~= u16_seq(items@));
    while i < count
        invariant
            i <= count,
            items@.len() == i,
            p == pos + u16_seq(items@).len(),
            p == pos + 2 * i,
            occurs_at(data@, pos as int, u16_seq(items@)),
        decreases count - i,
    {
        let (item, next) = match decode_u16(data, p) {
            Ok(r) => r,
            Err(e) => return Err(e),
        };
        proof {
            lemma_occurs_concat(data@, pos as int, u16_seq(items@), le_bytes(item as int, 2));
        }
        let ghost prev = items@;
        items.push(item);
        assert(items@.drop_last() =~= prev);
        proof {
            lemma_u16_seq_len(items@);
        }
        p = next;
        i = i + 1;
    }
    Ok((items, p))
}

pub fn encode_u16_list(items: &Vec<u16>, out: &mut Vec<u8>)
    ensures
        final(out)@ == old(out)@ + u16_seq(items@),
{
    let mut i: usize = 0;
    while i < items.len()
        invariant
            i <= items@.len(),
            out@ == old(out)@ + u16_seq(items@.take(i as int)),
        decreases items@.len() - i,
    {
        assert(items@.take(i + 1).drop_last() =~= items@.take(i as int));
        encode_u16(out, items[i]);
        assert(out@ =~= old(out)@ + u16_seq(items@.take(i + 1)));
        i = i + 1;
    }
    assert(items@.take(items@.len() as int) =~= items@);
}

/// Reads `count` ULEB128p1 values.
pub fn decode_uleb128p1_list(data: &[u8], pos: usize, count: usize) -> (res: Result<
    (Vec<i32>, usize),
    DeserializeError,
>)
    ensures
        res matches Ok((v, end)) ==> v@.len() == count && (forall|i: int|
            0 <= i < v@.len() ==> v@[i] >= -1) && end == pos + uleb128p1_seq(v@).len()
            && occurs_at(data@, pos as int, uleb128p1_seq(v@)),
        res is Err ==> forall|s: Seq<i32>|
            s.len() == count && (forall|i: int| 0 <= i < s.len() ==> s[i] >= -1) ==> !occurs_at(
                data@,
                pos as int,
                #[trigger] uleb128p1_seq(s),
            ),
{
    if pos > data.len() {
        return Err(DeserializeError::IoError);
    }
    let mut items: Vec<i32> = Vec::new();
    let mut p = pos;
    let mut i: usize = 0;
    assert(data@.subrange(pos as int, pos as int) =~= uleb128p1_seq(items@));
    while i < count
        invariant
            i <= count,
            items@.len() == i,
            forall|j: int| 0 <= j < items@.len() ==> items@[j] >= -1,
            p == pos + uleb128p1_seq(items@).len(),
            occurs_at(data@, pos as int, uleb128p1_seq(items@)),
            forall|s: Seq<i32>|
                s.len() == count && (forall|j: int| 0 <= j < s.len() ==> s[j] >= -1)
                    && #[trigger] occurs_at(data@, pos as int, uleb128p1_seq(s))
                    ==> uleb128p1_seq(s.take(i as int)) == uleb128p1_seq(items@),
        decreases count - i,
    {
        let (item, next) = match decode_uleb128p1(data, p) {
            Ok(r) => r,
            Err(e) => {
                assert forall|s: Seq<i32>|
                    s.len() == count && (forall|j: int| 0 <= j < s.len() ==> s[j] >= -1) implies !occurs_at(
                    data@,
                    pos as int,
                    #[trigger] uleb128p1_seq(s),
                ) by {
                    if occurs_at(data@, pos as int, uleb128p1_seq(s)) {
                        lemma_uleb128p1_seq_occurs_take(data@, pos as int, s, i + 1);
                        assert(s.take(i + 1).drop_last() =~= s.take(i as int));
                        lemma_occurs_prefix(
                            data@,
                            pos as int,
                            uleb128p1_seq(s.take(i as int)),
                            uleb128p1_bytes(s[i as int] as int),
                        );
                    }
                }
                return Err(e);
            },
        };
        proof {
            lemma_occurs_concat(data@, pos as int, uleb128p1_seq(items@), uleb128p1_bytes(item as int));
        }
        let ghost prev = items@;
        items.push(item);
        assert(items@.drop_last() =~= prev);
        proof {
            assert forall|s: Seq<i32>|
                s.len() == count && (forall|j: int| 0 <= j < s.len() ==> s[j] >= -1)
                    && #[trigger] occurs_at(data@, pos as int, uleb128p1_seq(s)) implies uleb128p1_seq(
                s.take(i + 1),
            ) == uleb128p1_seq(items@) by {
                lemma_uleb128p1_seq_occurs_take(data@, pos as int, s, i + 1);
                assert(s.take(i + 1).drop_last() =~= s.take(i as int));
                lemma_occurs_prefix(
                    data@,
                    pos as int,
                    uleb128p1_seq(s.take(i as int)),
                    uleb128p1_bytes(s[i as int] as int),
                );
                lemma_uleb128p1_prefix_free(data@, p as int, item, s[i as int]);
            }
        }
        p = next;
        i = i + 1;
    }
    Ok((items, p))
}

pub fn encode_uleb128p1_list(items: &Vec<i32>, out: &mut Vec<u8>)
    requires
        forall|i: int| 0 <= i < items@.len() ==> items@[i] >= -1,
    ensures
        final(out)@ == old(out)@ + uleb128p1_seq(items@),
{
    let mut i: usize = 0;
    while i < items.len()
        invariant
            i <= items@.len(),
            forall|i: int| 0 <= i < items@.len() ==> items@[i] >= -1,
            out@ == old(out)@ + uleb128p1_seq(items@.take(i as int)),
        decreases items@.len() - i,
    {
        assert(items@.take(i + 1).drop_last() =~= items@.take(i as int));
        encode_uleb128p1(out, items[i]);
        assert(out@ =~= old(out)@ + uleb128p1_seq(items@.take(i + 1)));
        i = i + 1;
    }
    assert(items@.take(items@.len() as int) =~= items@);
}

pub proof fn lemma_uleb128p1_seq_take_len(s: Seq<i32>, i: int)
    requires
        0 <= i <= s.len(),
    ensures
        uleb128p1_seq(s.take(i)).len() <= uleb128p1_seq(s).len(),
    decreases s.len() - i,
{
    if i < s.len() {
        lemma_uleb128p1_seq_take_len(s, i + 1);
        assert(s.take(i + 1).drop_last() =~= s.take(i));
    } else {
        assert(s.take(i) =~= s);
    }
}

pub fn size_uleb128p1_list(items: &Vec<i32>) -> (r: usize)
    requires
        forall|i: int| 0 <= i < items@.len() ==> items@[i] >= -1,
        uleb128p1_seq(items@).len() <= usize::MAX,
    ensures
        r == uleb128p1_seq(items@).len(),
{
    let mut total: usize = 0;
    let mut i: usize = 0;
    while i < items.len()
        invariant
            i <= items@.len(),
            forall|i: int| 0 <= i < items@.len() ==> items@[i] >= -1,
            uleb128p1_seq(items@).len() <= usize::MAX,
            total == uleb128p1_seq(items@.take(i as int)).len(),
        decreases items@.len() - i,
    {
        proof {
            assert(items@.take(i + 1).drop_last() =~= items@.take(i as int));
            lemma_uleb128p1_seq_take_len(items@, i + 1);
        }
        total = total + size_uleb128p1(items[i]);
        i = i + 1;
    }
    assert(items@.take(items@.len() as int) =~= items@);
    total
}

/// Two zero-terminated strings found at the same place are the same string.
pub proof fn lemma_zero_terminated_prefix_free(data: Seq<u8>, pos: int, s: Seq<u8>, t: Seq<u8>)
    requires
        zero_terminated(s),
        zero_terminated(t),
        occurs_at(data, pos, s),
        occurs_at(data, pos, t),
    ensures
        s == t,
{
    assert forall|i: int| 0 <= i < s.len() && i < t.len() implies s[i] == t[i] by {
        assert(s[i] == data.subrange(pos, pos + s.len())[i]);
        assert(t[i] == data.subrange(pos, pos + t.len())[i]);
    }
    if s.len() < t.len() {
        assert(s[s.len() - 1] == t[s.len() - 1]);
    } else if t.len() < s.len() {
        assert(s[t.len() - 1] == t[t.len() - 1]);
    }
    assert(s =~= t);
}

/// Two equally long lists of ULEB128p1 values found at the same place encode the same
/// values, prefix by prefix.
pub proof fn lemma_uleb128p1_seq_prefix_free(data: Seq<u8>, pos: int, s: Seq<i32>, t: Seq<i32>, k: int)
    requires
        s.len() == t.len(),
        0 <= k <= s.len(),
        forall|i: int| 0 <= i < s.len() ==> s[i] >= -1,
        forall|i: int| 0 <= i < t.len() ==> t[i] >= -1,
        occurs_at(data, pos, uleb128p1_seq(s)),
        occurs_at(data, pos, uleb128p1_seq(t)),
    ensures
        s.take(k) == t.take(k),
        uleb128p1_seq(s.take(k)) == uleb128p1_seq(t.take(k)),
    decreases k,
{
    if k == 0 {
        assert(s.take(0) =~= t.take(0));
    } else {
        lemma_uleb128p1_seq_prefix_free(data, pos, s, t, k - 1);
        lemma_uleb128p1_seq_occurs_take(data, pos, s, k);
        lemma_uleb128p1_seq_occurs_take(data, pos, t, k);
        assert(s.take(k).drop_last() =~= s.take(k - 1));
        assert(t.take(k).drop_last() =~= t.take(k - 1));
        let e = uleb128p1_seq(s.take(k - 1));
        lemma_occurs_prefix(data, pos, e, uleb128p1_bytes(s[k - 1] as int));
        lemma_occurs_prefix(data, pos, e, uleb128p1_bytes(t[k - 1] as int));
        lemma_uleb128p1_prefix_free(data, pos + e.len(), s[k - 1], t[k - 1]);
        assert(s.take(k) =~= t.take(k));
    }
}

/// Where a list of ULEB128p1 values occurs, so does each of its prefixes.
pub proof fn lemma_uleb128p1_seq_occurs_take(data: Seq<u8>, pos: int, s: Seq<i32>, j: int)
    requires
        0 <= j <= s.len(),
        occurs_at(data, pos, uleb128p1_seq(s)),
    ensures
        occurs_at(data, pos, uleb128p1_seq(s.take(j))),
    decreases s.len() - j,
{
    if j == s.len() {
        assert(s.take(j) =~= s);
    } else {
        lemma_uleb128p1_seq_occurs_take(data, pos, s, j + 1);
        assert(s.take(j + 1).drop_last() =~= s.take(j));
        lemma_occurs_prefix(data, pos, uleb128p1_seq(s.take(j)), uleb128p1_bytes(s[j] as int));
    }
}

/// String data: its length in UTF-16 code units, then its MUTF-8 bytes including the
/// terminating zero byte. The bytes are kept as they are, not decoded.
#[derive(Debug, PartialEq, Eq)]
pub struct StringDataItem {
    pub utf16_size: u32,
    pub data: Vec<u8>,
}

impl DexStruct for StringDataItem {
    open spec fn encoding(&self) -> Seq<u8> {
        uleb128_bytes(self.utf16_size as nat) + self.data@
    }

    open spec fn well_formed(&self) -> bool {
        zero_terminated(self.data@)
    }

    open spec fn spec_alignment() -> nat {
        1
    }

    fn alignment() -> (r: usize) {
        1
    }

    proof fn lemma_prefix_free(data: Seq<u8>, pos: int, a: Self, b: Self) {
        lemma_occurs_prefix(data, pos, uleb128_bytes(a.utf16_size as nat), a.data@);
        lemma_occurs_prefix(data, pos, uleb128_bytes(b.utf16_size as nat), b.data@);
        lemma_uleb128_prefix_free(data, pos, a.utf16_size, b.utf16_size);
        lemma_zero_terminated_prefix_free(data, pos + (uleb128_bytes(a.utf16_size as nat)).len(), a.data@, b.data@);
    }

    fn deserialize(data: &[u8], pos: usize) -> (res: Result<(Self, usize), DeserializeError>) {
        let (utf16_size, p) = match decode_uleb128(data, pos) {
            Ok(r) => r,
            Err(e) => {
                proof {
                    assert forall|v: Self| v.well_formed() implies !occurs_at(
                        data@,
                        pos as int,
                        #[trigger] v.encoding(),
                    ) by {
                        if occurs_at(data@, pos as int, v.encoding()) {
                            assert(v.encoding() == uleb128_bytes(v.utf16_size as nat) + v.data@);
                            lemma_occurs_prefix(data@, pos as int, uleb128_bytes(v.utf16_size as nat), v.data@);
                            lemma_pow256_values();
                        }
                    }
                }
                return Err(e);
            },
        };
        let (bytes, p) = match decode_zero_terminated(data, p) {
            Ok(r) => r,
            Err(e) => {
                proof {
                    assert forall|v: Self| v.well_formed() implies !occurs_at(
                        data@,
                        pos as int,
                        #[trigger] v.encoding(),
                    ) by {
                        if occurs_at(data@, pos as int, v.encoding()) {
                            assert(v.encoding() == uleb128_bytes(v.utf16_size as nat) + v.data@);
                            lemma_occurs_prefix(data@, pos as int, uleb128_bytes(v.utf16_size as nat), v.data@);
                            lemma_pow256_values();
                            lemma_uleb128_prefix_free(data@, pos as int, utf16_size, v.utf16_size);
                        }
                    }
                }
                return Err(e);
            },
        };
        proof {
            lemma_occurs_concat(data@, pos as int, uleb128_bytes(utf16_size as nat), bytes@);
        }
        Ok((StringDataItem { utf16_size, data: bytes }, p))
    }

    fn serialize(&self, out: &mut Vec<u8>) {
        encode_uleb128(out, self.utf16_size);
        encode_bytes(out, self.data.as_slice());
        assert(out@ =~= old(out)@ + self.encoding());
    }

    fn size(&self) -> (r: usize) {
        size_uleb128(self.utf16_size) + self.data.len()
    }
}

/// Debug information of a method: the first line number, the parameter names (string
/// indices, `-1` for none) and the state-machine bytecode through its end opcode.
#[derive(Debug, PartialEq, Eq)]
pub struct DebugInfoItem {
    pub line_start: u32,
    pub parameter_names: Vec<i32>,
    pub bytecode: Vec<u8>,
}

impl DexStruct for DebugInfoItem {
    open spec fn encoding(&self) -> Seq<u8> {
        uleb128_bytes(self.line_start as nat) + uleb128_bytes(self.parameter_names@.len())
            + uleb128p1_seq(self.parameter_names@) + self.bytecode@
    }

    open spec fn well_formed(&self) -> bool {
        &&& self.parameter_names@.len() <= u32::MAX
        &&& forall|i: int|
            0 <= i < self.parameter_names@.len() ==> self.parameter_names@[i] >= -1
        &&& zero_terminated(self.bytecode@)
    }

    open spec fn spec_alignment() -> nat {
        1
    }

    fn alignment() -> (r: usize) {
        1
    }

    proof fn lemma_prefix_free(data: Seq<u8>, pos: int, a: Self, b: Self) {
        lemma_occurs_prefix(data, pos, uleb128_bytes(a.line_start as nat) + uleb128_bytes(a.parameter_names@.len()) + uleb128p1_seq(a.parameter_names@), a.bytecode@);
        lemma_occurs_prefix(data, pos, uleb128_bytes(a.line_start as nat) + uleb128_bytes(a.parameter_names@.len()), uleb128p1_seq(a.parameter_names@));
        lemma_occurs_prefix(data, pos, uleb128_bytes(a.line_start as nat), uleb128_bytes(a.parameter_names@.len()));
        lemma_occurs_prefix(data, pos, uleb128_bytes(b.line_start as nat) + uleb128_bytes(b.parameter_names@.len()) + uleb128p1_seq(b.parameter_names@), b.bytecode@);
        lemma_occurs_prefix(data, pos, uleb128_bytes(b.line_start as nat) + uleb128_bytes(b.parameter_names@.len()), uleb128p1_seq(b.parameter_names@));
        lemma_occurs_prefix(data, pos, uleb128_bytes(b.line_start as nat), uleb128_bytes(b.parameter_names@.len()));
        lemma_uleb128_prefix_free(data, pos, a.line_start, b.line_start);
        lemma_uleb128_prefix_free(
            data,
            pos + (uleb128_bytes(a.line_start as nat)).len(),
            a.parameter_names@.len() as u32,
            b.parameter_names@.len() as u32,
        );
        lemma_uleb128p1_seq_prefix_free(data, pos + (uleb128_bytes(a.line_start as nat) + uleb128_bytes(a.parameter_names@.len())).len(), a.parameter_names@, b.parameter_names@, a.parameter_names@.len() as int);
        assert(a.parameter_names@.take(a.parameter_names@.len() as int) =~= a.parameter_names@);
        assert(b.parameter_names@.take(b.parameter_names@.len() as int) =~= b.parameter_names@);
        lemma_zero_terminated_prefix_free(data, pos + (uleb128_bytes(a.line_start as nat) + uleb128_bytes(a.parameter_names@.len()) + uleb128p1_seq(a.parameter_names@)).len(), a.bytecode@, b.bytecode@);
    }

    fn deserialize(data: &[u8], pos: usize) -> (res: Result<(Self, usize), DeserializeError>) {
        let (line_start, p) = match decode_uleb128(data, pos) {
            Ok(r) => r,
            Err(e) => {
                proof {
                    assert forall|v: Self| v.well_formed() implies !occurs_at(
                        data@,
                        pos as int,
                        #[trigger] v.encoding(),
                    ) by {
                        if occurs_at(data@, pos as int, v.encoding()) {
                            assert(v.encoding() == uleb128_bytes(v.line_start as nat) + uleb128_bytes(v.parameter_names@.len()) + uleb128p1_seq(v.parameter_names@) + v.bytecode@);
                            lemma_occurs_prefix(data@, pos as int, uleb128_bytes(v.line_start as nat) + uleb128_bytes(v.parameter_names@.len()) + uleb128p1_seq(v.parameter_names@), v.bytecode@);
                            lemma_occurs_prefix(data@, pos as int, uleb128_bytes(v.line_start as nat) + uleb128_bytes(v.parameter_names@.len()), uleb128p1_seq(v.parameter_names@));
                            lemma_occurs_prefix(data@, pos as int, uleb128_bytes(v.line_start as nat), uleb128_bytes(v.parameter_names@.len()));
                            lemma_pow256_values();
                        }
                    }
                }
                return Err(e);
            },
        };
        let (count, p) = match decode_uleb128(data, p) {
            Ok(r) => r,
            Err(e) => {
                proof {
                    assert forall|v: Self| v.well_formed() implies !occurs_at(
                        data@,
                        pos as int,
                        #[trigger] v.encoding(),
                    ) by {
                        if occurs_at(data@, pos as int, v.encoding()) {
                            assert(v.encoding() == uleb128_bytes(v.line_start as nat) + uleb128_bytes(v.parameter_names@.len()) + uleb128p1_seq(v.parameter_names@) + v.bytecode@);
                            lemma_occurs_prefix(data@, pos as int, uleb128_bytes(v.line_start as nat) + uleb128_bytes(v.parameter_names@.len()) + uleb128p1_seq(v.parameter_names@), v.bytecode@);
                            lemma_occurs_prefix(data@, pos as int, uleb128_bytes(v.line_start as nat) + uleb128_bytes(v.parameter_names@.len()), uleb128p1_seq(v.parameter_names@));
                            lemma_occurs_prefix(data@, pos as int, uleb128_bytes(v.line_start as nat), uleb128_bytes(v.parameter_names@.len()));
                            lemma_pow256_values();
                            lemma_uleb128_prefix_free(data@, pos as int, line_start, v.line_start);
                        }
                    }
                }
                return Err(e);
            },
        };
        let (parameter_names, p) = match decode_uleb128p1_list(data, p, count as usize) {
            Ok(r) => r,
            Err(e) => {
                proof {
                    assert forall|v: Self| v.well_formed() implies !occurs_at(
                        data@,
                        pos as int,
                        #[trigger] v.encoding(),
                    ) by {
                        if occurs_at(data@, pos as int, v.encoding()) {
                            assert(v.encoding() == uleb128_bytes(v.line_start as nat) + uleb128_bytes(v.parameter_names@.len()) + uleb128p1_seq(v.parameter_names@) + v.bytecode@);
                            lemma_occurs_prefix(data@, pos as int, uleb128_bytes(v.line_start as nat) + uleb128_bytes(v.parameter_names@.len()) + uleb128p1_seq(v.parameter_names@), v.bytecode@);
                            lemma_occurs_prefix(data@, pos as int, uleb128_bytes(v.line_start as nat) + uleb128_bytes(v.parameter_names@.len()), uleb128p1_seq(v.parameter_names@));
                            lemma_occurs_prefix(data@, pos as int, uleb128_bytes(v.line_start as nat), uleb128_bytes(v.parameter_names@.len()));
                            lemma_pow256_values();
                            lemma_uleb128_prefix_free(data@, pos as int, line_start, v.line_start);
                            lemma_uleb128_prefix_free(data@, pos + (uleb128_bytes(v.line_start as nat)).len(), count, v.parameter_names@.len() as u32);
                        }
                    }
                }
                return Err(e);
            },
        };
        let (bytecode, p) = match decode_zero_terminated(data, p) {
            Ok(r) => r,
            Err(e) => {
                proof {
                    assert forall|v: Self| v.well_formed() implies !occurs_at(
                        data@,
                        pos as int,
                        #[trigger] v.encoding(),
                    ) by {
                        if occurs_at(data@, pos as int, v.encoding()) {
                            assert(v.encoding() == uleb128_bytes(v.line_start as nat) + uleb128_bytes(v.parameter_names@.len()) + uleb128p1_seq(v.parameter_names@) + v.bytecode@);
                            lemma_occurs_prefix(data@, pos as int, uleb128_bytes(v.line_start as nat) + uleb128_bytes(v.parameter_names@.len()) + uleb128p1_seq(v.parameter_names@), v.bytecode@);
                            lemma_occurs_prefix(data@, pos as int, uleb128_bytes(v.line_start as nat) + uleb128_bytes(v.parameter_names@.len()), uleb128p1_seq(v.parameter_names@));
                            lemma_occurs_prefix(data@, pos as int, uleb128_bytes(v.line_start as nat), uleb128_bytes(v.parameter_names@.len()));
                            lemma_pow256_values();
                            lemma_uleb128_prefix_free(data@, pos as int, line_start, v.line_start);
                            lemma_uleb128_prefix_free(data@, pos + (uleb128_bytes(v.line_start as nat)).len(), count, v.parameter_names@.len() as u32);
                            lemma_uleb128p1_seq_prefix_free(data@, pos + (uleb128_bytes(v.line_start as nat) + uleb128_bytes(v.parameter_names@.len())).len(), parameter_names@, v.parameter_names@, parameter_names@.len() as int);
                            assert(parameter_names@.take(parameter_names@.len() as int) =~= parameter_names@);
                            assert(v.parameter_names@.take(v.parameter_names@.len() as int) =~= v.parameter_names@);
                        }
                    }
                }
                return Err(e);
            },
        };
        proof {
            let a = uleb128_bytes(line_start as nat);
            let b = uleb128_bytes(count as nat);
            let c = uleb128p1_seq(parameter_names@);
            lemma_occurs_concat(data@, pos as int, a, b);
            lemma_occurs_concat(data@, pos as int, a + b, c);
            lemma_occurs_concat(data@, pos as int, a + b + c, bytecode@);
        }
        Ok((DebugInfoItem { line_start, parameter_names, bytecode }, p))
    }

    fn serialize(&self, out: &mut Vec<u8>) {
        encode_uleb128(out, self.line_start);
        encode_uleb128(out, self.parameter_names.len() as u32);
        encode_uleb128p1_list(&self.parameter_names, out);
        encode_bytes(out, self.bytecode.as_slice());
        assert(out@ =~= old(out)@ + self.encoding());
    }

    fn size(&self) -> (r: usize) {
        size_uleb128(self.line_start) + size_uleb128(self.parameter_names.len() as u32)
            + size_uleb128p1_list(&self.parameter_names) + self.bytecode.len()
    }
}

/// The fields and methods a class defines, each list sorted and delta-encoded by index.
#[derive(Debug, PartialEq, Eq)]
pub struct ClassDataItem {
    pub static_fields: Vec<EncodedField>,
    pub instance_fields: Vec<EncodedField>,
    pub direct_methods: Vec<EncodedMethod>,
    pub virtual_methods: Vec<EncodedMethod>,
}

impl DexStruct for ClassDataItem {
    open spec fn encoding(&self) -> Seq<u8> {
        uleb128_bytes(self.static_fields@.len()) + uleb128_bytes(self.instance_fields@.len())
            + uleb128_bytes(self.direct_methods@.len()) + uleb128_bytes(
            self.virtual_methods@.len(),
        ) + encode_seq(self.static_fields@) + encode_seq(self.instance_fields@) + encode_seq(
            self.direct_methods@,
        ) + encode_seq(self.virtual_methods@)
    }

    open spec fn well_formed(&self) -> bool {
        &&& self.static_fields@.len() <= u32::MAX
        &&& self.instance_fields@.len() <= u32::MAX
        &&& self.direct_methods@.len() <= u32::MAX
        &&& self.virtual_methods@.len() <= u32::MAX
        &&& all_well_formed(self.static_fields@)
        &&& all_well_formed(self.instance_fields@)
        &&& all_well_formed(self.direct_methods@)
        &&& all_well_formed(self.virtual_methods@)
    }

    open spec fn spec_alignment() -> nat {
        1
    }

    fn alignment() -> (r: usize) {
        1
    }

    proof fn lemma_prefix_free(data: Seq<u8>, pos: int, a: Self, b: Self) {
        lemma_occurs_prefix(data, pos, uleb128_bytes(a.static_fields@.len()) + uleb128_bytes(a.instance_fields@.len()) + uleb128_bytes(a.direct_methods@.len()) + uleb128_bytes(a.virtual_methods@.len()) + encode_seq(a.static_fields@) + encode_seq(a.instance_fields@) + encode_seq(a.direct_methods@), encode_seq(a.virtual_methods@));
        lemma_occurs_prefix(data, pos, uleb128_bytes(a.static_fields@.len()) + uleb128_bytes(a.instance_fields@.len()) + uleb128_bytes(a.direct_methods@.len()) + uleb128_bytes(a.virtual_methods@.len()) + encode_seq(a.static_fields@) + encode_seq(a.instance_fields@), encode_seq(a.direct_methods@));
        lemma_occurs_prefix(data, pos, uleb128_bytes(a.static_fields@.len()) + uleb128_bytes(a.instance_fields@.len()) + uleb128_bytes(a.direct_methods@.len()) + uleb128_bytes(a.virtual_methods@.len()) + encode_seq(a.static_fields@), encode_seq(a.instance_fields@));
        lemma_occurs_prefix(data, pos, uleb128_bytes(a.static_fields@.len()) + uleb128_bytes(a.instance_fields@.len()) + uleb128_bytes(a.direct_methods@.len()) + uleb128_bytes(a.virtual_methods@.len()), encode_seq(a.static_fields@));
        lemma_occurs_prefix(data, pos, uleb128_bytes(a.static_fields@.len()) + uleb128_bytes(a.instance_fields@.len()) + uleb128_bytes(a.direct_methods@.len()), uleb128_bytes(a.virtual_methods@.len()));
        lemma_occurs_prefix(data, pos, uleb128_bytes(a.static_fields@.len()) + uleb128_bytes(a.instance_fields@.len()), uleb128_bytes(a.direct_methods@.len()));
        lemma_occurs_prefix(data, pos, uleb128_bytes(a.static_fields@.len()), uleb128_bytes(a.instance_fields@.len()));
        lemma_occurs_prefix(data, pos, uleb128_bytes(b.static_fields@.len()) + uleb128_bytes(b.instance_fields@.len()) + uleb128_bytes(b.direct_methods@.len()) + uleb128_bytes(b.virtual_methods@.len()) + encode_seq(b.static_fields@) + encode_seq(b.instance_fields@) + encode_seq(b.direct_methods@), encode_seq(b.virtual_methods@));
        lemma_occurs_prefix(data, pos, uleb128_bytes(b.static_fields@.len()) + uleb128_bytes(b.instance_fields@.len()) + uleb128_bytes(b.direct_methods@.len()) + uleb128_bytes(b.virtual_methods@.len()) + encode_seq(b.static_fields@) + encode_seq(b.instance_fields@), encode_seq(b.direct_methods@));
        lemma_occurs_prefix(data, pos, uleb128_bytes(b.static_fields@.len()) + uleb128_bytes(b.instance_fields@.len()) + uleb128_bytes(b.direct_methods@.len()) + uleb128_bytes(b.virtual_methods@.len()) + encode_seq(b.static_fields@), encode_seq(b.instance_fields@));
        lemma_occurs_prefix(data, pos, uleb128_bytes(b.static_fields@.len()) + uleb128_bytes(b.instance_fields@.len()) + uleb128_bytes(b.direct_methods@.len()) + uleb128_bytes(b.virtual_methods@.len()), encode_seq(b.static_fields@));
        lemma_occurs_prefix(data, pos, uleb128_bytes(b.static_fields@.len()) + uleb128_bytes(b.instance_fields@.len()) + uleb128_bytes(b.direct_methods@.len()), uleb128_bytes(b.virtual_methods@.len()));
        lemma_occurs_prefix(data, pos, uleb128_bytes(b.static_fields@.len()) + uleb128_bytes(b.instance_fields@.len()), uleb128_bytes(b.direct_methods@.len()));
        lemma_occurs_prefix(data, pos, uleb128_bytes(b.static_fields@.len()), uleb128_bytes(b.instance_fields@.len()));
        lemma_uleb128_prefix_free(data, pos, a.static_fields@.len() as u32, b.static_fields@.len() as u32);
        lemma_uleb128_prefix_free(data, pos + (uleb128_bytes(a.static_fields@.len())).len(), a.instance_fields@.len() as u32, b.instance_fields@.len() as u32);
        lemma_uleb128_prefix_free(data, pos + (uleb128_bytes(a.static_fields@.len()) + uleb128_bytes(a.instance_fields@.len())).len(), a.direct_methods@.len() as u32, b.direct_methods@.len() as u32);
        lemma_uleb128_prefix_free(data, pos + (uleb128_bytes(a.static_fields@.len()) + uleb128_bytes(a.instance_fields@.len()) + uleb128_bytes(a.direct_methods@.len())).len(), a.virtual_methods@.len() as u32, b.virtual_methods@.len() as u32);
        lemma_encode_seq_equal(data, pos + (uleb128_bytes(a.static_fields@.len()) + uleb128_bytes(a.instance_fields@.len()) + uleb128_bytes(a.direct_methods@.len()) + uleb128_bytes(a.virtual_methods@.len())).len(), a.static_fields@, b.static_fields@);
        lemma_encode_seq_equal(data, pos + (uleb128_bytes(a.static_fields@.len()) + uleb128_bytes(a.instance_fields@.len()) + uleb128_bytes(a.direct_methods@.len()) + uleb128_bytes(a.virtual_methods@.len()) + encode_seq(a.static_fields@)).len(), a.instance_fields@, b.instance_fields@);
        lemma_encode_seq_equal(data, pos + (uleb128_bytes(a.static_fields@.len()) + uleb128_bytes(a.instance_fields@.len()) + uleb128_bytes(a.direct_methods@.len()) + uleb128_bytes(a.virtual_methods@.len()) + encode_seq(a.static_fields@) + encode_seq(a.instance_fields@)).len(), a.direct_methods@, b.direct_methods@);
        lemma_encode_seq_equal(data, pos + (uleb128_bytes(a.static_fields@.len()) + uleb128_bytes(a.instance_fields@.len()) + uleb128_bytes(a.direct_methods@.len()) + uleb128_bytes(a.virtual_methods@.len()) + encode_seq(a.static_fields@) + encode_seq(a.instance_fields@) + encode_seq(a.direct_methods@)).len(), a.virtual_methods@, b.virtual_methods@);
    }

    #[verifier::rlimit(100)]
    fn deserialize(data: &[u8], pos: usize) -> (res: Result<(Self, usize), DeserializeError>) {
        let (n1, p) = match decode_uleb128(data, pos) {
            Ok(r) => r,
            Err(e) => {
                proof {
                    assert forall|v: Self| v.well_formed() implies !occurs_at(
                        data@,
                        pos as int,
                        #[trigger] v.encoding(),
                    ) by {
                        if occurs_at(data@, pos as int, v.encoding()) {
                            assert(v.encoding() == uleb128_bytes(v.static_fields@.len()) + uleb128_bytes(v.instance_fields@.len()) + uleb128_bytes(v.direct_methods@.len()) + uleb128_bytes(v.virtual_methods@.len()) + encode_seq(v.static_fields@) + encode_seq(v.instance_fields@) + encode_seq(v.direct_methods@) + encode_seq(v.virtual_methods@));
                            lemma_occurs_prefix(data@, pos as int, uleb128_bytes(v.static_fields@.len()) + uleb128_bytes(v.instance_fields@.len()) + uleb128_bytes(v.direct_methods@.len()) + uleb128_bytes(v.virtual_methods@.len()) + encode_seq(v.static_fields@) + encode_seq(v.instance_fields@) + encode_seq(v.direct_methods@), encode_seq(v.virtual_methods@));
                            lemma_occurs_prefix(data@, pos as int, uleb128_bytes(v.static_fields@.len()) + uleb128_bytes(v.instance_fields@.len()) + uleb128_bytes(v.direct_methods@.len()) + uleb128_bytes(v.virtual_methods@.len()) + encode_seq(v.static_fields@) + encode_seq(v.instance_fields@), encode_seq(v.direct_methods@));
                            lemma_occurs_prefix(data@, pos as int, uleb128_bytes(v.static_fields@.len()) + uleb128_bytes(v.instance_fields@.len()) + uleb128_bytes(v.direct_methods@.len()) + uleb128_bytes(v.virtual_methods@.len()) + encode_seq(v.static_fields@), encode_seq(v.instance_fields@));
                            lemma_occurs_prefix(data@, pos as int, uleb128_bytes(v.static_fields@.len()) + uleb128_bytes(v.instance_fields@.len()) + uleb128_bytes(v.direct_methods@.len()) + uleb128_bytes(v.virtual_methods@.len()), encode_seq(v.static_fields@));
                            lemma_occurs_prefix(data@, pos as int, uleb128_bytes(v.static_fields@.len()) + uleb128_bytes(v.instance_fields@.len()) + uleb128_bytes(v.direct_methods@.len()), uleb128_bytes(v.virtual_methods@.len()));
                            lemma_occurs_prefix(data@, pos as int, uleb128_bytes(v.static_fields@.len()) + uleb128_bytes(v.instance_fields@.len()), uleb128_bytes(v.direct_methods@.len()));
                            lemma_occurs_prefix(data@, pos as int, uleb128_bytes(v.static_fields@.len()), uleb128_bytes(v.instance_fields@.len()));
                            lemma_pow256_values();
                        }
                    }
                }
                return Err(e);
            },
        };
        let (n2, p) = match decode_uleb128(data, p) {
            Ok(r) => r,
            Err(e) => {
                proof {
                    assert forall|v: Self| v.well_formed() implies !occurs_at(
                        data@,
                        pos as int,
                        #[trigger] v.encoding(),
                    ) by {
                        if occurs_at(data@, pos as int, v.encoding()) {
                            assert(v.encoding() == uleb128_bytes(v.static_fields@.len()) + uleb128_bytes(v.instance_fields@.len()) + uleb128_bytes(v.direct_methods@.len()) + uleb128_bytes(v.virtual_methods@.len()) + encode_seq(v.static_fields@) + encode_seq(v.instance_fields@) + encode_seq(v.direct_methods@) + encode_seq(v.virtual_methods@));
                            lemma_occurs_prefix(data@, pos as int, uleb128_bytes(v.static_fields@.len()) + uleb128_bytes(v.instance_fields@.len()) + uleb128_bytes(v.direct_methods@.len()) + uleb128_bytes(v.virtual_methods@.len()) + encode_seq(v.static_fields@) + encode_seq(v.instance_fields@) + encode_seq(v.direct_methods@), encode_seq(v.virtual_methods@));
                            lemma_occurs_prefix(data@, pos as int, uleb128_bytes(v.static_fields@.len()) + uleb128_bytes(v.instance_fields@.len()) + uleb128_bytes(v.direct_methods@.len()) + uleb128_bytes(v.virtual_methods@.len()) + encode_seq(v.static_fields@) + encode_seq(v.instance_fields@), encode_seq(v.direct_methods@));
                            lemma_occurs_prefix(data@, pos as int, uleb128_bytes(v.static_fields@.len()) + uleb128_bytes(v.instance_fields@.len()) + uleb128_bytes(v.direct_methods@.len()) + uleb128_bytes(v.virtual_methods@.len()) + encode_seq(v.static_fields@), encode_seq(v.instance_fields@));
                            lemma_occurs_prefix(data@, pos as int, uleb128_bytes(v.static_fields@.len()) + uleb128_bytes(v.instance_fields@.len()) + uleb128_bytes(v.direct_methods@.len()) + uleb128_bytes(v.virtual_methods@.len()), encode_seq(v.static_fields@));
                            lemma_occurs_prefix(data@, pos as int, uleb128_bytes(v.static_fields@.len()) + uleb128_bytes(v.instance_fields@.len()) + uleb128_bytes(v.direct_methods@.len()), uleb128_bytes(v.virtual_methods@.len()));
                            lemma_occurs_prefix(data@, pos as int, uleb128_bytes(v.static_fields@.len()) + uleb128_bytes(v.instance_fields@.len()), uleb128_bytes(v.direct_methods@.len()));
                            lemma_occurs_prefix(data@, pos as int, uleb128_bytes(v.static_fields@.len()), uleb128_bytes(v.instance_fields@.len()));
                            lemma_pow256_values();
                            lemma_uleb128_prefix_free(data@, pos as int, n1, v.static_fields@.len() as u32);
                        }
                    }
                }
                return Err(e);
            },
        };
        let (n3, p) = match decode_uleb128(data, p) {
            Ok(r) => r,
            Err(e) => {
                proof {
                    assert forall|v: Self| v.well_formed() implies !occurs_at(
                        data@,
                        pos as int,
                        #[trigger] v.encoding(),
                    ) by {
                        if occurs_at(data@, pos as int, v.encoding()) {
                            assert(v.encoding() == uleb128_bytes(v.static_fields@.len()) + uleb128_bytes(v.instance_fields@.len()) + uleb128_bytes(v.direct_methods@.len()) + uleb128_bytes(v.virtual_methods@.len()) + encode_seq(v.static_fields@) + encode_seq(v.instance_fields@) + encode_seq(v.direct_methods@) + encode_seq(v.virtual_methods@));
                            lemma_occurs_prefix(data@, pos as int, uleb128_bytes(v.static_fields@.len()) + uleb128_bytes(v.instance_fields@.len()) + uleb128_bytes(v.direct_methods@.len()) + uleb128_bytes(v.virtual_methods@.len()) + encode_seq(v.static_fields@) + encode_seq(v.instance_fields@) + encode_seq(v.direct_methods@), encode_seq(v.virtual_methods@));
                            lemma_occurs_prefix(data@, pos as int, uleb128_bytes(v.static_fields@.len()) + uleb128_bytes(v.instance_fields@.len()) + uleb128_bytes(v.direct_methods@.len()) + uleb128_bytes(v.virtual_methods@.len()) + encode_seq(v.static_fields@) + encode_seq(v.instance_fields@), encode_seq(v.direct_methods@));
                            lemma_occurs_prefix(data@, pos as int, uleb128_bytes(v.static_fields@.len()) + uleb128_bytes(v.instance_fields@.len()) + uleb128_bytes(v.direct_methods@.len()) + uleb128_bytes(v.virtual_methods@.len()) + encode_seq(v.static_fields@), encode_seq(v.instance_fields@));
                            lemma_occurs_prefix(data@, pos as int, uleb128_bytes(v.static_fields@.len()) + uleb128_bytes(v.instance_fields@.len()) + uleb128_bytes(v.direct_methods@.len()) + uleb128_bytes(v.virtual_methods@.len()), encode_seq(v.static_fields@));
                            lemma_occurs_prefix(data@, pos as int, uleb128_bytes(v.static_fields@.len()) + uleb128_bytes(v.instance_fields@.len()) + uleb128_bytes(v.direct_methods@.len()), uleb128_bytes(v.virtual_methods@.len()));
                            lemma_occurs_prefix(data@, pos as int, uleb128_bytes(v.static_fields@.len()) + uleb128_bytes(v.instance_fields@.len()), uleb128_bytes(v.direct_methods@.len()));
                            lemma_occurs_prefix(data@, pos as int, uleb128_bytes(v.static_fields@.len()), uleb128_bytes(v.instance_fields@.len()));
                            lemma_pow256_values();
                            lemma_uleb128_prefix_free(data@, pos as int, n1, v.static_fields@.len() as u32);
                            lemma_uleb128_prefix_free(data@, pos + (uleb128_bytes(v.static_fields@.len())).len(), n2, v.instance_fields@.len() as u32);
                        }
                    }
                }
                return Err(e);
            },
        };
        let (n4, p) = match decode_uleb128(data, p) {
            Ok(r) => r,
            Err(e) => {
                proof {
                    assert forall|v: Self| v.well_formed() implies !occurs_at(
                        data@,
                        pos as int,
                        #[trigger] v.encoding(),
                    ) by {
                        if occurs_at(data@, pos as int, v.encoding()) {
                            assert(v.encoding() == uleb128_bytes(v.static_fields@.len()) + uleb128_bytes(v.instance_fields@.len()) + uleb128_bytes(v.direct_methods@.len()) + uleb128_bytes(v.virtual_methods@.len()) + encode_seq(v.static_fields@) + encode_seq(v.instance_fields@) + encode_seq(v.direct_methods@) + encode_seq(v.virtual_methods@));
                            lemma_occurs_prefix(data@, pos as int, uleb128_bytes(v.static_fields@.len()) + uleb128_bytes(v.instance_fields@.len()) + uleb128_bytes(v.direct_methods@.len()) + uleb128_bytes(v.virtual_methods@.len()) + encode_seq(v.static_fields@) + encode_seq(v.instance_fields@) + encode_seq(v.direct_methods@), encode_seq(v.virtual_methods@));
                            lemma_occurs_prefix(data@, pos as int, uleb128_bytes(v.static_fields@.len()) + uleb128_bytes(v.instance_fields@.len()) + uleb128_bytes(v.direct_methods@.len()) + uleb128_bytes(v.virtual_methods@.len()) + encode_seq(v.static_fields@) + encode_seq(v.instance_fields@), encode_seq(v.direct_methods@));
                            lemma_occurs_prefix(data@, pos as int, uleb128_bytes(v.static_fields@.len()) + uleb128_bytes(v.instance_fields@.len()) + uleb128_bytes(v.direct_methods@.len()) + uleb128_bytes(v.virtual_methods@.len()) + encode_seq(v.static_fields@), encode_seq(v.instance_fields@));
                            lemma_occurs_prefix(data@, pos as int, uleb128_bytes(v.static_fields@.len()) + uleb128_bytes(v.instance_fields@.len()) + uleb128_bytes(v.direct_methods@.len()) + uleb128_bytes(v.virtual_methods@.len()), encode_seq(v.static_fields@));
                            lemma_occurs_prefix(data@, pos as int, uleb128_bytes(v.static_fields@.len()) + uleb128_bytes(v.instance_fields@.len()) + uleb128_bytes(v.direct_methods@.len()), uleb128_bytes(v.virtual_methods@.len()));
                            lemma_occurs_prefix(data@, pos as int, uleb128_bytes(v.static_fields@.len()) + uleb128_bytes(v.instance_fields@.len()), uleb128_bytes(v.direct_methods@.len()));
                            lemma_occurs_prefix(data@, pos as int, uleb128_bytes(v.static_fields@.len()), uleb128_bytes(v.instance_fields@.len()));
                            lemma_pow256_values();
                            lemma_uleb128_prefix_free(data@, pos as int, n1, v.static_fields@.len() as u32);
                            lemma_uleb128_prefix_free(data@, pos + (uleb128_bytes(v.static_fields@.len())).len(), n2, v.instance_fields@.len() as u32);
                            lemma_uleb128_prefix_free(data@, pos + (uleb128_bytes(v.static_fields@.len()) + uleb128_bytes(v.instance_fields@.len())).len(), n3, v.direct_methods@.len() as u32);
                        }
                    }
                }
                return Err(e);
            },
        };
        let (static_fields, p) = match deserialize_items::<EncodedField>(data, p, n1 as usize) {
            Ok(r) => r,
            Err(e) => {
                proof {
                    assert forall|v: Self| v.well_formed() implies !occurs_at(
                        data@,
                        pos as int,
                        #[trigger] v.encoding(),
                    ) by {
                        if occurs_at(data@, pos as int, v.encoding()) {
                            assert(v.encoding() == uleb128_bytes(v.static_fields@.len()) + uleb128_bytes(v.instance_fields@.len()) + uleb128_bytes(v.direct_methods@.len()) + uleb128_bytes(v.virtual_methods@.len()) + encode_seq(v.static_fields@) + encode_seq(v.instance_fields@) + encode_seq(v.direct_methods@) + encode_seq(v.virtual_methods@));
                            lemma_occurs_prefix(data@, pos as int, uleb128_bytes(v.static_fields@.len()) + uleb128_bytes(v.instance_fields@.len()) + uleb128_bytes(v.direct_methods@.len()) + uleb128_bytes(v.virtual_methods@.len()) + encode_seq(v.static_fields@) + encode_seq(v.instance_fields@) + encode_seq(v.direct_methods@), encode_seq(v.virtual_methods@));
                            lemma_occurs_prefix(data@, pos as int, uleb128_bytes(v.static_fields@.len()) + uleb128_bytes(v.instance_fields@.len()) + uleb128_bytes(v.direct_methods@.len()) + uleb128_bytes(v.virtual_methods@.len()) + encode_seq(v.static_fields@) + encode_seq(v.instance_fields@), encode_seq(v.direct_methods@));
                            lemma_occurs_prefix(data@, pos as int, uleb128_bytes(v.static_fields@.len()) + uleb128_bytes(v.instance_fields@.len()) + uleb128_bytes(v.direct_methods@.len()) + uleb128_bytes(v.virtual_methods@.len()) + encode_seq(v.static_fields@), encode_seq(v.instance_fields@));
                            lemma_occurs_prefix(data@, pos as int, uleb128_bytes(v.static_fields@.len()) + uleb128_bytes(v.instance_fields@.len()) + uleb128_bytes(v.direct_methods@.len()) + uleb128_bytes(v.virtual_methods@.len()), encode_seq(v.static_fields@));
                            lemma_occurs_prefix(data@, pos as int, uleb128_bytes(v.static_fields@.len()) + uleb128_bytes(v.instance_fields@.len()) + uleb128_bytes(v.direct_methods@.len()), uleb128_bytes(v.virtual_methods@.len()));
                            lemma_occurs_prefix(data@, pos as int, uleb128_bytes(v.static_fields@.len()) + uleb128_bytes(v.instance_fields@.len()), uleb128_bytes(v.direct_methods@.len()));
                            lemma_occurs_prefix(data@, pos as int, uleb128_bytes(v.static_fields@.len()), uleb128_bytes(v.instance_fields@.len()));
                            lemma_pow256_values();
                            lemma_uleb128_prefix_free(data@, pos as int, n1, v.static_fields@.len() as u32);
                            lemma_uleb128_prefix_free(data@, pos + (uleb128_bytes(v.static_fields@.len())).len(), n2, v.instance_fields@.len() as u32);
                            lemma_uleb128_prefix_free(data@, pos + (uleb128_bytes(v.static_fields@.len()) + uleb128_bytes(v.instance_fields@.len())).len(), n3, v.direct_methods@.len() as u32);
                            lemma_uleb128_prefix_free(data@, pos + (uleb128_bytes(v.static_fields@.len()) + uleb128_bytes(v.instance_fields@.len()) + uleb128_bytes(v.direct_methods@.len())).len(), n4, v.virtual_methods@.len() as u32);
                        }
                    }
                }
                return Err(e);
            },
        };
        let (instance_fields, p) = match deserialize_items::<EncodedField>(data, p, n2 as usize) {
            Ok(r) => r,
            Err(e) => {
                proof {
                    assert forall|v: Self| v.well_formed() implies !occurs_at(
                        data@,
                        pos as int,
                        #[trigger] v.encoding(),
                    ) by {
                        if occurs_at(data@, pos as int, v.encoding()) {
                            assert(v.encoding() == uleb128_bytes(v.static_fields@.len()) + uleb128_bytes(v.instance_fields@.len()) + uleb128_bytes(v.direct_methods@.len()) + uleb128_bytes(v.virtual_methods@.len()) + encode_seq(v.static_fields@) + encode_seq(v.instance_fields@) + encode_seq(v.direct_methods@) + encode_seq(v.virtual_methods@));
                            lemma_occurs_prefix(data@, pos as int, uleb128_bytes(v.static_fields@.len()) + uleb128_bytes(v.instance_fields@.len()) + uleb128_bytes(v.direct_methods@.len()) + uleb128_bytes(v.virtual_methods@.len()) + encode_seq(v.static_fields@) + encode_seq(v.instance_fields@) + encode_seq(v.direct_methods@), encode_seq(v.virtual_methods@));
                            lemma_occurs_prefix(data@, pos as int, uleb128_bytes(v.static_fields@.len()) + uleb128_bytes(v.instance_fields@.len()) + uleb128_bytes(v.direct_methods@.len()) + uleb128_bytes(v.virtual_methods@.len()) + encode_seq(v.static_fields@) + encode_seq(v.instance_fields@), encode_seq(v.direct_methods@));
                            lemma_occurs_prefix(data@, pos as int, uleb128_bytes(v.static_fields@.len()) + uleb128_bytes(v.instance_fields@.len()) + uleb128_bytes(v.direct_methods@.len()) + uleb128_bytes(v.virtual_methods@.len()) + encode_seq(v.static_fields@), encode_seq(v.instance_fields@));
                            lemma_occurs_prefix(data@, pos as int, uleb128_bytes(v.static_fields@.len()) + uleb128_bytes(v.instance_fields@.len()) + uleb128_bytes(v.direct_methods@.len()) + uleb128_bytes(v.virtual_methods@.len()), encode_seq(v.static_fields@));
                            lemma_occurs_prefix(data@, pos as int, uleb128_bytes(v.static_fields@.len()) + uleb128_bytes(v.instance_fields@.len()) + uleb128_bytes(v.direct_methods@.len()), uleb128_bytes(v.virtual_methods@.len()));
                            lemma_occurs_prefix(data@, pos as int, uleb128_bytes(v.static_fields@.len()) + uleb128_bytes(v.instance_fields@.len()), uleb128_bytes(v.direct_methods@.len()));
                            lemma_occurs_prefix(data@, pos as int, uleb128_bytes(v.static_fields@.len()), uleb128_bytes(v.instance_fields@.len()));
                            lemma_pow256_values();
                            lemma_uleb128_prefix_free(data@, pos as int, n1, v.static_fields@.len() as u32);
                            lemma_uleb128_prefix_free(data@, pos + (uleb128_bytes(v.static_fields@.len())).len(), n2, v.instance_fields@.len() as u32);
                            lemma_uleb128_prefix_free(data@, pos + (uleb128_bytes(v.static_fields@.len()) + uleb128_bytes(v.instance_fields@.len())).len(), n3, v.direct_methods@.len() as u32);
                            lemma_uleb128_prefix_free(data@, pos + (uleb128_bytes(v.static_fields@.len()) + uleb128_bytes(v.instance_fields@.len()) + uleb128_bytes(v.direct_methods@.len())).len(), n4, v.virtual_methods@.len() as u32);
                            lemma_encode_seq_equal(data@, pos + (uleb128_bytes(v.static_fields@.len()) + uleb128_bytes(v.instance_fields@.len()) + uleb128_bytes(v.direct_methods@.len()) + uleb128_bytes(v.virtual_methods@.len())).len(), static_fields@, v.static_fields@);
                        }
                    }
                }
                return Err(e);
            },
        };
        let (direct_methods, p) = match deserialize_items::<EncodedMethod>(data, p, n3 as usize) {
            Ok(r) => r,
            Err(e) => {
                proof {
                    assert forall|v: Self| v.well_formed() implies !occurs_at(
                        data@,
                        pos as int,
                        #[trigger] v.encoding(),
                    ) by {
                        if occurs_at(data@, pos as int, v.encoding()) {
                            assert(v.encoding() == uleb128_bytes(v.static_fields@.len()) + uleb128_bytes(v.instance_fields@.len()) + uleb128_bytes(v.direct_methods@.len()) + uleb128_bytes(v.virtual_methods@.len()) + encode_seq(v.static_fields@) + encode_seq(v.instance_fields@) + encode_seq(v.direct_methods@) + encode_seq(v.virtual_methods@));
                            lemma_occurs_prefix(data@, pos as int, uleb128_bytes(v.static_fields@.len()) + uleb128_bytes(v.instance_fields@.len()) + uleb128_bytes(v.direct_methods@.len()) + uleb128_bytes(v.virtual_methods@.len()) + encode_seq(v.static_fields@) + encode_seq(v.instance_fields@) + encode_seq(v.direct_methods@), encode_seq(v.virtual_methods@));
                            lemma_occurs_prefix(data@, pos as int, uleb128_bytes(v.static_fields@.len()) + uleb128_bytes(v.instance_fields@.len()) + uleb128_bytes(v.direct_methods@.len()) + uleb128_bytes(v.virtual_methods@.len()) + encode_seq(v.static_fields@) + encode_seq(v.instance_fields@), encode_seq(v.direct_methods@));
                            lemma_occurs_prefix(data@, pos as int, uleb128_bytes(v.static_fields@.len()) + uleb128_bytes(v.instance_fields@.len()) + uleb128_bytes(v.direct_methods@.len()) + uleb128_bytes(v.virtual_methods@.len()) + encode_seq(v.static_fields@), encode_seq(v.instance_fields@));
                            lemma_occurs_prefix(data@, pos as int, uleb128_bytes(v.static_fields@.len()) + uleb128_bytes(v.instance_fields@.len()) + uleb128_bytes(v.direct_methods@.len()) + uleb128_bytes(v.virtual_methods@.len()), encode_seq(v.static_fields@));
                            lemma_occurs_prefix(data@, pos as int, uleb128_bytes(v.static_fields@.len()) + uleb128_bytes(v.instance_fields@.len()) + uleb128_bytes(v.direct_methods@.len()), uleb128_bytes(v.virtual_methods@.len()));
                            lemma_occurs_prefix(data@, pos as int, uleb128_bytes(v.static_fields@.len()) + uleb128_bytes(v.instance_fields@.len()), uleb128_bytes(v.direct_methods@.len()));
                            lemma_occurs_prefix(data@, pos as int, uleb128_bytes(v.static_fields@.len()), uleb128_bytes(v.instance_fields@.len()));
                            lemma_pow256_values();
                            lemma_uleb128_prefix_free(data@, pos as int, n1, v.static_fields@.len() as u32);
                            lemma_uleb128_prefix_free(data@, pos + (uleb128_bytes(v.static_fields@.len())).len(), n2, v.instance_fields@.len() as u32);
                            lemma_uleb128_prefix_free(data@, pos + (uleb128_bytes(v.static_fields@.len()) + uleb128_bytes(v.instance_fields@.len())).len(), n3, v.direct_methods@.len() as u32);
                            lemma_uleb128_prefix_free(data@, pos + (uleb128_bytes(v.static_fields@.len()) + uleb128_bytes(v.instance_fields@.len()) + uleb128_bytes(v.direct_methods@.len())).len(), n4, v.virtual_methods@.len() as u32);
                            lemma_encode_seq_equal(data@, pos + (uleb128_bytes(v.static_fields@.len()) + uleb128_bytes(v.instance_fields@.len()) + uleb128_bytes(v.direct_methods@.len()) + uleb128_bytes(v.virtual_methods@.len())).len(), static_fields@, v.static_fields@);
                            lemma_encode_seq_equal(data@, pos + (uleb128_bytes(v.static_fields@.len()) + uleb128_bytes(v.instance_fields@.len()) + uleb128_bytes(v.direct_methods@.len()) + uleb128_bytes(v.virtual_methods@.len()) + encode_seq(v.static_fields@)).len(), instance_fields@, v.instance_fields@);
                        }
                    }
                }
                return Err(e);
            },
        };
        let (virtual_methods, p) = match deserialize_items::<EncodedMethod>(data, p, n4 as usize) {
            Ok(r) => r,
            Err(e) => {
                proof {
                    assert forall|v: Self| v.well_formed() implies !occurs_at(
                        data@,
                        pos as int,
                        #[trigger] v.encoding(),
                    ) by {
                        if occurs_at(data@, pos as int, v.encoding()) {
                            assert(v.encoding() == uleb128_bytes(v.static_fields@.len()) + uleb128_bytes(v.instance_fields@.len()) + uleb128_bytes(v.direct_methods@.len()) + uleb128_bytes(v.virtual_methods@.len()) + encode_seq(v.static_fields@) + encode_seq(v.instance_fields@) + encode_seq(v.direct_methods@) + encode_seq(v.virtual_methods@));
                            lemma_occurs_prefix(data@, pos as int, uleb128_bytes(v.static_fields@.len()) + uleb128_bytes(v.instance_fields@.len()) + uleb128_bytes(v.direct_methods@.len()) + uleb128_bytes(v.virtual_methods@.len()) + encode_seq(v.static_fields@) + encode_seq(v.instance_fields@) + encode_seq(v.direct_methods@), encode_seq(v.virtual_methods@));
                            lemma_occurs_prefix(data@, pos as int, uleb128_bytes(v.static_fields@.len()) + uleb128_bytes(v.instance_fields@.len()) + uleb128_bytes(v.direct_methods@.len()) + uleb128_bytes(v.virtual_methods@.len()) + encode_seq(v.static_fields@) + encode_seq(v.instance_fields@), encode_seq(v.direct_methods@));
                            lemma_occurs_prefix(data@, pos as int, uleb128_bytes(v.static_fields@.len()) + uleb128_bytes(v.instance_fields@.len()) + uleb128_bytes(v.direct_methods@.len()) + uleb128_bytes(v.virtual_methods@.len()) + encode_seq(v.static_fields@), encode_seq(v.instance_fields@));
                            lemma_occurs_prefix(data@, pos as int, uleb128_bytes(v.static_fields@.len()) + uleb128_bytes(v.instance_fields@.len()) + uleb128_bytes(v.direct_methods@.len()) + uleb128_bytes(v.virtual_methods@.len()), encode_seq(v.static_fields@));
                            lemma_occurs_prefix(data@, pos as int, uleb128_bytes(v.static_fields@.len()) + uleb128_bytes(v.instance_fields@.len()) + uleb128_bytes(v.direct_methods@.len()), uleb128_bytes(v.virtual_methods@.len()));
                            lemma_occurs_prefix(data@, pos as int, uleb128_bytes(v.static_fields@.len()) + uleb128_bytes(v.instance_fields@.len()), uleb128_bytes(v.direct_methods@.len()));
                            lemma_occurs_prefix(data@, pos as int, uleb128_bytes(v.static_fields@.len()), uleb128_bytes(v.instance_fields@.len()));
                            lemma_pow256_values();
                            lemma_uleb128_prefix_free(data@, pos as int, n1, v.static_fields@.len() as u32);
                            lemma_uleb128_prefix_free(data@, pos + (uleb128_bytes(v.static_fields@.len())).len(), n2, v.instance_fields@.len() as u32);
                            lemma_uleb128_prefix_free(data@, pos + (uleb128_bytes(v.static_fields@.len()) + uleb128_bytes(v.instance_fields@.len())).len(), n3, v.direct_methods@.len() as u32);
                            lemma_uleb128_prefix_free(data@, pos + (uleb128_bytes(v.static_fields@.len()) + uleb128_bytes(v.instance_fields@.len()) + uleb128_bytes(v.direct_methods@.len())).len(), n4, v.virtual_methods@.len() as u32);
                            lemma_encode_seq_equal(data@, pos + (uleb128_bytes(v.static_fields@.len()) + uleb128_bytes(v.instance_fields@.len()) + uleb128_bytes(v.direct_methods@.len()) + uleb128_bytes(v.virtual_methods@.len())).len(), static_fields@, v.static_fields@);
                            lemma_encode_seq_equal(data@, pos + (uleb128_bytes(v.static_fields@.len()) + uleb128_bytes(v.instance_fields@.len()) + uleb128_bytes(v.direct_methods@.len()) + uleb128_bytes(v.virtual_methods@.len()) + encode_seq(v.static_fields@)).len(), instance_fields@, v.instance_fields@);
                            lemma_encode_seq_equal(data@, pos + (uleb128_bytes(v.static_fields@.len()) + uleb128_bytes(v.instance_fields@.len()) + uleb128_bytes(v.direct_methods@.len()) + uleb128_bytes(v.virtual_methods@.len()) + encode_seq(v.static_fields@) + encode_seq(v.instance_fields@)).len(), direct_methods@, v.direct_methods@);
                        }
                    }
                }
                return Err(e);
            },
        };
        let v = ClassDataItem { static_fields, instance_fields, direct_methods, virtual_methods };
        proof {
            let a = uleb128_bytes(n1 as nat);
            let b = uleb128_bytes(n2 as nat);
            let c = uleb128_bytes(n3 as nat);
            let d = uleb128_bytes(n4 as nat);
            let e = encode_seq(v.static_fields@);
            let f = encode_seq(v.instance_fields@);
            let g = encode_seq(v.direct_methods@);
            let h = encode_seq(v.virtual_methods@);
            lemma_occurs_concat(data@, pos as int, a, b);
            lemma_occurs_concat(data@, pos as int, a + b, c);
            lemma_occurs_concat(data@, pos as int, a + b + c, d);
            lemma_occurs_concat(data@, pos as int, a + b + c + d, e);
            lemma_occurs_concat(data@, pos as int, a + b + c + d + e, f);
            lemma_occurs_concat(data@, pos as int, a + b + c + d + e + f, g);
            lemma_occurs_concat(data@, pos as int, a + b + c + d + e + f + g, h);
        }
        Ok((v, p))
    }

    fn serialize(&self, out: &mut Vec<u8>) {
        encode_uleb128(out, self.static_fields.len() as u32);
        encode_uleb128(out, self.instance_fields.len() as u32);
        encode_uleb128(out, self.direct_methods.len() as u32);
        encode_uleb128(out, self.virtual_methods.len() as u32);
        let ghost counts = out@;
        assert(counts =~= old(out)@ + (uleb128_bytes(self.static_fields@.len()) + uleb128_bytes(
            self.instance_fields@.len(),
        ) + uleb128_bytes(self.direct_methods@.len()) + uleb128_bytes(
            self.virtual_methods@.len(),
        )));
        serialize_items(&self.static_fields, out);
        serialize_items(&self.instance_fields, out);
        serialize_items(&self.direct_methods, out);
        serialize_items(&self.virtual_methods, out);
        assert(out@ =~= old(out)@ + self.encoding());
    }

    fn size(&self) -> (r: usize) {
        size_uleb128(self.static_fields.len() as u32) + size_uleb128(
            self.instance_fields.len() as u32,
        ) + size_uleb128(self.direct_methods.len() as u32) + size_uleb128(
            self.virtual_methods.len() as u32,
        ) + size_items(&self.static_fields) + size_items(&self.instance_fields) + size_items(
            &self.direct_methods,
        ) + size_items(&self.virtual_methods)
    }
}

/// A method body: register counts, debug info offset, the instruction code units, and
/// the try ranges with their handlers.
#[derive(Debug, PartialEq, Eq)]
pub struct CodeItem {
    pub registers_size: u16,
    pub ins_size: u16,
    pub outs_size: u16,
    pub debug_info_off: u32,
    pub insns: Vec<u16>,
    pub tries: Vec<TryItem>,
    pub handlers: Option<EncodedCatchHandlerList>,
}

impl CodeItem {
    /// Two zero bytes realign the try items when the instruction count is odd.
    pub open spec fn padding(&self) -> Seq<u8> {
        if self.tries@.len() != 0 && self.insns@.len() % 2 == 1 {
            le_bytes(0, 2)
        } else {
            seq![]
        }
    }

    pub open spec fn handlers_encoding(&self) -> Seq<u8> {
        match self.handlers {
            Some(h) => h.encoding(),
            None => seq![],
        }
    }
}

impl DexStruct for CodeItem {
    open spec fn encoding(&self) -> Seq<u8> {
        le_bytes(self.registers_size as int, 2) + le_bytes(self.ins_size as int, 2) + le_bytes(
            self.outs_size as int,
            2,
        ) + le_bytes(self.tries@.len() as int, 2) + le_bytes(self.debug_info_off as int, 4)
            + le_bytes(self.insns@.len() as int, 4) + u16_seq(self.insns@) + self.padding()
            + encode_seq(self.tries@) + self.handlers_encoding()
    }

    open spec fn well_formed(&self) -> bool {
        &&& self.tries@.len() <= u16::MAX
        &&& self.insns@.len() <= u32::MAX
        &&& (self.handlers is Some <==> self.tries@.len() != 0)
        &&& self.handlers matches Some(h) ==> h.well_formed()
    }

    open spec fn spec_alignment() -> nat {
        4
    }

    fn alignment() -> (r: usize) {
        4
    }

    proof fn lemma_prefix_free(data: Seq<u8>, pos: int, a: Self, b: Self) {
        lemma_occurs_prefix(data, pos, le_bytes(a.registers_size as int, 2) + le_bytes(a.ins_size as int, 2) + le_bytes(a.outs_size as int, 2) + le_bytes(a.tries@.len() as int, 2) + le_bytes(a.debug_info_off as int, 4) + le_bytes(a.insns@.len() as int, 4) + u16_seq(a.insns@) + a.padding() + encode_seq(a.tries@), a.handlers_encoding());
        lemma_occurs_prefix(data, pos, le_bytes(a.registers_size as int, 2) + le_bytes(a.ins_size as int, 2) + le_bytes(a.outs_size as int, 2) + le_bytes(a.tries@.len() as int, 2) + le_bytes(a.debug_info_off as int, 4) + le_bytes(a.insns@.len() as int, 4) + u16_seq(a.insns@) + a.padding(), encode_seq(a.tries@));
        lemma_occurs_prefix(data, pos, le_bytes(a.registers_size as int, 2) + le_bytes(a.ins_size as int, 2) + le_bytes(a.outs_size as int, 2) + le_bytes(a.tries@.len() as int, 2) + le_bytes(a.debug_info_off as int, 4) + le_bytes(a.insns@.len() as int, 4) + u16_seq(a.insns@), a.padding());
        lemma_occurs_prefix(data, pos, le_bytes(a.registers_size as int, 2) + le_bytes(a.ins_size as int, 2) + le_bytes(a.outs_size as int, 2) + le_bytes(a.tries@.len() as int, 2) + le_bytes(a.debug_info_off as int, 4) + le_bytes(a.insns@.len() as int, 4), u16_seq(a.insns@));
        lemma_occurs_prefix(data, pos, le_bytes(a.registers_size as int, 2) + le_bytes(a.ins_size as int, 2) + le_bytes(a.outs_size as int, 2) + le_bytes(a.tries@.len() as int, 2) + le_bytes(a.debug_info_off as int, 4), le_bytes(a.insns@.len() as int, 4));
        lemma_occurs_prefix(data, pos, le_bytes(a.registers_size as int, 2) + le_bytes(a.ins_size as int, 2) + le_bytes(a.outs_size as int, 2) + le_bytes(a.tries@.len() as int, 2), le_bytes(a.debug_info_off as int, 4));
        lemma_occurs_prefix(data, pos, le_bytes(a.registers_size as int, 2) + le_bytes(a.ins_size as int, 2) + le_bytes(a.outs_size as int, 2), le_bytes(a.tries@.len() as int, 2));
        lemma_occurs_prefix(data, pos, le_bytes(a.registers_size as int, 2) + le_bytes(a.ins_size as int, 2), le_bytes(a.outs_size as int, 2));
        lemma_occurs_prefix(data, pos, le_bytes(a.registers_size as int, 2), le_bytes(a.ins_size as int, 2));
        lemma_occurs_prefix(data, pos, le_bytes(b.registers_size as int, 2) + le_bytes(b.ins_size as int, 2) + le_bytes(b.outs_size as int, 2) + le_bytes(b.tries@.len() as int, 2) + le_bytes(b.debug_info_off as int, 4) + le_bytes(b.insns@.len() as int, 4) + u16_seq(b.insns@) + b.padding() + encode_seq(b.tries@), b.handlers_encoding());
        lemma_occurs_prefix(data, pos, le_bytes(b.registers_size as int, 2) + le_bytes(b.ins_size as int, 2) + le_bytes(b.outs_size as int, 2) + le_bytes(b.tries@.len() as int, 2) + le_bytes(b.debug_info_off as int, 4) + le_bytes(b.insns@.len() as int, 4) + u16_seq(b.insns@) + b.padding(), encode_seq(b.tries@));
        lemma_occurs_prefix(data, pos, le_bytes(b.registers_size as int, 2) + le_bytes(b.ins_size as int, 2) + le_bytes(b.outs_size as int, 2) + le_bytes(b.tries@.len() as int, 2) + le_bytes(b.debug_info_off as int, 4) + le_bytes(b.insns@.len() as int, 4) + u16_seq(b.insns@), b.padding());
        lemma_occurs_prefix(data, pos, le_bytes(b.registers_size as int, 2) + le_bytes(b.ins_size as int, 2) + le_bytes(b.outs_size as int, 2) + le_bytes(b.tries@.len() as int, 2) + le_bytes(b.debug_info_off as int, 4) + le_bytes(b.insns@.len() as int, 4), u16_seq(b.insns@));
        lemma_occurs_prefix(data, pos, le_bytes(b.registers_size as int, 2) + le_bytes(b.ins_size as int, 2) + le_bytes(b.outs_size as int, 2) + le_bytes(b.tries@.len() as int, 2) + le_bytes(b.debug_info_off as int, 4), le_bytes(b.insns@.len() as int, 4));
        lemma_occurs_prefix(data, pos, le_bytes(b.registers_size as int, 2) + le_bytes(b.ins_size as int, 2) + le_bytes(b.outs_size as int, 2) + le_bytes(b.tries@.len() as int, 2), le_bytes(b.debug_info_off as int, 4));
        lemma_occurs_prefix(data, pos, le_bytes(b.registers_size as int, 2) + le_bytes(b.ins_size as int, 2) + le_bytes(b.outs_size as int, 2), le_bytes(b.tries@.len() as int, 2));
        lemma_occurs_prefix(data, pos, le_bytes(b.registers_size as int, 2) + le_bytes(b.ins_size as int, 2), le_bytes(b.outs_size as int, 2));
        lemma_occurs_prefix(data, pos, le_bytes(b.registers_size as int, 2), le_bytes(b.ins_size as int, 2));
        lemma_pow256_values();
        lemma_le_bytes_injective(a.tries@.len() as int, b.tries@.len() as int, 2);
        lemma_le_bytes_injective(a.insns@.len() as int, b.insns@.len() as int, 4);
        lemma_u16_seq_len(a.insns@);
        lemma_u16_seq_len(b.insns@);
        assert(u16_seq(a.insns@) == u16_seq(b.insns@));
        lemma_encode_seq_equal(data, pos + (le_bytes(a.registers_size as int, 2) + le_bytes(a.ins_size as int, 2) + le_bytes(a.outs_size as int, 2) + le_bytes(a.tries@.len() as int, 2) + le_bytes(a.debug_info_off as int, 4) + le_bytes(a.insns@.len() as int, 4) + u16_seq(a.insns@) + a.padding()).len(), a.tries@, b.tries@);
        if a.handlers is Some {
            EncodedCatchHandlerList::lemma_prefix_free(
                data,
                pos + (le_bytes(a.registers_size as int, 2) + le_bytes(a.ins_size as int, 2) + le_bytes(a.outs_size as int, 2) + le_bytes(a.tries@.len() as int, 2) + le_bytes(a.debug_info_off as int, 4) + le_bytes(a.insns@.len() as int, 4) + u16_seq(a.insns@) + a.padding() + encode_seq(a.tries@)).len(),
                a.handlers->Some_0,
                b.handlers->Some_0,
            );
        }
    }

    #[verifier::rlimit(100)]
    fn deserialize(data: &[u8], pos: usize) -> (res: Result<(Self, usize), DeserializeError>) {
        let (registers_size, p) = match decode_u16(data, pos) {
            Ok(r) => r,
            Err(e) => {
                proof {
                    assert forall|v: Self| v.well_formed() implies !occurs_at(
                        data@,
                        pos as int,
                        #[trigger] v.encoding(),
                    ) by {
                        if occurs_at(data@, pos as int, v.encoding()) {
                            assert(v.encoding() == le_bytes(v.registers_size as int, 2) + le_bytes(v.ins_size as int, 2) + le_bytes(v.outs_size as int, 2) + le_bytes(v.tries@.len() as int, 2) + le_bytes(v.debug_info_off as int, 4) + le_bytes(v.insns@.len() as int, 4) + u16_seq(v.insns@) + v.padding() + encode_seq(v.tries@) + v.handlers_encoding());
                            lemma_occurs_prefix(data@, pos as int, le_bytes(v.registers_size as int, 2) + le_bytes(v.ins_size as int, 2) + le_bytes(v.outs_size as int, 2) + le_bytes(v.tries@.len() as int, 2) + le_bytes(v.debug_info_off as int, 4) + le_bytes(v.insns@.len() as int, 4) + u16_seq(v.insns@) + v.padding() + encode_seq(v.tries@), v.handlers_encoding());
                            lemma_occurs_prefix(data@, pos as int, le_bytes(v.registers_size as int, 2) + le_bytes(v.ins_size as int, 2) + le_bytes(v.outs_size as int, 2) + le_bytes(v.tries@.len() as int, 2) + le_bytes(v.debug_info_off as int, 4) + le_bytes(v.insns@.len() as int, 4) + u16_seq(v.insns@) + v.padding(), encode_seq(v.tries@));
                            lemma_occurs_prefix(data@, pos as int, le_bytes(v.registers_size as int, 2) + le_bytes(v.ins_size as int, 2) + le_bytes(v.outs_size as int, 2) + le_bytes(v.tries@.len() as int, 2) + le_bytes(v.debug_info_off as int, 4) + le_bytes(v.insns@.len() as int, 4) + u16_seq(v.insns@), v.padding());
                            lemma_occurs_prefix(data@, pos as int, le_bytes(v.registers_size as int, 2) + le_bytes(v.ins_size as int, 2) + le_bytes(v.outs_size as int, 2) + le_bytes(v.tries@.len() as int, 2) + le_bytes(v.debug_info_off as int, 4) + le_bytes(v.insns@.len() as int, 4), u16_seq(v.insns@));
                            lemma_occurs_prefix(data@, pos as int, le_bytes(v.registers_size as int, 2) + le_bytes(v.ins_size as int, 2) + le_bytes(v.outs_size as int, 2) + le_bytes(v.tries@.len() as int, 2) + le_bytes(v.debug_info_off as int, 4), le_bytes(v.insns@.len() as int, 4));
                            lemma_occurs_prefix(data@, pos as int, le_bytes(v.registers_size as int, 2) + le_bytes(v.ins_size as int, 2) + le_bytes(v.outs_size as int, 2) + le_bytes(v.tries@.len() as int, 2), le_bytes(v.debug_info_off as int, 4));
                            lemma_occurs_prefix(data@, pos as int, le_bytes(v.registers_size as int, 2) + le_bytes(v.ins_size as int, 2) + le_bytes(v.outs_size as int, 2), le_bytes(v.tries@.len() as int, 2));
                            lemma_occurs_prefix(data@, pos as int, le_bytes(v.registers_size as int, 2) + le_bytes(v.ins_size as int, 2), le_bytes(v.outs_size as int, 2));
                            lemma_occurs_prefix(data@, pos as int, le_bytes(v.registers_size as int, 2), le_bytes(v.ins_size as int, 2));
                            lemma_pow256_values();
                        }
                    }
                }
                return Err(e);
            },
        };
        let (ins_size, p) = match decode_u16(data, p) {
            Ok(r) => r,
            Err(e) => {
                proof {
                    assert forall|v: Self| v.well_formed() implies !occurs_at(
                        data@,
                        pos as int,
                        #[trigger] v.encoding(),
                    ) by {
                        if occurs_at(data@, pos as int, v.encoding()) {
                            assert(v.encoding() == le_bytes(v.registers_size as int, 2) + le_bytes(v.ins_size as int, 2) + le_bytes(v.outs_size as int, 2) + le_bytes(v.tries@.len() as int, 2) + le_bytes(v.debug_info_off as int, 4) + le_bytes(v.insns@.len() as int, 4) + u16_seq(v.insns@) + v.padding() + encode_seq(v.tries@) + v.handlers_encoding());
                            lemma_occurs_prefix(data@, pos as int, le_bytes(v.registers_size as int, 2) + le_bytes(v.ins_size as int, 2) + le_bytes(v.outs_size as int, 2) + le_bytes(v.tries@.len() as int, 2) + le_bytes(v.debug_info_off as int, 4) + le_bytes(v.insns@.len() as int, 4) + u16_seq(v.insns@) + v.padding() + encode_seq(v.tries@), v.handlers_encoding());
                            lemma_occurs_prefix(data@, pos as int, le_bytes(v.registers_size as int, 2) + le_bytes(v.ins_size as int, 2) + le_bytes(v.outs_size as int, 2) + le_bytes(v.tries@.len() as int, 2) + le_bytes(v.debug_info_off as int, 4) + le_bytes(v.insns@.len() as int, 4) + u16_seq(v.insns@) + v.padding(), encode_seq(v.tries@));
                            lemma_occurs_prefix(data@, pos as int, le_bytes(v.registers_size as int, 2) + le_bytes(v.ins_size as int, 2) + le_bytes(v.outs_size as int, 2) + le_bytes(v.tries@.len() as int, 2) + le_bytes(v.debug_info_off as int, 4) + le_bytes(v.insns@.len() as int, 4) + u16_seq(v.insns@), v.padding());
                            lemma_occurs_prefix(data@, pos as int, le_bytes(v.registers_size as int, 2) + le_bytes(v.ins_size as int, 2) + le_bytes(v.outs_size as int, 2) + le_bytes(v.tries@.len() as int, 2) + le_bytes(v.debug_info_off as int, 4) + le_bytes(v.insns@.len() as int, 4), u16_seq(v.insns@));
                            lemma_occurs_prefix(data@, pos as int, le_bytes(v.registers_size as int, 2) + le_bytes(v.ins_size as int, 2) + le_bytes(v.outs_size as int, 2) + le_bytes(v.tries@.len() as int, 2) + le_bytes(v.debug_info_off as int, 4), le_bytes(v.insns@.len() as int, 4));
                            lemma_occurs_prefix(data@, pos as int, le_bytes(v.registers_size as int, 2) + le_bytes(v.ins_size as int, 2) + le_bytes(v.outs_size as int, 2) + le_bytes(v.tries@.len() as int, 2), le_bytes(v.debug_info_off as int, 4));
                            lemma_occurs_prefix(data@, pos as int, le_bytes(v.registers_size as int, 2) + le_bytes(v.ins_size as int, 2) + le_bytes(v.outs_size as int, 2), le_bytes(v.tries@.len() as int, 2));
                            lemma_occurs_prefix(data@, pos as int, le_bytes(v.registers_size as int, 2) + le_bytes(v.ins_size as int, 2), le_bytes(v.outs_size as int, 2));
                            lemma_occurs_prefix(data@, pos as int, le_bytes(v.registers_size as int, 2), le_bytes(v.ins_size as int, 2));
                            lemma_pow256_values();
                        }
                    }
                }
                return Err(e);
            },
        };
        let (outs_size, p) = match decode_u16(data, p) {
            Ok(r) => r,
            Err(e) => {
                proof {
                    assert forall|v: Self| v.well_formed() implies !occurs_at(
                        data@,
                        pos as int,
                        #[trigger] v.encoding(),
                    ) by {
                        if occurs_at(data@, pos as int, v.encoding()) {
                            assert(v.encoding() == le_bytes(v.registers_size as int, 2) + le_bytes(v.ins_size as int, 2) + le_bytes(v.outs_size as int, 2) + le_bytes(v.tries@.len() as int, 2) + le_bytes(v.debug_info_off as int, 4) + le_bytes(v.insns@.len() as int, 4) + u16_seq(v.insns@) + v.padding() + encode_seq(v.tries@) + v.handlers_encoding());
                            lemma_occurs_prefix(data@, pos as int, le_bytes(v.registers_size as int, 2) + le_bytes(v.ins_size as int, 2) + le_bytes(v.outs_size as int, 2) + le_bytes(v.tries@.len() as int, 2) + le_bytes(v.debug_info_off as int, 4) + le_bytes(v.insns@.len() as int, 4) + u16_seq(v.insns@) + v.padding() + encode_seq(v.tries@), v.handlers_encoding());
                            lemma_occurs_prefix(data@, pos as int, le_bytes(v.registers_size as int, 2) + le_bytes(v.ins_size as int, 2) + le_bytes(v.outs_size as int, 2) + le_bytes(v.tries@.len() as int, 2) + le_bytes(v.debug_info_off as int, 4) + le_bytes(v.insns@.len() as int, 4) + u16_seq(v.insns@) + v.padding(), encode_seq(v.tries@));
                            lemma_occurs_prefix(data@, pos as int, le_bytes(v.registers_size as int, 2) + le_bytes(v.ins_size as int, 2) + le_bytes(v.outs_size as int, 2) + le_bytes(v.tries@.len() as int, 2) + le_bytes(v.debug_info_off as int, 4) + le_bytes(v.insns@.len() as int, 4) + u16_seq(v.insns@), v.padding());
                            lemma_occurs_prefix(data@, pos as int, le_bytes(v.registers_size as int, 2) + le_bytes(v.ins_size as int, 2) + le_bytes(v.outs_size as int, 2) + le_bytes(v.tries@.len() as int, 2) + le_bytes(v.debug_info_off as int, 4) + le_bytes(v.insns@.len() as int, 4), u16_seq(v.insns@));
                            lemma_occurs_prefix(data@, pos as int, le_bytes(v.registers_size as int, 2) + le_bytes(v.ins_size as int, 2) + le_bytes(v.outs_size as int, 2) + le_bytes(v.tries@.len() as int, 2) + le_bytes(v.debug_info_off as int, 4), le_bytes(v.insns@.len() as int, 4));
                            lemma_occurs_prefix(data@, pos as int, le_bytes(v.registers_size as int, 2) + le_bytes(v.ins_size as int, 2) + le_bytes(v.outs_size as int, 2) + le_bytes(v.tries@.len() as int, 2), le_bytes(v.debug_info_off as int, 4));
                            lemma_occurs_prefix(data@, pos as int, le_bytes(v.registers_size as int, 2) + le_bytes(v.ins_size as int, 2) + le_bytes(v.outs_size as int, 2), le_bytes(v.tries@.len() as int, 2));
                            lemma_occurs_prefix(data@, pos as int, le_bytes(v.registers_size as int, 2) + le_bytes(v.ins_size as int, 2), le_bytes(v.outs_size as int, 2));
                            lemma_occurs_prefix(data@, pos as int, le_bytes(v.registers_size as int, 2), le_bytes(v.ins_size as int, 2));
                            lemma_pow256_values();
                        }
                    }
                }
                return Err(e);
            },
        };
        let (tries_size, p) = match decode_u16(data, p) {
            Ok(r) => r,
            Err(e) => {
                proof {
                    assert forall|v: Self| v.well_formed() implies !occurs_at(
                        data@,
                        pos as int,
                        #[trigger] v.encoding(),
                    ) by {
                        if occurs_at(data@, pos as int, v.encoding()) {
                            assert(v.encoding() == le_bytes(v.registers_size as int, 2) + le_bytes(v.ins_size as int, 2) + le_bytes(v.outs_size as int, 2) + le_bytes(v.tries@.len() as int, 2) + le_bytes(v.debug_info_off as int, 4) + le_bytes(v.insns@.len() as int, 4) + u16_seq(v.insns@) + v.padding() + encode_seq(v.tries@) + v.handlers_encoding());
                            lemma_occurs_prefix(data@, pos as int, le_bytes(v.registers_size as int, 2) + le_bytes(v.ins_size as int, 2) + le_bytes(v.outs_size as int, 2) + le_bytes(v.tries@.len() as int, 2) + le_bytes(v.debug_info_off as int, 4) + le_bytes(v.insns@.len() as int, 4) + u16_seq(v.insns@) + v.padding() + encode_seq(v.tries@), v.handlers_encoding());
                            lemma_occurs_prefix(data@, pos as int, le_bytes(v.registers_size as int, 2) + le_bytes(v.ins_size as int, 2) + le_bytes(v.outs_size as int, 2) + le_bytes(v.tries@.len() as int, 2) + le_bytes(v.debug_info_off as int, 4) + le_bytes(v.insns@.len() as int, 4) + u16_seq(v.insns@) + v.padding(), encode_seq(v.tries@));
                            lemma_occurs_prefix(data@, pos as int, le_bytes(v.registers_size as int, 2) + le_bytes(v.ins_size as int, 2) + le_bytes(v.outs_size as int, 2) + le_bytes(v.tries@.len() as int, 2) + le_bytes(v.debug_info_off as int, 4) + le_bytes(v.insns@.len() as int, 4) + u16_seq(v.insns@), v.padding());
                            lemma_occurs_prefix(data@, pos as int, le_bytes(v.registers_size as int, 2) + le_bytes(v.ins_size as int, 2) + le_bytes(v.outs_size as int, 2) + le_bytes(v.tries@.len() as int, 2) + le_bytes(v.debug_info_off as int, 4) + le_bytes(v.insns@.len() as int, 4), u16_seq(v.insns@));
                            lemma_occurs_prefix(data@, pos as int, le_bytes(v.registers_size as int, 2) + le_bytes(v.ins_size as int, 2) + le_bytes(v.outs_size as int, 2) + le_bytes(v.tries@.len() as int, 2) + le_bytes(v.debug_info_off as int, 4), le_bytes(v.insns@.len() as int, 4));
                            lemma_occurs_prefix(data@, pos as int, le_bytes(v.registers_size as int, 2) + le_bytes(v.ins_size as int, 2) + le_bytes(v.outs_size as int, 2) + le_bytes(v.tries@.len() as int, 2), le_bytes(v.debug_info_off as int, 4));
                            lemma_occurs_prefix(data@, pos as int, le_bytes(v.registers_size as int, 2) + le_bytes(v.ins_size as int, 2) + le_bytes(v.outs_size as int, 2), le_bytes(v.tries@.len() as int, 2));
                            lemma_occurs_prefix(data@, pos as int, le_bytes(v.registers_size as int, 2) + le_bytes(v.ins_size as int, 2), le_bytes(v.outs_size as int, 2));
                            lemma_occurs_prefix(data@, pos as int, le_bytes(v.registers_size as int, 2), le_bytes(v.ins_size as int, 2));
                            lemma_pow256_values();
                        }
                    }
                }
                return Err(e);
            },
        };
        let (debug_info_off, p) = match decode_u32(data, p) {
            Ok(r) => r,
            Err(e) => {
                proof {
                    assert forall|v: Self| v.well_formed() implies !occurs_at(
                        data@,
                        pos as int,
                        #[trigger] v.encoding(),
                    ) by {
                        if occurs_at(data@, pos as int, v.encoding()) {
                            assert(v.encoding() == le_bytes(v.registers_size as int, 2) + le_bytes(v.ins_size as int, 2) + le_bytes(v.outs_size as int, 2) + le_bytes(v.tries@.len() as int, 2) + le_bytes(v.debug_info_off as int, 4) + le_bytes(v.insns@.len() as int, 4) + u16_seq(v.insns@) + v.padding() + encode_seq(v.tries@) + v.handlers_encoding());
                            lemma_occurs_prefix(data@, pos as int, le_bytes(v.registers_size as int, 2) + le_bytes(v.ins_size as int, 2) + le_bytes(v.outs_size as int, 2) + le_bytes(v.tries@.len() as int, 2) + le_bytes(v.debug_info_off as int, 4) + le_bytes(v.insns@.len() as int, 4) + u16_seq(v.insns@) + v.padding() + encode_seq(v.tries@), v.handlers_encoding());
                            lemma_occurs_prefix(data@, pos as int, le_bytes(v.registers_size as int, 2) + le_bytes(v.ins_size as int, 2) + le_bytes(v.outs_size as int, 2) + le_bytes(v.tries@.len() as int, 2) + le_bytes(v.debug_info_off as int, 4) + le_bytes(v.insns@.len() as int, 4) + u16_seq(v.insns@) + v.padding(), encode_seq(v.tries@));
                            lemma_occurs_prefix(data@, pos as int, le_bytes(v.registers_size as int, 2) + le_bytes(v.ins_size as int, 2) + le_bytes(v.outs_size as int, 2) + le_bytes(v.tries@.len() as int, 2) + le_bytes(v.debug_info_off as int, 4) + le_bytes(v.insns@.len() as int, 4) + u16_seq(v.insns@), v.padding());
                            lemma_occurs_prefix(data@, pos as int, le_bytes(v.registers_size as int, 2) + le_bytes(v.ins_size as int, 2) + le_bytes(v.outs_size as int, 2) + le_bytes(v.tries@.len() as int, 2) + le_bytes(v.debug_info_off as int, 4) + le_bytes(v.insns@.len() as int, 4), u16_seq(v.insns@));
                            lemma_occurs_prefix(data@, pos as int, le_bytes(v.registers_size as int, 2) + le_bytes(v.ins_size as int, 2) + le_bytes(v.outs_size as int, 2) + le_bytes(v.tries@.len() as int, 2) + le_bytes(v.debug_info_off as int, 4), le_bytes(v.insns@.len() as int, 4));
                            lemma_occurs_prefix(data@, pos as int, le_bytes(v.registers_size as int, 2) + le_bytes(v.ins_size as int, 2) + le_bytes(v.outs_size as int, 2) + le_bytes(v.tries@.len() as int, 2), le_bytes(v.debug_info_off as int, 4));
                            lemma_occurs_prefix(data@, pos as int, le_bytes(v.registers_size as int, 2) + le_bytes(v.ins_size as int, 2) + le_bytes(v.outs_size as int, 2), le_bytes(v.tries@.len() as int, 2));
                            lemma_occurs_prefix(data@, pos as int, le_bytes(v.registers_size as int, 2) + le_bytes(v.ins_size as int, 2), le_bytes(v.outs_size as int, 2));
                            lemma_occurs_prefix(data@, pos as int, le_bytes(v.registers_size as int, 2), le_bytes(v.ins_size as int, 2));
                            lemma_pow256_values();
                            lemma_le_bytes_injective(tries_size as int, v.tries@.len() as int, 2);
                        }
                    }
                }
                return Err(e);
            },
        };
        let (insns_size, p) = match decode_u32(data, p) {
            Ok(r) => r,
            Err(e) => {
                proof {
                    assert forall|v: Self| v.well_formed() implies !occurs_at(
                        data@,
                        pos as int,
                        #[trigger] v.encoding(),
                    ) by {
                        if occurs_at(data@, pos as int, v.encoding()) {
                            assert(v.encoding() == le_bytes(v.registers_size as int, 2) + le_bytes(v.ins_size as int, 2) + le_bytes(v.outs_size as int, 2) + le_bytes(v.tries@.len() as int, 2) + le_bytes(v.debug_info_off as int, 4) + le_bytes(v.insns@.len() as int, 4) + u16_seq(v.insns@) + v.padding() + encode_seq(v.tries@) + v.handlers_encoding());
                            lemma_occurs_prefix(data@, pos as int, le_bytes(v.registers_size as int, 2) + le_bytes(v.ins_size as int, 2) + le_bytes(v.outs_size as int, 2) + le_bytes(v.tries@.len() as int, 2) + le_bytes(v.debug_info_off as int, 4) + le_bytes(v.insns@.len() as int, 4) + u16_seq(v.insns@) + v.padding() + encode_seq(v.tries@), v.handlers_encoding());
                            lemma_occurs_prefix(data@, pos as int, le_bytes(v.registers_size as int, 2) + le_bytes(v.ins_size as int, 2) + le_bytes(v.outs_size as int, 2) + le_bytes(v.tries@.len() as int, 2) + le_bytes(v.debug_info_off as int, 4) + le_bytes(v.insns@.len() as int, 4) + u16_seq(v.insns@) + v.padding(), encode_seq(v.tries@));
                            lemma_occurs_prefix(data@, pos as int, le_bytes(v.registers_size as int, 2) + le_bytes(v.ins_size as int, 2) + le_bytes(v.outs_size as int, 2) + le_bytes(v.tries@.len() as int, 2) + le_bytes(v.debug_info_off as int, 4) + le_bytes(v.insns@.len() as int, 4) + u16_seq(v.insns@), v.padding());
                            lemma_occurs_prefix(data@, pos as int, le_bytes(v.registers_size as int, 2) + le_bytes(v.ins_size as int, 2) + le_bytes(v.outs_size as int, 2) + le_bytes(v.tries@.len() as int, 2) + le_bytes(v.debug_info_off as int, 4) + le_bytes(v.insns@.len() as int, 4), u16_seq(v.insns@));
                            lemma_occurs_prefix(data@, pos as int, le_bytes(v.registers_size as int, 2) + le_bytes(v.ins_size as int, 2) + le_bytes(v.outs_size as int, 2) + le_bytes(v.tries@.len() as int, 2) + le_bytes(v.debug_info_off as int, 4), le_bytes(v.insns@.len() as int, 4));
                            lemma_occurs_prefix(data@, pos as int, le_bytes(v.registers_size as int, 2) + le_bytes(v.ins_size as int, 2) + le_bytes(v.outs_size as int, 2) + le_bytes(v.tries@.len() as int, 2), le_bytes(v.debug_info_off as int, 4));
                            lemma_occurs_prefix(data@, pos as int, le_bytes(v.registers_size as int, 2) + le_bytes(v.ins_size as int, 2) + le_bytes(v.outs_size as int, 2), le_bytes(v.tries@.len() as int, 2));
                            lemma_occurs_prefix(data@, pos as int, le_bytes(v.registers_size as int, 2) + le_bytes(v.ins_size as int, 2), le_bytes(v.outs_size as int, 2));
                            lemma_occurs_prefix(data@, pos as int, le_bytes(v.registers_size as int, 2), le_bytes(v.ins_size as int, 2));
                            lemma_pow256_values();
                            lemma_le_bytes_injective(tries_size as int, v.tries@.len() as int, 2);
                        }
                    }
                }
                return Err(e);
            },
        };
        let (insns, p) = match decode_u16_list(data, p, insns_size as usize) {
            Ok(r) => r,
            Err(e) => {
                proof {
                    assert forall|v: Self| v.well_formed() implies !occurs_at(
                        data@,
                        pos as int,
                        #[trigger] v.encoding(),
                    ) by {
                        if occurs_at(data@, pos as int, v.encoding()) {
                            assert(v.encoding() == le_bytes(v.registers_size as int, 2) + le_bytes(v.ins_size as int, 2) + le_bytes(v.outs_size as int, 2) + le_bytes(v.tries@.len() as int, 2) + le_bytes(v.debug_info_off as int, 4) + le_bytes(v.insns@.len() as int, 4) + u16_seq(v.insns@) + v.padding() + encode_seq(v.tries@) + v.handlers_encoding());
                            lemma_occurs_prefix(data@, pos as int, le_bytes(v.registers_size as int, 2) + le_bytes(v.ins_size as int, 2) + le_bytes(v.outs_size as int, 2) + le_bytes(v.tries@.len() as int, 2) + le_bytes(v.debug_info_off as int, 4) + le_bytes(v.insns@.len() as int, 4) + u16_seq(v.insns@) + v.padding() + encode_seq(v.tries@), v.handlers_encoding());
                            lemma_occurs_prefix(data@, pos as int, le_bytes(v.registers_size as int, 2) + le_bytes(v.ins_size as int, 2) + le_bytes(v.outs_size as int, 2) + le_bytes(v.tries@.len() as int, 2) + le_bytes(v.debug_info_off as int, 4) + le_bytes(v.insns@.len() as int, 4) + u16_seq(v.insns@) + v.padding(), encode_seq(v.tries@));
                            lemma_occurs_prefix(data@, pos as int, le_bytes(v.registers_size as int, 2) + le_bytes(v.ins_size as int, 2) + le_bytes(v.outs_size as int, 2) + le_bytes(v.tries@.len() as int, 2) + le_bytes(v.debug_info_off as int, 4) + le_bytes(v.insns@.len() as int, 4) + u16_seq(v.insns@), v.padding());
                            lemma_occurs_prefix(data@, pos as int, le_bytes(v.registers_size as int, 2) + le_bytes(v.ins_size as int, 2) + le_bytes(v.outs_size as int, 2) + le_bytes(v.tries@.len() as int, 2) + le_bytes(v.debug_info_off as int, 4) + le_bytes(v.insns@.len() as int, 4), u16_seq(v.insns@));
                            lemma_occurs_prefix(data@, pos as int, le_bytes(v.registers_size as int, 2) + le_bytes(v.ins_size as int, 2) + le_bytes(v.outs_size as int, 2) + le_bytes(v.tries@.len() as int, 2) + le_bytes(v.debug_info_off as int, 4), le_bytes(v.insns@.len() as int, 4));
                            lemma_occurs_prefix(data@, pos as int, le_bytes(v.registers_size as int, 2) + le_bytes(v.ins_size as int, 2) + le_bytes(v.outs_size as int, 2) + le_bytes(v.tries@.len() as int, 2), le_bytes(v.debug_info_off as int, 4));
                            lemma_occurs_prefix(data@, pos as int, le_bytes(v.registers_size as int, 2) + le_bytes(v.ins_size as int, 2) + le_bytes(v.outs_size as int, 2), le_bytes(v.tries@.len() as int, 2));
                            lemma_occurs_prefix(data@, pos as int, le_bytes(v.registers_size as int, 2) + le_bytes(v.ins_size as int, 2), le_bytes(v.outs_size as int, 2));
                            lemma_occurs_prefix(data@, pos as int, le_bytes(v.registers_size as int, 2), le_bytes(v.ins_size as int, 2));
                            lemma_pow256_values();
                            lemma_le_bytes_injective(tries_size as int, v.tries@.len() as int, 2);
                            lemma_le_bytes_injective(insns_size as int, v.insns@.len() as int, 4);
                            lemma_u16_seq_len(v.insns@);
                        }
                    }
                }
                return Err(e);
            },
        };
        let ghost head = le_bytes(registers_size as int, 2) + le_bytes(ins_size as int, 2)
            + le_bytes(outs_size as int, 2) + le_bytes(tries_size as int, 2) + le_bytes(
            debug_info_off as int,
            4,
        ) + le_bytes(insns_size as int, 4) + u16_seq(insns@);
        proof {
            let a = le_bytes(registers_size as int, 2);
            let b = le_bytes(ins_size as int, 2);
            let c = le_bytes(outs_size as int, 2);
            let d = le_bytes(tries_size as int, 2);
            let e = le_bytes(debug_info_off as int, 4);
            let f = le_bytes(insns_size as int, 4);
            lemma_occurs_concat(data@, pos as int, a, b);
            lemma_occurs_concat(data@, pos as int, a + b, c);
            lemma_occurs_concat(data@, pos as int, a + b + c, d);
            lemma_occurs_concat(data@, pos as int, a + b + c + d, e);
            lemma_occurs_concat(data@, pos as int, a + b + c + d + e, f);
            lemma_occurs_concat(data@, pos as int, a + b + c + d + e + f, u16_seq(insns@));
        }
        let mut p = p;
        let ghost pad: Seq<u8> = seq![];
        if tries_size != 0 && insns_size % 2 == 1 {
            let (zero, next) = match decode_u16(data, p) {
                Ok(r) => r,
                Err(e) => {
                    proof {
                        assert forall|v: Self| v.well_formed() implies !occurs_at(
                            data@,
                            pos as int,
                            #[trigger] v.encoding(),
                        ) by {
                            if occurs_at(data@, pos as int, v.encoding()) {
                                assert(v.encoding() == le_bytes(v.registers_size as int, 2) + le_bytes(v.ins_size as int, 2) + le_bytes(v.outs_size as int, 2) + le_bytes(v.tries@.len() as int, 2) + le_bytes(v.debug_info_off as int, 4) + le_bytes(v.insns@.len() as int, 4) + u16_seq(v.insns@) + v.padding() + encode_seq(v.tries@) + v.handlers_encoding());
                                lemma_occurs_prefix(data@, pos as int, le_bytes(v.registers_size as int, 2) + le_bytes(v.ins_size as int, 2) + le_bytes(v.outs_size as int, 2) + le_bytes(v.tries@.len() as int, 2) + le_bytes(v.debug_info_off as int, 4) + le_bytes(v.insns@.len() as int, 4) + u16_seq(v.insns@) + v.padding() + encode_seq(v.tries@), v.handlers_encoding());
                                lemma_occurs_prefix(data@, pos as int, le_bytes(v.registers_size as int, 2) + le_bytes(v.ins_size as int, 2) + le_bytes(v.outs_size as int, 2) + le_bytes(v.tries@.len() as int, 2) + le_bytes(v.debug_info_off as int, 4) + le_bytes(v.insns@.len() as int, 4) + u16_seq(v.insns@) + v.padding(), encode_seq(v.tries@));
                                lemma_occurs_prefix(data@, pos as int, le_bytes(v.registers_size as int, 2) + le_bytes(v.ins_size as int, 2) + le_bytes(v.outs_size as int, 2) + le_bytes(v.tries@.len() as int, 2) + le_bytes(v.debug_info_off as int, 4) + le_bytes(v.insns@.len() as int, 4) + u16_seq(v.insns@), v.padding());
                                lemma_occurs_prefix(data@, pos as int, le_bytes(v.registers_size as int, 2) + le_bytes(v.ins_size as int, 2) + le_bytes(v.outs_size as int, 2) + le_bytes(v.tries@.len() as int, 2) + le_bytes(v.debug_info_off as int, 4) + le_bytes(v.insns@.len() as int, 4), u16_seq(v.insns@));
                                lemma_occurs_prefix(data@, pos as int, le_bytes(v.registers_size as int, 2) + le_bytes(v.ins_size as int, 2) + le_bytes(v.outs_size as int, 2) + le_bytes(v.tries@.len() as int, 2) + le_bytes(v.debug_info_off as int, 4), le_bytes(v.insns@.len() as int, 4));
                                lemma_occurs_prefix(data@, pos as int, le_bytes(v.registers_size as int, 2) + le_bytes(v.ins_size as int, 2) + le_bytes(v.outs_size as int, 2) + le_bytes(v.tries@.len() as int, 2), le_bytes(v.debug_info_off as int, 4));
                                lemma_occurs_prefix(data@, pos as int, le_bytes(v.registers_size as int, 2) + le_bytes(v.ins_size as int, 2) + le_bytes(v.outs_size as int, 2), le_bytes(v.tries@.len() as int, 2));
                                lemma_occurs_prefix(data@, pos as int, le_bytes(v.registers_size as int, 2) + le_bytes(v.ins_size as int, 2), le_bytes(v.outs_size as int, 2));
                                lemma_occurs_prefix(data@, pos as int, le_bytes(v.registers_size as int, 2), le_bytes(v.ins_size as int, 2));
                                lemma_pow256_values();
                                lemma_le_bytes_injective(tries_size as int, v.tries@.len() as int, 2);
                                lemma_le_bytes_injective(insns_size as int, v.insns@.len() as int, 4);
                                lemma_u16_seq_len(insns@);
                                lemma_u16_seq_len(v.insns@);
                            }
                        }
                    }
                    return Err(e);
                },
            };
            if zero != 0 {
                proof {
                    assert forall|v: Self| v.well_formed() implies !occurs_at(
                        data@,
                        pos as int,
                        #[trigger] v.encoding(),
                    ) by {
                        if occurs_at(data@, pos as int, v.encoding()) {
                            assert(v.encoding() == le_bytes(v.registers_size as int, 2) + le_bytes(v.ins_size as int, 2) + le_bytes(v.outs_size as int, 2) + le_bytes(v.tries@.len() as int, 2) + le_bytes(v.debug_info_off as int, 4) + le_bytes(v.insns@.len() as int, 4) + u16_seq(v.insns@) + v.padding() + encode_seq(v.tries@) + v.handlers_encoding());
                            lemma_occurs_prefix(data@, pos as int, le_bytes(v.registers_size as int, 2) + le_bytes(v.ins_size as int, 2) + le_bytes(v.outs_size as int, 2) + le_bytes(v.tries@.len() as int, 2) + le_bytes(v.debug_info_off as int, 4) + le_bytes(v.insns@.len() as int, 4) + u16_seq(v.insns@) + v.padding() + encode_seq(v.tries@), v.handlers_encoding());
                            lemma_occurs_prefix(data@, pos as int, le_bytes(v.registers_size as int, 2) + le_bytes(v.ins_size as int, 2) + le_bytes(v.outs_size as int, 2) + le_bytes(v.tries@.len() as int, 2) + le_bytes(v.debug_info_off as int, 4) + le_bytes(v.insns@.len() as int, 4) + u16_seq(v.insns@) + v.padding(), encode_seq(v.tries@));
                            lemma_occurs_prefix(data@, pos as int, le_bytes(v.registers_size as int, 2) + le_bytes(v.ins_size as int, 2) + le_bytes(v.outs_size as int, 2) + le_bytes(v.tries@.len() as int, 2) + le_bytes(v.debug_info_off as int, 4) + le_bytes(v.insns@.len() as int, 4) + u16_seq(v.insns@), v.padding());
                            lemma_occurs_prefix(data@, pos as int, le_bytes(v.registers_size as int, 2) + le_bytes(v.ins_size as int, 2) + le_bytes(v.outs_size as int, 2) + le_bytes(v.tries@.len() as int, 2) + le_bytes(v.debug_info_off as int, 4) + le_bytes(v.insns@.len() as int, 4), u16_seq(v.insns@));
                            lemma_occurs_prefix(data@, pos as int, le_bytes(v.registers_size as int, 2) + le_bytes(v.ins_size as int, 2) + le_bytes(v.outs_size as int, 2) + le_bytes(v.tries@.len() as int, 2) + le_bytes(v.debug_info_off as int, 4), le_bytes(v.insns@.len() as int, 4));
                            lemma_occurs_prefix(data@, pos as int, le_bytes(v.registers_size as int, 2) + le_bytes(v.ins_size as int, 2) + le_bytes(v.outs_size as int, 2) + le_bytes(v.tries@.len() as int, 2), le_bytes(v.debug_info_off as int, 4));
                            lemma_occurs_prefix(data@, pos as int, le_bytes(v.registers_size as int, 2) + le_bytes(v.ins_size as int, 2) + le_bytes(v.outs_size as int, 2), le_bytes(v.tries@.len() as int, 2));
                            lemma_occurs_prefix(data@, pos as int, le_bytes(v.registers_size as int, 2) + le_bytes(v.ins_size as int, 2), le_bytes(v.outs_size as int, 2));
                            lemma_occurs_prefix(data@, pos as int, le_bytes(v.registers_size as int, 2), le_bytes(v.ins_size as int, 2));
                            lemma_pow256_values();
                            lemma_le_bytes_injective(tries_size as int, v.tries@.len() as int, 2);
                            lemma_le_bytes_injective(insns_size as int, v.insns@.len() as int, 4);
                            lemma_u16_seq_len(insns@);
                            lemma_u16_seq_len(v.insns@);
                            lemma_le_bytes_injective(zero as int, 0, 2);
                        }
                    }
                }
                return Err(DeserializeError::FormatError);
            }
            proof {
                pad = le_bytes(0, 2);
                lemma_occurs_concat(data@, pos as int, head, pad);
            }
            p = next;
        } else {
            assert(head + pad =~= head);
        }
        let (tries, p) = match deserialize_items::<TryItem>(data, p, tries_size as usize) {
            Ok(r) => r,
            Err(e) => {
                proof {
                    assert forall|v: Self| v.well_formed() implies !occurs_at(
                        data@,
                        pos as int,
                        #[trigger] v.encoding(),
                    ) by {
                        if occurs_at(data@, pos as int, v.encoding()) {
                            assert(v.encoding() == le_bytes(v.registers_size as int, 2) + le_bytes(v.ins_size as int, 2) + le_bytes(v.outs_size as int, 2) + le_bytes(v.tries@.len() as int, 2) + le_bytes(v.debug_info_off as int, 4) + le_bytes(v.insns@.len() as int, 4) + u16_seq(v.insns@) + v.padding() + encode_seq(v.tries@) + v.handlers_encoding());
                            lemma_occurs_prefix(data@, pos as int, le_bytes(v.registers_size as int, 2) + le_bytes(v.ins_size as int, 2) + le_bytes(v.outs_size as int, 2) + le_bytes(v.tries@.len() as int, 2) + le_bytes(v.debug_info_off as int, 4) + le_bytes(v.insns@.len() as int, 4) + u16_seq(v.insns@) + v.padding() + encode_seq(v.tries@), v.handlers_encoding());
                            lemma_occurs_prefix(data@, pos as int, le_bytes(v.registers_size as int, 2) + le_bytes(v.ins_size as int, 2) + le_bytes(v.outs_size as int, 2) + le_bytes(v.tries@.len() as int, 2) + le_bytes(v.debug_info_off as int, 4) + le_bytes(v.insns@.len() as int, 4) + u16_seq(v.insns@) + v.padding(), encode_seq(v.tries@));
                            lemma_occurs_prefix(data@, pos as int, le_bytes(v.registers_size as int, 2) + le_bytes(v.ins_size as int, 2) + le_bytes(v.outs_size as int, 2) + le_bytes(v.tries@.len() as int, 2) + le_bytes(v.debug_info_off as int, 4) + le_bytes(v.insns@.len() as int, 4) + u16_seq(v.insns@), v.padding());
                            lemma_occurs_prefix(data@, pos as int, le_bytes(v.registers_size as int, 2) + le_bytes(v.ins_size as int, 2) + le_bytes(v.outs_size as int, 2) + le_bytes(v.tries@.len() as int, 2) + le_bytes(v.debug_info_off as int, 4) + le_bytes(v.insns@.len() as int, 4), u16_seq(v.insns@));
                            lemma_occurs_prefix(data@, pos as int, le_bytes(v.registers_size as int, 2) + le_bytes(v.ins_size as int, 2) + le_bytes(v.outs_size as int, 2) + le_bytes(v.tries@.len() as int, 2) + le_bytes(v.debug_info_off as int, 4), le_bytes(v.insns@.len() as int, 4));
                            lemma_occurs_prefix(data@, pos as int, le_bytes(v.registers_size as int, 2) + le_bytes(v.ins_size as int, 2) + le_bytes(v.outs_size as int, 2) + le_bytes(v.tries@.len() as int, 2), le_bytes(v.debug_info_off as int, 4));
                            lemma_occurs_prefix(data@, pos as int, le_bytes(v.registers_size as int, 2) + le_bytes(v.ins_size as int, 2) + le_bytes(v.outs_size as int, 2), le_bytes(v.tries@.len() as int, 2));
                            lemma_occurs_prefix(data@, pos as int, le_bytes(v.registers_size as int, 2) + le_bytes(v.ins_size as int, 2), le_bytes(v.outs_size as int, 2));
                            lemma_occurs_prefix(data@, pos as int, le_bytes(v.registers_size as int, 2), le_bytes(v.ins_size as int, 2));
                            lemma_pow256_values();
                            lemma_le_bytes_injective(tries_size as int, v.tries@.len() as int, 2);
                            lemma_le_bytes_injective(insns_size as int, v.insns@.len() as int, 4);
                            lemma_u16_seq_len(insns@);
                            lemma_u16_seq_len(v.insns@);
                        }
                    }
                }
                return Err(e);
            },
        };
        proof {
            lemma_occurs_concat(data@, pos as int, head + pad, encode_seq(tries@));
        }
        let mut p = p;
        let mut handlers: Option<EncodedCatchHandlerList> = None;
        if tries_size != 0 {
            let (h, next) = match EncodedCatchHandlerList::deserialize(data, p) {
                Ok(r) => r,
                Err(e) => {
                    proof {
                        assert forall|v: Self| v.well_formed() implies !occurs_at(
                            data@,
                            pos as int,
                            #[trigger] v.encoding(),
                        ) by {
                            if occurs_at(data@, pos as int, v.encoding()) {
                                assert(v.encoding() == le_bytes(v.registers_size as int, 2) + le_bytes(v.ins_size as int, 2) + le_bytes(v.outs_size as int, 2) + le_bytes(v.tries@.len() as int, 2) + le_bytes(v.debug_info_off as int, 4) + le_bytes(v.insns@.len() as int, 4) + u16_seq(v.insns@) + v.padding() + encode_seq(v.tries@) + v.handlers_encoding());
                                lemma_occurs_prefix(data@, pos as int, le_bytes(v.registers_size as int, 2) + le_bytes(v.ins_size as int, 2) + le_bytes(v.outs_size as int, 2) + le_bytes(v.tries@.len() as int, 2) + le_bytes(v.debug_info_off as int, 4) + le_bytes(v.insns@.len() as int, 4) + u16_seq(v.insns@) + v.padding() + encode_seq(v.tries@), v.handlers_encoding());
                                lemma_occurs_prefix(data@, pos as int, le_bytes(v.registers_size as int, 2) + le_bytes(v.ins_size as int, 2) + le_bytes(v.outs_size as int, 2) + le_bytes(v.tries@.len() as int, 2) + le_bytes(v.debug_info_off as int, 4) + le_bytes(v.insns@.len() as int, 4) + u16_seq(v.insns@) + v.padding(), encode_seq(v.tries@));
                                lemma_occurs_prefix(data@, pos as int, le_bytes(v.registers_size as int, 2) + le_bytes(v.ins_size as int, 2) + le_bytes(v.outs_size as int, 2) + le_bytes(v.tries@.len() as int, 2) + le_bytes(v.debug_info_off as int, 4) + le_bytes(v.insns@.len() as int, 4) + u16_seq(v.insns@), v.padding());
                                lemma_occurs_prefix(data@, pos as int, le_bytes(v.registers_size as int, 2) + le_bytes(v.ins_size as int, 2) + le_bytes(v.outs_size as int, 2) + le_bytes(v.tries@.len() as int, 2) + le_bytes(v.debug_info_off as int, 4) + le_bytes(v.insns@.len() as int, 4), u16_seq(v.insns@));
                                lemma_occurs_prefix(data@, pos as int, le_bytes(v.registers_size as int, 2) + le_bytes(v.ins_size as int, 2) + le_bytes(v.outs_size as int, 2) + le_bytes(v.tries@.len() as int, 2) + le_bytes(v.debug_info_off as int, 4), le_bytes(v.insns@.len() as int, 4));
                                lemma_occurs_prefix(data@, pos as int, le_bytes(v.registers_size as int, 2) + le_bytes(v.ins_size as int, 2) + le_bytes(v.outs_size as int, 2) + le_bytes(v.tries@.len() as int, 2), le_bytes(v.debug_info_off as int, 4));
                                lemma_occurs_prefix(data@, pos as int, le_bytes(v.registers_size as int, 2) + le_bytes(v.ins_size as int, 2) + le_bytes(v.outs_size as int, 2), le_bytes(v.tries@.len() as int, 2));
                                lemma_occurs_prefix(data@, pos as int, le_bytes(v.registers_size as int, 2) + le_bytes(v.ins_size as int, 2), le_bytes(v.outs_size as int, 2));
                                lemma_occurs_prefix(data@, pos as int, le_bytes(v.registers_size as int, 2), le_bytes(v.ins_size as int, 2));
                                lemma_pow256_values();
                                lemma_le_bytes_injective(tries_size as int, v.tries@.len() as int, 2);
                                lemma_le_bytes_injective(insns_size as int, v.insns@.len() as int, 4);
                                lemma_u16_seq_len(insns@);
                                lemma_u16_seq_len(v.insns@);
                                lemma_encode_seq_equal(data@, pos + (le_bytes(v.registers_size as int, 2) + le_bytes(v.ins_size as int, 2) + le_bytes(v.outs_size as int, 2) + le_bytes(v.tries@.len() as int, 2) + le_bytes(v.debug_info_off as int, 4) + le_bytes(v.insns@.len() as int, 4) + u16_seq(v.insns@) + v.padding()).len(), tries@, v.tries@);
                                assert(v.handlers_encoding() == v.handlers->Some_0.encoding());
                            }
                        }
                    }
                    return Err(e);
                },
            };
            proof {
                lemma_occurs_concat(data@, pos as int, head + pad + encode_seq(tries@), h.encoding());
            }
            handlers = Some(h);
            p = next;
        }
        let v = CodeItem {
            registers_size,
            ins_size,
            outs_size,
            debug_info_off,
            insns,
            tries,
            handlers,
        };
        assert(v.padding() == pad);
        assert(v.encoding() =~= head + pad + encode_seq(v.tries@) + v.handlers_encoding());
        Ok((v, p))
    }

    fn serialize(&self, out: &mut Vec<u8>) {
        encode_u16(out, self.registers_size);
        encode_u16(out, self.ins_size);
        encode_u16(out, self.outs_size);
        encode_u16(out, self.tries.len() as u16);
        encode_u32(out, self.debug_info_off);
        encode_u32(out, self.insns.len() as u32);
        encode_u16_list(&self.insns, out);
        if self.tries.len() != 0 && self.insns.len() % 2 == 1 {
            encode_u16(out, 0);
        }
        serialize_items(&self.tries, out);
        match &self.handlers {
            Some(h) => h.serialize(out),
            None => {},
        }
        assert(out@ =~= old(out)@ + self.encoding());
    }

    fn size(&self) -> (r: usize) {
        proof {
            lemma_u16_seq_len(self.insns@);
        }
        let padding: usize = if self.tries.len() != 0 && self.insns.len() % 2 == 1 {
            2
        } else {
            0
        };
        let handlers: usize = match &self.handlers {
            Some(h) => h.size(),
            None => 0,
        };
        16 + 2 * self.insns.len() + padding + size_items(&self.tries) + handlers
    }
}

/// The handler lists of a code item, referred to by byte offset from its try items.
#[derive(Debug, PartialEq, Eq)]
pub struct EncodedCatchHandlerList {
    pub list: Vec<EncodedCatchHandler>,
}

impl DexStruct for EncodedCatchHandlerList {
    open spec fn encoding(&self) -> Seq<u8> {
        uleb128_bytes(self.list@.len()) + encode_seq(self.list@)
    }

    open spec fn well_formed(&self) -> bool {
        self.list@.len() <= u32::MAX && all_well_formed(self.list@)
    }

    open spec fn spec_alignment() -> nat {
        1
    }

    fn alignment() -> (r: usize) {
        1
    }

    proof fn lemma_prefix_free(data: Seq<u8>, pos: int, a: Self, b: Self) {
        lemma_occurs_prefix(data, pos, uleb128_bytes(a.list@.len()), encode_seq(a.list@));
        lemma_occurs_prefix(data, pos, uleb128_bytes(b.list@.len()), encode_seq(b.list@));
        lemma_uleb128_prefix_free(data, pos, a.list@.len() as u32, b.list@.len() as u32);
        lemma_encode_seq_equal(data, pos + (uleb128_bytes(a.list@.len())).len(), a.list@, b.list@);
    }

    fn deserialize(data: &[u8], pos: usize) -> (res: Result<(Self, usize), DeserializeError>) {
        let (count, p) = match decode_uleb128(data, pos) {
            Ok(r) => r,
            Err(e) => {
                proof {
                    assert forall|v: Self| v.well_formed() implies !occurs_at(
                        data@,
                        pos as int,
                        #[trigger] v.encoding(),
                    ) by {
                        if occurs_at(data@, pos as int, v.encoding()) {
                            assert(v.encoding() == uleb128_bytes(v.list@.len()) + encode_seq(v.list@));
                            lemma_occurs_prefix(data@, pos as int, uleb128_bytes(v.list@.len()), encode_seq(v.list@));
                            lemma_pow256_values();
                        }
                    }
                }
                return Err(e);
            },
        };
        let (list, p) = match deserialize_items::<EncodedCatchHandler>(data, p, count as usize) {
            Ok(r) => r,
            Err(e) => {
                proof {
                    assert forall|v: Self| v.well_formed() implies !occurs_at(
                        data@,
                        pos as int,
                        #[trigger] v.encoding(),
                    ) by {
                        if occurs_at(data@, pos as int, v.encoding()) {
                            assert(v.encoding() == uleb128_bytes(v.list@.len()) + encode_seq(v.list@));
                            lemma_occurs_prefix(data@, pos as int, uleb128_bytes(v.list@.len()), encode_seq(v.list@));
                            lemma_pow256_values();
                            lemma_uleb128_prefix_free(data@, pos as int, count, v.list@.len() as u32);
                        }
                    }
                }
                return Err(e);
            },
        };
        proof {
            lemma_occurs_concat(data@, pos as int, uleb128_bytes(count as nat), encode_seq(list@));
        }
        Ok((EncodedCatchHandlerList { list }, p))
    }

    fn serialize(&self, out: &mut Vec<u8>) {
        encode_uleb128(out, self.list.len() as u32);
        serialize_items(&self.list, out);
        assert(out@ =~= old(out)@ + self.encoding());
    }

    fn size(&self) -> (r: usize) {
        size_uleb128(self.list.len() as u32) + size_items(&self.list)
    }
}

/// One handler list: typed handlers in order, then an optional catch-all address.
/// On the wire the count is negated when a catch-all follows.
#[derive(Debug, PartialEq, Eq)]
pub struct EncodedCatchHandler {
    pub handlers: Vec<EncodedTypeAddressPair>,
    pub catch_all_addr: Option<u32>,
}

impl EncodedCatchHandler {
    /// The signed count written first: positive without a catch-all, otherwise non-positive.
    pub open spec fn signed_count(&self) -> int {
        match self.catch_all_addr {
            Some(_) => -(self.handlers@.len() as int),
            None => self.handlers@.len() as int,
        }
    }

    pub open spec fn catch_all_encoding(&self) -> Seq<u8> {
        match self.catch_all_addr {
            Some(a) => uleb128_bytes(a as nat),
            None => seq![],
        }
    }
}

impl DexStruct for EncodedCatchHandler {
    open spec fn encoding(&self) -> Seq<u8> {
        sleb128_bytes(self.signed_count()) + encode_seq(self.handlers@) + self.catch_all_encoding()
    }

    open spec fn well_formed(&self) -> bool {
        &&& self.handlers@.len() <= i32::MAX
        &&& !(self.handlers@.len() == 0 && self.catch_all_addr is None)
        &&& all_well_formed(self.handlers@)
    }

    open spec fn spec_alignment() -> nat {
        1
    }

    fn alignment() -> (r: usize) {
        1
    }

    proof fn lemma_prefix_free(data: Seq<u8>, pos: int, a: Self, b: Self) {
        lemma_occurs_prefix(data, pos, sleb128_bytes(a.signed_count()) + encode_seq(a.handlers@), a.catch_all_encoding());
        lemma_occurs_prefix(data, pos, sleb128_bytes(a.signed_count()), encode_seq(a.handlers@));
        lemma_occurs_prefix(data, pos, sleb128_bytes(b.signed_count()) + encode_seq(b.handlers@), b.catch_all_encoding());
        lemma_occurs_prefix(data, pos, sleb128_bytes(b.signed_count()), encode_seq(b.handlers@));
        lemma_sleb128_prefix_free(data, pos, a.signed_count() as i32, b.signed_count() as i32);
        lemma_encode_seq_equal(data, pos + (sleb128_bytes(a.signed_count())).len(), a.handlers@, b.handlers@);
        if a.catch_all_addr is Some {
            lemma_uleb128_prefix_free(
                data,
                pos + (sleb128_bytes(a.signed_count()) + encode_seq(a.handlers@)).len(),
                a.catch_all_addr->Some_0,
                b.catch_all_addr->Some_0,
            );
        }
    }

    fn deserialize(data: &[u8], pos: usize) -> (res: Result<(Self, usize), DeserializeError>) {
        let (count, p) = match decode_sleb128(data, pos) {
            Ok(r) => r,
            Err(e) => {
                proof {
                    assert forall|v: Self| v.well_formed() implies !occurs_at(
                        data@,
                        pos as int,
                        #[trigger] v.encoding(),
                    ) by {
                        if occurs_at(data@, pos as int, v.encoding()) {
                            assert(v.encoding() == sleb128_bytes(v.signed_count()) + encode_seq(v.handlers@) + v.catch_all_encoding());
                            lemma_occurs_prefix(data@, pos as int, sleb128_bytes(v.signed_count()) + encode_seq(v.handlers@), v.catch_all_encoding());
                            lemma_occurs_prefix(data@, pos as int, sleb128_bytes(v.signed_count()), encode_seq(v.handlers@));
                            lemma_pow256_values();
                        }
                    }
                }
                return Err(e);
            },
        };
        if count == i32::MIN {
            proof {
                assert forall|v: Self| v.well_formed() implies !occurs_at(
                    data@,
                    pos as int,
                    #[trigger] v.encoding(),
                ) by {
                    if occurs_at(data@, pos as int, v.encoding()) {
                        assert(v.encoding() == sleb128_bytes(v.signed_count()) + encode_seq(v.handlers@) + v.catch_all_encoding());
                        lemma_occurs_prefix(data@, pos as int, sleb128_bytes(v.signed_count()) + encode_seq(v.handlers@), v.catch_all_encoding());
                        lemma_occurs_prefix(data@, pos as int, sleb128_bytes(v.signed_count()), encode_seq(v.handlers@));
                        lemma_pow256_values();
                        lemma_sleb128_prefix_free(data@, pos as int, count, v.signed_count() as i32);
                    }
                }
            }
            return Err(DeserializeError::FormatError);
        }
        let n: usize = if count < 0 {
            (-count) as usize
        } else {
            count as usize
        };
        let (handlers, p) = match deserialize_items::<EncodedTypeAddressPair>(data, p, n) {
            Ok(r) => r,
            Err(e) => {
                proof {
                    assert forall|v: Self| v.well_formed() implies !occurs_at(
                        data@,
                        pos as int,
                        #[trigger] v.encoding(),
                    ) by {
                        if occurs_at(data@, pos as int, v.encoding()) {
                            assert(v.encoding() == sleb128_bytes(v.signed_count()) + encode_seq(v.handlers@) + v.catch_all_encoding());
                            lemma_occurs_prefix(data@, pos as int, sleb128_bytes(v.signed_count()) + encode_seq(v.handlers@), v.catch_all_encoding());
                            lemma_occurs_prefix(data@, pos as int, sleb128_bytes(v.signed_count()), encode_seq(v.handlers@));
                            lemma_pow256_values();
                            lemma_sleb128_prefix_free(data@, pos as int, count, v.signed_count() as i32);
                        }
                    }
                }
                return Err(e);
            },
        };
        proof {
            lemma_occurs_concat(data@, pos as int, sleb128_bytes(count as int), encode_seq(handlers@));
        }
        if count > 0 {
            let v = EncodedCatchHandler { handlers, catch_all_addr: None };
            assert(v.encoding() =~= sleb128_bytes(count as int) + encode_seq(handlers@));
            return Ok((v, p));
        }
        let (addr, p) = match decode_uleb128(data, p) {
            Ok(r) => r,
            Err(e) => {
                proof {
                    assert forall|v: Self| v.well_formed() implies !occurs_at(
                        data@,
                        pos as int,
                        #[trigger] v.encoding(),
                    ) by {
                        if occurs_at(data@, pos as int, v.encoding()) {
                            assert(v.encoding() == sleb128_bytes(v.signed_count()) + encode_seq(v.handlers@) + v.catch_all_encoding());
                            lemma_occurs_prefix(data@, pos as int, sleb128_bytes(v.signed_count()) + encode_seq(v.handlers@), v.catch_all_encoding());
                            lemma_occurs_prefix(data@, pos as int, sleb128_bytes(v.signed_count()), encode_seq(v.handlers@));
                            lemma_pow256_values();
                            lemma_sleb128_prefix_free(data@, pos as int, count, v.signed_count() as i32);
                            lemma_encode_seq_equal(data@, pos + (sleb128_bytes(v.signed_count())).len(), handlers@, v.handlers@);
                            assert(v.catch_all_encoding() == uleb128_bytes(v.catch_all_addr->Some_0 as nat));
                        }
                    }
                }
                return Err(e);
            },
        };
        proof {
            lemma_occurs_concat(
                data@,
                pos as int,
                sleb128_bytes(count as int) + encode_seq(handlers@),
                uleb128_bytes(addr as nat),
            );
        }
        Ok((EncodedCatchHandler { handlers, catch_all_addr: Some(addr) }, p))
    }

    fn serialize(&self, out: &mut Vec<u8>) {
        let n = self.handlers.len() as i32;
        match self.catch_all_addr {
            None => {
                encode_sleb128(out, n);
                serialize_items(&self.handlers, out);
            },
            Some(addr) => {
                encode_sleb128(out, -n);
                serialize_items(&self.handlers, out);
                encode_uleb128(out, addr);
            },
        }
        assert(out@ =~= old(out)@ + self.encoding());
    }

    fn size(&self) -> (r: usize) {
        let n = self.handlers.len() as i32;
        match self.catch_all_addr {
            None => size_sleb128(n) + size_items(&self.handlers),
            Some(addr) => size_sleb128(-n) + size_items(&self.handlers) + size_uleb128(addr),
        }
    }
}

/// The annotations of a class: its own, and those of its fields, methods and parameters.
#[derive(Debug, PartialEq, Eq)]
pub struct AnnotationsDirectoryItem {
    pub class_annotations_off: u32,
    pub field_annotations: Vec<FieldAnnotation>,
    pub method_annotations: Vec<MethodAnnotation>,
    pub parameter_annotations: Vec<ParameterAnnotation>,
}

impl DexStruct for AnnotationsDirectoryItem {
    open spec fn encoding(&self) -> Seq<u8> {
        le_bytes(self.class_annotations_off as int, 4) + le_bytes(
            self.field_annotations@.len() as int,
            4,
        ) + le_bytes(self.method_annotations@.len() as int, 4) + le_bytes(
            self.parameter_annotations@.len() as int,
            4,
        ) + encode_seq(self.field_annotations@) + encode_seq(self.method_annotations@)
            + encode_seq(self.parameter_annotations@)
    }

    open spec fn well_formed(&self) -> bool {
        &&& self.field_annotations@.len() <= u32::MAX
        &&& self.method_annotations@.len() <= u32::MAX
        &&& self.parameter_annotations@.len() <= u32::MAX
        &&& all_well_formed(self.field_annotations@)
        &&& all_well_formed(self.method_annotations@)
        &&& all_well_formed(self.parameter_annotations@)
    }

    open spec fn spec_alignment() -> nat {
        4
    }

    fn alignment() -> (r: usize) {
        4
    }

    proof fn lemma_prefix_free(data: Seq<u8>, pos: int, a: Self, b: Self) {
        lemma_occurs_prefix(data, pos, le_bytes(a.class_annotations_off as int, 4) + le_bytes(a.field_annotations@.len() as int, 4) + le_bytes(a.method_annotations@.len() as int, 4) + le_bytes(a.parameter_annotations@.len() as int, 4) + encode_seq(a.field_annotations@) + encode_seq(a.method_annotations@), encode_seq(a.parameter_annotations@));
        lemma_occurs_prefix(data, pos, le_bytes(a.class_annotations_off as int, 4) + le_bytes(a.field_annotations@.len() as int, 4) + le_bytes(a.method_annotations@.len() as int, 4) + le_bytes(a.parameter_annotations@.len() as int, 4) + encode_seq(a.field_annotations@), encode_seq(a.method_annotations@));
        lemma_occurs_prefix(data, pos, le_bytes(a.class_annotations_off as int, 4) + le_bytes(a.field_annotations@.len() as int, 4) + le_bytes(a.method_annotations@.len() as int, 4) + le_bytes(a.parameter_annotations@.len() as int, 4), encode_seq(a.field_annotations@));
        lemma_occurs_prefix(data, pos, le_bytes(a.class_annotations_off as int, 4) + le_bytes(a.field_annotations@.len() as int, 4) + le_bytes(a.method_annotations@.len() as int, 4), le_bytes(a.parameter_annotations@.len() as int, 4));
        lemma_occurs_prefix(data, pos, le_bytes(a.class_annotations_off as int, 4) + le_bytes(a.field_annotations@.len() as int, 4), le_bytes(a.method_annotations@.len() as int, 4));
        lemma_occurs_prefix(data, pos, le_bytes(a.class_annotations_off as int, 4), le_bytes(a.field_annotations@.len() as int, 4));
        lemma_occurs_prefix(data, pos, le_bytes(b.class_annotations_off as int, 4) + le_bytes(b.field_annotations@.len() as int, 4) + le_bytes(b.method_annotations@.len() as int, 4) + le_bytes(b.parameter_annotations@.len() as int, 4) + encode_seq(b.field_annotations@) + encode_seq(b.method_annotations@), encode_seq(b.parameter_annotations@));
        lemma_occurs_prefix(data, pos, le_bytes(b.class_annotations_off as int, 4) + le_bytes(b.field_annotations@.len() as int, 4) + le_bytes(b.method_annotations@.len() as int, 4) + le_bytes(b.parameter_annotations@.len() as int, 4) + encode_seq(b.field_annotations@), encode_seq(b.method_annotations@));
        lemma_occurs_prefix(data, pos, le_bytes(b.class_annotations_off as int, 4) + le_bytes(b.field_annotations@.len() as int, 4) + le_bytes(b.method_annotations@.len() as int, 4) + le_bytes(b.parameter_annotations@.len() as int, 4), encode_seq(b.field_annotations@));
        lemma_occurs_prefix(data, pos, le_bytes(b.class_annotations_off as int, 4) + le_bytes(b.field_annotations@.len() as int, 4) + le_bytes(b.method_annotations@.len() as int, 4), le_bytes(b.parameter_annotations@.len() as int, 4));
        lemma_occurs_prefix(data, pos, le_bytes(b.class_annotations_off as int, 4) + le_bytes(b.field_annotations@.len() as int, 4), le_bytes(b.method_annotations@.len() as int, 4));
        lemma_occurs_prefix(data, pos, le_bytes(b.class_annotations_off as int, 4), le_bytes(b.field_annotations@.len() as int, 4));
        lemma_pow256_values();
        lemma_le_bytes_injective(a.field_annotations@.len() as int, b.field_annotations@.len() as int, 4);
        lemma_le_bytes_injective(a.method_annotations@.len() as int, b.method_annotations@.len() as int, 4);
        lemma_le_bytes_injective(a.parameter_annotations@.len() as int, b.parameter_annotations@.len() as int, 4);
        lemma_encode_seq_equal(data, pos + (le_bytes(a.class_annotations_off as int, 4) + le_bytes(a.field_annotations@.len() as int, 4) + le_bytes(a.method_annotations@.len() as int, 4) + le_bytes(a.parameter_annotations@.len() as int, 4)).len(), a.field_annotations@, b.field_annotations@);
        lemma_encode_seq_equal(data, pos + (le_bytes(a.class_annotations_off as int, 4) + le_bytes(a.field_annotations@.len() as int, 4) + le_bytes(a.method_annotations@.len() as int, 4) + le_bytes(a.parameter_annotations@.len() as int, 4) + encode_seq(a.field_annotations@)).len(), a.method_annotations@, b.method_annotations@);
        lemma_encode_seq_equal(data, pos + (le_bytes(a.class_annotations_off as int, 4) + le_bytes(a.field_annotations@.len() as int, 4) + le_bytes(a.method_annotations@.len() as int, 4) + le_bytes(a.parameter_annotations@.len() as int, 4) + encode_seq(a.field_annotations@) + encode_seq(a.method_annotations@)).len(), a.parameter_annotations@, b.parameter_annotations@);
    }

    fn deserialize(data: &[u8], pos: usize) -> (res: Result<(Self, usize), DeserializeError>) {
        let (class_annotations_off, p) = match decode_u32(data, pos) {
            Ok(r) => r,
            Err(e) => {
                proof {
                    assert forall|v: Self| v.well_formed() implies !occurs_at(
                        data@,
                        pos as int,
                        #[trigger] v.encoding(),
                    ) by {
                        if occurs_at(data@, pos as int, v.encoding()) {
                            assert(v.encoding() == le_bytes(v.class_annotations_off as int, 4) + le_bytes(v.field_annotations@.len() as int, 4) + le_bytes(v.method_annotations@.len() as int, 4) + le_bytes(v.parameter_annotations@.len() as int, 4) + encode_seq(v.field_annotations@) + encode_seq(v.method_annotations@) + encode_seq(v.parameter_annotations@));
                            lemma_occurs_prefix(data@, pos as int, le_bytes(v.class_annotations_off as int, 4) + le_bytes(v.field_annotations@.len() as int, 4) + le_bytes(v.method_annotations@.len() as int, 4) + le_bytes(v.parameter_annotations@.len() as int, 4) + encode_seq(v.field_annotations@) + encode_seq(v.method_annotations@), encode_seq(v.parameter_annotations@));
                            lemma_occurs_prefix(data@, pos as int, le_bytes(v.class_annotations_off as int, 4) + le_bytes(v.field_annotations@.len() as int, 4) + le_bytes(v.method_annotations@.len() as int, 4) + le_bytes(v.parameter_annotations@.len() as int, 4) + encode_seq(v.field_annotations@), encode_seq(v.method_annotations@));
                            lemma_occurs_prefix(data@, pos as int, le_bytes(v.class_annotations_off as int, 4) + le_bytes(v.field_annotations@.len() as int, 4) + le_bytes(v.method_annotations@.len() as int, 4) + le_bytes(v.parameter_annotations@.len() as int, 4), encode_seq(v.field_annotations@));
                            lemma_occurs_prefix(data@, pos as int, le_bytes(v.class_annotations_off as int, 4) + le_bytes(v.field_annotations@.len() as int, 4) + le_bytes(v.method_annotations@.len() as int, 4), le_bytes(v.parameter_annotations@.len() as int, 4));
                            lemma_occurs_prefix(data@, pos as int, le_bytes(v.class_annotations_off as int, 4) + le_bytes(v.field_annotations@.len() as int, 4), le_bytes(v.method_annotations@.len() as int, 4));
                            lemma_occurs_prefix(data@, pos as int, le_bytes(v.class_annotations_off as int, 4), le_bytes(v.field_annotations@.len() as int, 4));
                            lemma_pow256_values();
                        }
                    }
                }
                return Err(e);
            },
        };
        let (n1, p) = match decode_u32(data, p) {
            Ok(r) => r,
            Err(e) => {
                proof {
                    assert forall|v: Self| v.well_formed() implies !occurs_at(
                        data@,
                        pos as int,
                        #[trigger] v.encoding(),
                    ) by {
                        if occurs_at(data@, pos as int, v.encoding()) {
                            assert(v.encoding() == le_bytes(v.class_annotations_off as int, 4) + le_bytes(v.field_annotations@.len() as int, 4) + le_bytes(v.method_annotations@.len() as int, 4) + le_bytes(v.parameter_annotations@.len() as int, 4) + encode_seq(v.field_annotations@) + encode_seq(v.method_annotations@) + encode_seq(v.parameter_annotations@));
                            lemma_occurs_prefix(data@, pos as int, le_bytes(v.class_annotations_off as int, 4) + le_bytes(v.field_annotations@.len() as int, 4) + le_bytes(v.method_annotations@.len() as int, 4) + le_bytes(v.parameter_annotations@.len() as int, 4) + encode_seq(v.field_annotations@) + encode_seq(v.method_annotations@), encode_seq(v.parameter_annotations@));
                            lemma_occurs_prefix(data@, pos as int, le_bytes(v.class_annotations_off as int, 4) + le_bytes(v.field_annotations@.len() as int, 4) + le_bytes(v.method_annotations@.len() as int, 4) + le_bytes(v.parameter_annotations@.len() as int, 4) + encode_seq(v.field_annotations@), encode_seq(v.method_annotations@));
                            lemma_occurs_prefix(data@, pos as int, le_bytes(v.class_annotations_off as int, 4) + le_bytes(v.field_annotations@.len() as int, 4) + le_bytes(v.method_annotations@.len() as int, 4) + le_bytes(v.parameter_annotations@.len() as int, 4), encode_seq(v.field_annotations@));
                            lemma_occurs_prefix(data@, pos as int, le_bytes(v.class_annotations_off as int, 4) + le_bytes(v.field_annotations@.len() as int, 4) + le_bytes(v.method_annotations@.len() as int, 4), le_bytes(v.parameter_annotations@.len() as int, 4));
                            lemma_occurs_prefix(data@, pos as int, le_bytes(v.class_annotations_off as int, 4) + le_bytes(v.field_annotations@.len() as int, 4), le_bytes(v.method_annotations@.len() as int, 4));
                            lemma_occurs_prefix(data@, pos as int, le_bytes(v.class_annotations_off as int, 4), le_bytes(v.field_annotations@.len() as int, 4));
                            lemma_pow256_values();
                        }
                    }
                }
                return Err(e);
            },
        };
        let (n2, p) = match decode_u32(data, p) {
            Ok(r) => r,
            Err(e) => {
                proof {
                    assert forall|v: Self| v.well_formed() implies !occurs_at(
                        data@,
                        pos as int,
                        #[trigger] v.encoding(),
                    ) by {
                        if occurs_at(data@, pos as int, v.encoding()) {
                            assert(v.encoding() == le_bytes(v.class_annotations_off as int, 4) + le_bytes(v.field_annotations@.len() as int, 4) + le_bytes(v.method_annotations@.len() as int, 4) + le_bytes(v.parameter_annotations@.len() as int, 4) + encode_seq(v.field_annotations@) + encode_seq(v.method_annotations@) + encode_seq(v.parameter_annotations@));
                            lemma_occurs_prefix(data@, pos as int, le_bytes(v.class_annotations_off as int, 4) + le_bytes(v.field_annotations@.len() as int, 4) + le_bytes(v.method_annotations@.len() as int, 4) + le_bytes(v.parameter_annotations@.len() as int, 4) + encode_seq(v.field_annotations@) + encode_seq(v.method_annotations@), encode_seq(v.parameter_annotations@));
                            lemma_occurs_prefix(data@, pos as int, le_bytes(v.class_annotations_off as int, 4) + le_bytes(v.field_annotations@.len() as int, 4) + le_bytes(v.method_annotations@.len() as int, 4) + le_bytes(v.parameter_annotations@.len() as int, 4) + encode_seq(v.field_annotations@), encode_seq(v.method_annotations@));
                            lemma_occurs_prefix(data@, pos as int, le_bytes(v.class_annotations_off as int, 4) + le_bytes(v.field_annotations@.len() as int, 4) + le_bytes(v.method_annotations@.len() as int, 4) + le_bytes(v.parameter_annotations@.len() as int, 4), encode_seq(v.field_annotations@));
                            lemma_occurs_prefix(data@, pos as int, le_bytes(v.class_annotations_off as int, 4) + le_bytes(v.field_annotations@.len() as int, 4) + le_bytes(v.method_annotations@.len() as int, 4), le_bytes(v.parameter_annotations@.len() as int, 4));
                            lemma_occurs_prefix(data@, pos as int, le_bytes(v.class_annotations_off as int, 4) + le_bytes(v.field_annotations@.len() as int, 4), le_bytes(v.method_annotations@.len() as int, 4));
                            lemma_occurs_prefix(data@, pos as int, le_bytes(v.class_annotations_off as int, 4), le_bytes(v.field_annotations@.len() as int, 4));
                            lemma_pow256_values();
                            lemma_le_bytes_injective(n1 as int, v.field_annotations@.len() as int, 4);
                        }
                    }
                }
                return Err(e);
            },
        };
        let (n3, p) = match decode_u32(data, p) {
            Ok(r) => r,
            Err(e) => {
                proof {
                    assert forall|v: Self| v.well_formed() implies !occurs_at(
                        data@,
                        pos as int,
                        #[trigger] v.encoding(),
                    ) by {
                        if occurs_at(data@, pos as int, v.encoding()) {
                            assert(v.encoding() == le_bytes(v.class_annotations_off as int, 4) + le_bytes(v.field_annotations@.len() as int, 4) + le_bytes(v.method_annotations@.len() as int, 4) + le_bytes(v.parameter_annotations@.len() as int, 4) + encode_seq(v.field_annotations@) + encode_seq(v.method_annotations@) + encode_seq(v.parameter_annotations@));
                            lemma_occurs_prefix(data@, pos as int, le_bytes(v.class_annotations_off as int, 4) + le_bytes(v.field_annotations@.len() as int, 4) + le_bytes(v.method_annotations@.len() as int, 4) + le_bytes(v.parameter_annotations@.len() as int, 4) + encode_seq(v.field_annotations@) + encode_seq(v.method_annotations@), encode_seq(v.parameter_annotations@));
                            lemma_occurs_prefix(data@, pos as int, le_bytes(v.class_annotations_off as int, 4) + le_bytes(v.field_annotations@.len() as int, 4) + le_bytes(v.method_annotations@.len() as int, 4) + le_bytes(v.parameter_annotations@.len() as int, 4) + encode_seq(v.field_annotations@), encode_seq(v.method_annotations@));
                            lemma_occurs_prefix(data@, pos as int, le_bytes(v.class_annotations_off as int, 4) + le_bytes(v.field_annotations@.len() as int, 4) + le_bytes(v.method_annotations@.len() as int, 4) + le_bytes(v.parameter_annotations@.len() as int, 4), encode_seq(v.field_annotations@));
                            lemma_occurs_prefix(data@, pos as int, le_bytes(v.class_annotations_off as int, 4) + le_bytes(v.field_annotations@.len() as int, 4) + le_bytes(v.method_annotations@.len() as int, 4), le_bytes(v.parameter_annotations@.len() as int, 4));
                            lemma_occurs_prefix(data@, pos as int, le_bytes(v.class_annotations_off as int, 4) + le_bytes(v.field_annotations@.len() as int, 4), le_bytes(v.method_annotations@.len() as int, 4));
                            lemma_occurs_prefix(data@, pos as int, le_bytes(v.class_annotations_off as int, 4), le_bytes(v.field_annotations@.len() as int, 4));
                            lemma_pow256_values();
                            lemma_le_bytes_injective(n1 as int, v.field_annotations@.len() as int, 4);
                            lemma_le_bytes_injective(n2 as int, v.method_annotations@.len() as int, 4);
                        }
                    }
                }
                return Err(e);
            },
        };
        let (field_annotations, p) = match deserialize_items::<FieldAnnotation>(data, p, n1 as usize) {
            Ok(r) => r,
            Err(e) => {
                proof {
                    assert forall|v: Self| v.well_formed() implies !occurs_at(
                        data@,
                        pos as int,
                        #[trigger] v.encoding(),
                    ) by {
                        if occurs_at(data@, pos as int, v.encoding()) {
                            assert(v.encoding() == le_bytes(v.class_annotations_off as int, 4) + le_bytes(v.field_annotations@.len() as int, 4) + le_bytes(v.method_annotations@.len() as int, 4) + le_bytes(v.parameter_annotations@.len() as int, 4) + encode_seq(v.field_annotations@) + encode_seq(v.method_annotations@) + encode_seq(v.parameter_annotations@));
                            lemma_occurs_prefix(data@, pos as int, le_bytes(v.class_annotations_off as int, 4) + le_bytes(v.field_annotations@.len() as int, 4) + le_bytes(v.method_annotations@.len() as int, 4) + le_bytes(v.parameter_annotations@.len() as int, 4) + encode_seq(v.field_annotations@) + encode_seq(v.method_annotations@), encode_seq(v.parameter_annotations@));
                            lemma_occurs_prefix(data@, pos as int, le_bytes(v.class_annotations_off as int, 4) + le_bytes(v.field_annotations@.len() as int, 4) + le_bytes(v.method_annotations@.len() as int, 4) + le_bytes(v.parameter_annotations@.len() as int, 4) + encode_seq(v.field_annotations@), encode_seq(v.method_annotations@));
                            lemma_occurs_prefix(data@, pos as int, le_bytes(v.class_annotations_off as int, 4) + le_bytes(v.field_annotations@.len() as int, 4) + le_bytes(v.method_annotations@.len() as int, 4) + le_bytes(v.parameter_annotations@.len() as int, 4), encode_seq(v.field_annotations@));
                            lemma_occurs_prefix(data@, pos as int, le_bytes(v.class_annotations_off as int, 4) + le_bytes(v.field_annotations@.len() as int, 4) + le_bytes(v.method_annotations@.len() as int, 4), le_bytes(v.parameter_annotations@.len() as int, 4));
                            lemma_occurs_prefix(data@, pos as int, le_bytes(v.class_annotations_off as int, 4) + le_bytes(v.field_annotations@.len() as int, 4), le_bytes(v.method_annotations@.len() as int, 4));
                            lemma_occurs_prefix(data@, pos as int, le_bytes(v.class_annotations_off as int, 4), le_bytes(v.field_annotations@.len() as int, 4));
                            lemma_pow256_values();
                            lemma_le_bytes_injective(n1 as int, v.field_annotations@.len() as int, 4);
                            lemma_le_bytes_injective(n2 as int, v.method_annotations@.len() as int, 4);
                            lemma_le_bytes_injective(n3 as int, v.parameter_annotations@.len() as int, 4);
                        }
                    }
                }
                return Err(e);
            },
        };
        let (method_annotations, p) = match deserialize_items::<MethodAnnotation>(
            data,
            p,
            n2 as usize,
        ) {
            Ok(r) => r,
            Err(e) => {
                proof {
                    assert forall|v: Self| v.well_formed() implies !occurs_at(
                        data@,
                        pos as int,
                        #[trigger] v.encoding(),
                    ) by {
                        if occurs_at(data@, pos as int, v.encoding()) {
                            assert(v.encoding() == le_bytes(v.class_annotations_off as int, 4) + le_bytes(v.field_annotations@.len() as int, 4) + le_bytes(v.method_annotations@.len() as int, 4) + le_bytes(v.parameter_annotations@.len() as int, 4) + encode_seq(v.field_annotations@) + encode_seq(v.method_annotations@) + encode_seq(v.parameter_annotations@));
                            lemma_occurs_prefix(data@, pos as int, le_bytes(v.class_annotations_off as int, 4) + le_bytes(v.field_annotations@.len() as int, 4) + le_bytes(v.method_annotations@.len() as int, 4) + le_bytes(v.parameter_annotations@.len() as int, 4) + encode_seq(v.field_annotations@) + encode_seq(v.method_annotations@), encode_seq(v.parameter_annotations@));
                            lemma_occurs_prefix(data@, pos as int, le_bytes(v.class_annotations_off as int, 4) + le_bytes(v.field_annotations@.len() as int, 4) + le_bytes(v.method_annotations@.len() as int, 4) + le_bytes(v.parameter_annotations@.len() as int, 4) + encode_seq(v.field_annotations@), encode_seq(v.method_annotations@));
                            lemma_occurs_prefix(data@, pos as int, le_bytes(v.class_annotations_off as int, 4) + le_bytes(v.field_annotations@.len() as int, 4) + le_bytes(v.method_annotations@.len() as int, 4) + le_bytes(v.parameter_annotations@.len() as int, 4), encode_seq(v.field_annotations@));
                            lemma_occurs_prefix(data@, pos as int, le_bytes(v.class_annotations_off as int, 4) + le_bytes(v.field_annotations@.len() as int, 4) + le_bytes(v.method_annotations@.len() as int, 4), le_bytes(v.parameter_annotations@.len() as int, 4));
                            lemma_occurs_prefix(data@, pos as int, le_bytes(v.class_annotations_off as int, 4) + le_bytes(v.field_annotations@.len() as int, 4), le_bytes(v.method_annotations@.len() as int, 4));
                            lemma_occurs_prefix(data@, pos as int, le_bytes(v.class_annotations_off as int, 4), le_bytes(v.field_annotations@.len() as int, 4));
                            lemma_pow256_values();
                            lemma_le_bytes_injective(n1 as int, v.field_annotations@.len() as int, 4);
                            lemma_le_bytes_injective(n2 as int, v.method_annotations@.len() as int, 4);
                            lemma_le_bytes_injective(n3 as int, v.parameter_annotations@.len() as int, 4);
                            lemma_encode_seq_equal(data@, pos + (le_bytes(v.class_annotations_off as int, 4) + le_bytes(v.field_annotations@.len() as int, 4) + le_bytes(v.method_annotations@.len() as int, 4) + le_bytes(v.parameter_annotations@.len() as int, 4)).len(), field_annotations@, v.field_annotations@);
                        }
                    }
                }
                return Err(e);
            },
        };
        let (parameter_annotations, p) = match deserialize_items::<ParameterAnnotation>(
            data,
            p,
            n3 as usize,
        ) {
            Ok(r) => r,
            Err(e) => {
                proof {
                    assert forall|v: Self| v.well_formed() implies !occurs_at(
                        data@,
                        pos as int,
                        #[trigger] v.encoding(),
                    ) by {
                        if occurs_at(data@, pos as int, v.encoding()) {
                            assert(v.encoding() == le_bytes(v.class_annotations_off as int, 4) + le_bytes(v.field_annotations@.len() as int, 4) + le_bytes(v.method_annotations@.len() as int, 4) + le_bytes(v.parameter_annotations@.len() as int, 4) + encode_seq(v.field_annotations@) + encode_seq(v.method_annotations@) + encode_seq(v.parameter_annotations@));
                            lemma_occurs_prefix(data@, pos as int, le_bytes(v.class_annotations_off as int, 4) + le_bytes(v.field_annotations@.len() as int, 4) + le_bytes(v.method_annotations@.len() as int, 4) + le_bytes(v.parameter_annotations@.len() as int, 4) + encode_seq(v.field_annotations@) + encode_seq(v.method_annotations@), encode_seq(v.parameter_annotations@));
                            lemma_occurs_prefix(data@, pos as int, le_bytes(v.class_annotations_off as int, 4) + le_bytes(v.field_annotations@.len() as int, 4) + le_bytes(v.method_annotations@.len() as int, 4) + le_bytes(v.parameter_annotations@.len() as int, 4) + encode_seq(v.field_annotations@), encode_seq(v.method_annotations@));
                            lemma_occurs_prefix(data@, pos as int, le_bytes(v.class_annotations_off as int, 4) + le_bytes(v.field_annotations@.len() as int, 4) + le_bytes(v.method_annotations@.len() as int, 4) + le_bytes(v.parameter_annotations@.len() as int, 4), encode_seq(v.field_annotations@));
                            lemma_occurs_prefix(data@, pos as int, le_bytes(v.class_annotations_off as int, 4) + le_bytes(v.field_annotations@.len() as int, 4) + le_bytes(v.method_annotations@.len() as int, 4), le_bytes(v.parameter_annotations@.len() as int, 4));
                            lemma_occurs_prefix(data@, pos as int, le_bytes(v.class_annotations_off as int, 4) + le_bytes(v.field_annotations@.len() as int, 4), le_bytes(v.method_annotations@.len() as int, 4));
                            lemma_occurs_prefix(data@, pos as int, le_bytes(v.class_annotations_off as int, 4), le_bytes(v.field_annotations@.len() as int, 4));
                            lemma_pow256_values();
                            lemma_le_bytes_injective(n1 as int, v.field_annotations@.len() as int, 4);
                            lemma_le_bytes_injective(n2 as int, v.method_annotations@.len() as int, 4);
                            lemma_le_bytes_injective(n3 as int, v.parameter_annotations@.len() as int, 4);
                            lemma_encode_seq_equal(data@, pos + (le_bytes(v.class_annotations_off as int, 4) + le_bytes(v.field_annotations@.len() as int, 4) + le_bytes(v.method_annotations@.len() as int, 4) + le_bytes(v.parameter_annotations@.len() as int, 4)).len(), field_annotations@, v.field_annotations@);
                            lemma_encode_seq_equal(data@, pos + (le_bytes(v.class_annotations_off as int, 4) + le_bytes(v.field_annotations@.len() as int, 4) + le_bytes(v.method_annotations@.len() as int, 4) + le_bytes(v.parameter_annotations@.len() as int, 4) + encode_seq(v.field_annotations@)).len(), method_annotations@, v.method_annotations@);
                        }
                    }
                }
                return Err(e);
            },
        };
        let v = AnnotationsDirectoryItem {
            class_annotations_off,
            field_annotations,
            method_annotations,
            parameter_annotations,
        };
        proof {
            let a = le_bytes(class_annotations_off as int, 4);
            let b = le_bytes(n1 as int, 4);
            let c = le_bytes(n2 as int, 4);
            let d = le_bytes(n3 as int, 4);
            let e = encode_seq(v.field_annotations@);
            let f = encode_seq(v.method_annotations@);
            let g = encode_seq(v.parameter_annotations@);
            lemma_occurs_concat(data@, pos as int, a, b);
            lemma_occurs_concat(data@, pos as int, a + b, c);
            lemma_occurs_concat(data@, pos as int, a + b + c, d);
            lemma_occurs_concat(data@, pos as int, a + b + c + d, e);
            lemma_occurs_concat(data@, pos as int, a + b + c + d + e, f);
            lemma_occurs_concat(data@, pos as int, a + b + c + d + e + f, g);
        }
        Ok((v, p))
    }

    fn serialize(&self, out: &mut Vec<u8>) {
        encode_u32(out, self.class_annotations_off);
        encode_u32(out, self.field_annotations.len() as u32);
        encode_u32(out, self.method_annotations.len() as u32);
        encode_u32(out, self.parameter_annotations.len() as u32);
        serialize_items(&self.field_annotations, out);
        serialize_items(&self.method_annotations, out);
        serialize_items(&self.parameter_annotations, out);
        assert(out@ =~= old(out)@ + self.encoding());
    }

    fn size(&self) -> (r: usize) {
        16 + size_items(&self.field_annotations) + size_items(&self.method_annotations)
            + size_items(&self.parameter_annotations)
    }
}

/// Hidden-API flags of the classes. The codec does not represent these sections: a file
/// that holds one is rejected as unsupported.
#[derive(Debug, PartialEq, Eq)]
pub struct HiddenapiClassDataItem {
    pub size: u32,
    pub offsets: Vec<u32>,
    pub flags: Vec<u32>,
}

} // verus!
