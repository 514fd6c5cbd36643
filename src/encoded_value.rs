//! Encoded values: a tagged sum with a packed width prefix, recursive through arrays
//! and annotations. Floating-point payloads are held as their IEEE-754 bit patterns.
use crate::decode::{
    decode_nbytes_as_f32, decode_nbytes_as_f64, decode_nbytes_signed, decode_nbytes_unsigned,
    decode_u8, decode_uleb128,
};
use crate::decode::lemma_uleb128_prefix_free;
use crate::dex_structs::{lemma_occurs_concat, lemma_occurs_prefix, DexStruct};
use crate::encode::{
    encode_nbytes, encode_nbytes_for_double, encode_nbytes_for_float, encode_signed, encode_u8,
    encode_uleb128, size_uleb128,
};
use crate::encoded_value_utils::{
    lemma_sign_extend_of_bytes,
    get_required_bytes_for_f32, get_required_bytes_for_f64, get_required_bytes_signed,
    get_required_bytes_unsigned, right_width, signed_width, unsigned_width, fits_signed,
    fits_unsigned, fits_right,
};
use crate::wire::{
    lemma_le_bytes_injective, lemma_pow256_positive, lemma_pow256_split, le_bytes, lemma_le_bytes_len, lemma_le_bytes_u8, lemma_pow256_mono, lemma_pow256_values,
    occurs_at, pow256, uleb128_bytes,
};
use crate::DeserializeError;
use vstd::arithmetic::div_mod::{lemma_fundamental_div_mod, lemma_fundamental_div_mod_converse};
use vstd::prelude::*;

verus! {

broadcast use lemma_le_bytes_len;

#[derive(Debug, PartialEq, Eq)]
pub enum EncodedValue {
    ValueByte(i8),
    ValueShort(i16),
    ValueChar(u16),
    ValueInt(i32),
    ValueLong(i64),
    /// The bit pattern of a 32-bit float.
    ValueFloat(u32),
    /// The bit pattern of a 64-bit float.
    ValueDouble(u64),
    ValueMethodType(u32),
    ValueMethodHandle(u32),
    ValueString(u32),
    ValueType(u32),
    ValueField(u32),
    ValueMethod(u32),
    ValueEnum(u32),
    ValueArray(EncodedArray),
    ValueAnnotation(EncodedAnnotation),
    ValueNull,
    ValueBoolean(bool),
}

/// A counted sequence of encoded values.
#[derive(Debug, PartialEq, Eq)]
pub struct EncodedArray {
    pub values: Vec<EncodedValue>,
}

/// An annotation: its type and its name-value pairs.
#[derive(Debug, PartialEq, Eq)]
pub struct EncodedAnnotation {
    pub type_idx: u32,
    pub elements: Vec<AnnotationElement>,
}

/// One name-value pair of an annotation.
#[derive(Debug, PartialEq, Eq)]
pub struct AnnotationElement {
    pub name_idx: u32,
    pub value: EncodedValue,
}

/// The value type tag of each variant.
pub open spec fn spec_type_code(v: EncodedValue) -> u8 {
    match v {
        EncodedValue::ValueByte(_) => 0x00,
        EncodedValue::ValueShort(_) => 0x02,
        EncodedValue::ValueChar(_) => 0x03,
        EncodedValue::ValueInt(_) => 0x04,
        EncodedValue::ValueLong(_) => 0x06,
        EncodedValue::ValueFloat(_) => 0x10,
        EncodedValue::ValueDouble(_) => 0x11,
        EncodedValue::ValueMethodType(_) => 0x15,
        EncodedValue::ValueMethodHandle(_) => 0x16,
        EncodedValue::ValueString(_) => 0x17,
        EncodedValue::ValueType(_) => 0x18,
        EncodedValue::ValueField(_) => 0x19,
        EncodedValue::ValueMethod(_) => 0x1a,
        EncodedValue::ValueEnum(_) => 0x1b,
        EncodedValue::ValueArray(_) => 0x1c,
        EncodedValue::ValueAnnotation(_) => 0x1d,
        EncodedValue::ValueNull => 0x1e,
        EncodedValue::ValueBoolean(_) => 0x1f,
    }
}

/// The header byte: the type tag in the low five bits, `arg` in the high three.
pub open spec fn header_byte(value_type: u8, arg: nat) -> Seq<u8> {
    seq![(arg * 32 + value_type) as u8]
}

/// A header byte that no encoded value starts with: an unknown type tag, or a nonzero
/// argument with a tag that admits none.
pub open spec fn malformed_header(b: u8) -> bool {
    let t = b % 32;
    let arg = b / 32;
    ||| !(t == 0x00 || t == 0x02 || t == 0x03 || t == 0x04 || t == 0x06 || t == 0x10 || t == 0x11
        || (0x15 <= t <= 0x1f))
    ||| ((t == 0x00 || t == 0x1c || t == 0x1d || t == 0x1e) && arg != 0)
}

/// A signed payload in its minimum width.
pub open spec fn signed_payload(value_type: u8, v: int) -> Seq<u8> {
    header_byte(value_type, (signed_width(v) - 1) as nat) + le_bytes(v, signed_width(v))
}

/// An unsigned payload in its minimum width.
pub open spec fn unsigned_payload(value_type: u8, v: int) -> Seq<u8> {
    header_byte(value_type, (unsigned_width(v) - 1) as nat) + le_bytes(v, unsigned_width(v))
}

/// A floating-point bit pattern of `full` bytes: its fewest high-order bytes that hold it.
pub open spec fn right_payload(value_type: u8, bits: int, full: nat) -> Seq<u8> {
    let w = right_width(bits, full);
    header_byte(value_type, (w - 1) as nat) + le_bytes(
        bits / pow256((full - w) as nat) as int,
        w,
    )
}

pub open spec fn value_encoding(v: EncodedValue) -> Seq<u8>
    decreases v, 0nat,
{
    match v {
        EncodedValue::ValueByte(x) => header_byte(0x00, 0) + le_bytes(x as int, 1),
        EncodedValue::ValueShort(x) => signed_payload(0x02, x as int),
        EncodedValue::ValueChar(x) => unsigned_payload(0x03, x as int),
        EncodedValue::ValueInt(x) => signed_payload(0x04, x as int),
        EncodedValue::ValueLong(x) => signed_payload(0x06, x as int),
        EncodedValue::ValueFloat(x) => right_payload(0x10, x as int, 4),
        EncodedValue::ValueDouble(x) => right_payload(0x11, x as int, 8),
        EncodedValue::ValueMethodType(x) => unsigned_payload(0x15, x as int),
        EncodedValue::ValueMethodHandle(x) => unsigned_payload(0x16, x as int),
        EncodedValue::ValueString(x) => unsigned_payload(0x17, x as int),
        EncodedValue::ValueType(x) => unsigned_payload(0x18, x as int),
        EncodedValue::ValueField(x) => unsigned_payload(0x19, x as int),
        EncodedValue::ValueMethod(x) => unsigned_payload(0x1a, x as int),
        EncodedValue::ValueEnum(x) => unsigned_payload(0x1b, x as int),
        EncodedValue::ValueArray(a) => header_byte(0x1c, 0) + array_encoding(a),
        EncodedValue::ValueAnnotation(a) => header_byte(0x1d, 0) + annotation_encoding(a),
        EncodedValue::ValueNull => header_byte(0x1e, 0),
        EncodedValue::ValueBoolean(b) => header_byte(
            0x1f,
            if b {
                1
            } else {
                0
            },
        ),
    }
}

pub open spec fn array_encoding(a: EncodedArray) -> Seq<u8>
    decreases a, 0nat,
{
    uleb128_bytes(a.values@.len()) + values_prefix_encoding(a.values@, a.values@.len())
}

/// The first `n` values of `s`, one after another.
pub open spec fn values_prefix_encoding(s: Seq<EncodedValue>, n: nat) -> Seq<u8>
    decreases s, n,
{
    if n == 0 || n > s.len() {
        seq![]
    } else {
        values_prefix_encoding(s, (n - 1) as nat) + value_encoding(s[n - 1])
    }
}

pub open spec fn annotation_encoding(a: EncodedAnnotation) -> Seq<u8>
    decreases a, 0nat,
{
    uleb128_bytes(a.type_idx as nat) + uleb128_bytes(a.elements@.len())
        + elements_prefix_encoding(a.elements@, a.elements@.len())
}

/// The first `n` elements of `s`, one after another.
pub open spec fn elements_prefix_encoding(s: Seq<AnnotationElement>, n: nat) -> Seq<u8>
    decreases s, n,
{
    if n == 0 || n > s.len() {
        seq![]
    } else {
        elements_prefix_encoding(s, (n - 1) as nat) + element_encoding(s[n - 1])
    }
}

pub open spec fn element_encoding(e: AnnotationElement) -> Seq<u8>
    decreases e, 0nat,
{
    uleb128_bytes(e.name_idx as nat) + value_encoding(e.value)
}

pub open spec fn value_wf(v: EncodedValue) -> bool
    decreases v, 0nat,
{
    match v {
        EncodedValue::ValueArray(a) => array_wf(a),
        EncodedValue::ValueAnnotation(a) => annotation_wf(a),
        _ => true,
    }
}

pub open spec fn array_wf(a: EncodedArray) -> bool
    decreases a, 0nat,
{
    a.values@.len() <= u32::MAX && values_prefix_wf(a.values@, a.values@.len())
}

pub open spec fn values_prefix_wf(s: Seq<EncodedValue>, n: nat) -> bool
    decreases s, n,
{
    n == 0 || n > s.len() || (values_prefix_wf(s, (n - 1) as nat) && value_wf(s[n - 1]))
}

pub open spec fn annotation_wf(a: EncodedAnnotation) -> bool
    decreases a, 0nat,
{
    a.elements@.len() <= u32::MAX && elements_prefix_wf(a.elements@, a.elements@.len())
}

pub open spec fn elements_prefix_wf(s: Seq<AnnotationElement>, n: nat) -> bool
    decreases s, n,
{
    n == 0 || n > s.len() || (elements_prefix_wf(s, (n - 1) as nat) && value_wf(s[n - 1].value))
}

proof fn lemma_values_prefix_wf(s: Seq<EncodedValue>, i: nat, n: nat)
    requires
        i < n <= s.len(),
        values_prefix_wf(s, n),
    ensures
        values_prefix_wf(s, i + 1),
        value_wf(s[i as int]),
    decreases n - i,
{
    if i + 1 < n {
        lemma_values_prefix_wf(s, i, (n - 1) as nat);
    }
}

proof fn lemma_elements_prefix_wf(s: Seq<AnnotationElement>, i: nat, n: nat)
    requires
        i < n <= s.len(),
        elements_prefix_wf(s, n),
    ensures
        elements_prefix_wf(s, i + 1),
        value_wf(s[i as int].value),
    decreases n - i,
{
    if i + 1 < n {
        lemma_elements_prefix_wf(s, i, (n - 1) as nat);
    }
}

proof fn lemma_values_prefix_len(s: Seq<EncodedValue>, i: nat, n: nat)
    requires
        i <= n <= s.len(),
    ensures
        values_prefix_encoding(s, i).len() <= values_prefix_encoding(s, n).len(),
    decreases n - i,
{
    if i < n {
        lemma_values_prefix_len(s, i, (n - 1) as nat);
    }
}

proof fn lemma_elements_prefix_len(s: Seq<AnnotationElement>, i: nat, n: nat)
    requires
        i <= n <= s.len(),
    ensures
        elements_prefix_encoding(s, i).len() <= elements_prefix_encoding(s, n).len(),
    decreases n - i,
{
    if i < n {
        lemma_elements_prefix_len(s, i, (n - 1) as nat);
    }
}

/// The header byte splits into its tag and its argument.
proof fn lemma_header(b: u8)
    ensures
        header_byte(b % 32, (b / 32) as nat) == seq![b],
        b / 32 < 8,
        le_bytes(b as int, 1) == seq![b],
{
    lemma_le_bytes_u8(b);
}

impl EncodedValue {
    pub fn get_type_code(&self) -> (r: u8)
        ensures
            r == spec_type_code(*self),
    {
        match self {
            EncodedValue::ValueByte(_) => 0x00,
            EncodedValue::ValueShort(_) => 0x02,
            EncodedValue::ValueChar(_) => 0x03,
            EncodedValue::ValueInt(_) => 0x04,
            EncodedValue::ValueLong(_) => 0x06,
            EncodedValue::ValueFloat(_) => 0x10,
            EncodedValue::ValueDouble(_) => 0x11,
            EncodedValue::ValueMethodType(_) => 0x15,
            EncodedValue::ValueMethodHandle(_) => 0x16,
            EncodedValue::ValueString(_) => 0x17,
            EncodedValue::ValueType(_) => 0x18,
            EncodedValue::ValueField(_) => 0x19,
            EncodedValue::ValueMethod(_) => 0x1a,
            EncodedValue::ValueEnum(_) => 0x1b,
            EncodedValue::ValueArray(_) => 0x1c,
            EncodedValue::ValueAnnotation(_) => 0x1d,
            EncodedValue::ValueNull => 0x1e,
            EncodedValue::ValueBoolean(_) => 0x1f,
        }
    }

    /// Writes a signed payload in its minimum width.
    pub fn serialize_value_signed(&self, out: &mut Vec<u8>, v: i64)
        ensures
            final(out)@ == old(out)@ + signed_payload(spec_type_code(*self), v as int),
    {
        let rb = get_required_bytes_signed(v);
        let header = (rb - 1) * 32 + self.get_type_code();
        encode_u8(out, header);
        encode_signed(out, rb, v);
        proof {
            lemma_le_bytes_u8(header);
        }
        assert(out@ =~= old(out)@ + signed_payload(spec_type_code(*self), v as int));
    }

    /// Writes an unsigned payload in its minimum width.
    pub fn serialize_value_unsigned(&self, out: &mut Vec<u8>, v: u64)
        ensures
            final(out)@ == old(out)@ + unsigned_payload(spec_type_code(*self), v as int),
    {
        let rb = get_required_bytes_unsigned(v);
        let header = (rb - 1) * 32 + self.get_type_code();
        encode_u8(out, header);
        encode_nbytes(out, rb, v);
        proof {
            lemma_le_bytes_u8(header);
        }
        assert(out@ =~= old(out)@ + unsigned_payload(spec_type_code(*self), v as int));
    }
}

pub fn serialize_value(v: &EncodedValue, out: &mut Vec<u8>)
    requires
        value_wf(*v),
    ensures
        final(out)@ == old(out)@ + value_encoding(*v),
    decreases v, 0nat,
{
    proof {
        lemma_pow256_values();
    }
    match v {
        EncodedValue::ValueByte(x) => {
            v.serialize_value_signed(out, *x as i64);
            assert(out@ =~= old(out)@ + value_encoding(*v));
        },
        EncodedValue::ValueShort(x) => {
            v.serialize_value_signed(out, *x as i64);
            assert(out@ =~= old(out)@ + value_encoding(*v));
        },
        EncodedValue::ValueChar(x) => {
            v.serialize_value_unsigned(out, *x as u64);
            assert(out@ =~= old(out)@ + value_encoding(*v));
        },
        EncodedValue::ValueInt(x) => {
            v.serialize_value_signed(out, *x as i64);
            assert(out@ =~= old(out)@ + value_encoding(*v));
        },
        EncodedValue::ValueLong(x) => {
            v.serialize_value_signed(out, *x);
            assert(out@ =~= old(out)@ + value_encoding(*v));
        },
        EncodedValue::ValueFloat(x) => {
            let rb = get_required_bytes_for_f32(*x);
            let header = (rb - 1) * 32 + 0x10;
            encode_u8(out, header);
            encode_nbytes_for_float(out, rb, *x);
            proof {
                lemma_le_bytes_u8(header);
            }
            assert(out@ =~= old(out)@ + value_encoding(*v));
        },
        EncodedValue::ValueDouble(x) => {
            let rb = get_required_bytes_for_f64(*x);
            let header = (rb - 1) * 32 + 0x11;
            encode_u8(out, header);
            encode_nbytes_for_double(out, rb, *x);
            proof {
                lemma_le_bytes_u8(header);
            }
            assert(out@ =~= old(out)@ + value_encoding(*v));
        },
        EncodedValue::ValueMethodType(x) => {
            v.serialize_value_unsigned(out, *x as u64);
            assert(out@ =~= old(out)@ + value_encoding(*v));
        },
        EncodedValue::ValueMethodHandle(x) => {
            v.serialize_value_unsigned(out, *x as u64);
            assert(out@ =~= old(out)@ + value_encoding(*v));
        },
        EncodedValue::ValueString(x) => {
            v.serialize_value_unsigned(out, *x as u64);
            assert(out@ =~= old(out)@ + value_encoding(*v));
        },
        EncodedValue::ValueType(x) => {
            v.serialize_value_unsigned(out, *x as u64);
            assert(out@ =~= old(out)@ + value_encoding(*v));
        },
        EncodedValue::ValueField(x) => {
            v.serialize_value_unsigned(out, *x as u64);
            assert(out@ =~= old(out)@ + value_encoding(*v));
        },
        EncodedValue::ValueMethod(x) => {
            v.serialize_value_unsigned(out, *x as u64);
            assert(out@ =~= old(out)@ + value_encoding(*v));
        },
        EncodedValue::ValueEnum(x) => {
            v.serialize_value_unsigned(out, *x as u64);
            assert(out@ =~= old(out)@ + value_encoding(*v));
        },
        EncodedValue::ValueArray(a) => {
            encode_u8(out, 0x1c);
            serialize_array(a, out);
            proof {
                lemma_le_bytes_u8(0x1c);
            }
            assert(out@ =~= old(out)@ + value_encoding(*v));
        },
        EncodedValue::ValueAnnotation(a) => {
            encode_u8(out, 0x1d);
            serialize_annotation(a, out);
            proof {
                lemma_le_bytes_u8(0x1d);
            }
            assert(out@ =~= old(out)@ + value_encoding(*v));
        },
        EncodedValue::ValueNull => {
            encode_u8(out, 0x1e);
            proof {
                lemma_le_bytes_u8(0x1e);
            }
            assert(out@ =~= old(out)@ + value_encoding(*v));
        },
        EncodedValue::ValueBoolean(b) => {
            let arg: u8 = if *b {
                1
            } else {
                0
            };
            let header = arg * 32 + 0x1f;
            encode_u8(out, header);
            proof {
                lemma_le_bytes_u8(header);
            }
            assert(out@ =~= old(out)@ + value_encoding(*v));
        },
    }
}

pub fn serialize_array(a: &EncodedArray, out: &mut Vec<u8>)
    requires
        array_wf(*a),
    ensures
        final(out)@ == old(out)@ + array_encoding(*a),
    decreases a, 0nat,
{
    encode_uleb128(out, a.values.len() as u32);
    let ghost start = out@;
    let mut i: usize = 0;
    while i < a.values.len()
        invariant
            i <= a.values@.len(),
            array_wf(*a),
            out@ == start + values_prefix_encoding(a.values@, i as nat),
        decreases a.values@.len() - i,
    {
        proof {
            lemma_values_prefix_wf(a.values@, i as nat, a.values@.len());
        }
        serialize_value(&a.values[i], out);
        assert(out@ =~= start + values_prefix_encoding(a.values@, (i + 1) as nat));
        i = i + 1;
    }
    assert(out@ =~= old(out)@ + array_encoding(*a));
}

pub fn serialize_annotation(a: &EncodedAnnotation, out: &mut Vec<u8>)
    requires
        annotation_wf(*a),
    ensures
        final(out)@ == old(out)@ + annotation_encoding(*a),
    decreases a, 0nat,
{
    encode_uleb128(out, a.type_idx);
    encode_uleb128(out, a.elements.len() as u32);
    let ghost start = out@;
    let mut i: usize = 0;
    while i < a.elements.len()
        invariant
            i <= a.elements@.len(),
            annotation_wf(*a),
            out@ == start + elements_prefix_encoding(a.elements@, i as nat),
        decreases a.elements@.len() - i,
    {
        proof {
            lemma_elements_prefix_wf(a.elements@, i as nat, a.elements@.len());
        }
        serialize_element(&a.elements[i], out);
        assert(out@ =~= start + elements_prefix_encoding(a.elements@, (i + 1) as nat));
        i = i + 1;
    }
    assert(out@ =~= old(out)@ + annotation_encoding(*a));
}

pub fn serialize_element(e: &AnnotationElement, out: &mut Vec<u8>)
    requires
        value_wf(e.value),
    ensures
        final(out)@ == old(out)@ + element_encoding(*e),
    decreases e, 0nat,
{
    encode_uleb128(out, e.name_idx);
    serialize_value(&e.value, out);
    assert(out@ =~= old(out)@ + element_encoding(*e));
}

proof fn lemma_values_prefix_push(s: Seq<EncodedValue>, x: EncodedValue, n: nat)
    requires
        n <= s.len(),
    ensures
        values_prefix_encoding(s.push(x), n) == values_prefix_encoding(s, n),
        values_prefix_wf(s.push(x), n) == values_prefix_wf(s, n),
    decreases n,
{
    if n > 0 {
        lemma_values_prefix_push(s, x, (n - 1) as nat);
        assert(s.push(x)[n - 1] == s[n - 1]);
    }
}

proof fn lemma_elements_prefix_push(s: Seq<AnnotationElement>, x: AnnotationElement, n: nat)
    requires
        n <= s.len(),
    ensures
        elements_prefix_encoding(s.push(x), n) == elements_prefix_encoding(s, n),
        elements_prefix_wf(s.push(x), n) == elements_prefix_wf(s, n),
    decreases n,
{
    if n > 0 {
        lemma_elements_prefix_push(s, x, (n - 1) as nat);
        assert(s.push(x)[n - 1] == s[n - 1]);
    }
}

pub fn size_value(v: &EncodedValue) -> (r: usize)
    requires
        value_wf(*v),
        value_encoding(*v).len() <= usize::MAX,
    ensures
        r == value_encoding(*v).len(),
    decreases v, 0nat,
{
    proof {
        lemma_pow256_values();
    }
    match v {
        EncodedValue::ValueNull | EncodedValue::ValueBoolean(_) => 1,
        EncodedValue::ValueByte(_) => 2,
        EncodedValue::ValueArray(a) => 1 + size_array(a),
        EncodedValue::ValueAnnotation(a) => 1 + size_annotation(a),
        EncodedValue::ValueShort(x) => 1 + get_required_bytes_signed(*x as i64) as usize,
        EncodedValue::ValueChar(x) => 1 + get_required_bytes_unsigned(*x as u64) as usize,
        EncodedValue::ValueInt(x) => 1 + get_required_bytes_signed(*x as i64) as usize,
        EncodedValue::ValueLong(x) => 1 + get_required_bytes_signed(*x) as usize,
        EncodedValue::ValueFloat(x) => 1 + get_required_bytes_for_f32(*x) as usize,
        EncodedValue::ValueDouble(x) => 1 + get_required_bytes_for_f64(*x) as usize,
        EncodedValue::ValueMethodType(x) => 1 + get_required_bytes_unsigned(*x as u64) as usize,
        EncodedValue::ValueMethodHandle(x) => 1 + get_required_bytes_unsigned(*x as u64) as usize,
        EncodedValue::ValueString(x) => 1 + get_required_bytes_unsigned(*x as u64) as usize,
        EncodedValue::ValueType(x) => 1 + get_required_bytes_unsigned(*x as u64) as usize,
        EncodedValue::ValueField(x) => 1 + get_required_bytes_unsigned(*x as u64) as usize,
        EncodedValue::ValueMethod(x) => 1 + get_required_bytes_unsigned(*x as u64) as usize,
        EncodedValue::ValueEnum(x) => 1 + get_required_bytes_unsigned(*x as u64) as usize,
    }
}

pub fn size_array(a: &EncodedArray) -> (r: usize)
    requires
        array_wf(*a),
        array_encoding(*a).len() <= usize::MAX,
    ensures
        r == array_encoding(*a).len(),
    decreases a, 0nat,
{
    let mut total = size_uleb128(a.values.len() as u32);
    let mut i: usize = 0;
    while i < a.values.len()
        invariant
            i <= a.values@.len(),
            array_wf(*a),
            array_encoding(*a).len() <= usize::MAX,
            total == uleb128_bytes(a.values@.len()).len() + values_prefix_encoding(
                a.values@,
                i as nat,
            ).len(),
        decreases a.values@.len() - i,
    {
        proof {
            lemma_values_prefix_wf(a.values@, i as nat, a.values@.len());
            lemma_values_prefix_len(a.values@, (i + 1) as nat, a.values@.len());
        }
        total = total + size_value(&a.values[i]);
        i = i + 1;
    }
    total
}

pub fn size_annotation(a: &EncodedAnnotation) -> (r: usize)
    requires
        annotation_wf(*a),
        annotation_encoding(*a).len() <= usize::MAX,
    ensures
        r == annotation_encoding(*a).len(),
    decreases a, 0nat,
{
    let mut total = size_uleb128(a.type_idx) + size_uleb128(a.elements.len() as u32);
    let mut i: usize = 0;
    while i < a.elements.len()
        invariant
            i <= a.elements@.len(),
            annotation_wf(*a),
            annotation_encoding(*a).len() <= usize::MAX,
            total == uleb128_bytes(a.type_idx as nat).len() + uleb128_bytes(
                a.elements@.len(),
            ).len() + elements_prefix_encoding(a.elements@, i as nat).len(),
        decreases a.elements@.len() - i,
    {
        proof {
            lemma_elements_prefix_wf(a.elements@, i as nat, a.elements@.len());
            lemma_elements_prefix_len(a.elements@, (i + 1) as nat, a.elements@.len());
        }
        total = total + size_element(&a.elements[i]);
        i = i + 1;
    }
    total
}

pub fn size_element(e: &AnnotationElement) -> (r: usize)
    requires
        value_wf(e.value),
        element_encoding(*e).len() <= usize::MAX,
    ensures
        r == element_encoding(*e).len(),
    decreases e, 0nat,
{
    size_uleb128(e.name_idx) + size_value(&e.value)
}

/// A value found after its header byte.
proof fn lemma_value_at(data: Seq<u8>, pos: int, b: u8, payload: Seq<u8>)
    requires
        occurs_at(data, pos, le_bytes(b as int, 1)),
        occurs_at(data, pos + 1, payload),
    ensures
        occurs_at(data, pos, header_byte(b % 32, (b / 32) as nat) + payload),
{
    lemma_header(b);
    lemma_occurs_concat(data, pos, seq![b], payload);
}

/// A value that fits in `k` bytes needs at most `k`.
proof fn lemma_signed_width_at_most(v: int, k: nat)
    requires
        1 <= k <= 8,
        fits_signed(v, k),
    ensures
        signed_width(v) <= k,
{
    lemma_pow256_values();
}

proof fn lemma_unsigned_width_at_most(v: int, k: nat)
    requires
        1 <= k <= 8,
        fits_unsigned(v, k),
    ensures
        unsigned_width(v) <= k,
{
    lemma_pow256_values();
}

/// A value fits in the width chosen for it, when it fits in eight bytes at all.
proof fn lemma_signed_width_fits(v: int)
    requires
        fits_signed(v, 8),
    ensures
        fits_signed(v, signed_width(v)),
{
}

proof fn lemma_unsigned_width_fits(v: int)
    requires
        fits_unsigned(v, 8),
    ensures
        fits_unsigned(v, unsigned_width(v)),
{
}

/// A value found at `pos` whose header byte is `b` has the tag and argument that `b` holds.
proof fn lemma_value_at_header(data: Seq<u8>, pos: int, b: u8, v: EncodedValue)
    requires
        occurs_at(data, pos, le_bytes(b as int, 1)),
        occurs_at(data, pos, value_encoding(v)),
    ensures
        spec_type_code(v) == b % 32,
        value_arg(v) == b / 32,
{
    lemma_value_header(v);
    lemma_header(b);
    let e = value_encoding(v);
    assert(e[0] == data.subrange(pos, pos + e.len())[0]);
    assert(seq![b][0] == data.subrange(pos, pos + 1)[0]);
    lemma_header_unique(spec_type_code(v), value_arg(v), b % 32, (b / 32) as nat);
}

/// Two bit patterns of `full` bytes whose low `full - w` bytes are zero and whose high
/// `w` bytes agree are equal.
proof fn lemma_right_bytes_injective(x: int, y: int, w: nat, full: nat)
    requires
        1 <= w <= full <= 8,
        0 <= x < pow256(full),
        0 <= y < pow256(full),
        x % (pow256((full - w) as nat) as int) == 0,
        right_width(y, full) == w,
        le_bytes(x / (pow256((full - w) as nat) as int), w) == le_bytes(
            y / (pow256((full - w) as nat) as int),
            w,
        ),
    ensures
        x == y,
{
    let q = pow256((full - w) as nat) as int;
    lemma_pow256_positive((full - w) as nat);
    lemma_pow256_split(w, (full - w) as nat);
    assert(fits_right(y, w, full));
    lemma_fundamental_div_mod(x, q);
    lemma_fundamental_div_mod(y, q);
    assert(0 <= x / q < pow256(w)) by (nonlinear_arith)
        requires
            x == q * (x / q),
            0 <= x < pow256(w) * q,
            q >= 1,
    ;
    assert(0 <= y / q < pow256(w)) by (nonlinear_arith)
        requires
            y == q * (y / q),
            0 <= y < pow256(w) * q,
            q >= 1,
    ;
    lemma_le_bytes_injective(x / q, y / q, w);
}

/// Reads a signed payload of `w` bytes that must be the minimum width of its value and
/// no wider than `max` bytes.
fn read_signed(data: &[u8], pos: usize, w: usize, max: usize) -> (res: Result<
    (i64, usize),
    DeserializeError,
>)
    requires
        1 <= w <= 8,
        1 <= max <= 8,
    ensures
        res matches Ok((x, end)) ==> w <= max && signed_width(x as int) == w && fits_signed(
            x as int,
            max as nat,
        ) && end == pos + w && occurs_at(data@, pos as int, le_bytes(x as int, w as nat)),
        res is Err ==> forall|y: int|
            fits_signed(y, max as nat) && signed_width(y) == w ==> !occurs_at(
                data@,
                pos as int,
                #[trigger] le_bytes(y, w as nat),
            ),
{
    proof {
        lemma_pow256_values();
    }
    if w > max {
        assert forall|y: int| fits_signed(y, max as nat) && signed_width(y) == w implies !occurs_at(
            data@,
            pos as int,
            #[trigger] le_bytes(y, w as nat),
        ) by {
            lemma_signed_width_at_most(y, max as nat);
        }
        return Err(DeserializeError::FormatError);
    }
    let (x, end) = match decode_nbytes_signed(data, pos, w) {
        Ok(r) => r,
        Err(e) => return Err(e),
    };
    if get_required_bytes_signed(x) as usize != w {
        assert forall|y: int| fits_signed(y, max as nat) && signed_width(y) == w implies !occurs_at(
            data@,
            pos as int,
            #[trigger] le_bytes(y, w as nat),
        ) by {
            if occurs_at(data@, pos as int, le_bytes(y, w as nat)) {
                lemma_signed_width_fits(y);
                lemma_sign_extend_of_bytes(y, w as nat);
                lemma_sign_extend_of_bytes(x as int, w as nat);
                assert(le_bytes(y, w as nat) == le_bytes(x as int, w as nat));
            }
        }
        return Err(DeserializeError::FormatError);
    }
    proof {
        lemma_pow256_mono(w as nat, max as nat);
    }
    Ok((x, end))
}

/// Reads an unsigned payload of `w` bytes that must be the minimum width of its value and
/// no wider than `max` bytes.
fn read_unsigned(data: &[u8], pos: usize, w: usize, max: usize) -> (res: Result<
    (u64, usize),
    DeserializeError,
>)
    requires
        1 <= w <= 8,
        1 <= max <= 8,
    ensures
        res matches Ok((x, end)) ==> w <= max && unsigned_width(x as int) == w && fits_unsigned(
            x as int,
            max as nat,
        ) && end == pos + w && occurs_at(data@, pos as int, le_bytes(x as int, w as nat)),
        res is Err ==> forall|y: int|
            fits_unsigned(y, max as nat) && unsigned_width(y) == w ==> !occurs_at(
                data@,
                pos as int,
                #[trigger] le_bytes(y, w as nat),
            ),
{
    proof {
        lemma_pow256_values();
    }
    if w > max {
        assert forall|y: int| fits_unsigned(y, max as nat) && unsigned_width(y) == w implies !occurs_at(
            data@,
            pos as int,
            #[trigger] le_bytes(y, w as nat),
        ) by {
            lemma_unsigned_width_at_most(y, max as nat);
        }
        return Err(DeserializeError::FormatError);
    }
    let (x, end) = match decode_nbytes_unsigned(data, pos, w) {
        Ok(r) => r,
        Err(e) => return Err(e),
    };
    if get_required_bytes_unsigned(x) as usize != w {
        assert forall|y: int| fits_unsigned(y, max as nat) && unsigned_width(y) == w implies !occurs_at(
            data@,
            pos as int,
            #[trigger] le_bytes(y, w as nat),
        ) by {
            if occurs_at(data@, pos as int, le_bytes(y, w as nat)) {
                lemma_unsigned_width_fits(y);
                assert(le_bytes(y, w as nat) == le_bytes(x as int, w as nat));
                lemma_le_bytes_injective(y, x as int, w as nat);
            }
        }
        return Err(DeserializeError::FormatError);
    }
    proof {
        lemma_pow256_mono(w as nat, max as nat);
    }
    Ok((x, end))
}

/// Reads an index payload (method type, method handle, string, type, field, method, enum).
fn read_index(data: &[u8], pos: usize, w: usize) -> (res: Result<(u32, usize), DeserializeError>)
    requires
        1 <= w <= 8,
    ensures
        res matches Ok((x, end)) ==> unsigned_width(x as int) == w && end == pos + w
            && occurs_at(data@, pos as int, le_bytes(x as int, w as nat)),
        res is Err ==> forall|y: u32|
            unsigned_width(y as int) == w ==> !occurs_at(
                data@,
                pos as int,
                #[trigger] le_bytes(y as int, w as nat),
            ),
{
    proof {
        lemma_pow256_values();
    }
    match read_unsigned(data, pos, w, 4) {
        Ok((x, end)) => Ok((x as u32, end)),
        Err(e) => Err(e),
    }
}

#[verifier::rlimit(100)]
pub fn deserialize_value(data: &[u8], pos: usize) -> (res: Result<
    (EncodedValue, usize),
    DeserializeError,
>)
    ensures
        res matches Ok((v, end)) ==> value_wf(v) && end == pos + value_encoding(v).len()
            && occurs_at(data@, pos as int, value_encoding(v)),
        res is Err ==> forall|v: EncodedValue|
            value_wf(v) ==> !occurs_at(data@, pos as int, #[trigger] value_encoding(v)),
        pos < data@.len() && malformed_header(data@[pos as int]) ==> res == Err::<
            (EncodedValue, usize),
            DeserializeError,
        >(DeserializeError::FormatError),
    decreases data@.len() - pos,
{
    let (b, p) = match decode_u8(data, pos) {
        Ok(r) => r,
        Err(e) => {
            assert forall|v: EncodedValue| value_wf(v) implies !occurs_at(
                data@,
                pos as int,
                #[trigger] value_encoding(v),
            ) by {
                lemma_value_header(v);
            }
            return Err(e);
        },
    };
    proof {
        lemma_header(b);
        lemma_pow256_values();
        assert(data@.subrange(pos as int, pos + 1)[0] == b);
    }
    let value_arg = b / 32;
    let value_type = b % 32;
    let w = value_arg as usize + 1;
    match value_type {
        0x00 => {
            if value_arg != 0 {
                assert forall|v: EncodedValue| value_wf(v) implies !occurs_at(
                    data@,
                    pos as int,
                    #[trigger] value_encoding(v),
                ) by {
                    if occurs_at(data@, pos as int, value_encoding(v)) {
                        lemma_value_at_header(data@, pos as int, b, v);

                    }
                }
                return Err(DeserializeError::FormatError);
            }
            let (x, end) = match crate::decode::decode_i8(data, p) {
                Ok(r) => r,
                Err(e) => {
                    assert forall|v: EncodedValue| value_wf(v) implies !occurs_at(
                        data@,
                        pos as int,
                        #[trigger] value_encoding(v),
                    ) by {
                        if occurs_at(data@, pos as int, value_encoding(v)) {
                            lemma_value_at_header(data@, pos as int, b, v);

                        }
                    }
                    return Err(e);
                },
            };
            proof {
                lemma_value_at(data@, pos as int, b, le_bytes(x as int, 1));
            }
            Ok((EncodedValue::ValueByte(x), end))
        },
        0x02 | 0x04 | 0x06 => {
            let max: usize = if value_type == 0x02 {
                2
            } else if value_type == 0x04 {
                4
            } else {
                8
            };
            let (x, end) = match read_signed(data, p, w, max) {
                Ok(r) => r,
                Err(e) => {
                    assert forall|v: EncodedValue| value_wf(v) implies !occurs_at(
                        data@,
                        pos as int,
                        #[trigger] value_encoding(v),
                    ) by {
                        if occurs_at(data@, pos as int, value_encoding(v)) {
                            lemma_value_at_header(data@, pos as int, b, v);
                            let y: int = match v {
                                EncodedValue::ValueShort(x) => x as int,
                                EncodedValue::ValueInt(x) => x as int,
                                EncodedValue::ValueLong(x) => x as int,
                                _ => 0,
                            };
                            lemma_occurs_prefix(data@, pos as int, header_byte(value_type, (signed_width(y) - 1) as nat), le_bytes(y, signed_width(y)));
                            assert(le_bytes(y, w as nat) == le_bytes(y, signed_width(y)));
                        }
                    }
                    return Err(e);
                },
            };
            proof {
                lemma_value_at(data@, pos as int, b, le_bytes(x as int, w as nat));
            }
            let v = if value_type == 0x02 {
                EncodedValue::ValueShort(x as i16)
            } else if value_type == 0x04 {
                EncodedValue::ValueInt(x as i32)
            } else {
                EncodedValue::ValueLong(x)
            };
            Ok((v, end))
        },
        0x03 => {
            let (x, end) = match read_unsigned(data, p, w, 2) {
                Ok(r) => r,
                Err(e) => {
                    assert forall|v: EncodedValue| value_wf(v) implies !occurs_at(
                        data@,
                        pos as int,
                        #[trigger] value_encoding(v),
                    ) by {
                        if occurs_at(data@, pos as int, value_encoding(v)) {
                            lemma_value_at_header(data@, pos as int, b, v);
                            let y = v->ValueChar_0 as int;
                            lemma_occurs_prefix(data@, pos as int, header_byte(0x03, (unsigned_width(y) - 1) as nat), le_bytes(y, unsigned_width(y)));
                        }
                    }
                    return Err(e);
                },
            };
            proof {
                lemma_value_at(data@, pos as int, b, le_bytes(x as int, w as nat));
            }
            Ok((EncodedValue::ValueChar(x as u16), end))
        },
        0x10 => {
            if w > 4 {
                assert forall|v: EncodedValue| value_wf(v) implies !occurs_at(
                    data@,
                    pos as int,
                    #[trigger] value_encoding(v),
                ) by {
                    if occurs_at(data@, pos as int, value_encoding(v)) {
                        lemma_value_at_header(data@, pos as int, b, v);

                    }
                }
                return Err(DeserializeError::FormatError);
            }
            let (x, end) = match decode_nbytes_as_f32(data, p, w) {
                Ok(r) => r,
                Err(e) => {
                    assert forall|v: EncodedValue| value_wf(v) implies !occurs_at(
                        data@,
                        pos as int,
                        #[trigger] value_encoding(v),
                    ) by {
                        if occurs_at(data@, pos as int, value_encoding(v)) {
                            lemma_value_at_header(data@, pos as int, b, v);

                        }
                    }
                    return Err(e);
                },
            };
            if get_required_bytes_for_f32(x) as usize != w {
                assert forall|v: EncodedValue| value_wf(v) implies !occurs_at(
                    data@,
                    pos as int,
                    #[trigger] value_encoding(v),
                ) by {
                    if occurs_at(data@, pos as int, value_encoding(v)) {
                        lemma_value_at_header(data@, pos as int, b, v);
                        let y = v->ValueFloat_0 as int;
                        let q = pow256((4 - w) as nat);
                        lemma_occurs_prefix(data@, pos as int, header_byte(0x10, (w - 1) as nat), le_bytes(y / q as int, w as nat));
                        lemma_right_bytes_injective(x as int, y, w as nat, 4);
                    }
                }
                return Err(DeserializeError::FormatError);
            }
            proof {
                lemma_value_at(
                    data@,
                    pos as int,
                    b,
                    le_bytes(x as int / pow256((4 - w) as nat) as int, w as nat),
                );
            }
            Ok((EncodedValue::ValueFloat(x), end))
        },
        0x11 => {
            let (x, end) = match decode_nbytes_as_f64(data, p, w) {
                Ok(r) => r,
                Err(e) => {
                    assert forall|v: EncodedValue| value_wf(v) implies !occurs_at(
                        data@,
                        pos as int,
                        #[trigger] value_encoding(v),
                    ) by {
                        if occurs_at(data@, pos as int, value_encoding(v)) {
                            lemma_value_at_header(data@, pos as int, b, v);

                        }
                    }
                    return Err(e);
                },
            };
            if get_required_bytes_for_f64(x) as usize != w {
                assert forall|v: EncodedValue| value_wf(v) implies !occurs_at(
                    data@,
                    pos as int,
                    #[trigger] value_encoding(v),
                ) by {
                    if occurs_at(data@, pos as int, value_encoding(v)) {
                        lemma_value_at_header(data@, pos as int, b, v);
                        let y = v->ValueDouble_0 as int;
                        let q = pow256((8 - w) as nat);
                        lemma_occurs_prefix(data@, pos as int, header_byte(0x11, (w - 1) as nat), le_bytes(y / q as int, w as nat));
                        lemma_right_bytes_injective(x as int, y, w as nat, 8);
                    }
                }
                return Err(DeserializeError::FormatError);
            }
            proof {
                lemma_value_at(
                    data@,
                    pos as int,
                    b,
                    le_bytes(x as int / pow256((8 - w) as nat) as int, w as nat),
                );
            }
            Ok((EncodedValue::ValueDouble(x), end))
        },
        0x15..=0x1b => {
            let (x, end) = match read_index(data, p, w) {
                Ok(r) => r,
                Err(e) => {
                    assert forall|v: EncodedValue| value_wf(v) implies !occurs_at(
                        data@,
                        pos as int,
                        #[trigger] value_encoding(v),
                    ) by {
                        if occurs_at(data@, pos as int, value_encoding(v)) {
                            lemma_value_at_header(data@, pos as int, b, v);
                            let y: u32 = match v {
                                EncodedValue::ValueMethodType(x) => x,
                                EncodedValue::ValueMethodHandle(x) => x,
                                EncodedValue::ValueString(x) => x,
                                EncodedValue::ValueType(x) => x,
                                EncodedValue::ValueField(x) => x,
                                EncodedValue::ValueMethod(x) => x,
                                EncodedValue::ValueEnum(x) => x,
                                _ => 0,
                            };
                            lemma_occurs_prefix(data@, pos as int, header_byte(value_type, (unsigned_width(y as int) - 1) as nat), le_bytes(y as int, unsigned_width(y as int)));
                        }
                    }
                    return Err(e);
                },
            };
            proof {
                lemma_value_at(data@, pos as int, b, le_bytes(x as int, w as nat));
            }
            let v = if value_type == 0x15 {
                EncodedValue::ValueMethodType(x)
            } else if value_type == 0x16 {
                EncodedValue::ValueMethodHandle(x)
            } else if value_type == 0x17 {
                EncodedValue::ValueString(x)
            } else if value_type == 0x18 {
                EncodedValue::ValueType(x)
            } else if value_type == 0x19 {
                EncodedValue::ValueField(x)
            } else if value_type == 0x1a {
                EncodedValue::ValueMethod(x)
            } else {
                EncodedValue::ValueEnum(x)
            };
            Ok((v, end))
        },
        0x1c => {
            if value_arg != 0 {
                assert forall|v: EncodedValue| value_wf(v) implies !occurs_at(
                    data@,
                    pos as int,
                    #[trigger] value_encoding(v),
                ) by {
                    if occurs_at(data@, pos as int, value_encoding(v)) {
                        lemma_value_at_header(data@, pos as int, b, v);

                    }
                }
                return Err(DeserializeError::FormatError);
            }
            let (a, end) = match deserialize_array(data, p) {
                Ok(r) => r,
                Err(e) => {
                    assert forall|v: EncodedValue| value_wf(v) implies !occurs_at(
                        data@,
                        pos as int,
                        #[trigger] value_encoding(v),
                    ) by {
                        if occurs_at(data@, pos as int, value_encoding(v)) {
                            lemma_value_at_header(data@, pos as int, b, v);
                            lemma_occurs_prefix(data@, pos as int, header_byte(0x1c, 0), array_encoding(v->ValueArray_0));
                        }
                    }
                    return Err(e);
                },
            };
            proof {
                lemma_value_at(data@, pos as int, b, array_encoding(a));
            }
            Ok((EncodedValue::ValueArray(a), end))
        },
        0x1d => {
            if value_arg != 0 {
                assert forall|v: EncodedValue| value_wf(v) implies !occurs_at(
                    data@,
                    pos as int,
                    #[trigger] value_encoding(v),
                ) by {
                    if occurs_at(data@, pos as int, value_encoding(v)) {
                        lemma_value_at_header(data@, pos as int, b, v);

                    }
                }
                return Err(DeserializeError::FormatError);
            }
            let (a, end) = match deserialize_annotation(data, p) {
                Ok(r) => r,
                Err(e) => {
                    assert forall|v: EncodedValue| value_wf(v) implies !occurs_at(
                        data@,
                        pos as int,
                        #[trigger] value_encoding(v),
                    ) by {
                        if occurs_at(data@, pos as int, value_encoding(v)) {
                            lemma_value_at_header(data@, pos as int, b, v);
                            lemma_occurs_prefix(data@, pos as int, header_byte(0x1d, 0), annotation_encoding(v->ValueAnnotation_0));
                        }
                    }
                    return Err(e);
                },
            };
            proof {
                lemma_value_at(data@, pos as int, b, annotation_encoding(a));
            }
            Ok((EncodedValue::ValueAnnotation(a), end))
        },
        0x1e => {
            if value_arg != 0 {
                assert forall|v: EncodedValue| value_wf(v) implies !occurs_at(
                    data@,
                    pos as int,
                    #[trigger] value_encoding(v),
                ) by {
                    if occurs_at(data@, pos as int, value_encoding(v)) {
                        lemma_value_at_header(data@, pos as int, b, v);

                    }
                }
                return Err(DeserializeError::FormatError);
            }
            proof {
                lemma_le_bytes_u8(b);
            }
            Ok((EncodedValue::ValueNull, p))
        },
        0x1f => {
            if value_arg > 1 {
                assert forall|v: EncodedValue| value_wf(v) implies !occurs_at(
                    data@,
                    pos as int,
                    #[trigger] value_encoding(v),
                ) by {
                    if occurs_at(data@, pos as int, value_encoding(v)) {
                        lemma_value_at_header(data@, pos as int, b, v);

                    }
                }
                return Err(DeserializeError::FormatError);
            }
            proof {
                lemma_le_bytes_u8(b);
            }
            Ok((EncodedValue::ValueBoolean(value_arg != 0), p))
        },
        _ => {
            assert forall|v: EncodedValue| value_wf(v) implies !occurs_at(
                data@,
                pos as int,
                #[trigger] value_encoding(v),
            ) by {
                if occurs_at(data@, pos as int, value_encoding(v)) {
                    lemma_value_at_header(data@, pos as int, b, v);

                }
            }
            Err(DeserializeError::FormatError)
        },
    }
}

/// Where the first `n` values of `s` occur, so do the first `i`.
proof fn lemma_values_prefix_occurs(data: Seq<u8>, pos: int, s: Seq<EncodedValue>, i: nat, n: nat)
    requires
        i <= n <= s.len(),
        occurs_at(data, pos, values_prefix_encoding(s, n)),
    ensures
        occurs_at(data, pos, values_prefix_encoding(s, i)),
    decreases n - i,
{
    if i < n {
        lemma_occurs_prefix(data, pos, values_prefix_encoding(s, (n - 1) as nat), value_encoding(s[n - 1]));
        lemma_values_prefix_occurs(data, pos, s, i, (n - 1) as nat);
    }
}

/// Where the first `n` elements of `s` occur, so do the first `i`.
proof fn lemma_elements_prefix_occurs(data: Seq<u8>, pos: int, s: Seq<AnnotationElement>, i: nat, n: nat)
    requires
        i <= n <= s.len(),
        occurs_at(data, pos, elements_prefix_encoding(s, n)),
    ensures
        occurs_at(data, pos, elements_prefix_encoding(s, i)),
    decreases n - i,
{
    if i < n {
        lemma_occurs_prefix(data, pos, elements_prefix_encoding(s, (n - 1) as nat), element_encoding(s[n - 1]));
        lemma_elements_prefix_occurs(data, pos, s, i, (n - 1) as nat);
    }
}

pub fn deserialize_array(data: &[u8], pos: usize) -> (res: Result<
    (EncodedArray, usize),
    DeserializeError,
>)
    ensures
        res matches Ok((a, end)) ==> array_wf(a) && end == pos + array_encoding(a).len()
            && occurs_at(data@, pos as int, array_encoding(a)),
        res is Err ==> forall|a: EncodedArray|
            array_wf(a) ==> !occurs_at(data@, pos as int, #[trigger] array_encoding(a)),
    decreases data@.len() - pos, 0nat,
{
    let (count, start) = match decode_uleb128(data, pos) {
        Ok(r) => r,
        Err(e) => {
            assert forall|a: EncodedArray| array_wf(a) implies !occurs_at(
                data@,
                pos as int,
                #[trigger] array_encoding(a),
            ) by {
                if occurs_at(data@, pos as int, array_encoding(a)) {
                    lemma_occurs_prefix(
                        data@,
                        pos as int,
                        uleb128_bytes(a.values@.len()),
                        values_prefix_encoding(a.values@, a.values@.len()),
                    );
                    assert(uleb128_bytes(a.values@.len()) == uleb128_bytes((a.values@.len() as u32) as nat));
                }
            }
            return Err(e);
        },
    };
    assert forall|a: EncodedArray| array_wf(a) && #[trigger] occurs_at(
        data@,
        pos as int,
        array_encoding(a),
    ) implies a.values@.len() == count && occurs_at(
        data@,
        start as int,
        values_prefix_encoding(a.values@, a.values@.len()),
    ) by {
        lemma_occurs_prefix(
            data@,
            pos as int,
            uleb128_bytes(a.values@.len()),
            values_prefix_encoding(a.values@, a.values@.len()),
        );
        lemma_uleb128_prefix_free(data@, pos as int, count, a.values@.len() as u32);
    }
    let mut values: Vec<EncodedValue> = Vec::new();
    let mut p = start;
    let mut i: usize = 0;
    assert(data@.subrange(start as int, start as int) =~= values_prefix_encoding(values@, 0));
    while i < count as usize
        invariant
            pos < start <= p <= data@.len(),
            i <= count,
            values@.len() == i,
            values_prefix_wf(values@, i as nat),
            p == start + values_prefix_encoding(values@, i as nat).len(),
            occurs_at(data@, start as int, values_prefix_encoding(values@, i as nat)),
            forall|a: EncodedArray|
                array_wf(a) && #[trigger] occurs_at(data@, pos as int, array_encoding(a)) ==> a.values@.len()
                    == count && occurs_at(
                    data@,
                    start as int,
                    values_prefix_encoding(a.values@, a.values@.len()),
                ) && values_prefix_encoding(a.values@, i as nat) == values_prefix_encoding(
                    values@,
                    i as nat,
                ),
        decreases count - i,
    {
        let (v, next) = match deserialize_value(data, p) {
            Ok(r) => r,
            Err(e) => {
                assert forall|a: EncodedArray| array_wf(a) implies !occurs_at(
                    data@,
                    pos as int,
                    #[trigger] array_encoding(a),
                ) by {
                    if occurs_at(data@, pos as int, array_encoding(a)) {
                        let n = a.values@.len();
                        lemma_values_prefix_occurs(data@, start as int, a.values@, (i + 1) as nat, n);
                        lemma_values_prefix_wf(a.values@, i as nat, n);
                        lemma_occurs_prefix(
                            data@,
                            start as int,
                            values_prefix_encoding(a.values@, i as nat),
                            value_encoding(a.values@[i as int]),
                        );
                    }
                }
                return Err(e);
            },
        };
        proof {
            lemma_occurs_concat(
                data@,
                start as int,
                values_prefix_encoding(values@, i as nat),
                value_encoding(v),
            );
            lemma_values_prefix_push(values@, v, i as nat);
            assert forall|a: EncodedArray|
                array_wf(a) && #[trigger] occurs_at(data@, pos as int, array_encoding(a)) implies values_prefix_encoding(
                a.values@,
                (i + 1) as nat,
            ) == values_prefix_encoding(values@.push(v), (i + 1) as nat) by {
                let n = a.values@.len();
                lemma_values_prefix_occurs(data@, start as int, a.values@, (i + 1) as nat, n);
                lemma_values_prefix_wf(a.values@, i as nat, n);
                lemma_occurs_prefix(
                    data@,
                    start as int,
                    values_prefix_encoding(a.values@, i as nat),
                    value_encoding(a.values@[i as int]),
                );
                lemma_value_prefix_free(data@, p as int, v, a.values@[i as int]);
                assert(values@.push(v)[i as int] == v);
            }
        }
        values.push(v);
        p = next;
        i = i + 1;
    }
    let a = EncodedArray { values };
    proof {
        lemma_occurs_concat(
            data@,
            pos as int,
            uleb128_bytes(count as nat),
            values_prefix_encoding(a.values@, i as nat),
        );
    }
    Ok((a, p))
}

pub fn deserialize_annotation(data: &[u8], pos: usize) -> (res: Result<
    (EncodedAnnotation, usize),
    DeserializeError,
>)
    ensures
        res matches Ok((a, end)) ==> annotation_wf(a) && end == pos + annotation_encoding(a).len()
            && occurs_at(data@, pos as int, annotation_encoding(a)),
        res is Err ==> forall|a: EncodedAnnotation|
            annotation_wf(a) ==> !occurs_at(data@, pos as int, #[trigger] annotation_encoding(a)),
    decreases data@.len() - pos, 0nat,
{
    let (type_idx, p) = match decode_uleb128(data, pos) {
        Ok(r) => r,
        Err(e) => {
            assert forall|a: EncodedAnnotation| annotation_wf(a) implies !occurs_at(
                data@,
                pos as int,
                #[trigger] annotation_encoding(a),
            ) by {
                if occurs_at(data@, pos as int, annotation_encoding(a)) {
                    let t = uleb128_bytes(a.type_idx as nat);
                    let c = uleb128_bytes(a.elements@.len());
                    let r = elements_prefix_encoding(a.elements@, a.elements@.len());
                    lemma_occurs_prefix(data@, pos as int, t + c, r);
                    lemma_occurs_prefix(data@, pos as int, t, c);
                }
            }
            return Err(e);
        },
    };
    let (count, start) = match decode_uleb128(data, p) {
        Ok(r) => r,
        Err(e) => {
            assert forall|a: EncodedAnnotation| annotation_wf(a) implies !occurs_at(
                data@,
                pos as int,
                #[trigger] annotation_encoding(a),
            ) by {
                if occurs_at(data@, pos as int, annotation_encoding(a)) {
                    let t = uleb128_bytes(a.type_idx as nat);
                    let c = uleb128_bytes(a.elements@.len());
                    let r = elements_prefix_encoding(a.elements@, a.elements@.len());
                    lemma_occurs_prefix(data@, pos as int, t + c, r);
                    lemma_occurs_prefix(data@, pos as int, t, c);
                    lemma_uleb128_prefix_free(data@, pos as int, type_idx, a.type_idx);
                    assert(c == uleb128_bytes((a.elements@.len() as u32) as nat));
                }
            }
            return Err(e);
        },
    };
    assert forall|a: EncodedAnnotation| annotation_wf(a) && #[trigger] occurs_at(
        data@,
        pos as int,
        annotation_encoding(a),
    ) implies a.elements@.len() == count && occurs_at(
        data@,
        start as int,
        elements_prefix_encoding(a.elements@, a.elements@.len()),
    ) by {
        let t = uleb128_bytes(a.type_idx as nat);
        let c = uleb128_bytes(a.elements@.len());
        let r = elements_prefix_encoding(a.elements@, a.elements@.len());
        lemma_occurs_prefix(data@, pos as int, t + c, r);
        lemma_occurs_prefix(data@, pos as int, t, c);
        lemma_uleb128_prefix_free(data@, pos as int, type_idx, a.type_idx);
        lemma_uleb128_prefix_free(data@, p as int, count, a.elements@.len() as u32);
    }
    proof {
        lemma_occurs_concat(data@, pos as int, uleb128_bytes(type_idx as nat), uleb128_bytes(count as nat));
    }
    let mut elements: Vec<AnnotationElement> = Vec::new();
    let mut p = start;
    let mut i: usize = 0;
    assert(data@.subrange(start as int, start as int) =~= elements_prefix_encoding(elements@, 0));
    while i < count as usize
        invariant
            pos < start <= p <= data@.len(),
            i <= count,
            elements@.len() == i,
            elements_prefix_wf(elements@, i as nat),
            p == start + elements_prefix_encoding(elements@, i as nat).len(),
            occurs_at(data@, start as int, elements_prefix_encoding(elements@, i as nat)),
            forall|a: EncodedAnnotation|
                annotation_wf(a) && #[trigger] occurs_at(data@, pos as int, annotation_encoding(a))
                    ==> a.elements@.len() == count && occurs_at(
                    data@,
                    start as int,
                    elements_prefix_encoding(a.elements@, a.elements@.len()),
                ) && elements_prefix_encoding(a.elements@, i as nat) == elements_prefix_encoding(
                    elements@,
                    i as nat,
                ),
        decreases count - i,
    {
        let (e, next) = match deserialize_element(data, p) {
            Ok(r) => r,
            Err(err) => {
                assert forall|a: EncodedAnnotation| annotation_wf(a) implies !occurs_at(
                    data@,
                    pos as int,
                    #[trigger] annotation_encoding(a),
                ) by {
                    if occurs_at(data@, pos as int, annotation_encoding(a)) {
                        let n = a.elements@.len();
                        lemma_elements_prefix_occurs(data@, start as int, a.elements@, (i + 1) as nat, n);
                        lemma_elements_prefix_wf(a.elements@, i as nat, n);
                        lemma_occurs_prefix(
                            data@,
                            start as int,
                            elements_prefix_encoding(a.elements@, i as nat),
                            element_encoding(a.elements@[i as int]),
                        );
                    }
                }
                return Err(err);
            },
        };
        proof {
            lemma_occurs_concat(
                data@,
                start as int,
                elements_prefix_encoding(elements@, i as nat),
                element_encoding(e),
            );
            lemma_elements_prefix_push(elements@, e, i as nat);
            assert forall|a: EncodedAnnotation|
                annotation_wf(a) && #[trigger] occurs_at(data@, pos as int, annotation_encoding(a)) implies elements_prefix_encoding(
                a.elements@,
                (i + 1) as nat,
            ) == elements_prefix_encoding(elements@.push(e), (i + 1) as nat) by {
                let n = a.elements@.len();
                lemma_elements_prefix_occurs(data@, start as int, a.elements@, (i + 1) as nat, n);
                lemma_elements_prefix_wf(a.elements@, i as nat, n);
                lemma_occurs_prefix(
                    data@,
                    start as int,
                    elements_prefix_encoding(a.elements@, i as nat),
                    element_encoding(a.elements@[i as int]),
                );
                lemma_element_prefix_free(data@, p as int, e, a.elements@[i as int]);
                assert(elements@.push(e)[i as int] == e);
            }
        }
        elements.push(e);
        p = next;
        i = i + 1;
    }
    let a = EncodedAnnotation { type_idx, elements };
    proof {
        lemma_occurs_concat(
            data@,
            pos as int,
            uleb128_bytes(type_idx as nat) + uleb128_bytes(count as nat),
            elements_prefix_encoding(a.elements@, i as nat),
        );
    }
    Ok((a, p))
}

pub fn deserialize_element(data: &[u8], pos: usize) -> (res: Result<
    (AnnotationElement, usize),
    DeserializeError,
>)
    ensures
        res matches Ok((e, end)) ==> value_wf(e.value) && end == pos + element_encoding(e).len()
            && occurs_at(data@, pos as int, element_encoding(e)),
        res is Err ==> forall|e: AnnotationElement|
            value_wf(e.value) ==> !occurs_at(data@, pos as int, #[trigger] element_encoding(e)),
    decreases data@.len() - pos, 0nat,
{
    let (name_idx, p) = match decode_uleb128(data, pos) {
        Ok(r) => r,
        Err(err) => {
            assert forall|e: AnnotationElement| value_wf(e.value) implies !occurs_at(
                data@,
                pos as int,
                #[trigger] element_encoding(e),
            ) by {
                if occurs_at(data@, pos as int, element_encoding(e)) {
                    lemma_occurs_prefix(data@, pos as int, uleb128_bytes(e.name_idx as nat), value_encoding(e.value));
                }
            }
            return Err(err);
        },
    };
    let (value, end) = match deserialize_value(data, p) {
        Ok(r) => r,
        Err(err) => {
            assert forall|e: AnnotationElement| value_wf(e.value) implies !occurs_at(
                data@,
                pos as int,
                #[trigger] element_encoding(e),
            ) by {
                if occurs_at(data@, pos as int, element_encoding(e)) {
                    lemma_occurs_prefix(data@, pos as int, uleb128_bytes(e.name_idx as nat), value_encoding(e.value));
                    lemma_uleb128_prefix_free(data@, pos as int, name_idx, e.name_idx);
                }
            }
            return Err(err);
        },
    };
    proof {
        lemma_occurs_concat(data@, pos as int, uleb128_bytes(name_idx as nat), value_encoding(value));
    }
    Ok((AnnotationElement { name_idx, value }, end))
}

/// The argument packed into a value's header byte.
pub open spec fn value_arg(v: EncodedValue) -> nat {
    match v {
        EncodedValue::ValueShort(x) => (signed_width(x as int) - 1) as nat,
        EncodedValue::ValueChar(x) => (unsigned_width(x as int) - 1) as nat,
        EncodedValue::ValueInt(x) => (signed_width(x as int) - 1) as nat,
        EncodedValue::ValueLong(x) => (signed_width(x as int) - 1) as nat,
        EncodedValue::ValueFloat(x) => (right_width(x as int, 4) - 1) as nat,
        EncodedValue::ValueDouble(x) => (right_width(x as int, 8) - 1) as nat,
        EncodedValue::ValueMethodType(x) => (unsigned_width(x as int) - 1) as nat,
        EncodedValue::ValueMethodHandle(x) => (unsigned_width(x as int) - 1) as nat,
        EncodedValue::ValueString(x) => (unsigned_width(x as int) - 1) as nat,
        EncodedValue::ValueType(x) => (unsigned_width(x as int) - 1) as nat,
        EncodedValue::ValueField(x) => (unsigned_width(x as int) - 1) as nat,
        EncodedValue::ValueMethod(x) => (unsigned_width(x as int) - 1) as nat,
        EncodedValue::ValueEnum(x) => (unsigned_width(x as int) - 1) as nat,
        EncodedValue::ValueBoolean(b) => if b {
            1
        } else {
            0
        },
        _ => 0,
    }
}

/// A value's encoding starts with its header byte; a value that is neither an array nor
/// an annotation takes a number of bytes that its header byte determines.
proof fn lemma_value_header(v: EncodedValue)
    ensures
        value_arg(v) < 8,
        value_encoding(v).len() >= 1,
        value_encoding(v)[0] == (value_arg(v) * 32 + spec_type_code(v)) as u8,
        !(v is ValueArray) && !(v is ValueAnnotation) ==> value_encoding(v).len() == if spec_type_code(v) >= 0x1e {
            1
        } else {
            value_arg(v) + 2
        },
{
    lemma_pow256_values();
}

/// A header byte determines its type tag and argument.
proof fn lemma_header_unique(t1: u8, a1: nat, t2: u8, a2: nat)
    requires
        t1 < 32,
        t2 < 32,
        a1 < 8,
        a2 < 8,
        (a1 * 32 + t1) as u8 == (a2 * 32 + t2) as u8,
    ensures
        t1 == t2,
        a1 == a2,
{
    lemma_fundamental_div_mod_converse((a1 * 32 + t1) as int, 32, a1 as int, t1 as int);
    lemma_fundamental_div_mod_converse((a2 * 32 + t2) as int, 32, a2 as int, t2 as int);
}

pub proof fn lemma_value_prefix_free(data: Seq<u8>, pos: int, a: EncodedValue, b: EncodedValue)
    requires
        value_wf(a),
        value_wf(b),
        occurs_at(data, pos, value_encoding(a)),
        occurs_at(data, pos, value_encoding(b)),
    ensures
        value_encoding(a) == value_encoding(b),
    decreases a, 0nat,
{
    lemma_value_header(a);
    lemma_value_header(b);
    let ea = value_encoding(a);
    let eb = value_encoding(b);
    assert(ea[0] == data.subrange(pos, pos + ea.len())[0]);
    assert(eb[0] == data.subrange(pos, pos + eb.len())[0]);
    lemma_header_unique(spec_type_code(a), value_arg(a), spec_type_code(b), value_arg(b));
    match a {
        EncodedValue::ValueArray(x) => {
            let y = b->ValueArray_0;
            lemma_occurs_prefix(data, pos, header_byte(0x1c, 0), array_encoding(x));
            lemma_occurs_prefix(data, pos, header_byte(0x1c, 0), array_encoding(y));
            lemma_array_prefix_free(data, pos + 1, x, y);
        },
        EncodedValue::ValueAnnotation(x) => {
            let y = b->ValueAnnotation_0;
            lemma_occurs_prefix(data, pos, header_byte(0x1d, 0), annotation_encoding(x));
            lemma_occurs_prefix(data, pos, header_byte(0x1d, 0), annotation_encoding(y));
            lemma_annotation_prefix_free(data, pos + 1, x, y);
        },
        _ => {},
    }
}

pub proof fn lemma_array_prefix_free(data: Seq<u8>, pos: int, a: EncodedArray, b: EncodedArray)
    requires
        array_wf(a),
        array_wf(b),
        occurs_at(data, pos, array_encoding(a)),
        occurs_at(data, pos, array_encoding(b)),
    ensures
        array_encoding(a) == array_encoding(b),
    decreases a, 0nat,
{
    let ua = uleb128_bytes(a.values@.len());
    let ub = uleb128_bytes(b.values@.len());
    lemma_occurs_prefix(data, pos, ua, values_prefix_encoding(a.values@, a.values@.len()));
    lemma_occurs_prefix(data, pos, ub, values_prefix_encoding(b.values@, b.values@.len()));
    lemma_uleb128_prefix_free(data, pos, a.values@.len() as u32, b.values@.len() as u32);
    lemma_values_prefix_free(data, pos + ua.len(), a.values@, b.values@, a.values@.len());
}

pub proof fn lemma_values_prefix_free(
    data: Seq<u8>,
    pos: int,
    s: Seq<EncodedValue>,
    t: Seq<EncodedValue>,
    n: nat,
)
    requires
        n <= s.len(),
        n <= t.len(),
        values_prefix_wf(s, n),
        values_prefix_wf(t, n),
        occurs_at(data, pos, values_prefix_encoding(s, n)),
        occurs_at(data, pos, values_prefix_encoding(t, n)),
    ensures
        values_prefix_encoding(s, n) == values_prefix_encoding(t, n),
    decreases s, n,
{
    if n > 0 {
        let es = values_prefix_encoding(s, (n - 1) as nat);
        let et = values_prefix_encoding(t, (n - 1) as nat);
        lemma_occurs_prefix(data, pos, es, value_encoding(s[n - 1]));
        lemma_occurs_prefix(data, pos, et, value_encoding(t[n - 1]));
        lemma_values_prefix_free(data, pos, s, t, (n - 1) as nat);
        lemma_value_prefix_free(data, pos + es.len(), s[n - 1], t[n - 1]);
    }
}

pub proof fn lemma_annotation_prefix_free(
    data: Seq<u8>,
    pos: int,
    a: EncodedAnnotation,
    b: EncodedAnnotation,
)
    requires
        annotation_wf(a),
        annotation_wf(b),
        occurs_at(data, pos, annotation_encoding(a)),
        occurs_at(data, pos, annotation_encoding(b)),
    ensures
        annotation_encoding(a) == annotation_encoding(b),
    decreases a, 0nat,
{
    let ta = uleb128_bytes(a.type_idx as nat);
    let tb = uleb128_bytes(b.type_idx as nat);
    let ca = uleb128_bytes(a.elements@.len());
    let cb = uleb128_bytes(b.elements@.len());
    let ra = elements_prefix_encoding(a.elements@, a.elements@.len());
    let rb = elements_prefix_encoding(b.elements@, b.elements@.len());
    lemma_occurs_prefix(data, pos, ta + ca, ra);
    lemma_occurs_prefix(data, pos, tb + cb, rb);
    lemma_occurs_prefix(data, pos, ta, ca);
    lemma_occurs_prefix(data, pos, tb, cb);
    lemma_uleb128_prefix_free(data, pos, a.type_idx, b.type_idx);
    lemma_uleb128_prefix_free(data, pos + ta.len(), a.elements@.len() as u32, b.elements@.len() as u32);
    lemma_elements_prefix_free(data, pos + ta.len() + ca.len(), a.elements@, b.elements@, a.elements@.len());
}

pub proof fn lemma_elements_prefix_free(
    data: Seq<u8>,
    pos: int,
    s: Seq<AnnotationElement>,
    t: Seq<AnnotationElement>,
    n: nat,
)
    requires
        n <= s.len(),
        n <= t.len(),
        elements_prefix_wf(s, n),
        elements_prefix_wf(t, n),
        occurs_at(data, pos, elements_prefix_encoding(s, n)),
        occurs_at(data, pos, elements_prefix_encoding(t, n)),
    ensures
        elements_prefix_encoding(s, n) == elements_prefix_encoding(t, n),
    decreases s, n,
{
    if n > 0 {
        let es = elements_prefix_encoding(s, (n - 1) as nat);
        let et = elements_prefix_encoding(t, (n - 1) as nat);
        lemma_occurs_prefix(data, pos, es, element_encoding(s[n - 1]));
        lemma_occurs_prefix(data, pos, et, element_encoding(t[n - 1]));
        lemma_elements_prefix_free(data, pos, s, t, (n - 1) as nat);
        lemma_element_prefix_free(data, pos + es.len(), s[n - 1], t[n - 1]);
    }
}

pub proof fn lemma_element_prefix_free(
    data: Seq<u8>,
    pos: int,
    a: AnnotationElement,
    b: AnnotationElement,
)
    requires
        value_wf(a.value),
        value_wf(b.value),
        occurs_at(data, pos, element_encoding(a)),
        occurs_at(data, pos, element_encoding(b)),
    ensures
        element_encoding(a) == element_encoding(b),
    decreases a, 0nat,
{
    let na = uleb128_bytes(a.name_idx as nat);
    let nb = uleb128_bytes(b.name_idx as nat);
    lemma_occurs_prefix(data, pos, na, value_encoding(a.value));
    lemma_occurs_prefix(data, pos, nb, value_encoding(b.value));
    lemma_uleb128_prefix_free(data, pos, a.name_idx, b.name_idx);
    lemma_value_prefix_free(data, pos + na.len(), a.value, b.value);
}

impl DexStruct for EncodedValue {
    open spec fn encoding(&self) -> Seq<u8> {
        value_encoding(*self)
    }

    open spec fn well_formed(&self) -> bool {
        value_wf(*self)
    }

    open spec fn spec_alignment() -> nat {
        1
    }

    fn alignment() -> (r: usize) {
        1
    }

    proof fn lemma_prefix_free(data: Seq<u8>, pos: int, a: Self, b: Self) {
        lemma_value_prefix_free(data, pos, a, b);
    }

    fn deserialize(data: &[u8], pos: usize) -> (res: Result<(Self, usize), DeserializeError>) {
        deserialize_value(data, pos)
    }

    fn serialize(&self, out: &mut Vec<u8>) {
        serialize_value(self, out)
    }

    fn size(&self) -> (r: usize) {
        size_value(self)
    }
}

impl DexStruct for EncodedArray {
    open spec fn encoding(&self) -> Seq<u8> {
        array_encoding(*self)
    }

    open spec fn well_formed(&self) -> bool {
        array_wf(*self)
    }

    open spec fn spec_alignment() -> nat {
        1
    }

    fn alignment() -> (r: usize) {
        1
    }

    proof fn lemma_prefix_free(data: Seq<u8>, pos: int, a: Self, b: Self) {
        lemma_array_prefix_free(data, pos, a, b);
    }

    fn deserialize(data: &[u8], pos: usize) -> (res: Result<(Self, usize), DeserializeError>) {
        deserialize_array(data, pos)
    }

    fn serialize(&self, out: &mut Vec<u8>) {
        serialize_array(self, out)
    }

    fn size(&self) -> (r: usize) {
        size_array(self)
    }
}

impl DexStruct for EncodedAnnotation {
    open spec fn encoding(&self) -> Seq<u8> {
        annotation_encoding(*self)
    }

    open spec fn well_formed(&self) -> bool {
        annotation_wf(*self)
    }

    open spec fn spec_alignment() -> nat {
        1
    }

    fn alignment() -> (r: usize) {
        1
    }

    proof fn lemma_prefix_free(data: Seq<u8>, pos: int, a: Self, b: Self) {
        lemma_annotation_prefix_free(data, pos, a, b);
    }

    fn deserialize(data: &[u8], pos: usize) -> (res: Result<(Self, usize), DeserializeError>) {
        deserialize_annotation(data, pos)
    }

    fn serialize(&self, out: &mut Vec<u8>) {
        serialize_annotation(self, out)
    }

    fn size(&self) -> (r: usize) {
        size_annotation(self)
    }
}

impl DexStruct for AnnotationElement {
    open spec fn encoding(&self) -> Seq<u8> {
        element_encoding(*self)
    }

    open spec fn well_formed(&self) -> bool {
        value_wf(self.value)
    }

    open spec fn spec_alignment() -> nat {
        1
    }

    fn alignment() -> (r: usize) {
        1
    }

    proof fn lemma_prefix_free(data: Seq<u8>, pos: int, a: Self, b: Self) {
        lemma_element_prefix_free(data, pos, a, b);
    }

    fn deserialize(data: &[u8], pos: usize) -> (res: Result<(Self, usize), DeserializeError>) {
        deserialize_element(data, pos)
    }

    fn serialize(&self, out: &mut Vec<u8>) {
        serialize_element(self, out)
    }

    fn size(&self) -> (r: usize) {
        size_element(self)
    }
}

/// A static-values or call-site array.
#[derive(Debug, PartialEq, Eq)]
pub struct EncodedArrayItem {
    pub value: EncodedArray,
}

impl DexStruct for EncodedArrayItem {
    open spec fn encoding(&self) -> Seq<u8> {
        array_encoding(self.value)
    }

    open spec fn well_formed(&self) -> bool {
        array_wf(self.value)
    }

    open spec fn spec_alignment() -> nat {
        1
    }

    fn alignment() -> (r: usize) {
        1
    }

    proof fn lemma_prefix_free(data: Seq<u8>, pos: int, a: Self, b: Self) {
        lemma_array_prefix_free(data, pos, a.value, b.value);
    }

    fn deserialize(data: &[u8], pos: usize) -> (res: Result<(Self, usize), DeserializeError>) {
        match deserialize_array(data, pos) {
            Ok((value, end)) => Ok((EncodedArrayItem { value }, end)),
            Err(e) => Err(e),
        }
    }

    fn serialize(&self, out: &mut Vec<u8>) {
        serialize_array(&self.value, out)
    }

    fn size(&self) -> (r: usize) {
        size_array(&self.value)
    }
}

/// An annotation with its visibility (build, runtime or system).
#[derive(Debug, PartialEq, Eq)]
pub struct AnnotationItem {
    pub visibility: u8,
    pub annotation: EncodedAnnotation,
}

impl DexStruct for AnnotationItem {
    open spec fn encoding(&self) -> Seq<u8> {
        le_bytes(self.visibility as int, 1) + annotation_encoding(self.annotation)
    }

    open spec fn well_formed(&self) -> bool {
        annotation_wf(self.annotation)
    }

    open spec fn spec_alignment() -> nat {
        1
    }

    fn alignment() -> (r: usize) {
        1
    }

    proof fn lemma_prefix_free(data: Seq<u8>, pos: int, a: Self, b: Self) {
        lemma_occurs_prefix(data, pos, le_bytes(a.visibility as int, 1), annotation_encoding(a.annotation));
        lemma_occurs_prefix(data, pos, le_bytes(b.visibility as int, 1), annotation_encoding(b.annotation));
        assert(le_bytes(a.visibility as int, 1) == le_bytes(b.visibility as int, 1));
        lemma_annotation_prefix_free(data, pos + 1, a.annotation, b.annotation);
    }

    fn deserialize(data: &[u8], pos: usize) -> (res: Result<(Self, usize), DeserializeError>) {
        let (visibility, p) = match decode_u8(data, pos) {
            Ok(r) => r,
            Err(e) => return Err(e),
        };
        let (annotation, end) = match deserialize_annotation(data, p) {
            Ok(r) => r,
            Err(e) => {
                assert forall|v: AnnotationItem| v.well_formed() implies !occurs_at(
                    data@,
                    pos as int,
                    #[trigger] v.encoding(),
                ) by {
                    if occurs_at(data@, pos as int, v.encoding()) {
                        lemma_occurs_prefix(
                            data@,
                            pos as int,
                            le_bytes(v.visibility as int, 1),
                            annotation_encoding(v.annotation),
                        );
                    }
                }
                return Err(e);
            },
        };
        proof {
            lemma_occurs_concat(
                data@,
                pos as int,
                le_bytes(visibility as int, 1),
                annotation_encoding(annotation),
            );
        }
        Ok((AnnotationItem { visibility, annotation }, end))
    }

    fn serialize(&self, out: &mut Vec<u8>) {
        encode_u8(out, self.visibility);
        serialize_annotation(&self.annotation, out);
        assert(out@ =~= old(out)@ + self.encoding());
    }

    fn size(&self) -> (r: usize) {
        1 + size_annotation(&self.annotation)
    }
}

} // verus!
