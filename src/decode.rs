//! Readers for the primitive encodings. Each takes the whole input and a position
//! and returns the value read together with the position just past it.
use crate::wire::{
    le_bytes, le_value, lemma_le_bytes_len, lemma_le_bytes_u8, lemma_le_bytes_wrap,
    lemma_le_value_of_bytes, lemma_mul_div_exact, lemma_pow256_mono, lemma_pow256_split,
    lemma_pow256_values, occurs_at, pow256, sign_extend, leb_groups_value, sleb_value,
    uleb128_bytes, sleb128_bytes, uleb128p1_bytes, uleb_canonical, sleb_canonical,
    lemma_uleb_canonical, lemma_uleb_bytes, lemma_sleb_canonical, lemma_sleb_bytes, pow128,
    lemma_pow128_mono, lemma_pow128_five,
};
use vstd::arithmetic::div_mod::{lemma_fundamental_div_mod_converse, lemma_small_mod};
use crate::DeserializeError;
use vstd::prelude::*;

verus! {

broadcast use lemma_le_bytes_len;

/// Two's-complement reinterpretation of each fixed width, both ways.
proof fn lemma_cast_8(u: u8, s: i8)
    by (bit_vector)
    ensures
        u >= 0x80 ==> (u as i8) as int == u as int - 0x100,
        u < 0x80 ==> (u as i8) as int == u as int,
        s < 0 ==> (s as u8) as int == s as int + 0x100,
        s >= 0 ==> (s as u8) as int == s as int,
{
}

proof fn lemma_cast_16(u: u16, s: i16)
    by (bit_vector)
    ensures
        u >= 0x8000 ==> (u as i16) as int == u as int - 0x1_0000,
        u < 0x8000 ==> (u as i16) as int == u as int,
        s < 0 ==> (s as u16) as int == s as int + 0x1_0000,
        s >= 0 ==> (s as u16) as int == s as int,
{
}

proof fn lemma_cast_32(u: u32, s: i32)
    by (bit_vector)
    ensures
        u >= 0x8000_0000 ==> (u as i32) as int == u as int - 0x1_0000_0000,
        u < 0x8000_0000 ==> (u as i32) as int == u as int,
        s < 0 ==> (s as u32) as int == s as int + 0x1_0000_0000,
        s >= 0 ==> (s as u32) as int == s as int,
{
}

pub proof fn lemma_cast_64(u: u64, s: i64)
    by (bit_vector)
    ensures
        u >= 0x8000_0000_0000_0000 ==> (u as i64) as int == u as int - 0x1_0000_0000_0000_0000,
        u < 0x8000_0000_0000_0000 ==> (u as i64) as int == u as int,
        s < 0 ==> (s as u64) as int == s as int + 0x1_0000_0000_0000_0000,
        s >= 0 ==> (s as u64) as int == s as int,
{
}

/// The two's-complement reading of `n` bytes writes back as the same bytes.
pub proof fn lemma_sign_extend_bytes(u: nat, n: nat)
    ensures
        le_bytes(sign_extend(u, n), n) == le_bytes(u as int, n),
{
    if n > 0 && u >= pow256(n) / 2 {
        lemma_le_bytes_wrap(u as int, -1, n, n);
    }
}

/// Reads `n` bytes as a little-endian unsigned value, zero-extended.
pub fn decode_nbytes_unsigned(data: &[u8], pos: usize, n: usize) -> (res: Result<
    (u64, usize),
    DeserializeError,
>)
    requires
        n <= 8,
    ensures
        res is Err <==> pos + n > data@.len(),
        res is Err ==> res == Err::<(u64, usize), _>(DeserializeError::IoError),
        res matches Ok((v, end)) ==> end == pos + n && v < pow256(n as nat) && occurs_at(
            data@,
            pos as int,
            le_bytes(v as int, n as nat),
        ),
{
    if pos > data.len() || n > data.len() - pos {
        return Err(DeserializeError::IoError);
    }
    let mut v: u64 = 0;
    let mut i: usize = n;
    proof {
        lemma_pow256_values();
    }
    while i > 0
        invariant
            i <= n <= 8,
            pos + n <= data.len(),
            v == le_value(data@.subrange(pos + i, pos + n)),
            v < pow256((n - i) as nat),
            pow256(8) == 0x1_0000_0000_0000_0000,
        decreases i,
    {
        proof {
            lemma_pow256_mono((n - i + 1) as nat, 8);
            assert(pow256((n - i + 1) as nat) == 256 * pow256((n - i) as nat));
        }
        assert(v * 256 + 255 < 0x1_0000_0000_0000_0000);
        i = i - 1;
        let ghost tail = data@.subrange(pos + i, pos + n);
        assert(tail.drop_first() =~= data@.subrange(pos + i + 1, pos + n));
        let b = data[pos + i] as u64;
        v = v * 256 + b;
    }
    proof {
        lemma_le_value_of_bytes(data@.subrange(pos as int, pos + n));
    }
    Ok((v, pos + n))
}

/// Reads `n` bytes as a little-endian two's-complement value, sign-extended.
pub fn decode_nbytes_signed(data: &[u8], pos: usize, n: usize) -> (res: Result<
    (i64, usize),
    DeserializeError,
>)
    requires
        1 <= n <= 8,
    ensures
        res is Err <==> pos + n > data@.len(),
        res is Err ==> res == Err::<(i64, usize), _>(DeserializeError::IoError),
        res matches Ok((v, end)) ==> end == pos + n && -(pow256(n as nat) as int) <= 2 * v < pow256(
            n as nat,
        ) && occurs_at(data@, pos as int, le_bytes(v as int, n as nat)),
{
    let (u, end) = match decode_nbytes_unsigned(data, pos, n) {
        Ok(r) => r,
        Err(e) => return Err(e),
    };
    proof {
        lemma_pow256_values();
        lemma_sign_extend_bytes(u as nat, n as nat);
    }
    let v: i64;
    if n == 8 {
        proof {
            lemma_cast_64(u, 0);
        }
        v = u as i64;
    } else {
        let p = pow256_u64(n);
        if u >= p / 2 {
            v = u as i64 - p as i64;
        } else {
            v = u as i64;
        }
    }
    assert(v as int == sign_extend(u as nat, n as nat));
    Ok((v, end))
}

/// `256^n` for the widths below a full word.
pub fn pow256_u64(n: usize) -> (r: u64)
    requires
        n <= 7,
    ensures
        r == pow256(n as nat),
        1 <= r <= 0x100_0000_0000_0000,
{
    let mut r: u64 = 1;
    let mut i: usize = 0;
    proof {
        lemma_pow256_values();
    }
    while i < n
        invariant
            i <= n <= 7,
            r == pow256(i as nat),
            pow256(7) == 0x100_0000_0000_0000,
        decreases n - i,
    {
        proof {
            lemma_pow256_mono((i + 1) as nat, 7);
            assert(pow256((i + 1) as nat) == 256 * pow256(i as nat));
        }
        r = r * 256;
        i = i + 1;
    }
    r
}

/// Reads `n` bytes as the high-order bytes of a 32-bit pattern, zero-padded on the right.
pub fn decode_nbytes_as_f32(data: &[u8], pos: usize, n: usize) -> (res: Result<
    (u32, usize),
    DeserializeError,
>)
    requires
        1 <= n <= 4,
    ensures
        res is Err <==> pos + n > data@.len(),
        res is Err ==> res == Err::<(u32, usize), _>(DeserializeError::IoError),
        res matches Ok((v, end)) ==> end == pos + n && v as int % pow256((4 - n) as nat) as int == 0 && occurs_at(
            data@,
            pos as int,
            le_bytes(v as int / pow256((4 - n) as nat) as int, n as nat),
        ),
{
    let (u, end) = match decode_nbytes_unsigned(data, pos, n) {
        Ok(r) => r,
        Err(e) => return Err(e),
    };
    let p = pow256_u64(4 - n);
    proof {
        lemma_pow256_values();
        lemma_pow256_split(n as nat, (4 - n) as nat);
        assert(u * p < 0x1_0000_0000) by (nonlinear_arith)
            requires
                u < pow256(n as nat),
                p == pow256((4 - n) as nat),
                pow256(n as nat) * pow256((4 - n) as nat) == 0x1_0000_0000,
        ;
        lemma_mul_div_exact(u as int, p as int);
    }
    let v = (u * p) as u32;
    Ok((v, end))
}

/// Reads `n` bytes as the high-order bytes of a 64-bit pattern, zero-padded on the right.
pub fn decode_nbytes_as_f64(data: &[u8], pos: usize, n: usize) -> (res: Result<
    (u64, usize),
    DeserializeError,
>)
    requires
        1 <= n <= 8,
    ensures
        res is Err <==> pos + n > data@.len(),
        res is Err ==> res == Err::<(u64, usize), _>(DeserializeError::IoError),
        res matches Ok((v, end)) ==> end == pos + n && v as int % pow256((8 - n) as nat) as int == 0 && occurs_at(
            data@,
            pos as int,
            le_bytes(v as int / pow256((8 - n) as nat) as int, n as nat),
        ),
{
    let (u, end) = match decode_nbytes_unsigned(data, pos, n) {
        Ok(r) => r,
        Err(e) => return Err(e),
    };
    let p = pow256_u64(8 - n);
    proof {
        lemma_pow256_values();
        lemma_pow256_split(n as nat, (8 - n) as nat);
        assert(u * p < 0x1_0000_0000_0000_0000) by (nonlinear_arith)
            requires
                u < pow256(n as nat),
                p == pow256((8 - n) as nat),
                pow256(n as nat) * pow256((8 - n) as nat) == 0x1_0000_0000_0000_0000,
        ;
        lemma_mul_div_exact(u as int, p as int);
    }
    let v = u * p;
    Ok((v, end))
}

pub fn decode_u64(data: &[u8], pos: usize) -> (res: Result<(u64, usize), DeserializeError>)
    ensures
        res is Err <==> pos + 8 > data@.len(),
        res is Err ==> res == Err::<(u64, usize), _>(DeserializeError::IoError),
        res matches Ok((v, end)) ==> end == pos + 8 && occurs_at(data@, pos as int, le_bytes(v as int, 8)),
{
    decode_nbytes_unsigned(data, pos, 8)
}

pub fn decode_i64(data: &[u8], pos: usize) -> (res: Result<(i64, usize), DeserializeError>)
    ensures
        res is Err <==> pos + 8 > data@.len(),
        res is Err ==> res == Err::<(i64, usize), _>(DeserializeError::IoError),
        res matches Ok((v, end)) ==> end == pos + 8 && occurs_at(data@, pos as int, le_bytes(v as int, 8)),
{
    match decode_u64(data, pos) {
        Ok((u, end)) => {
            proof {
                lemma_cast_64(u, 0);
                lemma_pow256_values();
                lemma_sign_extend_bytes(u as nat, 8);
            }
            Ok((u as i64, end))
        },
        Err(e) => Err(e),
    }
}

pub fn decode_u32(data: &[u8], pos: usize) -> (res: Result<(u32, usize), DeserializeError>)
    ensures
        res is Err <==> pos + 4 > data@.len(),
        res is Err ==> res == Err::<(u32, usize), _>(DeserializeError::IoError),
        res matches Ok((v, end)) ==> end == pos + 4 && occurs_at(data@, pos as int, le_bytes(v as int, 4)),
{
    proof {
        lemma_pow256_values();
    }
    match decode_nbytes_unsigned(data, pos, 4) {
        Ok((u, end)) => Ok((u as u32, end)),
        Err(e) => Err(e),
    }
}

pub fn decode_i32(data: &[u8], pos: usize) -> (res: Result<(i32, usize), DeserializeError>)
    ensures
        res is Err <==> pos + 4 > data@.len(),
        res is Err ==> res == Err::<(i32, usize), _>(DeserializeError::IoError),
        res matches Ok((v, end)) ==> end == pos + 4 && occurs_at(data@, pos as int, le_bytes(v as int, 4)),
{
    match decode_u32(data, pos) {
        Ok((u, end)) => {
            proof {
                lemma_cast_32(u, 0);
                lemma_pow256_values();
                lemma_sign_extend_bytes(u as nat, 4);
            }
            Ok((u as i32, end))
        },
        Err(e) => Err(e),
    }
}

pub fn decode_u16(data: &[u8], pos: usize) -> (res: Result<(u16, usize), DeserializeError>)
    ensures
        res is Err <==> pos + 2 > data@.len(),
        res is Err ==> res == Err::<(u16, usize), _>(DeserializeError::IoError),
        res matches Ok((v, end)) ==> end == pos + 2 && occurs_at(data@, pos as int, le_bytes(v as int, 2)),
{
    proof {
        lemma_pow256_values();
    }
    match decode_nbytes_unsigned(data, pos, 2) {
        Ok((u, end)) => Ok((u as u16, end)),
        Err(e) => Err(e),
    }
}

pub fn decode_i16(data: &[u8], pos: usize) -> (res: Result<(i16, usize), DeserializeError>)
    ensures
        res is Err <==> pos + 2 > data@.len(),
        res is Err ==> res == Err::<(i16, usize), _>(DeserializeError::IoError),
        res matches Ok((v, end)) ==> end == pos + 2 && occurs_at(data@, pos as int, le_bytes(v as int, 2)),
{
    match decode_u16(data, pos) {
        Ok((u, end)) => {
            proof {
                lemma_cast_16(u, 0);
                lemma_pow256_values();
                lemma_sign_extend_bytes(u as nat, 2);
            }
            Ok((u as i16, end))
        },
        Err(e) => Err(e),
    }
}

pub fn decode_u8(data: &[u8], pos: usize) -> (res: Result<(u8, usize), DeserializeError>)
    ensures
        res is Err <==> pos + 1 > data@.len(),
        res is Err ==> res == Err::<(u8, usize), _>(DeserializeError::IoError),
        res matches Ok((v, end)) ==> end == pos + 1 && occurs_at(data@, pos as int, le_bytes(v as int, 1)),
{
    if pos >= data.len() {
        return Err(DeserializeError::IoError);
    }
    let b = data[pos];
    proof {
        lemma_le_bytes_u8(b);
        assert(data@.subrange(pos as int, pos + 1) =~= seq![b]);
    }
    Ok((b, pos + 1))
}

pub fn decode_i8(data: &[u8], pos: usize) -> (res: Result<(i8, usize), DeserializeError>)
    ensures
        res is Err <==> pos + 1 > data@.len(),
        res is Err ==> res == Err::<(i8, usize), _>(DeserializeError::IoError),
        res matches Ok((v, end)) ==> end == pos + 1 && occurs_at(data@, pos as int, le_bytes(v as int, 1)),
{
    match decode_u8(data, pos) {
        Ok((u, end)) => {
            proof {
                lemma_cast_8(u, 0);
                lemma_pow256_values();
                lemma_sign_extend_bytes(u as nat, 1);
            }
            Ok((u as i8, end))
        },
        Err(e) => Err(e),
    }
}

/// Five bytes with the continuation bit set in a row at `pos`: longer than any LEB128
/// value of the 32-bit domain.
#[verifier::opaque]
pub open spec fn overlong_leb128(data: Seq<u8>, pos: int) -> bool {
    pos + 5 <= data.len() && forall|j: int| 0 <= j < 5 ==> #[trigger] data[pos + j] >= 128
}

/// Finds the end of a LEB128 group sequence of at most five bytes starting at `pos`:
/// returns the index (relative to `pos`) of its last byte.
fn scan_leb128(data: &[u8], pos: usize) -> (res: Result<usize, DeserializeError>)
    ensures
        res matches Ok(k) ==> k < 5 && pos + k < data.len() && data@[pos + k] < 128 && (forall|
            j: int,
        | 0 <= j < k ==> #[trigger] data@[pos + j] >= 128),
        res is Err ==> forall|s: Seq<u8>|
            s.len() <= 5 && #[trigger] occurs_at(data@, pos as int, s) ==> !crate::wire::leb_frame(s),
        overlong_leb128(data@, pos as int) ==> res == Err::<usize, DeserializeError>(DeserializeError::FormatError),
{
    proof {
        reveal(overlong_leb128);
    }
    if pos >= data.len() {
        return Err(DeserializeError::IoError);
    }
    let mut k: usize = 0;
    while k < 5 && k < data.len() - pos && data[pos + k] >= 128
        invariant
            k <= 5,
            pos < data.len(),
            pos + k <= data.len(),
            forall|j: int| 0 <= j < k ==> #[trigger] data@[pos + j] >= 128,
        decreases 5 - k,
    {
        k = k + 1;
    }
    assert(pos + 5 <= data@.len() && (forall|j: int| 0 <= j < 5 ==> #[trigger] data@[pos + j] >= 128)
        ==> k == 5);
    if k == 5 || k == data.len() - pos {
        assert forall|s: Seq<u8>|
            s.len() <= 5 && #[trigger] occurs_at(data@, pos as int, s) implies !crate::wire::leb_frame(
                s,
            ) by {
            if crate::wire::leb_frame(s) {
                let j = s.len() - 1;
                assert(s[j] == data@.subrange(pos as int, pos + s.len())[j]);
                assert(j < k);
                assert(data@[pos + j] >= 128);
            }
        }
        return Err(
            if k == 5 {
                DeserializeError::FormatError
            } else {
                DeserializeError::IoError
            },
        );
    }
    Ok(k)
}

/// Where a canonical encoding occurs, the scan stops exactly at its last byte.
proof fn lemma_scan_finds(data: Seq<u8>, pos: int, k: int, s: Seq<u8>)
    requires
        crate::wire::leb_frame(s),
        occurs_at(data, pos, s),
        0 <= k,
        pos + k < data.len(),
        data[pos + k] < 128,
        forall|j: int| 0 <= j < k ==> #[trigger] data[pos + j] >= 128,
    ensures
        s.len() == k + 1,
        data.subrange(pos, pos + k + 1) == s,
{
    let last = s.len() - 1;
    assert(s[last] == data.subrange(pos, pos + s.len())[last]);
    if k < last {
        assert(s[k] == data.subrange(pos, pos + s.len())[k]);
        assert(s[k] >= 128);
    }
    if k > last {
        assert(data[pos + last] >= 128);
    }
    assert forall|i: int| 0 <= i < s.len() implies data.subrange(pos, pos + k + 1)[i] == s[i] by {
        assert(s[i] == data.subrange(pos, pos + s.len())[i]);
    }
    assert(data.subrange(pos, pos + k + 1) =~= s);
}

pub fn decode_uleb128(data: &[u8], pos: usize) -> (res: Result<(u32, usize), DeserializeError>)
    ensures
        res matches Ok((v, end)) ==> end == pos + uleb128_bytes(v as nat).len() && occurs_at(
            data@,
            pos as int,
            uleb128_bytes(v as nat),
        ),
        res is Err ==> forall|v: u32| !occurs_at(data@, pos as int, #[trigger] uleb128_bytes(v as nat)),
        overlong_leb128(data@, pos as int) ==> res == Err::<(u32, usize), DeserializeError>(DeserializeError::FormatError),
{
    proof {
        lemma_pow128_five();
    }
    let k = match scan_leb128(data, pos) {
        Ok(k) => k,
        Err(e) => {
            assert forall|v: u32| !occurs_at(data@, pos as int, #[trigger] uleb128_bytes(v as nat)) by {
                lemma_uleb_bytes(v as nat, 5);
            }
            return Err(e);
        },
    };
    let last = data[pos + k];
    let ghost s = data@.subrange(pos as int, pos + k + 1);
    if k > 0 && last == 0 {
        assert forall|v: u32| !occurs_at(data@, pos as int, #[trigger] uleb128_bytes(v as nat)) by {
            lemma_uleb_bytes(v as nat, 5);
            if occurs_at(data@, pos as int, uleb128_bytes(v as nat)) {
                lemma_scan_finds(data@, pos as int, k as int, uleb128_bytes(v as nat));
            }
        }
        return Err(DeserializeError::FormatError);
    }
    let mut v: u64 = last as u64;
    let mut i: usize = k;
    proof {
        lemma_small_mod(last as nat, 128);
        let t = data@.subrange(pos + k, pos + k + 1);
        assert(t.drop_first().len() == 0);
        assert(leb_groups_value(t.drop_first()) == 0);
        assert(v == leb_groups_value(t));
        assert(pow128(1) == 128) by {
            reveal_with_fuel(pow128, 2);
        }
    }
    while i > 0
        invariant
            i <= k < 5,
            pos + k < data.len(),
            forall|j: int| 0 <= j < k ==> #[trigger] data@[pos + j] >= 128,
            v == leb_groups_value(data@.subrange(pos + i, pos + k + 1)),
            v < pow128((k + 1 - i) as nat),
            pow128(5) == 0x8_0000_0000,
        decreases i,
    {
        proof {
            lemma_pow128_mono((k + 2 - i) as nat, 5);
        }
        assert(pow128((k + 2 - i) as nat) == 128 * pow128((k + 1 - i) as nat));
        i = i - 1;
        let b = data[pos + i];
        proof {
            lemma_fundamental_div_mod_converse(b as int, 128, 1, b - 128);
            let t = data@.subrange(pos + i, pos + k + 1);
            assert(t.drop_first() =~= data@.subrange(pos + i + 1, pos + k + 1));
        }
        v = v * 128 + (b - 128) as u64;
    }
    proof {
        assert(uleb_canonical(s)) by {
            assert forall|j: int| 0 <= j < s.len() - 1 implies s[j] >= 128 by {
                assert(s[j] == data@[pos + j]);
            }
        }
        lemma_uleb_canonical(s);
    }
    if v > 0xffff_ffff {
        assert forall|w: u32| !occurs_at(data@, pos as int, #[trigger] uleb128_bytes(w as nat)) by {
            lemma_uleb_bytes(w as nat, 5);
            if occurs_at(data@, pos as int, uleb128_bytes(w as nat)) {
                lemma_scan_finds(data@, pos as int, k as int, uleb128_bytes(w as nat));
            }
        }
        return Err(DeserializeError::FormatError);
    }
    Ok((v as u32, pos + k + 1))
}

pub fn decode_uleb128p1(data: &[u8], pos: usize) -> (res: Result<(i32, usize), DeserializeError>)
    ensures
        res matches Ok((v, end)) ==> v >= -1 && end == pos + uleb128p1_bytes(v as int).len()
            && occurs_at(data@, pos as int, uleb128p1_bytes(v as int)),
        res is Err ==> forall|v: i32|
            v >= -1 ==> !occurs_at(data@, pos as int, #[trigger] uleb128p1_bytes(v as int)),
{
    proof {
        lemma_pow128_five();
    }
    match decode_uleb128(data, pos) {
        Ok((u, end)) => {
            if u > 0x8000_0000 {
                assert forall|v: i32| v >= -1 implies !occurs_at(
                    data@,
                    pos as int,
                    #[trigger] uleb128p1_bytes(v as int),
                ) by {
                    lemma_uleb_bytes((v + 1) as nat, 5);
                    lemma_uleb_bytes(u as nat, 5);
                    if occurs_at(data@, pos as int, uleb128p1_bytes(v as int)) {
                        let a = uleb128_bytes((v + 1) as nat);
                        let b = uleb128_bytes(u as nat);
                        lemma_prefix_unique(data@, pos as int, a, b);
                    }
                }
                return Err(DeserializeError::FormatError);
            }
            Ok(((u as i64 - 1) as i32, end))
        },
        Err(e) => {
            assert forall|v: i32| v >= -1 implies !occurs_at(
                data@,
                pos as int,
                #[trigger] uleb128p1_bytes(v as int),
            ) by {
                let w = (v + 1) as u32;
                assert(uleb128_bytes(w as nat) == uleb128p1_bytes(v as int));
            }
            Err(e)
        },
    }
}

/// Two canonical LEB128 strings occurring at the same place are the same string.
proof fn lemma_prefix_unique(data: Seq<u8>, pos: int, a: Seq<u8>, b: Seq<u8>)
    requires
        crate::wire::leb_frame(a),
        crate::wire::leb_frame(b),
        occurs_at(data, pos, a),
        occurs_at(data, pos, b),
    ensures
        a == b,
{
    let n = if a.len() < b.len() { a.len() } else { b.len() };
    assert forall|j: int| 0 <= j < n implies a[j] == b[j] by {
        assert(a[j] == data[pos + j]);
        assert(b[j] == data[pos + j]);
    }
    if a.len() < b.len() {
        assert(a[a.len() - 1] == b[a.len() - 1]);
    } else if b.len() < a.len() {
        assert(a[b.len() - 1] == b[b.len() - 1]);
    }
    assert(a =~= b);
}

pub fn decode_sleb128(data: &[u8], pos: usize) -> (res: Result<(i32, usize), DeserializeError>)
    ensures
        res matches Ok((v, end)) ==> end == pos + sleb128_bytes(v as int).len() && occurs_at(
            data@,
            pos as int,
            sleb128_bytes(v as int),
        ),
        res is Err ==> forall|v: i32| !occurs_at(data@, pos as int, #[trigger] sleb128_bytes(v as int)),
        overlong_leb128(data@, pos as int) ==> res == Err::<(i32, usize), DeserializeError>(DeserializeError::FormatError),
{
    proof {
        lemma_pow128_five();
    }
    let k = match scan_leb128(data, pos) {
        Ok(k) => k,
        Err(e) => {
            assert forall|v: i32| !occurs_at(data@, pos as int, #[trigger] sleb128_bytes(v as int)) by {
                lemma_sleb_bytes(v as int, 5);
            }
            return Err(e);
        },
    };
    let last = data[pos + k];
    let ghost s = data@.subrange(pos as int, pos + k + 1);
    if k > 0 {
        let prev = data[pos + k - 1];
        assert(data@[pos + (k - 1)] >= 128);
        if (last == 0 && prev - 128 < 64) || (last == 127 && prev - 128 >= 64) {
            assert forall|v: i32| !occurs_at(data@, pos as int, #[trigger] sleb128_bytes(v as int)) by {
                lemma_sleb_bytes(v as int, 5);
                if occurs_at(data@, pos as int, sleb128_bytes(v as int)) {
                    let t = sleb128_bytes(v as int);
                    lemma_scan_finds(data@, pos as int, k as int, t);
                    assert(t[t.len() - 2] == data@.subrange(pos as int, pos + k + 1)[k - 1]);
                    lemma_fundamental_div_mod_converse(prev as int, 128, 1, prev - 128);
                }
            }
            return Err(DeserializeError::FormatError);
        }
    }
    let mut v: i64 = if last >= 64 {
        last as i64 - 128
    } else {
        last as i64
    };
    let mut i: usize = k;
    proof {
        lemma_small_mod(last as nat, 128);
        let t = data@.subrange(pos + k, pos + k + 1);
        assert(v == sleb_value(t));
        assert(pow128(0) == 1);
    }
    while i > 0
        invariant
            i <= k < 5,
            pos + k < data.len(),
            forall|j: int| 0 <= j < k ==> #[trigger] data@[pos + j] >= 128,
            v == sleb_value(data@.subrange(pos + i, pos + k + 1)),
            -64 * pow128((k - i) as nat) <= v < 64 * pow128((k - i) as nat),
            pow128(5) == 0x8_0000_0000,
        decreases i,
    {
        proof {
            lemma_pow128_mono((k + 1 - i) as nat, 5);
        }
        assert(pow128((k + 1 - i) as nat) == 128 * pow128((k - i) as nat));
        i = i - 1;
        let b = data[pos + i];
        proof {
            lemma_fundamental_div_mod_converse(b as int, 128, 1, b - 128);
            let t = data@.subrange(pos + i, pos + k + 1);
            assert(t.drop_first() =~= data@.subrange(pos + i + 1, pos + k + 1));
        }
        v = v * 128 + (b - 128) as i64;
    }
    proof {
        assert(sleb_canonical(s)) by {
            assert forall|j: int| 0 <= j < s.len() - 1 implies s[j] >= 128 by {
                assert(s[j] == data@[pos + j]);
            }
            if k > 0 {
                let p = data@[pos + k - 1];
                assert(p >= 128);
                assert(s[s.len() - 2] == p);
                lemma_fundamental_div_mod_converse(p as int, 128, 1, p - 128);
            }
        }
        lemma_sleb_canonical(s);
    }
    if v > 0x7fff_ffff || v < -0x8000_0000 {
        assert forall|w: i32| !occurs_at(data@, pos as int, #[trigger] sleb128_bytes(w as int)) by {
            lemma_sleb_bytes(w as int, 5);
            if occurs_at(data@, pos as int, sleb128_bytes(w as int)) {
                lemma_scan_finds(data@, pos as int, k as int, sleb128_bytes(w as int));
            }
        }
        return Err(DeserializeError::FormatError);
    }
    Ok((v as i32, pos + k + 1))
}

/// Unsigned LEB128 identity: at the start of the encoding of `x`, whatever follows it,
/// the encoding of `x` occurs and that of no other value does; so `decode_uleb128` there
/// cannot fail and returns `x`.
pub proof fn lemma_uleb128_round_trip(x: u32, tail: Seq<u8>)
    ensures
        occurs_at(uleb128_bytes(x as nat) + tail, 0, uleb128_bytes(x as nat)),
        forall|y: u32|
            #[trigger] occurs_at(uleb128_bytes(x as nat) + tail, 0, uleb128_bytes(y as nat)) ==> y
                == x,
{
    lemma_pow128_five();
    let a = uleb128_bytes(x as nat);
    let d = a + tail;
    lemma_uleb_bytes(x as nat, 5);
    assert(d.subrange(0, a.len() as int) =~= a);
    assert forall|y: u32| #[trigger] occurs_at(d, 0, uleb128_bytes(y as nat)) implies y == x by {
        lemma_uleb_bytes(y as nat, 5);
        lemma_prefix_unique(d, 0, a, uleb128_bytes(y as nat));
    }
}

/// Signed LEB128 identity: at the start of the encoding of `x`, whatever follows it,
/// the encoding of `x` occurs and that of no other value does; so `decode_sleb128` there
/// cannot fail and returns `x`.
pub proof fn lemma_sleb128_round_trip(x: i32, tail: Seq<u8>)
    ensures
        occurs_at(sleb128_bytes(x as int) + tail, 0, sleb128_bytes(x as int)),
        forall|y: i32|
            #[trigger] occurs_at(sleb128_bytes(x as int) + tail, 0, sleb128_bytes(y as int)) ==> y
                == x,
{
    lemma_pow128_five();
    let a = sleb128_bytes(x as int);
    let d = a + tail;
    lemma_sleb_bytes(x as int, 5);
    assert(d.subrange(0, a.len() as int) =~= a);
    assert forall|y: i32| #[trigger] occurs_at(d, 0, sleb128_bytes(y as int)) implies y == x by {
        lemma_sleb_bytes(y as int, 5);
        lemma_prefix_unique(d, 0, a, sleb128_bytes(y as int));
    }
}

/// ULEB128p1 identity: at the start of the encoding of `x >= -1`, whatever follows it,
/// the encoding of `x` occurs and that of no other value does; so `decode_uleb128p1`
/// there cannot fail and returns `x`.
pub proof fn lemma_uleb128p1_round_trip(x: i32, tail: Seq<u8>)
    requires
        x >= -1,
    ensures
        occurs_at(uleb128p1_bytes(x as int) + tail, 0, uleb128p1_bytes(x as int)),
        forall|y: i32|
            y >= -1 && #[trigger] occurs_at(
                uleb128p1_bytes(x as int) + tail,
                0,
                uleb128p1_bytes(y as int),
            ) ==> y == x,
{
    lemma_pow128_five();
    let a = uleb128p1_bytes(x as int);
    let d = a + tail;
    lemma_uleb_bytes((x + 1) as nat, 5);
    assert(d.subrange(0, a.len() as int) =~= a);
    assert forall|y: i32| y >= -1 && #[trigger] occurs_at(d, 0, uleb128p1_bytes(y as int)) implies y
        == x by {
        lemma_uleb_bytes((y + 1) as nat, 5);
        lemma_prefix_unique(d, 0, a, uleb128p1_bytes(y as int));
    }
}

/// Two unsigned LEB128 encodings found at the same place encode the same value.
pub proof fn lemma_uleb128_prefix_free(data: Seq<u8>, pos: int, x: u32, y: u32)
    requires
        occurs_at(data, pos, uleb128_bytes(x as nat)),
        occurs_at(data, pos, uleb128_bytes(y as nat)),
    ensures
        x == y,
{
    lemma_pow128_five();
    lemma_uleb_bytes(x as nat, 5);
    lemma_uleb_bytes(y as nat, 5);
    lemma_prefix_unique(data, pos, uleb128_bytes(x as nat), uleb128_bytes(y as nat));
}

/// Two signed LEB128 encodings found at the same place encode the same value.
pub proof fn lemma_sleb128_prefix_free(data: Seq<u8>, pos: int, x: i32, y: i32)
    requires
        occurs_at(data, pos, sleb128_bytes(x as int)),
        occurs_at(data, pos, sleb128_bytes(y as int)),
    ensures
        x == y,
{
    lemma_pow128_five();
    lemma_sleb_bytes(x as int, 5);
    lemma_sleb_bytes(y as int, 5);
    lemma_prefix_unique(data, pos, sleb128_bytes(x as int), sleb128_bytes(y as int));
}

/// Two ULEB128p1 encodings found at the same place encode the same value.
pub proof fn lemma_uleb128p1_prefix_free(data: Seq<u8>, pos: int, x: i32, y: i32)
    requires
        x >= -1,
        y >= -1,
        occurs_at(data, pos, uleb128p1_bytes(x as int)),
        occurs_at(data, pos, uleb128p1_bytes(y as int)),
    ensures
        x == y,
{
    lemma_pow128_five();
    lemma_uleb_bytes((x + 1) as nat, 5);
    lemma_uleb_bytes((y + 1) as nat, 5);
    lemma_prefix_unique(data, pos, uleb128p1_bytes(x as int), uleb128p1_bytes(y as int));
}

} // verus!
