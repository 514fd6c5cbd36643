//! Writers for the primitive encodings. Each appends its bytes to `out`.
use crate::decode::pow256_u64;
use crate::wire::{
    le_bytes, lemma_le_bytes_len, lemma_le_bytes_wrap, lemma_pow256_values, pow256,
    sleb128_bytes, uleb128_bytes, uleb128p1_bytes,
};
use vstd::arithmetic::div_mod::{lemma_fundamental_div_mod, lemma_fundamental_div_mod_converse};
use vstd::prelude::*;

verus! {

broadcast use lemma_le_bytes_len;

pub fn encode_uleb128(out: &mut Vec<u8>, data: u32)
    ensures
        final(out)@ == old(out)@ + uleb128_bytes(data as nat),
{
    let mut d: u32 = data;
    loop
        invariant
            old(out)@ + uleb128_bytes(data as nat) == out@ + uleb128_bytes(d as nat),
        decreases d,
    {
        let ghost prev = out@;
        let byte = (d % 128) as u8;
        if d < 128 {
            out.push(byte);
            assert(prev + uleb128_bytes(d as nat) =~= out@);
            return;
        }
        out.push(byte + 128);
        assert(prev + uleb128_bytes(d as nat) =~= out@ + uleb128_bytes((d / 128) as nat));
        d = d / 128;
    }
}

pub fn encode_uleb128p1(out: &mut Vec<u8>, data: i32)
    requires
        data >= -1,
    ensures
        final(out)@ == old(out)@ + uleb128p1_bytes(data as int),
{
    encode_uleb128(out, (data as i64 + 1) as u32);
}

/// Splits `x` into its low 7-bit group and the rest, rounding toward negative infinity.
fn split_group(x: i64) -> (r: (u8, i64))
    requires
        -0x100_0000_0000 <= x < 0x100_0000_0000,
    ensures
        r.0 as int == x % 128,
        r.1 as int == x / 128,
{
    let u: u64 = (x + 0x100_0000_0000) as u64;
    let lo = (u % 128) as u8;
    let hi = (u / 128) as i64 - 0x2_0000_0000;
    proof {
        lemma_fundamental_div_mod(u as int, 128);
        lemma_fundamental_div_mod_converse(x as int, 128, hi as int, lo as int);
    }
    (lo, hi)
}

pub fn encode_sleb128(out: &mut Vec<u8>, data: i32)
    ensures
        final(out)@ == old(out)@ + sleb128_bytes(data as int),
{
    let mut d: i64 = data as i64;
    loop
        invariant
            old(out)@ + sleb128_bytes(data as int) == out@ + sleb128_bytes(d as int),
            -0x8000_0000 <= d < 0x8000_0000,
        decreases (if d >= 0 { d as int } else { -d }),
    {
        let ghost prev = out@;
        let (lo, rest) = split_group(d);
        if (rest == 0 && lo < 64) || (rest == -1 && lo >= 64) {
            out.push(lo);
            assert(prev + sleb128_bytes(d as int) =~= out@);
            return;
        }
        out.push(lo + 128);
        assert(prev + sleb128_bytes(d as int) =~= out@ + sleb128_bytes(rest as int));
        proof {
            lemma_fundamental_div_mod(d as int, 128);
        }
        d = rest;
    }
}

pub fn size_uleb128(data: u32) -> (r: usize)
    ensures
        r == uleb128_bytes(data as nat).len(),
        1 <= r <= 5,
{
    let mut d: u32 = data;
    let mut n: usize = 1;
    while d >= 128
        invariant
            uleb128_bytes(data as nat).len() == n - 1 + uleb128_bytes(d as nat).len(),
            1 <= n,
            n - 1 + (if d >= 0x1000_0000 { 4int } else if d >= 0x20_0000 { 3int } else if d
                >= 0x4000 { 2int } else if d >= 0x80 { 1int } else { 0int }) <= 4,
        decreases d,
    {
        d = d / 128;
        n = n + 1;
    }
    n
}

pub fn size_sleb128(data: i32) -> (r: usize)
    ensures
        r == sleb128_bytes(data as int).len(),
        1 <= r <= 5,
{
    let mut d: i64 = data as i64;
    let mut n: usize = 1;
    loop
        invariant
            sleb128_bytes(data as int).len() == n - 1 + sleb128_bytes(d as int).len(),
            1 <= n,
            n - 1 + (if d >= 0x800_0000 || d < -0x800_0000 { 4int } else if d >= 0x10_0000
                || d < -0x10_0000 { 3int } else if d >= 0x2000 || d < -0x2000 { 2int } else if d
                >= 0x40 || d < -0x40 { 1int } else { 0int }) <= 4,
            -0x8000_0000 <= d < 0x8000_0000,
        decreases (if d >= 0 { d as int } else { -d }),
    {
        let (lo, rest) = split_group(d);
        if (rest == 0 && lo < 64) || (rest == -1 && lo >= 64) {
            return n;
        }
        proof {
            lemma_fundamental_div_mod(d as int, 128);
        }
        d = rest;
        n = n + 1;
    }
}

pub fn size_uleb128p1(data: i32) -> (r: usize)
    requires
        data >= -1,
    ensures
        r == uleb128p1_bytes(data as int).len(),
{
    size_uleb128((data as i64 + 1) as u32)
}

/// Writes the `num` low-order bytes of `data`, little-endian.
pub fn encode_nbytes(out: &mut Vec<u8>, num: u8, data: u64)
    requires
        num <= 8,
    ensures
        final(out)@ == old(out)@ + le_bytes(data as int, num as nat),
{
    let mut d: u64 = data;
    let mut i: u8 = 0;
    while i < num
        invariant
            i <= num,
            old(out)@ + le_bytes(data as int, num as nat) == out@ + le_bytes(
                d as int,
                (num - i) as nat,
            ),
        decreases num - i,
    {
        let ghost prev = out@;
        out.push((d % 256) as u8);
        assert(prev + le_bytes(d as int, (num - i) as nat) =~= out@ + le_bytes(
            (d / 256) as int,
            (num - i - 1) as nat,
        ));
        d = d / 256;
        i = i + 1;
    }
    assert(out@ + le_bytes(d as int, 0) =~= out@);
}

/// Writes the `num` high-order bytes of a 32-bit pattern (its low bytes are dropped).
pub fn encode_nbytes_for_float(out: &mut Vec<u8>, num: u8, data: u32)
    requires
        1 <= num <= 4,
    ensures
        final(out)@ == old(out)@ + le_bytes(data as int / pow256((4 - num) as nat) as int, num as nat),
{
    let p = pow256_u64((4 - num) as usize);
    proof {
        lemma_pow256_values();
    }
    encode_nbytes(out, num, (data as u64) / p);
}

/// Writes the `num` high-order bytes of a 64-bit pattern (its low bytes are dropped).
pub fn encode_nbytes_for_double(out: &mut Vec<u8>, num: u8, data: u64)
    requires
        1 <= num <= 8,
    ensures
        final(out)@ == old(out)@ + le_bytes(data as int / pow256((8 - num) as nat) as int, num as nat),
{
    let p = pow256_u64((8 - num) as usize);
    encode_nbytes(out, num, data / p);
}

pub fn encode_u64(out: &mut Vec<u8>, data: u64)
    ensures
        final(out)@ == old(out)@ + le_bytes(data as int, 8),
{
    encode_nbytes(out, 8, data);
}

pub fn encode_u32(out: &mut Vec<u8>, data: u32)
    ensures
        final(out)@ == old(out)@ + le_bytes(data as int, 4),
{
    encode_nbytes(out, 4, data as u64);
}

pub fn encode_u16(out: &mut Vec<u8>, data: u16)
    ensures
        final(out)@ == old(out)@ + le_bytes(data as int, 2),
{
    encode_nbytes(out, 2, data as u64);
}

pub fn encode_u8(out: &mut Vec<u8>, data: u8)
    ensures
        final(out)@ == old(out)@ + le_bytes(data as int, 1),
{
    encode_nbytes(out, 1, data as u64);
}

/// Writes a signed value of any width up to eight bytes in two's complement.
pub fn encode_signed(out: &mut Vec<u8>, num: u8, data: i64)
    requires
        num <= 8,
    ensures
        final(out)@ == old(out)@ + le_bytes(data as int, num as nat),
{
    let u = data as u64;
    proof {
        crate::decode::lemma_cast_64(0, data);
        lemma_pow256_values();
        if data < 0 {
            lemma_le_bytes_wrap(data as int, 1, 8, num as nat);
        }
    }
    encode_nbytes(out, num, u);
}

pub fn encode_i64(out: &mut Vec<u8>, data: i64)
    ensures
        final(out)@ == old(out)@ + le_bytes(data as int, 8),
{
    encode_signed(out, 8, data);
}

pub fn encode_i32(out: &mut Vec<u8>, data: i32)
    ensures
        final(out)@ == old(out)@ + le_bytes(data as int, 4),
{
    encode_signed(out, 4, data as i64);
}

pub fn encode_i16(out: &mut Vec<u8>, data: i16)
    ensures
        final(out)@ == old(out)@ + le_bytes(data as int, 2),
{
    encode_signed(out, 2, data as i64);
}

pub fn encode_i8(out: &mut Vec<u8>, data: i8)
    ensures
        final(out)@ == old(out)@ + le_bytes(data as int, 1),
{
    encode_signed(out, 1, data as i64);
}

} // verus!
