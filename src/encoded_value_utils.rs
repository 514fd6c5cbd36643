//! The minimum-width policy of encoded values: how many bytes a payload needs.
use crate::decode::pow256_u64;
use crate::wire::{
    le_bytes, le_value, lemma_le_bytes_value, lemma_pow256_mono, lemma_pow256_positive,
    lemma_pow256_split, lemma_pow256_values, pow256, sign_extend,
};
use vstd::arithmetic::div_mod::{lemma_fundamental_div_mod, lemma_fundamental_div_mod_converse};
use vstd::prelude::*;

verus! {

/// `v` survives a round trip through `w` bytes read back with sign extension.
pub open spec fn fits_signed(v: int, w: nat) -> bool {
    -(pow256(w) as int) <= 2 * v < pow256(w)
}

/// `v` survives a round trip through `w` bytes read back with zero extension.
pub open spec fn fits_unsigned(v: int, w: nat) -> bool {
    0 <= v < pow256(w)
}

/// A `full`-byte pattern whose low `full - w` bytes are zero, so its `w` high bytes hold it.
pub open spec fn fits_right(bits: int, w: nat, full: nat) -> bool {
    w <= full && bits % (pow256((full - w) as nat) as int) == 0
}

/// The least width, from one byte up to eight, in which a signed value fits.
pub open spec fn signed_width(v: int) -> nat {
    if fits_signed(v, 1) {
        1
    } else if fits_signed(v, 2) {
        2
    } else if fits_signed(v, 3) {
        3
    } else if fits_signed(v, 4) {
        4
    } else if fits_signed(v, 5) {
        5
    } else if fits_signed(v, 6) {
        6
    } else if fits_signed(v, 7) {
        7
    } else {
        8
    }
}

/// The least width, from one byte up to eight, in which an unsigned value fits.
pub open spec fn unsigned_width(v: int) -> nat {
    if fits_unsigned(v, 1) {
        1
    } else if fits_unsigned(v, 2) {
        2
    } else if fits_unsigned(v, 3) {
        3
    } else if fits_unsigned(v, 4) {
        4
    } else if fits_unsigned(v, 5) {
        5
    } else if fits_unsigned(v, 6) {
        6
    } else if fits_unsigned(v, 7) {
        7
    } else {
        8
    }
}

/// The least number of high-order bytes, from one up to `full`, that hold a bit pattern.
pub open spec fn right_width(bits: int, full: nat) -> nat {
    if fits_right(bits, 1, full) || full <= 1 {
        1
    } else if fits_right(bits, 2, full) || full <= 2 {
        2
    } else if fits_right(bits, 3, full) || full <= 3 {
        3
    } else if fits_right(bits, 4, full) || full <= 4 {
        4
    } else if fits_right(bits, 5, full) || full <= 5 {
        5
    } else if fits_right(bits, 6, full) || full <= 6 {
        6
    } else if fits_right(bits, 7, full) || full <= 7 {
        7
    } else {
        8
    }
}

/// The least width, from one byte up, in which a signed value fits.
pub fn get_required_bytes_signed(data: i64) -> (r: u8)
    ensures
        1 <= r <= 8,
        r == signed_width(data as int),
        fits_signed(data as int, r as nat),
        r > 1 ==> !fits_signed(data as int, (r - 1) as nat),
{
    proof {
        lemma_pow256_values();
    }
    let mut w: u8 = 1;
    loop
        invariant
            1 <= w <= 8,
            w > 1 ==> !fits_signed(data as int, (w - 1) as nat),
            forall|k: nat| 1 <= k < w ==> !fits_signed(data as int, k),
            pow256(8) == 0x1_0000_0000_0000_0000,
        decreases 8 - w,
    {
        if w == 8 {
            return w;
        }
        let half = (pow256_u64(w as usize) / 2) as i64;
        if -half <= data && data < half {
            return w;
        }
        w = w + 1;
    }
}

/// The least width, from one byte up, in which an unsigned value fits.
pub fn get_required_bytes_unsigned(data: u64) -> (r: u8)
    ensures
        1 <= r <= 8,
        r == unsigned_width(data as int),
        fits_unsigned(data as int, r as nat),
        r > 1 ==> !fits_unsigned(data as int, (r - 1) as nat),
{
    proof {
        lemma_pow256_values();
    }
    let mut w: u8 = 1;
    loop
        invariant
            1 <= w <= 8,
            w > 1 ==> !fits_unsigned(data as int, (w - 1) as nat),
            forall|k: nat| 1 <= k < w ==> !fits_unsigned(data as int, k),
            pow256(8) == 0x1_0000_0000_0000_0000,
        decreases 8 - w,
    {
        if w == 8 {
            return w;
        }
        if data < pow256_u64(w as usize) {
            return w;
        }
        w = w + 1;
    }
}

/// The least number of high-order bytes, from one up, that hold a 32-bit pattern.
pub fn get_required_bytes_for_f32(bits: u32) -> (r: u8)
    ensures
        1 <= r <= 4,
        r == right_width(bits as int, 4),
        fits_right(bits as int, r as nat, 4),
        r > 1 ==> !fits_right(bits as int, (r - 1) as nat, 4),
{
    proof {
        lemma_pow256_values();
    }
    let mut w: u8 = 1;
    loop
        invariant
            1 <= w <= 4,
            w > 1 ==> !fits_right(bits as int, (w - 1) as nat, 4),
            forall|k: nat| 1 <= k < w ==> !fits_right(bits as int, k, 4),
        decreases 4 - w,
    {
        if w == 4 {
            assert(bits as int % 1 == 0);
            return w;
        }
        let p = pow256_u64((4 - w) as usize);
        if (bits as u64) % p == 0 {
            return w;
        }
        w = w + 1;
    }
}

/// The least number of high-order bytes, from one up, that hold a 64-bit pattern.
pub fn get_required_bytes_for_f64(bits: u64) -> (r: u8)
    ensures
        1 <= r <= 8,
        r == right_width(bits as int, 8),
        fits_right(bits as int, r as nat, 8),
        r > 1 ==> !fits_right(bits as int, (r - 1) as nat, 8),
{
    proof {
        lemma_pow256_values();
    }
    let mut w: u8 = 1;
    loop
        invariant
            1 <= w <= 8,
            w > 1 ==> !fits_right(bits as int, (w - 1) as nat, 8),
            forall|k: nat| 1 <= k < w ==> !fits_right(bits as int, k, 8),
        decreases 8 - w,
    {
        if w == 8 {
            assert(bits as int % 1 == 0);
            return w;
        }
        let p = pow256_u64((8 - w) as usize);
        if bits % p == 0 {
            return w;
        }
        w = w + 1;
    }
}

/// The minimum-width law for signed payloads: the chosen width reads back the value
/// exactly, and one byte fewer would lose information or flip its sign.
pub proof fn lemma_signed_width_round_trip(v: int, w: nat)
    requires
        1 <= w,
        fits_signed(v, w),
        w > 1 ==> !fits_signed(v, (w - 1) as nat),
    ensures
        sign_extend(le_value(le_bytes(v, w)), w) == v,
        w > 1 ==> sign_extend(le_value(le_bytes(v, (w - 1) as nat)), (w - 1) as nat) != v,
{
    lemma_sign_extend_of_bytes(v, w);
    if w > 1 {
        lemma_sign_extend_of_bytes(v, (w - 1) as nat);
    }
}

/// Reading `w` written bytes back with sign extension yields a value that fits in `w`
/// bytes, and yields `v` itself when `v` fits.
pub proof fn lemma_sign_extend_of_bytes(v: int, w: nat)
    requires
        w >= 1,
    ensures
        fits_signed(sign_extend(le_value(le_bytes(v, w)), w), w),
        fits_signed(v, w) ==> sign_extend(le_value(le_bytes(v, w)), w) == v,
{
    lemma_le_bytes_value(v, w);
    lemma_pow256_positive((w - 1) as nat);
    let p = pow256(w) as int;
    assert(p == 256 * pow256((w - 1) as nat));
    lemma_fundamental_div_mod(v, p);
    let u = v % p;
    if fits_signed(v, w) {
        if v >= 0 {
            lemma_fundamental_div_mod_converse(v, p, 0, v);
        } else {
            lemma_fundamental_div_mod_converse(v, p, -1, v + p);
        }
    }
}

/// The minimum-width law for unsigned payloads.
pub proof fn lemma_unsigned_width_round_trip(v: int, w: nat)
    requires
        1 <= w,
        fits_unsigned(v, w),
        w > 1 ==> !fits_unsigned(v, (w - 1) as nat),
    ensures
        le_value(le_bytes(v, w)) == v,
        w > 1 ==> le_value(le_bytes(v, (w - 1) as nat)) != v,
{
    lemma_le_bytes_value(v, w);
    lemma_fundamental_div_mod_converse(v, pow256(w) as int, 0, v);
    if w > 1 {
        lemma_le_bytes_value(v, (w - 1) as nat);
        lemma_pow256_positive((w - 1) as nat);
        lemma_fundamental_div_mod(v, pow256((w - 1) as nat) as int);
    }
}

/// The minimum-width law for floating-point bit patterns of `full` bytes: the chosen
/// number of high-order bytes reads back the pattern exactly, and one byte fewer would not.
pub proof fn lemma_right_width_round_trip(bits: int, w: nat, full: nat)
    requires
        1 <= w <= full,
        0 <= bits < pow256(full),
        fits_right(bits, w, full),
        w > 1 ==> !fits_right(bits, (w - 1) as nat, full),
    ensures
        le_value(le_bytes(bits / pow256((full - w) as nat) as int, w)) * pow256(
            (full - w) as nat,
        ) == bits,
        w > 1 ==> le_value(le_bytes(bits / pow256((full - w + 1) as nat) as int, (w - 1) as nat))
            * pow256((full - w + 1) as nat) != bits,
{
    let p = pow256((full - w) as nat) as int;
    lemma_pow256_positive((full - w) as nat);
    lemma_pow256_split(w, (full - w) as nat);
    lemma_fundamental_div_mod(bits, p);
    let q = bits / p;
    assert(0 <= q < pow256(w)) by (nonlinear_arith)
        requires
            bits == p * q,
            0 <= bits < pow256(w) * p,
            p >= 1,
    ;
    lemma_le_bytes_value(q, w);
    lemma_fundamental_div_mod_converse(q, pow256(w) as int, 0, q);
    assert(q * p == bits) by (nonlinear_arith)
        requires
            bits == p * q + bits % p,
            bits % p == 0,
    ;
    if w > 1 {
        let coarse = pow256((full - w + 1) as nat) as int;
        lemma_pow256_positive((full - w + 1) as nat);
        lemma_fundamental_div_mod(bits, coarse);
        let high = bits / coarse;
        lemma_le_bytes_value(high, (w - 1) as nat);
        lemma_pow256_split((w - 1) as nat, (full - w + 1) as nat);
        assert(0 <= high < pow256((w - 1) as nat)) by (nonlinear_arith)
            requires
                0 <= bits < pow256((w - 1) as nat) * coarse,
                bits == coarse * high + bits % coarse,
                0 <= bits % coarse < coarse,
                coarse >= 1,
        ;
        lemma_fundamental_div_mod_converse(high, pow256((w - 1) as nat) as int, 0, high);
        assert((high * coarse) % coarse == 0) by {
            crate::wire::lemma_mul_div_exact(high, coarse);
        }
    }
}

} // verus!
