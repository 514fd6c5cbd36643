//! Mathematical description of the wire encodings shared by every record:
//! little-endian fixed-width integers and the LEB128 family.
use vstd::arithmetic::div_mod::{
    lemma_fundamental_div_mod, lemma_fundamental_div_mod_converse, lemma_small_mod,
};
use vstd::prelude::*;

verus! {

/// `256^n`.
pub open spec fn pow256(n: nat) -> nat
    decreases n,
{
    if n == 0 {
        1
    } else {
        256 * pow256((n - 1) as nat)
    }
}

/// The `n` low-order bytes of `x` in little-endian order (two's complement for negative `x`).
pub open spec fn le_bytes(x: int, n: nat) -> Seq<u8>
    decreases n,
{
    if n == 0 {
        seq![]
    } else {
        seq![(x % 256) as u8] + le_bytes(x / 256, (n - 1) as nat)
    }
}

/// The unsigned value of a little-endian byte string.
pub open spec fn le_value(s: Seq<u8>) -> nat
    decreases s.len(),
{
    if s.len() == 0 {
        0
    } else {
        s[0] as nat + 256 * le_value(s.drop_first())
    }
}

/// Reinterprets an `n`-byte unsigned value as a two's-complement signed one.
pub open spec fn sign_extend(u: nat, n: nat) -> int {
    if n > 0 && u >= pow256(n) / 2 {
        u - pow256(n)
    } else {
        u as int
    }
}

/// `s` occurs in `data` starting at `pos`.
pub open spec fn occurs_at(data: Seq<u8>, pos: int, s: Seq<u8>) -> bool {
    0 <= pos && pos + s.len() <= data.len() && data.subrange(pos, pos + s.len()) == s
}

pub broadcast proof fn lemma_le_bytes_len(x: int, n: nat)
    ensures
        #[trigger] le_bytes(x, n).len() == n,
    decreases n,
{
    if n > 0 {
        lemma_le_bytes_len(x / 256, (n - 1) as nat);
    }
}

pub proof fn lemma_pow256_values()
    ensures
        pow256(1) == 0x100,
        pow256(2) == 0x1_0000,
        pow256(3) == 0x100_0000,
        pow256(4) == 0x1_0000_0000,
        pow256(5) == 0x100_0000_0000,
        pow256(6) == 0x1_0000_0000_0000,
        pow256(7) == 0x100_0000_0000_0000,
        pow256(8) == 0x1_0000_0000_0000_0000,
{
    reveal_with_fuel(pow256, 9);
}

pub proof fn lemma_pow256_positive(n: nat)
    ensures
        pow256(n) >= 1,
    decreases n,
{
    if n > 0 {
        lemma_pow256_positive((n - 1) as nat);
    }
}

pub proof fn lemma_pow256_mono(a: nat, b: nat)
    requires
        a <= b,
    ensures
        pow256(a) <= pow256(b),
    decreases b,
{
    if a < b {
        lemma_pow256_mono(a, (b - 1) as nat);
        lemma_pow256_positive((b - 1) as nat);
    }
}

/// Reading back what was written: the bytes of a value determine it.
pub proof fn lemma_le_value_of_bytes(s: Seq<u8>)
    ensures
        le_bytes(le_value(s) as int, s.len()) == s,
        le_value(s) < pow256(s.len()),
    decreases s.len(),
{
    if s.len() > 0 {
        let r = le_value(s.drop_first());
        lemma_le_value_of_bytes(s.drop_first());
        let x = le_value(s) as int;
        lemma_fundamental_div_mod_converse(x, 256, r as int, s[0] as int);
        assert(le_bytes(x, s.len()) =~= s);
    }
}

/// Adding a multiple of `256^m` does not change the `n <= m` low-order bytes.
pub proof fn lemma_le_bytes_wrap(x: int, k: int, m: nat, n: nat)
    requires
        n <= m,
    ensures
        le_bytes(x + k * pow256(m), n) == le_bytes(x, n),
    decreases n,
{
    if n > 0 {
        let p = pow256((m - 1) as nat);
        assert(k * pow256(m) == (k * p) * 256) by (nonlinear_arith)
            requires
                pow256(m) == 256 * p,
        ;
        lemma_fundamental_div_mod_converse(x + k * pow256(m), 256, x / 256 + k * p, x % 256);
        lemma_le_bytes_wrap(x / 256, k, (m - 1) as nat, (n - 1) as nat);
    }
}

/// Writing the low bytes of a value then reading them back gives the value modulo `256^n`.
pub proof fn lemma_le_bytes_value(x: int, n: nat)
    ensures
        le_value(le_bytes(x, n)) == x % (pow256(n) as int),
    decreases n,
{
    if n > 0 {
        lemma_le_bytes_value(x / 256, (n - 1) as nat);
        lemma_le_bytes_len(x / 256, (n - 1) as nat);
        let s = le_bytes(x, n);
        assert(s.drop_first() =~= le_bytes(x / 256, (n - 1) as nat));
        let p = pow256((n - 1) as nat);
        lemma_pow256_positive((n - 1) as nat);
        let q = (x / 256) / (p as int);
        let r = (x / 256) % (p as int);
        lemma_fundamental_div_mod(x / 256, p as int);
        lemma_fundamental_div_mod(x, 256);
        assert(x == q * (256 * p) + (x % 256 + 256 * r)) by (nonlinear_arith)
            requires
                x == (x / 256) * 256 + x % 256,
                x / 256 == p * q + r,
        ;
        assert(0 <= x % 256 + 256 * r < 256 * p) by (nonlinear_arith)
            requires
                0 <= x % 256 < 256,
                0 <= r < p,
        ;
        lemma_fundamental_div_mod_converse(x, 256 * p as int, q, x % 256 + 256 * r);
    }
}

/// `128^n`.
pub open spec fn pow128(n: nat) -> nat
    decreases n,
{
    if n == 0 {
        1
    } else {
        128 * pow128((n - 1) as nat)
    }
}

/// Unsigned LEB128: 7-bit groups, least significant first, high bit set on every
/// group but the last, stopping as soon as the remaining value is zero.
pub open spec fn uleb128_bytes(x: nat) -> Seq<u8>
    decreases x,
{
    if x < 128 {
        seq![x as u8]
    } else {
        seq![(x % 128 + 128) as u8] + uleb128_bytes(x / 128)
    }
}

/// Signed LEB128: 7-bit groups of the two's-complement value, stopping once the
/// remaining value is all sign bits and the last group's bit 6 carries that sign.
pub open spec fn sleb128_bytes(x: int) -> Seq<u8>
    decreases (if x >= 0 { x } else { -x }),
    via sleb128_bytes_decreases
{
    if (x / 128 == 0 && x % 128 < 64) || (x / 128 == -1 && x % 128 >= 64) {
        seq![(x % 128) as u8]
    } else {
        seq![(x % 128 + 128) as u8] + sleb128_bytes(x / 128)
    }
}

#[via_fn]
proof fn sleb128_bytes_decreases(x: int) {
    lemma_fundamental_div_mod(x, 128);
}

/// ULEB128p1: the ULEB128 encoding of `x + 1`, so that `-1` is representable.
pub open spec fn uleb128p1_bytes(x: int) -> Seq<u8> {
    uleb128_bytes((x + 1) as nat)
}

/// The 7-bit groups of a byte string, least significant first.
pub open spec fn leb_groups_value(s: Seq<u8>) -> nat
    decreases s.len(),
{
    if s.len() == 0 {
        0
    } else {
        (s[0] % 128) as nat + 128 * leb_groups_value(s.drop_first())
    }
}

/// The signed value of a LEB128 byte string: sign-extended from bit 6 of its last byte.
pub open spec fn sleb_value(s: Seq<u8>) -> int
    decreases s.len(),
{
    if s.len() <= 1 {
        if s.len() == 1 && s[0] % 128 >= 64 {
            (s[0] % 128) - 128
        } else if s.len() == 1 {
            (s[0] % 128) as int
        } else {
            0
        }
    } else {
        (s[0] % 128) as int + 128 * sleb_value(s.drop_first())
    }
}

/// Continuation bits are set on every byte but the last.
pub open spec fn leb_frame(s: Seq<u8>) -> bool {
    &&& s.len() >= 1
    &&& forall|i: int| 0 <= i < s.len() - 1 ==> s[i] >= 128
    &&& s[s.len() - 1] < 128
}

/// A minimal unsigned LEB128 string: no trailing zero group.
pub open spec fn uleb_canonical(s: Seq<u8>) -> bool {
    leb_frame(s) && (s.len() > 1 ==> s[s.len() - 1] != 0)
}

/// A minimal signed LEB128 string: the last group is not redundant sign bits.
pub open spec fn sleb_canonical(s: Seq<u8>) -> bool {
    &&& leb_frame(s)
    &&& s.len() > 1 ==> !(s[s.len() - 1] == 0 && s[s.len() - 2] % 128 < 64)
    &&& s.len() > 1 ==> !(s[s.len() - 1] == 127 && s[s.len() - 2] % 128 >= 64)
}

proof fn lemma_frame_rest(s: Seq<u8>)
    requires
        leb_frame(s),
        s.len() > 1,
    ensures
        leb_frame(s.drop_first()),
        s[0] >= 128,
{
    assert forall|i: int| 0 <= i < s.drop_first().len() - 1 implies s.drop_first()[i] >= 128 by {
        assert(s.drop_first()[i] == s[i + 1]);
    }
    assert(s[0] >= 128);
}

/// A minimal unsigned LEB128 string is the encoding of its value.
pub proof fn lemma_uleb_canonical(s: Seq<u8>)
    requires
        uleb_canonical(s),
    ensures
        uleb128_bytes(leb_groups_value(s)) == s,
        s.len() > 1 ==> leb_groups_value(s) >= 128,
        s.len() == 1 ==> leb_groups_value(s) == s[0],
    decreases s.len(),
{
    let x = leb_groups_value(s);
    if s.len() == 1 {
        assert(leb_groups_value(s.drop_first()) == 0);
        lemma_small_mod(s[0] as nat, 128);
        assert(x == s[0] as nat);
        assert(uleb128_bytes(x) =~= s);
    } else {
        let rest = s.drop_first();
        lemma_frame_rest(s);
        assert(rest[rest.len() - 1] == s[s.len() - 1]);
        lemma_uleb_canonical(rest);
        let r = leb_groups_value(rest);
        assert(r >= 1);
        lemma_fundamental_div_mod_converse(x as int, 128, r as int, (s[0] % 128) as int);
        assert(uleb128_bytes(x) =~= s);
    }
}

/// The encoding of `x` is minimal, reads back as `x`, and is short when `x` is small.
pub proof fn lemma_uleb_bytes(x: nat, k: nat)
    requires
        k >= 1,
        x < pow128(k),
    ensures
        uleb_canonical(uleb128_bytes(x)),
        leb_groups_value(uleb128_bytes(x)) == x,
        uleb128_bytes(x).len() <= k,
    decreases x,
{
    let s = uleb128_bytes(x);
    if x < 128 {
        assert(leb_groups_value(s.drop_first()) == 0);
        lemma_small_mod(x, 128);
    } else {
        lemma_fundamental_div_mod(x as int, 128);
        lemma_fundamental_div_mod_converse(
            (x % 128 + 128) as int,
            128,
            1,
            (x % 128) as int,
        );
        assert(k >= 2) by {
            if k < 2 {
                assert(pow128(1) == 128) by {
                    reveal_with_fuel(pow128, 2);
                }
            }
        }
        assert(x / 128 < pow128((k - 1) as nat));
        lemma_uleb_bytes(x / 128, (k - 1) as nat);
        let rest = uleb128_bytes(x / 128);
        assert(s.drop_first() =~= rest);
        assert(s[s.len() - 1] == rest[rest.len() - 1]);
        assert forall|i: int| 0 <= i < s.len() - 1 implies s[i] >= 128 by {
            if i > 0 {
                assert(s[i] == rest[i - 1]);
            }
        }
    }
}

/// A minimal signed LEB128 string is the encoding of its value.
pub proof fn lemma_sleb_canonical(s: Seq<u8>)
    requires
        sleb_canonical(s),
    ensures
        sleb128_bytes(sleb_value(s)) == s,
        s.len() == 1 ==> (sleb_value(s) == 0 <==> s[0] == 0),
        s.len() == 1 ==> (sleb_value(s) == -1 <==> s[0] == 127),
        s.len() > 1 ==> sleb_value(s) != 0 && sleb_value(s) != -1,
    decreases s.len(),
{
    let x = sleb_value(s);
    if s.len() == 1 {
        if s[0] >= 64 {
            lemma_fundamental_div_mod_converse(x, 128, -1, s[0] as int);
        } else {
            lemma_fundamental_div_mod_converse(x, 128, 0, s[0] as int);
        }
        assert(sleb128_bytes(x) =~= s);
    } else {
        let rest = s.drop_first();
        lemma_frame_rest(s);
        assert(rest[rest.len() - 1] == s[s.len() - 1]);
        if rest.len() > 1 {
            assert(rest[rest.len() - 2] == s[s.len() - 2]);
        }
        lemma_sleb_canonical(rest);
        let r = sleb_value(rest);
        lemma_fundamental_div_mod_converse(x, 128, r, (s[0] % 128) as int);
        if rest.len() == 1 {
            assert(s[s.len() - 2] == s[0]);
        }
        assert(sleb128_bytes(x) =~= s);
    }
}

/// The signed encoding of `x` is minimal, reads back as `x`, and is short when `x` is small.
pub proof fn lemma_sleb_bytes(x: int, k: nat)
    requires
        k >= 1,
        -64 * pow128((k - 1) as nat) <= x < 64 * pow128((k - 1) as nat),
    ensures
        sleb_canonical(sleb128_bytes(x)),
        sleb_value(sleb128_bytes(x)) == x,
        sleb128_bytes(x).len() <= k,
    decreases k,
{
    let s = sleb128_bytes(x);
    let lo = x % 128;
    let r = x / 128;
    lemma_fundamental_div_mod_converse(x, 128, r, lo);
    if (r == 0 && lo < 64) || (r == -1 && lo >= 64) {
        assert(s.len() == 1);
    } else {
        assert(k >= 2) by {
            if k < 2 {
                assert(pow128(0) == 1);
            }
        }
        let p = pow128((k - 2) as nat);
        assert(pow128((k - 1) as nat) == 128 * p);
        assert(-64 * p <= r < 64 * p);
        lemma_sleb_bytes(r, (k - 1) as nat);
        let rest = sleb128_bytes(r);
        assert(s.drop_first() =~= rest);
        assert(s[s.len() - 1] == rest[rest.len() - 1]);
        assert forall|i: int| 0 <= i < s.len() - 1 implies s[i] >= 128 by {
            if i > 0 {
                assert(s[i] == rest[i - 1]);
            }
        }
        if rest.len() > 1 {
            assert(s[s.len() - 2] == rest[rest.len() - 2]);
        } else {
            assert(s[s.len() - 2] == s[0]);
            assert(rest[0] == 0 <==> r == 0);
        }
    }
}

pub proof fn lemma_pow128_five()
    ensures
        pow128(4) == 0x1000_0000,
        pow128(5) == 0x8_0000_0000,
{
    reveal_with_fuel(pow128, 6);
}

/// One byte is its own little-endian encoding.
pub proof fn lemma_le_bytes_u8(b: u8)
    ensures
        le_bytes(b as int, 1) == seq![b],
{
    lemma_small_mod(b as nat, 256);
    reveal_with_fuel(le_bytes, 2);
    assert(le_bytes(b as int, 1) =~= seq![b]);
}

pub proof fn lemma_pow256_split(a: nat, b: nat)
    ensures
        pow256(a) * pow256(b) == pow256(a + b),
    decreases a,
{
    if a > 0 {
        lemma_pow256_split((a - 1) as nat, b);
        assert(pow256(a + b) == 256 * pow256((a - 1 + b) as nat));
        assert(pow256(a) * pow256(b) == 256 * (pow256((a - 1) as nat) * pow256(b))) by (nonlinear_arith)
            requires
                pow256(a) == 256 * pow256((a - 1) as nat),
        ;
    } else {
        assert(pow256(0) == 1);
        assert(pow256(a) * pow256(b) == pow256(b));
    }
}

pub proof fn lemma_mul_div_exact(u: int, p: int)
    requires
        p > 0,
        u >= 0,
    ensures
        (u * p) / p == u,
        (u * p) % p == 0,
{
    lemma_fundamental_div_mod_converse(u * p, p, u, 0);
}

pub proof fn lemma_pow128_mono(a: nat, b: nat)
    requires
        a <= b,
    ensures
        1 <= pow128(a) <= pow128(b),
    decreases b,
{
    if a < b {
        lemma_pow128_mono(a, (b - 1) as nat);
    } else if a > 0 {
        lemma_pow128_mono((a - 1) as nat, (a - 1) as nat);
    }
}

/// Values below `256^n` have distinct `n`-byte encodings.
pub proof fn lemma_le_bytes_injective(x: int, y: int, n: nat)
    requires
        0 <= x < pow256(n),
        0 <= y < pow256(n),
        le_bytes(x, n) == le_bytes(y, n),
    ensures
        x == y,
{
    lemma_le_bytes_value(x, n);
    lemma_le_bytes_value(y, n);
    lemma_small_mod(x as nat, pow256(n));
    lemma_small_mod(y as nat, pow256(n));
}

} // verus!
