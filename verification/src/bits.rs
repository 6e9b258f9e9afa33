//! The bits of 128-bit numbers: what the bitwise operators do to them, and how
//! the order of two numbers follows from their bits.

use vstd::prelude::*;

verus! {

/// Whether bit `i` of `x` is set; no bit at or above position 128 is.
pub open spec fn has_bit(x: u128, i: nat) -> bool {
    i < 128 && (x >> (i as u32)) & 1 == 1
}

/// Whether `x` is below `2^n`: all its bits from position `n` on are clear.
pub open spec fn fits(x: u128, n: nat) -> bool {
    n >= 128 || x >> (n as u32) == 0
}

/// The number below `2^n` whose bit `j` is `f(j)` for every `j < n`.
pub open spec fn from_bits(f: spec_fn(nat) -> bool, n: nat) -> u128
    decreases n,
{
    if n == 0 {
        0
    } else if n > 128 {
        from_bits(f, 128)
    } else if f((n - 1) as nat) {
        from_bits(f, (n - 1) as nat) | (1u128 << ((n - 1) as u32))
    } else {
        from_bits(f, (n - 1) as nat)
    }
}

/// The position of the highest set bit of `x`; 0 for `x == 0`.
pub open spec fn top_bit(x: u128) -> nat
    decreases x,
{
    if x <= 1 {
        0
    } else {
        1 + top_bit(x / 2)
    }
}

/// The number of clear bits above the highest set bit of `x`; 128 for `x == 0`.
pub open spec fn leading_zeros(x: u128) -> nat {
    if x == 0 {
        128
    } else {
        (127 - top_bit(x)) as nat
    }
}

/// `x` without its bits from position `n` upwards.
pub open spec fn keep_low(x: u128, n: nat) -> u128 {
    if n >= 128 {
        x
    } else {
        x & ((1u128 << (n as u32)) - 1) as u128
    }
}

/// Masking takes bits away only.
proof fn lemma_bv_mask(a: u128, b: u128)
    by (bit_vector)
    ensures
        a & b <= a,
{
}

/// Bit `j` of the results of the bitwise operators, of a single bit and of a
/// run of low bits.
proof fn lemma_bv_bits(a: u128, b: u128, s: u32, j: u32)
    by (bit_vector)
    requires
        s < 128,
        j < 128,
    ensures
        ((0u128 >> j) & 1 == 1) == false,
        (((a | b) >> j) & 1 == 1) == ((a >> j) & 1 == 1 || (b >> j) & 1 == 1),
        (((a & b) >> j) & 1 == 1) == ((a >> j) & 1 == 1 && (b >> j) & 1 == 1),
        (((a ^ b) >> j) & 1 == 1) == (((a >> j) & 1 == 1) != ((b >> j) & 1 == 1)),
        (((!a) >> j) & 1 == 1) == !((a >> j) & 1 == 1),
        a ^ b == 0 <==> a == b,
        (((1u128 << s) >> j) & 1 == 1) == (j == s),
        ((((1u128 << s) - 1) as u128 >> j) & 1 == 1) == (j < s),
        1u128 << s >= 1,
{
}

/// Bit `j` of a number shifted by `s`.
proof fn lemma_bv_shift(a: u128, s: u32, j: u32)
    by (bit_vector)
    requires
        s < 128,
        j < 128,
    ensures
        (((a << s) >> j) & 1 == 1) == (j >= s && (a >> ((j - s) as u32)) & 1 == 1),
        (((a >> s) >> j) & 1 == 1) == (j + s < 128 && (a >> ((j + s) as u32)) & 1 == 1),
{
}

/// A number that is 1 once shifted down by `k` has its highest bit at `k`;
/// one that is 0 then has no bit from `k` on.
proof fn lemma_bv_top(x: u128, k: u32, j: u32)
    by (bit_vector)
    requires
        k < 128,
        j < 128,
    ensures
        1u128 >> 0u32 == 1,
        0u128 >> 0u32 == 0,
        x >= 2 && (x / 2) >> k == 1 ==> k < 127 && x >> ((k + 1) as u32) == 1,
        x >> k == 1 ==> (x >> k) & 1 == 1 && x != 0,
        x >> k == 1 && j > k ==> (x >> j) & 1 == 0 && x >> j == 0,
        x >> k == 0 && j >= k ==> (x >> j) & 1 == 0,
        (x >> k) != 0 ==> x != 0,
{
}

/// Two numbers whose highest difference is at bit `k` compare as their bits
/// there.
proof fn lemma_bv_order(a: u128, b: u128, k: u32)
    by (bit_vector)
    requires
        k < 128,
        (a ^ b) >> k == 1,
    ensures
        a < b <==> (b >> k) & 1 == 1,
        b < a <==> (a >> k) & 1 == 1,
{
}

/// Bit `j` of `from_bits(f, n)` is `f(j)` below `n` and clear from `n` on.
pub proof fn lemma_from_bits(f: spec_fn(nat) -> bool, n: nat, j: nat)
    ensures
        has_bit(from_bits(f, n), j) == (j < n && j < 128 && f(j)),
    decreases n,
{
    if n == 0 {
        if j < 128 {
            lemma_bv_bits(0, 0, 0, j as u32);
        }
    } else if n > 128 {
        lemma_from_bits(f, 128, j);
    } else {
        lemma_from_bits(f, (n - 1) as nat, j);
        if j < 128 {
            lemma_bv_bits(
                from_bits(f, (n - 1) as nat),
                1u128 << ((n - 1) as u32),
                (n - 1) as u32,
                j as u32,
            );
        }
    }
}

/// The bits of `a | b`, `a & b`, `a ^ b` and `!a`.
pub proof fn lemma_bits_logic(a: u128, b: u128, j: nat)
    ensures
        !has_bit(0, j),
        has_bit(a | b, j) == (has_bit(a, j) || has_bit(b, j)),
        has_bit(a & b, j) == (has_bit(a, j) && has_bit(b, j)),
        has_bit(a ^ b, j) == (has_bit(a, j) != has_bit(b, j)),
        has_bit(!a, j) == (j < 128 && !has_bit(a, j)),
{
    if j < 128 {
        lemma_bv_bits(a, b, 0, j as u32);
    }
}

/// The bits of `1 << s` and of `(1 << s) - 1`.
pub proof fn lemma_bits_single(s: u32, j: nat)
    requires
        s < 128,
    ensures
        1u128 << s >= 1,
        has_bit(1u128 << s, j) == (j == s),
        has_bit(((1u128 << s) - 1) as u128, j) == (j < s),
{
    if j < 128 {
        lemma_bv_bits(0, 0, s, j as u32);
    } else {
        lemma_bv_bits(0, 0, s, 0);
    }
}

/// The bits of `a << s` and of `a >> s`.
pub proof fn lemma_bits_shift(a: u128, s: u32, j: nat)
    requires
        s < 128,
    ensures
        has_bit(a << s, j) == (s <= j < 128 && has_bit(a, (j - s) as nat)),
        has_bit(a >> s, j) == has_bit(a, j + s as nat),
{
    if j < 128 {
        lemma_bv_shift(a, s, j as u32);
    }
}

/// A nonzero `x` has its highest set bit at `top_bit(x)`: shifted down by that
/// much, `x` is 1.
pub proof fn lemma_top_bit(x: u128)
    requires
        x != 0,
    ensures
        top_bit(x) < 128,
        x >> (top_bit(x) as u32) == 1,
    decreases x,
{
    if x <= 1 {
        lemma_bv_top(x, 0, 0);
    } else {
        lemma_top_bit(x / 2);
        lemma_bv_top(x, top_bit(x / 2) as u32, 0);
    }
}

/// The bits of a nonzero `x`: set at `top_bit(x)`, clear above it.
pub proof fn lemma_top_bit_bits(x: u128, j: nat)
    requires
        x != 0,
    ensures
        top_bit(x) < 128,
        has_bit(x, top_bit(x)),
        j > top_bit(x) ==> !has_bit(x, j),
{
    lemma_top_bit(x);
    if j < 128 {
        lemma_bv_top(x, top_bit(x) as u32, j as u32);
    } else {
        lemma_bv_top(x, top_bit(x) as u32, 0);
    }
}

/// Two numbers with the same bits are equal.
pub proof fn lemma_bits_equal(a: u128, b: u128)
    requires
        forall|j: nat| j < 128 ==> has_bit(a, j) == has_bit(b, j),
    ensures
        a == b,
{
    if a != b {
        lemma_bv_bits(a, b, 0, 0);
        let k = top_bit(a ^ b);
        lemma_top_bit_bits(a ^ b, 0);
        lemma_bits_logic(a, b, k);
        assert(has_bit(a, k) == has_bit(b, k));
    }
}

/// Two different numbers compare as their bits at the highest position where
/// they differ.
pub proof fn lemma_order(a: u128, b: u128)
    requires
        a != b,
    ensures
        top_bit(a ^ b) < 128,
        has_bit(a, top_bit(a ^ b)) != has_bit(b, top_bit(a ^ b)),
        forall|j: nat| j > top_bit(a ^ b) ==> has_bit(a, j) == has_bit(b, j),
        a < b <==> has_bit(b, top_bit(a ^ b)),
{
    lemma_bv_bits(a, b, 0, 0);
    let k = top_bit(a ^ b);
    lemma_top_bit(a ^ b);
    lemma_top_bit_bits(a ^ b, 0);
    lemma_bits_logic(a, b, k);
    lemma_bv_order(a, b, k as u32);
    assert forall|j: nat| j > k implies has_bit(a, j) == has_bit(b, j) by {
        lemma_top_bit_bits(a ^ b, j);
        lemma_bits_logic(a, b, j);
    }
}

/// If `a` and `b` differ at bit `k` and agree at every bit above it, they
/// compare as their bits at `k`.
pub proof fn lemma_order_at(a: u128, b: u128, k: nat)
    requires
        has_bit(a, k) != has_bit(b, k),
        forall|j: nat| k < j < 128 ==> has_bit(a, j) == has_bit(b, j),
    ensures
        a != b,
        top_bit(a ^ b) == k,
        a < b <==> has_bit(b, k),
{
    assert(a != b);
    lemma_order(a, b);
    let t = top_bit(a ^ b);
    if t < k {
        assert(has_bit(a, k) == has_bit(b, k));
    }
    if t > k {
        assert(has_bit(a, t) == has_bit(b, t));
    }
}

/// A number fits in `n` bits if and only if its bits are clear from `n` on.
pub proof fn lemma_fits(x: u128, n: nat)
    ensures
        fits(x, n) <==> (forall|j: nat| n <= j < 128 ==> !has_bit(x, j)),
{
    if n < 128 {
        if fits(x, n) {
            assert forall|j: nat| n <= j < 128 implies !has_bit(x, j) by {
                lemma_bv_top(x, n as u32, j as u32);
            }
        } else {
            lemma_bv_top(x, n as u32, 0);
            lemma_top_bit_bits(x, 0);
            lemma_top_bit(x);
            let t = top_bit(x);
            if t < n {
                lemma_bv_top(x, t as u32, n as u32);
            }
            assert(n <= t < 128 && has_bit(x, t));
        }
    }
}

/// What `leading_zeros` counts: it is 128 for 0 alone, and the bits of `x`
/// from position `128 - leading_zeros(x)` on are clear.
pub proof fn lemma_leading_zeros(x: u128)
    ensures
        leading_zeros(x) <= 128,
        leading_zeros(x) == 128 <==> x == 0,
        fits(x, (128 - leading_zeros(x)) as nat),
{
    if x != 0 {
        lemma_top_bit(x);
        let t = top_bit(x);
        if t < 127 {
            lemma_bv_top(x, t as u32, (t + 1) as u32);
        }
    } else {
        lemma_bv_top(0, 0, 0);
    }
}

/// What is left of `x` below position `n` fits in `n` bits, is at most `x`,
/// and is `x` itself where `x` fits in `n` bits.
pub proof fn lemma_keep_low(x: u128, n: nat)
    ensures
        fits(keep_low(x, n), n),
        keep_low(x, n) <= x,
        fits(x, n) <==> keep_low(x, n) == x,
{
    let low = keep_low(x, n);
    assert forall|j: nat| has_bit(low, j) == (j < n && has_bit(x, j)) by {
        if n < 128 {
            lemma_bits_logic(x, ((1u128 << (n as u32)) - 1) as u128, j);
            lemma_bits_single(n as u32, j);
        }
    }
    lemma_fits(low, n);
    lemma_fits(x, n);
    if n < 128 {
        lemma_bv_mask(x, ((1u128 << (n as u32)) - 1) as u128);
    }
    if fits(x, n) {
        lemma_bits_equal(low, x);
    }
}

} // verus!
