//! Boxes of interleaved codes, bit by bit.
//!
//! A code holds the bits of several dimensions in turn, so a box of codes is
//! not an interval: it is what lies between two corners in every dimension's
//! own bits. This module follows a scan of the bits of a code `z` from the
//! highest down, which narrows a box to the codes that agree with `z` so far
//! and keeps the best code of the box on either side of `z`.

use vstd::prelude::*;
use crate::bits::{
    fits, from_bits, has_bit, lemma_bits_equal, lemma_bits_logic, lemma_from_bits,
    lemma_top_bit, top_bit,
};

verus! {

/// The bits of one dimension: the positions with remainder `d` by `dims`.
pub open spec fn lane_mask(d: nat, dims: nat) -> u128 {
    from_bits(|j: nat| j % dims == d, 128)
}

/// Whether `c` lies between `lo` and `hi` in the dimension whose bits `m` holds.
pub open spec fn between(c: u128, lo: u128, hi: u128, m: u128) -> bool {
    lo & m <= c & m && c & m <= hi & m
}

/// Whether `c` lies between `lo` and `hi` in each of the `dims` dimensions.
pub open spec fn inside(c: u128, lo: u128, hi: u128, dims: nat) -> bool {
    forall|d: nat| d < dims ==> between(c, lo, hi, #[trigger] lane_mask(d, dims))
}

/// Whether `p` has exactly one bit set.
pub open spec fn single(p: u128) -> bool {
    p != 0 && p & (p - 1) as u128 == 0
}

/// The bits of `x` above the one of `p`.
pub open spec fn above(x: u128, p: u128) -> u128 {
    x & !(p | (p - 1) as u128)
}

/// The bits of `x` from the one of `p` upwards.
pub open spec fn upward(x: u128, p: u128) -> u128 {
    x & !((p - 1) as u128)
}

/// The bits of `m` below the one of `p`.
pub open spec fn lane_below(m: u128, p: u128) -> u128 {
    m & (p - 1) as u128
}

/// `x` with the bit of `p` cleared and the bits of `l` set.
pub open spec fn fill_below(x: u128, p: u128, l: u128) -> u128 {
    (x & !p) | l
}

/// `x` with the bit of `p` set and the bits of `l` cleared.
pub open spec fn clear_below(x: u128, p: u128, l: u128) -> u128 {
    (x | p) & !l
}

/// Two codes that first differ at the bit of `p`, a bit of dimension `m`,
/// stand as they stand in that dimension.
proof fn lemma_bv_corner(c: u128, h: u128, m: u128, p: u128)
    by (bit_vector)
    requires
        single(p),
        above(c, p) == above(h, p),
        c & p != h & p,
        m & p == p,
    ensures
        c & m <= h & m ==> c < h,
        h & m <= c & m ==> h < c,
{
}

/// The corners of the two halves of a box that is split at the bit of `p`,
/// where the lower corner lacks that bit and the upper corner has it: both
/// halves lie in the box, and differ from it in the dimension `m` alone.
proof fn lemma_bv_halves(lo: u128, hi: u128, m: u128, m2: u128, p: u128)
    by (bit_vector)
    requires
        single(p),
        m & p == p,
        above(lo, p) == above(hi, p),
        lo & p == 0,
        hi & p == p,
    ensures
        lo & m <= fill_below(hi, p, lane_below(m, p)) & m,
        fill_below(hi, p, lane_below(m, p)) & m <= hi & m,
        lo & m <= clear_below(lo, p, lane_below(m, p)) & m,
        clear_below(lo, p, lane_below(m, p)) & m <= hi & m,
        above(fill_below(hi, p, lane_below(m, p)), p) == above(hi, p),
        above(clear_below(lo, p, lane_below(m, p)), p) == above(lo, p),
        fill_below(hi, p, lane_below(m, p)) & p == 0,
        clear_below(lo, p, lane_below(m, p)) & p == p,
        m2 & m == 0 ==> fill_below(hi, p, lane_below(m, p)) & m2 == hi & m2,
        m2 & m == 0 ==> clear_below(lo, p, lane_below(m, p)) & m2 == lo & m2,
{
}

/// Where a code that agrees with the corners above the bit of `p` stands in
/// the dimension `m` of that bit.
proof fn lemma_bv_member(c: u128, lo: u128, hi: u128, m: u128, p: u128)
    by (bit_vector)
    requires
        single(p),
        m & p == p,
        above(lo, p) == above(hi, p),
    ensures
        above(c, p) == above(hi, p) && c & p == 0 && hi & p == p ==> c & m <= fill_below(
            hi,
            p,
            lane_below(m, p),
        ) & m,
        above(c, p) == above(lo, p) && c & p == p && lo & p == 0 ==> clear_below(
            lo,
            p,
            lane_below(m, p),
        ) & m <= c & m,
        above(c, p) == above(lo, p) && lo & m <= c & m && c & m <= hi & m && lo & p == hi & p
            ==> c & p == lo & p,
        lo & p == p && hi & p == 0 ==> lo & m > hi & m,
{
}

/// How numbers stand by their bits above the bit of `p`, and from it upwards.
proof fn lemma_bv_prefix(c: u128, z: u128, x: u128, p: u128)
    by (bit_vector)
    requires
        single(p),
    ensures
        upward(c, p) == upward(z, p) <==> above(c, p) == above(z, p) && c & p == z & p,
        upward(c, p) < upward(z, p) <==> above(c, p) < above(z, p) || (above(c, p) == above(z, p)
            && c & p == 0 && z & p == p),
        above(c, p) < above(z, p) ==> c < z,
        upward(c, p) < upward(z, p) ==> c < z,
        above(c, p) < above(z, p) && above(x, p) == above(z, p) ==> c < x,
        above(c, p) < above(z, p) && above(x, p) == above(c, p) ==> x < z,
        c <= z ==> above(c, p) <= above(z, p) && upward(c, p) <= upward(z, p),
        c & p == 0 || c & p == p,
        p >= 2 ==> single(p >> 1u32) && above(c, p >> 1u32) == upward(c, p),
        p == 1 ==> upward(c, p) == c,
{
}


/// Bit `i` as a mask: the bits of a number around it.
proof fn lemma_bv_pivot(x: u128, y: u128, i: u32)
    by (bit_vector)
    requires
        i < 128,
    ensures
        single(1u128 << i),
        ((x >> i) & 1 == 1) == (x & (1u128 << i) == (1u128 << i)),
        x & (1u128 << i) == 0 || x & (1u128 << i) == (1u128 << i),
        i >= 1 ==> (1u128 << i) >> 1u32 == 1u128 << ((i - 1) as u32) && (1u128 << i) >= 2,
        i == 0 ==> 1u128 << i == 1,
        (x ^ y) >> i == 1 ==> above(x, 1u128 << i) == above(y, 1u128 << i) && x & (1u128 << i) != y
            & (1u128 << i),
        (i == 127 || x >> ((i + 1) as u32) == 0) <==> above(x, 1u128 << i) == 0,
        x >> 0u32 == x,
{
}

/// `x` without its `k` lowest bits: the bits of `x` from position `k` upwards.
pub open spec fn prefix(x: u128, k: u32) -> u128 {
    if k == 0 {
        x
    } else if k > 128 {
        0
    } else {
        above(x, 1u128 << ((k - 1) as u32))
    }
}

/// The bits of the mask of dimension `d`.
pub proof fn lemma_lane_bit(d: nat, dims: nat, j: nat)
    ensures
        has_bit(lane_mask(d, dims), j) == (j < 128 && j % dims == d),
{
    lemma_from_bits(|j: nat| j % dims == d, 128, j);
}

/// The masks of two different dimensions share no bit.
pub proof fn lemma_lanes_apart(d1: nat, d2: nat, dims: nat)
    requires
        d1 != d2,
    ensures
        lane_mask(d1, dims) & lane_mask(d2, dims) == 0,
{
    let both = lane_mask(d1, dims) & lane_mask(d2, dims);
    assert forall|j: nat| j < 128 implies has_bit(both, j) == has_bit(0, j) by {
        lemma_bits_logic(lane_mask(d1, dims), lane_mask(d2, dims), j);
        lemma_lane_bit(d1, dims, j);
        lemma_lane_bit(d2, dims, j);
    }
    lemma_bits_equal(both, 0);
}

/// Bit `i` as a pivot: it is a single bit of the mask of its dimension, and
/// the prefixes of `x` around it are the bits of `x` above it and from it
/// upwards.
pub proof fn lemma_pivot(x: u128, i: u32, dims: nat)
    requires
        i < 128,
        0 < dims,
    ensures
        single(1u128 << i),
        lane_mask(i as nat % dims, dims) & (1u128 << i) == (1u128 << i),
        prefix(x, (i + 1) as u32) == above(x, 1u128 << i),
        prefix(x, i) == upward(x, 1u128 << i),
        has_bit(x, i as nat) == (x & (1u128 << i) == (1u128 << i)),
        !has_bit(x, i as nat) == (x & (1u128 << i) == 0),
{
    let p = 1u128 << i;
    let m = lane_mask(i as nat % dims, dims);
    lemma_bv_pivot(x, 0, i);
    lemma_bv_pivot(m, 0, i);
    lemma_lane_bit(i as nat % dims, dims, i as nat);
    lemma_bv_prefix(x, 0, 0, p);
}

/// A code inside a box lies between the box's corners as a number.
pub proof fn lemma_corner(c: u128, lo: u128, hi: u128, dims: nat)
    requires
        0 < dims,
        inside(c, lo, hi, dims),
    ensures
        lo <= c <= hi,
{
    if c != hi {
        lemma_bits_logic(c, hi, 0);
        lemma_xor_nonzero(c, hi);
        lemma_top_bit(c ^ hi);
        let t = top_bit(c ^ hi) as u32;
        lemma_bv_pivot(c, hi, t);
        lemma_pivot(c, t, dims);
        assert(between(c, lo, hi, lane_mask(t as nat % dims, dims)));
        lemma_bv_corner(c, hi, lane_mask(t as nat % dims, dims), 1u128 << t);
    }
    if c != lo {
        lemma_xor_nonzero(c, lo);
        lemma_top_bit(c ^ lo);
        let t = top_bit(c ^ lo) as u32;
        lemma_bv_pivot(c, lo, t);
        lemma_pivot(c, t, dims);
        assert(between(c, lo, hi, lane_mask(t as nat % dims, dims)));
        lemma_bv_corner(c, lo, lane_mask(t as nat % dims, dims), 1u128 << t);
    }
}

/// Two different numbers differ in some bit.
proof fn lemma_xor_nonzero(a: u128, b: u128)
    by (bit_vector)
    requires
        a != b,
    ensures
        a ^ b != 0,
{
}

/// The numbers that fit in `k` bits are those without bits from position `k`
/// upwards.
pub proof fn lemma_prefix_zero(x: u128, k: u32)
    requires
        k <= 128,
    ensures
        fits(x, k as nat) <==> prefix(x, k) == 0,
{
    if k == 0 {
        lemma_bv_pivot(x, 0, 0);
    } else {
        lemma_bv_pivot(x, 0, (k - 1) as u32);
    }
}

/// A code inside a box fits in as many bits as the box's upper corner.
pub proof fn lemma_inside_fits(c: u128, lo: u128, hi: u128, dims: nat, n: nat)
    requires
        0 < dims,
        inside(c, lo, hi, dims),
        fits(hi, n),
    ensures
        fits(c, n),
{
    if n < 128 {
        lemma_corner(c, lo, hi, dims);
        lemma_prefix_zero(hi, n as u32);
        lemma_prefix_zero(c, n as u32);
        if n > 0 {
            lemma_bv_pivot(c, 0, (n - 1) as u32);
            lemma_bv_prefix(c, hi, 0, 1u128 << ((n - 1) as u32));
        }
    }
}

/// The state of a scan of the bits of `z` against the box from `lo0` to
/// `hi0`, when the bits from position `k` upwards are done: `lo` and `hi` span
/// the codes of the box that agree with `z` on those bits.
pub open spec fn scanned(
    z: u128,
    lo0: u128,
    hi0: u128,
    lo: u128,
    hi: u128,
    k: u32,
    dims: nat,
) -> bool {
    &&& prefix(lo, k) == prefix(z, k)
    &&& prefix(hi, k) == prefix(z, k)
    &&& inside(lo, lo, hi, dims)
    &&& forall|c: u128|
        #![trigger inside(c, lo, hi, dims)]
        #![trigger inside(c, lo0, hi0, dims)]
        inside(c, lo, hi, dims) <==> inside(c, lo0, hi0, dims) && prefix(c, k) == prefix(z, k)
}

/// A box whose corners stand in order in every dimension holds both corners.
pub proof fn lemma_corners_inside(lo: u128, hi: u128, dims: nat)
    requires
        inside(lo, lo, hi, dims),
    ensures
        inside(hi, lo, hi, dims),
{
    assert forall|d: nat| d < dims implies between(hi, lo, hi, #[trigger] lane_mask(d, dims)) by {
        assert(between(lo, lo, hi, lane_mask(d, dims)));
    }
}

/// A scan may start at any position from which `z` and both corners have no
/// bits.
pub proof fn lemma_scan_start(z: u128, lo0: u128, hi0: u128, k: u32, dims: nat)
    requires
        0 < dims,
        k <= 128,
        inside(lo0, lo0, hi0, dims),
        prefix(z, k) == 0,
        prefix(lo0, k) == 0,
        prefix(hi0, k) == 0,
    ensures
        scanned(z, lo0, hi0, lo0, hi0, k, dims),
{
    assert forall|c: u128| inside(c, lo0, hi0, dims) implies prefix(c, k) == prefix(z, k) by {
        lemma_corner(c, lo0, hi0, dims);
        if k > 0 {
            lemma_bv_pivot(c, 0, (k - 1) as u32);
            lemma_bv_prefix(c, hi0, 0, 1u128 << ((k - 1) as u32));
        }
    }
}

/// Where `z` and both corners have the same bit `i`, the corners stay.
pub proof fn lemma_scan_same(z: u128, lo0: u128, hi0: u128, lo: u128, hi: u128, i: u32, dims: nat)
    requires
        0 < dims,
        i < 128,
        scanned(z, lo0, hi0, lo, hi, (i + 1) as u32, dims),
        has_bit(lo, i as nat) == has_bit(z, i as nat),
        has_bit(hi, i as nat) == has_bit(z, i as nat),
    ensures
        scanned(z, lo0, hi0, lo, hi, i, dims),
{
    let p = 1u128 << i;
    let m = lane_mask(i as nat % dims, dims);
    lemma_pivot(z, i, dims);
    lemma_pivot(lo, i, dims);
    lemma_pivot(hi, i, dims);
    lemma_bv_prefix(lo, z, 0, p);
    lemma_bv_prefix(hi, z, 0, p);
    assert forall|c: u128|
        #![trigger inside(c, lo, hi, dims)]
        #![trigger inside(c, lo0, hi0, dims)]
        inside(c, lo, hi, dims) <==> inside(c, lo0, hi0, dims) && prefix(c, i) == prefix(
            z,
            i,
        ) by {
        lemma_pivot(c, i, dims);
        lemma_bv_prefix(c, z, 0, p);
        if inside(c, lo, hi, dims) {
            assert(between(c, lo, hi, lane_mask(i as nat % dims, dims)));
            lemma_bv_member(c, lo, hi, m, p);
        }
    }
}

/// Where bit `i` is clear in `z` and in `lo` and set in `hi`, the codes that
/// agree with `z` lie in the lower half: `hi` drops to that half's corner.
pub proof fn lemma_scan_lower(z: u128, lo0: u128, hi0: u128, lo: u128, hi: u128, i: u32, dims: nat)
    requires
        0 < dims,
        i < 128,
        scanned(z, lo0, hi0, lo, hi, (i + 1) as u32, dims),
        !has_bit(z, i as nat),
        !has_bit(lo, i as nat),
        has_bit(hi, i as nat),
    ensures
        scanned(
            z,
            lo0,
            hi0,
            lo,
            fill_below(hi, 1u128 << i, lane_below(lane_mask(i as nat % dims, dims), 1u128 << i)),
            i,
            dims,
        ),
{
    let p = 1u128 << i;
    let m = lane_mask(i as nat % dims, dims);
    let cut = fill_below(hi, p, lane_below(m, p));
    lemma_pivot(z, i, dims);
    lemma_pivot(lo, i, dims);
    lemma_pivot(hi, i, dims);
    lemma_pivot(cut, i, dims);
    lemma_bv_halves(lo, hi, m, 0, p);
    lemma_bv_prefix(lo, z, 0, p);
    lemma_bv_prefix(cut, z, 0, p);
    lemma_half_lanes(lo, hi, i, dims);
    assert forall|d: nat| d < dims implies between(lo, lo, cut, #[trigger] lane_mask(d, dims)) by {
        assert(between(lo, lo, hi, lane_mask(d, dims)));
    }
    assert forall|c: u128|
        #![trigger inside(c, lo, cut, dims)]
        #![trigger inside(c, lo0, hi0, dims)]
        inside(c, lo, cut, dims) <==> inside(c, lo0, hi0, dims) && prefix(c, i) == prefix(
            z,
            i,
        ) by {
        lemma_pivot(c, i, dims);
        lemma_bv_prefix(c, z, 0, p);
        lemma_bv_member(c, lo, hi, m, p);
        lemma_bv_member(c, lo, cut, m, p);
        if inside(c, lo, cut, dims) {
            assert forall|d: nat| d < dims implies between(
                c,
                lo,
                hi,
                #[trigger] lane_mask(d, dims),
            ) by {
                assert(between(c, lo, cut, lane_mask(d, dims)));
            }
            assert(inside(c, lo, hi, dims));
            assert(between(c, lo, cut, lane_mask(i as nat % dims, dims)));
        }
        if inside(c, lo0, hi0, dims) && prefix(c, i) == prefix(z, i) {
            assert(inside(c, lo, hi, dims));
            assert forall|d: nat| d < dims implies between(
                c,
                lo,
                cut,
                #[trigger] lane_mask(d, dims),
            ) by {
                assert(between(c, lo, hi, lane_mask(d, dims)));
            }
        }
    }
}

/// The corners of the two halves at bit `i` differ from `lo` and `hi` in the
/// dimension of bit `i` alone.
proof fn lemma_half_lanes(lo: u128, hi: u128, i: u32, dims: nat)
    requires
        0 < dims,
        i < 128,
        prefix(lo, (i + 1) as u32) == prefix(hi, (i + 1) as u32),
        !has_bit(lo, i as nat),
        has_bit(hi, i as nat),
    ensures
        forall|d: nat|
            d < dims && d != i as nat % dims ==> fill_below(
                hi,
                1u128 << i,
                lane_below(lane_mask(i as nat % dims, dims), 1u128 << i),
            ) & #[trigger] lane_mask(d, dims) == hi & lane_mask(d, dims),
        forall|d: nat|
            d < dims && d != i as nat % dims ==> clear_below(
                lo,
                1u128 << i,
                lane_below(lane_mask(i as nat % dims, dims), 1u128 << i),
            ) & #[trigger] lane_mask(d, dims) == lo & lane_mask(d, dims),
{
    let p = 1u128 << i;
    let m = lane_mask(i as nat % dims, dims);
    lemma_pivot(lo, i, dims);
    lemma_pivot(hi, i, dims);
    assert forall|d: nat| d < dims && d != i as nat % dims implies fill_below(
        hi,
        p,
        lane_below(m, p),
    ) & #[trigger] lane_mask(d, dims) == hi & lane_mask(d, dims) && clear_below(
        lo,
        p,
        lane_below(m, p),
    ) & lane_mask(d, dims) == lo & lane_mask(d, dims) by {
        lemma_lanes_apart(d, i as nat % dims, dims);
        lemma_bv_halves(lo, hi, m, lane_mask(d, dims), p);
    }
}

/// Where bit `i` is set in `z` and in `hi` and clear in `lo`, the codes that
/// agree with `z` lie in the upper half: `lo` rises to that half's corner.
pub proof fn lemma_scan_upper(z: u128, lo0: u128, hi0: u128, lo: u128, hi: u128, i: u32, dims: nat)
    requires
        0 < dims,
        i < 128,
        scanned(z, lo0, hi0, lo, hi, (i + 1) as u32, dims),
        has_bit(z, i as nat),
        !has_bit(lo, i as nat),
        has_bit(hi, i as nat),
    ensures
        scanned(
            z,
            lo0,
            hi0,
            clear_below(lo, 1u128 << i, lane_below(lane_mask(i as nat % dims, dims), 1u128 << i)),
            hi,
            i,
            dims,
        ),
{
    let p = 1u128 << i;
    let m = lane_mask(i as nat % dims, dims);
    let cut = clear_below(lo, p, lane_below(m, p));
    lemma_pivot(z, i, dims);
    lemma_pivot(lo, i, dims);
    lemma_pivot(hi, i, dims);
    lemma_pivot(cut, i, dims);
    lemma_bv_halves(lo, hi, m, 0, p);
    lemma_bv_prefix(hi, z, 0, p);
    lemma_bv_prefix(cut, z, 0, p);
    lemma_half_lanes(lo, hi, i, dims);
    assert forall|d: nat| d < dims implies between(cut, cut, hi, #[trigger] lane_mask(d, dims)) by {
        assert(between(lo, lo, hi, lane_mask(d, dims)));
    }
    assert forall|c: u128|
        #![trigger inside(c, cut, hi, dims)]
        #![trigger inside(c, lo0, hi0, dims)]
        inside(c, cut, hi, dims) <==> inside(c, lo0, hi0, dims) && prefix(c, i) == prefix(
            z,
            i,
        ) by {
        lemma_pivot(c, i, dims);
        lemma_bv_prefix(c, z, 0, p);
        lemma_bv_member(c, lo, hi, m, p);
        lemma_bv_member(c, cut, hi, m, p);
        if inside(c, cut, hi, dims) {
            assert forall|d: nat| d < dims implies between(
                c,
                lo,
                hi,
                #[trigger] lane_mask(d, dims),
            ) by {
                assert(between(c, cut, hi, lane_mask(d, dims)));
            }
            assert(inside(c, lo, hi, dims));
            assert(between(c, cut, hi, lane_mask(i as nat % dims, dims)));
        }
        if inside(c, lo0, hi0, dims) && prefix(c, i) == prefix(z, i) {
            assert(inside(c, lo, hi, dims));
            assert forall|d: nat| d < dims implies between(
                c,
                cut,
                hi,
                #[trigger] lane_mask(d, dims),
            ) by {
                assert(between(c, lo, hi, lane_mask(d, dims)));
            }
        }
    }
}


/// Whether `c` is a code of the box from `lo0` to `hi0` whose bits from
/// position `k` upwards are below those of `z`.
pub open spec fn before(c: u128, z: u128, lo0: u128, hi0: u128, k: u32, dims: nat) -> bool {
    inside(c, lo0, hi0, dims) && prefix(c, k) < prefix(z, k)
}

/// Whether `c` is a code of the box from `lo0` to `hi0` whose bits from
/// position `k` upwards are above those of `z`.
pub open spec fn after(c: u128, z: u128, lo0: u128, hi0: u128, k: u32, dims: nat) -> bool {
    inside(c, lo0, hi0, dims) && prefix(c, k) > prefix(z, k)
}

/// Whether `cand` is the greatest of the codes that are `before` `z`, or
/// `hi0` where there is none.
pub open spec fn best_before(
    cand: u128,
    z: u128,
    lo0: u128,
    hi0: u128,
    k: u32,
    dims: nat,
) -> bool {
    if exists|c: u128| before(c, z, lo0, hi0, k, dims) {
        &&& before(cand, z, lo0, hi0, k, dims)
        &&& forall|c: u128| before(c, z, lo0, hi0, k, dims) ==> c <= cand
    } else {
        cand == hi0
    }
}

/// Whether `cand` is the least of the codes that are `after` `z`, or `lo0`
/// where there is none.
pub open spec fn best_after(
    cand: u128,
    z: u128,
    lo0: u128,
    hi0: u128,
    k: u32,
    dims: nat,
) -> bool {
    if exists|c: u128| after(c, z, lo0, hi0, k, dims) {
        &&& after(cand, z, lo0, hi0, k, dims)
        &&& forall|c: u128| after(c, z, lo0, hi0, k, dims) ==> cand <= c
    } else {
        cand == lo0
    }
}

/// At the start of a scan no code of the box is before or after `z`.
pub proof fn lemma_best_start(z: u128, lo0: u128, hi0: u128, k: u32, dims: nat)
    requires
        scanned(z, lo0, hi0, lo0, hi0, k, dims),
    ensures
        best_before(hi0, z, lo0, hi0, k, dims),
        best_after(lo0, z, lo0, hi0, k, dims),
{
    assert forall|c: u128| !before(c, z, lo0, hi0, k, dims) && !after(c, z, lo0, hi0, k, dims) by {
        if inside(c, lo0, hi0, dims) {
            assert(prefix(c, k) == prefix(z, k));
        }
    }
}

/// The codes before `z` stay the same over bit `i` where that bit is clear in
/// `z`, or set in both corners.
pub proof fn lemma_before_keep(
    cand: u128,
    z: u128,
    lo0: u128,
    hi0: u128,
    lo: u128,
    hi: u128,
    i: u32,
    dims: nat,
)
    requires
        0 < dims,
        i < 128,
        scanned(z, lo0, hi0, lo, hi, (i + 1) as u32, dims),
        best_before(cand, z, lo0, hi0, (i + 1) as u32, dims),
        !has_bit(z, i as nat) || (has_bit(lo, i as nat) && has_bit(hi, i as nat)),
    ensures
        best_before(cand, z, lo0, hi0, i, dims),
{
    let k = (i + 1) as u32;
    let p = 1u128 << i;
    let m = lane_mask(i as nat % dims, dims);
    lemma_pivot(z, i, dims);
    lemma_pivot(lo, i, dims);
    lemma_pivot(hi, i, dims);
    assert forall|c: u128|
        before(c, z, lo0, hi0, i, dims) == before(c, z, lo0, hi0, k, dims) by {
        lemma_pivot(c, i, dims);
        lemma_bv_prefix(c, z, 0, p);
        if inside(c, lo0, hi0, dims) && prefix(c, k) == prefix(z, k) {
            assert(inside(c, lo, hi, dims));
            assert(between(c, lo, hi, lane_mask(i as nat % dims, dims)));
            lemma_bv_member(c, lo, hi, m, p);
        }
    }
    if exists|c: u128| before(c, z, lo0, hi0, i, dims) {
        let w = choose|c: u128| before(c, z, lo0, hi0, i, dims);
        assert(before(w, z, lo0, hi0, k, dims));
    }
    if exists|c: u128| before(c, z, lo0, hi0, k, dims) {
        let w = choose|c: u128| before(c, z, lo0, hi0, k, dims);
        assert(before(w, z, lo0, hi0, i, dims));
    }
}

/// Where bit `i` is set in `z` and in `hi` and clear in `lo`, the greatest
/// code before `z` is the corner of the lower half.
pub proof fn lemma_before_take(z: u128, lo0: u128, hi0: u128, lo: u128, hi: u128, i: u32, dims: nat)
    requires
        0 < dims,
        i < 128,
        scanned(z, lo0, hi0, lo, hi, (i + 1) as u32, dims),
        has_bit(z, i as nat),
        !has_bit(lo, i as nat),
        has_bit(hi, i as nat),
    ensures
        best_before(
            fill_below(hi, 1u128 << i, lane_below(lane_mask(i as nat % dims, dims), 1u128 << i)),
            z,
            lo0,
            hi0,
            i,
            dims,
        ),
{
    let k = (i + 1) as u32;
    let p = 1u128 << i;
    let m = lane_mask(i as nat % dims, dims);
    let cut = fill_below(hi, p, lane_below(m, p));
    lemma_pivot(z, i, dims);
    lemma_pivot(lo, i, dims);
    lemma_pivot(hi, i, dims);
    lemma_pivot(cut, i, dims);
    lemma_bv_halves(lo, hi, m, 0, p);
    lemma_bv_prefix(cut, z, 0, p);
    lemma_half_lanes(lo, hi, i, dims);
    assert forall|d: nat| d < dims implies between(cut, lo, hi, #[trigger] lane_mask(d, dims)) by {
        assert(between(lo, lo, hi, lane_mask(d, dims)));
    }
    assert(inside(cut, lo, hi, dims));
    assert(before(cut, z, lo0, hi0, i, dims));
    assert forall|c: u128| before(c, z, lo0, hi0, i, dims) implies c <= cut by {
        lemma_pivot(c, i, dims);
        lemma_bv_prefix(c, z, cut, p);
        if prefix(c, k) == prefix(z, k) {
            assert(inside(c, lo, hi, dims));
            lemma_bv_member(c, lo, hi, m, p);
            assert forall|d: nat| d < dims implies between(
                c,
                lo,
                cut,
                #[trigger] lane_mask(d, dims),
            ) by {
                assert(between(c, lo, hi, lane_mask(d, dims)));
            }
            lemma_corner(c, lo, cut, dims);
        }
    }
}

/// Where bit `i` is clear in `z` and set in both corners, every code that
/// agrees with `z` above bit `i` is greater than `z`: the codes below `z` are
/// those found so far.
pub proof fn lemma_before_stop_under(
    cand: u128,
    z: u128,
    lo0: u128,
    hi0: u128,
    lo: u128,
    hi: u128,
    i: u32,
    dims: nat,
)
    requires
        0 < dims,
        i < 128,
        scanned(z, lo0, hi0, lo, hi, (i + 1) as u32, dims),
        best_before(cand, z, lo0, hi0, (i + 1) as u32, dims),
        !has_bit(z, i as nat),
        has_bit(lo, i as nat),
        has_bit(hi, i as nat),
    ensures
        best_before(cand, z, lo0, hi0, 0, dims),
{
    let k = (i + 1) as u32;
    let p = 1u128 << i;
    let m = lane_mask(i as nat % dims, dims);
    lemma_pivot(z, i, dims);
    lemma_pivot(lo, i, dims);
    lemma_pivot(hi, i, dims);
    assert forall|c: u128|
        before(c, z, lo0, hi0, 0, dims) == before(c, z, lo0, hi0, k, dims) by {
        lemma_pivot(c, i, dims);
        lemma_bv_prefix(c, z, 0, p);
        lemma_bv_prefix(z, c, 0, p);
        if inside(c, lo0, hi0, dims) && prefix(c, k) == prefix(z, k) {
            assert(inside(c, lo, hi, dims));
            assert(between(c, lo, hi, lane_mask(i as nat % dims, dims)));
            lemma_bv_member(c, lo, hi, m, p);
        }
    }
    if exists|c: u128| before(c, z, lo0, hi0, 0, dims) {
        let w = choose|c: u128| before(c, z, lo0, hi0, 0, dims);
        assert(before(w, z, lo0, hi0, k, dims));
    }
    if exists|c: u128| before(c, z, lo0, hi0, k, dims) {
        let w = choose|c: u128| before(c, z, lo0, hi0, k, dims);
        assert(before(w, z, lo0, hi0, 0, dims));
    }
}

/// Where bit `i` is set in `z` and clear in both corners, every code that
/// agrees with `z` above bit `i` is below `z`: the greatest code below `z` is
/// the upper corner.
pub proof fn lemma_before_stop_over(
    z: u128,
    lo0: u128,
    hi0: u128,
    lo: u128,
    hi: u128,
    i: u32,
    dims: nat,
)
    requires
        0 < dims,
        i < 128,
        scanned(z, lo0, hi0, lo, hi, (i + 1) as u32, dims),
        has_bit(z, i as nat),
        !has_bit(lo, i as nat),
        !has_bit(hi, i as nat),
    ensures
        best_before(hi, z, lo0, hi0, 0, dims),
{
    let k = (i + 1) as u32;
    let p = 1u128 << i;
    lemma_pivot(z, i, dims);
    lemma_pivot(hi, i, dims);
    lemma_corners_inside(lo, hi, dims);
    lemma_bv_prefix(hi, z, 0, p);
    assert(before(hi, z, lo0, hi0, 0, dims));
    assert forall|c: u128| before(c, z, lo0, hi0, 0, dims) implies c <= hi by {
        lemma_pivot(c, i, dims);
        lemma_bv_prefix(c, z, hi, p);
        if prefix(c, k) == prefix(z, k) {
            assert(inside(c, lo, hi, dims));
            lemma_corner(c, lo, hi, dims);
        }
    }
}
/// The codes after `z` stay the same over bit `i` where that bit is set in
/// `z`, or clear in both corners.
pub proof fn lemma_after_keep(
    cand: u128,
    z: u128,
    lo0: u128,
    hi0: u128,
    lo: u128,
    hi: u128,
    i: u32,
    dims: nat,
)
    requires
        0 < dims,
        i < 128,
        scanned(z, lo0, hi0, lo, hi, (i + 1) as u32, dims),
        best_after(cand, z, lo0, hi0, (i + 1) as u32, dims),
        has_bit(z, i as nat) || (!has_bit(lo, i as nat) && !has_bit(hi, i as nat)),
    ensures
        best_after(cand, z, lo0, hi0, i, dims),
{
    let k = (i + 1) as u32;
    let p = 1u128 << i;
    let m = lane_mask(i as nat % dims, dims);
    lemma_pivot(z, i, dims);
    lemma_pivot(lo, i, dims);
    lemma_pivot(hi, i, dims);
    assert forall|c: u128|
        after(c, z, lo0, hi0, i, dims) == after(c, z, lo0, hi0, k, dims) by {
        lemma_pivot(c, i, dims);
        lemma_bv_prefix(c, z, 0, p);
        if inside(c, lo0, hi0, dims) && prefix(c, k) == prefix(z, k) {
            assert(inside(c, lo, hi, dims));
            assert(between(c, lo, hi, lane_mask(i as nat % dims, dims)));
            lemma_bv_member(c, lo, hi, m, p);
        }
    }
    if exists|c: u128| after(c, z, lo0, hi0, i, dims) {
        let w = choose|c: u128| after(c, z, lo0, hi0, i, dims);
        assert(after(w, z, lo0, hi0, k, dims));
    }
    if exists|c: u128| after(c, z, lo0, hi0, k, dims) {
        let w = choose|c: u128| after(c, z, lo0, hi0, k, dims);
        assert(after(w, z, lo0, hi0, i, dims));
    }
}

/// Where bit `i` is clear in `z` and in `lo` and set in `hi`, the least code
/// after `z` is the corner of the upper half.
pub proof fn lemma_after_take(z: u128, lo0: u128, hi0: u128, lo: u128, hi: u128, i: u32, dims: nat)
    requires
        0 < dims,
        i < 128,
        scanned(z, lo0, hi0, lo, hi, (i + 1) as u32, dims),
        !has_bit(z, i as nat),
        !has_bit(lo, i as nat),
        has_bit(hi, i as nat),
    ensures
        best_after(
            clear_below(lo, 1u128 << i, lane_below(lane_mask(i as nat % dims, dims), 1u128 << i)),
            z,
            lo0,
            hi0,
            i,
            dims,
        ),
{
    let k = (i + 1) as u32;
    let p = 1u128 << i;
    let m = lane_mask(i as nat % dims, dims);
    let cut = clear_below(lo, p, lane_below(m, p));
    lemma_pivot(z, i, dims);
    lemma_pivot(lo, i, dims);
    lemma_pivot(hi, i, dims);
    lemma_pivot(cut, i, dims);
    lemma_bv_halves(lo, hi, m, 0, p);
    lemma_bv_prefix(z, cut, 0, p);
    lemma_half_lanes(lo, hi, i, dims);
    assert forall|d: nat| d < dims implies between(cut, lo, hi, #[trigger] lane_mask(d, dims)) by {
        assert(between(lo, lo, hi, lane_mask(d, dims)));
    }
    assert(inside(cut, lo, hi, dims));
    assert(after(cut, z, lo0, hi0, i, dims));
    assert forall|c: u128| after(c, z, lo0, hi0, i, dims) implies cut <= c by {
        lemma_pivot(c, i, dims);
        lemma_bv_prefix(z, c, cut, p);
        if prefix(c, k) == prefix(z, k) {
            assert(inside(c, lo, hi, dims));
            lemma_bv_member(c, lo, hi, m, p);
            assert forall|d: nat| d < dims implies between(
                c,
                cut,
                hi,
                #[trigger] lane_mask(d, dims),
            ) by {
                assert(between(c, lo, hi, lane_mask(d, dims)));
            }
            lemma_corner(c, cut, hi, dims);
        }
    }
}

/// Where bit `i` is set in `z` and clear in both corners, every code that
/// agrees with `z` above bit `i` is below `z`: the codes above `z` are those
/// found so far.
pub proof fn lemma_after_stop_over(
    cand: u128,
    z: u128,
    lo0: u128,
    hi0: u128,
    lo: u128,
    hi: u128,
    i: u32,
    dims: nat,
)
    requires
        0 < dims,
        i < 128,
        scanned(z, lo0, hi0, lo, hi, (i + 1) as u32, dims),
        best_after(cand, z, lo0, hi0, (i + 1) as u32, dims),
        has_bit(z, i as nat),
        !has_bit(lo, i as nat),
        !has_bit(hi, i as nat),
    ensures
        best_after(cand, z, lo0, hi0, 0, dims),
{
    let k = (i + 1) as u32;
    let p = 1u128 << i;
    let m = lane_mask(i as nat % dims, dims);
    lemma_pivot(z, i, dims);
    lemma_pivot(lo, i, dims);
    lemma_pivot(hi, i, dims);
    assert forall|c: u128|
        after(c, z, lo0, hi0, 0, dims) == after(c, z, lo0, hi0, k, dims) by {
        lemma_pivot(c, i, dims);
        lemma_bv_prefix(c, z, 0, p);
        lemma_bv_prefix(z, c, 0, p);
        if inside(c, lo0, hi0, dims) && prefix(c, k) == prefix(z, k) {
            assert(inside(c, lo, hi, dims));
            assert(between(c, lo, hi, lane_mask(i as nat % dims, dims)));
            lemma_bv_member(c, lo, hi, m, p);
        }
    }
    if exists|c: u128| after(c, z, lo0, hi0, 0, dims) {
        let w = choose|c: u128| after(c, z, lo0, hi0, 0, dims);
        assert(after(w, z, lo0, hi0, k, dims));
    }
    if exists|c: u128| after(c, z, lo0, hi0, k, dims) {
        let w = choose|c: u128| after(c, z, lo0, hi0, k, dims);
        assert(after(w, z, lo0, hi0, 0, dims));
    }
}

/// Where bit `i` is clear in `z` and set in both corners, every code that
/// agrees with `z` above bit `i` is above `z`: the least code above `z` is the
/// lower corner.
pub proof fn lemma_after_stop_under(
    z: u128,
    lo0: u128,
    hi0: u128,
    lo: u128,
    hi: u128,
    i: u32,
    dims: nat,
)
    requires
        0 < dims,
        i < 128,
        scanned(z, lo0, hi0, lo, hi, (i + 1) as u32, dims),
        !has_bit(z, i as nat),
        has_bit(lo, i as nat),
        has_bit(hi, i as nat),
    ensures
        best_after(lo, z, lo0, hi0, 0, dims),
{
    let k = (i + 1) as u32;
    let p = 1u128 << i;
    lemma_pivot(z, i, dims);
    lemma_pivot(lo, i, dims);
    lemma_bv_prefix(z, lo, 0, p);
    assert(after(lo, z, lo0, hi0, 0, dims));
    assert forall|c: u128| after(c, z, lo0, hi0, 0, dims) implies lo <= c by {
        lemma_pivot(c, i, dims);
        lemma_bv_prefix(z, c, lo, p);
        if prefix(c, k) == prefix(z, k) {
            assert(inside(c, lo, hi, dims));
            lemma_corner(c, lo, hi, dims);
        }
    }
}


/// The lower corner of a scan never has a bit that the upper corner lacks.
pub proof fn lemma_scan_crossed(
    z: u128,
    lo0: u128,
    hi0: u128,
    lo: u128,
    hi: u128,
    i: u32,
    dims: nat,
)
    requires
        0 < dims,
        i < 128,
        scanned(z, lo0, hi0, lo, hi, (i + 1) as u32, dims),
        has_bit(lo, i as nat),
    ensures
        has_bit(hi, i as nat),
{
    let p = 1u128 << i;
    let m = lane_mask(i as nat % dims, dims);
    lemma_pivot(lo, i, dims);
    lemma_pivot(hi, i, dims);
    assert(between(lo, lo, hi, lane_mask(i as nat % dims, dims)));
    lemma_bv_member(0, lo, hi, m, p);
}


/// A number below one that fits in `n` bits fits in `n` bits.
pub proof fn lemma_below_fits(x: u128, h: u128, n: nat)
    requires
        x <= h,
        fits(h, n),
    ensures
        fits(x, n),
{
    if n < 128 {
        lemma_prefix_zero(h, n as u32);
        lemma_prefix_zero(x, n as u32);
        if n > 0 {
            lemma_bv_pivot(x, 0, (n - 1) as u32);
            lemma_bv_prefix(x, h, 0, 1u128 << ((n - 1) as u32));
        }
    }
}

} // verus!
