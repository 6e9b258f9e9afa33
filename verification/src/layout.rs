//! The bit layout of a code: bit `i * dims + d` of a code is bit `i` of its
//! coordinate `d`. From this follow the round trips between coordinates and
//! codes, and what a box of coordinates is among the codes.

use vstd::prelude::*;
use vstd::arithmetic::div_mod::{
    lemma_div_is_ordered, lemma_div_multiples_vanish, lemma_fundamental_div_mod,
    lemma_fundamental_div_mod_converse,
};
use crate::bits::{
    fits, from_bits, has_bit, lemma_bits_equal, lemma_bits_logic, lemma_bits_shift,
    lemma_bits_single, lemma_fits, lemma_from_bits, lemma_order, lemma_order_at, top_bit,
};
use crate::region::{
    after, before, best_after, best_before, between, inside, lane_below, lane_mask,
    lemma_corner, lemma_inside_fits, lemma_lane_bit,
};
use crate::size::{gather, spread};
use crate::word::Word;

verus! {

/// Coordinate `d` of the code `z` among `dims` coordinates of `w` bits: its
/// bit `i` is bit `i * dims + d` of `z`.
pub open spec fn coordinate(z: u128, d: nat, dims: nat, w: nat) -> u128 {
    from_bits(|i: nat| has_bit(z, i * dims + d), w)
}

/// The code of the coordinates `parts`, of `w` bits each: its bit
/// `i * parts.len() + d` is bit `i` of `parts[d]`, and the bits from
/// `w * parts.len()` on are clear.
pub open spec fn interlaced(parts: Seq<u128>, w: nat) -> u128 {
    from_bits(
        |j: nat|
            j / parts.len() < w && has_bit(parts[(j % parts.len()) as int], j / parts.len()),
        128,
    )
}

/// The values of a sequence of words.
pub open spec fn raws<W: Word>(s: Seq<W>) -> Seq<u128> {
    Seq::new(s.len(), |i: int| s[i].raw())
}

/// For `d < dims`, the positions `j >= d` with `j - d` a multiple of `dims`
/// are those with remainder `d`, and there `(j - d) / dims` is `j / dims`.
pub proof fn lemma_lane(j: nat, d: nat, dims: nat)
    requires
        d < dims,
    ensures
        j % dims == d <==> (j >= d && (j - d) % (dims as int) == 0),
        j % dims == d ==> (j - d) / (dims as int) == j / dims,
        (j / dims) * dims + j % dims == j,
        j % dims < dims,
{
    lemma_fundamental_div_mod(j as int, dims as int);
    assert(dims * (j / dims) == (j / dims) * dims) by (nonlinear_arith);
    if j % dims == d {
        lemma_fundamental_div_mod_converse(j - d, dims as int, (j / dims) as int, 0);
    }
    if j >= d && (j - d) % (dims as int) == 0 {
        lemma_fundamental_div_mod(j - d, dims as int);
        let q = (j - d) / (dims as int);
        assert(dims * q == q * dims) by (nonlinear_arith);
        lemma_fundamental_div_mod_converse(j as int, dims as int, q, d as int);
    }
}

/// A position at or above `dims * w` has a quotient by `dims` of at least `w`.
pub proof fn lemma_lane_bound(j: nat, dims: nat, w: nat)
    requires
        0 < dims,
    ensures
        j >= dims * w ==> j / dims >= w,
        j / dims >= w ==> j >= dims * w,
{
    if j >= dims * w {
        lemma_div_multiples_vanish(w as int, dims as int);
        lemma_div_is_ordered((dims * w) as int, j as int, dims as int);
    }
    if j / dims >= w {
        lemma_fundamental_div_mod(j as int, dims as int);
        assert(dims * (j / dims) >= dims * w) by (nonlinear_arith)
            requires
                j / dims >= w,
                dims > 0,
        ;
    }
}

/// The bits of a code: bit `j` is bit `j / dims` of coordinate `j % dims`.
pub proof fn lemma_interlaced_bits(parts: Seq<u128>, w: nat, j: nat)
    requires
        parts.len() > 0,
    ensures
        has_bit(interlaced(parts, w), j) == (j < 128 && j / parts.len() < w && has_bit(
            parts[(j % parts.len()) as int],
            j / parts.len(),
        )),
{
    lemma_from_bits(
        |j: nat|
            j / parts.len() < w && has_bit(parts[(j % parts.len()) as int], j / parts.len()),
        128,
        j,
    );
}

/// The bits of a coordinate: bit `i` is bit `i * dims + d` of the code.
pub proof fn lemma_coordinate_bits(z: u128, d: nat, dims: nat, w: nat, i: nat)
    requires
        0 < dims,
    ensures
        has_bit(coordinate(z, d, dims, w), i) == (i < w && has_bit(z, i * dims + d)),
{
    lemma_from_bits(|i: nat| has_bit(z, i * dims + d), w, i);
    assert(i >= 128 ==> i * dims + d >= 128) by (nonlinear_arith)
        requires
            0 < dims,
    ;
}

/// Coordinate `d` of a code is every `dims`-th bit of the code shifted down by
/// `d`.
pub proof fn lemma_lane_gather(z: u128, d: nat, dims: nat, w: nat)
    requires
        d < dims,
        d < 128,
    ensures
        gather(z >> (d as u32), dims, w) == coordinate(z, d, dims, w),
{
    let g = gather(z >> (d as u32), dims, w);
    assert forall|i: nat| i < 128 implies has_bit(g, i) == has_bit(
        coordinate(z, d, dims, w),
        i,
    ) by {
        lemma_from_bits(|i: nat| has_bit(z >> (d as u32), i * dims), w, i);
        lemma_coordinate_bits(z, d, dims, w, i);
        lemma_bits_shift(z, d as u32, i * dims);
    }
    lemma_bits_equal(g, coordinate(z, d, dims, w));
}



/// Position `i * dims + d` with `d < dims` has quotient `i` and remainder `d`
/// by `dims`, and lies below `dims * w` for `i < w`.
pub proof fn lemma_lane_position(i: nat, d: nat, dims: nat, w: nat)
    requires
        d < dims,
    ensures
        (i * dims + d) / dims == i,
        (i * dims + d) % dims == d,
        i < w ==> i * dims + d < dims * w,
{
    lemma_fundamental_div_mod_converse((i * dims + d) as int, dims as int, i as int, d as int);
    if i < w {
        assert(i * dims + dims <= dims * w) by (nonlinear_arith)
            requires
                i < w,
        ;
    }
}

/// Two positions with the same remainder by `dims` stand in the order of
/// their quotients.
pub proof fn lemma_lane_order_of_positions(i: nat, j: nat, dims: nat)
    requires
        0 < dims,
        i % dims == j % dims,
    ensures
        i < j <==> i / dims < j / dims,
{
    lemma_fundamental_div_mod(i as int, dims as int);
    lemma_fundamental_div_mod(j as int, dims as int);
    let a = i / dims;
    let b = j / dims;
    assert(a < b ==> dims * a + dims <= dims * b) by (nonlinear_arith)
        requires
            0 < dims,
    ;
    assert(b <= a ==> dims * b <= dims * a) by (nonlinear_arith)
        requires
            0 < dims,
    ;
}

/// The bit layout of a code: bit `i * dims + d` of the code of `parts` is bit
/// `i` of `parts[d]`.
pub proof fn lemma_bit_layout(parts: Seq<u128>, w: nat, d: nat, i: nat)
    requires
        d < parts.len(),
        i < w,
        parts.len() * w <= 128,
    ensures
        has_bit(interlaced(parts, w), i * parts.len() + d) == has_bit(parts[d as int], i),
{
    lemma_lane_position(i, d, parts.len(), w);
    lemma_interlaced_bits(parts, w, i * parts.len() + d);
}

/// The code of `dims` coordinates of `w` bits fits in `dims * w` bits.
pub proof fn lemma_interlaced_fits(parts: Seq<u128>, w: nat)
    requires
        parts.len() > 0,
    ensures
        fits(interlaced(parts, w), parts.len() * w),
{
    let z = interlaced(parts, w);
    assert forall|j: nat| parts.len() * w <= j < 128 implies !has_bit(z, j) by {
        lemma_interlaced_bits(parts, w, j);
        lemma_lane_bound(j, parts.len(), w);
    }
    lemma_fits(z, parts.len() * w);
}

/// Interleaving and then de-interleaving gives back each coordinate that
/// fits in `w` bits.
pub proof fn lemma_round_trip(parts: Seq<u128>, w: nat, d: nat)
    requires
        d < parts.len(),
        parts.len() * w <= 128,
        fits(parts[d as int], w),
    ensures
        coordinate(interlaced(parts, w), d, parts.len(), w) == parts[d as int],
{
    let z = interlaced(parts, w);
    let c = coordinate(z, d, parts.len(), w);
    lemma_fits(parts[d as int], w);
    assert forall|i: nat| i < 128 implies has_bit(c, i) == has_bit(parts[d as int], i) by {
        lemma_coordinate_bits(z, d, parts.len(), w, i);
        if i < w {
            lemma_bit_layout(parts, w, d, i);
        }
    }
    lemma_bits_equal(c, parts[d as int]);
}

/// De-interleaving and then interleaving gives back a code that fits in
/// `dims * w` bits.
pub proof fn lemma_reinterlace(z: u128, dims: nat, w: nat)
    requires
        0 < dims,
        dims * w <= 128,
        fits(z, dims * w),
    ensures
        interlaced(Seq::new(dims, |d: int| coordinate(z, d as nat, dims, w)), w) == z,
{
    let parts = Seq::new(dims, |d: int| coordinate(z, d as nat, dims, w));
    let back = interlaced(parts, w);
    lemma_fits(z, dims * w);
    assert forall|j: nat| j < 128 implies has_bit(back, j) == has_bit(z, j) by {
        lemma_interlaced_bits(parts, w, j);
        lemma_lane(j, j % dims, dims);
        lemma_coordinate_bits(z, j % dims, dims, w, j / dims);
        lemma_lane_bound(j, dims, w);
    }
    lemma_bits_equal(back, z);
}

/// The bits of a code in one dimension are the bits of its coordinate there,
/// `dims` apart.
pub proof fn lemma_lane_bits(x: u128, d: nat, dims: nat, w: nat, j: nat)
    requires
        d < dims,
        fits(x, dims * w),
    ensures
        has_bit(x & lane_mask(d, dims), j) == (j < 128 && j % dims == d && has_bit(
            coordinate(x, d, dims, w),
            j / dims,
        )),
{
    lemma_bits_logic(x, lane_mask(d, dims), j);
    lemma_lane_bit(d, dims, j);
    lemma_coordinate_bits(x, d, dims, w, j / dims);
    lemma_lane(j, d, dims);
    lemma_lane_bound(j, dims, w);
    lemma_fits(x, dims * w);
}

/// Two codes stand in one dimension's bits as their coordinates do there.
pub proof fn lemma_lane_order(x: u128, y: u128, d: nat, dims: nat, w: nat)
    requires
        d < dims,
        dims * w <= 128,
        fits(x, dims * w),
        fits(y, dims * w),
    ensures
        (x & lane_mask(d, dims) <= y & lane_mask(d, dims)) <==> coordinate(x, d, dims, w)
            <= coordinate(y, d, dims, w),
{
    let m = lane_mask(d, dims);
    let u = coordinate(x, d, dims, w);
    let v = coordinate(y, d, dims, w);
    let xm = x & m;
    let ym = y & m;
    if u == v {
        assert forall|j: nat| j < 128 implies has_bit(xm, j) == has_bit(ym, j) by {
            lemma_lane_bits(x, d, dims, w, j);
            lemma_lane_bits(y, d, dims, w, j);
        }
        lemma_bits_equal(xm, ym);
    } else {
        lemma_order(u, v);
        let t = top_bit(u ^ v);
        lemma_coordinate_bits(x, d, dims, w, t);
        lemma_coordinate_bits(y, d, dims, w, t);
        let k = t * dims + d;
        lemma_lane_position(t, d, dims, w);
        lemma_lane_bits(x, d, dims, w, k);
        lemma_lane_bits(y, d, dims, w, k);
        assert forall|j: nat| k < j < 128 implies has_bit(xm, j) == has_bit(ym, j) by {
            lemma_lane_bits(x, d, dims, w, j);
            lemma_lane_bits(y, d, dims, w, j);
            if j % dims == d {
                lemma_lane_order_of_positions(k, j, dims);
                assert(has_bit(u, j / dims) == has_bit(v, j / dims));
            }
        }
        lemma_order_at(xm, ym, k);
    }
}

/// Whether the code `c` lies in the box from `low` to `high`: it fits in the
/// bits of the coordinates, and each of its coordinates lies between the two
/// corners' coordinates.
pub open spec fn in_box(c: u128, low: Seq<u128>, high: Seq<u128>, w: nat) -> bool {
    &&& fits(c, low.len() * w)
    &&& forall|d: nat|
        d < low.len() ==> low[d as int] <= #[trigger] coordinate(c, d, low.len(), w)
            <= high[d as int]
}

/// The codes in a box are those that lie between the codes of its corners in
/// every dimension's bits.
pub proof fn lemma_in_box(c: u128, low: Seq<u128>, high: Seq<u128>, w: nat)
    requires
        0 < low.len() == high.len(),
        low.len() * w <= 128,
        forall|d: int| 0 <= d < low.len() ==> fits(#[trigger] low[d], w),
        forall|d: int| 0 <= d < high.len() ==> fits(#[trigger] high[d], w),
    ensures
        in_box(c, low, high, w) <==> inside(
            c,
            interlaced(low, w),
            interlaced(high, w),
            low.len(),
        ),
{
    let dims = low.len();
    let lo = interlaced(low, w);
    let hi = interlaced(high, w);
    lemma_interlaced_fits(low, w);
    lemma_interlaced_fits(high, w);
    if inside(c, lo, hi, dims) {
        lemma_inside_fits(c, lo, hi, dims, dims * w);
    }
    if fits(c, dims * w) {
        assert forall|d: nat| d < dims implies (between(c, lo, hi, #[trigger] lane_mask(d, dims))
            <==> low[d as int] <= coordinate(c, d, dims, w) <= high[d as int]) by {
            lemma_round_trip(low, w, d);
            lemma_round_trip(high, w, d);
            lemma_lane_order(lo, c, d, dims, w);
            lemma_lane_order(c, hi, d, dims, w);
        }
        if inside(c, lo, hi, dims) {
            assert forall|d: nat| d < dims implies low[d as int] <= #[trigger] coordinate(
                c,
                d,
                dims,
                w,
            ) <= high[d as int] by {
                assert(between(c, lo, hi, lane_mask(d, dims)));
            }
        }
        if in_box(c, low, high, w) {
            assert forall|d: nat| d < dims implies between(
                c,
                lo,
                hi,
                #[trigger] lane_mask(d, dims),
            ) by {
                assert(low[d as int] <= coordinate(c, d, dims, w) <= high[d as int]);
            }
        }
    }
}

/// The bits of dimension `r` below position `i = q * dims + r` are the `q`
/// lowest bits, set `dims` apart and shifted up by `r`.
pub proof fn lemma_lane_below(i: u32, q: u32, r: u32, dims: nat)
    requires
        0 < dims,
        i < 128,
        q == i as nat / dims,
        r == i as nat % dims,
    ensures
        spread(((1u128 << q) - 1) as u128, dims) << r == lane_below(
            lane_mask(r as nat, dims),
            1u128 << i,
        ),
{
    let ones = ((1u128 << q) - 1) as u128;
    let s = spread(ones, dims);
    let lhs = s << r;
    let m = lane_mask(r as nat, dims);
    let rhs = lane_below(m, 1u128 << i);
    lemma_fundamental_div_mod(i as int, dims as int);
    assert forall|j: nat| j < 128 implies has_bit(lhs, j) == has_bit(rhs, j) by {
        lemma_bits_shift(s, r, j);
        lemma_lane(j, r as nat, dims);
        if j >= r {
            lemma_from_bits(
                |j: nat| j % dims == 0 && has_bit(ones, j / dims),
                128,
                (j - r) as nat,
            );
        }
        lemma_bits_single(q, j / dims);
        lemma_bits_logic(m, ((1u128 << i) - 1) as u128, j);
        lemma_lane_bit(r as nat, dims, j);
        lemma_bits_single(i, j);
        if j % dims == r as nat {
            lemma_lane_order_of_positions(j, i as nat, dims);
        }
    }
    lemma_bits_equal(lhs, rhs);
}


/// The corner of the smaller coordinates of `a` and `b`.
pub open spec fn lower_corner(a: Seq<u128>, b: Seq<u128>) -> Seq<u128> {
    Seq::new(
        a.len(),
        |d: int|
            if a[d] <= b[d] {
                a[d]
            } else {
                b[d]
            },
    )
}

/// The corner of the greater coordinates of `a` and `b`.
pub open spec fn upper_corner(a: Seq<u128>, b: Seq<u128>) -> Seq<u128> {
    Seq::new(
        a.len(),
        |d: int|
            if a[d] <= b[d] {
                b[d]
            } else {
                a[d]
            },
    )
}

/// Whether `low` and `high` are the corners of a box of `w`-bit coordinates:
/// they have the same number of coordinates, which fit in `w` bits and in a
/// code together, and `low` is nowhere above `high`.
pub open spec fn corners(low: Seq<u128>, high: Seq<u128>, w: nat) -> bool {
    &&& 0 < low.len() == high.len()
    &&& low.len() * w <= 128
    &&& forall|d: int| 0 <= d < low.len() ==> fits(#[trigger] low[d], w)
    &&& forall|d: int| 0 <= d < high.len() ==> fits(#[trigger] high[d], w)
    &&& forall|d: int| 0 <= d < low.len() ==> #[trigger] low[d] <= high[d]
}

/// Whether `l` is the LITMAX of `z` in the box from `low` to `high`: the
/// greatest code in the box that is below `z`, or the code of `high` where no
/// code in the box is below `z`.
pub open spec fn is_litmax(z: u128, l: u128, low: Seq<u128>, high: Seq<u128>, w: nat) -> bool {
    if exists|c: u128| in_box(c, low, high, w) && c < z {
        &&& in_box(l, low, high, w)
        &&& l < z
        &&& forall|c: u128| in_box(c, low, high, w) && c < z ==> c <= l
    } else {
        l == interlaced(high, w)
    }
}

/// Whether `b` is the BIGMIN of `z` in the box from `low` to `high`: the
/// least code in the box that is above `z`, or the code of `low` where no
/// code in the box is above `z`.
pub open spec fn is_bigmin(z: u128, b: u128, low: Seq<u128>, high: Seq<u128>, w: nat) -> bool {
    if exists|c: u128| in_box(c, low, high, w) && c > z {
        &&& in_box(b, low, high, w)
        &&& b > z
        &&& forall|c: u128| in_box(c, low, high, w) && c > z ==> b <= c
    } else {
        b == interlaced(low, w)
    }
}

/// The codes of a box's corners lie in the box, and every code in the box
/// lies between them.
pub proof fn lemma_box_corners(c: u128, low: Seq<u128>, high: Seq<u128>, w: nat)
    requires
        corners(low, high, w),
    ensures
        in_box(interlaced(low, w), low, high, w),
        in_box(interlaced(high, w), low, high, w),
        inside(interlaced(low, w), interlaced(low, w), interlaced(high, w), low.len()),
        in_box(c, low, high, w) ==> interlaced(low, w) <= c <= interlaced(high, w),
{
    let lo = interlaced(low, w);
    let hi = interlaced(high, w);
    lemma_interlaced_fits(low, w);
    lemma_interlaced_fits(high, w);
    assert forall|d: nat| d < low.len() implies low[d as int] <= #[trigger] coordinate(
        lo,
        d,
        low.len(),
        w,
    ) <= high[d as int] by {
        lemma_round_trip(low, w, d);
    }
    assert forall|d: nat| d < low.len() implies low[d as int] <= #[trigger] coordinate(
        hi,
        d,
        low.len(),
        w,
    ) <= high[d as int] by {
        lemma_round_trip(high, w, d);
    }
    lemma_in_box(lo, low, high, w);
    lemma_in_box(c, low, high, w);
    if in_box(c, low, high, w) {
        lemma_corner(c, lo, hi, low.len());
    }
}

/// A scan that has found the best code before `z` has found the LITMAX.
pub proof fn lemma_litmax_found(z: u128, l: u128, low: Seq<u128>, high: Seq<u128>, w: nat)
    requires
        corners(low, high, w),
        best_before(l, z, interlaced(low, w), interlaced(high, w), 0, low.len()),
    ensures
        is_litmax(z, l, low, high, w),
{
    let lo = interlaced(low, w);
    let hi = interlaced(high, w);
    let dims = low.len();
    assert forall|c: u128| before(c, z, lo, hi, 0, dims) == (in_box(c, low, high, w) && c < z) by {
        lemma_in_box(c, low, high, w);
    }
    if exists|c: u128| in_box(c, low, high, w) && c < z {
        let x = choose|c: u128| in_box(c, low, high, w) && c < z;
        assert(before(x, z, lo, hi, 0, dims));
    }
    if exists|c: u128| before(c, z, lo, hi, 0, dims) {
        let x = choose|c: u128| before(c, z, lo, hi, 0, dims);
        assert(in_box(x, low, high, w) && x < z);
    }
}

/// A scan that has found the best code after `z` has found the BIGMIN.
pub proof fn lemma_bigmin_found(z: u128, b: u128, low: Seq<u128>, high: Seq<u128>, w: nat)
    requires
        corners(low, high, w),
        best_after(b, z, interlaced(low, w), interlaced(high, w), 0, low.len()),
    ensures
        is_bigmin(z, b, low, high, w),
{
    let lo = interlaced(low, w);
    let hi = interlaced(high, w);
    let dims = low.len();
    assert forall|c: u128| after(c, z, lo, hi, 0, dims) == (in_box(c, low, high, w) && c > z) by {
        lemma_in_box(c, low, high, w);
    }
    if exists|c: u128| in_box(c, low, high, w) && c > z {
        let x = choose|c: u128| in_box(c, low, high, w) && c > z;
        assert(after(x, z, lo, hi, 0, dims));
    }
    if exists|c: u128| after(c, z, lo, hi, 0, dims) {
        let x = choose|c: u128| after(c, z, lo, hi, 0, dims);
        assert(in_box(x, low, high, w) && x > z);
    }
}

/// The LITMAX lies between the codes of the corners, and below `z` where `z`
/// is above the lower corner's code.
pub proof fn lemma_litmax_range(z: u128, l: u128, low: Seq<u128>, high: Seq<u128>, w: nat)
    requires
        corners(low, high, w),
        is_litmax(z, l, low, high, w),
    ensures
        interlaced(low, w) <= l <= interlaced(high, w),
        interlaced(low, w) < z ==> l < z,
{
    lemma_box_corners(l, low, high, w);
}

/// The BIGMIN lies between the codes of the corners, and above `z` where `z`
/// is below the upper corner's code.
pub proof fn lemma_bigmin_range(z: u128, b: u128, low: Seq<u128>, high: Seq<u128>, w: nat)
    requires
        corners(low, high, w),
        is_bigmin(z, b, low, high, w),
    ensures
        interlaced(low, w) <= b <= interlaced(high, w),
        z < interlaced(high, w) ==> b > z,
{
    lemma_box_corners(b, low, high, w);
}

} // verus!
