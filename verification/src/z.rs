//! Z-order curve points and bounding boxes.

use vstd::prelude::*;
use crate::bits::{
    fits, has_bit, keep_low, lemma_bits_equal, lemma_bits_logic, lemma_bits_shift,
    lemma_bits_single, lemma_fits, lemma_from_bits, lemma_keep_low, lemma_leading_zeros,
};
use crate::layout::{
    coordinate, corners, in_box, interlaced, is_bigmin, is_litmax, lemma_bigmin_found,
    lemma_bigmin_range, lemma_box_corners, lemma_interlaced_bits, lemma_interlaced_fits,
    lemma_lane, lemma_lane_below, lemma_lane_bound, lemma_lane_gather, lemma_litmax_found,
    lemma_litmax_range, lemma_reinterlace, lemma_round_trip, lower_corner, raws, upper_corner,
};
use crate::prim::{leading_zeros, one, zero};
use crate::region::{
    best_after, best_before, inside, lane_below, lane_mask, lemma_after_keep,
    lemma_after_stop_over, lemma_after_stop_under, lemma_after_take, lemma_before_keep,
    lemma_before_stop_over, lemma_before_stop_under, lemma_before_take, lemma_below_fits,
    lemma_best_start, lemma_corners_inside, lemma_inside_fits, lemma_pivot, lemma_prefix_zero,
    lemma_scan_crossed, lemma_scan_lower, lemma_scan_same, lemma_scan_start, lemma_scan_upper,
    scanned,
};
use crate::size::{lemma_table, Size};
use crate::text::{decimal, to_decimal};
use crate::word::Word;

verus! {

/// A bit mask with the `n` lowest bits set.
pub(crate) fn ones(n: u32) -> (r: u128)
    requires
        n < 128,
    ensures
        r == ((1u128 << n) - 1) as u128,
{
    proof {
        lemma_bits_single(n, 0);
    }
    (one() << n) - one()
}

/// `x` without its bits from position `n` upwards.
pub(crate) fn low_bits(x: u128, n: u32) -> (r: u128)
    ensures
        r == keep_low(x, n as nat),
{
    if n >= 128 {
        x
    } else {
        x & ones(n)
    }
}

/// Whether bit `i` of `x` is set.
pub(crate) fn bit(x: u128, i: u32) -> (b: bool)
    requires
        i < 128,
    ensures
        b == has_bit(x, i as nat),
{
    proof {
        lemma_bv_probe(x, i);
    }
    x & (one() << i) != zero()
}

/// `x` with bit `i` set.
pub(crate) fn set_bit(x: u128, i: u32) -> (r: u128)
    requires
        i < 128,
    ensures
        r == x | (1u128 << i),
{
    x | (one() << i)
}

/// `x` with bit `i` cleared.
pub(crate) fn del_bit(x: u128, i: u32) -> (r: u128)
    requires
        i < 128,
    ensures
        r == x & !(1u128 << i),
{
    x & !(one() << i)
}

/// A bit is set where masking with it leaves something.
proof fn lemma_bv_probe(x: u128, i: u32)
    by (bit_vector)
    requires
        i < 128,
    ensures
        (x & (1u128 << i) != 0) == ((x >> i) & 1 == 1),
        x >> 0u32 == x,
{
}

/// A Z-order curve point: the interleaved bits of `D` coordinates of type `T`.
#[derive(Clone, Copy, PartialEq, Eq, PartialOrd, Ord, Debug)]
pub struct Z<const D: usize, T: Size<D>> {
    pub point: <T as Size<D>>::Output,
}

impl<const D: usize, T: Size<D>> Z<D, T> {
    /// The point as a 128-bit number.
    pub open spec fn code(self) -> u128 {
        self.point.raw()
    }

    /// The point's number without the bits that belong to no coordinate: those
    /// from position `D * T::width()` upwards.
    pub open spec fn trimmed(self) -> u128 {
        keep_low(self.code(), D as nat * T::width())
    }

    /// The coordinates that the point's bits hold.
    pub open spec fn coords(self) -> Seq<u128> {
        Seq::new(D as nat, |d: int| coordinate(self.code(), d as nat, D as nat, T::width()))
    }

    /// The point with the given interleaved bits.
    pub fn new(point: <T as Size<D>>::Output) -> (z: Self)
        ensures
            z.point == point,
    {
        Self { point }
    }

    /// The point as text: the decimal digits of its number.
    pub fn to_string(&self) -> (s: String)
        ensures
            s@ == decimal(self.code() as nat),
    {
        to_decimal(self.point.widen())
    }

    /// Compute the Z-order curve point by interleaving the bits of all dimensions.
    pub fn interlace(parts: &[T; D]) -> (z: Self)
        ensures
            z.code() == interlaced(raws(parts@), T::width()),
    {
        let ghost w = T::width();
        let ghost ps = raws(parts@);
        proof {
            lemma_table::<D, T>();
        }
        let mut acc: u128 = zero();
        let mut d: usize = 0;
        proof {
            assert forall|j: nat| j < 128 implies !has_bit(acc, j) by {
                lemma_bits_logic(0, 0, j);
            }
        }
        while d < D
            invariant
                d <= D,
                2 <= D <= 128,
                ps == raws(parts@),
                forall|j: nat|
                    j < 128 ==> #[trigger] has_bit(acc, j) == (j % (D as nat) < d && has_bit(
                        ps[(j % (D as nat)) as int],
                        j / (D as nat),
                    )),
            decreases D - d,
        {
            let lane: u128 = parts[d].expand().widen();
            let next: u128 = acc | (lane << (d as u32));
            proof {
                assert forall|j: nat| j < 128 implies #[trigger] has_bit(next, j) == (j % (D as nat)
                    < d + 1 && has_bit(ps[(j % (D as nat)) as int], j / (D as nat))) by {
                    lemma_bits_logic(acc, lane << (d as u32), j);
                    lemma_bits_shift(lane, d as u32, j);
                    lemma_lane(j, d as nat, D as nat);
                    if j >= d {
                        lemma_from_bits(
                            |j: nat| j % (D as nat) == 0 && has_bit(ps[d as int], j / (D as nat)),
                            128,
                            (j - d) as nat,
                        );
                    }
                }
            }
            acc = next;
            d += 1;
        }
        proof {
            assert forall|j: nat| j < 128 implies has_bit(acc, j) == has_bit(
                interlaced(ps, w),
                j,
            ) by {
                lemma_interlaced_bits(ps, w, j);
                lemma_lane(j, j % (D as nat), D as nat);
                let p = parts[(j % (D as nat)) as int];
                p.lemma_word(p);
                lemma_fits(p.raw(), w);
            }
            lemma_bits_equal(acc, interlaced(ps, w));
            assert forall|j: nat| <T::Output as Word>::width() <= j < 128 implies !has_bit(
                acc,
                j,
            ) by {
                lemma_interlaced_bits(ps, w, j);
                lemma_lane_bound(j, D as nat, w);
            }
            lemma_fits(acc, <T::Output as Word>::width());
        }
        Z { point: <T::Output as Word>::narrow(acc) }
    }

    /// Restore the dimensional values of this Z-order curve point.
    pub fn deinterlace(self) -> (parts: [T; D])
        ensures
            raws(parts@) == self.coords(),
    {
        let ghost w = T::width();
        proof {
            lemma_table::<D, T>();
        }
        let code: u128 = self.point.widen();
        let first: T = T::compress(self.point);
        let mut parts: [T; D] = [first;D];
        proof {
            lemma_bv_probe(code, 0);
            lemma_lane_gather(code, 0, D as nat, w);
            vstd::array::axiom_spec_array_fill_for_copy_type::<T, D>(first);
        }
        let mut d: usize = 1;
        while d < D
            invariant
                1 <= d <= D,
                D <= 128,
                code == self.code(),
                w == T::width(),
                forall|e: int|
                    0 <= e < d ==> (#[trigger] parts@[e]).raw() == coordinate(
                        code,
                        e as nat,
                        D as nat,
                        w,
                    ),
            decreases D - d,
        {
            let shifted: u128 = code >> (d as u32);
            proof {
                self.point.lemma_word(self.point);
                lemma_fits(code, <T::Output as Word>::width());
                assert forall|j: nat| <T::Output as Word>::width() <= j < 128 implies !has_bit(
                    shifted,
                    j,
                ) by {
                    lemma_bits_shift(code, d as u32, j);
                }
                lemma_fits(shifted, <T::Output as Word>::width());
                lemma_lane_gather(code, d as nat, D as nat, w);
            }
            let lane: T::Output = <T::Output as Word>::narrow(shifted);
            parts[d] = T::compress(lane);
            d += 1;
        }
        assert(raws(parts@) =~= self.coords());
        parts
    }
}


impl<const D: usize, T: Size<D>> From<[T; D]> for Z<D, T> {
    fn from(val: [T; D]) -> (z: Self)
        ensures
            z.code() == interlaced(raws(val@), T::width()),
    {
        let z = Self::interlace(&val);
        proof {
            let other = choose|z: Self| z.code() == interlaced(raws(val@), T::width());
            z.point.lemma_word(other.point);
        }
        z
    }
}

impl<const D: usize, T: Size<D>> vstd::std_specs::convert::FromSpecImpl<[T; D]> for Z<D, T> {
    open spec fn obeys_from_spec() -> bool {
        true
    }

    open spec fn from_spec(val: [T; D]) -> Self {
        choose|z: Self| z.code() == interlaced(raws(val@), T::width())
    }
}

impl<const D: usize, T: Size<D>> From<&[T; D]> for Z<D, T> {
    fn from(val: &[T; D]) -> (z: Self)
        ensures
            z.code() == interlaced(raws(val@), T::width()),
    {
        let z = Self::interlace(val);
        proof {
            let other = choose|z: Self| z.code() == interlaced(raws(val@), T::width());
            z.point.lemma_word(other.point);
        }
        z
    }
}

impl<const D: usize, T: Size<D>> vstd::std_specs::convert::FromSpecImpl<&[T; D]> for Z<D, T> {
    open spec fn obeys_from_spec() -> bool {
        true
    }

    open spec fn from_spec(val: &[T; D]) -> Self {
        choose|z: Self| z.code() == interlaced(raws(val@), T::width())
    }
}

impl<const D: usize, T: Size<D>> From<Z<D, T>> for [T; D] {
    fn from(val: Z<D, T>) -> (parts: Self)
        ensures
            raws(parts@) == val.coords(),
    {
        let parts = val.deinterlace();
        proof {
            let other = choose|a: [T; D]| raws(a@) == val.coords();
            assert forall|d: int| 0 <= d < D implies parts@[d] == other@[d] by {
                assert(raws(parts@)[d] == raws(other@)[d]);
                parts@[d].lemma_word(other@[d]);
            }
            assert(parts@ =~= other@);
            vstd::array::axiom_array_ext_equal(parts, other);
        }
        parts
    }
}

impl<const D: usize, T: Size<D>> vstd::std_specs::convert::FromSpecImpl<Z<D, T>> for [T; D] {
    open spec fn obeys_from_spec() -> bool {
        true
    }

    open spec fn from_spec(val: Z<D, T>) -> Self {
        choose|a: [T; D]| raws(a@) == val.coords()
    }
}

/// The coordinates of the point that interleaves `parts` are the values of
/// `parts`.
pub proof fn lemma_coords_of_interlaced<const D: usize, T: Size<D>>(parts: [T; D], z: Z<D, T>)
    requires
        z.code() == interlaced(raws(parts@), T::width()),
    ensures
        z.coords() == raws(parts@),
{
    lemma_table::<D, T>();
    assert forall|d: int| 0 <= d < D implies z.coords()[d] == raws(parts@)[d] by {
        parts@[d].lemma_word(parts@[d]);
        lemma_round_trip(raws(parts@), T::width(), d as nat);
    }
    assert(z.coords() =~= raws(parts@));
}

/// De-interleaving the point that interleaves `parts` gives `parts` back.
pub proof fn lemma_interlace_deinterlace<const D: usize, T: Size<D>>(
    parts: [T; D],
    z: Z<D, T>,
    back: [T; D],
)
    requires
        z.code() == interlaced(raws(parts@), T::width()),
        raws(back@) == z.coords(),
    ensures
        back == parts,
{
    lemma_coords_of_interlaced(parts, z);
    assert forall|d: int| 0 <= d < D implies back@[d] == parts@[d] by {
        assert(raws(back@)[d] == raws(parts@)[d]);
        back@[d].lemma_word(parts@[d]);
    }
    assert(back@ =~= parts@);
    vstd::array::axiom_array_ext_equal(back, parts);
}

/// Interleaving the coordinates of a point whose bits all belong to
/// coordinates gives the point back.
pub proof fn lemma_deinterlace_interlace<const D: usize, T: Size<D>>(
    z: Z<D, T>,
    parts: [T; D],
    back: Z<D, T>,
)
    requires
        fits(z.code(), D as nat * T::width()),
        raws(parts@) == z.coords(),
        back.code() == interlaced(raws(parts@), T::width()),
    ensures
        back == z,
{
    lemma_table::<D, T>();
    lemma_reinterlace(z.code(), D as nat, T::width());
    assert(z.coords() =~= Seq::new(
        D as nat,
        |d: int| coordinate(z.code(), d as nat, D as nat, T::width()),
    ));
    back.point.lemma_word(z.point);
}

/// A bounding box in `D` dimensions, each containing a value of type `T`.
#[derive(PartialEq, Eq)]
pub struct Bbox<const D: usize, T: Size<D>> {
    min: Z<D, T>,
    max: Z<D, T>,
    min_parts: [T; D],
    max_parts: [T; D],
}

/// The position from which none of `a`, `b` and `c` has a bit.
fn scan_start(a: u128, b: u128, c: u128) -> (k: u32)
    ensures
        k <= 128,
        fits(a, k as nat),
        fits(b, k as nat),
        fits(c, k as nat),
{
    let la: u32 = leading_zeros(a);
    let lb: u32 = leading_zeros(b);
    let lc: u32 = leading_zeros(c);
    let start: u32 = if la <= lb && la <= lc {
        la
    } else if lb <= lc {
        lb
    } else {
        lc
    };
    proof {
        lemma_leading_zeros(a);
        lemma_leading_zeros(b);
        lemma_leading_zeros(c);
        lemma_fits(a, (128 - la) as nat);
        lemma_fits(b, (128 - lb) as nat);
        lemma_fits(c, (128 - lc) as nat);
        lemma_fits(a, (128 - start) as nat);
        lemma_fits(b, (128 - start) as nat);
        lemma_fits(c, (128 - start) as nat);
    }
    128 - start
}

impl<const D: usize, T: Size<D>> Clone for Bbox<D, T> {
    fn clone(&self) -> (bx: Self)
        ensures
            bx == *self,
    {
        proof {
            use_type_invariant(self);
        }
        Bbox {
            min: self.min,
            max: self.max,
            min_parts: self.min_parts,
            max_parts: self.max_parts,
        }
    }
}

impl<const D: usize, T: Size<D>> Bbox<D, T> {
    /// The coordinates of the lower corner.
    pub closed spec fn low(self) -> Seq<u128> {
        raws(self.min_parts@)
    }

    /// The coordinates of the upper corner.
    pub closed spec fn high(self) -> Seq<u128> {
        raws(self.max_parts@)
    }

    /// The lower corner as a point.
    pub closed spec fn spec_min(self) -> Z<D, T> {
        self.min
    }

    /// The upper corner as a point.
    pub closed spec fn spec_max(self) -> Z<D, T> {
        self.max
    }

    /// The lower corner's coordinates as words.
    pub closed spec fn spec_min_parts(self) -> [T; D] {
        self.min_parts
    }

    /// The upper corner's coordinates as words.
    pub closed spec fn spec_max_parts(self) -> [T; D] {
        self.max_parts
    }

    /// The corners are in order in every dimension, and the two points are
    /// their codes.
    #[verifier::type_invariant]
    pub closed spec fn wf(self) -> bool {
        &&& forall|d: int| 0 <= d < D ==> #[trigger] self.low()[d] <= self.high()[d]
        &&& self.min.code() == interlaced(self.low(), T::width())
        &&& self.max.code() == interlaced(self.high(), T::width())
    }

    /// Whether the point `z` lies in the box by its coordinates.
    pub open spec fn spec_contains(self, z: Z<D, T>) -> bool {
        forall|d: nat|
            d < D ==> self.low()[d as int] <= #[trigger] coordinate(
                z.code(),
                d,
                D as nat,
                T::width(),
            ) <= self.high()[d as int]
    }

    /// Whether the code `c` is that of a point of the box.
    pub open spec fn holds(self, c: u128) -> bool {
        in_box(c, self.low(), self.high(), T::width())
    }

    /// What a well-formed box's corners are.
    pub proof fn lemma_wf(self)
        requires
            self.wf(),
        ensures
            corners(self.low(), self.high(), T::width()),
            self.low().len() == D,
            self.low() == raws(self.spec_min_parts()@),
            self.high() == raws(self.spec_max_parts()@),
            self.spec_min().code() == interlaced(self.low(), T::width()),
            self.spec_max().code() == interlaced(self.high(), T::width()),
    {
        lemma_table::<D, T>();
        assert forall|d: int| 0 <= d < D implies fits(#[trigger] self.low()[d], T::width()) by {
            self.min_parts@[d].lemma_word(self.min_parts@[d]);
        }
        assert forall|d: int| 0 <= d < D implies fits(#[trigger] self.high()[d], T::width()) by {
            self.max_parts@[d].lemma_word(self.max_parts@[d]);
        }
    }

    /// Create a new bounding box.
    ///
    /// The given arguments will be normalised such that `min` contains the
    /// minimum value in every dimension and `max` the respective maximums.
    pub fn new(min: Z<D, T>, max: Z<D, T>) -> (bx: Self)
        ensures
            bx.wf(),
            bx.low() == lower_corner(min.coords(), max.coords()),
            bx.high() == upper_corner(min.coords(), max.coords()),
            forall|d: int| 0 <= d < D ==> #[trigger] bx.low()[d] <= bx.high()[d],
            bx.spec_min().code() == interlaced(bx.low(), T::width()),
            bx.spec_max().code() == interlaced(bx.high(), T::width()),
    {
        let a: [T; D] = min.deinterlace();
        let b: [T; D] = max.deinterlace();
        let mut min_parts: [T; D] = a;
        let mut max_parts: [T; D] = b;
        let mut d: usize = 0;
        while d < D
            invariant
                d <= D,
                raws(a@) == min.coords(),
                raws(b@) == max.coords(),
                forall|e: int|
                    0 <= e < d ==> (#[trigger] min_parts@[e]).raw() == lower_corner(
                        min.coords(),
                        max.coords(),
                    )[e],
                forall|e: int|
                    0 <= e < d ==> (#[trigger] max_parts@[e]).raw() == upper_corner(
                        min.coords(),
                        max.coords(),
                    )[e],
            decreases D - d,
        {
            let x: T = a[d];
            let y: T = b[d];
            proof {
                assert(raws(a@)[d as int] == x.raw());
                assert(raws(b@)[d as int] == y.raw());
            }
            if x.widen() <= y.widen() {
                min_parts[d] = x;
                max_parts[d] = y;
            } else {
                min_parts[d] = y;
                max_parts[d] = x;
            }
            d += 1;
        }
        assert(raws(min_parts@) =~= lower_corner(min.coords(), max.coords()));
        assert(raws(max_parts@) =~= upper_corner(min.coords(), max.coords()));
        Self {
            min: Z::interlace(&min_parts),
            max: Z::interlace(&max_parts),
            min_parts,
            max_parts,
        }
    }

    /// Get the bbox minimum z-order curve point.
    pub fn min(&self) -> (z: Z<D, T>)
        ensures
            z == self.spec_min(),
            z.code() == interlaced(self.low(), T::width()),
    {
        proof {
            use_type_invariant(self);
        }
        self.min
    }

    /// Get the bbox maximum z-order curve point.
    pub fn max(&self) -> (z: Z<D, T>)
        ensures
            z == self.spec_max(),
            z.code() == interlaced(self.high(), T::width()),
    {
        proof {
            use_type_invariant(self);
        }
        self.max
    }

    /// Borrow the bbox minimum values.
    pub fn min_parts(&self) -> (parts: &[T; D])
        ensures
            *parts == self.spec_min_parts(),
            raws(parts@) == self.low(),
    {
        &self.min_parts
    }

    /// Borrow the bbox maximum values.
    pub fn max_parts(&self) -> (parts: &[T; D])
        ensures
            *parts == self.spec_max_parts(),
            raws(parts@) == self.high(),
    {
        &self.max_parts
    }

    /// Check if the given `z` is within this bounding box.
    pub fn contains(&self, z: &Z<D, T>) -> (r: bool)
        ensures
            r == self.spec_contains(*z),
    {
        let parts: [T; D] = z.deinterlace();
        let mut d: usize = 0;
        while d < D
            invariant
                d <= D,
                raws(parts@) == z.coords(),
                forall|e: nat|
                    e < d ==> self.low()[e as int] <= #[trigger] coordinate(
                        z.code(),
                        e,
                        D as nat,
                        T::width(),
                    ) <= self.high()[e as int],
            decreases D - d,
        {
            let x: u128 = parts[d].widen();
            proof {
                assert(raws(parts@)[d as int] == x);
                assert(z.coords()[d as int] == coordinate(
                    z.code(),
                    d as nat,
                    D as nat,
                    T::width(),
                ));
            }
            if !(self.min_parts[d].widen() <= x && x <= self.max_parts[d].widen()) {
                proof {
                    assert(self.low()[d as int] == self.min_parts@[d as int].raw());
                    assert(self.high()[d as int] == self.max_parts@[d as int].raw());
                }
                return false;
            }
            d += 1;
        }
        true
    }

    /// The mask of the bits of the dimension of bit `i` that lie below it,
    /// where the scan's upper corner `max` has bit `i`.
    fn lower_lane(&self, i: u32, Ghost(max): Ghost<u128>) -> (low: u128)
        requires
            i < 128,
            has_bit(max, i as nat),
            inside(max, self.spec_min().code(), self.spec_max().code(), D as nat),
        ensures
            low == lane_below(lane_mask(i as nat % (D as nat), D as nat), 1u128 << i),
    {
        let ghost w = T::width();
        proof {
            use_type_invariant(self);
            self.lemma_wf();
            lemma_table::<D, T>();
            lemma_interlaced_fits(self.high(), w);
            lemma_inside_fits(max, self.min.code(), self.max.code(), D as nat, D as nat * w);
            lemma_fits(max, D as nat * w);
            lemma_lane_bound(i as nat, D as nat, w);
        }
        let q: u32 = (i as usize / D) as u32;
        let r: u32 = (i as usize % D) as u32;
        let run: u128 = ones(q);
        proof {
            assert(q == i as nat / (D as nat));
            assert(r == i as nat % (D as nat));
            assert forall|j: nat| w <= j < 128 implies !has_bit(run, j) by {
                lemma_bits_single(q, j);
            }
            lemma_fits(run, w);
            lemma_lane_below(i, q, r, D as nat);
        }
        T::narrow(run).expand().widen() << r
    }

    /// Calculate the little maximum value for the given argument `z`.
    ///
    /// The little maximum is the greatest point within this bounding box that
    /// is less than `z`; where the box has no such point, it is the box's
    /// maximum. Bits of `z` that belong to no coordinate count as clear.
    pub fn litmax(&self, z: &Z<D, T>) -> (r: Z<D, T>)
        ensures
            is_litmax(z.trimmed(), r.code(), self.low(), self.high(), T::width()),
            self.spec_min().code() <= r.code() <= self.spec_max().code(),
            fits(r.code(), D as nat * T::width()),
            self.spec_min().code() < z.code() ==> r.code() < z.code(),
    {
        let ghost w = T::width();
        let ghost lo0 = self.min.code();
        let ghost hi0 = self.max.code();
        proof {
            use_type_invariant(self);
            self.lemma_wf();
            lemma_table::<D, T>();
            lemma_box_corners(0, self.low(), self.high(), w);
            lemma_interlaced_fits(self.high(), w);
        }
        let zc: u128 = low_bits(z.point.widen(), D as u32 * T::bits());
        let mut min: u128 = self.min.point.widen();
        let mut max: u128 = self.max.point.widen();
        let mut litmax: u128 = max;
        let mut k: u32 = scan_start(zc, min, max);
        proof {
            lemma_prefix_zero(zc, k);
            lemma_prefix_zero(min, k);
            lemma_prefix_zero(max, k);
            lemma_scan_start(zc, lo0, hi0, k, D as nat);
            lemma_best_start(zc, lo0, hi0, k, D as nat);
        }
        while k > 0
            invariant_except_break
                scanned(zc, lo0, hi0, min, max, k, D as nat),
                best_before(litmax, zc, lo0, hi0, k, D as nat),
            invariant
                k <= 128,
                2 <= D,
                w == T::width(),
                D * w <= 128,
                fits(hi0, D as nat * w),
                lo0 == self.spec_min().code(),
                hi0 == self.spec_max().code(),
            ensures
                best_before(litmax, zc, lo0, hi0, 0, D as nat),
            decreases k,
        {
            let i: u32 = k - 1;
            proof {
                lemma_pivot(max, i, D as nat);
                lemma_pivot(min, i, D as nat);
            }
            match (bit(zc, i), bit(min, i), bit(max, i)) {
                (false, false, false) => {
                    proof {
                        lemma_before_keep(litmax, zc, lo0, hi0, min, max, i, D as nat);
                        lemma_scan_same(zc, lo0, hi0, min, max, i, D as nat);
                    }
                },
                (false, false, true) => {
                    proof {
                        lemma_corners_inside(min, max, D as nat);
                    }
                    let low: u128 = self.lower_lane(i, Ghost(max));
                    proof {
                        lemma_before_keep(litmax, zc, lo0, hi0, min, max, i, D as nat);
                        lemma_scan_lower(zc, lo0, hi0, min, max, i, D as nat);
                    }
                    max = del_bit(max, i) | low;
                },
                (false, true, false) => {
                    // Does not occur: the minimum has no bit that the maximum lacks.
                    proof {
                        lemma_scan_crossed(zc, lo0, hi0, min, max, i, D as nat);
                    }
                },
                (false, true, true) => {
                    proof {
                        lemma_before_stop_under(litmax, zc, lo0, hi0, min, max, i, D as nat);
                    }
                    break ;
                },
                (true, false, false) => {
                    proof {
                        lemma_before_stop_over(zc, lo0, hi0, min, max, i, D as nat);
                    }
                    litmax = max;
                    break ;
                },
                (true, false, true) => {
                    proof {
                        lemma_corners_inside(min, max, D as nat);
                    }
                    let low: u128 = self.lower_lane(i, Ghost(max));
                    proof {
                        lemma_before_take(zc, lo0, hi0, min, max, i, D as nat);
                        lemma_scan_upper(zc, lo0, hi0, min, max, i, D as nat);
                    }
                    litmax = del_bit(max, i) | low;
                    min = set_bit(min, i) & !low;
                },
                (true, true, false) => {
                    // Does not occur: the minimum has no bit that the maximum lacks.
                    proof {
                        lemma_scan_crossed(zc, lo0, hi0, min, max, i, D as nat);
                    }
                },
                (true, true, true) => {
                    proof {
                        lemma_before_keep(litmax, zc, lo0, hi0, min, max, i, D as nat);
                        lemma_scan_same(zc, lo0, hi0, min, max, i, D as nat);
                    }
                },
            }
            k = i;
        }
        proof {
            lemma_litmax_found(zc, litmax, self.low(), self.high(), w);
            lemma_litmax_range(zc, litmax, self.low(), self.high(), w);
            lemma_box_corners(litmax, self.low(), self.high(), w);
            lemma_keep_low(z.code(), D as nat * w);
            lemma_below_fits(litmax, hi0, D as nat * w);
            if z.code() <= litmax {
                lemma_below_fits(z.code(), litmax, D as nat * w);
            }
            lemma_fits(litmax, D as nat * w);
            lemma_fits(litmax, <T::Output as Word>::width());
        }
        Z::new(<T::Output as Word>::narrow(litmax))
    }

    /// Calculate the big minimum value for the given argument `z`.
    ///
    /// The big minimum is the smallest point within this bounding box that is
    /// greater than `z`; where the box has no such point, it is the box's
    /// minimum. Bits of `z` that belong to no coordinate count as clear.
    pub fn bigmin(&self, z: &Z<D, T>) -> (r: Z<D, T>)
        ensures
            is_bigmin(z.trimmed(), r.code(), self.low(), self.high(), T::width()),
            self.spec_min().code() <= r.code() <= self.spec_max().code(),
            fits(r.code(), D as nat * T::width()),
            z.code() < self.spec_max().code() ==> r.code() > z.code(),
    {
        let ghost w = T::width();
        let ghost lo0 = self.min.code();
        let ghost hi0 = self.max.code();
        proof {
            use_type_invariant(self);
            self.lemma_wf();
            lemma_table::<D, T>();
            lemma_box_corners(0, self.low(), self.high(), w);
            lemma_interlaced_fits(self.high(), w);
        }
        let zc: u128 = low_bits(z.point.widen(), D as u32 * T::bits());
        let mut min: u128 = self.min.point.widen();
        let mut max: u128 = self.max.point.widen();
        let mut bigmin: u128 = min;
        let mut k: u32 = scan_start(zc, min, max);
        proof {
            lemma_prefix_zero(zc, k);
            lemma_prefix_zero(min, k);
            lemma_prefix_zero(max, k);
            lemma_scan_start(zc, lo0, hi0, k, D as nat);
            lemma_best_start(zc, lo0, hi0, k, D as nat);
        }
        while k > 0
            invariant_except_break
                scanned(zc, lo0, hi0, min, max, k, D as nat),
                best_after(bigmin, zc, lo0, hi0, k, D as nat),
            invariant
                k <= 128,
                2 <= D,
                w == T::width(),
                D * w <= 128,
                fits(hi0, D as nat * w),
                lo0 == self.spec_min().code(),
                hi0 == self.spec_max().code(),
            ensures
                best_after(bigmin, zc, lo0, hi0, 0, D as nat),
            decreases k,
        {
            let i: u32 = k - 1;
            proof {
                lemma_pivot(max, i, D as nat);
                lemma_pivot(min, i, D as nat);
            }
            match (bit(zc, i), bit(min, i), bit(max, i)) {
                (false, false, false) => {
                    proof {
                        lemma_after_keep(bigmin, zc, lo0, hi0, min, max, i, D as nat);
                        lemma_scan_same(zc, lo0, hi0, min, max, i, D as nat);
                    }
                },
                (false, false, true) => {
                    proof {
                        lemma_corners_inside(min, max, D as nat);
                    }
                    let low: u128 = self.lower_lane(i, Ghost(max));
                    proof {
                        lemma_after_take(zc, lo0, hi0, min, max, i, D as nat);
                        lemma_scan_lower(zc, lo0, hi0, min, max, i, D as nat);
                    }
                    bigmin = set_bit(min, i) & !low;
                    max = del_bit(max, i) | low;
                },
                (false, true, false) => {
                    // Does not occur: the minimum has no bit that the maximum lacks.
                    proof {
                        lemma_scan_crossed(zc, lo0, hi0, min, max, i, D as nat);
                    }
                },
                (false, true, true) => {
                    proof {
                        lemma_after_stop_under(zc, lo0, hi0, min, max, i, D as nat);
                    }
                    bigmin = min;
                    break ;
                },
                (true, false, false) => {
                    proof {
                        lemma_after_stop_over(bigmin, zc, lo0, hi0, min, max, i, D as nat);
                    }
                    break ;
                },
                (true, false, true) => {
                    proof {
                        lemma_corners_inside(min, max, D as nat);
                    }
                    let low: u128 = self.lower_lane(i, Ghost(max));
                    proof {
                        lemma_after_keep(bigmin, zc, lo0, hi0, min, max, i, D as nat);
                        lemma_scan_upper(zc, lo0, hi0, min, max, i, D as nat);
                    }
                    min = set_bit(min, i) & !low;
                },
                (true, true, false) => {
                    // Does not occur: the minimum has no bit that the maximum lacks.
                    proof {
                        lemma_scan_crossed(zc, lo0, hi0, min, max, i, D as nat);
                    }
                },
                (true, true, true) => {
                    proof {
                        lemma_after_keep(bigmin, zc, lo0, hi0, min, max, i, D as nat);
                        lemma_scan_same(zc, lo0, hi0, min, max, i, D as nat);
                    }
                },
            }
            k = i;
        }
        proof {
            lemma_bigmin_found(zc, bigmin, self.low(), self.high(), w);
            lemma_bigmin_range(zc, bigmin, self.low(), self.high(), w);
            lemma_box_corners(bigmin, self.low(), self.high(), w);
            lemma_keep_low(z.code(), D as nat * w);
            lemma_below_fits(bigmin, hi0, D as nat * w);
            if z.code() < hi0 {
                lemma_below_fits(z.code(), hi0, D as nat * w);
            }
            lemma_fits(bigmin, D as nat * w);
            lemma_fits(bigmin, <T::Output as Word>::width());
        }
        Z::new(<T::Output as Word>::narrow(bigmin))
    }
}

} // verus!
