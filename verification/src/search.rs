//! Range search over values sorted by their Z-order curve point.

use vstd::prelude::*;
use crate::bits::{fits, lemma_keep_low};
use crate::layout::{
    corners, in_box, interlaced, lemma_box_corners, lemma_interlaced_fits, lower_corner, raws,
    upper_corner,
};
use crate::region::lemma_below_fits;
use crate::size::Size;
use crate::word::Word;
use crate::z::{lemma_coords_of_interlaced, Bbox, Z};
use crate::GetZ;

verus! {

/// Whether the codes stand in ascending order; equal codes may follow each
/// other.
pub open spec fn ascending(codes: Seq<u128>) -> bool {
    forall|i: int, j: int| 0 <= i <= j < codes.len() ==> codes[i] <= codes[j]
}

/// The positions `lo..hi` of `codes` whose code lies in the box from `low` to
/// `high`, in the order in which a search that halves the range yields them:
/// the middle position, then those before it, then those after it.
pub open spec fn emitted(
    codes: Seq<u128>,
    lo: int,
    hi: int,
    low: Seq<u128>,
    high: Seq<u128>,
    w: nat,
) -> Seq<int>
    decreases hi - lo,
{
    if lo >= hi {
        Seq::empty()
    } else {
        let mid = lo + (hi - lo) / 2;
        let rest = emitted(codes, lo, mid, low, high, w) + emitted(
            codes,
            mid + 1,
            hi,
            low,
            high,
            w,
        );
        if in_box(codes[mid], low, high, w) {
            seq![mid] + rest
        } else {
            rest
        }
    }
}

/// How often `n` can be halved until nothing is left.
pub open spec fn halvings(n: nat) -> nat
    decreases n,
{
    if n == 0 {
        0
    } else {
        1 + halvings(n / 2)
    }
}

/// A smaller number can not be halved more often.
pub proof fn lemma_halvings_grow(a: nat, b: nat)
    requires
        a <= b,
    ensures
        halvings(a) <= halvings(b),
    decreases b,
{
    if a > 0 {
        lemma_halvings_grow(a / 2, b / 2);
    }
}

/// A part of the search that is still to do: the positions `lo..hi`, whose
/// codes in the box lie between `min` and `max`.
struct Frame<const D: usize, T: Size<D>> {
    lo: usize,
    hi: usize,
    min: Z<D, T>,
    max: Z<D, T>,
}

/// What the frames of a stack yield, the last frame first.
spec fn pending_of<const D: usize, T: Size<D>>(
    codes: Seq<u128>,
    stack: Seq<Frame<D, T>>,
    low: Seq<u128>,
    high: Seq<u128>,
    w: nat,
) -> Seq<int>
    decreases stack.len(),
{
    if stack.len() == 0 {
        Seq::empty()
    } else {
        emitted(codes, stack.last().lo as int, stack.last().hi as int, low, high, w) + pending_of(
            codes,
            stack.drop_last(),
            low,
            high,
            w,
        )
    }
}

/// The work that the frames of a stack stand for: twice their positions, and
/// one for each frame.
spec fn weight<const D: usize, T: Size<D>>(stack: Seq<Frame<D, T>>) -> nat
    decreases stack.len(),
{
    if stack.len() == 0 {
        0
    } else {
        (2 * (stack.last().hi - stack.last().lo) + 1) as nat + weight(stack.drop_last())
    }
}

/// The number of positions that the frames of a stack hold.
spec fn positions<const D: usize, T: Size<D>>(stack: Seq<Frame<D, T>>) -> nat
    decreases stack.len(),
{
    if stack.len() == 0 {
        0
    } else {
        (stack.last().hi - stack.last().lo) as nat + positions(stack.drop_last())
    }
}

/// Whether a frame lies within `codes`, has an upper bound that fits in `n`
/// bits and, where the codes are ascending, bounds the codes in the box at its
/// positions.
spec fn frame_ok<const D: usize, T: Size<D>>(
    f: Frame<D, T>,
    codes: Seq<u128>,
    low: Seq<u128>,
    high: Seq<u128>,
    w: nat,
) -> bool {
    &&& f.lo <= f.hi <= codes.len()
    &&& fits(f.max.code(), low.len() * w)
    &&& ascending(codes) ==> forall|i: int|
        f.lo <= i < f.hi && in_box(#[trigger] codes[i], low, high, w) ==> f.min.code()
            <= codes[i] <= f.max.code()
}

/// No position in `lo..hi` has a code in the box: nothing is yielded there.
proof fn lemma_emitted_none(
    codes: Seq<u128>,
    lo: int,
    hi: int,
    low: Seq<u128>,
    high: Seq<u128>,
    w: nat,
)
    requires
        0 <= lo,
        hi <= codes.len(),
        forall|i: int| lo <= i < hi ==> !in_box(#[trigger] codes[i], low, high, w),
    ensures
        emitted(codes, lo, hi, low, high, w) == Seq::<int>::empty(),
    decreases hi - lo,
{
    if lo < hi {
        let mid = lo + (hi - lo) / 2;
        lemma_emitted_none(codes, lo, mid, low, high, w);
        lemma_emitted_none(codes, mid + 1, hi, low, high, w);
        assert(!in_box(codes[mid], low, high, w));
        assert(Seq::<int>::empty() + Seq::<int>::empty() =~= Seq::<int>::empty());
    }
}

/// What two sequences hold together is what either holds.
proof fn lemma_concat_contains(a: Seq<int>, b: Seq<int>, i: int)
    ensures
        (a + b).contains(i) <==> a.contains(i) || b.contains(i),
{
    if a.contains(i) {
        let n = choose|n: int| 0 <= n < a.len() && a[n] == i;
        assert((a + b)[n] == i);
    }
    if b.contains(i) {
        let n = choose|n: int| 0 <= n < b.len() && b[n] == i;
        assert((a + b)[a.len() + n] == i);
    }
    if (a + b).contains(i) {
        let n = choose|n: int| 0 <= n < (a + b).len() && (a + b)[n] == i;
        if n < a.len() {
            assert(a[n] == i);
        } else {
            assert(b[n - a.len()] == i);
        }
    }
}

/// The positions that a search of `lo..hi` yields are those of `lo..hi` whose
/// code lies in the box.
pub proof fn lemma_emitted_members(
    codes: Seq<u128>,
    lo: int,
    hi: int,
    low: Seq<u128>,
    high: Seq<u128>,
    w: nat,
    i: int,
)
    requires
        0 <= lo,
        hi <= codes.len(),
    ensures
        emitted(codes, lo, hi, low, high, w).contains(i) <==> lo <= i < hi && in_box(
            codes[i],
            low,
            high,
            w,
        ),
    decreases hi - lo,
{
    if lo < hi {
        let mid = lo + (hi - lo) / 2;
        let before = emitted(codes, lo, mid, low, high, w);
        let after = emitted(codes, mid + 1, hi, low, high, w);
        lemma_emitted_members(codes, lo, mid, low, high, w, i);
        lemma_emitted_members(codes, mid + 1, hi, low, high, w, i);
        lemma_concat_contains(before, after, i);
        if in_box(codes[mid], low, high, w) {
            lemma_concat_contains(seq![mid], before + after, i);
            assert(seq![mid][0] == mid);
        }
    }
}

/// A search yields no position twice.
pub proof fn lemma_emitted_once(
    codes: Seq<u128>,
    lo: int,
    hi: int,
    low: Seq<u128>,
    high: Seq<u128>,
    w: nat,
)
    requires
        0 <= lo,
        hi <= codes.len(),
    ensures
        emitted(codes, lo, hi, low, high, w).no_duplicates(),
    decreases hi - lo,
{
    if lo < hi {
        let mid = lo + (hi - lo) / 2;
        let before = emitted(codes, lo, mid, low, high, w);
        let after = emitted(codes, mid + 1, hi, low, high, w);
        lemma_emitted_once(codes, lo, mid, low, high, w);
        lemma_emitted_once(codes, mid + 1, hi, low, high, w);
        let rest = before + after;
        assert forall|m: int, n: int|
            0 <= m < rest.len() && 0 <= n < rest.len() && m != n implies rest[m] != rest[n] by {
            if m < before.len() && n >= before.len() {
                assert(before.contains(rest[m]));
                assert(after.contains(rest[n]));
                lemma_emitted_members(codes, lo, mid, low, high, w, rest[m]);
                lemma_emitted_members(codes, mid + 1, hi, low, high, w, rest[n]);
            }
            if n < before.len() && m >= before.len() {
                assert(before.contains(rest[n]));
                assert(after.contains(rest[m]));
                lemma_emitted_members(codes, lo, mid, low, high, w, rest[n]);
                lemma_emitted_members(codes, mid + 1, hi, low, high, w, rest[m]);
            }
        }
        if in_box(codes[mid], low, high, w) {
            let all = seq![mid] + rest;
            assert forall|m: int, n: int|
                0 <= m < all.len() && 0 <= n < all.len() && m != n implies all[m] != all[n] by {
                if m == 0 {
                    assert(rest.contains(all[n]));
                    lemma_concat_contains(before, after, all[n]);
                    lemma_emitted_members(codes, lo, mid, low, high, w, all[n]);
                    lemma_emitted_members(codes, mid + 1, hi, low, high, w, all[n]);
                } else if n == 0 {
                    assert(rest.contains(all[m]));
                    lemma_concat_contains(before, after, all[m]);
                    lemma_emitted_members(codes, lo, mid, low, high, w, all[m]);
                    lemma_emitted_members(codes, mid + 1, hi, low, high, w, all[m]);
                } else {
                    assert(all[m] == rest[m - 1] && all[n] == rest[n - 1]);
                }
            }
        }
    }
}

/// A stack with one more frame yields that frame's positions first and
/// weighs that frame's work more.
proof fn lemma_push<const D: usize, T: Size<D>>(
    codes: Seq<u128>,
    stack: Seq<Frame<D, T>>,
    f: Frame<D, T>,
    low: Seq<u128>,
    high: Seq<u128>,
    w: nat,
)
    ensures
        pending_of(codes, stack.push(f), low, high, w) == emitted(
            codes,
            f.lo as int,
            f.hi as int,
            low,
            high,
            w,
        ) + pending_of(codes, stack, low, high, w),
        weight(stack.push(f)) == (2 * (f.hi - f.lo) + 1) as nat + weight(stack),
        positions(stack.push(f)) == (f.hi - f.lo) as nat + positions(stack),
{
    assert(stack.push(f).drop_last() =~= stack);
    assert(stack.push(f).last() == f);
}

/// Iterator over `Z` values.
///
/// It walks a sequence of values by halving: of a range of values it looks at
/// the middle one, and goes on with the ranges before and after it as far as
/// they can hold values within the bounding box.
pub struct Zrange<'a, const D: usize, T: Size<D>, A: GetZ<D, T>> {
    items: &'a [A],
    stack: Vec<Frame<D, T>>,
    bbox: Bbox<D, T>,
    threshold: usize,
}

/// The codes of a sequence of values.
pub open spec fn codes_of<const D: usize, T: Size<D>, A: GetZ<D, T>>(items: Seq<A>) -> Seq<u128> {
    Seq::new(items.len(), |i: int| items[i].spec_z().code())
}

impl<'a, const D: usize, T: Size<D>, A: GetZ<D, T>> Zrange<'a, D, T, A> {
    /// The values that are searched.
    pub closed spec fn items(self) -> Seq<A> {
        self.items@
    }

    /// The bounding box that is searched for.
    pub closed spec fn bbox(self) -> Bbox<D, T> {
        self.bbox
    }

    /// The litmax/bigmin optimization threshold.
    pub closed spec fn threshold(self) -> usize {
        self.threshold
    }

    /// The codes of the values that are searched.
    pub open spec fn codes(self) -> Seq<u128> {
        codes_of::<D, T, A>(self.items())
    }

    /// The positions of the values that are still to come, in the order in
    /// which they come.
    pub closed spec fn pending(self) -> Seq<int> {
        pending_of(self.codes(), self.stack@, self.bbox.low(), self.bbox.high(), T::width())
    }

    /// The number of values that the search has still to look at: it starts
    /// as the number of values, never grows, and falls with every value that
    /// comes.
    pub closed spec fn remaining(self) -> nat {
        positions(self.stack@)
    }

    /// Whether the search is in order: every part that is still to do lies
    /// within the values and, where the values are sorted, bounds the codes of
    /// its values within the bounding box.
    pub closed spec fn wf(self) -> bool {
        &&& self.bbox.wf()
        &&& forall|n: int|
            0 <= n < self.stack@.len() ==> frame_ok(
                #[trigger] self.stack@[n],
                self.codes(),
                self.bbox.low(),
                self.bbox.high(),
                T::width(),
            )
        &&& forall|n: int|
            0 <= n < self.stack@.len() ==> n + halvings(
                ((#[trigger] self.stack@[n]).hi - self.stack@[n].lo) as nat,
            ) <= halvings(self.items@.len())
    }

    /// The number of parts of the search that are still to do.
    pub closed spec fn depth(self) -> nat {
        self.stack@.len()
    }

    /// The parts that are still to do are at most one more than the number
    /// of values can be halved.
    pub proof fn lemma_depth(self)
        requires
            self.wf(),
        ensures
            self.depth() <= halvings(self.items().len()) + 1,
    {
        if self.stack@.len() > 0 {
            let top = self.stack@[self.stack@.len() - 1];
        }
    }

    /// Set litmax/bigmin optimization threshold (default = 10).
    ///
    /// During range search, litmax and bigmin will only be calculated and used
    /// if the remaining number of elements is larger than the threshold value.
    pub fn optimize_if_gt(self, t: usize) -> (r: Self)
        ensures
            self.wf() ==> r.wf(),
            r.threshold() == t,
            r.items() == self.items(),
            r.bbox() == self.bbox(),
            r.pending() == self.pending(),
            r.remaining() == self.remaining(),
            r.depth() == self.depth(),
    {
        let mut r = self;
        r.threshold = t;
        r
    }

    /// The next value within the bounding box, if there is one left.
    ///
    /// Where the values are sorted by their `Z` value, the values within the
    /// bounding box come one by one, each once: of a range of values the
    /// middle one first, then those before it, then those after it.
    #[verifier::rlimit(40)]
    pub fn next(&mut self) -> (r: Option<&'a A>)
        requires
            old(self).wf(),
        ensures
            final(self).wf(),
            final(self).items() == old(self).items(),
            final(self).bbox() == old(self).bbox(),
            final(self).threshold() == old(self).threshold(),
            final(self).remaining() <= old(self).remaining(),
            r is Some ==> final(self).remaining() < old(self).remaining(),
            r is None ==> final(self).depth() == 0,
            old(self).depth() == 0 ==> r is None,
            r matches Some(a) ==> exists|i: int|
                0 <= i < old(self).items().len() && *a == #[trigger] old(self).items()[i] && old(
                    self,
                ).bbox().holds(old(self).codes()[i]),
            ascending(old(self).codes()) ==> match r {
                Some(a) => {
                    &&& old(self).pending().len() > 0
                    &&& 0 <= old(self).pending()[0] < old(self).items().len()
                    &&& *a == old(self).items()[old(self).pending()[0]]
                    &&& final(self).pending() == old(self).pending().drop_first()
                },
                None => old(self).pending().len() == 0 && final(self).pending().len() == 0,
            },
    {
        let ghost codes = self.codes();
        let ghost low = self.bbox.low();
        let ghost high = self.bbox.high();
        let ghost w = T::width();
        proof {
            self.bbox.lemma_wf();
        }
        if self.stack.len() == 0 {
            return None;
        }
        loop
            invariant
                positions(self.stack@) <= positions(old(self).stack@),
                old(self).stack@.len() > 0,
                self.items == old(self).items,
                self.bbox == old(self).bbox,
                self.threshold == old(self).threshold,
                self.wf(),
                codes == self.codes(),
                low == self.bbox.low(),
                high == self.bbox.high(),
                w == T::width(),
                corners(low, high, w),
                low.len() == D,
                self.bbox.spec_min().code() == interlaced(low, w),
                self.bbox.spec_max().code() == interlaced(high, w),
                ascending(codes) ==> self.pending() == old(self).pending(),
            decreases weight(self.stack@),
        {
            let ghost before = self.stack@;
            let top = self.stack.pop();
            if top.is_none() {
                return None;
            }
            let frame: Frame<D, T> = top.unwrap();
            let ghost rest = self.stack@;
            proof {
                assert(before =~= rest.push(frame));
                lemma_push(codes, rest, frame, low, high, w);
                assert(frame_ok(before[before.len() - 1], codes, low, high, w));
                assert(before[before.len() - 1] == frame);
            }
            let len: usize = frame.hi - frame.lo;
            if len == 0 {
                proof {
                    assert(emitted(codes, frame.lo as int, frame.hi as int, low, high, w)
                        + pending_of(codes, rest, low, high, w) =~= pending_of(
                        codes,
                        rest,
                        low,
                        high,
                        w,
                    ));
                }
                continue ;
            }
            let mid: usize = frame.lo + len / 2;
            proof {
                lemma_halvings_grow((frame.hi - (mid + 1)) as nat, len as nat);
                lemma_halvings_grow((mid - frame.lo) as nat, len as nat);
            }
            let items: &'a [A] = self.items;
            let item: &'a A = &items[mid];
            let midz: Z<D, T> = *item.z();
            let mz: u128 = midz.point.widen();
            let fmin: u128 = frame.min.point.widen();
            let fmax: u128 = frame.max.point.widen();
            let ghost lower = emitted(codes, frame.lo as int, mid as int, low, high, w);
            let ghost upper = emitted(codes, mid + 1, frame.hi as int, low, high, w);
            let ghost tail = pending_of(codes, rest, low, high, w);
            proof {
                assert(codes[mid as int] == mz);
            }
            if mz < fmin {
                let up = Frame { lo: mid + 1, hi: frame.hi, min: frame.min, max: frame.max };
                proof {
                    lemma_push(codes, rest, up, low, high, w);
                    if ascending(codes) {
                        lemma_emitted_none(codes, frame.lo as int, mid as int, low, high, w);
                        assert(Seq::<int>::empty() + upper =~= upper);
                    }
                }
                self.stack.push(up);
            } else if mz > fmax {
                let down = Frame { lo: frame.lo, hi: mid, min: frame.min, max: frame.max };
                proof {
                    lemma_push(codes, rest, down, low, high, w);
                    if ascending(codes) {
                        lemma_emitted_none(codes, mid + 1, frame.hi as int, low, high, w);
                        assert(lower + Seq::<int>::empty() =~= lower);
                    }
                }
                self.stack.push(down);
            } else if self.bbox.contains(&midz) {
                let up = Frame { lo: mid + 1, hi: frame.hi, min: midz, max: frame.max };
                let down = Frame { lo: frame.lo, hi: mid, min: frame.min, max: midz };
                proof {
                    lemma_below_fits(mz, fmax, D as nat * w);
                    lemma_push(codes, rest, up, low, high, w);
                    lemma_push(codes, rest.push(up), down, low, high, w);
                    assert(in_box(mz, low, high, w));
                    assert((seq![mid as int] + (lower + upper)) + tail =~= seq![mid as int] + (
                    lower + (upper + tail)));
                    assert((seq![mid as int] + (lower + (upper + tail))).drop_first() =~= lower
                        + (upper + tail));
                }
                self.stack.push(up);
                self.stack.push(down);
                proof {
                    assert(*item == old(self).items()[mid as int]);
                    assert(old(self).bbox().holds(old(self).codes()[mid as int]));
                }
                return Some(item);
            } else {
                proof {
                    lemma_below_fits(mz, fmax, D as nat * w);
                    lemma_keep_low(mz, D as nat * w);
                    assert(midz.trimmed() == mz);
                    assert(!in_box(mz, low, high, w));
                }
                let up_min: Z<D, T> = if frame.hi - (mid + 1) > self.threshold {
                    self.bbox.bigmin(&midz)
                } else {
                    midz
                };
                let up = Frame { lo: mid + 1, hi: frame.hi, min: up_min, max: frame.max };
                let down_max: Z<D, T> = if mid - frame.lo > self.threshold {
                    self.bbox.litmax(&midz)
                } else {
                    midz
                };
                let down = Frame { lo: frame.lo, hi: mid, min: frame.min, max: down_max };
                proof {
                    lemma_push(codes, rest, up, low, high, w);
                    lemma_push(codes, rest.push(up), down, low, high, w);
                    assert((lower + upper) + tail =~= lower + (upper + tail));
                }
                self.stack.push(up);
                self.stack.push(down);
            }
        }
    }

    /// All the values within the bounding box that are still to come, in the
    /// order in which they come.
    pub fn collect(self) -> (found: Vec<&'a A>)
        requires
            self.wf(),
        ensures
            found@.len() <= self.remaining(),
            forall|n: int|
                #![trigger found@[n]]
                0 <= n < found@.len() ==> exists|i: int|
                    0 <= i < self.items().len() && *found@[n] == #[trigger] self.items()[i]
                        && self.bbox().holds(self.codes()[i]),
            ascending(self.codes()) ==> found@.len() == self.pending().len(),
            ascending(self.codes()) ==> forall|n: int|
                #![trigger found@[n]]
                #![trigger self.pending()[n]]
                0 <= n < found@.len() ==> {
                    &&& 0 <= self.pending()[n]
                    &&& self.pending()[n] < self.items().len()
                    &&& *found@[n] == self.items()[self.pending()[n]]
                },
    {
        let ghost start = self.pending();
        let mut search = self;
        let mut found: Vec<&'a A> = Vec::new();
        loop
            invariant
                search.wf(),
                found@.len() + search.remaining() <= self.remaining(),
                search.items() == self.items(),
                search.bbox() == self.bbox(),
                start == self.pending(),
                forall|n: int|
                    #![trigger found@[n]]
                    0 <= n < found@.len() ==> exists|i: int|
                        0 <= i < self.items().len() && *found@[n] == #[trigger] self.items()[i]
                            && self.bbox().holds(self.codes()[i]),
                ascending(self.codes()) ==> found@.len() <= start.len() && search.pending()
                    == start.skip(found@.len() as int),
                ascending(self.codes()) ==> forall|n: int|
                    #![trigger found@[n]]
                    #![trigger start[n]]
                    0 <= n < found@.len() ==> {
                        &&& 0 <= start[n]
                        &&& start[n] < self.items().len()
                        &&& *found@[n] == self.items()[start[n]]
                    },
            decreases search.remaining(),
        {
            let ghost before = search.pending();
            let ghost count = found@.len() as int;
            match search.next() {
                Some(item) => {
                    proof {
                        if ascending(self.codes()) {
                            assert(before[0] == start[count]);
                            assert(before.drop_first() =~= start.skip(count + 1));
                        }
                    }
                    let ghost earlier = found@;
                    found.push(item);
                    proof {
                        assert forall|n: int|
                            #![trigger found@[n]]
                            0 <= n < found@.len() implies exists|i: int|
                            0 <= i < self.items().len() && *found@[n] == #[trigger] self.items()[i]
                                && self.bbox().holds(self.codes()[i]) by {
                            if n < count {
                                assert(found@[n] == earlier[n]);
                            }
                        }
                        if ascending(self.codes()) {
                            assert forall|n: int|
                                #![trigger found@[n]]
                                #![trigger start[n]]
                                0 <= n < found@.len() implies 0 <= start[n] && start[n]
                                < self.items().len() && *found@[n] == self.items()[start[n]] by {
                                if n < count {
                                    assert(found@[n] == earlier[n]);
                                }
                            }
                        }
                    }
                },
                None => {
                    return found;
                },
            }
        }
    }
}

/// Iterate over a bounding box of `Z` values.
///
/// Out of a sequence of values that are sorted by their `Z` value, get all
/// elements within a bounding box.
pub fn range<'a, const D: usize, T: Size<D>, A: GetZ<D, T>>(
    items: &'a [A],
    min: [T; D],
    max: [T; D],
) -> (r: Zrange<'a, D, T, A>)
    ensures
        r.wf(),
        r.depth() == 1,
        r.remaining() == items@.len(),
        r.items() == items@,
        r.threshold() == 10,
        r.bbox().low() == lower_corner(raws(min@), raws(max@)),
        r.bbox().high() == upper_corner(raws(min@), raws(max@)),
        r.pending() == emitted(
            codes_of::<D, T, A>(items@),
            0,
            items@.len() as int,
            r.bbox().low(),
            r.bbox().high(),
            T::width(),
        ),
{
    let lo: Z<D, T> = Z::interlace(&min);
    let hi: Z<D, T> = Z::interlace(&max);
    proof {
        lemma_coords_of_interlaced(min, lo);
        lemma_coords_of_interlaced(max, hi);
    }
    let bbox = Bbox::new(lo, hi);
    let bmin = bbox.min();
    let bmax = bbox.max();
    let frame = Frame { lo: 0, hi: items.len(), min: bmin, max: bmax };
    let mut stack: Vec<Frame<D, T>> = Vec::new();
    stack.push(frame);
    proof {
        bbox.lemma_wf();
        lemma_interlaced_fits(bbox.high(), T::width());
        let codes = codes_of::<D, T, A>(items@);
        assert forall|i: int|
            0 <= i < codes.len() && in_box(
                #[trigger] codes[i],
                bbox.low(),
                bbox.high(),
                T::width(),
            ) implies bmin.code() <= codes[i] <= bmax.code() by {
            lemma_box_corners(codes[i], bbox.low(), bbox.high(), T::width());
        }
        lemma_push(codes, Seq::empty(), frame, bbox.low(), bbox.high(), T::width());
        assert(stack@ =~= Seq::empty().push(frame));
        assert(emitted(codes, 0, items@.len() as int, bbox.low(), bbox.high(), T::width())
            + Seq::<int>::empty() =~= emitted(
            codes,
            0,
            items@.len() as int,
            bbox.low(),
            bbox.high(),
            T::width(),
        ));
    }
    Zrange { items, stack, bbox, threshold: 10 }
}

} // verus!
