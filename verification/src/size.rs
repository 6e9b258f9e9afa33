//! The width table: for each coordinate type and number of dimensions, the
//! type that holds the interleaved bits, and the shuffles that set the bits of
//! a coordinate apart and draw them together again.

use vstd::prelude::*;
use crate::bits::{from_bits, has_bit, lemma_bits_equal, lemma_from_bits};
use crate::word::Word;

verus! {

/// The bits of `x` set `dims` apart: bit `i` of `x` stands at position
/// `i * dims`, and every other bit is clear.
pub open spec fn spread(x: u128, dims: nat) -> u128 {
    from_bits(|j: nat| j % dims == 0 && has_bit(x, j / dims), 128)
}

/// Every `dims`-th bit of `z`, drawn together: bit `i` of the result is bit
/// `i * dims` of `z`, for the `w` lowest bits of the result.
pub open spec fn gather(z: u128, dims: nat, w: nat) -> u128 {
    from_bits(|i: nat| has_bit(z, i * dims), w)
}

/// A number with the bits of `spread(x, dims)` is `spread(x, dims)`.
pub proof fn lemma_spread_unique(x: u128, out: u128, dims: nat)
    requires
        forall|j: nat| j < 128 ==> has_bit(out, j) == (j % dims == 0 && has_bit(x, j / dims)),
    ensures
        out == spread(x, dims),
{
    assert forall|j: nat| j < 128 implies has_bit(out, j) == has_bit(spread(x, dims), j) by {
        lemma_from_bits(|j: nat| j % dims == 0 && has_bit(x, j / dims), 128, j);
    }
    lemma_bits_equal(out, spread(x, dims));
}

/// A number with the bits of `gather(z, dims, w)` is `gather(z, dims, w)`.
pub proof fn lemma_gather_unique(z: u128, r: u128, dims: nat, w: nat)
    requires
        forall|i: nat| i < 128 ==> has_bit(r, i) == (i < w && has_bit(z, i * dims)),
    ensures
        r == gather(z, dims, w),
{
    assert forall|i: nat| i < 128 implies has_bit(r, i) == has_bit(gather(z, dims, w), i) by {
        lemma_from_bits(|i: nat| has_bit(z, i * dims), w, i);
    }
    lemma_bits_equal(r, gather(z, dims, w));
}

/// A coordinate type for `D` dimensions: `D` coordinates of this type
/// interleave into one value of `Output`, the narrowest of `u16`, `u32`, `u64`
/// and `u128` that holds them.
pub trait Size<const D: usize>: Word {
    type Output: Word;

    /// `Output` holds `D` coordinates, and no narrower type does.
    proof fn lemma_size()
        ensures
            2 <= D,
            D * Self::width() <= <Self::Output as Word>::width(),
            <Self::Output as Word>::width() == 16 || <Self::Output as Word>::width() < 2 * D
                * Self::width(),
    ;

    /// Sets the bits of `self` `D` apart.
    fn expand(self) -> (out: Self::Output)
        ensures
            out.raw() == spread(self.raw(), D as nat),
    ;

    /// Draws every `D`-th bit of `val` together.
    fn compress(val: Self::Output) -> (r: Self)
        ensures
            r.raw() == gather(val.raw(), D as nat, Self::width()),
    ;
}

/// The sizes of a row of the table: at least two coordinates of at least one
/// bit, which together fit in the type of the interleaved bits.
pub proof fn lemma_table<const D: usize, T: Size<D>>()
    ensures
        2 <= D <= 128,
        1 <= T::width(),
        D * T::width() <= <T::Output as Word>::width() <= 128,
{
    T::lemma_size();
    T::lemma_width();
    <T::Output as Word>::lemma_width();
    assert(D <= D * T::width()) by (nonlinear_arith)
        requires
            T::width() >= 1,
    ;
}

/// Bit `j` of what the two shuffles of `u8` for 2 dimensions give.
proof fn lemma_u8_2(
    v: u8, e0: u16, e1: u16, e2: u16, e3: u16, z: u16, c0: u16, c1: u16, c2: u16, c3: u16,
    r: u8, j: u32,
)
    by (bit_vector)
    requires
        j < 128,
    ensures
        e0 == v as u16
            && e1 == (e0 ^ (e0 << 4)) & 0x0F0F
            && e2 == (e1 ^ (e1 << 2)) & 0x3333
            && e3 == (e2 ^ (e2 << 1)) & 0x5555
            ==> ((e3 as u128 >> j) & 1 == 1)
            == (j % 2 == 0 && ((v as u128) >> (j / 2)) & 1 == 1),
        c0 == z & 0x5555
            && c1 == (c0 ^ (c0 >> 1)) & 0x3333
            && c2 == (c1 ^ (c1 >> 2)) & 0x0F0F
            && c3 == (c2 ^ (c2 >> 4)) & 0x00FF
            && r == c3 as u8
            ==> ((r as u128 >> j) & 1 == 1)
            == (j < 8 && ((z as u128) >> ((j * 2) as u32)) & 1 == 1),
{
}

impl Size<2> for u8 {
    type Output = u16;

    proof fn lemma_size() {
    }

    #[inline]
    fn expand(self) -> (out: u16) {
        let e0: u16 = self as u16;
        let e1: u16 = (e0 ^ (e0 << 4)) & 0x0F0F;
        let e2: u16 = (e1 ^ (e1 << 2)) & 0x3333;
        let e3: u16 = (e2 ^ (e2 << 1)) & 0x5555;
        proof {
            assert forall|j: nat| j < 128 implies #[trigger] has_bit(e3 as u128, j)
                == (j % 2 == 0 && has_bit(self as u128, j / 2)) by {
                lemma_u8_2(
                    self, e0, e1, e2, e3, 0, 0, 0, 0, 0, 0, j as u32,
                );
            }
            lemma_spread_unique(self as u128, e3 as u128, 2);
        }
        e3
    }

    #[inline]
    fn compress(val: u16) -> (r: u8) {
        let c0: u16 = val & 0x5555;
        let c1: u16 = (c0 ^ (c0 >> 1)) & 0x3333;
        let c2: u16 = (c1 ^ (c1 >> 2)) & 0x0F0F;
        let c3: u16 = (c2 ^ (c2 >> 4)) & 0x00FF;
        let r: u8 = #[verifier::truncate] (c3 as u8);
        proof {
            assert forall|i: nat| i < 128 implies #[trigger] has_bit(r as u128, i)
                == (i < 8 && has_bit(val as u128, i * 2)) by {
                lemma_u8_2(
                    0, 0, 0, 0, 0, val, c0, c1, c2, c3, r, i as u32,
                );
            }
            lemma_gather_unique(val as u128, r as u128, 2, 8);
        }
        r
    }
}

/// Bit `j` of what the two shuffles of `u8` for 3 dimensions give.
proof fn lemma_u8_3(
    v: u8, e0: u32, e1: u32, e2: u32, e3: u32, z: u32, c0: u32, c1: u32, c2: u32, c3: u32,
    r: u8, j: u32,
)
    by (bit_vector)
    requires
        j < 128,
    ensures
        e0 == v as u32
            && e1 == (e0 ^ (e0 << 8)) & 0x0F00_F00F
            && e2 == (e1 ^ (e1 << 4)) & 0xC30C_30C3
            && e3 == (e2 ^ (e2 << 2)) & 0x4924_9249
            ==> ((e3 as u128 >> j) & 1 == 1)
            == (j % 3 == 0 && ((v as u128) >> (j / 3)) & 1 == 1),
        c0 == z & 0x4924_9249
            && c1 == (c0 ^ (c0 >> 2)) & 0xC30C_30C3
            && c2 == (c1 ^ (c1 >> 4)) & 0x0F00_F00F
            && c3 == (c2 ^ (c2 >> 8)) & 0xFF00_00FF
            && r == c3 as u8
            ==> ((r as u128 >> j) & 1 == 1)
            == (j < 8 && ((z as u128) >> ((j * 3) as u32)) & 1 == 1),
{
}

impl Size<3> for u8 {
    type Output = u32;

    proof fn lemma_size() {
    }

    #[inline]
    fn expand(self) -> (out: u32) {
        let e0: u32 = self as u32;
        let e1: u32 = (e0 ^ (e0 << 8)) & 0x0F00_F00F;
        let e2: u32 = (e1 ^ (e1 << 4)) & 0xC30C_30C3;
        let e3: u32 = (e2 ^ (e2 << 2)) & 0x4924_9249;
        proof {
            assert forall|j: nat| j < 128 implies #[trigger] has_bit(e3 as u128, j)
                == (j % 3 == 0 && has_bit(self as u128, j / 3)) by {
                lemma_u8_3(
                    self, e0, e1, e2, e3, 0, 0, 0, 0, 0, 0, j as u32,
                );
            }
            lemma_spread_unique(self as u128, e3 as u128, 3);
        }
        e3
    }

    #[inline]
    fn compress(val: u32) -> (r: u8) {
        let c0: u32 = val & 0x4924_9249;
        let c1: u32 = (c0 ^ (c0 >> 2)) & 0xC30C_30C3;
        let c2: u32 = (c1 ^ (c1 >> 4)) & 0x0F00_F00F;
        let c3: u32 = (c2 ^ (c2 >> 8)) & 0xFF00_00FF;
        let r: u8 = #[verifier::truncate] (c3 as u8);
        proof {
            assert forall|i: nat| i < 128 implies #[trigger] has_bit(r as u128, i)
                == (i < 8 && has_bit(val as u128, i * 3)) by {
                lemma_u8_3(
                    0, 0, 0, 0, 0, val, c0, c1, c2, c3, r, i as u32,
                );
            }
            lemma_gather_unique(val as u128, r as u128, 3, 8);
        }
        r
    }
}

/// Bit `j` of what the two shuffles of `u8` for 4 dimensions give.
proof fn lemma_u8_4(
    v: u8, e0: u32, e1: u32, e2: u32, e3: u32, z: u32, c0: u32, c1: u32, c2: u32, c3: u32,
    r: u8, j: u32,
)
    by (bit_vector)
    requires
        j < 128,
    ensures
        e0 == v as u32
            && e1 == (e0 ^ (e0 << 12)) & 0x000F_000F
            && e2 == (e1 ^ (e1 << 6)) & 0x0303_0303
            && e3 == (e2 ^ (e2 << 3)) & 0x1111_1111
            ==> ((e3 as u128 >> j) & 1 == 1)
            == (j % 4 == 0 && ((v as u128) >> (j / 4)) & 1 == 1),
        c0 == z & 0x1111_1111
            && c1 == (c0 ^ (c0 >> 3)) & 0x0303_0303
            && c2 == (c1 ^ (c1 >> 6)) & 0x000F_000F
            && c3 == (c2 ^ (c2 >> 12)) & 0x0000_00FF
            && r == c3 as u8
            ==> ((r as u128 >> j) & 1 == 1)
            == (j < 8 && ((z as u128) >> ((j * 4) as u32)) & 1 == 1),
{
}

impl Size<4> for u8 {
    type Output = u32;

    proof fn lemma_size() {
    }

    #[inline]
    fn expand(self) -> (out: u32) {
        let e0: u32 = self as u32;
        let e1: u32 = (e0 ^ (e0 << 12)) & 0x000F_000F;
        let e2: u32 = (e1 ^ (e1 << 6)) & 0x0303_0303;
        let e3: u32 = (e2 ^ (e2 << 3)) & 0x1111_1111;
        proof {
            assert forall|j: nat| j < 128 implies #[trigger] has_bit(e3 as u128, j)
                == (j % 4 == 0 && has_bit(self as u128, j / 4)) by {
                lemma_u8_4(
                    self, e0, e1, e2, e3, 0, 0, 0, 0, 0, 0, j as u32,
                );
            }
            lemma_spread_unique(self as u128, e3 as u128, 4);
        }
        e3
    }

    #[inline]
    fn compress(val: u32) -> (r: u8) {
        let c0: u32 = val & 0x1111_1111;
        let c1: u32 = (c0 ^ (c0 >> 3)) & 0x0303_0303;
        let c2: u32 = (c1 ^ (c1 >> 6)) & 0x000F_000F;
        let c3: u32 = (c2 ^ (c2 >> 12)) & 0x0000_00FF;
        let r: u8 = #[verifier::truncate] (c3 as u8);
        proof {
            assert forall|i: nat| i < 128 implies #[trigger] has_bit(r as u128, i)
                == (i < 8 && has_bit(val as u128, i * 4)) by {
                lemma_u8_4(
                    0, 0, 0, 0, 0, val, c0, c1, c2, c3, r, i as u32,
                );
            }
            lemma_gather_unique(val as u128, r as u128, 4, 8);
        }
        r
    }
}

/// Bit `j` of what the two shuffles of `u8` for 5 dimensions give.
proof fn lemma_u8_5(
    v: u8, e0: u64, e1: u64, e2: u64, e3: u64, z: u64, c0: u64, c1: u64, c2: u64, c3: u64,
    r: u8, j: u32,
)
    by (bit_vector)
    requires
        j < 128,
    ensures
        e0 == v as u64
            && e1 == (e0 ^ (e0 << 16)) & 0xF000_0F00_00F0_000F
            && e2 == (e1 ^ (e1 << 8)) & 0x300C_0300_C030_0C03
            && e3 == (e2 ^ (e2 << 4)) & 0x1084_2108_4210_8421
            ==> ((e3 as u128 >> j) & 1 == 1)
            == (j % 5 == 0 && ((v as u128) >> (j / 5)) & 1 == 1),
        c0 == z & 0x1084_2108_4210_8421
            && c1 == (c0 ^ (c0 >> 4)) & 0x300C_0300_C030_0C03
            && c2 == (c1 ^ (c1 >> 8)) & 0xF000_0F00_00F0_000F
            && c3 == (c2 ^ (c2 >> 16)) & 0x0000_FF00_0000_00FF
            && r == c3 as u8
            ==> ((r as u128 >> j) & 1 == 1)
            == (j < 8 && ((z as u128) >> ((j * 5) as u32)) & 1 == 1),
{
}

impl Size<5> for u8 {
    type Output = u64;

    proof fn lemma_size() {
    }

    #[inline]
    fn expand(self) -> (out: u64) {
        let e0: u64 = self as u64;
        let e1: u64 = (e0 ^ (e0 << 16)) & 0xF000_0F00_00F0_000F;
        let e2: u64 = (e1 ^ (e1 << 8)) & 0x300C_0300_C030_0C03;
        let e3: u64 = (e2 ^ (e2 << 4)) & 0x1084_2108_4210_8421;
        proof {
            assert forall|j: nat| j < 128 implies #[trigger] has_bit(e3 as u128, j)
                == (j % 5 == 0 && has_bit(self as u128, j / 5)) by {
                lemma_u8_5(
                    self, e0, e1, e2, e3, 0, 0, 0, 0, 0, 0, j as u32,
                );
            }
            lemma_spread_unique(self as u128, e3 as u128, 5);
        }
        e3
    }

    #[inline]
    fn compress(val: u64) -> (r: u8) {
        let c0: u64 = val & 0x1084_2108_4210_8421;
        let c1: u64 = (c0 ^ (c0 >> 4)) & 0x300C_0300_C030_0C03;
        let c2: u64 = (c1 ^ (c1 >> 8)) & 0xF000_0F00_00F0_000F;
        let c3: u64 = (c2 ^ (c2 >> 16)) & 0x0000_FF00_0000_00FF;
        let r: u8 = #[verifier::truncate] (c3 as u8);
        proof {
            assert forall|i: nat| i < 128 implies #[trigger] has_bit(r as u128, i)
                == (i < 8 && has_bit(val as u128, i * 5)) by {
                lemma_u8_5(
                    0, 0, 0, 0, 0, val, c0, c1, c2, c3, r, i as u32,
                );
            }
            lemma_gather_unique(val as u128, r as u128, 5, 8);
        }
        r
    }
}

/// Bit `j` of what the two shuffles of `u8` for 6 dimensions give.
proof fn lemma_u8_6(
    v: u8, e0: u64, e1: u64, e2: u64, e3: u64, z: u64, c0: u64, c1: u64, c2: u64, c3: u64,
    r: u8, j: u32,
)
    by (bit_vector)
    requires
        j < 128,
    ensures
        e0 == v as u64
            && e1 == (e0 ^ (e0 << 20)) & 0x000F_0000_0F00_000F
            && e2 == (e1 ^ (e1 << 10)) & 0x3003_0030_0300_3003
            && e3 == (e2 ^ (e2 << 5)) & 0x1041_0410_4104_1041
            ==> ((e3 as u128 >> j) & 1 == 1)
            == (j % 6 == 0 && ((v as u128) >> (j / 6)) & 1 == 1),
        c0 == z & 0x1041_0410_4104_1041
            && c1 == (c0 ^ (c0 >> 5)) & 0x3003_0030_0300_3003
            && c2 == (c1 ^ (c1 >> 10)) & 0x000F_0000_0F00_000F
            && c3 == (c2 ^ (c2 >> 20)) & 0x00FF_0000_0000_00FF
            && r == c3 as u8
            ==> ((r as u128 >> j) & 1 == 1)
            == (j < 8 && ((z as u128) >> ((j * 6) as u32)) & 1 == 1),
{
}

impl Size<6> for u8 {
    type Output = u64;

    proof fn lemma_size() {
    }

    #[inline]
    fn expand(self) -> (out: u64) {
        let e0: u64 = self as u64;
        let e1: u64 = (e0 ^ (e0 << 20)) & 0x000F_0000_0F00_000F;
        let e2: u64 = (e1 ^ (e1 << 10)) & 0x3003_0030_0300_3003;
        let e3: u64 = (e2 ^ (e2 << 5)) & 0x1041_0410_4104_1041;
        proof {
            assert forall|j: nat| j < 128 implies #[trigger] has_bit(e3 as u128, j)
                == (j % 6 == 0 && has_bit(self as u128, j / 6)) by {
                lemma_u8_6(
                    self, e0, e1, e2, e3, 0, 0, 0, 0, 0, 0, j as u32,
                );
            }
            lemma_spread_unique(self as u128, e3 as u128, 6);
        }
        e3
    }

    #[inline]
    fn compress(val: u64) -> (r: u8) {
        let c0: u64 = val & 0x1041_0410_4104_1041;
        let c1: u64 = (c0 ^ (c0 >> 5)) & 0x3003_0030_0300_3003;
        let c2: u64 = (c1 ^ (c1 >> 10)) & 0x000F_0000_0F00_000F;
        let c3: u64 = (c2 ^ (c2 >> 20)) & 0x00FF_0000_0000_00FF;
        let r: u8 = #[verifier::truncate] (c3 as u8);
        proof {
            assert forall|i: nat| i < 128 implies #[trigger] has_bit(r as u128, i)
                == (i < 8 && has_bit(val as u128, i * 6)) by {
                lemma_u8_6(
                    0, 0, 0, 0, 0, val, c0, c1, c2, c3, r, i as u32,
                );
            }
            lemma_gather_unique(val as u128, r as u128, 6, 8);
        }
        r
    }
}

/// Bit `j` of what the two shuffles of `u8` for 7 dimensions give.
proof fn lemma_u8_7(
    v: u8, e0: u64, e1: u64, e2: u64, e3: u64, z: u64, c0: u64, c1: u64, c2: u64, c3: u64,
    r: u8, j: u32,
)
    by (bit_vector)
    requires
        j < 128,
    ensures
        e0 == v as u64
            && e1 == (e0 ^ (e0 << 24)) & 0x0F00_0000_F000_000F
            && e2 == (e1 ^ (e1 << 12)) & 0x0300_0C00_3000_C003
            && e3 == (e2 ^ (e2 << 6)) & 0x8102_0408_1020_4081
            ==> ((e3 as u128 >> j) & 1 == 1)
            == (j % 7 == 0 && ((v as u128) >> (j / 7)) & 1 == 1),
        c0 == z & 0x8102_0408_1020_4081
            && c1 == (c0 ^ (c0 >> 6)) & 0x0300_0C00_3000_C003
            && c2 == (c1 ^ (c1 >> 12)) & 0x0F00_0000_F000_000F
            && c3 == (c2 ^ (c2 >> 24)) & 0xFF00_0000_0000_00FF
            && r == c3 as u8
            ==> ((r as u128 >> j) & 1 == 1)
            == (j < 8 && ((z as u128) >> ((j * 7) as u32)) & 1 == 1),
{
}

impl Size<7> for u8 {
    type Output = u64;

    proof fn lemma_size() {
    }

    #[inline]
    fn expand(self) -> (out: u64) {
        let e0: u64 = self as u64;
        let e1: u64 = (e0 ^ (e0 << 24)) & 0x0F00_0000_F000_000F;
        let e2: u64 = (e1 ^ (e1 << 12)) & 0x0300_0C00_3000_C003;
        let e3: u64 = (e2 ^ (e2 << 6)) & 0x8102_0408_1020_4081;
        proof {
            assert forall|j: nat| j < 128 implies #[trigger] has_bit(e3 as u128, j)
                == (j % 7 == 0 && has_bit(self as u128, j / 7)) by {
                lemma_u8_7(
                    self, e0, e1, e2, e3, 0, 0, 0, 0, 0, 0, j as u32,
                );
            }
            lemma_spread_unique(self as u128, e3 as u128, 7);
        }
        e3
    }

    #[inline]
    fn compress(val: u64) -> (r: u8) {
        let c0: u64 = val & 0x8102_0408_1020_4081;
        let c1: u64 = (c0 ^ (c0 >> 6)) & 0x0300_0C00_3000_C003;
        let c2: u64 = (c1 ^ (c1 >> 12)) & 0x0F00_0000_F000_000F;
        let c3: u64 = (c2 ^ (c2 >> 24)) & 0xFF00_0000_0000_00FF;
        let r: u8 = #[verifier::truncate] (c3 as u8);
        proof {
            assert forall|i: nat| i < 128 implies #[trigger] has_bit(r as u128, i)
                == (i < 8 && has_bit(val as u128, i * 7)) by {
                lemma_u8_7(
                    0, 0, 0, 0, 0, val, c0, c1, c2, c3, r, i as u32,
                );
            }
            lemma_gather_unique(val as u128, r as u128, 7, 8);
        }
        r
    }
}

/// Bit `j` of what the two shuffles of `u8` for 8 dimensions give.
proof fn lemma_u8_8(
    v: u8, e0: u64, e1: u64, e2: u64, e3: u64, z: u64, c0: u64, c1: u64, c2: u64, c3: u64,
    r: u8, j: u32,
)
    by (bit_vector)
    requires
        j < 128,
    ensures
        e0 == v as u64
            && e1 == (e0 ^ (e0 << 28)) & 0x0000_000F_0000_000F
            && e2 == (e1 ^ (e1 << 14)) & 0x0003_0003_0003_0003
            && e3 == (e2 ^ (e2 << 7)) & 0x0101_0101_0101_0101
            ==> ((e3 as u128 >> j) & 1 == 1)
            == (j % 8 == 0 && ((v as u128) >> (j / 8)) & 1 == 1),
        c0 == z & 0x0101_0101_0101_0101
            && c1 == (c0 ^ (c0 >> 7)) & 0x0003_0003_0003_0003
            && c2 == (c1 ^ (c1 >> 14)) & 0x0000_000F_0000_000F
            && c3 == (c2 ^ (c2 >> 28)) & 0x0000_0000_0000_00FF
            && r == c3 as u8
            ==> ((r as u128 >> j) & 1 == 1)
            == (j < 8 && ((z as u128) >> ((j * 8) as u32)) & 1 == 1),
{
}

impl Size<8> for u8 {
    type Output = u64;

    proof fn lemma_size() {
    }

    #[inline]
    fn expand(self) -> (out: u64) {
        let e0: u64 = self as u64;
        let e1: u64 = (e0 ^ (e0 << 28)) & 0x0000_000F_0000_000F;
        let e2: u64 = (e1 ^ (e1 << 14)) & 0x0003_0003_0003_0003;
        let e3: u64 = (e2 ^ (e2 << 7)) & 0x0101_0101_0101_0101;
        proof {
            assert forall|j: nat| j < 128 implies #[trigger] has_bit(e3 as u128, j)
                == (j % 8 == 0 && has_bit(self as u128, j / 8)) by {
                lemma_u8_8(
                    self, e0, e1, e2, e3, 0, 0, 0, 0, 0, 0, j as u32,
                );
            }
            lemma_spread_unique(self as u128, e3 as u128, 8);
        }
        e3
    }

    #[inline]
    fn compress(val: u64) -> (r: u8) {
        let c0: u64 = val & 0x0101_0101_0101_0101;
        let c1: u64 = (c0 ^ (c0 >> 7)) & 0x0003_0003_0003_0003;
        let c2: u64 = (c1 ^ (c1 >> 14)) & 0x0000_000F_0000_000F;
        let c3: u64 = (c2 ^ (c2 >> 28)) & 0x0000_0000_0000_00FF;
        let r: u8 = #[verifier::truncate] (c3 as u8);
        proof {
            assert forall|i: nat| i < 128 implies #[trigger] has_bit(r as u128, i)
                == (i < 8 && has_bit(val as u128, i * 8)) by {
                lemma_u8_8(
                    0, 0, 0, 0, 0, val, c0, c1, c2, c3, r, i as u32,
                );
            }
            lemma_gather_unique(val as u128, r as u128, 8, 8);
        }
        r
    }
}

/// Bit `j` of what the two shuffles of `u8` for 9 dimensions give.
proof fn lemma_u8_9(
    v: u8, e0: u128, e1: u128, e2: u128, e3: u128, z: u128, c0: u128, c1: u128, c2: u128,
    c3: u128, r: u8, j: u32,
)
    by (bit_vector)
    requires
        j < 128,
    ensures
        e0 == v as u128
            && e1 == (e0 ^ (e0 << 32)) & 0x00F0_0000_000F_0000_0000_00F0_0000_000F
            && e2 == (e1 ^ (e1 << 16)) & 0xC000_3000_0C00_0300_00C0_0030_000C_0003
            && e3 == (e2 ^ (e2 << 8)) & 0x4020_1008_0402_0100_8040_2010_0804_0201
            ==> ((e3 as u128 >> j) & 1 == 1)
            == (j % 9 == 0 && ((v as u128) >> (j / 9)) & 1 == 1),
        c0 == z & 0x4020_1008_0402_0100_8040_2010_0804_0201
            && c1 == (c0 ^ (c0 >> 8)) & 0xC000_3000_0C00_0300_00C0_0030_000C_0003
            && c2 == (c1 ^ (c1 >> 16)) & 0x00F0_0000_000F_0000_0000_00F0_0000_000F
            && c3 == (c2 ^ (c2 >> 32)) & 0x0000_0000_0000_FF00_0000_0000_0000_00FF
            && r == c3 as u8
            ==> ((r as u128 >> j) & 1 == 1)
            == (j < 8 && ((z as u128) >> ((j * 9) as u32)) & 1 == 1),
{
}

impl Size<9> for u8 {
    type Output = u128;

    proof fn lemma_size() {
    }

    #[inline]
    fn expand(self) -> (out: u128) {
        let e0: u128 = self as u128;
        let e1: u128 = (e0 ^ (e0 << 32)) & 0x00F0_0000_000F_0000_0000_00F0_0000_000F;
        let e2: u128 = (e1 ^ (e1 << 16)) & 0xC000_3000_0C00_0300_00C0_0030_000C_0003;
        let e3: u128 = (e2 ^ (e2 << 8)) & 0x4020_1008_0402_0100_8040_2010_0804_0201;
        proof {
            assert forall|j: nat| j < 128 implies #[trigger] has_bit(e3 as u128, j)
                == (j % 9 == 0 && has_bit(self as u128, j / 9)) by {
                lemma_u8_9(
                    self, e0, e1, e2, e3, 0, 0, 0, 0, 0, 0, j as u32,
                );
            }
            lemma_spread_unique(self as u128, e3 as u128, 9);
        }
        e3
    }

    #[inline]
    fn compress(val: u128) -> (r: u8) {
        let c0: u128 = val & 0x4020_1008_0402_0100_8040_2010_0804_0201;
        let c1: u128 = (c0 ^ (c0 >> 8)) & 0xC000_3000_0C00_0300_00C0_0030_000C_0003;
        let c2: u128 = (c1 ^ (c1 >> 16)) & 0x00F0_0000_000F_0000_0000_00F0_0000_000F;
        let c3: u128 = (c2 ^ (c2 >> 32)) & 0x0000_0000_0000_FF00_0000_0000_0000_00FF;
        let r: u8 = #[verifier::truncate] (c3 as u8);
        proof {
            assert forall|i: nat| i < 128 implies #[trigger] has_bit(r as u128, i)
                == (i < 8 && has_bit(val as u128, i * 9)) by {
                lemma_u8_9(
                    0, 0, 0, 0, 0, val, c0, c1, c2, c3, r, i as u32,
                );
            }
            lemma_gather_unique(val as u128, r as u128, 9, 8);
        }
        r
    }
}

/// Bit `j` of what the two shuffles of `u8` for 10 dimensions give.
proof fn lemma_u8_10(
    v: u8, e0: u128, e1: u128, e2: u128, e3: u128, z: u128, c0: u128, c1: u128, c2: u128,
    c3: u128, r: u8, j: u32,
)
    by (bit_vector)
    requires
        j < 128,
    ensures
        e0 == v as u128
            && e1 == (e0 ^ (e0 << 36)) & 0x00F0_0000_000F_0000_0000_0F00_0000_000F
            && e2 == (e1 ^ (e1 << 18)) & 0x0300_0030_0003_0000_3000_0300_0030_0003
            && e3 == (e2 ^ (e2 << 9)) & 0x0100_4010_0401_0040_1004_0100_4010_0401
            ==> ((e3 as u128 >> j) & 1 == 1)
            == (j % 10 == 0 && ((v as u128) >> (j / 10)) & 1 == 1),
        c0 == z & 0x0100_4010_0401_0040_1004_0100_4010_0401
            && c1 == (c0 ^ (c0 >> 9)) & 0x0300_0030_0003_0000_3000_0300_0030_0003
            && c2 == (c1 ^ (c1 >> 18)) & 0x00F0_0000_000F_0000_0000_0F00_0000_000F
            && c3 == (c2 ^ (c2 >> 36)) & 0x0000_0000_0000_0000_0000_0000_0000_FFFF
            && r == c3 as u8
            ==> ((r as u128 >> j) & 1 == 1)
            == (j < 8 && ((z as u128) >> ((j * 10) as u32)) & 1 == 1),
{
}

impl Size<10> for u8 {
    type Output = u128;

    proof fn lemma_size() {
    }

    #[inline]
    fn expand(self) -> (out: u128) {
        let e0: u128 = self as u128;
        let e1: u128 = (e0 ^ (e0 << 36)) & 0x00F0_0000_000F_0000_0000_0F00_0000_000F;
        let e2: u128 = (e1 ^ (e1 << 18)) & 0x0300_0030_0003_0000_3000_0300_0030_0003;
        let e3: u128 = (e2 ^ (e2 << 9)) & 0x0100_4010_0401_0040_1004_0100_4010_0401;
        proof {
            assert forall|j: nat| j < 128 implies #[trigger] has_bit(e3 as u128, j)
                == (j % 10 == 0 && has_bit(self as u128, j / 10)) by {
                lemma_u8_10(
                    self, e0, e1, e2, e3, 0, 0, 0, 0, 0, 0, j as u32,
                );
            }
            lemma_spread_unique(self as u128, e3 as u128, 10);
        }
        e3
    }

    #[inline]
    fn compress(val: u128) -> (r: u8) {
        let c0: u128 = val & 0x0100_4010_0401_0040_1004_0100_4010_0401;
        let c1: u128 = (c0 ^ (c0 >> 9)) & 0x0300_0030_0003_0000_3000_0300_0030_0003;
        let c2: u128 = (c1 ^ (c1 >> 18)) & 0x00F0_0000_000F_0000_0000_0F00_0000_000F;
        let c3: u128 = (c2 ^ (c2 >> 36)) & 0x0000_0000_0000_0000_0000_0000_0000_FFFF;
        let r: u8 = #[verifier::truncate] (c3 as u8);
        proof {
            assert forall|i: nat| i < 128 implies #[trigger] has_bit(r as u128, i)
                == (i < 8 && has_bit(val as u128, i * 10)) by {
                lemma_u8_10(
                    0, 0, 0, 0, 0, val, c0, c1, c2, c3, r, i as u32,
                );
            }
            lemma_gather_unique(val as u128, r as u128, 10, 8);
        }
        r
    }
}

/// Bit `j` of what the two shuffles of `u8` for 11 dimensions give.
proof fn lemma_u8_11(
    v: u8, e0: u128, e1: u128, e2: u128, e3: u128, z: u128, c0: u128, c1: u128, c2: u128,
    c3: u128, r: u8, j: u32,
)
    by (bit_vector)
    requires
        j < 128,
    ensures
        e0 == v as u128
            && e1 == (e0 ^ (e0 << 40)) & 0x0000_0000_0F00_0000_0000_F000_0000_000F
            && e2 == (e1 ^ (e1 << 20)) & 0x0000_C000_0300_000C_0000_3000_00C0_0003
            && e3 == (e2 ^ (e2 << 10)) & 0x0200_4008_0100_2004_0080_1002_0040_0801
            ==> ((e3 as u128 >> j) & 1 == 1)
            == (j % 11 == 0 && ((v as u128) >> (j / 11)) & 1 == 1),
        c0 == z & 0x0200_4008_0100_2004_0080_1002_0040_0801
            && c1 == (c0 ^ (c0 >> 10)) & 0x0000_C000_0300_000C_0000_3000_00C0_0003
            && c2 == (c1 ^ (c1 >> 20)) & 0x0000_0000_0F00_0000_0000_F000_0000_000F
            && c3 == (c2 ^ (c2 >> 40)) & 0x0000_0000_FF00_0000_0000_0000_0000_00FF
            && r == c3 as u8
            ==> ((r as u128 >> j) & 1 == 1)
            == (j < 8 && ((z as u128) >> ((j * 11) as u32)) & 1 == 1),
{
}

impl Size<11> for u8 {
    type Output = u128;

    proof fn lemma_size() {
    }

    #[inline]
    fn expand(self) -> (out: u128) {
        let e0: u128 = self as u128;
        let e1: u128 = (e0 ^ (e0 << 40)) & 0x0000_0000_0F00_0000_0000_F000_0000_000F;
        let e2: u128 = (e1 ^ (e1 << 20)) & 0x0000_C000_0300_000C_0000_3000_00C0_0003;
        let e3: u128 = (e2 ^ (e2 << 10)) & 0x0200_4008_0100_2004_0080_1002_0040_0801;
        proof {
            assert forall|j: nat| j < 128 implies #[trigger] has_bit(e3 as u128, j)
                == (j % 11 == 0 && has_bit(self as u128, j / 11)) by {
                lemma_u8_11(
                    self, e0, e1, e2, e3, 0, 0, 0, 0, 0, 0, j as u32,
                );
            }
            lemma_spread_unique(self as u128, e3 as u128, 11);
        }
        e3
    }

    #[inline]
    fn compress(val: u128) -> (r: u8) {
        let c0: u128 = val & 0x0200_4008_0100_2004_0080_1002_0040_0801;
        let c1: u128 = (c0 ^ (c0 >> 10)) & 0x0000_C000_0300_000C_0000_3000_00C0_0003;
        let c2: u128 = (c1 ^ (c1 >> 20)) & 0x0000_0000_0F00_0000_0000_F000_0000_000F;
        let c3: u128 = (c2 ^ (c2 >> 40)) & 0x0000_0000_FF00_0000_0000_0000_0000_00FF;
        let r: u8 = #[verifier::truncate] (c3 as u8);
        proof {
            assert forall|i: nat| i < 128 implies #[trigger] has_bit(r as u128, i)
                == (i < 8 && has_bit(val as u128, i * 11)) by {
                lemma_u8_11(
                    0, 0, 0, 0, 0, val, c0, c1, c2, c3, r, i as u32,
                );
            }
            lemma_gather_unique(val as u128, r as u128, 11, 8);
        }
        r
    }
}

/// Bit `j` of what the two shuffles of `u8` for 12 dimensions give.
proof fn lemma_u8_12(
    v: u8, e0: u128, e1: u128, e2: u128, e3: u128, z: u128, c0: u128, c1: u128, c2: u128,
    c3: u128, r: u8, j: u32,
)
    by (bit_vector)
    requires
        j < 128,
    ensures
        e0 == v as u128
            && e1 == (e0 ^ (e0 << 44)) & 0x0000_000F_0000_0000_000F_0000_0000_000F
            && e2 == (e1 ^ (e1 << 22)) & 0x0300_0003_0000_0300_0003_0000_0300_0003
            && e3 == (e2 ^ (e2 << 11)) & 0x0100_1001_0010_0100_1001_0010_0100_1001
            ==> ((e3 as u128 >> j) & 1 == 1)
            == (j % 12 == 0 && ((v as u128) >> (j / 12)) & 1 == 1),
        c0 == z & 0x0100_1001_0010_0100_1001_0010_0100_1001
            && c1 == (c0 ^ (c0 >> 11)) & 0x0300_0003_0000_0300_0003_0000_0300_0003
            && c2 == (c1 ^ (c1 >> 22)) & 0x0000_000F_0000_0000_000F_0000_0000_000F
            && c3 == (c2 ^ (c2 >> 44)) & 0x0000_00FF_0000_0000_0000_0000_0000_00FF
            && r == c3 as u8
            ==> ((r as u128 >> j) & 1 == 1)
            == (j < 8 && ((z as u128) >> ((j * 12) as u32)) & 1 == 1),
{
}

impl Size<12> for u8 {
    type Output = u128;

    proof fn lemma_size() {
    }

    #[inline]
    fn expand(self) -> (out: u128) {
        let e0: u128 = self as u128;
        let e1: u128 = (e0 ^ (e0 << 44)) & 0x0000_000F_0000_0000_000F_0000_0000_000F;
        let e2: u128 = (e1 ^ (e1 << 22)) & 0x0300_0003_0000_0300_0003_0000_0300_0003;
        let e3: u128 = (e2 ^ (e2 << 11)) & 0x0100_1001_0010_0100_1001_0010_0100_1001;
        proof {
            assert forall|j: nat| j < 128 implies #[trigger] has_bit(e3 as u128, j)
                == (j % 12 == 0 && has_bit(self as u128, j / 12)) by {
                lemma_u8_12(
                    self, e0, e1, e2, e3, 0, 0, 0, 0, 0, 0, j as u32,
                );
            }
            lemma_spread_unique(self as u128, e3 as u128, 12);
        }
        e3
    }

    #[inline]
    fn compress(val: u128) -> (r: u8) {
        let c0: u128 = val & 0x0100_1001_0010_0100_1001_0010_0100_1001;
        let c1: u128 = (c0 ^ (c0 >> 11)) & 0x0300_0003_0000_0300_0003_0000_0300_0003;
        let c2: u128 = (c1 ^ (c1 >> 22)) & 0x0000_000F_0000_0000_000F_0000_0000_000F;
        let c3: u128 = (c2 ^ (c2 >> 44)) & 0x0000_00FF_0000_0000_0000_0000_0000_00FF;
        let r: u8 = #[verifier::truncate] (c3 as u8);
        proof {
            assert forall|i: nat| i < 128 implies #[trigger] has_bit(r as u128, i)
                == (i < 8 && has_bit(val as u128, i * 12)) by {
                lemma_u8_12(
                    0, 0, 0, 0, 0, val, c0, c1, c2, c3, r, i as u32,
                );
            }
            lemma_gather_unique(val as u128, r as u128, 12, 8);
        }
        r
    }
}

/// Bit `j` of what the two shuffles of `u8` for 13 dimensions give.
proof fn lemma_u8_13(
    v: u8, e0: u128, e1: u128, e2: u128, e3: u128, z: u128, c0: u128, c1: u128, c2: u128,
    c3: u128, r: u8, j: u32,
)
    by (bit_vector)
    requires
        j < 128,
    ensures
        e0 == v as u128
            && e1 == (e0 ^ (e0 << 48)) & 0x0000_0F00_0000_0000_00F0_0000_0000_000F
            && e2 == (e1 ^ (e1 << 24)) & 0x0000_0300_0000_C000_0030_0000_0C00_0003
            && e3 == (e2 ^ (e2 << 12)) & 0x0020_0100_0800_4002_0010_0080_0400_2001
            ==> ((e3 as u128 >> j) & 1 == 1)
            == (j % 13 == 0 && ((v as u128) >> (j / 13)) & 1 == 1),
        c0 == z & 0x0020_0100_0800_4002_0010_0080_0400_2001
            && c1 == (c0 ^ (c0 >> 12)) & 0x0000_0300_0000_C000_0030_0000_0C00_0003
            && c2 == (c1 ^ (c1 >> 24)) & 0x0000_0F00_0000_0000_00F0_0000_0000_000F
            && c3 == (c2 ^ (c2 >> 48)) & 0x0000_FF00_0000_0000_0000_0000_0000_00FF
            && r == c3 as u8
            ==> ((r as u128 >> j) & 1 == 1)
            == (j < 8 && ((z as u128) >> ((j * 13) as u32)) & 1 == 1),
{
}

impl Size<13> for u8 {
    type Output = u128;

    proof fn lemma_size() {
    }

    #[inline]
    fn expand(self) -> (out: u128) {
        let e0: u128 = self as u128;
        let e1: u128 = (e0 ^ (e0 << 48)) & 0x0000_0F00_0000_0000_00F0_0000_0000_000F;
        let e2: u128 = (e1 ^ (e1 << 24)) & 0x0000_0300_0000_C000_0030_0000_0C00_0003;
        let e3: u128 = (e2 ^ (e2 << 12)) & 0x0020_0100_0800_4002_0010_0080_0400_2001;
        proof {
            assert forall|j: nat| j < 128 implies #[trigger] has_bit(e3 as u128, j)
                == (j % 13 == 0 && has_bit(self as u128, j / 13)) by {
                lemma_u8_13(
                    self, e0, e1, e2, e3, 0, 0, 0, 0, 0, 0, j as u32,
                );
            }
            lemma_spread_unique(self as u128, e3 as u128, 13);
        }
        e3
    }

    #[inline]
    fn compress(val: u128) -> (r: u8) {
        let c0: u128 = val & 0x0020_0100_0800_4002_0010_0080_0400_2001;
        let c1: u128 = (c0 ^ (c0 >> 12)) & 0x0000_0300_0000_C000_0030_0000_0C00_0003;
        let c2: u128 = (c1 ^ (c1 >> 24)) & 0x0000_0F00_0000_0000_00F0_0000_0000_000F;
        let c3: u128 = (c2 ^ (c2 >> 48)) & 0x0000_FF00_0000_0000_0000_0000_0000_00FF;
        let r: u8 = #[verifier::truncate] (c3 as u8);
        proof {
            assert forall|i: nat| i < 128 implies #[trigger] has_bit(r as u128, i)
                == (i < 8 && has_bit(val as u128, i * 13)) by {
                lemma_u8_13(
                    0, 0, 0, 0, 0, val, c0, c1, c2, c3, r, i as u32,
                );
            }
            lemma_gather_unique(val as u128, r as u128, 13, 8);
        }
        r
    }
}

/// Bit `j` of what the two shuffles of `u8` for 14 dimensions give.
proof fn lemma_u8_14(
    v: u8, e0: u128, e1: u128, e2: u128, e3: u128, z: u128, c0: u128, c1: u128, c2: u128,
    c3: u128, r: u8, j: u32,
)
    by (bit_vector)
    requires
        j < 128,
    ensures
        e0 == v as u128
            && e1 == (e0 ^ (e0 << 52)) & 0x000F_0000_0000_0000_0F00_0000_0000_000F
            && e2 == (e1 ^ (e1 << 26)) & 0x0003_0000_0030_0000_0300_0000_3000_0003
            && e3 == (e2 ^ (e2 << 13)) & 0x4001_0004_0010_0040_0100_0400_1000_4001
            ==> ((e3 as u128 >> j) & 1 == 1)
            == (j % 14 == 0 && ((v as u128) >> (j / 14)) & 1 == 1),
        c0 == z & 0x4001_0004_0010_0040_0100_0400_1000_4001
            && c1 == (c0 ^ (c0 >> 13)) & 0x0003_0000_0030_0000_0300_0000_3000_0003
            && c2 == (c1 ^ (c1 >> 26)) & 0x000F_0000_0000_0000_0F00_0000_0000_000F
            && c3 == (c2 ^ (c2 >> 52)) & 0x00FF_0000_0000_0000_0000_0000_0000_00FF
            && r == c3 as u8
            ==> ((r as u128 >> j) & 1 == 1)
            == (j < 8 && ((z as u128) >> ((j * 14) as u32)) & 1 == 1),
{
}

impl Size<14> for u8 {
    type Output = u128;

    proof fn lemma_size() {
    }

    #[inline]
    fn expand(self) -> (out: u128) {
        let e0: u128 = self as u128;
        let e1: u128 = (e0 ^ (e0 << 52)) & 0x000F_0000_0000_0000_0F00_0000_0000_000F;
        let e2: u128 = (e1 ^ (e1 << 26)) & 0x0003_0000_0030_0000_0300_0000_3000_0003;
        let e3: u128 = (e2 ^ (e2 << 13)) & 0x4001_0004_0010_0040_0100_0400_1000_4001;
        proof {
            assert forall|j: nat| j < 128 implies #[trigger] has_bit(e3 as u128, j)
                == (j % 14 == 0 && has_bit(self as u128, j / 14)) by {
                lemma_u8_14(
                    self, e0, e1, e2, e3, 0, 0, 0, 0, 0, 0, j as u32,
                );
            }
            lemma_spread_unique(self as u128, e3 as u128, 14);
        }
        e3
    }

    #[inline]
    fn compress(val: u128) -> (r: u8) {
        let c0: u128 = val & 0x4001_0004_0010_0040_0100_0400_1000_4001;
        let c1: u128 = (c0 ^ (c0 >> 13)) & 0x0003_0000_0030_0000_0300_0000_3000_0003;
        let c2: u128 = (c1 ^ (c1 >> 26)) & 0x000F_0000_0000_0000_0F00_0000_0000_000F;
        let c3: u128 = (c2 ^ (c2 >> 52)) & 0x00FF_0000_0000_0000_0000_0000_0000_00FF;
        let r: u8 = #[verifier::truncate] (c3 as u8);
        proof {
            assert forall|i: nat| i < 128 implies #[trigger] has_bit(r as u128, i)
                == (i < 8 && has_bit(val as u128, i * 14)) by {
                lemma_u8_14(
                    0, 0, 0, 0, 0, val, c0, c1, c2, c3, r, i as u32,
                );
            }
            lemma_gather_unique(val as u128, r as u128, 14, 8);
        }
        r
    }
}

/// Bit `j` of what the two shuffles of `u8` for 15 dimensions give.
proof fn lemma_u8_15(
    v: u8, e0: u128, e1: u128, e2: u128, e3: u128, z: u128, c0: u128, c1: u128, c2: u128,
    c3: u128, r: u8, j: u32,
)
    by (bit_vector)
    requires
        j < 128,
    ensures
        e0 == v as u128
            && e1 == (e0 ^ (e0 << 56)) & 0x0F00_0000_0000_0000_F000_0000_0000_000F
            && e2 == (e1 ^ (e1 << 28)) & 0x0300_0000_0C00_0000_3000_0000_C000_0003
            && e3 == (e2 ^ (e2 << 14)) & 0x0100_0200_0400_0800_1000_2000_4000_8001
            ==> ((e3 as u128 >> j) & 1 == 1)
            == (j % 15 == 0 && ((v as u128) >> (j / 15)) & 1 == 1),
        c0 == z & 0x0100_0200_0400_0800_1000_2000_4000_8001
            && c1 == (c0 ^ (c0 >> 14)) & 0x0300_0000_0C00_0000_3000_0000_C000_0003
            && c2 == (c1 ^ (c1 >> 28)) & 0x0F00_0000_0000_0000_F000_0000_0000_000F
            && c3 == (c2 ^ (c2 >> 56)) & 0x0000_0000_0000_0000_0000_0000_0000_FFFF
            && r == c3 as u8
            ==> ((r as u128 >> j) & 1 == 1)
            == (j < 8 && ((z as u128) >> ((j * 15) as u32)) & 1 == 1),
{
}

impl Size<15> for u8 {
    type Output = u128;

    proof fn lemma_size() {
    }

    #[inline]
    fn expand(self) -> (out: u128) {
        let e0: u128 = self as u128;
        let e1: u128 = (e0 ^ (e0 << 56)) & 0x0F00_0000_0000_0000_F000_0000_0000_000F;
        let e2: u128 = (e1 ^ (e1 << 28)) & 0x0300_0000_0C00_0000_3000_0000_C000_0003;
        let e3: u128 = (e2 ^ (e2 << 14)) & 0x0100_0200_0400_0800_1000_2000_4000_8001;
        proof {
            assert forall|j: nat| j < 128 implies #[trigger] has_bit(e3 as u128, j)
                == (j % 15 == 0 && has_bit(self as u128, j / 15)) by {
                lemma_u8_15(
                    self, e0, e1, e2, e3, 0, 0, 0, 0, 0, 0, j as u32,
                );
            }
            lemma_spread_unique(self as u128, e3 as u128, 15);
        }
        e3
    }

    #[inline]
    fn compress(val: u128) -> (r: u8) {
        let c0: u128 = val & 0x0100_0200_0400_0800_1000_2000_4000_8001;
        let c1: u128 = (c0 ^ (c0 >> 14)) & 0x0300_0000_0C00_0000_3000_0000_C000_0003;
        let c2: u128 = (c1 ^ (c1 >> 28)) & 0x0F00_0000_0000_0000_F000_0000_0000_000F;
        let c3: u128 = (c2 ^ (c2 >> 56)) & 0x0000_0000_0000_0000_0000_0000_0000_FFFF;
        let r: u8 = #[verifier::truncate] (c3 as u8);
        proof {
            assert forall|i: nat| i < 128 implies #[trigger] has_bit(r as u128, i)
                == (i < 8 && has_bit(val as u128, i * 15)) by {
                lemma_u8_15(
                    0, 0, 0, 0, 0, val, c0, c1, c2, c3, r, i as u32,
                );
            }
            lemma_gather_unique(val as u128, r as u128, 15, 8);
        }
        r
    }
}

/// Bit `j` of what the two shuffles of `u8` for 16 dimensions give.
proof fn lemma_u8_16(
    v: u8, e0: u128, e1: u128, e2: u128, e3: u128, z: u128, c0: u128, c1: u128, c2: u128,
    c3: u128, r: u8, j: u32,
)
    by (bit_vector)
    requires
        j < 128,
    ensures
        e0 == v as u128
            && e1 == (e0 ^ (e0 << 60)) & 0x0000_0000_0000_000F_0000_0000_0000_000F
            && e2 == (e1 ^ (e1 << 30)) & 0x0000_0003_0000_0003_0000_0003_0000_0003
            && e3 == (e2 ^ (e2 << 15)) & 0x0001_0001_0001_0001_0001_0001_0001_0001
            ==> ((e3 as u128 >> j) & 1 == 1)
            == (j % 16 == 0 && ((v as u128) >> (j / 16)) & 1 == 1),
        c0 == z & 0x0001_0001_0001_0001_0001_0001_0001_0001
            && c1 == (c0 ^ (c0 >> 15)) & 0x0000_0003_0000_0003_0000_0003_0000_0003
            && c2 == (c1 ^ (c1 >> 30)) & 0x0000_0000_0000_000F_0000_0000_0000_000F
            && c3 == (c2 ^ (c2 >> 60)) & 0x0000_0000_0000_0000_0000_0000_0000_FFFF
            && r == c3 as u8
            ==> ((r as u128 >> j) & 1 == 1)
            == (j < 8 && ((z as u128) >> ((j * 16) as u32)) & 1 == 1),
{
}

impl Size<16> for u8 {
    type Output = u128;

    proof fn lemma_size() {
    }

    #[inline]
    fn expand(self) -> (out: u128) {
        let e0: u128 = self as u128;
        let e1: u128 = (e0 ^ (e0 << 60)) & 0x0000_0000_0000_000F_0000_0000_0000_000F;
        let e2: u128 = (e1 ^ (e1 << 30)) & 0x0000_0003_0000_0003_0000_0003_0000_0003;
        let e3: u128 = (e2 ^ (e2 << 15)) & 0x0001_0001_0001_0001_0001_0001_0001_0001;
        proof {
            assert forall|j: nat| j < 128 implies #[trigger] has_bit(e3 as u128, j)
                == (j % 16 == 0 && has_bit(self as u128, j / 16)) by {
                lemma_u8_16(
                    self, e0, e1, e2, e3, 0, 0, 0, 0, 0, 0, j as u32,
                );
            }
            lemma_spread_unique(self as u128, e3 as u128, 16);
        }
        e3
    }

    #[inline]
    fn compress(val: u128) -> (r: u8) {
        let c0: u128 = val & 0x0001_0001_0001_0001_0001_0001_0001_0001;
        let c1: u128 = (c0 ^ (c0 >> 15)) & 0x0000_0003_0000_0003_0000_0003_0000_0003;
        let c2: u128 = (c1 ^ (c1 >> 30)) & 0x0000_0000_0000_000F_0000_0000_0000_000F;
        let c3: u128 = (c2 ^ (c2 >> 60)) & 0x0000_0000_0000_0000_0000_0000_0000_FFFF;
        let r: u8 = #[verifier::truncate] (c3 as u8);
        proof {
            assert forall|i: nat| i < 128 implies #[trigger] has_bit(r as u128, i)
                == (i < 8 && has_bit(val as u128, i * 16)) by {
                lemma_u8_16(
                    0, 0, 0, 0, 0, val, c0, c1, c2, c3, r, i as u32,
                );
            }
            lemma_gather_unique(val as u128, r as u128, 16, 8);
        }
        r
    }
}

/// Bit `j` of what the two shuffles of `u16` for 2 dimensions give.
proof fn lemma_u16_2(
    v: u16, e0: u32, e1: u32, e2: u32, e3: u32, e4: u32, z: u32, c0: u32, c1: u32, c2: u32,
    c3: u32, c4: u32, r: u16, j: u32,
)
    by (bit_vector)
    requires
        j < 128,
    ensures
        e0 == v as u32
            && e1 == (e0 ^ (e0 << 8)) & 0x00FF_00FF
            && e2 == (e1 ^ (e1 << 4)) & 0x0F0F_0F0F
            && e3 == (e2 ^ (e2 << 2)) & 0x3333_3333
            && e4 == (e3 ^ (e3 << 1)) & 0x5555_5555
            ==> ((e4 as u128 >> j) & 1 == 1)
            == (j % 2 == 0 && ((v as u128) >> (j / 2)) & 1 == 1),
        c0 == z & 0x5555_5555
            && c1 == (c0 ^ (c0 >> 1)) & 0x3333_3333
            && c2 == (c1 ^ (c1 >> 2)) & 0x0F0F_0F0F
            && c3 == (c2 ^ (c2 >> 4)) & 0x00FF_00FF
            && c4 == (c3 ^ (c3 >> 8)) & 0x0000_FFFF
            && r == c4 as u16
            ==> ((r as u128 >> j) & 1 == 1)
            == (j < 16 && ((z as u128) >> ((j * 2) as u32)) & 1 == 1),
{
}

impl Size<2> for u16 {
    type Output = u32;

    proof fn lemma_size() {
    }

    #[inline]
    fn expand(self) -> (out: u32) {
        let e0: u32 = self as u32;
        let e1: u32 = (e0 ^ (e0 << 8)) & 0x00FF_00FF;
        let e2: u32 = (e1 ^ (e1 << 4)) & 0x0F0F_0F0F;
        let e3: u32 = (e2 ^ (e2 << 2)) & 0x3333_3333;
        let e4: u32 = (e3 ^ (e3 << 1)) & 0x5555_5555;
        proof {
            assert forall|j: nat| j < 128 implies #[trigger] has_bit(e4 as u128, j)
                == (j % 2 == 0 && has_bit(self as u128, j / 2)) by {
                lemma_u16_2(
                    self, e0, e1, e2, e3, e4, 0, 0, 0, 0, 0, 0, 0, j as u32,
                );
            }
            lemma_spread_unique(self as u128, e4 as u128, 2);
        }
        e4
    }

    #[inline]
    fn compress(val: u32) -> (r: u16) {
        let c0: u32 = val & 0x5555_5555;
        let c1: u32 = (c0 ^ (c0 >> 1)) & 0x3333_3333;
        let c2: u32 = (c1 ^ (c1 >> 2)) & 0x0F0F_0F0F;
        let c3: u32 = (c2 ^ (c2 >> 4)) & 0x00FF_00FF;
        let c4: u32 = (c3 ^ (c3 >> 8)) & 0x0000_FFFF;
        let r: u16 = #[verifier::truncate] (c4 as u16);
        proof {
            assert forall|i: nat| i < 128 implies #[trigger] has_bit(r as u128, i)
                == (i < 16 && has_bit(val as u128, i * 2)) by {
                lemma_u16_2(
                    0, 0, 0, 0, 0, 0, val, c0, c1, c2, c3, c4, r, i as u32,
                );
            }
            lemma_gather_unique(val as u128, r as u128, 2, 16);
        }
        r
    }
}

/// Bit `j` of what the two shuffles of `u16` for 3 dimensions give.
proof fn lemma_u16_3(
    v: u16, e0: u64, e1: u64, e2: u64, e3: u64, e4: u64, z: u64, c0: u64, c1: u64, c2: u64,
    c3: u64, c4: u64, r: u16, j: u32,
)
    by (bit_vector)
    requires
        j < 128,
    ensures
        e0 == v as u64
            && e1 == (e0 ^ (e0 << 16)) & 0x00FF_0000_FF00_00FF
            && e2 == (e1 ^ (e1 << 8)) & 0xF00F_00F0_0F00_F00F
            && e3 == (e2 ^ (e2 << 4)) & 0x30C3_0C30_C30C_30C3
            && e4 == (e3 ^ (e3 << 2)) & 0x9249_2492_4924_9249
            ==> ((e4 as u128 >> j) & 1 == 1)
            == (j % 3 == 0 && ((v as u128) >> (j / 3)) & 1 == 1),
        c0 == z & 0x9249_2492_4924_9249
            && c1 == (c0 ^ (c0 >> 2)) & 0x30C3_0C30_C30C_30C3
            && c2 == (c1 ^ (c1 >> 4)) & 0xF00F_00F0_0F00_F00F
            && c3 == (c2 ^ (c2 >> 8)) & 0x00FF_0000_FF00_00FF
            && c4 == (c3 ^ (c3 >> 16)) & 0xFFFF_0000_0000_FFFF
            && r == c4 as u16
            ==> ((r as u128 >> j) & 1 == 1)
            == (j < 16 && ((z as u128) >> ((j * 3) as u32)) & 1 == 1),
{
}

impl Size<3> for u16 {
    type Output = u64;

    proof fn lemma_size() {
    }

    #[inline]
    fn expand(self) -> (out: u64) {
        let e0: u64 = self as u64;
        let e1: u64 = (e0 ^ (e0 << 16)) & 0x00FF_0000_FF00_00FF;
        let e2: u64 = (e1 ^ (e1 << 8)) & 0xF00F_00F0_0F00_F00F;
        let e3: u64 = (e2 ^ (e2 << 4)) & 0x30C3_0C30_C30C_30C3;
        let e4: u64 = (e3 ^ (e3 << 2)) & 0x9249_2492_4924_9249;
        proof {
            assert forall|j: nat| j < 128 implies #[trigger] has_bit(e4 as u128, j)
                == (j % 3 == 0 && has_bit(self as u128, j / 3)) by {
                lemma_u16_3(
                    self, e0, e1, e2, e3, e4, 0, 0, 0, 0, 0, 0, 0, j as u32,
                );
            }
            lemma_spread_unique(self as u128, e4 as u128, 3);
        }
        e4
    }

    #[inline]
    fn compress(val: u64) -> (r: u16) {
        let c0: u64 = val & 0x9249_2492_4924_9249;
        let c1: u64 = (c0 ^ (c0 >> 2)) & 0x30C3_0C30_C30C_30C3;
        let c2: u64 = (c1 ^ (c1 >> 4)) & 0xF00F_00F0_0F00_F00F;
        let c3: u64 = (c2 ^ (c2 >> 8)) & 0x00FF_0000_FF00_00FF;
        let c4: u64 = (c3 ^ (c3 >> 16)) & 0xFFFF_0000_0000_FFFF;
        let r: u16 = #[verifier::truncate] (c4 as u16);
        proof {
            assert forall|i: nat| i < 128 implies #[trigger] has_bit(r as u128, i)
                == (i < 16 && has_bit(val as u128, i * 3)) by {
                lemma_u16_3(
                    0, 0, 0, 0, 0, 0, val, c0, c1, c2, c3, c4, r, i as u32,
                );
            }
            lemma_gather_unique(val as u128, r as u128, 3, 16);
        }
        r
    }
}

/// Bit `j` of what the two shuffles of `u16` for 4 dimensions give.
proof fn lemma_u16_4(
    v: u16, e0: u64, e1: u64, e2: u64, e3: u64, e4: u64, z: u64, c0: u64, c1: u64, c2: u64,
    c3: u64, c4: u64, r: u16, j: u32,
)
    by (bit_vector)
    requires
        j < 128,
    ensures
        e0 == v as u64
            && e1 == (e0 ^ (e0 << 24)) & 0x0000_00FF_0000_00FF
            && e2 == (e1 ^ (e1 << 12)) & 0x000F_000F_000F_000F
            && e3 == (e2 ^ (e2 << 6)) & 0x0303_0303_0303_0303
            && e4 == (e3 ^ (e3 << 3)) & 0x1111_1111_1111_1111
            ==> ((e4 as u128 >> j) & 1 == 1)
            == (j % 4 == 0 && ((v as u128) >> (j / 4)) & 1 == 1),
        c0 == z & 0x1111_1111_1111_1111
            && c1 == (c0 ^ (c0 >> 3)) & 0x0303_0303_0303_0303
            && c2 == (c1 ^ (c1 >> 6)) & 0x000F_000F_000F_000F
            && c3 == (c2 ^ (c2 >> 12)) & 0x0000_00FF_0000_00FF
            && c4 == (c3 ^ (c3 >> 24)) & 0x0000_0000_0000_FFFF
            && r == c4 as u16
            ==> ((r as u128 >> j) & 1 == 1)
            == (j < 16 && ((z as u128) >> ((j * 4) as u32)) & 1 == 1),
{
}

impl Size<4> for u16 {
    type Output = u64;

    proof fn lemma_size() {
    }

    #[inline]
    fn expand(self) -> (out: u64) {
        let e0: u64 = self as u64;
        let e1: u64 = (e0 ^ (e0 << 24)) & 0x0000_00FF_0000_00FF;
        let e2: u64 = (e1 ^ (e1 << 12)) & 0x000F_000F_000F_000F;
        let e3: u64 = (e2 ^ (e2 << 6)) & 0x0303_0303_0303_0303;
        let e4: u64 = (e3 ^ (e3 << 3)) & 0x1111_1111_1111_1111;
        proof {
            assert forall|j: nat| j < 128 implies #[trigger] has_bit(e4 as u128, j)
                == (j % 4 == 0 && has_bit(self as u128, j / 4)) by {
                lemma_u16_4(
                    self, e0, e1, e2, e3, e4, 0, 0, 0, 0, 0, 0, 0, j as u32,
                );
            }
            lemma_spread_unique(self as u128, e4 as u128, 4);
        }
        e4
    }

    #[inline]
    fn compress(val: u64) -> (r: u16) {
        let c0: u64 = val & 0x1111_1111_1111_1111;
        let c1: u64 = (c0 ^ (c0 >> 3)) & 0x0303_0303_0303_0303;
        let c2: u64 = (c1 ^ (c1 >> 6)) & 0x000F_000F_000F_000F;
        let c3: u64 = (c2 ^ (c2 >> 12)) & 0x0000_00FF_0000_00FF;
        let c4: u64 = (c3 ^ (c3 >> 24)) & 0x0000_0000_0000_FFFF;
        let r: u16 = #[verifier::truncate] (c4 as u16);
        proof {
            assert forall|i: nat| i < 128 implies #[trigger] has_bit(r as u128, i)
                == (i < 16 && has_bit(val as u128, i * 4)) by {
                lemma_u16_4(
                    0, 0, 0, 0, 0, 0, val, c0, c1, c2, c3, c4, r, i as u32,
                );
            }
            lemma_gather_unique(val as u128, r as u128, 4, 16);
        }
        r
    }
}

/// Bit `j` of what the two shuffles of `u16` for 5 dimensions give.
proof fn lemma_u16_5(
    v: u16, e0: u128, e1: u128, e2: u128, e3: u128, e4: u128, z: u128, c0: u128, c1: u128,
    c2: u128, c3: u128, c4: u128, r: u16, j: u32,
)
    by (bit_vector)
    requires
        j < 128,
    ensures
        e0 == v as u128
            && e1 == (e0 ^ (e0 << 32)) & 0xFF00_0000_00FF_0000_0000_FF00_0000_00FF
            && e2 == (e1 ^ (e1 << 16)) & 0x0F00_00F0_000F_0000_F000_0F00_00F0_000F
            && e3 == (e2 ^ (e2 << 8)) & 0x0300_C030_0C03_00C0_300C_0300_C030_0C03
            && e4 == (e3 ^ (e3 << 4)) & 0x2108_4210_8421_0842_1084_2108_4210_8421
            ==> ((e4 as u128 >> j) & 1 == 1)
            == (j % 5 == 0 && ((v as u128) >> (j / 5)) & 1 == 1),
        c0 == z & 0x2108_4210_8421_0842_1084_2108_4210_8421
            && c1 == (c0 ^ (c0 >> 4)) & 0x0300_C030_0C03_00C0_300C_0300_C030_0C03
            && c2 == (c1 ^ (c1 >> 8)) & 0x0F00_00F0_000F_0000_F000_0F00_00F0_000F
            && c3 == (c2 ^ (c2 >> 16)) & 0xFF00_0000_00FF_0000_0000_FF00_0000_00FF
            && c4 == (c3 ^ (c3 >> 32)) & 0x0000_0000_0000_FFFF_0000_0000_0000_FFFF
            && r == c4 as u16
            ==> ((r as u128 >> j) & 1 == 1)
            == (j < 16 && ((z as u128) >> ((j * 5) as u32)) & 1 == 1),
{
}

impl Size<5> for u16 {
    type Output = u128;

    proof fn lemma_size() {
    }

    #[inline]
    fn expand(self) -> (out: u128) {
        let e0: u128 = self as u128;
        let e1: u128 = (e0 ^ (e0 << 32)) & 0xFF00_0000_00FF_0000_0000_FF00_0000_00FF;
        let e2: u128 = (e1 ^ (e1 << 16)) & 0x0F00_00F0_000F_0000_F000_0F00_00F0_000F;
        let e3: u128 = (e2 ^ (e2 << 8)) & 0x0300_C030_0C03_00C0_300C_0300_C030_0C03;
        let e4: u128 = (e3 ^ (e3 << 4)) & 0x2108_4210_8421_0842_1084_2108_4210_8421;
        proof {
            assert forall|j: nat| j < 128 implies #[trigger] has_bit(e4 as u128, j)
                == (j % 5 == 0 && has_bit(self as u128, j / 5)) by {
                lemma_u16_5(
                    self, e0, e1, e2, e3, e4, 0, 0, 0, 0, 0, 0, 0, j as u32,
                );
            }
            lemma_spread_unique(self as u128, e4 as u128, 5);
        }
        e4
    }

    #[inline]
    fn compress(val: u128) -> (r: u16) {
        let c0: u128 = val & 0x2108_4210_8421_0842_1084_2108_4210_8421;
        let c1: u128 = (c0 ^ (c0 >> 4)) & 0x0300_C030_0C03_00C0_300C_0300_C030_0C03;
        let c2: u128 = (c1 ^ (c1 >> 8)) & 0x0F00_00F0_000F_0000_F000_0F00_00F0_000F;
        let c3: u128 = (c2 ^ (c2 >> 16)) & 0xFF00_0000_00FF_0000_0000_FF00_0000_00FF;
        let c4: u128 = (c3 ^ (c3 >> 32)) & 0x0000_0000_0000_FFFF_0000_0000_0000_FFFF;
        let r: u16 = #[verifier::truncate] (c4 as u16);
        proof {
            assert forall|i: nat| i < 128 implies #[trigger] has_bit(r as u128, i)
                == (i < 16 && has_bit(val as u128, i * 5)) by {
                lemma_u16_5(
                    0, 0, 0, 0, 0, 0, val, c0, c1, c2, c3, c4, r, i as u32,
                );
            }
            lemma_gather_unique(val as u128, r as u128, 5, 16);
        }
        r
    }
}

/// Bit `j` of what the two shuffles of `u16` for 6 dimensions give.
proof fn lemma_u16_6(
    v: u16, e0: u128, e1: u128, e2: u128, e3: u128, e4: u128, z: u128, c0: u128, c1: u128,
    c2: u128, c3: u128, c4: u128, r: u16, j: u32,
)
    by (bit_vector)
    requires
        j < 128,
    ensures
        e0 == v as u128
            && e1 == (e0 ^ (e0 << 40)) & 0x0000_00FF_0000_0000_00FF_0000_0000_00FF
            && e2 == (e1 ^ (e1 << 20)) & 0x0F00_000F_0000_0F00_000F_0000_0F00_000F
            && e3 == (e2 ^ (e2 << 10)) & 0x0300_3003_0030_0300_3003_0030_0300_3003
            && e4 == (e3 ^ (e3 << 5)) & 0x4104_1041_0410_4104_1041_0410_4104_1041
            ==> ((e4 as u128 >> j) & 1 == 1)
            == (j % 6 == 0 && ((v as u128) >> (j / 6)) & 1 == 1),
        c0 == z & 0x4104_1041_0410_4104_1041_0410_4104_1041
            && c1 == (c0 ^ (c0 >> 5)) & 0x0300_3003_0030_0300_3003_0030_0300_3003
            && c2 == (c1 ^ (c1 >> 10)) & 0x0F00_000F_0000_0F00_000F_0000_0F00_000F
            && c3 == (c2 ^ (c2 >> 20)) & 0x0000_00FF_0000_0000_00FF_0000_0000_00FF
            && c4 == (c3 ^ (c3 >> 40)) & 0x0000_FFFF_0000_0000_0000_0000_0000_FFFF
            && r == c4 as u16
            ==> ((r as u128 >> j) & 1 == 1)
            == (j < 16 && ((z as u128) >> ((j * 6) as u32)) & 1 == 1),
{
}

impl Size<6> for u16 {
    type Output = u128;

    proof fn lemma_size() {
    }

    #[inline]
    fn expand(self) -> (out: u128) {
        let e0: u128 = self as u128;
        let e1: u128 = (e0 ^ (e0 << 40)) & 0x0000_00FF_0000_0000_00FF_0000_0000_00FF;
        let e2: u128 = (e1 ^ (e1 << 20)) & 0x0F00_000F_0000_0F00_000F_0000_0F00_000F;
        let e3: u128 = (e2 ^ (e2 << 10)) & 0x0300_3003_0030_0300_3003_0030_0300_3003;
        let e4: u128 = (e3 ^ (e3 << 5)) & 0x4104_1041_0410_4104_1041_0410_4104_1041;
        proof {
            assert forall|j: nat| j < 128 implies #[trigger] has_bit(e4 as u128, j)
                == (j % 6 == 0 && has_bit(self as u128, j / 6)) by {
                lemma_u16_6(
                    self, e0, e1, e2, e3, e4, 0, 0, 0, 0, 0, 0, 0, j as u32,
                );
            }
            lemma_spread_unique(self as u128, e4 as u128, 6);
        }
        e4
    }

    #[inline]
    fn compress(val: u128) -> (r: u16) {
        let c0: u128 = val & 0x4104_1041_0410_4104_1041_0410_4104_1041;
        let c1: u128 = (c0 ^ (c0 >> 5)) & 0x0300_3003_0030_0300_3003_0030_0300_3003;
        let c2: u128 = (c1 ^ (c1 >> 10)) & 0x0F00_000F_0000_0F00_000F_0000_0F00_000F;
        let c3: u128 = (c2 ^ (c2 >> 20)) & 0x0000_00FF_0000_0000_00FF_0000_0000_00FF;
        let c4: u128 = (c3 ^ (c3 >> 40)) & 0x0000_FFFF_0000_0000_0000_0000_0000_FFFF;
        let r: u16 = #[verifier::truncate] (c4 as u16);
        proof {
            assert forall|i: nat| i < 128 implies #[trigger] has_bit(r as u128, i)
                == (i < 16 && has_bit(val as u128, i * 6)) by {
                lemma_u16_6(
                    0, 0, 0, 0, 0, 0, val, c0, c1, c2, c3, c4, r, i as u32,
                );
            }
            lemma_gather_unique(val as u128, r as u128, 6, 16);
        }
        r
    }
}

/// Bit `j` of what the two shuffles of `u16` for 7 dimensions give.
proof fn lemma_u16_7(
    v: u16, e0: u128, e1: u128, e2: u128, e3: u128, e4: u128, z: u128, c0: u128, c1: u128,
    c2: u128, c3: u128, c4: u128, r: u16, j: u32,
)
    by (bit_vector)
    requires
        j < 128,
    ensures
        e0 == v as u128
            && e1 == (e0 ^ (e0 << 48)) & 0x00FF_0000_0000_0000_FF00_0000_0000_00FF
            && e2 == (e1 ^ (e1 << 24)) & 0x000F_0000_00F0_0000_0F00_0000_F000_000F
            && e3 == (e2 ^ (e2 << 12)) & 0xC003_000C_0030_00C0_0300_0C00_3000_C003
            && e4 == (e3 ^ (e3 << 6)) & 0x4081_0204_0810_2040_8102_0408_1020_4081
            ==> ((e4 as u128 >> j) & 1 == 1)
            == (j % 7 == 0 && ((v as u128) >> (j / 7)) & 1 == 1),
        c0 == z & 0x4081_0204_0810_2040_8102_0408_1020_4081
            && c1 == (c0 ^ (c0 >> 6)) & 0xC003_000C_0030_00C0_0300_0C00_3000_C003
            && c2 == (c1 ^ (c1 >> 12)) & 0x000F_0000_00F0_0000_0F00_0000_F000_000F
            && c3 == (c2 ^ (c2 >> 24)) & 0x00FF_0000_0000_0000_FF00_0000_0000_00FF
            && c4 == (c3 ^ (c3 >> 48)) & 0xFFFF_0000_0000_0000_0000_0000_0000_FFFF
            && r == c4 as u16
            ==> ((r as u128 >> j) & 1 == 1)
            == (j < 16 && ((z as u128) >> ((j * 7) as u32)) & 1 == 1),
{
}

impl Size<7> for u16 {
    type Output = u128;

    proof fn lemma_size() {
    }

    #[inline]
    fn expand(self) -> (out: u128) {
        let e0: u128 = self as u128;
        let e1: u128 = (e0 ^ (e0 << 48)) & 0x00FF_0000_0000_0000_FF00_0000_0000_00FF;
        let e2: u128 = (e1 ^ (e1 << 24)) & 0x000F_0000_00F0_0000_0F00_0000_F000_000F;
        let e3: u128 = (e2 ^ (e2 << 12)) & 0xC003_000C_0030_00C0_0300_0C00_3000_C003;
        let e4: u128 = (e3 ^ (e3 << 6)) & 0x4081_0204_0810_2040_8102_0408_1020_4081;
        proof {
            assert forall|j: nat| j < 128 implies #[trigger] has_bit(e4 as u128, j)
                == (j % 7 == 0 && has_bit(self as u128, j / 7)) by {
                lemma_u16_7(
                    self, e0, e1, e2, e3, e4, 0, 0, 0, 0, 0, 0, 0, j as u32,
                );
            }
            lemma_spread_unique(self as u128, e4 as u128, 7);
        }
        e4
    }

    #[inline]
    fn compress(val: u128) -> (r: u16) {
        let c0: u128 = val & 0x4081_0204_0810_2040_8102_0408_1020_4081;
        let c1: u128 = (c0 ^ (c0 >> 6)) & 0xC003_000C_0030_00C0_0300_0C00_3000_C003;
        let c2: u128 = (c1 ^ (c1 >> 12)) & 0x000F_0000_00F0_0000_0F00_0000_F000_000F;
        let c3: u128 = (c2 ^ (c2 >> 24)) & 0x00FF_0000_0000_0000_FF00_0000_0000_00FF;
        let c4: u128 = (c3 ^ (c3 >> 48)) & 0xFFFF_0000_0000_0000_0000_0000_0000_FFFF;
        let r: u16 = #[verifier::truncate] (c4 as u16);
        proof {
            assert forall|i: nat| i < 128 implies #[trigger] has_bit(r as u128, i)
                == (i < 16 && has_bit(val as u128, i * 7)) by {
                lemma_u16_7(
                    0, 0, 0, 0, 0, 0, val, c0, c1, c2, c3, c4, r, i as u32,
                );
            }
            lemma_gather_unique(val as u128, r as u128, 7, 16);
        }
        r
    }
}

/// Bit `j` of what the two shuffles of `u16` for 8 dimensions give.
proof fn lemma_u16_8(
    v: u16, e0: u128, e1: u128, e2: u128, e3: u128, e4: u128, z: u128, c0: u128, c1: u128,
    c2: u128, c3: u128, c4: u128, r: u16, j: u32,
)
    by (bit_vector)
    requires
        j < 128,
    ensures
        e0 == v as u128
            && e1 == (e0 ^ (e0 << 56)) & 0x0000_0000_0000_00FF_0000_0000_0000_00FF
            && e2 == (e1 ^ (e1 << 28)) & 0x0000_000F_0000_000F_0000_000F_0000_000F
            && e3 == (e2 ^ (e2 << 14)) & 0x0003_0003_0003_0003_0003_0003_0003_0003
            && e4 == (e3 ^ (e3 << 7)) & 0x0101_0101_0101_0101_0101_0101_0101_0101
            ==> ((e4 as u128 >> j) & 1 == 1)
            == (j % 8 == 0 && ((v as u128) >> (j / 8)) & 1 == 1),
        c0 == z & 0x0101_0101_0101_0101_0101_0101_0101_0101
            && c1 == (c0 ^ (c0 >> 7)) & 0x0003_0003_0003_0003_0003_0003_0003_0003
            && c2 == (c1 ^ (c1 >> 14)) & 0x0000_000F_0000_000F_0000_000F_0000_000F
            && c3 == (c2 ^ (c2 >> 28)) & 0x0000_0000_0000_00FF_0000_0000_0000_00FF
            && c4 == (c3 ^ (c3 >> 56)) & 0x0000_0000_0000_0000_0000_0000_0000_FFFF
            && r == c4 as u16
            ==> ((r as u128 >> j) & 1 == 1)
            == (j < 16 && ((z as u128) >> ((j * 8) as u32)) & 1 == 1),
{
}

impl Size<8> for u16 {
    type Output = u128;

    proof fn lemma_size() {
    }

    #[inline]
    fn expand(self) -> (out: u128) {
        let e0: u128 = self as u128;
        let e1: u128 = (e0 ^ (e0 << 56)) & 0x0000_0000_0000_00FF_0000_0000_0000_00FF;
        let e2: u128 = (e1 ^ (e1 << 28)) & 0x0000_000F_0000_000F_0000_000F_0000_000F;
        let e3: u128 = (e2 ^ (e2 << 14)) & 0x0003_0003_0003_0003_0003_0003_0003_0003;
        let e4: u128 = (e3 ^ (e3 << 7)) & 0x0101_0101_0101_0101_0101_0101_0101_0101;
        proof {
            assert forall|j: nat| j < 128 implies #[trigger] has_bit(e4 as u128, j)
                == (j % 8 == 0 && has_bit(self as u128, j / 8)) by {
                lemma_u16_8(
                    self, e0, e1, e2, e3, e4, 0, 0, 0, 0, 0, 0, 0, j as u32,
                );
            }
            lemma_spread_unique(self as u128, e4 as u128, 8);
        }
        e4
    }

    #[inline]
    fn compress(val: u128) -> (r: u16) {
        let c0: u128 = val & 0x0101_0101_0101_0101_0101_0101_0101_0101;
        let c1: u128 = (c0 ^ (c0 >> 7)) & 0x0003_0003_0003_0003_0003_0003_0003_0003;
        let c2: u128 = (c1 ^ (c1 >> 14)) & 0x0000_000F_0000_000F_0000_000F_0000_000F;
        let c3: u128 = (c2 ^ (c2 >> 28)) & 0x0000_0000_0000_00FF_0000_0000_0000_00FF;
        let c4: u128 = (c3 ^ (c3 >> 56)) & 0x0000_0000_0000_0000_0000_0000_0000_FFFF;
        let r: u16 = #[verifier::truncate] (c4 as u16);
        proof {
            assert forall|i: nat| i < 128 implies #[trigger] has_bit(r as u128, i)
                == (i < 16 && has_bit(val as u128, i * 8)) by {
                lemma_u16_8(
                    0, 0, 0, 0, 0, 0, val, c0, c1, c2, c3, c4, r, i as u32,
                );
            }
            lemma_gather_unique(val as u128, r as u128, 8, 16);
        }
        r
    }
}

/// Bit `j` of what the two shuffles of `u32` for 2 dimensions give.
proof fn lemma_u32_2(
    v: u32, e0: u64, e1: u64, e2: u64, e3: u64, e4: u64, e5: u64, z: u64, c0: u64, c1: u64,
    c2: u64, c3: u64, c4: u64, c5: u64, r: u32, j: u32,
)
    by (bit_vector)
    requires
        j < 128,
    ensures
        e0 == v as u64
            && e1 == (e0 ^ (e0 << 16)) & 0x0000_FFFF_0000_FFFF
            && e2 == (e1 ^ (e1 << 8)) & 0x00FF_00FF_00FF_00FF
            && e3 == (e2 ^ (e2 << 4)) & 0x0F0F_0F0F_0F0F_0F0F
            && e4 == (e3 ^ (e3 << 2)) & 0x3333_3333_3333_3333
            && e5 == (e4 ^ (e4 << 1)) & 0x5555_5555_5555_5555
            ==> ((e5 as u128 >> j) & 1 == 1)
            == (j % 2 == 0 && ((v as u128) >> (j / 2)) & 1 == 1),
        c0 == z & 0x5555_5555_5555_5555
            && c1 == (c0 ^ (c0 >> 1)) & 0x3333_3333_3333_3333
            && c2 == (c1 ^ (c1 >> 2)) & 0x0F0F_0F0F_0F0F_0F0F
            && c3 == (c2 ^ (c2 >> 4)) & 0x00FF_00FF_00FF_00FF
            && c4 == (c3 ^ (c3 >> 8)) & 0x0000_FFFF_0000_FFFF
            && c5 == (c4 ^ (c4 >> 16)) & 0x0000_0000_FFFF_FFFF
            && r == c5 as u32
            ==> ((r as u128 >> j) & 1 == 1)
            == (j < 32 && ((z as u128) >> ((j * 2) as u32)) & 1 == 1),
{
}

impl Size<2> for u32 {
    type Output = u64;

    proof fn lemma_size() {
    }

    #[inline]
    fn expand(self) -> (out: u64) {
        let e0: u64 = self as u64;
        let e1: u64 = (e0 ^ (e0 << 16)) & 0x0000_FFFF_0000_FFFF;
        let e2: u64 = (e1 ^ (e1 << 8)) & 0x00FF_00FF_00FF_00FF;
        let e3: u64 = (e2 ^ (e2 << 4)) & 0x0F0F_0F0F_0F0F_0F0F;
        let e4: u64 = (e3 ^ (e3 << 2)) & 0x3333_3333_3333_3333;
        let e5: u64 = (e4 ^ (e4 << 1)) & 0x5555_5555_5555_5555;
        proof {
            assert forall|j: nat| j < 128 implies #[trigger] has_bit(e5 as u128, j)
                == (j % 2 == 0 && has_bit(self as u128, j / 2)) by {
                lemma_u32_2(
                    self, e0, e1, e2, e3, e4, e5, 0, 0, 0, 0, 0, 0, 0, 0, j as u32,
                );
            }
            lemma_spread_unique(self as u128, e5 as u128, 2);
        }
        e5
    }

    #[inline]
    fn compress(val: u64) -> (r: u32) {
        let c0: u64 = val & 0x5555_5555_5555_5555;
        let c1: u64 = (c0 ^ (c0 >> 1)) & 0x3333_3333_3333_3333;
        let c2: u64 = (c1 ^ (c1 >> 2)) & 0x0F0F_0F0F_0F0F_0F0F;
        let c3: u64 = (c2 ^ (c2 >> 4)) & 0x00FF_00FF_00FF_00FF;
        let c4: u64 = (c3 ^ (c3 >> 8)) & 0x0000_FFFF_0000_FFFF;
        let c5: u64 = (c4 ^ (c4 >> 16)) & 0x0000_0000_FFFF_FFFF;
        let r: u32 = #[verifier::truncate] (c5 as u32);
        proof {
            assert forall|i: nat| i < 128 implies #[trigger] has_bit(r as u128, i)
                == (i < 32 && has_bit(val as u128, i * 2)) by {
                lemma_u32_2(
                    0, 0, 0, 0, 0, 0, 0, val, c0, c1, c2, c3, c4, c5, r, i as u32,
                );
            }
            lemma_gather_unique(val as u128, r as u128, 2, 32);
        }
        r
    }
}

/// Bit `j` of what the two shuffles of `u32` for 3 dimensions give.
proof fn lemma_u32_3(
    v: u32, e0: u128, e1: u128, e2: u128, e3: u128, e4: u128, e5: u128, z: u128, c0: u128,
    c1: u128, c2: u128, c3: u128, c4: u128, c5: u128, r: u32, j: u32,
)
    by (bit_vector)
    requires
        j < 128,
    ensures
        e0 == v as u128
            && e1 == (e0 ^ (e0 << 32)) & 0x0000_FFFF_0000_0000_FFFF_0000_0000_FFFF
            && e2 == (e1 ^ (e1 << 16)) & 0xFF00_00FF_0000_FF00_00FF_0000_FF00_00FF
            && e3 == (e2 ^ (e2 << 8)) & 0x0F00_F00F_00F0_0F00_F00F_00F0_0F00_F00F
            && e4 == (e3 ^ (e3 << 4)) & 0xC30C_30C3_0C30_C30C_30C3_0C30_C30C_30C3
            && e5 == (e4 ^ (e4 << 2)) & 0x4924_9249_2492_4924_9249_2492_4924_9249
            ==> ((e5 as u128 >> j) & 1 == 1)
            == (j % 3 == 0 && ((v as u128) >> (j / 3)) & 1 == 1),
        c0 == z & 0x4924_9249_2492_4924_9249_2492_4924_9249
            && c1 == (c0 ^ (c0 >> 2)) & 0xC30C_30C3_0C30_C30C_30C3_0C30_C30C_30C3
            && c2 == (c1 ^ (c1 >> 4)) & 0x0F00_F00F_00F0_0F00_F00F_00F0_0F00_F00F
            && c3 == (c2 ^ (c2 >> 8)) & 0xFF00_00FF_0000_FF00_00FF_0000_FF00_00FF
            && c4 == (c3 ^ (c3 >> 16)) & 0x0000_FFFF_0000_0000_FFFF_0000_0000_FFFF
            && c5 == (c4 ^ (c4 >> 32)) & 0xFFFF_FFFF_0000_0000_0000_0000_FFFF_FFFF
            && r == c5 as u32
            ==> ((r as u128 >> j) & 1 == 1)
            == (j < 32 && ((z as u128) >> ((j * 3) as u32)) & 1 == 1),
{
}

impl Size<3> for u32 {
    type Output = u128;

    proof fn lemma_size() {
    }

    #[inline]
    fn expand(self) -> (out: u128) {
        let e0: u128 = self as u128;
        let e1: u128 = (e0 ^ (e0 << 32)) & 0x0000_FFFF_0000_0000_FFFF_0000_0000_FFFF;
        let e2: u128 = (e1 ^ (e1 << 16)) & 0xFF00_00FF_0000_FF00_00FF_0000_FF00_00FF;
        let e3: u128 = (e2 ^ (e2 << 8)) & 0x0F00_F00F_00F0_0F00_F00F_00F0_0F00_F00F;
        let e4: u128 = (e3 ^ (e3 << 4)) & 0xC30C_30C3_0C30_C30C_30C3_0C30_C30C_30C3;
        let e5: u128 = (e4 ^ (e4 << 2)) & 0x4924_9249_2492_4924_9249_2492_4924_9249;
        proof {
            assert forall|j: nat| j < 128 implies #[trigger] has_bit(e5 as u128, j)
                == (j % 3 == 0 && has_bit(self as u128, j / 3)) by {
                lemma_u32_3(
                    self, e0, e1, e2, e3, e4, e5, 0, 0, 0, 0, 0, 0, 0, 0, j as u32,
                );
            }
            lemma_spread_unique(self as u128, e5 as u128, 3);
        }
        e5
    }

    #[inline]
    fn compress(val: u128) -> (r: u32) {
        let c0: u128 = val & 0x4924_9249_2492_4924_9249_2492_4924_9249;
        let c1: u128 = (c0 ^ (c0 >> 2)) & 0xC30C_30C3_0C30_C30C_30C3_0C30_C30C_30C3;
        let c2: u128 = (c1 ^ (c1 >> 4)) & 0x0F00_F00F_00F0_0F00_F00F_00F0_0F00_F00F;
        let c3: u128 = (c2 ^ (c2 >> 8)) & 0xFF00_00FF_0000_FF00_00FF_0000_FF00_00FF;
        let c4: u128 = (c3 ^ (c3 >> 16)) & 0x0000_FFFF_0000_0000_FFFF_0000_0000_FFFF;
        let c5: u128 = (c4 ^ (c4 >> 32)) & 0xFFFF_FFFF_0000_0000_0000_0000_FFFF_FFFF;
        let r: u32 = #[verifier::truncate] (c5 as u32);
        proof {
            assert forall|i: nat| i < 128 implies #[trigger] has_bit(r as u128, i)
                == (i < 32 && has_bit(val as u128, i * 3)) by {
                lemma_u32_3(
                    0, 0, 0, 0, 0, 0, 0, val, c0, c1, c2, c3, c4, c5, r, i as u32,
                );
            }
            lemma_gather_unique(val as u128, r as u128, 3, 32);
        }
        r
    }
}

/// Bit `j` of what the two shuffles of `u32` for 4 dimensions give.
proof fn lemma_u32_4(
    v: u32, e0: u128, e1: u128, e2: u128, e3: u128, e4: u128, e5: u128, z: u128, c0: u128,
    c1: u128, c2: u128, c3: u128, c4: u128, c5: u128, r: u32, j: u32,
)
    by (bit_vector)
    requires
        j < 128,
    ensures
        e0 == v as u128
            && e1 == (e0 ^ (e0 << 48)) & 0x0000_0000_0000_FFFF_0000_0000_0000_FFFF
            && e2 == (e1 ^ (e1 << 24)) & 0x0000_00FF_0000_00FF_0000_00FF_0000_00FF
            && e3 == (e2 ^ (e2 << 12)) & 0x000F_000F_000F_000F_000F_000F_000F_000F
            && e4 == (e3 ^ (e3 << 6)) & 0x0303_0303_0303_0303_0303_0303_0303_0303
            && e5 == (e4 ^ (e4 << 3)) & 0x1111_1111_1111_1111_1111_1111_1111_1111
            ==> ((e5 as u128 >> j) & 1 == 1)
            == (j % 4 == 0 && ((v as u128) >> (j / 4)) & 1 == 1),
        c0 == z & 0x1111_1111_1111_1111_1111_1111_1111_1111
            && c1 == (c0 ^ (c0 >> 3)) & 0x0303_0303_0303_0303_0303_0303_0303_0303
            && c2 == (c1 ^ (c1 >> 6)) & 0x000F_000F_000F_000F_000F_000F_000F_000F
            && c3 == (c2 ^ (c2 >> 12)) & 0x0000_00FF_0000_00FF_0000_00FF_0000_00FF
            && c4 == (c3 ^ (c3 >> 24)) & 0x0000_0000_0000_FFFF_0000_0000_0000_FFFF
            && c5 == (c4 ^ (c4 >> 48)) & 0x0000_0000_0000_0000_0000_0000_FFFF_FFFF
            && r == c5 as u32
            ==> ((r as u128 >> j) & 1 == 1)
            == (j < 32 && ((z as u128) >> ((j * 4) as u32)) & 1 == 1),
{
}

impl Size<4> for u32 {
    type Output = u128;

    proof fn lemma_size() {
    }

    #[inline]
    fn expand(self) -> (out: u128) {
        let e0: u128 = self as u128;
        let e1: u128 = (e0 ^ (e0 << 48)) & 0x0000_0000_0000_FFFF_0000_0000_0000_FFFF;
        let e2: u128 = (e1 ^ (e1 << 24)) & 0x0000_00FF_0000_00FF_0000_00FF_0000_00FF;
        let e3: u128 = (e2 ^ (e2 << 12)) & 0x000F_000F_000F_000F_000F_000F_000F_000F;
        let e4: u128 = (e3 ^ (e3 << 6)) & 0x0303_0303_0303_0303_0303_0303_0303_0303;
        let e5: u128 = (e4 ^ (e4 << 3)) & 0x1111_1111_1111_1111_1111_1111_1111_1111;
        proof {
            assert forall|j: nat| j < 128 implies #[trigger] has_bit(e5 as u128, j)
                == (j % 4 == 0 && has_bit(self as u128, j / 4)) by {
                lemma_u32_4(
                    self, e0, e1, e2, e3, e4, e5, 0, 0, 0, 0, 0, 0, 0, 0, j as u32,
                );
            }
            lemma_spread_unique(self as u128, e5 as u128, 4);
        }
        e5
    }

    #[inline]
    fn compress(val: u128) -> (r: u32) {
        let c0: u128 = val & 0x1111_1111_1111_1111_1111_1111_1111_1111;
        let c1: u128 = (c0 ^ (c0 >> 3)) & 0x0303_0303_0303_0303_0303_0303_0303_0303;
        let c2: u128 = (c1 ^ (c1 >> 6)) & 0x000F_000F_000F_000F_000F_000F_000F_000F;
        let c3: u128 = (c2 ^ (c2 >> 12)) & 0x0000_00FF_0000_00FF_0000_00FF_0000_00FF;
        let c4: u128 = (c3 ^ (c3 >> 24)) & 0x0000_0000_0000_FFFF_0000_0000_0000_FFFF;
        let c5: u128 = (c4 ^ (c4 >> 48)) & 0x0000_0000_0000_0000_0000_0000_FFFF_FFFF;
        let r: u32 = #[verifier::truncate] (c5 as u32);
        proof {
            assert forall|i: nat| i < 128 implies #[trigger] has_bit(r as u128, i)
                == (i < 32 && has_bit(val as u128, i * 4)) by {
                lemma_u32_4(
                    0, 0, 0, 0, 0, 0, 0, val, c0, c1, c2, c3, c4, c5, r, i as u32,
                );
            }
            lemma_gather_unique(val as u128, r as u128, 4, 32);
        }
        r
    }
}

/// Bit `j` of what the two shuffles of `u64` for 2 dimensions give.
proof fn lemma_u64_2(
    v: u64, e0: u128, e1: u128, e2: u128, e3: u128, e4: u128, e5: u128, e6: u128, z: u128,
    c0: u128, c1: u128, c2: u128, c3: u128, c4: u128, c5: u128, c6: u128, r: u64, j: u32,
)
    by (bit_vector)
    requires
        j < 128,
    ensures
        e0 == v as u128
            && e1 == (e0 ^ (e0 << 32)) & 0x0000_0000_FFFF_FFFF_0000_0000_FFFF_FFFF
            && e2 == (e1 ^ (e1 << 16)) & 0x0000_FFFF_0000_FFFF_0000_FFFF_0000_FFFF
            && e3 == (e2 ^ (e2 << 8)) & 0x00FF_00FF_00FF_00FF_00FF_00FF_00FF_00FF
            && e4 == (e3 ^ (e3 << 4)) & 0x0F0F_0F0F_0F0F_0F0F_0F0F_0F0F_0F0F_0F0F
            && e5 == (e4 ^ (e4 << 2)) & 0x3333_3333_3333_3333_3333_3333_3333_3333
            && e6 == (e5 ^ (e5 << 1)) & 0x5555_5555_5555_5555_5555_5555_5555_5555
            ==> ((e6 as u128 >> j) & 1 == 1)
            == (j % 2 == 0 && ((v as u128) >> (j / 2)) & 1 == 1),
        c0 == z & 0x5555_5555_5555_5555_5555_5555_5555_5555
            && c1 == (c0 ^ (c0 >> 1)) & 0x3333_3333_3333_3333_3333_3333_3333_3333
            && c2 == (c1 ^ (c1 >> 2)) & 0x0F0F_0F0F_0F0F_0F0F_0F0F_0F0F_0F0F_0F0F
            && c3 == (c2 ^ (c2 >> 4)) & 0x00FF_00FF_00FF_00FF_00FF_00FF_00FF_00FF
            && c4 == (c3 ^ (c3 >> 8)) & 0x0000_FFFF_0000_FFFF_0000_FFFF_0000_FFFF
            && c5 == (c4 ^ (c4 >> 16)) & 0x0000_0000_FFFF_FFFF_0000_0000_FFFF_FFFF
            && c6 == (c5 ^ (c5 >> 32)) & 0x0000_0000_0000_0000_FFFF_FFFF_FFFF_FFFF
            && r == c6 as u64
            ==> ((r as u128 >> j) & 1 == 1)
            == (j < 64 && ((z as u128) >> ((j * 2) as u32)) & 1 == 1),
{
}

impl Size<2> for u64 {
    type Output = u128;

    proof fn lemma_size() {
    }

    #[inline]
    fn expand(self) -> (out: u128) {
        let e0: u128 = self as u128;
        let e1: u128 = (e0 ^ (e0 << 32)) & 0x0000_0000_FFFF_FFFF_0000_0000_FFFF_FFFF;
        let e2: u128 = (e1 ^ (e1 << 16)) & 0x0000_FFFF_0000_FFFF_0000_FFFF_0000_FFFF;
        let e3: u128 = (e2 ^ (e2 << 8)) & 0x00FF_00FF_00FF_00FF_00FF_00FF_00FF_00FF;
        let e4: u128 = (e3 ^ (e3 << 4)) & 0x0F0F_0F0F_0F0F_0F0F_0F0F_0F0F_0F0F_0F0F;
        let e5: u128 = (e4 ^ (e4 << 2)) & 0x3333_3333_3333_3333_3333_3333_3333_3333;
        let e6: u128 = (e5 ^ (e5 << 1)) & 0x5555_5555_5555_5555_5555_5555_5555_5555;
        proof {
            assert forall|j: nat| j < 128 implies #[trigger] has_bit(e6 as u128, j)
                == (j % 2 == 0 && has_bit(self as u128, j / 2)) by {
                lemma_u64_2(
                    self, e0, e1, e2, e3, e4, e5, e6, 0, 0, 0, 0, 0, 0, 0, 0, 0, j as u32,
                );
            }
            lemma_spread_unique(self as u128, e6 as u128, 2);
        }
        e6
    }

    #[inline]
    fn compress(val: u128) -> (r: u64) {
        let c0: u128 = val & 0x5555_5555_5555_5555_5555_5555_5555_5555;
        let c1: u128 = (c0 ^ (c0 >> 1)) & 0x3333_3333_3333_3333_3333_3333_3333_3333;
        let c2: u128 = (c1 ^ (c1 >> 2)) & 0x0F0F_0F0F_0F0F_0F0F_0F0F_0F0F_0F0F_0F0F;
        let c3: u128 = (c2 ^ (c2 >> 4)) & 0x00FF_00FF_00FF_00FF_00FF_00FF_00FF_00FF;
        let c4: u128 = (c3 ^ (c3 >> 8)) & 0x0000_FFFF_0000_FFFF_0000_FFFF_0000_FFFF;
        let c5: u128 = (c4 ^ (c4 >> 16)) & 0x0000_0000_FFFF_FFFF_0000_0000_FFFF_FFFF;
        let c6: u128 = (c5 ^ (c5 >> 32)) & 0x0000_0000_0000_0000_FFFF_FFFF_FFFF_FFFF;
        let r: u64 = #[verifier::truncate] (c6 as u64);
        proof {
            assert forall|i: nat| i < 128 implies #[trigger] has_bit(r as u128, i)
                == (i < 64 && has_bit(val as u128, i * 2)) by {
                lemma_u64_2(
                    0, 0, 0, 0, 0, 0, 0, 0, val, c0, c1, c2, c3, c4, c5, c6, r, i as u32,
                );
            }
            lemma_gather_unique(val as u128, r as u128, 2, 64);
        }
        r
    }
}

} // verus!
