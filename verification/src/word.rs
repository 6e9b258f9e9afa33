//! The unsigned integer types that hold coordinates and interleaved bits.

use vstd::prelude::*;
use crate::bits::fits;

verus! {

/// An unsigned machine integer of at most 128 bits, seen as a 128-bit number.
pub trait Word: Copy + Ord + core::fmt::Debug {
    /// The number of bits of the type.
    spec fn width() -> nat;

    /// The value, widened to 128 bits.
    spec fn raw(self) -> u128;

    /// The width is at least 1 and at most 128.
    proof fn lemma_width()
        ensures
            0 < Self::width() <= 128,
    ;

    /// A word is determined by its value, which fits in the type's width.
    proof fn lemma_word(self, other: Self)
        ensures
            fits(self.raw(), Self::width()),
            self.raw() == other.raw() ==> self == other,
    ;

    /// The number of bits of the type.
    fn bits() -> (n: u32)
        ensures
            n == Self::width(),
    ;

    /// The value as a `u128`.
    fn widen(self) -> (r: u128)
        ensures
            r == self.raw(),
    ;

    /// The word whose value is `x`.
    fn narrow(x: u128) -> (r: Self)
        requires
            fits(x, Self::width()),
        ensures
            r.raw() == x,
    ;
}

/// The integer types narrower than 128 bits hold the numbers that fit in
/// their widths.
proof fn lemma_bounds(x: u128, a: u8, b: u16, c: u32, d: u64)
    by (bit_vector)
    ensures
        (a as u128) >> 8u32 == 0,
        (b as u128) >> 16u32 == 0,
        (c as u128) >> 32u32 == 0,
        (d as u128) >> 64u32 == 0,
        x >> 8u32 == 0 ==> x <= 0xFF,
        x >> 16u32 == 0 ==> x <= 0xFFFF,
        x >> 32u32 == 0 ==> x <= 0xFFFF_FFFF,
        x >> 64u32 == 0 ==> x <= 0xFFFF_FFFF_FFFF_FFFF,
{
}

impl Word for u8 {
    open spec fn width() -> nat {
        8
    }

    open spec fn raw(self) -> u128 {
        self as u128
    }

    proof fn lemma_width() {
    }

    proof fn lemma_word(self, other: Self) {
        lemma_bounds(0, self, 0, 0, 0);
    }

    fn bits() -> (n: u32) {
        8
    }

    fn widen(self) -> (r: u128) {
        self as u128
    }

    fn narrow(x: u128) -> (r: Self) {
        proof {
            lemma_bounds(x, 0, 0, 0, 0);
        }
        x as u8
    }
}

impl Word for u16 {
    open spec fn width() -> nat {
        16
    }

    open spec fn raw(self) -> u128 {
        self as u128
    }

    proof fn lemma_width() {
    }

    proof fn lemma_word(self, other: Self) {
        lemma_bounds(0, 0, self, 0, 0);
    }

    fn bits() -> (n: u32) {
        16
    }

    fn widen(self) -> (r: u128) {
        self as u128
    }

    fn narrow(x: u128) -> (r: Self) {
        proof {
            lemma_bounds(x, 0, 0, 0, 0);
        }
        x as u16
    }
}

impl Word for u32 {
    open spec fn width() -> nat {
        32
    }

    open spec fn raw(self) -> u128 {
        self as u128
    }

    proof fn lemma_width() {
    }

    proof fn lemma_word(self, other: Self) {
        lemma_bounds(0, 0, 0, self, 0);
    }

    fn bits() -> (n: u32) {
        32
    }

    fn widen(self) -> (r: u128) {
        self as u128
    }

    fn narrow(x: u128) -> (r: Self) {
        proof {
            lemma_bounds(x, 0, 0, 0, 0);
        }
        x as u32
    }
}

impl Word for u64 {
    open spec fn width() -> nat {
        64
    }

    open spec fn raw(self) -> u128 {
        self as u128
    }

    proof fn lemma_width() {
    }

    proof fn lemma_word(self, other: Self) {
        lemma_bounds(0, 0, 0, 0, self);
    }

    fn bits() -> (n: u32) {
        64
    }

    fn widen(self) -> (r: u128) {
        self as u128
    }

    fn narrow(x: u128) -> (r: Self) {
        proof {
            lemma_bounds(x, 0, 0, 0, 0);
        }
        x as u64
    }
}

impl Word for u128 {
    open spec fn width() -> nat {
        128
    }

    open spec fn raw(self) -> u128 {
        self
    }

    proof fn lemma_width() {
    }

    proof fn lemma_word(self, other: Self) {
    }

    fn bits() -> (n: u32) {
        128
    }

    fn widen(self) -> (r: u128) {
        self
    }

    fn narrow(x: u128) -> (r: Self) {
        x
    }
}

} // verus!
