//! What the library takes from `num_traits`, at `u128`.

use vstd::prelude::*;

verus! {

/// `num_traits::zero` at `u128`: the additive identity, which is 0.
#[verifier::external_body]
pub(crate) fn zero() -> (r: u128)
    ensures
        r == 0,
{
    num_traits::zero()
}

/// `num_traits::one` at `u128`: the multiplicative identity, which is 1.
#[verifier::external_body]
pub(crate) fn one() -> (r: u128)
    ensures
        r == 1,
{
    num_traits::one()
}

/// `num_traits::PrimInt::leading_zeros` at `u128`: the number of zero bits
/// above the highest set bit of `x`, which is 128 for `x == 0`.
#[verifier::external_body]
pub(crate) fn leading_zeros(x: u128) -> (r: u32)
    ensures
        r == crate::bits::leading_zeros(x),
{
    num_traits::PrimInt::leading_zeros(x)
}

} // verus!
