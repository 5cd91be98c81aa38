//! Arbitrary-precision unsigned integers, as provided by `num_bigint`.
//!
//! A `BigUint` is opaque here; what the library needs of it is its value as a
//! natural number, named by `big_value`, and the handful of operations below.
use num_bigint::BigUint;
use num_traits::{One, Zero};
use vstd::prelude::*;

verus! {

#[verifier::external_type_specification]
#[verifier::external_body]
pub struct ExBigUint(BigUint);

/// The natural number that a `BigUint` holds.
pub uninterp spec fn big_value(b: BigUint) -> nat;

/// Relies on `<BigUint as Zero>::zero`: the value zero.
#[verifier::external_body]
pub(crate) fn big_zero() -> (r: BigUint)
    ensures
        big_value(r) == 0,
{
    BigUint::zero()
}

/// Relies on `<BigUint as One>::one`: the value one.
#[verifier::external_body]
pub(crate) fn big_one() -> (r: BigUint)
    ensures
        big_value(r) == 1,
{
    BigUint::one()
}

/// Relies on `<BigUint as Zero>::is_zero`: true exactly for the value zero.
#[verifier::external_body]
pub(crate) fn big_is_zero(b: &BigUint) -> (r: bool)
    ensures
        r == (big_value(*b) == 0),
{
    b.is_zero()
}

/// Relies on `<&BigUint as Add<&BigUint>>::add`: the exact sum.
#[verifier::external_body]
pub(crate) fn big_add(a: &BigUint, b: &BigUint) -> (r: BigUint)
    ensures
        big_value(r) == big_value(*a) + big_value(*b),
{
    a + b
}

} // verus!
