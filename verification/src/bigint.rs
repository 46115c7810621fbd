//! Trusted view of `num_bigint::BigInt`.
//!
//! The arbitrary-precision integer type is an external collaborator: its
//! arithmetic is not verified here.  This module declares the type to the
//! verifier, models the mathematical integer a value holds with
//! `bigint_value`, and wraps each operation the algorithms use in a small
//! trusted function whose contract states what `num_bigint`'s source
//! documents for it.

use vstd::prelude::*;
use num_bigint::BigInt;
use num_traits::Zero;
use crate::euclid::trunc_div;

verus! {

/// Declares `num_bigint::BigInt`, the arbitrary-precision signed integer,
/// as an opaque external type.
#[verifier::external_type_specification]
#[verifier::external_body]
pub struct ExBigInt(BigInt);

/// The mathematical integer held by a `BigInt`.
pub uninterp spec fn bigint_value(x: BigInt) -> int;

/// Relies on `<BigInt as From<i64>>::from`: the exact conversion of a
/// machine integer.
#[verifier::external_body]
pub(crate) fn bigint_from_i64(n: i64) -> (r: BigInt)
    ensures
        bigint_value(r) == n as int,
{
    BigInt::from(n)
}

/// Relies on `<BigInt as Clone>::clone`: a clone holds the same integer.
#[verifier::external_body]
pub(crate) fn bigint_clone(x: &BigInt) -> (r: BigInt)
    ensures
        bigint_value(r) == bigint_value(*x),
{
    x.clone()
}

/// Relies on `<&BigInt as Add>::add`: exact integer addition.
#[verifier::external_body]
pub(crate) fn bigint_add(a: &BigInt, b: &BigInt) -> (r: BigInt)
    ensures
        bigint_value(r) == bigint_value(*a) + bigint_value(*b),
{
    a + b
}

/// Relies on `<&BigInt as Sub>::sub`: exact integer subtraction.
#[verifier::external_body]
pub(crate) fn bigint_sub(a: &BigInt, b: &BigInt) -> (r: BigInt)
    ensures
        bigint_value(r) == bigint_value(*a) - bigint_value(*b),
{
    a - b
}

/// Relies on `<&BigInt as Mul>::mul`: exact integer multiplication.
#[verifier::external_body]
pub(crate) fn bigint_mul(a: &BigInt, b: &BigInt) -> (r: BigInt)
    ensures
        bigint_value(r) == bigint_value(*a) * bigint_value(*b),
{
    a * b
}

/// Relies on `<&BigInt as Div>::div`, which computes the quotient with
/// the magnitudes' quotient and the product of the signs: division
/// truncating toward zero.  It panics on a zero divisor, which the
/// precondition excludes.
#[verifier::external_body]
pub(crate) fn bigint_div(a: &BigInt, b: &BigInt) -> (r: BigInt)
    requires
        bigint_value(*b) != 0,
    ensures
        bigint_value(r) == trunc_div(bigint_value(*a), bigint_value(*b)),
{
    a / b
}

/// Relies on `<BigInt as PartialEq>::eq`: `BigInt` keeps a canonical
/// sign-and-magnitude form, so structural equality is numeric equality.
#[verifier::external_body]
pub(crate) fn bigint_eq(a: &BigInt, b: &BigInt) -> (r: bool)
    ensures
        r == (bigint_value(*a) == bigint_value(*b)),
{
    a == b
}

/// Relies on `<BigInt as Ord>::cmp` (through `<`): the ordering compares
/// signs first and magnitudes within a sign, i.e. the numeric order.
#[verifier::external_body]
pub(crate) fn bigint_lt(a: &BigInt, b: &BigInt) -> (r: bool)
    ensures
        r == (bigint_value(*a) < bigint_value(*b)),
{
    a < b
}

/// Relies on `num_traits::Zero::is_zero`: a `BigInt` has the no-sign mark
/// exactly when it holds zero.
#[verifier::external_body]
pub(crate) fn bigint_is_zero(x: &BigInt) -> (r: bool)
    ensures
        r == (bigint_value(*x) == 0),
{
    x.is_zero()
}

} // verus!
