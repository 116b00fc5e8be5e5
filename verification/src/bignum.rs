//! Trusted layer over `num_bigint::BigInt`.
//!
//! A `BigInt` is an opaque container for one unbounded signed integer.
//! `big_value` names the integer a `BigInt` holds; every wrapper below states
//! what the `num_bigint` call it makes does to that value.  All arithmetic in
//! the library goes through these wrappers, so every contract elsewhere is
//! stated over `big_value` and mathematical integers.

use num_traits::Signed;
use num_traits::ToPrimitive;
use num_traits::Zero;
use vstd::prelude::*;

verus! {

#[verifier::external_type_specification]
#[verifier::external_body]
pub struct ExBigInt(num_bigint::BigInt);

/// The integer a `BigInt` holds.
pub uninterp spec fn big_value(b: num_bigint::BigInt) -> int;

/// Relies on `BigInt: From<u64>`: the result holds exactly the given value.
#[verifier::external_body]
pub fn big_from_u64(x: u64) -> (r: num_bigint::BigInt)
    ensures
        big_value(r) == x as int,
{
    num_bigint::BigInt::from(x)
}

/// Relies on `BigInt: From<i128>`: the result holds exactly the given value.
#[verifier::external_body]
pub fn big_from_i128(x: i128) -> (r: num_bigint::BigInt)
    ensures
        big_value(r) == x as int,
{
    num_bigint::BigInt::from(x)
}

/// Relies on `num_traits::ToPrimitive::to_i128`, which returns the held
/// value whenever it fits in an `i128`.
#[verifier::external_body]
pub fn big_to_i128(b: &num_bigint::BigInt) -> (r: i128)
    requires
        i128::MIN as int <= big_value(*b) <= i128::MAX as int,
    ensures
        r as int == big_value(*b),
{
    b.to_i128().unwrap()
}

/// Relies on `num_traits::ToPrimitive::to_u64`, which returns the held
/// value whenever it fits in a `u64`.
#[verifier::external_body]
pub fn big_to_u64(b: &num_bigint::BigInt) -> (r: u64)
    requires
        0 <= big_value(*b) <= u64::MAX as int,
    ensures
        r as int == big_value(*b),
{
    b.to_u64().unwrap()
}

/// Relies on `<BigInt as Clone>::clone`: the copy holds the same value.
#[verifier::external_body]
pub fn big_clone(b: &num_bigint::BigInt) -> (r: num_bigint::BigInt)
    ensures
        big_value(r) == big_value(*b),
{
    b.clone()
}

/// Relies on `Add` for `&BigInt`: exact integer addition.
#[verifier::external_body]
pub fn big_add(a: &num_bigint::BigInt, b: &num_bigint::BigInt) -> (r: num_bigint::BigInt)
    ensures
        big_value(r) == big_value(*a) + big_value(*b),
{
    a + b
}

/// Relies on `Sub` for `&BigInt`: exact integer subtraction.
#[verifier::external_body]
pub fn big_sub(a: &num_bigint::BigInt, b: &num_bigint::BigInt) -> (r: num_bigint::BigInt)
    ensures
        big_value(r) == big_value(*a) - big_value(*b),
{
    a - b
}

/// Relies on `Mul` for `&BigInt`: exact integer multiplication.
#[verifier::external_body]
pub fn big_mul(a: &num_bigint::BigInt, b: &num_bigint::BigInt) -> (r: num_bigint::BigInt)
    ensures
        big_value(r) == big_value(*a) * big_value(*b),
{
    a * b
}

/// Relies on `Neg` for `&BigInt`: exact negation.
#[verifier::external_body]
pub fn big_neg(a: &num_bigint::BigInt) -> (r: num_bigint::BigInt)
    ensures
        big_value(r) == -big_value(*a),
{
    -a
}

/// Relies on `Div` for `&BigInt`, which truncates toward zero; on
/// non-negative operands that is the Euclidean quotient.
#[verifier::external_body]
pub fn big_div(a: &num_bigint::BigInt, b: &num_bigint::BigInt) -> (r: num_bigint::BigInt)
    requires
        big_value(*a) >= 0,
        big_value(*b) > 0,
    ensures
        big_value(r) == big_value(*a) / big_value(*b),
{
    a / b
}

/// Relies on `Rem` for `&BigInt`, which truncates toward zero; on
/// non-negative operands that is the Euclidean remainder.
#[verifier::external_body]
pub fn big_rem(a: &num_bigint::BigInt, b: &num_bigint::BigInt) -> (r: num_bigint::BigInt)
    requires
        big_value(*a) >= 0,
        big_value(*b) > 0,
    ensures
        big_value(r) == big_value(*a) % big_value(*b),
{
    a % b
}

/// Relies on `Div` for `&BigInt`: when the divisor divides the dividend
/// exactly, truncating division returns the exact quotient.
#[verifier::external_body]
pub fn big_div_exact(a: &num_bigint::BigInt, b: &num_bigint::BigInt) -> (r: num_bigint::BigInt)
    requires
        big_value(*b) > 0,
        crate::arith::divides(big_value(*b), big_value(*a)),
    ensures
        big_value(*a) == big_value(r) * big_value(*b),
{
    a / b
}

/// Relies on `PartialEq` for `BigInt`, which compares the held values.
#[verifier::external_body]
pub fn big_eq(a: &num_bigint::BigInt, b: &num_bigint::BigInt) -> (r: bool)
    ensures
        r <==> big_value(*a) == big_value(*b),
{
    a == b
}

/// Relies on `PartialOrd::lt` for `BigInt`, which orders the held values.
#[verifier::external_body]
pub fn big_lt(a: &num_bigint::BigInt, b: &num_bigint::BigInt) -> (r: bool)
    ensures
        r <==> big_value(*a) < big_value(*b),
{
    a < b
}

/// Relies on `num_traits::Zero::is_zero`: true exactly of the value zero.
#[verifier::external_body]
pub fn big_is_zero(a: &num_bigint::BigInt) -> (r: bool)
    ensures
        r <==> big_value(*a) == 0,
{
    a.is_zero()
}

/// Relies on `num_traits::Signed::abs`: the absolute value.
#[verifier::external_body]
pub fn big_abs(a: &num_bigint::BigInt) -> (r: num_bigint::BigInt)
    ensures
        big_value(r) == if big_value(*a) >= 0 { big_value(*a) } else { -big_value(*a) },
{
    a.abs()
}

/// The held values of a sequence of big integers.
pub open spec fn big_values(s: Seq<num_bigint::BigInt>) -> Seq<int> {
    s.map_values(|b: num_bigint::BigInt| big_value(b))
}

} // verus!
