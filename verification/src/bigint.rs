//! Natural numbers of any size, from `num_bigint`.

use num_bigint::BigUint;
use vstd::prelude::*;

verus! {

/// `num_bigint::BigUint`, carried through opaquely.
#[verifier::external_type_specification]
#[verifier::external_body]
pub struct ExBigUint(BigUint);

/// The digits of a number in base `2^32`, least significant first: what
/// `BigUint::to_u32_digits` lists.
pub uninterp spec fn big_digits(b: BigUint) -> Seq<u32>;

/// The number that base-`2^32` digits denote, least significant first.
pub open spec fn digits_value(d: Seq<u32>) -> nat
    decreases d.len(),
{
    if d.len() == 0 {
        0
    } else {
        d[0] as nat + 0x1_0000_0000 * digits_value(d.drop_first())
    }
}

/// The value of a big number.
pub open spec fn big_val(b: BigUint) -> nat {
    digits_value(big_digits(b))
}

/// `BigUint::ZERO` has the value zero.
#[verifier::external_body]
pub(crate) fn big_zero() -> (r: BigUint)
    ensures
        big_val(r) == 0,
{
    BigUint::ZERO
}

/// `BigUint::from(u128)` keeps the value.
#[verifier::external_body]
pub(crate) fn big_from_u128(v: u128) -> (r: BigUint)
    ensures
        big_val(r) == v,
{
    BigUint::from(v)
}

/// `BigUint::clone` keeps the digits.
#[verifier::external_body]
pub(crate) fn big_clone(b: &BigUint) -> (r: BigUint)
    ensures
        big_digits(r) == big_digits(*b),
{
    b.clone()
}

/// `BigUint += &BigUint` adds the values.
#[verifier::external_body]
pub(crate) fn big_add_assign(a: &mut BigUint, b: &BigUint)
    ensures
        big_val(*final(a)) == big_val(*old(a)) + big_val(*b),
{
    *a += b;
}

/// `BigUint += u128` adds the values.
#[verifier::external_body]
pub(crate) fn big_add_assign_u128(a: &mut BigUint, b: u128)
    ensures
        big_val(*final(a)) == big_val(*old(a)) + b,
{
    *a += b;
}

/// `&BigUint * &BigUint` multiplies the values.
#[verifier::external_body]
pub(crate) fn big_mul(a: &BigUint, b: &BigUint) -> (r: BigUint)
    ensures
        big_val(r) == big_val(*a) * big_val(*b),
{
    a * b
}

/// `&BigUint * u128` multiplies the values.
#[verifier::external_body]
pub(crate) fn big_mul_u128(a: &BigUint, b: u128) -> (r: BigUint)
    ensures
        big_val(r) == big_val(*a) * (b as nat),
{
    a * b
}

/// `BigUint == BigUint` compares the values.
#[verifier::external_body]
pub(crate) fn big_eq(a: &BigUint, b: &BigUint) -> (r: bool)
    ensures
        r == (big_val(*a) == big_val(*b)),
{
    a == b
}

} // verus!
