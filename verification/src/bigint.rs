//! The arbitrary-precision integer of the `num` crate, as the verifier sees it.
//!
//! Nothing in this module is proved. A [`BigInt`] is opaque to the verifier;
//! [`big_value`] stands for the mathematical integer it holds, and each
//! function below states what one operation of `num` does to that integer.

use crate::notation::decimal_text;
use num::bigint::ToBigInt;
use num::integer::Integer;
use num::traits::{Num, One, Signed, ToPrimitive, Zero};
use num::BigInt;
use vstd::arithmetic::power::pow;
use vstd::prelude::*;

verus! {

/// `num::BigInt`, declared so that it can appear in signatures.
#[verifier::external_type_specification]
#[verifier::external_body]
pub struct ExBigInt(BigInt);

/// The mathematical integer that a `BigInt` holds.
pub uninterp spec fn big_value(n: BigInt) -> int;

/// What `BigInt::from_str_radix` makes of `digits` in the given radix: the
/// integer it reads, or the message of the error it reports.
pub uninterp spec fn parsed(digits: Seq<char>, radix: u32) -> Result<int, Seq<char>>;

/// `BigInt::clone`: the copy holds the same integer.
#[verifier::external_body]
pub(crate) fn big_clone(n: &BigInt) -> (r: BigInt)
    ensures
        big_value(r) == big_value(*n),
{
    n.clone()
}

/// `Signed::is_negative` of `BigInt`: whether the integer is below zero.
#[verifier::external_body]
pub(crate) fn big_is_negative(n: &BigInt) -> (r: bool)
    ensures
        r == (big_value(*n) < 0),
{
    n.is_negative()
}

/// `Zero::is_zero` of `BigInt`: whether the integer is zero.
#[verifier::external_body]
pub(crate) fn big_is_zero(n: &BigInt) -> (r: bool)
    ensures
        r == (big_value(*n) == 0),
{
    n.is_zero()
}

/// `Integer::is_odd` of `BigInt`: whether two does not divide the integer.
#[verifier::external_body]
pub(crate) fn big_is_odd(n: &BigInt) -> (r: bool)
    ensures
        r == (big_value(*n) % 2 != 0),
{
    n.is_odd()
}

/// `Neg::neg` of `BigInt`: the integer with its sign turned.
#[verifier::external_body]
pub(crate) fn big_neg(n: BigInt) -> (r: BigInt)
    ensures
        big_value(r) == -big_value(n),
{
    -n
}

/// `One::one` of `BigInt`: the integer 1.
#[verifier::external_body]
pub(crate) fn big_one() -> (r: BigInt)
    ensures
        big_value(r) == 1,
{
    BigInt::one()
}

/// `Sub::sub` of `BigInt`: the difference of the two integers.
#[verifier::external_body]
pub(crate) fn big_sub(a: BigInt, b: BigInt) -> (r: BigInt)
    ensures
        big_value(r) == big_value(a) - big_value(b),
{
    a - b
}

/// `ToBigInt::to_bigint` of `usize`: always a `BigInt`, holding the same
/// number.
#[verifier::external_body]
pub(crate) fn big_from_usize(v: usize) -> (r: Option<BigInt>)
    ensures
        r is Some,
        big_value(r.unwrap()) == v,
{
    v.to_bigint()
}

/// `Integer::div_rem` of `BigInt`: quotient and remainder of the division
/// that truncates towards zero. The remainder is smaller in magnitude than
/// the divisor and is never on the other side of zero than the dividend.
/// The call panics on a zero divisor, which `requires` leaves out.
#[verifier::external_body]
pub(crate) fn big_div_rem(n: &BigInt, d: &BigInt) -> (r: (BigInt, BigInt))
    requires
        big_value(*d) != 0,
    ensures
        big_value(*n) == big_value(*d) * big_value(r.0) + big_value(r.1),
        big_value(*n) >= 0 ==> big_value(r.1) >= 0,
        big_value(*n) <= 0 ==> big_value(r.1) <= 0,
        big_value(*d) > 0 ==> -big_value(*d) < big_value(r.1) < big_value(*d),
        big_value(*d) < 0 ==> big_value(*d) < big_value(r.1) < -big_value(*d),
{
    n.div_rem(d)
}

/// `ToPrimitive::to_usize` of `BigInt`: the integer as a `usize`, if it is
/// one.
#[verifier::external_body]
pub(crate) fn big_to_usize(n: &BigInt) -> (r: Option<usize>)
    ensures
        match r {
            Some(u) => u == big_value(*n),
            None => big_value(*n) < 0 || big_value(*n) > usize::MAX,
        },
{
    n.to_usize()
}

/// `Shr::shr` of `BigInt` by a `u32`: the integer divided by that power of
/// two, rounded down.
#[verifier::external_body]
pub(crate) fn big_shr(n: BigInt, bits: u32) -> (r: BigInt)
    ensures
        big_value(r) == big_value(n) / pow(2, bits as nat),
{
    n >> bits
}

/// `Display` of `BigInt`, without flags: the decimal digits of the integer,
/// after a minus sign if it is negative.
#[verifier::external_body]
pub(crate) fn big_to_decimal(n: &BigInt) -> (r: String)
    ensures
        r@ == decimal_text(big_value(*n)),
{
    format!("{}", n)
}

/// `Num::from_str_radix` of `BigInt`: the integer read from `digits`, or the
/// message of the error. Both depend on the text and the radix alone. The
/// call panics on a radix outside 2 to 36, which `requires` leaves out.
#[verifier::external_body]
pub(crate) fn big_parse(digits: &str, radix: u32) -> (r: Result<BigInt, String>)
    requires
        2 <= radix <= 36,
    ensures
        match r {
            Ok(n) => parsed(digits@, radix) == Ok::<int, Seq<char>>(big_value(n)),
            Err(message) => parsed(digits@, radix) == Err::<int, Seq<char>>(message@),
        },
{
    match BigInt::from_str_radix(digits, radix) {
        Ok(n) => Ok(n),
        Err(e) => Err(e.to_string()),
    }
}

} // verus!
