//! What the decimal, hexadecimal and binary notations of an integer are.
//!
//! In base 16 and base 2 an integer is framed in whole bytes. A non-negative
//! one is written with its plain magnitude; a negative one in two's
//! complement, which is the same as the digits that flooring division yields.
//! The frame is the shortest that holds the magnitude and, for a negative
//! integer, starts with a set bit.

use vstd::arithmetic::div_mod::*;
use vstd::arithmetic::power::*;
use vstd::prelude::*;

verus! {

/// The digit of `v` at place `i` in the given base, place 0 being the lowest.
///
/// Division floors, so a negative `v` yields the digits of its two's
/// complement, continued upwards by the highest digit of the base forever.
pub open spec fn digit(v: int, base: int, i: nat) -> int {
    (v / pow(base, i)) % base
}

/// The non-negative integer with the same information as `v`: `v` itself, or
/// for a negative `v` its distance below -1.
pub open spec fn magnitude(v: int) -> nat {
    if v < 0 {
        (-v - 1) as nat
    } else {
        v as nat
    }
}

/// The integer whose magnitude is `m`, on the side of zero that `negative` names.
pub open spec fn with_sign(m: int, negative: bool) -> int {
    if negative {
        -m - 1
    } else {
        m
    }
}

/// How many bytes the notation of `v` has.
///
/// One byte holds 0 to 255 and -128 to -1. Anything else needs one byte for
/// its lowest eight bits and the bytes of what is left above them.
pub open spec fn byte_len(v: int) -> nat
    decreases magnitude(v),
{
    if -128 <= v < 256 {
        1
    } else {
        1 + byte_len(v / 256)
    }
}

/// The character for a digit from 0 to 15.
pub open spec fn digit_char(d: int) -> char {
    "0123456789ABCDEF"@[d]
}

/// The lowest `count` digits of `v` in the given base, highest first.
pub open spec fn digits(v: int, base: int, count: nat) -> Seq<char> {
    Seq::new(count, |i: int| digit_char(digit(v, base, (count - 1 - i) as nat)))
}

/// The hexadecimal digits of `v`, highest first: two for each byte.
pub open spec fn hex_digits(v: int) -> Seq<char> {
    digits(v, 16, 2 * byte_len(v))
}

/// The binary digits of `v`, highest first: eight for each byte.
pub open spec fn bin_digits(v: int) -> Seq<char> {
    digits(v, 2, 8 * byte_len(v))
}

/// `digits` with an underscore between each group of eight and the next.
pub open spec fn grouped(digits: Seq<char>) -> Seq<char> {
    Seq::new(
        (digits.len() + digits.len() / 8 - 1) as nat,
        |i: int|
            if i % 9 == 8 {
                '_'
            } else {
                digits[i - i / 9]
            },
    )
}

/// The hexadecimal notation of `v`: `0x` and its digits.
pub open spec fn hex_text(v: int) -> Seq<char> {
    seq!['0', 'x'] + hex_digits(v)
}

/// The binary notation of `v`: `0b` and its digits in groups of eight.
pub open spec fn bin_text(v: int) -> Seq<char> {
    seq!['0', 'b'] + grouped(bin_digits(v))
}

/// The decimal digits of `m`, highest first, without leading zeros.
pub open spec fn decimal_digits(m: nat) -> Seq<char>
    decreases m,
{
    if m < 10 {
        seq![digit_char(m as int)]
    } else {
        decimal_digits(m / 10).push(digit_char((m % 10) as int))
    }
}

/// The decimal notation of `v`: its digits, after a minus sign if it is
/// negative.
pub open spec fn decimal_text(v: int) -> Seq<char> {
    if v < 0 {
        seq!['-'] + decimal_digits((-v) as nat)
    } else {
        decimal_digits(v as nat)
    }
}

/// Flooring division of a negative number, through its magnitude.
pub proof fn lemma_complement_div(m: int, d: int)
    requires
        0 <= m,
        0 < d,
    ensures
        (-m - 1) / d == -(m / d) - 1,
        (-m - 1) % d == d - 1 - m % d,
{
    let q = m / d;
    let r = m % d;
    lemma_fundamental_div_mod(m, d);
    lemma_mod_pos_bound(m, d);
    assert(-m - 1 == (-q - 1) * d + (d - 1 - r)) by (nonlinear_arith)
        requires
            m == d * q + r,
    ;
    lemma_fundamental_div_mod_converse(-m - 1, d, -q - 1, d - 1 - r);
}

/// Each digit of a negative number is the complement of the digit of its
/// magnitude.
pub proof fn lemma_digit_complement(v: int, base: int, i: nat)
    requires
        v < 0,
        2 <= base,
    ensures
        digit(v, base, i) == base - 1 - digit(-v - 1, base, i),
{
    let p = pow(base, i);
    let m = -v - 1;
    lemma_pow_positive(base, i);
    lemma_complement_div(m, p);
    lemma_div_pos_is_pos(m, p);
    lemma_complement_div(m / p, base);
}

/// Dropping one more digit is one more division by the base.
pub proof fn lemma_drop_digit(m: int, base: int, i: nat)
    requires
        0 <= m,
        2 <= base,
    ensures
        (m / pow(base, i)) / base == m / pow(base, i + 1),
        0 <= m / pow(base, i),
{
    lemma_pow_positive(base, i);
    lemma_div_denominator(m, pow(base, i), base);
    lemma_div_pos_is_pos(m, pow(base, i));
    lemma_pow_adds(base, i, 1);
    lemma_pow1(base);
}

/// What is left above the lowest byte of `v` has the magnitude that is left
/// above the lowest byte of the magnitude of `v`.
pub proof fn lemma_drop_byte(m: int, negative: bool)
    requires
        0 <= m,
    ensures
        with_sign(m, negative) / 256 == with_sign(m / 256, negative),
{
    if negative {
        lemma_complement_div(m, 256);
    }
}

} // verus!
