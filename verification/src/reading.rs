//! Reading hexadecimal and binary notation back, and what that shows of the
//! notation: that it holds the number, in whole bytes, with the sign in its
//! first bit, and in no more bytes than that takes.

use crate::notation::{
    bin_digits, bin_text, byte_len, digit, digit_char, digits, grouped, hex_digits, hex_text,
    lemma_complement_div, magnitude,
};
use vstd::arithmetic::div_mod::*;
use vstd::arithmetic::mul::*;
use vstd::arithmetic::power::*;
use vstd::arithmetic::power2::{lemma2_to64, lemma_pow2};
use vstd::prelude::*;

verus! {

/// The number that a digit character stands for.
pub open spec fn digit_value(c: char) -> int {
    if '0' <= c <= '9' {
        c as int - '0' as int
    } else {
        c as int - 'A' as int + 10
    }
}

/// Whether `c` is a digit of the given base, written in upper case.
pub open spec fn is_digit(c: char, base: int) -> bool {
    ('0' <= c <= '9' || 'A' <= c <= 'F') && digit_value(c) < base
}

/// The number that `text` spells in the given base, read as a plain
/// magnitude. Underscores between the digits are passed over.
pub open spec fn spelled(text: Seq<char>, base: int) -> int
    decreases text.len(),
{
    if text.len() == 0 {
        0
    } else if text.last() == '_' {
        spelled(text.drop_last(), base)
    } else {
        spelled(text.drop_last(), base) * base + digit_value(text.last())
    }
}

/// How many digits `text` holds, underscores not counted.
pub open spec fn digit_count(text: Seq<char>) -> nat
    decreases text.len(),
{
    if text.len() == 0 {
        0
    } else if text.last() == '_' {
        digit_count(text.drop_last())
    } else {
        digit_count(text.drop_last()) + 1
    }
}

/// The number that `text` spells in the given base, read in two's
/// complement: where the first bit is set, the magnitude stands for the
/// negative number that lies a full turn of the digits below it.
pub open spec fn twos_complement(text: Seq<char>, base: int) -> int {
    let plain = spelled(text, base);
    let full = pow(base, digit_count(text));
    if 2 * plain >= full {
        plain - full
    } else {
        plain
    }
}

/// The least number, in magnitude, that needs `bytes` bytes in two's
/// complement and no fewer: half of what `bytes` bytes can count.
pub open spec fn half_range(bytes: nat) -> int {
    128 * pow(256, (bytes - 1) as nat)
}

/// A digit character stands for the digit that it was made from.
pub proof fn lemma_digit_char(d: int)
    requires
        0 <= d < 16,
    ensures
        digit_value(digit_char(d)) == d,
        digit_char(d) != '_',
        is_digit(digit_char(d), 16),
{
    reveal_strlit("0123456789ABCDEF");
    let s = "0123456789ABCDEF"@;
    assert(s[0] == '0' && s[1] == '1' && s[2] == '2' && s[3] == '3');
    assert(s[4] == '4' && s[5] == '5' && s[6] == '6' && s[7] == '7');
    assert(s[8] == '8' && s[9] == '9' && s[10] == 'A' && s[11] == 'B');
    assert(s[12] == 'C' && s[13] == 'D' && s[14] == 'E' && s[15] == 'F');
}

/// Division by a product is division by one factor and then by the other,
/// for negative numbers too.
pub proof fn lemma_div_twice(w: int, c: int, d: int)
    requires
        0 < c,
        0 < d,
    ensures
        0 < c * d,
        (w / c) / d == w / (c * d),
{
    lemma_mul_strictly_positive(c, d);
    if w >= 0 {
        lemma_div_denominator(w, c, d);
    } else {
        let m = -w - 1;
        lemma_complement_div(m, c);
        lemma_div_pos_is_pos(m, c);
        lemma_complement_div(m / c, d);
        lemma_div_denominator(m, c, d);
        lemma_complement_div(m, c * d);
    }
}

/// The digit at a place is the digit one place lower of the number without
/// its lowest digit.
pub proof fn lemma_digit_shift(w: int, base: int, i: nat)
    requires
        2 <= base,
    ensures
        digit(w, base, i + 1) == digit(w / base, base, i),
        0 <= digit(w, base, i) < base,
{
    lemma_pow_positive(base, i);
    lemma_div_twice(w, base, pow(base, i));
    lemma_pow_adds(base, 1, i);
    lemma_pow1(base);
    lemma_mod_bound(w / pow(base, i), base);
}

/// The lowest `count` digits of a number spell what is left of it when the
/// full turns of `count` digits are taken out.
pub proof fn lemma_spelled_digits(w: int, base: int, count: nat)
    requires
        2 <= base <= 16,
    ensures
        spelled(digits(w, base, count), base) == w % pow(base, count),
        digit_count(digits(w, base, count)) == count,
    decreases count,
{
    let s = digits(w, base, count);
    if count == 0 {
        lemma_pow0(base);
    } else {
        let rest = digits(w / base, base, (count - 1) as nat);
        assert(s.drop_last() =~= rest) by {
            assert forall|i: int| 0 <= i < count - 1 implies s[i] == rest[i] by {
                lemma_digit_shift(w, base, (count - 2 - i) as nat);
            }
        }
        lemma_digit_shift(w, base, 0);
        lemma_pow0(base);
        assert(digit(w, base, 0) == w % base);
        lemma_digit_char(w % base);
        lemma_spelled_digits(w / base, base, (count - 1) as nat);
        let p = pow(base, (count - 1) as nat);
        lemma_pow_positive(base, (count - 1) as nat);
        lemma_pow_adds(base, 1, (count - 1) as nat);
        lemma_pow1(base);
        assert(pow(base, count) == base * p);
        let q = w / base;
        let r = w % base;
        let q2 = q / p;
        let r2 = q % p;
        lemma_fundamental_div_mod(w, base);
        lemma_fundamental_div_mod(q, p);
        lemma_mod_bound(q, p);
        lemma_mod_bound(w, base);
        assert(w == q2 * (base * p) + (r2 * base + r) && 0 <= r2 * base + r < base * p)
            by (nonlinear_arith)
            requires
                w == base * q + r,
                q == p * q2 + r2,
                0 <= r < base,
                0 <= r2 < p,
        ;
        lemma_fundamental_div_mod_converse(w, base * p, q2, r2 * base + r);
    }
}

/// A number fits the bytes of its notation, and would not fit fewer: the bytes
/// count up to it if it is not negative, and half of what they count reaches
/// down to it if it is.
pub proof fn lemma_byte_len_bounds(v: int)
    ensures
        byte_len(v) >= 1,
        v >= 0 ==> v < pow(256, byte_len(v)),
        v >= 0 && byte_len(v) > 1 ==> v >= pow(256, (byte_len(v) - 1) as nat),
        v < 0 ==> v >= -half_range(byte_len(v)),
        v < 0 && byte_len(v) > 1 ==> v < -half_range((byte_len(v) - 1) as nat),
    decreases magnitude(v),
{
    lemma_pow0(256);
    lemma_pow1(256);
    if -128 <= v < 256 {
    } else {
        let rest = v / 256;
        let len = byte_len(rest);
        lemma_byte_len_bounds(rest);
        lemma_pow_adds(256, 1, len);
        lemma_pow_adds(256, 1, (len - 1) as nat);
        lemma_pow_positive(256, (len - 1) as nat);
        if len > 1 {
            lemma_pow_adds(256, 1, (len - 2) as nat);
        }
    }
}

/// As many hexadecimal digits, or binary digits, as make up `bytes` bytes
/// count as far as the bytes do.
pub proof fn lemma_pow_bytes(bytes: nat)
    ensures
        pow(16, 2 * bytes) == pow(256, bytes),
        pow(2, 8 * bytes) == pow(256, bytes),
        pow(256, bytes) > 0,
        bytes > 0 ==> pow(256, bytes) == 2 * half_range(bytes),
{
    lemma_pow1(16);
    lemma_pow_adds(16, 1, 1);
    lemma2_to64();
    lemma_pow2(8);
    lemma_pow_multiplies(16, 2, bytes);
    lemma_pow_multiplies(2, 8, bytes);
    lemma_pow_positive(256, bytes);
    if bytes > 0 {
        lemma_pow_adds(256, 1, (bytes - 1) as nat);
        lemma_pow1(256);
    }
}

/// Text made of digits alone spells a number below the power of the base
/// that its length names, and holds as many digits as it is long.
pub proof fn lemma_spelled_below(text: Seq<char>, base: int)
    requires
        2 <= base <= 16,
        forall|i: int| 0 <= i < text.len() ==> is_digit(#[trigger] text[i], base),
    ensures
        0 <= spelled(text, base) < pow(base, text.len()),
        digit_count(text) == text.len(),
    decreases text.len(),
{
    if text.len() == 0 {
        lemma_pow0(base);
    } else {
        let front = text.drop_last();
        lemma_spelled_below(front, base);
        lemma_pow_adds(base, front.len(), 1);
        lemma_pow1(base);
        let d = digit_value(text.last());
        assert(is_digit(text[text.len() - 1], base));
        assert(0 <= spelled(front, base) * base + d < pow(base, front.len()) * base)
            by (nonlinear_arith)
            requires
                0 <= spelled(front, base) < pow(base, front.len()),
                0 <= d < base,
        ;
    }
}

/// The first `n` characters of grouped digits spell what the digits among
/// them spell: the underscores add nothing.
pub proof fn lemma_grouped_prefix(digits: Seq<char>, base: int, n: int)
    requires
        digits.len() > 0,
        digits.len() % 8 == 0,
        forall|i: int| 0 <= i < digits.len() ==> #[trigger] digits[i] != '_',
        0 <= n <= grouped(digits).len(),
    ensures
        spelled(grouped(digits).take(n), base) == spelled(digits.take(n - n / 9), base),
        digit_count(grouped(digits).take(n)) == n - n / 9,
        digit_count(digits.take(n - n / 9)) == n - n / 9,
    decreases n,
{
    let g = grouped(digits);
    if n == 0 {
        assert(g.take(0) =~= Seq::<char>::empty());
        assert(digits.take(0) =~= Seq::<char>::empty());
    } else {
        let k = n - 1;
        lemma_grouped_prefix(digits, base, k);
        assert(g.take(n).drop_last() =~= g.take(k));
        assert(g.take(n).last() == g[k]);
        if k % 9 == 8 {
            assert(n - n / 9 == k - k / 9);
        } else {
            let j = k - k / 9;
            assert(n - n / 9 == j + 1);
            assert(digits.take(j + 1).drop_last() =~= digits.take(j));
            assert(digits.take(j + 1).last() == digits[j]);
            assert(g[k] == digits[j]);
        }
    }
}

/// Where a number lies within half of what `count` digits count, on either
/// side of zero, its highest digit shows its sign: it is in the upper half
/// of the digits if the number is negative, in the lower half if not.
pub proof fn lemma_top_digit(v: int, base: int, count: nat)
    requires
        2 <= base,
        base % 2 == 0,
        count >= 1,
        -pow(base, count) <= 2 * v < pow(base, count),
    ensures
        v < 0 ==> base / 2 <= digit(v, base, (count - 1) as nat) < base,
        v >= 0 ==> 0 <= digit(v, base, (count - 1) as nat) < base / 2,
{
    let p = pow(base, (count - 1) as nat);
    let h = base / 2;
    lemma_pow_positive(base, (count - 1) as nat);
    lemma_pow_adds(base, 1, (count - 1) as nat);
    lemma_pow1(base);
    assert(pow(base, count) == base * p);
    let q = v / p;
    let r = v % p;
    lemma_fundamental_div_mod(v, p);
    lemma_mod_bound(v, p);
    assert(-h <= q < h) by (nonlinear_arith)
        requires
            v == p * q + r,
            0 <= r < p,
            -(base * p) <= 2 * v < base * p,
            base == 2 * h,
            0 < p,
    ;
    if q < 0 {
        lemma_fundamental_div_mod_converse(q, base, -1, q + base);
    } else {
        lemma_fundamental_div_mod_converse(q, base, 0, q);
    }
    assert(v < 0 ==> q < 0) by (nonlinear_arith)
        requires
            v == p * q + r,
            0 <= r < p,
    ;
    assert(v >= 0 ==> q >= 0) by (nonlinear_arith)
        requires
            v == p * q + r,
            0 <= r < p,
            0 < p,
    ;
}

/// The digits of a notation are digits of its base, none of them an
/// underscore.
proof fn lemma_digits_are_digits(v: int, base: int, count: nat)
    requires
        2 <= base <= 16,
    ensures
        forall|i: int|
            0 <= i < count ==> is_digit(#[trigger] digits(v, base, count)[i], 16) && digits(
                v,
                base,
                count,
            )[i] != '_',
{
    assert forall|i: int| 0 <= i < count implies is_digit(
        #[trigger] digits(v, base, count)[i],
        16,
    ) && digits(v, base, count)[i] != '_' by {
        lemma_digit_shift(v, base, (count - 1 - i) as nat);
        lemma_digit_char(digit(v, base, (count - 1 - i) as nat));
    }
}

/// The underscores of binary notation add nothing to what it spells.
proof fn lemma_grouping_is_silent(v: int)
    ensures
        spelled(grouped(bin_digits(v)), 2) == spelled(bin_digits(v), 2),
        digit_count(grouped(bin_digits(v))) == 8 * byte_len(v),
        grouped(bin_digits(v)).len() == 9 * byte_len(v) - 1,
{
    let d = bin_digits(v);
    let g = grouped(d);
    lemma_byte_len_bounds(v);
    lemma_digits_are_digits(v, 2, 8 * byte_len(v));
    lemma_grouped_prefix(d, 2, g.len() as int);
    assert(g.take(g.len() as int) =~= g);
    assert(d.take(d.len() as int) =~= d);
}

/// Hexadecimal notation holds the number.
///
/// After `0x` stand the digits. Read as a plain magnitude, the digits of a
/// number that is not negative spell the number. Read in two's complement,
/// they spell the number if it is negative, and also if it is not and lies
/// below half of what its bytes count. A number from that half upwards has
/// the notation of a negative number: 128 is written as -128 is.
pub proof fn lemma_hex_reads_back(v: int)
    ensures
        hex_text(v).skip(2) == hex_digits(v),
        v >= 0 ==> spelled(hex_digits(v), 16) == v,
        v < half_range(byte_len(v)) ==> twos_complement(hex_digits(v), 16) == v,
{
    let len = byte_len(v);
    let full = pow(256, len);
    assert(hex_text(v).skip(2) =~= hex_digits(v));
    lemma_byte_len_bounds(v);
    lemma_pow_bytes(len);
    lemma_spelled_digits(v, 16, 2 * len);
    if v >= 0 {
        lemma_small_mod(v as nat, full as nat);
    } else {
        lemma_fundamental_div_mod_converse(v, full, -1, v + full);
    }
}

/// Binary notation holds the number.
///
/// After `0b` stand the digits in groups. Read as a plain magnitude, they
/// spell a number that is not negative. Read in two's complement, they spell
/// the number if it is negative, and also if it is not and lies below half of
/// what its bytes count.
pub proof fn lemma_bin_reads_back(v: int)
    ensures
        bin_text(v).skip(2) == grouped(bin_digits(v)),
        v >= 0 ==> spelled(grouped(bin_digits(v)), 2) == v,
        v < half_range(byte_len(v)) ==> twos_complement(grouped(bin_digits(v)), 2) == v,
{
    let len = byte_len(v);
    let full = pow(256, len);
    assert(bin_text(v).skip(2) =~= grouped(bin_digits(v)));
    lemma_byte_len_bounds(v);
    lemma_pow_bytes(len);
    lemma_spelled_digits(v, 2, 8 * len);
    lemma_grouping_is_silent(v);
    if v >= 0 {
        lemma_small_mod(v as nat, full as nat);
    } else {
        lemma_fundamental_div_mod_converse(v, full, -1, v + full);
    }
}

/// Both notations come in whole bytes.
///
/// Hexadecimal notation has an even number of digits after `0x`, two for
/// each byte. Binary notation has eight digits for each byte after `0b`,
/// underscores not counted, and an underscore after every eighth digit but
/// the last.
pub proof fn lemma_whole_bytes(v: int)
    ensures
        byte_len(v) >= 1,
        hex_text(v).len() == 2 + 2 * byte_len(v),
        (hex_text(v).len() - 2) % 2 == 0,
        digit_count(hex_text(v).skip(2)) == 2 * byte_len(v),
        bin_text(v).len() == 2 + 9 * byte_len(v) - 1,
        digit_count(bin_text(v).skip(2)) == 8 * byte_len(v),
        digit_count(bin_text(v).skip(2)) % 8 == 0,
        forall|i: int|
            0 <= i < 9 * byte_len(v) - 1 ==> (#[trigger] bin_text(v).skip(2)[i] == '_' <==> i % 9
                == 8),
{
    lemma_byte_len_bounds(v);
    lemma_hex_reads_back(v);
    lemma_bin_reads_back(v);
    lemma_spelled_digits(v, 16, 2 * byte_len(v));
    lemma_grouping_is_silent(v);
    lemma_digits_are_digits(v, 2, 8 * byte_len(v));
    assert forall|i: int| 0 <= i < 9 * byte_len(v) - 1 implies (#[trigger] bin_text(v).skip(2)[i]
        == '_' <==> i % 9 == 8) by {
        if i % 9 != 8 {
            assert(bin_text(v).skip(2)[i] == bin_digits(v)[i - i / 9]);
        }
    }
}

/// The first bit of the notation is the sign.
///
/// Of a negative number the first binary digit is 1 and the first
/// hexadecimal digit is 8 or more. Of a number that is not negative and
/// lies below half of what its bytes count, the first binary digit is 0 and
/// the first hexadecimal digit is less than 8. A number from that half
/// upwards, such as 128, is not negative and starts with a set bit.
pub proof fn lemma_first_bit_is_sign(v: int)
    ensures
        v < 0 ==> bin_digits(v)[0] == '1' && digit_value(hex_digits(v)[0]) >= 8,
        0 <= v < half_range(byte_len(v)) ==> bin_digits(v)[0] == '0' && digit_value(
            hex_digits(v)[0],
        ) < 8,
{
    let len = byte_len(v);
    lemma_byte_len_bounds(v);
    lemma_pow_bytes(len);
    if v < half_range(len) {
        lemma_top_digit(v, 2, 8 * len);
        lemma_top_digit(v, 16, 2 * len);
        lemma_digit_char(digit(v, 16, (2 * len - 1) as nat));
        lemma_digit_char(digit(v, 2, (8 * len - 1) as nat));
        reveal_strlit("0123456789ABCDEF");
    }
}

/// No shorter frame holds the number.
///
/// `frame` stands for any digits of the base, 16 or 2, that fill `bytes`
/// whole bytes, at least one and fewer than the notation of `v` has. Read as
/// a plain magnitude they do not spell `v` if it is not negative, and read in
/// two's complement they do not spell `v` if it is negative.
pub proof fn lemma_shortest_frame(v: int, base: int, bytes: nat, frame: Seq<char>)
    requires
        1 <= bytes < byte_len(v),
        (base == 16 && frame.len() == 2 * bytes) || (base == 2 && frame.len() == 8 * bytes),
        forall|i: int| 0 <= i < frame.len() ==> is_digit(#[trigger] frame[i], base),
    ensures
        v >= 0 ==> spelled(frame, base) != v,
        v < 0 ==> twos_complement(frame, base) != v,
{
    let len = byte_len(v);
    lemma_byte_len_bounds(v);
    lemma_spelled_below(frame, base);
    lemma_pow_bytes(bytes);
    lemma_pow_bytes((len - 1) as nat);
    assert(pow(base, frame.len()) == pow(256, bytes));
    lemma_pow_increases(256, bytes, (len - 1) as nat);
}

} // verus!
