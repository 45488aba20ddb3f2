//! A table of numbers converted to decimal, hexadecimal and binary text.

use crate::bigint::{
    big_clone, big_div_rem, big_from_usize, big_is_negative, big_is_odd, big_is_zero, big_neg,
    big_one, big_shr, big_sub, big_to_decimal, big_to_usize, big_value,
};
use crate::notation::{
    bin_digits, bin_text, byte_len, decimal_text, digit, digit_char, grouped, hex_digits,
    hex_text, lemma_digit_complement, lemma_drop_byte, lemma_drop_digit, magnitude, with_sign,
};
use crate::table::{shown_table, Row, RowView, Table};
use crate::text::prefixed_reverse;
use num::BigInt;
use vstd::arithmetic::power::*;
use vstd::arithmetic::power2::{lemma2_to64, lemma_pow2};
use vstd::prelude::*;
use vstd::string::*;

verus! {

/// A table that holds the results of number conversion.
pub struct ConvTable {
    t: Table,
}

impl View for ConvTable {
    type V = Seq<RowView>;

    closed spec fn view(&self) -> Seq<RowView> {
        self.t@
    }
}

/// The first cell of a row: the number as it was entered, and a colon.
pub open spec fn label(orig: Seq<char>) -> Seq<char> {
    orig.push(':')
}

/// The row for a number: as it was entered, and in decimal, hexadecimal and
/// binary notation.
pub open spec fn result_row(orig: Seq<char>, v: int) -> RowView {
    RowView { cells: seq![label(orig), decimal_text(v), hex_text(v), bin_text(v)], span: None }
}

/// The row for text that is no number: as it was entered, and the error
/// message across the rest of the row.
pub open spec fn error_row(orig: Seq<char>, error: Seq<char>) -> RowView {
    RowView { cells: seq![label(orig)], span: Some(error) }
}

impl ConvTable {
    /// Creates a table without rows.
    pub fn new() -> (table: ConvTable)
        ensures
            table@ == Seq::<RowView>::empty(),
    {
        ConvTable { t: Table::new() }
    }

    /// Adds a line with the conversions of a number.
    ///
    /// `orig` is the number as entered by the user, `num` the same number
    /// parsed.
    pub fn push_result(&mut self, orig: &str, num: &BigInt)
        ensures
            final(self)@ == old(self)@.push(result_row(orig@, big_value(*num))),
    {
        let mut first = orig.to_owned();
        first.push(':');
        let mut row = Row::new();
        row.push(first.as_str());
        row.push(big_to_decimal(num).as_str());
        row.push(format_hex(num).as_str());
        row.push(format_bin(num).as_str());
        assert(row@.cells =~= result_row(orig@, big_value(*num)).cells);
        self.t.push(row);
    }

    /// Adds a line with a parse error.
    ///
    /// `orig` is the number as entered by the user, `error` the message that
    /// says why it is none.
    pub fn push_error(&mut self, orig: &str, error: &str)
        ensures
            final(self)@ == old(self)@.push(error_row(orig@, error@)),
    {
        let mut first = orig.to_owned();
        first.push(':');
        let mut row = Row::new();
        row.push(first.as_str());
        row.push_span(error);
        assert(row@.cells =~= error_row(orig@, error@).cells);
        self.t.push(row);
    }

    /// The table as text, one line for each row, ready to be written out.
    pub fn print(&self) -> (text: String)
        ensures
            text@ == shown_table(self@),
    {
        self.t.print()
    }
}

/// The character for digit `d`, read from the table of digits or, for the
/// digits of a negative number's magnitude, from the same table backwards.
fn hex_char(d: usize, inverted: bool) -> (c: char)
    requires
        d < 16,
    ensures
        c == digit_char(
            if inverted {
                15 - d
            } else {
                d as int
            },
        ),
{
    proof {
        reveal_strlit("0123456789ABCDEF");
        reveal_strlit("FEDCBA9876543210");
    }
    if inverted {
        "FEDCBA9876543210".get_char(d)
    } else {
        "0123456789ABCDEF".get_char(d)
    }
}

/// The hexadecimal notation of `n`: `0x` and an even number of upper-case
/// digits, in two's complement if `n` is negative.
pub fn format_hex(n: &BigInt) -> (text: String)
    ensures
        text@ == hex_text(big_value(*n)),
{
    let base = big_from_usize(16).unwrap();
    let negative = big_is_negative(n);
    let mut number = big_clone(n);
    if negative {
        number = big_sub(big_neg(number), big_one());
    }
    let ghost v = big_value(*n);
    let ghost m = magnitude(v) as int;
    let mut digits: Vec<char> = Vec::new();
    let mut correct_sign = false;
    proof {
        lemma_pow0(16);
    }
    loop
        invariant_except_break
            big_value(number) == m / pow(16, digits.len() as nat),
            byte_len(v) == digits.len() / 2 + byte_len(with_sign(big_value(number), negative)),
        invariant
            big_value(base) == 16,
            negative == (v < 0),
            m == magnitude(v),
            digits.len() % 2 == 0,
            forall|j: int|
                0 <= j < digits.len() ==> digits[j] == digit_char(digit(v, 16, j as nat)),
        ensures
            digits.len() == 2 * byte_len(v),
        decreases big_value(number),
    {
        let ghost start = big_value(number);
        let ghost done = digits.len() as nat;
        proof {
            lemma_drop_digit(m, 16, done);
        }
        let mut i: usize = 0;
        while i < 2
            invariant
                i <= 2,
                big_value(base) == 16,
                negative == (v < 0),
                m == magnitude(v),
                digits.len() == done + i,
                0 <= big_value(number) == m / pow(16, digits.len() as nat),
                i == 0 ==> big_value(number) == start,
                i == 1 ==> big_value(number) == start / 16,
                i == 2 ==> big_value(number) == start / 256 && correct_sign == ((start / 16) % 16
                    < 8),
                forall|j: int|
                    0 <= j < digits.len() ==> digits[j] == digit_char(digit(v, 16, j as nat)),
            decreases 2 - i,
        {
            let ghost place = digits.len() as nat;
            let ghost before = big_value(number);
            let (quot, rem) = big_div_rem(&number, &base);
            proof {
                vstd::arithmetic::div_mod::lemma_fundamental_div_mod_converse(
                    before,
                    16,
                    big_value(quot),
                    big_value(rem),
                );
                lemma_drop_digit(m, 16, place);
                lemma_drop_digit(m, 16, place + 1);
                if negative {
                    lemma_digit_complement(v, 16, place);
                }
            }
            number = quot;
            let d = big_to_usize(&rem).unwrap();
            digits.push(hex_char(d, negative));
            correct_sign = d < 8;
            i = i + 1;
        }
        proof {
            lemma_drop_byte(start, negative);
        }
        if big_is_zero(&number) && (!negative || correct_sign) {
            break ;
        }
    }
    let text = prefixed_reverse("0x", &digits);
    proof {
        reveal_strlit("0x");
        assert("0x"@ =~= seq!['0', 'x']);
        assert(digits@.reverse() =~= hex_digits(v));
    }
    text
}

/// The character for binary digit `d`, read from the table of digits or, for
/// the digits of a negative number's magnitude, from the same table
/// backwards.
fn bin_char(d: usize, inverted: bool) -> (c: char)
    requires
        d < 2,
    ensures
        c == digit_char(
            if inverted {
                1 - d
            } else {
                d as int
            },
        ),
{
    proof {
        reveal_strlit("0123456789ABCDEF");
        reveal_strlit("01");
        reveal_strlit("10");
    }
    if inverted {
        "10".get_char(d)
    } else {
        "01".get_char(d)
    }
}

/// The binary notation of `n`: `0b` and its digits in groups of eight with
/// an underscore between them, in two's complement if `n` is negative.
pub fn format_bin(n: &BigInt) -> (text: String)
    ensures
        text@ == bin_text(big_value(*n)),
{
    let negative = big_is_negative(n);
    let mut number = big_clone(n);
    if negative {
        number = big_sub(big_neg(number), big_one());
    }
    let ghost v = big_value(*n);
    let ghost m = magnitude(v) as int;
    let mut digits: Vec<char> = Vec::new();
    let mut correct_sign = false;
    proof {
        lemma_pow0(2);
    }
    loop
        invariant_except_break
            digits.len() % 9 == 0,
            big_value(number) == m / pow(2, (digits.len() / 9 * 8) as nat),
            byte_len(v) == digits.len() / 9 + byte_len(with_sign(big_value(number), negative)),
        invariant
            negative == (v < 0),
            m == magnitude(v),
            forall|p: int|
                0 <= p < digits.len() ==> digits[p] == (if p % 9 == 8 {
                    '_'
                } else {
                    digit_char(digit(v, 2, (p - p / 9) as nat))
                }),
        ensures
            digits.len() == 9 * byte_len(v) - 1,
        decreases big_value(number),
    {
        let ghost start = big_value(number);
        let ghost done = digits.len() as nat;
        proof {
            lemma_drop_digit(m, 2, done / 9 * 8);
            lemma_pow0(2);
        }
        let mut i: usize = 0;
        while i < 8
            invariant
                i <= 8,
                negative == (v < 0),
                m == magnitude(v),
                done % 9 == 0,
                digits.len() == done + i,
                0 <= start,
                0 <= big_value(number) == m / pow(2, (done / 9 * 8 + i) as nat),
                big_value(number) == start / pow(2, i as nat),
                i == 8 ==> correct_sign == ((start / pow(2, 7)) % 2 == 0),
                forall|p: int|
                    0 <= p < digits.len() ==> digits[p] == (if p % 9 == 8 {
                        '_'
                    } else {
                        digit_char(digit(v, 2, (p - p / 9) as nat))
                    }),
            decreases 8 - i,
        {
            let ghost place = (done / 9 * 8 + i) as nat;
            let d: usize = if big_is_odd(&number) {
                1
            } else {
                0
            };
            proof {
                lemma_drop_digit(m, 2, place);
                lemma_drop_digit(m, 2, place + 1);
                lemma_drop_digit(start, 2, i as nat);
                lemma_pow1(2);
                if negative {
                    lemma_digit_complement(v, 2, place);
                }
                assert((done + i) % 9 == i as int);
                assert((done + i) - (done + i) / 9 == place);
            }
            digits.push(bin_char(d, negative));
            number = big_shr(number, 1);
            correct_sign = d == 0;
            i = i + 1;
        }
        proof {
            lemma2_to64();
            lemma_pow2(7);
            lemma_pow2(8);
            lemma_drop_digit(start, 2, 7);
            lemma_drop_byte(start, negative);
        }
        if big_is_zero(&number) && (!negative || correct_sign) {
            break ;
        }
        digits.push('_');
    }
    let text = prefixed_reverse("0b", &digits);
    proof {
        reveal_strlit("0b");
        assert("0b"@ =~= seq!['0', 'b']);
        let count = byte_len(v);
        assert forall|i: int| 0 <= i < 9 * count - 1 implies digits@.reverse()[i] == grouped(
            bin_digits(v),
        )[i] by {
            let p = 9 * count - 2 - i;
            assert(digits@.reverse()[i] == digits@[p]);
            assert(p % 9 == 7 - i % 9 || i % 9 == 8);
            assert(i % 9 != 8 ==> p - p / 9 == 8 * count - 1 - (i - i / 9));
        }
        assert(digits@.reverse() =~= grouped(bin_digits(v)));
    }
    text
}

} // verus!
