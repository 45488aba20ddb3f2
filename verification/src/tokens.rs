//! From the words of a command line to the rows of a table.

use crate::bigint::{big_parse, parsed};
use crate::convtable::{error_row, result_row, ConvTable};
use crate::table::RowView;
use crate::text::{strip_prefix, trim, trimmed};
use vstd::prelude::*;
use vstd::string::*;

verus! {

/// The digits of a number and the radix in which to read them: 16 after
/// `0x`, 2 after `0b`, 8 after `0o`, else 10 with nothing taken off.
pub open spec fn radix_of(text: Seq<char>) -> (Seq<char>, u32) {
    if "0x"@.is_prefix_of(text) {
        (text.skip("0x"@.len() as int), 16)
    } else if "0b"@.is_prefix_of(text) {
        (text.skip("0b"@.len() as int), 2)
    } else if "0o"@.is_prefix_of(text) {
        (text.skip("0o"@.len() as int), 8)
    } else {
        (text, 10)
    }
}

/// The row that shows one word of the command line: without the white space
/// around it, its conversions if it is read as a number, else the message
/// that says why it is none.
pub open spec fn token_row(token: Seq<char>) -> RowView {
    let text = trimmed(token);
    let (digits, radix) = radix_of(text);
    match parsed(digits, radix) {
        Ok(v) => result_row(text, v),
        Err(message) => error_row(text, message),
    }
}

/// Splits a number as entered into its digits and the radix that its prefix
/// names.
pub fn split_radix(text: &str) -> (r: (&str, u32))
    ensures
        (r.0@, r.1) == radix_of(text@),
        2 <= r.1 <= 36,
{
    if let Some(s) = strip_prefix(text, "0x") {
        (s, 16)
    } else if let Some(s) = strip_prefix(text, "0b") {
        (s, 2)
    } else if let Some(s) = strip_prefix(text, "0o") {
        (s, 8)
    } else {
        (text, 10)
    }
}

/// Adds the row for one word of the command line to the table.
pub fn push_token(table: &mut ConvTable, token: &str)
    ensures
        final(table)@ == old(table)@.push(token_row(token@)),
{
    let text = trim(token);
    let (digits, radix) = split_radix(text);
    match big_parse(digits, radix) {
        Ok(x) => table.push_result(text, &x),
        Err(message) => table.push_error(text, message.as_str()),
    }
}

/// The table for the words of a command line, a row for each in their order.
pub fn convert(tokens: &Vec<String>) -> (table: ConvTable)
    ensures
        table@ == Seq::new(tokens.len() as nat, |i: int| token_row(tokens[i]@)),
{
    let mut table = ConvTable::new();
    let mut i: usize = 0;
    while i < tokens.len()
        invariant
            i <= tokens.len(),
            table@ == Seq::new(i as nat, |j: int| token_row(tokens[j]@)),
        decreases tokens.len() - i,
    {
        push_token(&mut table, tokens[i].as_str());
        i = i + 1;
        assert(table@ =~= Seq::new(i as nat, |j: int| token_row(tokens[j]@)));
    }
    table
}

} // verus!
