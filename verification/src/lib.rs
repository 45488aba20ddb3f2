//! Radix conversion of arbitrary-precision integers.
//!
//! A signed integer of any magnitude is rendered as decimal, hexadecimal and
//! binary text. Negative values are shown in two's complement, framed in the
//! smallest whole number of bytes that keeps the sign. The results are laid
//! out as a table whose columns are right-aligned.

pub mod bigint;
pub mod convtable;
pub mod notation;
pub mod reading;
pub mod table;
pub mod text;
pub mod tokens;
