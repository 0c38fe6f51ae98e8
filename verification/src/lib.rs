//! Conversion of non-negative integers between textual positional notations:
//! binary, octal, decimal and hexadecimal.
//!
//! An input string carries its digits most-significant first and may end in a
//! notation suffix (`b`/`B` binary, `o`/`O`/`q`/`Q` octal, `d`/`D` decimal,
//! `h`/`H` hexadecimal); a string that ends in a decimal digit counts as
//! decimal. After the suffix and any leading zero digits are stripped, the
//! remaining digit string is validated against the detected system and can
//! then be rendered in any of the four systems.

use vstd::prelude::*;

pub mod convert;
pub mod digits;
pub mod model;
pub mod notation;

verus! {

/// The four positional numeral systems the library converts between.
#[derive(Clone, Copy, Debug, PartialEq, Eq, Structural)]
pub enum NumberNotation {
    Binary,
    Octal,
    Decimal,
    Hexadecimal,
}

/// Why an input string was rejected.
#[derive(Clone, Copy, Debug, PartialEq, Eq, Structural)]
pub enum NotationError {
    /// The trailing character names no numeral system and is no decimal digit.
    InvalidNotation(char),
    /// A character of the digit string is no legal digit for the detected system.
    InvalidDigit(char),
    /// The digit string denotes the value zero, rejected by design policy.
    Zero,
    /// The magnitude does not fit the fixed-width accumulator.
    Overflow,
}

} // verus!
