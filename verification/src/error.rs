//! What can be wrong with an input.

use vstd::prelude::*;

verus! {

/// Why a line is no row.
#[derive(Clone, Copy, Debug, PartialEq, Eq)]
pub enum RowError {
    /// The line has fewer than six fields.
    MissingField,
    /// A field that must hold a number does not hold an unsigned 64-bit one.
    InvalidNumber,
}

/// The first line of an input that is no row.
#[derive(Clone, Copy, Debug, PartialEq, Eq)]
pub struct ParseError {
    /// The index of the line in the input; the header is line 0.
    pub line: usize,
    /// What is wrong with the line.
    pub kind: RowError,
}

/// Why an input gives no dataset.
#[derive(Clone, Copy, Debug, PartialEq, Eq)]
pub enum ReadError {
    /// The bytes are not well-formed UTF-8.
    Encoding,
    /// A line after the header is no row.
    Parse(ParseError),
}

} // verus!
