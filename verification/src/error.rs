//! The error that parsing reports.
use vstd::prelude::*;

verus! {

/// Why a parse failed.
#[derive(Debug, Clone, Copy, PartialEq, Eq, Structural)]
pub enum ParseError {
    /// The input ended where more was required.
    Eof,
    /// The input does not hold what was looked for.
    NotFound,
    /// The given byte was required and another one came.
    Expected(u8),
    /// What was looked for was found, but more input follows it; the payload
    /// is the number of bytes that were used.
    TrailingInput(usize),
}

} // verus!
