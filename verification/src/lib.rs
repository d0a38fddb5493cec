//! Per-date work-time bookkeeping built around a verified interval algebra.
//!
//! A day's worked periods are kept as a sequence of disjoint, sorted time
//! blocks; insertion merges overlapping or touching ranges and removal
//! truncates or splits the ranges it cuts into.

use vstd::prelude::*;

pub mod algebra;
pub mod args;
pub mod block;
pub mod date;
pub mod day;
pub mod fmt;
pub mod infer;
pub mod month;
pub mod parse;

verus! {

/// Failures surfaced by parsing and construction; the interval algebra
/// itself is total over well-formed inputs and never fails.
#[derive(Clone, Copy, Debug, PartialEq, Eq, Structural)]
pub enum PunchError {
    /// A block was given with its end before its start.
    InvalidRange,
    /// A token did not have the shape the format asks for.
    UnparseableToken,
    /// A number was outside its calendar range (month, day, hour, minute).
    InvalidCalendarValue,
}

} // verus!
