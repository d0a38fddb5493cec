//! A single worked period on one calendar date.

use vstd::prelude::*;

use crate::PunchError;
use crate::day::Day;

verus! {

/// Number of minutes in a calendar day; block endpoints stay below it.
pub const MINUTES_PER_DAY: u32 = 1440;

/// A time block on one calendar date, both endpoints given as minutes
/// since that date's midnight. `from == to` marks an ongoing (open) block.
#[derive(Clone, Copy, Debug, PartialEq, Eq, Hash, Structural)]
pub struct Block {
    pub from: u32,
    pub to: u32,
}

impl Block {
    /// A block is well formed when it does not end before it starts and
    /// both endpoints lie on its calendar date.
    pub open spec fn wf(self) -> bool {
        self.from <= self.to < MINUTES_PER_DAY
    }

    /// Length of the block in seconds.
    pub open spec fn spec_duration(self) -> int {
        (self.to - self.from) * 60
    }

    pub open spec fn spec_is_ongoing(self) -> bool {
        self.from == self.to
    }

    /// Inclusive containment of another block's whole range.
    pub open spec fn spec_contains(self, other: Block) -> bool {
        self.from <= other.from && self.to >= other.to
    }

    /// Containment with room to spare on both sides.
    pub open spec fn spec_strictly_contains(self, other: Block) -> bool {
        self.from < other.from && self.to > other.to
    }

    /// Inclusive containment of a single instant.
    pub open spec fn spec_contains_dt(self, t: u32) -> bool {
        self.from <= t && self.to >= t
    }

    /// The minute cells this block covers: the half-open range `[from, to)`.
    /// An ongoing block covers nothing yet.
    pub open spec fn covers(self, t: int) -> bool {
        self.from <= t < self.to
    }

    pub fn duration(&self) -> (d: u64)
        requires
            self.from <= self.to,
        ensures
            d == self.spec_duration(),
    {
        (self.to as u64 - self.from as u64) * 60
    }

    pub fn is_ongoing(&self) -> (r: bool)
        ensures
            r == self.spec_is_ongoing(),
    {
        self.from == self.to
    }

    pub fn contains(&self, other: &Block) -> (r: bool)
        ensures
            r == self.spec_contains(*other),
    {
        self.from <= other.from && self.to >= other.to
    }

    pub fn strictly_contains(&self, other: &Block) -> (r: bool)
        ensures
            r == self.spec_strictly_contains(*other),
    {
        self.from < other.from && self.to > other.to
    }

    pub fn contains_dt(&self, dt: u32) -> (r: bool)
        ensures
            r == self.spec_contains_dt(dt),
    {
        self.from <= dt && self.to >= dt
    }

    /// A block shorthand resolved against the day it belongs to: a full
    /// range parses as written, a single time closes the day's open block
    /// or opens a new ongoing one.
    pub fn parse(block: &str, day: &Day) -> (r: Result<Block, PunchError>)
        ensures
            !crate::infer::mentions_now(block@, '-') ==> r == crate::infer::spec_infer_block(
                block@,
                day.blocks@,
            ),
            (r is Ok) ==> r->Ok_0.wf(),
    {
        crate::infer::infer_block(block, day)
    }
}

} // verus!
