//! A non-empty range of values.
use vstd::prelude::*;

verus! {

/// All values from one value to another, both included.
#[derive(Clone, Copy, Debug, PartialEq, Eq, Structural)]
pub struct Interval {
    pub start: u16,
    pub end: u16,
}

impl Interval {
    /// The ends are in order.
    pub open spec fn wf(&self) -> bool {
        self.start <= self.end
    }

    /// The interval from `start` to `end`, which are in order.
    pub fn new(start: u16, end: u16) -> (r: Interval)
        requires
            start <= end,
        ensures
            r.wf(),
            r.start == start,
            r.end == end,
    {
        Interval { start, end }
    }

    /// The least value.
    pub fn start(&self) -> (r: u16)
        ensures
            r == self.start,
    {
        self.start
    }

    /// The greatest value.
    pub fn end(&self) -> (r: u16)
        ensures
            r == self.end,
    {
        self.end
    }

    /// Whether every value belongs to the interval.
    pub fn is_full(&self) -> (r: bool)
        ensures
            r == (self.start == 0 && self.end == u16::MAX),
    {
        self.start == 0 && self.end == u16::MAX
    }
}

} // verus!
