//! The risk classification of a covered cell and its priority order.

use std::cmp::Ordering;
use vstd::prelude::*;
use vstd::std_specs::cmp::PartialOrdSpecImpl;

verus! {

/// What the opened neighbours of a cell say about it, taken together.
#[derive(Debug, Clone, Copy, PartialEq, Eq, Structural)]
pub enum Score {
    /// A single neighbour has given an opinion: low confidence.
    NotEnough(i32),
    /// The cell is certainly a mine.
    Mine,
    /// Aggregated risk; zero means safe.
    Val(i32),
}

impl Score {
    /// The class of a score: `Val` below `NotEnough` below `Mine`.
    pub open spec fn tier(self) -> int {
        match self {
            Score::Val(_) => 0,
            Score::NotEnough(_) => 1,
            Score::Mine => 2,
        }
    }

    /// The number carried by a score; a certain mine carries none.
    pub open spec fn magnitude(self) -> int {
        match self {
            Score::Val(v) => v as int,
            Score::NotEnough(v) => v as int,
            Score::Mine => 0,
        }
    }

    /// Position in the priority order as one integer: scores compare as
    /// their ranks do, first by tier, then by magnitude. A single opinion
    /// ranks above every aggregated value, however high: a cell with one
    /// opinion is taken only after all cells with several.
    pub open spec fn rank(self) -> int {
        self.tier() * 0x1_0000_0000 + self.magnitude()
    }

    /// The rank as a machine integer.
    pub fn rank_value(&self) -> (r: i64)
        ensures
            r == self.rank(),
    {
        match *self {
            Score::Val(v) => v as i64,
            Score::NotEnough(v) => 0x1_0000_0000i64 + v as i64,
            Score::Mine => 0x2_0000_0000i64,
        }
    }

    /// Whether this score is a certain mine.
    pub fn is_mine(&self) -> (b: bool)
        ensures
            b == (*self == Score::Mine),
    {
        match *self {
            Score::Mine => true,
            _ => false,
        }
    }
}

impl PartialOrd for Score {
    fn partial_cmp(&self, other: &Score) -> (r: Option<Ordering>) {
        let a = self.rank_value();
        let b = other.rank_value();
        if a < b {
            Some(Ordering::Less)
        } else if a > b {
            Some(Ordering::Greater)
        } else {
            Some(Ordering::Equal)
        }
    }
}

impl PartialOrdSpecImpl for Score {
    open spec fn obeys_partial_cmp_spec() -> bool {
        true
    }

    open spec fn partial_cmp_spec(&self, other: &Score) -> Option<Ordering> {
        if self.rank() < other.rank() {
            Some(Ordering::Less)
        } else if self.rank() > other.rank() {
            Some(Ordering::Greater)
        } else {
            Some(Ordering::Equal)
        }
    }
}

} // verus!
