//! Hard constraints applied during feasibility.

use vstd::prelude::*;

verus! {

/// A hard limit that a candidate must meet before it is scored.
#[derive(Debug, Clone, Copy, PartialEq, Eq, Structural)]
pub enum Constraint {
    /// The candidate's confidence (fixed-point) must be at least this.
    MinimumConfidence(i64),
}

impl Constraint {
    /// Whether a candidate with this confidence meets the constraint.
    pub open spec fn admits(self, confidence: i64) -> bool {
        match self {
            Constraint::MinimumConfidence(minimum) => confidence >= minimum,
        }
    }

    /// Whether a candidate with this confidence meets the constraint (`admits`).
    pub fn allows(&self, confidence: i64) -> (b: bool)
        ensures
            b == self.admits(confidence),
    {
        match self {
            Constraint::MinimumConfidence(minimum) => confidence >= *minimum,
        }
    }
}

} // verus!
