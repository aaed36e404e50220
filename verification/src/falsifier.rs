//! A claim that would change the beacon's mind, and when it is due.

use vstd::prelude::*;

verus! {

#[derive(Debug)]
pub struct Falsifier {
    pub description: String,
    /// Deadline expressed as a logical tick on the same clock as
    /// `Observation::timestamp`, so the two can be compared directly.
    pub expected_by: u64,
}

impl Clone for Falsifier {
    fn clone(&self) -> (r: Self)
        ensures
            r == *self,
    {
        Falsifier { description: self.description.clone(), expected_by: self.expected_by }
    }
}

/// A falsifier seen through the text of its description.
pub struct FalsifierView {
    pub description: Seq<char>,
    pub expected_by: u64,
}

impl View for Falsifier {
    type V = FalsifierView;

    open spec fn view(&self) -> FalsifierView {
        FalsifierView { description: self.description@, expected_by: self.expected_by }
    }
}

} // verus!
