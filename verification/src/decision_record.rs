//! What was chosen in a cycle, and what was rejected.

use vstd::prelude::*;
use crate::action::CandidateAction;

verus! {

#[derive(Debug)]
pub struct DecisionRecord {
    pub cycle: u64,
    pub candidates: Vec<CandidateAction>,
    pub selected: Option<CandidateAction>,
}

impl Clone for DecisionRecord {
    fn clone(&self) -> (r: Self)
        ensures
            r.cycle == self.cycle,
            r.candidates@ == self.candidates@,
            r.selected == self.selected,
    {
        let candidates = self.candidates.clone();
        assert(candidates@ =~= self.candidates@);
        let selected = match &self.selected {
            Some(c) => Some(c.clone()),
            None => None,
        };
        DecisionRecord { cycle: self.cycle, candidates, selected }
    }
}

} // verus!
