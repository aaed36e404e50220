//! Actions and the lifecycle of a candidate action.

use vstd::prelude::*;
use crate::constraint::Constraint;

verus! {

#[derive(Debug)]
pub enum Action {
    InvestigateWater { source_id: String, reason: String },
    InvestigateSurvivorSignal { source_id: String, reason: String },
    Hold,
}

/// An action seen through the text of its fields.
pub enum ActionView {
    InvestigateWater { source_id: Seq<char>, reason: Seq<char> },
    InvestigateSurvivorSignal { source_id: Seq<char>, reason: Seq<char> },
    Hold,
}

impl View for Action {
    type V = ActionView;

    open spec fn view(&self) -> ActionView {
        match self {
            Action::InvestigateWater { source_id, reason } => ActionView::InvestigateWater {
                source_id: source_id@,
                reason: reason@,
            },
            Action::InvestigateSurvivorSignal { source_id, reason } =>
                ActionView::InvestigateSurvivorSignal { source_id: source_id@, reason: reason@ },
            Action::Hold => ActionView::Hold,
        }
    }
}

impl Clone for Action {
    fn clone(&self) -> (r: Self)
        ensures
            r == *self,
    {
        match self {
            Action::InvestigateWater { source_id, reason } => Action::InvestigateWater {
                source_id: source_id.clone(),
                reason: reason.clone(),
            },
            Action::InvestigateSurvivorSignal { source_id, reason } =>
                Action::InvestigateSurvivorSignal {
                source_id: source_id.clone(),
                reason: reason.clone(),
            },
            Action::Hold => Action::Hold,
        }
    }
}

/// An action under consideration. `confidence` is fixed-point (ten-thousandths)
/// and `score` counts hundred-thousandths (`policy::SCORE_SCALE`);
/// `feasible` and `score` are `None` until the candidate has been checked
/// against a constraint and scored by a policy.
#[derive(Debug)]
pub struct CandidateAction {
    pub action: Action,
    pub confidence: i64,
    pub score: Option<i128>,
    pub feasible: Option<bool>,
}

/// A candidate seen through the text of its action.
pub struct CandidateView {
    pub action: ActionView,
    pub confidence: i64,
    pub score: Option<i128>,
    pub feasible: Option<bool>,
}

impl View for CandidateAction {
    type V = CandidateView;

    open spec fn view(&self) -> CandidateView {
        CandidateView {
            action: self.action@,
            confidence: self.confidence,
            score: self.score,
            feasible: self.feasible,
        }
    }
}

impl Clone for CandidateAction {
    fn clone(&self) -> (r: Self)
        ensures
            r == *self,
    {
        CandidateAction {
            action: self.action.clone(),
            confidence: self.confidence,
            score: self.score,
            feasible: self.feasible,
        }
    }
}

impl CandidateAction {
    /// Records whether the candidate meets `constraint`; nothing else changes.
    pub fn evaluate_feasibility(&mut self, constraint: &Constraint)
        ensures
            final(self).feasible == Some(constraint.admits(old(self).confidence)),
            final(self).action == old(self).action,
            final(self).confidence == old(self).confidence,
            final(self).score == old(self).score,
    {
        self.feasible = Some(constraint.allows(self.confidence));
    }
}

} // verus!
