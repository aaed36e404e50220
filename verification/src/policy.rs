//! Soft preferences: how good a feasible candidate is.

use vstd::prelude::*;
use crate::action::{Action, ActionView, CandidateAction};
use crate::state::WorldState;

verus! {

/// Scores a candidate (in hundred-thousandths); higher is better.
pub trait Policy {
    fn score(&self, candidate: &CandidateAction, world: &WorldState) -> i128;
}

/// Scores by action type and confidence.
pub struct RescuePolicy;

/// Score units in one whole: scores count hundred-thousandths, fine enough
/// to hold seven tenths of any fixed-point confidence exactly.
pub const SCORE_SCALE: i128 = 100000;

/// The score given to holding (0.10).
pub const HOLD_SCORE: i128 = 10000;

/// The rescue score, in hundred-thousandths: a survivor signal is worth its
/// full confidence, a water anomaly seven tenths of its confidence, and
/// holding 0.10.
pub open spec fn rescue_score(action: ActionView, confidence: i64) -> int {
    match action {
        ActionView::InvestigateSurvivorSignal { .. } => 10 * confidence,
        ActionView::InvestigateWater { .. } => 7 * confidence,
        ActionView::Hold => HOLD_SCORE as int,
    }
}

/// How the rescue policy ranks: for the same positive confidence a survivor
/// signal outranks a water anomaly; each investigation's score grows with
/// its confidence, a survivor signal's by a whole confidence and a water
/// anomaly's by seven tenths; holding scores 0.10 whatever its confidence.
pub proof fn lemma_rescue_ranking(
    survivor: ActionView,
    water: ActionView,
    hold: ActionView,
    confidence: i64,
    higher: i64,
)
    requires
        survivor is InvestigateSurvivorSignal,
        water is InvestigateWater,
        hold is Hold,
        confidence < higher,
    ensures
        confidence > 0 ==> rescue_score(survivor, confidence) > rescue_score(water, confidence),
        rescue_score(survivor, higher) - rescue_score(survivor, confidence) == (higher
            - confidence) * SCORE_SCALE / 10000,
        10 * (rescue_score(water, higher) - rescue_score(water, confidence)) == 7 * (higher
            - confidence) * SCORE_SCALE / 10000,
        rescue_score(hold, confidence) == rescue_score(hold, higher),
        rescue_score(hold, confidence) * 10 == SCORE_SCALE,
{
}

impl Policy for RescuePolicy {
    /// The rescue score of the candidate (`rescue_score`); the world state
    /// plays no part.
    fn score(&self, candidate: &CandidateAction, world: &WorldState) -> (s: i128)
        ensures
            s == rescue_score(candidate.action@, candidate.confidence),
    {
        match &candidate.action {
            Action::InvestigateSurvivorSignal { .. } => 10 * (candidate.confidence as i128),
            Action::InvestigateWater { .. } => 7 * (candidate.confidence as i128),
            Action::Hold => HOLD_SCORE,
        }
    }
}

} // verus!
