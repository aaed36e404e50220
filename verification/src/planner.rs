//! Feasibility, scoring, and the choice of the best candidate.

use vstd::prelude::*;
use crate::action::CandidateAction;
use crate::constraint::Constraint;
use crate::policy::{rescue_score, Policy, RescuePolicy};
use crate::state::WorldState;

verus! {

/// A candidate that was found feasible and has a score.
pub open spec fn ranked(c: CandidateAction) -> bool {
    c.feasible == Some(true) && c.score is Some
}

/// `s[i]` is the best of the ranked candidates: no ranked candidate scores
/// higher, and every later ranked candidate scores lower (of equal best
/// scores, the last wins).
pub open spec fn best_at(s: Seq<CandidateAction>, i: int) -> bool {
    &&& 0 <= i < s.len()
    &&& ranked(s[i])
    &&& forall|j: int|
        0 <= j < s.len() && ranked(#[trigger] s[j]) ==> s[j].score->0 <= s[i].score->0
    &&& forall|j: int| i < j < s.len() && ranked(#[trigger] s[j]) ==> s[j].score->0 < s[i].score->0
}

/// The highest-scoring feasible candidate, the last one among equals; none
/// when no candidate is both feasible and scored.
pub fn select_best(candidates: &[CandidateAction]) -> (best: Option<&CandidateAction>)
    ensures
        best is None <==> forall|i: int| 0 <= i < candidates@.len() ==> !ranked(#[trigger] candidates@[i]),
        best matches Some(b) ==> exists|i: int| best_at(candidates@, i) && *b == candidates@[i],
{
    let n = candidates.len();
    let mut best: Option<usize> = None;
    let mut top: i128 = 0;
    let mut i: usize = 0;
    while i < n
        invariant
            n == candidates@.len(),
            i <= n,
            best is None ==> forall|j: int| 0 <= j < i ==> !ranked(#[trigger] candidates@[j]),
            best matches Some(b) ==> {
                &&& b < i
                &&& best_at(candidates@.take(i as int), b as int)
                &&& candidates@[b as int].score == Some(top)
            },
        decreases n - i,
    {
        let c = &candidates[i];
        if c.feasible == Some(true) {
            match c.score {
                Some(score) => {
                    let better = match best {
                        None => true,
                        Some(_) => score >= top,
                    };
                    if better {
                        best = Some(i);
                        top = score;
                    }
                },
                None => {},
            }
        }
        assert(candidates@.take(i + 1) =~= candidates@.take(i as int).push(candidates@[i as int]));
        i = i + 1;
    }
    assert(candidates@.take(n as int) =~= candidates@);
    match best {
        None => None,
        Some(b) => Some(&candidates[b]),
    }
}

/// A constraint vetoes outright and a policy only ranks what survives: once
/// every candidate carries the verdict of `constraint`, the best candidate
/// meets it, whatever the scores.
pub proof fn lemma_vetoed_never_selected(s: Seq<CandidateAction>, constraint: Constraint, i: int)
    requires
        forall|j: int|
            0 <= j < s.len() ==> (#[trigger] s[j]).feasible == Some(
                constraint.admits(s[j].confidence),
            ),
        best_at(s, i),
    ensures
        constraint.admits(s[i].confidence),
{
    assert(s[i].feasible == Some(constraint.admits(s[i].confidence)));
}

/// Checks each candidate against `constraint` and scores the feasible ones
/// with `policy`; infeasible candidates keep the score they had.
pub fn assess_candidates(
    candidates: &mut Vec<CandidateAction>,
    constraint: &Constraint,
    policy: &RescuePolicy,
    world: &WorldState,
)
    ensures
        final(candidates)@.len() == old(candidates)@.len(),
        forall|i: int|
            0 <= i < old(candidates)@.len() ==> {
                let before = #[trigger] old(candidates)@[i];
                let after = final(candidates)@[i];
                &&& after.action == before.action
                &&& after.confidence == before.confidence
                &&& after.feasible == Some(constraint.admits(before.confidence))
                &&& after.score == if constraint.admits(before.confidence) {
                    Some(rescue_score(before.action@, before.confidence) as i128)
                } else {
                    before.score
                }
            },
{
    let n = candidates.len();
    let mut i: usize = 0;
    while i < n
        invariant
            n == candidates@.len(),
            n == old(candidates)@.len(),
            i <= n,
            forall|j: int| i <= j < n ==> #[trigger] candidates@[j] == old(candidates)@[j],
            forall|j: int|
                0 <= j < i ==> {
                    let before = #[trigger] old(candidates)@[j];
                    let after = candidates@[j];
                    &&& after.action == before.action
                    &&& after.confidence == before.confidence
                    &&& after.feasible == Some(constraint.admits(before.confidence))
                    &&& after.score == if constraint.admits(before.confidence) {
                        Some(rescue_score(before.action@, before.confidence) as i128)
                    } else {
                        before.score
                    }
                },
        decreases n - i,
    {
        let mut candidate = candidates[i].clone();
        candidate.evaluate_feasibility(constraint);
        if candidate.feasible == Some(true) {
            let score = policy.score(&candidate, world);
            candidate.score = Some(score);
        }
        candidates.set(i, candidate);
        i = i + 1;
    }
}

} // verus!
