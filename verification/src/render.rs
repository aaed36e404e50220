//! The operator-facing decision feed.

use vstd::prelude::*;
use vstd::string::*;
use crate::action::{Action, ActionView, CandidateAction, CandidateView};
use crate::state::candidate_views;
use crate::policy::SCORE_SCALE;
use crate::text::{
    decimal, pad_to, push_decimal, push_padded, push_two_places, push_two_places_at, two_places,
    two_places_at,
};

verus! {

/// The width to which candidate names are padded.
pub const NAME_WIDTH: usize = 30;

/// The name of an action, with the source it concerns.
pub open spec fn action_label(a: ActionView) -> Seq<char> {
    match a {
        ActionView::InvestigateWater { source_id, .. } => "InvestigateWater("@ + source_id + ")"@,
        ActionView::InvestigateSurvivorSignal { source_id, .. } => "InvestigateSurvivorSignal("@
            + source_id + ")"@,
        ActionView::Hold => "Hold"@,
    }
}

/// The reason an action was proposed; holding has none.
pub open spec fn action_motive(a: ActionView) -> Option<Seq<char>> {
    match a {
        ActionView::InvestigateWater { reason, .. } => Some(reason),
        ActionView::InvestigateSurvivorSignal { reason, .. } => Some(reason),
        ActionView::Hold => None,
    }
}

/// A score shown with two decimal places.
pub open spec fn score_text(score: i128) -> Seq<char> {
    two_places_at(score as int, (SCORE_SCALE / 100) as nat)
}

/// One line of the candidate list: a tick with the score for a feasible
/// scored candidate, a tick and "unscored" for a feasible unscored one, a
/// cross with the confidence for an infeasible one, and a question mark
/// for one not evaluated.
pub open spec fn candidate_line(c: CandidateView) -> Seq<char> {
    let name = pad_to(action_label(c.action), NAME_WIDTH as nat);
    match c.feasible {
        Some(true) => match c.score {
            Some(score) => "  ✓ "@ + name + " score="@ + score_text(score) + "\n"@,
            None => "  ✓ "@ + name + " unscored\n"@,
        },
        Some(false) => "  ✗ "@ + name + " infeasible (confidence="@ + two_places(
            c.confidence as int,
        ) + ")\n"@,
        None => "  ? "@ + name + " not evaluated\n"@,
    }
}

/// The first mark of a candidate's row says whether it is feasible: a tick
/// when it is, a cross when it is not, a question mark when nobody has
/// looked; the action's label, padded to the name width, follows, and a
/// newline closes the row.
pub proof fn lemma_candidate_line_verdict(c: CandidateView)
    ensures
        (c.feasible == Some(true)) <==> candidate_line(c).take(4) == "  ✓ "@,
        (c.feasible == Some(false)) <==> candidate_line(c).take(4) == "  ✗ "@,
        (c.feasible is None) <==> candidate_line(c).take(4) == "  ? "@,
        candidate_line(c).subrange(4, 4 + pad_to(action_label(c.action), 30).len() as int) == pad_to(
            action_label(c.action),
            30,
        ),
        candidate_line(c).last() == '\n',
{
    reveal_strlit("  ✓ ");
    reveal_strlit("  ✗ ");
    reveal_strlit("  ? ");
    reveal_strlit("\n");
    reveal_strlit(" unscored\n");
    reveal_strlit(" not evaluated\n");
    reveal_strlit(")\n");
    assert(("  ✓ "@)[2] == '✓');
    assert(("  ✗ "@)[2] == '✗');
    assert(("  ? "@)[2] == '?');
    assert("  ✓ "@ != "  ✗ "@);
    assert("  ✓ "@ != "  ? "@);
    assert("  ✗ "@ != "  ? "@);
    let line = candidate_line(c);
    let name = pad_to(action_label(c.action), NAME_WIDTH as nat);
    let lead: Seq<char> = if c.feasible == Some(true) {
        "  ✓ "@
    } else if c.feasible == Some(false) {
        "  ✗ "@
    } else {
        "  ? "@
    };
    let rest: Seq<char> = line.skip(4 + name.len() as int);
    assert(line =~= lead + name + rest);
    assert(line.take(4) =~= lead);
    assert(line.subrange(4, 4 + name.len() as int) =~= name);
}

/// The lines of all candidates, in order.
pub open spec fn candidate_lines(cs: Seq<CandidateView>) -> Seq<char>
    decreases cs.len(),
{
    if cs.len() == 0 {
        Seq::empty()
    } else {
        candidate_lines(cs.drop_last()) + candidate_line(cs.last())
    }
}

/// The decision section: the chosen action with its score, confidence and
/// reason, or a note that the cycle holds.
pub open spec fn decision_lines(selected: Option<CandidateView>) -> Seq<char> {
    match selected {
        Some(c) => "  "@ + action_label(c.action) + " (score="@ + score_text(c.score->0)
            + ", confidence="@ + two_places(c.confidence as int) + ")\n"@ + match action_motive(
            c.action,
        ) {
            Some(reason) => "  reason: "@ + reason + "\n"@,
            None => Seq::empty(),
        },
        None => "  no feasible action — holding\n"@,
    }
}

/// The report of one decision cycle.
pub open spec fn cycle_report(
    cycle: u64,
    observation_count: usize,
    candidates: Seq<CandidateView>,
    selected: Option<CandidateView>,
) -> Seq<char> {
    "======================\nMELT DECISION CYCLE #"@ + decimal(cycle as nat)
        + "\n======================\n\n"@ + decimal(observation_count as nat)
        + " observations received\n\n"@ + "Candidates:\n"@ + candidate_lines(candidates)
        + "\nDecision:\n"@ + decision_lines(selected)
}

/// Whether `s` ends with `t`.
pub open spec fn ends_with(s: Seq<char>, t: Seq<char>) -> bool {
    t.len() <= s.len() && s.subrange(s.len() - t.len(), s.len() as int) == t
}

proof fn lemma_ends_with_suffix(head: Seq<char>, t: Seq<char>)
    ensures
        ends_with(head + t, t),
{
    assert((head + t).subrange(head.len() as int, (head + t).len() as int) =~= t);
}

/// The report of a cycle whose decision is an investigation ends with the
/// decision's confidence and then the investigation's reason, verbatim, on
/// a line of its own; when the decision is to hold, it ends with the
/// decision's confidence and no reason. Only holding has no reason.
#[verifier::spinoff_prover]
pub proof fn lemma_decision_shows_reason(
    cycle: u64,
    observation_count: usize,
    candidates: Seq<CandidateView>,
    c: CandidateView,
)
    ensures
        c.action is InvestigateWater ==> ends_with(
            cycle_report(cycle, observation_count, candidates, Some(c)),
            two_places(c.confidence as int) + ")\n"@ + "  reason: "@
                + c.action->InvestigateWater_reason + "\n"@,
        ),
        c.action is InvestigateSurvivorSignal ==> ends_with(
            cycle_report(cycle, observation_count, candidates, Some(c)),
            two_places(c.confidence as int) + ")\n"@ + "  reason: "@
                + c.action->InvestigateSurvivorSignal_reason + "\n"@,
        ),
        c.action is Hold ==> ends_with(
            cycle_report(cycle, observation_count, candidates, Some(c)),
            ", confidence="@ + two_places(c.confidence as int) + ")\n"@,
        ),
        action_motive(c.action) is None <==> c.action is Hold,
{
    let report = cycle_report(cycle, observation_count, candidates, Some(c));
    let before = "======================\nMELT DECISION CYCLE #"@ + decimal(cycle as nat)
        + "\n======================\n\n"@ + decimal(observation_count as nat)
        + " observations received\n\n"@ + "Candidates:\n"@ + candidate_lines(candidates)
        + "\nDecision:\n"@;
    let lead = "  "@ + action_label(c.action) + " (score="@ + score_text(c.score->0)
        + ", confidence="@;
    let conf = two_places(c.confidence as int) + ")\n"@;
    match c.action {
        ActionView::InvestigateWater { reason, .. } => {
            let tail = conf + "  reason: "@ + reason + "\n"@;
            assert(report =~= (before + lead) + tail);
            lemma_ends_with_suffix(before + lead, tail);
        },
        ActionView::InvestigateSurvivorSignal { reason, .. } => {
            let tail = conf + "  reason: "@ + reason + "\n"@;
            assert(report =~= (before + lead) + tail);
            lemma_ends_with_suffix(before + lead, tail);
        },
        ActionView::Hold => {
            let head = "  "@ + action_label(c.action) + " (score="@ + score_text(c.score->0);
            let tail = ", confidence="@ + conf;
            assert(report =~= (before + head) + tail);
            assert(tail =~= ", confidence="@ + two_places(c.confidence as int) + ")\n"@);
            lemma_ends_with_suffix(before + head, tail);
        },
    }
}

/// The view of an optional candidate.
pub open spec fn selected_view(selected: Option<&CandidateAction>) -> Option<CandidateView> {
    match selected {
        Some(c) => Some(c@),
        None => None,
    }
}

/// The report of one decision cycle: the candidates considered, each with
/// its verdict, and the decision taken (`cycle_report`).
pub fn render_cycle(
    cycle: u64,
    observation_count: usize,
    candidates: &[CandidateAction],
    selected: Option<&CandidateAction>,
) -> (out: String)
    requires
        selected matches Some(c) ==> c.score is Some,
    ensures
        out@ == cycle_report(
            cycle,
            observation_count,
            candidate_views(candidates@),
            selected_view(selected),
        ),
{
    let mut out = String::new();
    out.append("======================\nMELT DECISION CYCLE #");
    push_decimal(&mut out, cycle as u128);
    out.append("\n======================\n\n");
    push_decimal(&mut out, observation_count as u128);
    out.append(" observations received\n\n");
    out.append("Candidates:\n");
    let ghost head = out@;
    let ghost views = candidate_views(candidates@);
    let n = candidates.len();
    let mut i: usize = 0;
    assert(views.take(0) =~= Seq::<CandidateView>::empty());
    assert(out@ =~= head + candidate_lines(views.take(0)));
    while i < n
        invariant
            n == candidates@.len(),
            views == candidate_views(candidates@),
            i <= n,
            out@ == head + candidate_lines(views.take(i as int)),
        decreases n - i,
    {
        let candidate = &candidates[i];
        let ghost before = out@;
        let name = action_name(&candidate.action);
        match candidate.feasible {
            Some(true) => match candidate.score {
                Some(score) => {
                    out.append("  ✓ ");
                    push_padded(&mut out, name.as_str(), NAME_WIDTH);
                    out.append(" score=");
                    push_two_places_at(&mut out, score, (SCORE_SCALE / 100) as u128);
                    out.append("\n");
                },
                None => {
                    out.append("  ✓ ");
                    push_padded(&mut out, name.as_str(), NAME_WIDTH);
                    out.append(" unscored\n");
                },
            },
            Some(false) => {
                out.append("  ✗ ");
                push_padded(&mut out, name.as_str(), NAME_WIDTH);
                out.append(" infeasible (confidence=");
                push_two_places(&mut out, candidate.confidence);
                out.append(")\n");
            },
            None => {
                out.append("  ? ");
                push_padded(&mut out, name.as_str(), NAME_WIDTH);
                out.append(" not evaluated\n");
            },
        }
        proof {
            assert(views[i as int] == candidate@);
            assert(out@ =~= before + candidate_line(views[i as int]));
            assert(views.take(i + 1).drop_last() =~= views.take(i as int));
        }
        i = i + 1;
    }
    assert(views.take(n as int) =~= views);
    let ghost middle = out@;
    out.append("\nDecision:\n");
    match selected {
        Some(candidate) => {
            let ghost start = out@;
            let name = action_name(&candidate.action);
            out.append("  ");
            out.append(name.as_str());
            out.append(" (score=");
            let score = match candidate.score {
                Some(s) => s,
                None => 0,
            };
            push_two_places_at(&mut out, score, (SCORE_SCALE / 100) as u128);
            out.append(", confidence=");
            push_two_places(&mut out, candidate.confidence);
            out.append(")\n");
            let ghost shown = out@;
            match action_reason(&candidate.action) {
                Some(reason) => {
                    out.append("  reason: ");
                    out.append(reason);
                    out.append("\n");
                },
                None => {},
            }
            assert(out@ =~= start + decision_lines(selected_view(selected)));
        },
        None => {
            out.append("  no feasible action — holding\n");
        },
    }
    assert(out@ =~= cycle_report(
        cycle,
        observation_count,
        candidate_views(candidates@),
        selected_view(selected),
    ));
    out
}

/// The name of an action (`action_label`).
fn action_name(action: &Action) -> (s: String)
    ensures
        s@ == action_label(action@),
{
    match action {
        Action::InvestigateWater { source_id, .. } => {
            let mut s = String::from_str("InvestigateWater(");
            s.append(source_id.as_str());
            s.append(")");
            s
        },
        Action::InvestigateSurvivorSignal { source_id, .. } => {
            let mut s = String::from_str("InvestigateSurvivorSignal(");
            s.append(source_id.as_str());
            s.append(")");
            s
        },
        Action::Hold => String::from_str("Hold"),
    }
}

/// The reason an action was proposed (`action_motive`).
fn action_reason(action: &Action) -> (r: Option<&str>)
    ensures
        match r {
            Some(s) => action_motive(action@) == Some(s@),
            None => action_motive(action@) is None,
        },
{
    match action {
        Action::InvestigateWater { reason, .. } => Some(reason.as_str()),
        Action::InvestigateSurvivorSignal { reason, .. } => Some(reason.as_str()),
        Action::Hold => None,
    }
}

} // verus!
