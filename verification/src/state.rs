//! What was observed: the full history, and the latest reading per source.

use vstd::prelude::*;
use vstd::string::*;
use crate::action::{Action, ActionView, CandidateAction, CandidateView};
use crate::observation::{Observation, ObservationPayload};
use crate::text::{push_two_places, two_places, SCALE};

verus! {

/// `a` comes strictly before `b` in the order of `String`: character by
/// character, by code point, a proper prefix first.
pub open spec fn precedes(a: Seq<char>, b: Seq<char>) -> bool
    decreases a.len(),
{
    if a.len() == 0 {
        b.len() > 0
    } else if b.len() == 0 {
        false
    } else if a[0] != b[0] {
        a[0] < b[0]
    } else {
        precedes(a.drop_first(), b.drop_first())
    }
}

/// No text precedes itself.
pub proof fn lemma_precedes_irreflexive(a: Seq<char>)
    ensures
        !precedes(a, a),
    decreases a.len(),
{
    if a.len() > 0 {
        lemma_precedes_irreflexive(a.drop_first());
    }
}

/// The order of texts is transitive.
pub proof fn lemma_precedes_transitive(a: Seq<char>, b: Seq<char>, c: Seq<char>)
    requires
        precedes(a, b),
        precedes(b, c),
    ensures
        precedes(a, c),
    decreases a.len(),
{
    if a.len() > 0 && b.len() > 0 && c.len() > 0 && a[0] == b[0] && b[0] == c[0] {
        lemma_precedes_transitive(a.drop_first(), b.drop_first(), c.drop_first());
    }
}

/// Two different texts are ordered one way or the other.
pub proof fn lemma_precedes_total(a: Seq<char>, b: Seq<char>)
    requires
        a != b,
    ensures
        precedes(a, b) || precedes(b, a),
    decreases a.len(),
{
    if a.len() == 0 && b.len() == 0 {
        assert(a =~= b);
    } else if a.len() > 0 && b.len() > 0 {
        if a[0] == b[0] {
            if a.drop_first() == b.drop_first() {
                assert(a =~= seq![a[0]] + a.drop_first());
                assert(b =~= seq![b[0]] + b.drop_first());
            }
            lemma_precedes_total(a.drop_first(), b.drop_first());
        } else {
        }
    }
}

/// Whether `a` comes strictly before `b` (`precedes`).
pub fn text_precedes(a: &str, b: &str) -> (r: bool)
    ensures
        r == precedes(a@, b@),
{
    let la = a.unicode_len();
    let lb = b.unicode_len();
    let mut i: usize = 0;
    assert(a@.skip(0) =~= a@);
    assert(b@.skip(0) =~= b@);
    while i < la && i < lb
        invariant
            la == a@.len(),
            lb == b@.len(),
            i <= la,
            i <= lb,
            precedes(a@, b@) == precedes(a@.skip(i as int), b@.skip(i as int)),
        decreases la - i,
    {
        let ca = a.get_char(i);
        let cb = b.get_char(i);
        if ca != cb {
            return ca < cb;
        }
        assert(a@.skip(i as int).drop_first() =~= a@.skip(i + 1));
        assert(b@.skip(i as int).drop_first() =~= b@.skip(i + 1));
        i = i + 1;
    }
    i == la && i < lb
}

/// Readings in strictly increasing order of source: no source twice.
pub open spec fn sorted_by_source(l: Seq<Observation>) -> bool {
    forall|i: int, j: int|
        0 <= i < j < l.len() ==> precedes(#[trigger] l[i].source_id@, #[trigger] l[j].source_id@)
}

/// Whether some reading in `l` comes from `source`.
pub open spec fn has_source(l: Seq<Observation>, source: Seq<char>) -> bool {
    exists|i: int| 0 <= i < l.len() && #[trigger] l[i].source_id@ == source
}

/// The readings of `l` keyed by their source.
pub open spec fn by_source(l: Seq<Observation>) -> Map<Seq<char>, Observation> {
    Map::new(
        |k: Seq<char>| has_source(l, k),
        |k: Seq<char>| l[source_index(l, k)],
    )
}

/// An index of a reading of `source` in `l`, when there is one.
pub open spec fn source_index(l: Seq<Observation>, source: Seq<char>) -> int {
    choose|i: int| 0 <= i < l.len() && #[trigger] l[i].source_id@ == source
}

/// The last reading of each source in a history.
pub open spec fn last_by_source(h: Seq<Observation>) -> Map<Seq<char>, Observation>
    decreases h.len(),
{
    if h.len() == 0 {
        Map::empty()
    } else {
        last_by_source(h.drop_last()).insert(h.last().source_id@, h.last())
    }
}

/// In a sorted list, a source is found at its one index, and the reading
/// keyed by it is the one there.
proof fn lemma_by_source_at(l: Seq<Observation>, i: int)
    requires
        sorted_by_source(l),
        0 <= i < l.len(),
    ensures
        has_source(l, l[i].source_id@),
        source_index(l, l[i].source_id@) == i,
        by_source(l).contains_key(l[i].source_id@),
        by_source(l)[l[i].source_id@] == l[i],
{
    let k = l[i].source_id@;
    assert(has_source(l, k));
    let j = source_index(l, k);
    if j < i {
        assert(precedes(l[j].source_id@, l[i].source_id@));
        lemma_precedes_irreflexive(k);
    } else if i < j {
        assert(precedes(l[i].source_id@, l[j].source_id@));
        lemma_precedes_irreflexive(k);
    }
}

/// The least confidence (0.80) at which a reading calls for a candidate.
pub const CANDIDATE_CONFIDENCE: i64 = 8000;

/// The spectral anomaly or turbidity (0.70) above which water is anomalous.
pub const WATER_THRESHOLD: i64 = 7000;

/// The survivor-signal strength (0.75) above which a signal is worth investigating.
pub const SIGNAL_THRESHOLD: i64 = 7500;

/// Whether a water reading is anomalous: spectral anomaly or turbidity above 0.70.
pub open spec fn water_anomalous(turbidity: i64, spectral_anomaly: i64) -> bool {
    spectral_anomaly > WATER_THRESHOLD || turbidity > WATER_THRESHOLD
}

/// The reason given for investigating a water reading.
pub open spec fn water_reason(spectral_anomaly: i64, turbidity: i64) -> Seq<char> {
    "water anomaly detected: spectral="@ + two_places(spectral_anomaly as int) + ", turbidity="@
        + two_places(turbidity as int)
}

/// The reason given for investigating a survivor signal.
pub open spec fn survivor_reason(strength: i64) -> Seq<char> {
    "survivor signal detected: strength="@ + two_places(strength as int)
}

/// The candidate that one latest reading calls for, if any: a water reading
/// with confidence at least 0.80 and spectral anomaly or turbidity above
/// 0.70, or a survivor signal with confidence at least 0.80 and strength
/// above 0.75.
pub open spec fn candidate_for(o: Observation) -> Option<CandidateView> {
    match o.payload {
        ObservationPayload::WaterReading { spectral_anomaly, turbidity, .. } => {
            if o.confidence >= CANDIDATE_CONFIDENCE && water_anomalous(turbidity, spectral_anomaly) {
                Some(
                    CandidateView {
                        action: ActionView::InvestigateWater {
                            source_id: o.source_id@,
                            reason: water_reason(spectral_anomaly, turbidity),
                        },
                        confidence: o.confidence,
                        score: None,
                        feasible: None,
                    },
                )
            } else {
                None
            }
        },
        ObservationPayload::SurvivorSignal { strength } => {
            if o.confidence >= CANDIDATE_CONFIDENCE && strength > SIGNAL_THRESHOLD {
                Some(
                    CandidateView {
                        action: ActionView::InvestigateSurvivorSignal {
                            source_id: o.source_id@,
                            reason: survivor_reason(strength),
                        },
                        confidence: o.confidence,
                        score: None,
                        feasible: None,
                    },
                )
            } else {
                None
            }
        },
        _ => None,
    }
}

/// `candidate_for` as a function value.
pub open spec fn candidate_rule() -> spec_fn(Observation) -> Option<CandidateView> {
    |o: Observation| candidate_for(o)
}

/// The text of `water_reason`.
fn water_reason_text(spectral_anomaly: i64, turbidity: i64) -> (s: String)
    ensures
        s@ == water_reason(spectral_anomaly, turbidity),
{
    let mut s = String::from_str("water anomaly detected: spectral=");
    push_two_places(&mut s, spectral_anomaly);
    s.append(", turbidity=");
    push_two_places(&mut s, turbidity);
    s
}

/// The text of `survivor_reason`.
fn survivor_reason_text(strength: i64) -> (s: String)
    ensures
        s@ == survivor_reason(strength),
{
    let mut s = String::from_str("survivor signal detected: strength=");
    push_two_places(&mut s, strength);
    s
}

/// The candidate to hold, at full confidence.
pub open spec fn hold_candidate() -> CandidateView {
    CandidateView { action: ActionView::Hold, confidence: SCALE, score: None, feasible: None }
}

/// The candidates that the latest readings call for, in order of source;
/// holding when none does.
pub open spec fn derived_candidates(latest: Seq<Observation>) -> Seq<CandidateView> {
    let found = latest.filter_map(candidate_rule());
    if found.len() == 0 {
        seq![hold_candidate()]
    } else {
        found
    }
}

/// There is always a candidate: holding is proposed exactly when no latest
/// reading calls for an investigation.
pub proof fn lemma_always_a_candidate(latest: Seq<Observation>)
    ensures
        derived_candidates(latest).len() >= 1,
        (forall|i: int| 0 <= i < latest.len() ==> candidate_for(#[trigger] latest[i]) is None)
            ==> derived_candidates(latest) == seq![hold_candidate()],
        (exists|i: int| 0 <= i < latest.len() && candidate_for(#[trigger] latest[i]) is Some)
            ==> forall|j: int|
            0 <= j < derived_candidates(latest).len() ==> !(#[trigger] derived_candidates(
                latest,
            )[j].action is Hold),
{
    lemma_nothing_found(latest);
    let found = latest.filter_map(candidate_rule());
    if exists|i: int| 0 <= i < latest.len() && candidate_for(#[trigger] latest[i]) is Some {
        assert forall|j: int| 0 <= j < found.len() implies !(#[trigger] found[j].action is Hold) by {
            assert(found.contains(found[j]));
            latest.lemma_filter_map_contains(candidate_rule(), found[j]);
        }
    }
}

/// No candidate is found exactly when no reading calls for one.
proof fn lemma_nothing_found(l: Seq<Observation>)
    ensures
        (l.filter_map(candidate_rule()).len() == 0) <==> (forall|i: int|
            0 <= i < l.len() ==> candidate_for(#[trigger] l[i]) is None),
    decreases l.len(),
{
    if l.len() > 0 {
        lemma_nothing_found(l.drop_last());
        if l.filter_map(candidate_rule()).len() == 0 {
            assert forall|i: int| 0 <= i < l.len() implies candidate_for(#[trigger] l[i]) is None by {
                if i < l.len() - 1 {
                    assert(l.drop_last()[i] == l[i]);
                }
            }
        }
        if forall|i: int| 0 <= i < l.len() ==> candidate_for(#[trigger] l[i]) is None {
            assert forall|i: int| 0 <= i < l.drop_last().len() implies candidate_for(
                #[trigger] l.drop_last()[i],
            ) is None by {
                assert(l.drop_last()[i] == l[i]);
            }
            assert(candidate_for(l[l.len() - 1]) is None);
        }
    }
}

/// An element that `f` keeps appears among the results of `filter_map`.
pub proof fn lemma_filter_map_keeps<A, B>(l: Seq<A>, f: spec_fn(A) -> Option<B>, i: int)
    requires
        0 <= i < l.len(),
        f(l[i]) is Some,
    ensures
        l.filter_map(f).contains(f(l[i])->0),
    decreases l.len(),
{
    let v = f(l[i])->0;
    let r = l.drop_last().filter_map(f);
    if i == l.len() - 1 {
        assert(l.filter_map(f) == r + seq![v]);
        assert((r + seq![v])[r.len() as int] == v);
    } else {
        assert(l.drop_last()[i] == l[i]);
        lemma_filter_map_keeps(l.drop_last(), f, i);
        let k = choose|k: int| 0 <= k < r.len() && r[k] == v;
        match f(l.last()) {
            Some(w) => {
                assert(l.filter_map(f) == r + seq![w]);
                assert((r + seq![w])[k] == v);
            },
            None => {
                assert(l.filter_map(f) == r);
            },
        }
    }
}

/// `filter_map` keeps nothing when `f` keeps no element.
pub proof fn lemma_filter_map_none<A, B>(l: Seq<A>, f: spec_fn(A) -> Option<B>)
    requires
        forall|i: int| 0 <= i < l.len() ==> f(#[trigger] l[i]) is None,
    ensures
        l.filter_map(f).len() == 0,
    decreases l.len(),
{
    if l.len() > 0 {
        assert forall|i: int| 0 <= i < l.drop_last().len() implies f(#[trigger] l.drop_last()[i])
            is None by {
            assert(l.drop_last()[i] == l[i]);
        }
        lemma_filter_map_none(l.drop_last(), f);
        assert(f(l[l.len() - 1]) is None);
    }
}

/// Whether a latest reading is one that calls for an investigation: read
/// with confidence at least 0.80, and either water with spectral anomaly
/// or turbidity above 0.70, or a survivor signal stronger than 0.75.
pub open spec fn calls_for_investigation(o: Observation) -> bool {
    &&& o.confidence >= 8000
    &&& {
        ||| o.payload matches ObservationPayload::WaterReading { turbidity, spectral_anomaly, .. }
            && (turbidity > 7000 || spectral_anomaly > 7000)
        ||| o.payload matches ObservationPayload::SurvivorSignal { strength } && strength > 7500
    }
}

/// Whether candidate `c` is an investigation of reading `o`: of its water
/// if it is a water reading, of its signal if it is a survivor signal,
/// naming its source and carrying its confidence, neither checked nor scored.
pub open spec fn investigates(c: CandidateView, o: Observation) -> bool {
    &&& c.confidence == o.confidence
    &&& c.score is None
    &&& c.feasible is None
    &&& (o.payload is WaterReading ==> (c.action matches ActionView::InvestigateWater {
        source_id,
        ..
    } && source_id == o.source_id@))
    &&& (o.payload is SurvivorSignal ==> (c.action matches ActionView::InvestigateSurvivorSignal {
        source_id,
        ..
    } && source_id == o.source_id@))
}

/// One reading calls for a candidate exactly when it calls for an
/// investigation, and the candidate investigates that reading.
pub proof fn lemma_candidate_for_reading(o: Observation)
    ensures
        candidate_for(o) is Some <==> calls_for_investigation(o),
        candidate_for(o) matches Some(c) ==> investigates(c, o) && !(c.action is Hold),
{
}

/// The derived candidates: each investigation investigates a latest reading
/// that calls for one, read with confidence at least 0.80; each latest
/// reading that calls for one is investigated; and holding (at full
/// confidence) is proposed alone, exactly when no latest reading calls for
/// an investigation.
pub proof fn lemma_derived_candidates_meaning(latest: Seq<Observation>)
    ensures
        forall|j: int|
            0 <= j < derived_candidates(latest).len() && !(#[trigger] derived_candidates(
                latest,
            )[j].action is Hold) ==> derived_candidates(latest)[j].confidence >= 8000
                && exists|i: int|
                0 <= i < latest.len() && calls_for_investigation(#[trigger] latest[i])
                    && investigates(derived_candidates(latest)[j], latest[i]),
        forall|i: int|
            0 <= i < latest.len() && calls_for_investigation(#[trigger] latest[i]) ==> exists|
                j: int,
            |
                0 <= j < derived_candidates(latest).len() && investigates(
                    #[trigger] derived_candidates(latest)[j],
                    latest[i],
                ),
        (forall|i: int| 0 <= i < latest.len() ==> !calls_for_investigation(#[trigger] latest[i]))
            <==> (derived_candidates(latest).len() == 1 && derived_candidates(latest)[0].action is Hold),
        derived_candidates(latest).len() == 1 && derived_candidates(latest)[0].action is Hold
            ==> derived_candidates(latest)[0].confidence == 10000
            && derived_candidates(latest)[0].score is None
            && derived_candidates(latest)[0].feasible is None,
{
    let d = derived_candidates(latest);
    let found = latest.filter_map(candidate_rule());
    assert forall|i: int| 0 <= i < latest.len() implies (candidate_for(#[trigger] latest[i]) is Some
        <==> calls_for_investigation(latest[i])) by {
        lemma_candidate_for_reading(latest[i]);
    }
    assert forall|j: int| 0 <= j < found.len() implies !(#[trigger] found[j].action is Hold) && exists|
        i: int,
    | 0 <= i < latest.len() && calls_for_investigation(#[trigger] latest[i]) && investigates(
        found[j],
        latest[i],
    ) by {
        assert(found.contains(found[j]));
        latest.lemma_filter_map_contains(candidate_rule(), found[j]);
        let t = choose|t: Observation| latest.contains(t) && candidate_rule()(t) == Some(found[j]);
        let i = choose|i: int| 0 <= i < latest.len() && latest[i] == t;
        lemma_candidate_for_reading(t);
    }
    if found.len() == 0 {
        assert forall|i: int| 0 <= i < latest.len() implies !calls_for_investigation(
            #[trigger] latest[i],
        ) by {
            if calls_for_investigation(latest[i]) {
                lemma_filter_map_keeps(latest, candidate_rule(), i);
            }
        }
    } else {
        assert(d == found);
        assert(!(found[0].action is Hold));
    }
    if forall|i: int| 0 <= i < latest.len() ==> !calls_for_investigation(#[trigger] latest[i]) {
        lemma_filter_map_none(latest, candidate_rule());
    }
    assert forall|i: int| 0 <= i < latest.len() && calls_for_investigation(
        #[trigger] latest[i],
    ) implies exists|j: int| 0 <= j < d.len() && investigates(#[trigger] d[j], latest[i]) by {
        lemma_filter_map_keeps(latest, candidate_rule(), i);
        lemma_candidate_for_reading(latest[i]);
        let c = candidate_for(latest[i])->0;
        let j = choose|j: int| 0 <= j < found.len() && found[j] == c;
        assert(d == found);
        assert(investigates(d[j], latest[i]));
    }
}

/// The views of a list of candidates.
pub open spec fn candidate_views(v: Seq<CandidateAction>) -> Seq<CandidateView> {
    v.map_values(|c: CandidateAction| c@)
}

/// Full observation history, plus the latest reading per source, kept in
/// order of source.
#[derive(Debug)]
pub struct WorldState {
    pub history: Vec<Observation>,
    pub latest: Vec<Observation>,
}

impl WorldState {
    /// `latest` is in order of source and holds the last reading of each
    /// source in `history`.
    pub open spec fn wf(&self) -> bool {
        &&& sorted_by_source(self.latest@)
        &&& by_source(self.latest@) == last_by_source(self.history@)
    }

    pub fn new() -> (w: Self)
        ensures
            w.wf(),
            w.history@ == Seq::<Observation>::empty(),
            w.latest@ == Seq::<Observation>::empty(),
    {
        let w = WorldState { latest: Vec::new(), history: Vec::new() };
        assert(by_source(w.latest@) =~= last_by_source(w.history@));
        w
    }

    /// Appends `observation` to the history and makes it the latest reading
    /// of its source.
    pub fn update(&mut self, observation: Observation)
        requires
            sorted_by_source(old(self).latest@),
        ensures
            final(self).history@ == old(self).history@.push(observation),
            sorted_by_source(final(self).latest@),
            by_source(final(self).latest@) == by_source(old(self).latest@).insert(
                observation.source_id@,
                observation,
            ),
            old(self).wf() ==> final(self).wf(),
            final(self).latest@ == with_reading(old(self).latest@, observation),
    {
        let ghost old_latest = self.latest@;
        let ghost key = observation.source_id@;
        proof {
            lemma_last_by_source_push(old(self).history@, observation);
        }
        self.history.push(observation.clone());
        let n = self.latest.len();
        let mut i: usize = 0;
        while i < n
            invariant
                n == self.latest.len(),
                self.latest@ == old_latest,
                old_latest == old(self).latest@,
                last_by_source(old(self).history@.push(observation)) == last_by_source(
                    old(self).history@,
                ).insert(key, observation),
                self.history@ == old(self).history@.push(observation),
                sorted_by_source(old_latest),
                key == observation.source_id@,
                i <= n,
                forall|j: int| 0 <= j < i ==> precedes(#[trigger] old_latest[j].source_id@, key),
            decreases n - i,
        {
            if self.latest[i].source_id == observation.source_id {
                self.latest.set(i, observation);
                proof {
                    lemma_replace_keeps_order(old_latest, i as int, observation);
                    lemma_by_source_at(old_latest, i as int);
                }
                return;
            }
            if text_precedes(observation.source_id.as_str(), self.latest[i].source_id.as_str()) {
                self.latest.insert(i, observation);
                proof {
                    lemma_insert_keeps_order(old_latest, i as int, observation);
                    lemma_insertion_point_unique(old_latest, key, i as int);
                }
                return;
            }
            proof {
                lemma_precedes_total(old_latest[i as int].source_id@, key);
            }
            i = i + 1;
        }
        self.latest.push(observation);
        proof {
            assert(old_latest.push(observation) =~= old_latest.insert(n as int, observation));
            lemma_insert_keeps_order(old_latest, n as int, observation);
            lemma_insertion_point_unique(old_latest, key, n as int);
        }
    }

    /// The candidates that the latest readings call for, in order of source:
    /// an investigation of each anomalous water reading and of each strong
    /// survivor signal read with enough confidence; holding when there is none.
    pub fn derive_candidates(&self) -> (actions: Vec<CandidateAction>)
        ensures
            candidate_views(actions@) == derived_candidates(self.latest@),
    {
        let mut actions: Vec<CandidateAction> = Vec::new();
        let n = self.latest.len();
        let mut i: usize = 0;
        assert(self.latest@.take(0) =~= Seq::<Observation>::empty());
        assert(candidate_views(actions@) =~= Seq::<CandidateView>::empty());
        while i < n
            invariant
                n == self.latest.len(),
                i <= n,
                candidate_views(actions@) == self.latest@.take(i as int).filter_map(candidate_rule()),
            decreases n - i,
        {
            let observation = &self.latest[i];
            let ghost before = actions@;
            match &observation.payload {
                ObservationPayload::WaterReading { spectral_anomaly, turbidity, .. } => {
                    if observation.confidence >= CANDIDATE_CONFIDENCE && (*spectral_anomaly
                        > WATER_THRESHOLD || *turbidity > WATER_THRESHOLD) {
                        actions.push(
                            CandidateAction {
                                action: Action::InvestigateWater {
                                    source_id: observation.source_id.clone(),
                                    reason: water_reason_text(*spectral_anomaly, *turbidity),
                                },
                                confidence: observation.confidence,
                                score: None,
                                feasible: None,
                            },
                        );
                    }
                },
                ObservationPayload::SurvivorSignal { strength } => {
                    if observation.confidence >= CANDIDATE_CONFIDENCE && *strength
                        > SIGNAL_THRESHOLD {
                        actions.push(
                            CandidateAction {
                                action: Action::InvestigateSurvivorSignal {
                                    source_id: observation.source_id.clone(),
                                    reason: survivor_reason_text(*strength),
                                },
                                confidence: observation.confidence,
                                score: None,
                                feasible: None,
                            },
                        );
                    }
                },
                _ => {},
            }
            proof {
                self.latest@.lemma_filter_map_take_succ(candidate_rule(), i as int);
                if actions@.len() > before.len() {
                    assert(candidate_views(actions@) =~= candidate_views(before).push(
                        actions@.last()@,
                    ));
                } else {
                    assert(actions@ == before);
                }
            }
            i = i + 1;
        }
        assert(self.latest@.take(n as int) =~= self.latest@);
        if actions.len() == 0 {
            actions.push(
                CandidateAction { action: Action::Hold, confidence: SCALE, score: None, feasible: None },
            );
            assert(candidate_views(actions@) =~= seq![hold_candidate()]);
        }
        actions
    }
}

/// Where a reading of a new source goes in a sorted list: after every
/// source that precedes it and before every other.
pub open spec fn fits_at(l: Seq<Observation>, source: Seq<char>, p: int) -> bool {
    &&& 0 <= p <= l.len()
    &&& forall|j: int| 0 <= j < p ==> precedes(#[trigger] l[j].source_id@, source)
    &&& forall|j: int| p <= j < l.len() ==> precedes(source, #[trigger] l[j].source_id@)
}

/// The place of a new source in a sorted list (`fits_at`).
pub open spec fn insertion_point(l: Seq<Observation>, source: Seq<char>) -> int {
    choose|p: int| fits_at(l, source, p)
}

/// The latest readings, in order of source, after `o` arrives: it replaces
/// the reading of its source, or takes its place among the sources.
pub open spec fn with_reading(l: Seq<Observation>, o: Observation) -> Seq<Observation> {
    if has_source(l, o.source_id@) {
        l.update(source_index(l, o.source_id@), o)
    } else {
        l.insert(insertion_point(l, o.source_id@), o)
    }
}

/// A new source has one place in a sorted list, and it is not in the list.
proof fn lemma_insertion_point_unique(l: Seq<Observation>, source: Seq<char>, p: int)
    requires
        fits_at(l, source, p),
    ensures
        insertion_point(l, source) == p,
        !has_source(l, source),
{
    let q = insertion_point(l, source);
    if q < p {
        assert(precedes(l[q].source_id@, source));
        assert(precedes(source, l[q].source_id@));
        lemma_precedes_transitive(source, l[q].source_id@, source);
        lemma_precedes_irreflexive(source);
    } else if p < q {
        assert(precedes(l[p].source_id@, source));
        assert(precedes(source, l[p].source_id@));
        lemma_precedes_transitive(source, l[p].source_id@, source);
        lemma_precedes_irreflexive(source);
    }
    if has_source(l, source) {
        let j = source_index(l, source);
        lemma_precedes_irreflexive(source);
        if j < p {
            assert(precedes(l[j].source_id@, source));
        } else {
            assert(precedes(source, l[j].source_id@));
        }
    }
}

/// A source not in a sorted list has a place in it.
proof fn lemma_insertion_point_exists(l: Seq<Observation>, source: Seq<char>)
    requires
        sorted_by_source(l),
        !has_source(l, source),
    ensures
        exists|p: int| fits_at(l, source, p),
    decreases l.len(),
{
    if l.len() == 0 {
        assert(fits_at(l, source, 0));
    } else {
        let rest = l.drop_last();
        let last = l.last().source_id@;
        assert(sorted_by_source(rest)) by {
            assert forall|i: int, j: int| 0 <= i < j < rest.len() implies precedes(
                #[trigger] rest[i].source_id@,
                #[trigger] rest[j].source_id@,
            ) by {
                assert(precedes(l[i].source_id@, l[j].source_id@));
            }
        }
        assert(!has_source(rest, source)) by {
            if has_source(rest, source) {
                let j = source_index(rest, source);
                assert(l[j].source_id@ == source);
            }
        }
        lemma_insertion_point_exists(rest, source);
        let p = choose|p: int| fits_at(rest, source, p);
        assert(l[l.len() - 1].source_id@ != source);
        lemma_precedes_total(last, source);
        if precedes(last, source) {
            assert forall|j: int| 0 <= j < l.len() implies precedes(
                #[trigger] l[j].source_id@,
                source,
            ) by {
                if j < l.len() - 1 {
                    assert(precedes(l[j].source_id@, l[l.len() - 1].source_id@));
                    lemma_precedes_transitive(l[j].source_id@, last, source);
                }
            }
            assert(fits_at(l, source, l.len() as int));
        } else {
            assert forall|j: int| 0 <= j < p implies precedes(#[trigger] l[j].source_id@, source) by {
                assert(rest[j] == l[j]);
            }
            assert forall|j: int| p <= j < l.len() implies precedes(
                source,
                #[trigger] l[j].source_id@,
            ) by {
                if j < l.len() - 1 {
                    assert(rest[j] == l[j]);
                }
            }
            assert(fits_at(l, source, p));
        }
    }
}

/// Inserting a reading that calls for no candidate leaves the candidates
/// found in a list unchanged.
proof fn lemma_filter_map_skips_insert(l: Seq<Observation>, p: int, o: Observation)
    requires
        0 <= p <= l.len(),
        candidate_for(o) is None,
    ensures
        l.insert(p, o).filter_map(candidate_rule()) == l.filter_map(candidate_rule()),
    decreases l.len(),
{
    let m = l.insert(p, o);
    if p == l.len() {
        assert(m.drop_last() =~= l);
    } else {
        assert(m.drop_last() =~= l.drop_last().insert(p, o));
        assert(m.last() == l.last());
        lemma_filter_map_skips_insert(l.drop_last(), p, o);
    }
}

/// A reading from a new source whose kind candidate generation does not
/// consume (or that does not clear its thresholds) leaves the candidates
/// unchanged.
pub proof fn lemma_unconsumed_reading_changes_no_candidate(l: Seq<Observation>, o: Observation)
    requires
        sorted_by_source(l),
        !has_source(l, o.source_id@),
        candidate_for(o) is None,
    ensures
        derived_candidates(with_reading(l, o)) == derived_candidates(l),
{
    lemma_insertion_point_exists(l, o.source_id@);
    let p = choose|p: int| fits_at(l, o.source_id@, p);
    lemma_insertion_point_unique(l, o.source_id@, p);
    lemma_filter_map_skips_insert(l, p, o);
}

/// The latest readings, in order of source, after a series of readings
/// arrives one after another.
pub open spec fn with_readings(l: Seq<Observation>, os: Seq<Observation>) -> Seq<Observation>
    decreases os.len(),
{
    if os.len() == 0 {
        l
    } else {
        with_reading(with_readings(l, os.drop_last()), os.last())
    }
}

/// A reading keeps a list in order of source, and adds its source to the
/// list's sources.
pub proof fn lemma_with_reading_keeps_order(l: Seq<Observation>, o: Observation)
    requires
        sorted_by_source(l),
    ensures
        sorted_by_source(with_reading(l, o)),
        forall|k: Seq<char>|
            has_source(with_reading(l, o), k) <==> (has_source(l, k) || k == o.source_id@),
{
    let m = with_reading(l, o);
    if has_source(l, o.source_id@) {
        let i = source_index(l, o.source_id@);
        lemma_replace_keeps_order(l, i, o);
    } else {
        lemma_insertion_point_exists(l, o.source_id@);
        let p = choose|p: int| fits_at(l, o.source_id@, p);
        lemma_insertion_point_unique(l, o.source_id@, p);
        lemma_insert_keeps_order(l, p, o);
    }
    assert forall|k: Seq<char>| has_source(m, k) <==> (has_source(l, k) || k == o.source_id@) by {
        assert(by_source(m).contains_key(k) == has_source(m, k));
        assert(by_source(l).contains_key(k) == has_source(l, k));
    }
}

/// Further readings from new, distinct sources that call for no candidate
/// (among them every weather, Wi-Fi, power-grid or field report) leave the
/// candidates unchanged, however many arrive.
pub proof fn lemma_unconsumed_readings_change_no_candidate(l: Seq<Observation>, os: Seq<Observation>)
    requires
        sorted_by_source(l),
        forall|i: int| 0 <= i < os.len() ==> candidate_for(#[trigger] os[i]) is None,
        forall|i: int| 0 <= i < os.len() ==> !has_source(l, (#[trigger] os[i]).source_id@),
        forall|i: int, j: int|
            0 <= i < j < os.len() ==> (#[trigger] os[i]).source_id@ != (#[trigger] os[j]).source_id@,
    ensures
        derived_candidates(with_readings(l, os)) == derived_candidates(l),
        sorted_by_source(with_readings(l, os)),
        forall|k: Seq<char>|
            has_source(with_readings(l, os), k) ==> (has_source(l, k) || exists|i: int|
                0 <= i < os.len() && (#[trigger] os[i]).source_id@ == k),
    decreases os.len(),
{
    if os.len() > 0 {
        let prev = os.drop_last();
        let o = os.last();
        assert forall|i: int| 0 <= i < prev.len() implies candidate_for(#[trigger] prev[i]) is None by {
            assert(prev[i] == os[i]);
        }
        assert forall|i: int| 0 <= i < prev.len() implies !has_source(
            l,
            (#[trigger] prev[i]).source_id@,
        ) by {
            assert(prev[i] == os[i]);
        }
        assert forall|i: int, j: int| 0 <= i < j < prev.len() implies (#[trigger] prev[i]).source_id@
            != (#[trigger] prev[j]).source_id@ by {
            assert(prev[i] == os[i]);
            assert(prev[j] == os[j]);
        }
        lemma_unconsumed_readings_change_no_candidate(l, prev);
        let current = with_readings(l, prev);
        assert(candidate_for(os[os.len() - 1]) is None);
        assert(!has_source(l, os[os.len() - 1].source_id@));
        assert(!has_source(current, o.source_id@)) by {
            if has_source(current, o.source_id@) {
                if !has_source(l, o.source_id@) {
                    let i = choose|i: int| 0 <= i < prev.len() && (#[trigger] prev[i]).source_id@
                        == o.source_id@;
                    assert(prev[i] == os[i]);
                    assert(os[i].source_id@ != os[os.len() - 1].source_id@);
                }
            }
        }
        lemma_unconsumed_reading_changes_no_candidate(current, o);
        lemma_with_reading_keeps_order(current, o);
        assert(with_readings(l, os) == with_reading(current, o));
        assert forall|k: Seq<char>| has_source(with_readings(l, os), k) implies (has_source(l, k)
            || exists|i: int| 0 <= i < os.len() && (#[trigger] os[i]).source_id@ == k) by {
            if has_source(current, k) && !has_source(l, k) {
                let i = choose|i: int| 0 <= i < prev.len() && (#[trigger] prev[i]).source_id@ == k;
                assert(os[i] == prev[i]);
            }
            if k == o.source_id@ {
                assert(os[os.len() - 1].source_id@ == k);
            }
        }
    }
}

/// Adding a reading to a history makes it the last of its source.
proof fn lemma_last_by_source_push(h: Seq<Observation>, o: Observation)
    ensures
        last_by_source(h.push(o)) == last_by_source(h).insert(o.source_id@, o),
{
    assert(h.push(o).drop_last() =~= h);
}

/// Replacing the reading of a source in a sorted list keeps the order and
/// rekeys that source.
proof fn lemma_replace_keeps_order(l: Seq<Observation>, p: int, o: Observation)
    requires
        sorted_by_source(l),
        0 <= p < l.len(),
        l[p].source_id@ == o.source_id@,
    ensures
        sorted_by_source(l.update(p, o)),
        by_source(l.update(p, o)) == by_source(l).insert(o.source_id@, o),
{
    let m = l.update(p, o);
    assert forall|i: int| 0 <= i < m.len() implies #[trigger] m[i].source_id@ == l[i].source_id@ by {}
    assert(sorted_by_source(m)) by {
        assert forall|i: int, j: int| 0 <= i < j < m.len() implies precedes(
            #[trigger] m[i].source_id@,
            #[trigger] m[j].source_id@,
        ) by {
            assert(m[i].source_id@ == l[i].source_id@);
            assert(m[j].source_id@ == l[j].source_id@);
        }
    }
    let target = by_source(l).insert(o.source_id@, o);
    assert forall|k: Seq<char>| #[trigger] by_source(m).contains_key(k) <==> target.contains_key(k) by {
        if has_source(m, k) {
            let i = choose|i: int| 0 <= i < m.len() && #[trigger] m[i].source_id@ == k;
            assert(l[i].source_id@ == k);
        }
        if has_source(l, k) {
            let i = choose|i: int| 0 <= i < l.len() && #[trigger] l[i].source_id@ == k;
            assert(m[i].source_id@ == k);
        }
        if k == o.source_id@ {
            assert(m[p].source_id@ == k);
        }
    }
    assert forall|k: Seq<char>| #[trigger] by_source(m).contains_key(k) implies by_source(m)[k]
        == target[k] by {
        let i = choose|i: int| 0 <= i < m.len() && #[trigger] m[i].source_id@ == k;
        lemma_by_source_at(m, i);
        if i != p {
            assert(l[i].source_id@ == k);
            lemma_by_source_at(l, i);
            if k == o.source_id@ {
                assert(m[p].source_id@ == k);
                lemma_by_source_at(m, p);
            }
        }
    }
    assert(by_source(m) =~= target);
}

/// Inserting a reading of a new source at its place in a sorted list keeps
/// the order and adds that source.
proof fn lemma_insert_keeps_order(l: Seq<Observation>, p: int, o: Observation)
    requires
        sorted_by_source(l),
        0 <= p <= l.len(),
        forall|j: int| 0 <= j < p ==> precedes(#[trigger] l[j].source_id@, o.source_id@),
        p < l.len() ==> precedes(o.source_id@, l[p].source_id@),
    ensures
        sorted_by_source(l.insert(p, o)),
        by_source(l.insert(p, o)) == by_source(l).insert(o.source_id@, o),
        fits_at(l, o.source_id@, p),
{
    let m = l.insert(p, o);
    let key = o.source_id@;
    assert forall|j: int| p <= j < l.len() implies precedes(key, #[trigger] l[j].source_id@) by {
        if j > p {
            assert(precedes(l[p].source_id@, l[j].source_id@));
            lemma_precedes_transitive(key, l[p].source_id@, l[j].source_id@);
        }
    }
    assert(sorted_by_source(m)) by {
        assert forall|i: int, j: int| 0 <= i < j < m.len() implies precedes(
            #[trigger] m[i].source_id@,
            #[trigger] m[j].source_id@,
        ) by {
            if i < p && j < p {
            } else if i < p && j == p {
            } else if i < p {
                assert(m[j] == l[j - 1]);
                assert(precedes(l[i].source_id@, l[j - 1].source_id@));
            } else if i == p {
                assert(m[j] == l[j - 1]);
            } else {
                assert(m[i] == l[i - 1]);
                assert(m[j] == l[j - 1]);
            }
        }
    }
    let target = by_source(l).insert(key, o);
    assert forall|k: Seq<char>| #[trigger] by_source(m).contains_key(k) <==> target.contains_key(k) by {
        if has_source(m, k) {
            let i = choose|i: int| 0 <= i < m.len() && #[trigger] m[i].source_id@ == k;
            if i < p {
                assert(l[i].source_id@ == k);
            } else if i > p {
                assert(l[i - 1].source_id@ == k);
            }
        }
        if has_source(l, k) {
            let i = choose|i: int| 0 <= i < l.len() && #[trigger] l[i].source_id@ == k;
            if i < p {
                assert(m[i].source_id@ == k);
            } else {
                assert(m[i + 1].source_id@ == k);
            }
        }
        if k == key {
            assert(m[p].source_id@ == k);
        }
    }
    assert forall|k: Seq<char>| #[trigger] by_source(m).contains_key(k) implies by_source(m)[k]
        == target[k] by {
        let i = choose|i: int| 0 <= i < m.len() && #[trigger] m[i].source_id@ == k;
        lemma_by_source_at(m, i);
        if i < p {
            assert(l[i].source_id@ == k);
            lemma_by_source_at(l, i);
            lemma_precedes_irreflexive(key);
        } else if i > p {
            assert(l[i - 1].source_id@ == k);
            lemma_by_source_at(l, i - 1);
            lemma_precedes_irreflexive(key);
        }
    }
    assert(by_source(m) =~= target);
}

} // verus!
