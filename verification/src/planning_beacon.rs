//! `PlanningBeacon`: motion classification, persistence and lineage.

use vstd::prelude::*;
use vstd::string::*;
use crate::beacon::Beacon;
use crate::falsifier::{Falsifier, FalsifierView};
use crate::latent_state::{id_of, LatentState, Motion, ObservationId};
use crate::observation::{same_kind, Observation, ObservationPayload};
use crate::state::{
    candidate_for, lemma_filter_map_keeps, lemma_filter_map_none, water_anomalous, WorldState,
    WATER_THRESHOLD,
};
use crate::latent_state::LATENT_SCALE;
use crate::text::{push_two_places, two_places, SCALE};
use crate::timeline::{
    at_tick, lemma_arrival_order_irrelevant, lemma_filter_none, lemma_filter_push,
    order_by_timestamp, stably_sorted,
};

verus! {

/// The deadband (0.05) within which a change of signal strength counts as stable.
pub const EPSILON: i64 = 500;

/// The one source whose readings drive motion.
pub const PRIMARY_SOURCE: &'static str = "drone-01";

/// How many ticks a falsifier has to come true.
pub const FALSIFIER_HORIZON: u64 = 3;

/// How a domain moved between two consecutive readings of one source: for
/// survivor signals, strengthening if the strength rose by more than
/// `EPSILON`, weakening if it fell by more than `EPSILON`, stable otherwise;
/// for any other pair, discontinuous if the kind of reading changed and
/// unassessed if it did not.
pub open spec fn motion_between(prior: Observation, newest: Observation) -> Motion {
    match (prior.payload, newest.payload) {
        (
            ObservationPayload::SurvivorSignal { strength: before },
            ObservationPayload::SurvivorSignal { strength: after },
        ) => {
            if after > before + EPSILON {
                Motion::Strengthening
            } else if after < before - EPSILON {
                Motion::Weakening
            } else {
                Motion::Stable
            }
        },
        _ => {
            if same_kind(prior.payload, newest.payload) {
                Motion::Unassessed
            } else {
                Motion::Discontinuous
            }
        },
    }
}

/// How a domain moved depends on the two payloads alone, not on the
/// readings' source, tick, position or confidence.
pub proof fn lemma_motion_reads_only_payloads(
    a: Observation,
    b: Observation,
    c: Observation,
    d: Observation,
)
    requires
        a.payload == c.payload,
        b.payload == d.payload,
    ensures
        motion_between(a, b) == motion_between(c, d),
{
}

/// Whether a reading comes from `PRIMARY_SOURCE`.
pub open spec fn from_primary() -> spec_fn(Observation) -> bool {
    |o: Observation| o.source_id@ == PRIMARY_SOURCE@
}

/// The readings of the primary source, in the order of the history.
pub open spec fn primary_readings(h: Seq<Observation>) -> Seq<Observation> {
    h.filter(from_primary())
}

/// One classification per pair of consecutive readings: two readings make
/// one classification.
pub open spec fn classifications(p: Seq<Observation>) -> Seq<Motion> {
    Seq::new(
        if p.len() == 0 {
            0
        } else {
            (p.len() - 1) as nat
        },
        |i: int| motion_between(p[i], p[i + 1]),
    )
}

/// The latest classification; unassessed when there is none.
pub open spec fn latest_motion(cs: Seq<Motion>) -> Motion {
    if cs.len() == 0 {
        Motion::Unassessed
    } else {
        cs.last()
    }
}

/// How many classifications at the end of `cs`, without a break, equal `m`.
pub open spec fn trailing_run(cs: Seq<Motion>, m: Motion) -> nat
    decreases cs.len(),
{
    if cs.len() == 0 || cs.last() != m {
        0
    } else {
        1 + trailing_run(cs.drop_last(), m)
    }
}

/// The motion inferred from a history: that of the primary source's
/// latest pair of readings.
pub open spec fn inferred_motion(h: Seq<Observation>) -> Motion {
    latest_motion(classifications(primary_readings(h)))
}

/// For how many consecutive classifications, up to the latest, the
/// inferred motion has held.
pub open spec fn inferred_persistence(h: Seq<Observation>) -> nat {
    trailing_run(classifications(primary_readings(h)), inferred_motion(h))
}

/// The identities of every primary-source reading in a history.
pub open spec fn inferred_lineage(h: Seq<Observation>) -> Seq<ObservationId> {
    primary_readings(h).map_values(|o: Observation| id_of(o))
}

/// The mean confidence of the primary source's last two readings, in
/// `LATENT_SCALE` units (twenty-thousandths), or zero with fewer than two.
/// In those units the mean of two readings is exactly their sum in
/// ten-thousandths.
pub open spec fn inferred_confidence(h: Seq<Observation>) -> int {
    let p = primary_readings(h);
    if p.len() >= 2 {
        p[p.len() - 2].confidence + p[p.len() - 1].confidence
    } else {
        0
    }
}

/// The falsifier that one latest reading calls for: an anomalous water
/// reading is expected to clear within `FALSIFIER_HORIZON` ticks.
pub open spec fn falsifier_for(o: Observation) -> Option<FalsifierView> {
    match o.payload {
        ObservationPayload::WaterReading { turbidity, spectral_anomaly, .. } => {
            if water_anomalous(turbidity, spectral_anomaly) {
                Some(
                    FalsifierView {
                        description: o.source_id@ + ": expect turbidity "@ + two_places(
                            turbidity as int,
                        ) + " / spectral "@ + two_places(spectral_anomaly as int)
                            + " to fall below 0.70"@,
                        expected_by: (o.timestamp + FALSIFIER_HORIZON) as u64,
                    },
                )
            } else {
                None
            }
        },
        _ => None,
    }
}

/// `falsifier_for` as a function value.
pub open spec fn falsifier_rule() -> spec_fn(Observation) -> Option<FalsifierView> {
    |o: Observation| falsifier_for(o)
}

/// Whether the deadline of the falsifier a reading calls for fits the clock.
pub open spec fn deadline_fits(o: Observation) -> bool {
    falsifier_for(o) is Some ==> o.timestamp + FALSIFIER_HORIZON <= u64::MAX
}

/// The views of a list of falsifiers.
pub open spec fn falsifier_views(v: Seq<Falsifier>) -> Seq<FalsifierView> {
    v.map_values(|f: Falsifier| f@)
}

/// Persistence counts classifications: never more than there are, and at
/// least one (the latest itself) whenever there is any.
pub proof fn lemma_persistence_bounds(cs: Seq<Motion>)
    ensures
        trailing_run(cs, latest_motion(cs)) <= cs.len(),
        cs.len() > 0 ==> trailing_run(cs, latest_motion(cs)) >= 1,
{
    lemma_trailing_run_bound(cs, latest_motion(cs));
}

proof fn lemma_trailing_run_bound(cs: Seq<Motion>, m: Motion)
    ensures
        trailing_run(cs, m) <= cs.len(),
    decreases cs.len(),
{
    if cs.len() > 0 {
        lemma_trailing_run_bound(cs.drop_last(), m);
    }
}

/// A change in motion resets persistence: when the latest classification
/// differs from the one before it, the motion has held for one pattern.
pub proof fn lemma_motion_change_resets(cs: Seq<Motion>)
    requires
        cs.len() >= 2,
        cs[cs.len() - 1] != cs[cs.len() - 2],
    ensures
        trailing_run(cs, latest_motion(cs)) == 1,
{
    let m = latest_motion(cs);
    assert(cs.drop_last().last() == cs[cs.len() - 2]);
    assert(trailing_run(cs.drop_last(), m) == 0);
    assert(trailing_run(cs, m) == 1 + trailing_run(cs.drop_last(), m));
}

/// With fewer than two readings from the primary source there is no basis
/// to judge: the motion is unassessed and has no persistence.
pub proof fn lemma_too_few_readings(h: Seq<Observation>)
    requires
        primary_readings(h).len() < 2,
    ensures
        inferred_motion(h) == Motion::Unassessed,
        inferred_persistence(h) == 0,
        classifications(primary_readings(h)).len() == 0,
{
}

/// Whether at most one reading of `h` comes from the primary source.
pub open spec fn at_most_one_primary(h: Seq<Observation>) -> bool {
    forall|i: int, j: int|
        0 <= i < j < h.len() && #[trigger] h[i].source_id@ == PRIMARY_SOURCE@ ==> #[trigger] h[j].source_id@
            != PRIMARY_SOURCE@
}

proof fn lemma_one_primary_reading_at_most(h: Seq<Observation>)
    requires
        at_most_one_primary(h),
    ensures
        primary_readings(h).len() <= 1,
    decreases h.len(),
{
    if h.len() > 0 {
        let rest = h.drop_last();
        let last = h.last();
        assert(h =~= rest.push(last));
        lemma_filter_push(rest, last, from_primary());
        assert(at_most_one_primary(rest)) by {
            assert forall|i: int, j: int|
                0 <= i < j < rest.len() && #[trigger] rest[i].source_id@ == PRIMARY_SOURCE@ implies #[trigger] rest[j].source_id@
                != PRIMARY_SOURCE@ by {
                assert(rest[i] == h[i] && rest[j] == h[j]);
            }
        }
        lemma_one_primary_reading_at_most(rest);
        if last.source_id@ == PRIMARY_SOURCE@ {
            assert forall|i: int| 0 <= i < rest.len() implies !from_primary()(#[trigger] rest[i]) by {
                assert(rest[i] == h[i]);
                assert(h[h.len() - 1].source_id@ == PRIMARY_SOURCE@);
            }
            lemma_filter_none(rest, from_primary());
        }
    }
}

/// The inferred confidence rests on two readings: with at most one reading
/// from the primary source it is zero, with no motion to speak of.
pub proof fn lemma_confidence_needs_two_readings(h: Seq<Observation>)
    requires
        at_most_one_primary(h),
    ensures
        inferred_confidence(h) == 0,
        inferred_motion(h) == Motion::Unassessed,
        inferred_persistence(h) == 0,
{
    lemma_one_primary_reading_at_most(h);
}

/// The inferred confidence is the exact mean of the primary source's last
/// two readings, `h[i]` and `h[j]`, held in `LATENT_SCALE` units.
pub proof fn lemma_confidence_is_mean_of_last_two(h: Seq<Observation>, i: int, j: int)
    requires
        0 <= i < j < h.len(),
        h[i].source_id@ == PRIMARY_SOURCE@,
        h[j].source_id@ == PRIMARY_SOURCE@,
        forall|k: int| i < k < h.len() && k != j ==> #[trigger] h[k].source_id@ != PRIMARY_SOURCE@,
    ensures
        inferred_confidence(h) * SCALE == (h[i].confidence + h[j].confidence) * LATENT_SCALE / 2,
        inferred_motion(h) == motion_between(h[i], h[j]),
        inferred_persistence(h) >= 1,
{
    let f = from_primary();
    let head = h.take(i);
    let middle = h.subrange(i + 1, j);
    let tail = h.subrange(j + 1, h.len() as int);
    assert(h =~= head + seq![h[i]] + middle + seq![h[j]] + tail);
    Seq::filter_distributes_over_add(head + seq![h[i]] + middle + seq![h[j]], tail, f);
    Seq::filter_distributes_over_add(head + seq![h[i]] + middle, seq![h[j]], f);
    Seq::filter_distributes_over_add(head + seq![h[i]], middle, f);
    Seq::filter_distributes_over_add(head, seq![h[i]], f);
    assert forall|k: int| 0 <= k < middle.len() implies !f(#[trigger] middle[k]) by {
        assert(middle[k] == h[i + 1 + k]);
    }
    assert forall|k: int| 0 <= k < tail.len() implies !f(#[trigger] tail[k]) by {
        assert(tail[k] == h[j + 1 + k]);
    }
    lemma_filter_none(middle, f);
    lemma_filter_none(tail, f);
    lemma_filter_none(Seq::<Observation>::empty(), f);
    lemma_filter_push(Seq::<Observation>::empty(), h[i], f);
    lemma_filter_push(Seq::<Observation>::empty(), h[j], f);
    assert(Seq::<Observation>::empty().push(h[i]) =~= seq![h[i]]);
    assert(Seq::<Observation>::empty().push(h[j]) =~= seq![h[j]]);
    let p = primary_readings(h);
    assert(p =~= head.filter(f) + seq![h[i]] + seq![h[j]]);
    assert(p[p.len() - 2] == h[i]);
    assert(p[p.len() - 1] == h[j]);
    lemma_persistence_bounds(classifications(p));
}

/// Whether `id` names a primary-source reading of `h`.
pub open spec fn names_primary_reading(h: Seq<Observation>, id: ObservationId) -> bool {
    exists|i: int|
        0 <= i < h.len() && (#[trigger] h[i]).source_id@ == PRIMARY_SOURCE@ && id == (ObservationId {
            source_id: h[i].source_id,
            timestamp: h[i].timestamp,
        })
}

/// The lineage is the evidence: it names every primary-source reading of
/// the history, and only primary-source readings of the history.
pub proof fn lemma_lineage_meaning(h: Seq<Observation>)
    ensures
        forall|k: int|
            0 <= k < inferred_lineage(h).len() ==> names_primary_reading(
                h,
                #[trigger] inferred_lineage(h)[k],
            ),
        forall|i: int|
            0 <= i < h.len() && (#[trigger] h[i]).source_id@ == PRIMARY_SOURCE@ ==> inferred_lineage(
                h,
            ).contains(ObservationId { source_id: h[i].source_id, timestamp: h[i].timestamp }),
{
    let p = primary_readings(h);
    let f = from_primary();
    let l = inferred_lineage(h);
    assert forall|k: int| 0 <= k < l.len() implies names_primary_reading(h, #[trigger] l[k]) by {
        h.lemma_filter_pred(f, k);
        assert(p.contains(p[k]));
        h.lemma_filter_contains_rev(f, p[k]);
        let i = choose|i: int| 0 <= i < h.len() && h[i] == p[k];
        assert(l[k] == id_of(p[k]));
        assert(h[i].source_id@ == PRIMARY_SOURCE@);
    }
    assert forall|i: int| 0 <= i < h.len() && (#[trigger] h[i]).source_id@ == PRIMARY_SOURCE@ implies l.contains(
        ObservationId { source_id: h[i].source_id, timestamp: h[i].timestamp },
    ) by {
        h.lemma_filter_contains(f, i);
        let k = choose|k: int| 0 <= k < p.len() && p[k] == h[i];
        assert(l[k] == id_of(p[k]));
    }
}

/// The kind of a payload, numbered by variant.
pub open spec fn payload_variant(p: ObservationPayload) -> int {
    match p {
        ObservationPayload::SurvivorSignal { .. } => 0,
        ObservationPayload::WaterReading { .. } => 1,
        ObservationPayload::Weather { .. } => 2,
        ObservationPayload::Wifi { .. } => 3,
        ObservationPayload::PowerGrid { .. } => 4,
        ObservationPayload::HumanFieldReport { .. } => 5,
    }
}

/// What each motion means. A change of kind of reading, whichever kind
/// comes first, is a regime break (discontinuous); two readings of the same
/// kind other than survivor signals give no basis to judge (unassessed);
/// two survivor signals strengthen when the strength rises by more than
/// 0.05, weaken when it falls by more than 0.05, and are stable otherwise.
/// Reading the pair the other way round swaps strengthening and weakening
/// and keeps the rest.
pub proof fn lemma_motion_meaning(a: Observation, b: Observation)
    ensures
        (motion_between(a, b) == Motion::Discontinuous) <==> payload_variant(a.payload)
            != payload_variant(b.payload),
        (motion_between(a, b) == Motion::Unassessed) <==> (payload_variant(a.payload)
            == payload_variant(b.payload) && payload_variant(a.payload) != 0),
        (a.payload is SurvivorSignal && b.payload is SurvivorSignal) ==> {
            let s1 = a.payload->SurvivorSignal_strength;
            let s2 = b.payload->SurvivorSignal_strength;
            &&& (motion_between(a, b) == Motion::Strengthening) <==> s2 - s1 > 500
            &&& (motion_between(a, b) == Motion::Weakening) <==> s1 - s2 > 500
            &&& (motion_between(a, b) == Motion::Stable) <==> (-500 <= s2 - s1 <= 500)
        },
        (motion_between(a, b) == Motion::Strengthening) <==> (motion_between(b, a)
            == Motion::Weakening),
        (motion_between(a, b) == Motion::Stable) <==> (motion_between(b, a) == Motion::Stable),
        (motion_between(a, b) == Motion::Discontinuous) <==> (motion_between(b, a)
            == Motion::Discontinuous),
{
}

/// Whether a reading is water with spectral anomaly or turbidity above 0.70.
pub open spec fn anomalous_water(o: Observation) -> bool {
    o.payload matches ObservationPayload::WaterReading { turbidity, spectral_anomaly, .. } && (
    turbidity > 7000 || spectral_anomaly > 7000)
}

/// A reading calls for a falsifier exactly when it is anomalous water: the
/// falsifier names the reading's source first and falls due three ticks
/// after it. Among water readings read with confidence at least 0.80, those
/// with a falsifier are exactly those that call for an investigation.
pub proof fn lemma_falsifier_for_reading(o: Observation)
    ensures
        falsifier_for(o) is Some <==> anomalous_water(o),
        falsifier_for(o) matches Some(f) ==> f.description.take(o.source_id@.len() as int)
            == o.source_id@,
        falsifier_for(o) matches Some(f) ==> (o.timestamp + 3 <= u64::MAX ==> f.expected_by
            == o.timestamp + 3),
        (o.confidence >= 8000 && o.payload is WaterReading) ==> (falsifier_for(o) is Some
            <==> candidate_for(o) is Some),
{
    if let Some(f) = falsifier_for(o) {
        let rest = ": expect turbidity "@ + two_places(o.payload->turbidity as int)
            + " / spectral "@ + two_places(o.payload->spectral_anomaly as int)
            + " to fall below 0.70"@;
        assert(f.description =~= o.source_id@ + rest);
        assert((o.source_id@ + rest).take(o.source_id@.len() as int) =~= o.source_id@);
    }
}

/// Whether `f` is a falsifier for reading `o`: `o` is anomalous water,
/// `f` names its source first and falls due three ticks after it.
pub open spec fn falsifies(f: FalsifierView, o: Observation) -> bool {
    &&& anomalous_water(o)
    &&& f.expected_by == o.timestamp + 3
    &&& f.description.take(o.source_id@.len() as int) == o.source_id@
}

proof fn lemma_falsifier_comes_from_reading(latest: Seq<Observation>, j: int)
    requires
        forall|i: int| 0 <= i < latest.len() ==> deadline_fits(#[trigger] latest[i]),
        0 <= j < latest.filter_map(falsifier_rule()).len(),
    ensures
        exists|i: int|
            0 <= i < latest.len() && falsifies(latest.filter_map(falsifier_rule())[j], #[trigger] latest[i]),
{
    let fs = latest.filter_map(falsifier_rule());
    assert(fs.contains(fs[j]));
    latest.lemma_filter_map_contains(falsifier_rule(), fs[j]);
    let t = choose|t: Observation| latest.contains(t) && falsifier_rule()(t) == Some(fs[j]);
    let i = choose|i: int| 0 <= i < latest.len() && latest[i] == t;
    lemma_falsifier_for_reading(t);
    assert(deadline_fits(latest[i]));
    assert(falsifies(fs[j], latest[i]));
}

proof fn lemma_reading_has_falsifier(latest: Seq<Observation>, i: int)
    requires
        0 <= i < latest.len(),
        deadline_fits(latest[i]),
        anomalous_water(latest[i]),
    ensures
        exists|j: int|
            0 <= j < latest.filter_map(falsifier_rule()).len() && falsifies(
                #[trigger] latest.filter_map(falsifier_rule())[j],
                latest[i],
            ),
{
    let fs = latest.filter_map(falsifier_rule());
    lemma_falsifier_for_reading(latest[i]);
    lemma_filter_map_keeps(latest, falsifier_rule(), i);
    let v = falsifier_for(latest[i])->0;
    let j = choose|j: int| 0 <= j < fs.len() && fs[j] == v;
    assert(falsifies(fs[j], latest[i]));
}

/// The falsifiers of a list of latest readings (whose deadlines fit the
/// clock): each is a falsifier for some reading of the list; each anomalous
/// water reading of the list has one; and there are none exactly when no
/// reading is anomalous water.
#[verifier::spinoff_prover]
#[verifier::rlimit(40)]
pub proof fn lemma_falsifiers_meaning(latest: Seq<Observation>)
    requires
        forall|i: int| 0 <= i < latest.len() ==> deadline_fits(#[trigger] latest[i]),
    ensures
        forall|j: int|
            0 <= j < latest.filter_map(falsifier_rule()).len() ==> exists|i: int|
                0 <= i < latest.len() && falsifies(
                    #[trigger] latest.filter_map(falsifier_rule())[j],
                    #[trigger] latest[i],
                ),
        forall|i: int|
            0 <= i < latest.len() && anomalous_water(#[trigger] latest[i]) ==> exists|j: int|
                0 <= j < latest.filter_map(falsifier_rule()).len() && falsifies(
                    #[trigger] latest.filter_map(falsifier_rule())[j],
                    latest[i],
                ),
        (forall|i: int| 0 <= i < latest.len() ==> !anomalous_water(#[trigger] latest[i]))
            <==> latest.filter_map(falsifier_rule()).len() == 0,
{
    let fs = latest.filter_map(falsifier_rule());
    assert forall|j: int| 0 <= j < fs.len() implies exists|i: int|
        0 <= i < latest.len() && falsifies(#[trigger] fs[j], #[trigger] latest[i]) by {
        lemma_falsifier_comes_from_reading(latest, j);
    }
    assert forall|i: int| 0 <= i < latest.len() && anomalous_water(#[trigger] latest[i]) implies exists|
        j: int,
    | 0 <= j < fs.len() && falsifies(#[trigger] fs[j], latest[i]) by {
        lemma_reading_has_falsifier(latest, i);
    }
    if forall|i: int| 0 <= i < latest.len() ==> !anomalous_water(#[trigger] latest[i]) {
        assert forall|i: int| 0 <= i < latest.len() implies falsifier_rule()(#[trigger] latest[i]) is None by {
            lemma_falsifier_for_reading(latest[i]);
        }
        lemma_filter_map_none(latest, falsifier_rule());
    } else {
        let i = choose|i: int| 0 <= i < latest.len() && anomalous_water(#[trigger] latest[i]);
        lemma_reading_has_falsifier(latest, i);
    }
}

/// Motion respects timestamps, not arrival order: two batches that hold the
/// same readings at every tick, in the same order, yield the same history,
/// motion, persistence, lineage and confidence, however readings of
/// different ticks were interleaved when they arrived.
pub proof fn lemma_inference_ignores_arrival_order(
    a: Seq<Observation>,
    b: Seq<Observation>,
    history_a: Seq<Observation>,
    history_b: Seq<Observation>,
)
    requires
        forall|t: u64| #[trigger] a.filter(at_tick(t)) == b.filter(at_tick(t)),
        stably_sorted(a, history_a),
        stably_sorted(b, history_b),
    ensures
        history_a == history_b,
        inferred_motion(history_a) == inferred_motion(history_b),
        inferred_persistence(history_a) == inferred_persistence(history_b),
        inferred_lineage(history_a) == inferred_lineage(history_b),
        inferred_confidence(history_a) == inferred_confidence(history_b),
{
    lemma_arrival_order_irrelevant(a, b, history_a, history_b);
}

/// Falsifiers read the latest reading of each source and nothing else:
/// states that agree on those agree on whether falsifiers can be given and
/// on what they are, whatever their motion or superseded readings.
pub proof fn lemma_falsifiers_read_only_latest(s1: PlanningState, s2: PlanningState)
    requires
        s1.world.latest@ == s2.world.latest@,
    ensures
        PlanningBeacon.can_falsify(&s1) == PlanningBeacon.can_falsify(&s2),
        s1.world.latest@.filter_map(falsifier_rule()) == s2.world.latest@.filter_map(
            falsifier_rule(),
        ),
{
}

/// The reference beacon.
pub struct PlanningBeacon;

/// What `PlanningBeacon` infers: the latent state and the world state
/// behind it.
pub struct PlanningState {
    pub latent: LatentState,
    pub world: WorldState,
}

/// Classifies the change between two consecutive readings (`motion_between`).
pub fn classify_motion(prior: &Observation, newest: &Observation) -> (m: Motion)
    ensures
        m == motion_between(*prior, *newest),
{
    match (&prior.payload, &newest.payload) {
        (
            ObservationPayload::SurvivorSignal { strength: prior_strength },
            ObservationPayload::SurvivorSignal { strength: newest_strength },
        ) => {
            let before: i128 = *prior_strength as i128;
            let after: i128 = *newest_strength as i128;
            if after > before + EPSILON as i128 {
                Motion::Strengthening
            } else if after < before - EPSILON as i128 {
                Motion::Weakening
            } else {
                Motion::Stable
            }
        },
        _ => {
            if prior.payload.same_kind_as(&newest.payload) {
                Motion::Unassessed
            } else {
                Motion::Discontinuous
            }
        },
    }
}

/// The description of the falsifier for an anomalous water reading.
fn falsifier_text(source_id: &String, turbidity: i64, spectral_anomaly: i64) -> (s: String)
    ensures
        s@ == source_id@ + ": expect turbidity "@ + two_places(turbidity as int) + " / spectral "@
            + two_places(spectral_anomaly as int) + " to fall below 0.70"@,
{
    let mut s = source_id.clone();
    s.append(": expect turbidity ");
    push_two_places(&mut s, turbidity);
    s.append(" / spectral ");
    push_two_places(&mut s, spectral_anomaly);
    s.append(" to fall below 0.70");
    s
}

impl PlanningBeacon {
    /// Whether `falsifiers` can answer for `state` (`can_falsify`): every
    /// deadline it would set fits the clock.
    pub fn deadlines_fit(&self, state: &PlanningState) -> (b: bool)
        ensures
            b == self.can_falsify(state),
    {
        let latest = &state.world.latest;
        let n = latest.len();
        let mut i: usize = 0;
        while i < n
            invariant
                n == latest@.len(),
                latest@ == state.world.latest@,
                i <= n,
                forall|j: int| 0 <= j < i ==> deadline_fits(#[trigger] latest@[j]),
            decreases n - i,
        {
            let o = &latest[i];
            match &o.payload {
                ObservationPayload::WaterReading { turbidity, spectral_anomaly, .. } => {
                    if (*spectral_anomaly > WATER_THRESHOLD || *turbidity > WATER_THRESHOLD)
                        && o.timestamp > u64::MAX - FALSIFIER_HORIZON {
                        assert(!deadline_fits(state.world.latest@[i as int]));
                        return false;
                    }
                },
                _ => {},
            }
            i = i + 1;
        }
        true
    }
}

impl Beacon for PlanningBeacon {
    type Observation = Observation;

    type State = PlanningState;

    type Exposure = String;

    open spec fn can_falsify(&self, state: &PlanningState) -> bool {
        forall|i: int|
            0 <= i < state.world.latest@.len() ==> deadline_fits(#[trigger] state.world.latest@[i])
    }

    /// Puts the observations in timestamp order, records them, and infers
    /// the latent state from the primary source's readings.
    fn infer_state(&self, observations: &[Observation]) -> (state: PlanningState)
        ensures
            stably_sorted(observations@, state.world.history@),
            state.world.wf(),
            state.latent.motion == inferred_motion(state.world.history@),
            state.latent.persistence == inferred_persistence(state.world.history@),
            state.latent.lineage@ == inferred_lineage(state.world.history@),
            state.latent.confidence == inferred_confidence(state.world.history@),
    {
        let ordered = order_by_timestamp(observations);
        let mut world = WorldState::new();
        let count = ordered.len();
        let mut i: usize = 0;
        while i < count
            invariant
                count == ordered@.len(),
                i <= count,
                world.wf(),
                world.history@ == ordered@.take(i as int),
            decreases count - i,
        {
            world.update(ordered[i].clone());
            assert(ordered@.take(i + 1) =~= ordered@.take(i as int).push(ordered@[i as int]));
            i = i + 1;
        }
        assert(ordered@.take(count as int) =~= ordered@);
        let ghost h = world.history@;

        let primary = String::from_str(PRIMARY_SOURCE);
        let mut source_obs: Vec<Observation> = Vec::new();
        let hn = world.history.len();
        let mut j: usize = 0;
        proof {
            reveal(Seq::filter);
            assert(h.take(0) =~= Seq::<Observation>::empty());
        }
        while j < hn
            invariant
                hn == h.len(),
                h == world.history@,
                primary@ == PRIMARY_SOURCE@,
                j <= hn,
                source_obs@ == h.take(j as int).filter(from_primary()),
            decreases hn - j,
        {
            proof {
                assert(h.take(j + 1) =~= h.take(j as int).push(h[j as int]));
                lemma_filter_push(h.take(j as int), h[j as int], from_primary());
            }
            if world.history[j].source_id == primary {
                source_obs.push(world.history[j].clone());
            }
            j = j + 1;
        }
        assert(h.take(hn as int) =~= h);
        let ghost p = source_obs@;
        assert(p == primary_readings(h));

        let mut classes: Vec<Motion> = Vec::new();
        let pn = source_obs.len();
        let mut k: usize = 0;
        while k + 1 < pn
            invariant
                pn == p.len(),
                p == source_obs@,
                pn == 0 || k < pn,
                pn == 0 ==> k == 0,
                classes@ == Seq::new(k as nat, |c: int| motion_between(p[c], p[c + 1])),
            decreases pn - k,
        {
            let m = classify_motion(&source_obs[k], &source_obs[k + 1]);
            classes.push(m);
            assert(classes@ =~= Seq::new((k + 1) as nat, |c: int| motion_between(p[c], p[c + 1])));
            k = k + 1;
        }
        let ghost cs = classifications(p);
        assert(classes@ =~= cs);

        let motion = if classes.len() == 0 {
            Motion::Unassessed
        } else {
            classes[classes.len() - 1]
        };
        assert(motion == latest_motion(cs));

        let mut back = classes.len();
        let mut run: usize = 0;
        proof {
            assert(cs.take(cs.len() as int) =~= cs);
        }
        while back > 0 && classes[back - 1] == motion
            invariant
                classes@ == cs,
                cs.len() == classes.len(),
                back <= cs.len(),
                run == cs.len() - back,
                trailing_run(cs, motion) == run + trailing_run(cs.take(back as int), motion),
            decreases back,
        {
            assert(cs.take(back as int).drop_last() =~= cs.take(back - 1));
            back = back - 1;
            run = run + 1;
        }
        proof {
            if back > 0 {
                assert(cs.take(back as int).last() == cs[back - 1]);
            }
        }
        let persistence = run as u64;

        let mut lineage: Vec<ObservationId> = Vec::new();
        let mut q: usize = 0;
        while q < pn
            invariant
                pn == p.len(),
                p == source_obs@,
                q <= pn,
                lineage@ == p.take(q as int).map_values(|o: Observation| id_of(o)),
            decreases pn - q,
        {
            lineage.push(ObservationId::of(&source_obs[q]));
            assert(p.take(q + 1).map_values(|o: Observation| id_of(o)) =~= p.take(
                q as int,
            ).map_values(|o: Observation| id_of(o)).push(id_of(p[q as int])));
            q = q + 1;
        }
        assert(p.take(pn as int) =~= p);

        let confidence: i128 = if pn >= 2 {
            source_obs[pn - 2].confidence as i128 + source_obs[pn - 1].confidence as i128
        } else {
            0
        };

        PlanningState {
            latent: LatentState { confidence, persistence, motion, lineage },
            world,
        }
    }

    fn motion(&self, state: &PlanningState) -> (m: Motion)
        ensures
            m == state.latent.motion,
    {
        state.latent.motion
    }

    /// No exposure is computed yet: always empty.
    fn exposures(&self, state: &PlanningState) -> (e: Vec<String>)
        ensures
            e@ == Seq::<String>::empty(),
    {
        Vec::new()
    }

    /// One falsifier per anomalous latest water reading, in order of source.
    fn falsifiers(&self, state: &PlanningState) -> (fs: Vec<Falsifier>)
        ensures
            falsifier_views(fs@) == state.world.latest@.filter_map(falsifier_rule()),
    {
        let latest = &state.world.latest;
        let n = latest.len();
        let mut falsifiers: Vec<Falsifier> = Vec::new();
        let mut i: usize = 0;
        assert(latest@.take(0) =~= Seq::<Observation>::empty());
        assert(falsifier_views(falsifiers@) =~= Seq::<FalsifierView>::empty());
        while i < n
            invariant
                n == latest@.len(),
                i <= n,
                self.can_falsify(state),
                latest == &state.world.latest,
                falsifier_views(falsifiers@) == latest@.take(i as int).filter_map(falsifier_rule()),
            decreases n - i,
        {
            let observation = &latest[i];
            let ghost before = falsifiers@;
            assert(deadline_fits(latest@[i as int]));
            match &observation.payload {
                ObservationPayload::WaterReading { turbidity, spectral_anomaly, .. } => {
                    if *turbidity > WATER_THRESHOLD || *spectral_anomaly > WATER_THRESHOLD {
                        falsifiers.push(
                            Falsifier {
                                description: falsifier_text(
                                    &observation.source_id,
                                    *turbidity,
                                    *spectral_anomaly,
                                ),
                                expected_by: observation.timestamp + FALSIFIER_HORIZON,
                            },
                        );
                    }
                },
                _ => {},
            }
            proof {
                latest@.lemma_filter_map_take_succ(falsifier_rule(), i as int);
                if falsifiers@.len() > before.len() {
                    assert(falsifier_views(falsifiers@) =~= falsifier_views(before).push(
                        falsifiers@.last()@,
                    ));
                } else {
                    assert(falsifiers@ == before);
                }
            }
            i = i + 1;
        }
        assert(latest@.take(n as int) =~= latest@);
        falsifiers
    }
}

} // verus!
