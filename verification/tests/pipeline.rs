use melt::action::{Action, CandidateAction};
use melt::beacon::Beacon;
use melt::constraint::Constraint;
use melt::latent_state::Motion;
use melt::observation::{Observation, ObservationPayload};
use melt::planner::{assess_candidates, select_best};
use melt::planning_beacon::{classify_motion, PlanningBeacon, PRIMARY_SOURCE};
use melt::policy::{Policy, RescuePolicy};
use melt::render::render_cycle;
use melt::sensor::{MockDrone, MockWaterSensor, Sensor};
use melt::state::WorldState;

fn signal(source: &str, timestamp: u64, confidence: i64, strength: i64) -> Observation {
    Observation {
        source_id: source.to_string(),
        timestamp,
        x: 0,
        y: 0,
        confidence,
        payload: ObservationPayload::SurvivorSignal { strength },
    }
}

fn water(source: &str, timestamp: u64, confidence: i64, turbidity: i64, spectral: i64) -> Observation {
    Observation {
        source_id: source.to_string(),
        timestamp,
        x: 0,
        y: 0,
        confidence,
        payload: ObservationPayload::WaterReading {
            surface_temp_c: 180000,
            turbidity,
            spectral_anomaly: spectral,
        },
    }
}

fn candidate(action: Action, confidence: i64, score: Option<i128>, feasible: Option<bool>) -> CandidateAction {
    CandidateAction { action, confidence, score, feasible }
}

fn survivor_action(source: &str) -> Action {
    Action::InvestigateSurvivorSignal { source_id: source.to_string(), reason: "r".to_string() }
}

/// Runs the scripted sensors for `cycles` cycles and renders the last one.
fn run_cycles(cycles: u64) -> (String, Motion, usize) {
    let mut drone = MockDrone::new(PRIMARY_SOURCE, 340219, -1184814);
    let mut water_sensor = MockWaterSensor::new("water-01", 340195, -1184900);
    let beacon = PlanningBeacon;
    let mut all: Vec<Observation> = Vec::new();
    let constraint = Constraint::MinimumConfidence(8800);
    let policy = RescuePolicy;
    let mut last = (String::new(), Motion::Unassessed, 0);
    for cycle in 1..=cycles {
        all.push(drone.observe());
        all.push(water_sensor.observe());
        let state = beacon.infer_state(&all);
        let mut candidates = state.world.derive_candidates();
        assess_candidates(&mut candidates, &constraint, &policy, &state.world);
        let selected = select_best(&candidates);
        let text = render_cycle(cycle, 2, &candidates, selected);
        last = (text, beacon.motion(&state), beacon.falsifiers(&state).len());
    }
    last
}

#[test]
fn cycle_two_vetoes_the_water_candidate() {
    let (text, motion, falsifiers) = run_cycles(2);
    let expected = "======================\n\
MELT DECISION CYCLE #2\n\
======================\n\
\n\
2 observations received\n\
\n\
Candidates:\n  \
✓ InvestigateSurvivorSignal(drone-01) score=0.90\n  \
✗ InvestigateWater(water-01)     infeasible (confidence=0.85)\n\
\n\
Decision:\n  \
InvestigateSurvivorSignal(drone-01) (score=0.90, confidence=0.90)\n  \
reason: survivor signal detected: strength=0.81\n";
    assert_eq!(text, expected);
    assert_eq!(motion, Motion::Strengthening);
    assert_eq!(falsifiers, 1);
}

#[test]
fn cycle_six_ranks_survivor_over_water() {
    let (text, _, _) = run_cycles(6);
    assert!(text.contains("  ✓ InvestigateSurvivorSignal(drone-01) score=0.90\n"));
    assert!(text.contains("  ✓ InvestigateWater(water-01)     score=0.64\n"));
    assert!(text.contains("Decision:\n  InvestigateSurvivorSignal(drone-01) (score=0.90, confidence=0.90)\n"));
}

#[test]
fn cycle_one_holds_with_nothing_to_do() {
    let (text, motion, falsifiers) = run_cycles(1);
    assert!(text.contains(&format!("Candidates:\n  ✓ {:<30} score=0.10\n", "Hold")));
    assert!(text.ends_with("Decision:\n  Hold (score=0.10, confidence=1.00)\n"));
    assert_eq!(motion, Motion::Unassessed);
    assert_eq!(falsifiers, 0);
}

#[test]
fn render_shows_every_verdict_and_holding() {
    let candidates = vec![
        candidate(Action::Hold, 10000, None, None),
        candidate(Action::Hold, 10000, None, Some(true)),
        candidate(Action::Hold, 123, None, Some(false)),
    ];
    let text = render_cycle(17, 0, &candidates, None);
    let expected = format!(
        "======================\nMELT DECISION CYCLE #17\n======================\n\n\
0 observations received\n\nCandidates:\n  ? {name:<30} not evaluated\n  ✓ {name:<30} unscored\n  \
✗ {name:<30} infeasible (confidence=0.01)\n\nDecision:\n  no feasible action — holding\n",
        name = "Hold"
    );
    assert_eq!(text, expected);
}

#[test]
fn two_places_round_half_to_even_and_sign() {
    let cases: Vec<(i64, &str)> = vec![
        (5950, "0.60"),
        (5850, "0.58"),
        (6440, "0.64"),
        (6451, "0.65"),
        (-49, "-0.00"),
        (-12345, "-1.23"),
        (1234567, "123.46"),
    ];
    for (value, shown) in cases {
        let c = candidate(Action::Hold, value, None, Some(false));
        let text = render_cycle(0, 0, &[c], None);
        assert!(text.contains(&format!("infeasible (confidence={})", shown)), "{} -> {}", value, text);
    }
}

#[test]
fn select_best_takes_the_last_of_equal_best_scores() {
    let candidates = vec![
        candidate(survivor_action("a"), 9000, Some(9000), Some(true)),
        candidate(survivor_action("b"), 9000, Some(9500), Some(false)),
        candidate(survivor_action("c"), 9000, Some(9000), Some(true)),
        candidate(survivor_action("d"), 9000, None, Some(true)),
        candidate(survivor_action("e"), 9000, Some(100), Some(true)),
    ];
    let best = select_best(&candidates).expect("a ranked candidate");
    match &best.action {
        Action::InvestigateSurvivorSignal { source_id, .. } => assert_eq!(source_id, "c"),
        _ => panic!("wrong candidate"),
    }
}

#[test]
fn select_best_is_none_without_feasible_scored_candidates() {
    let candidates = vec![
        candidate(Action::Hold, 10000, Some(1000), Some(false)),
        candidate(Action::Hold, 10000, None, Some(true)),
        candidate(Action::Hold, 10000, Some(1000), None),
    ];
    assert!(select_best(&candidates).is_none());
    assert!(select_best(&[]).is_none());
}

#[test]
fn assess_vetoes_below_the_minimum_and_scores_the_rest() {
    let world = WorldState::new();
    let mut candidates = vec![
        candidate(Action::InvestigateWater { source_id: "w".to_string(), reason: "r".to_string() }, 9200, None, None),
        candidate(Action::InvestigateWater { source_id: "w".to_string(), reason: "r".to_string() }, 8500, None, None),
        candidate(survivor_action("d"), 8800, None, None),
        candidate(Action::Hold, 10000, None, None),
    ];
    assess_candidates(&mut candidates, &Constraint::MinimumConfidence(8800), &RescuePolicy, &world);
    let verdicts: Vec<(Option<bool>, Option<i128>)> = candidates.iter().map(|c| (c.feasible, c.score)).collect();
    assert_eq!(verdicts, vec![(Some(true), Some(64400)), (Some(false), None), (Some(true), Some(88000)), (Some(true), Some(10000))]);
}

#[test]
fn rescue_policy_scores_by_action_and_confidence() {
    let world = WorldState::new();
    let policy = RescuePolicy;
    let water_action = Action::InvestigateWater { source_id: "w".to_string(), reason: "r".to_string() };
    assert_eq!(policy.score(&candidate(water_action, 8501, None, None), &world), 59507);
    assert_eq!(policy.score(&candidate(survivor_action("d"), 9000, None, None), &world), 90000);
    assert_eq!(policy.score(&candidate(Action::Hold, 10000, None, None), &world), 10000);
    let negative = Action::InvestigateWater { source_id: "w".to_string(), reason: "r".to_string() };
    assert_eq!(policy.score(&candidate(negative, -15, None, None), &world), -105);
}

#[test]
fn feasibility_is_at_least_the_minimum() {
    let mut c = candidate(Action::Hold, 8800, Some(5), None);
    c.evaluate_feasibility(&Constraint::MinimumConfidence(8800));
    assert_eq!(c.feasible, Some(true));
    assert_eq!(c.score, Some(5));
    c.evaluate_feasibility(&Constraint::MinimumConfidence(8801));
    assert_eq!(c.feasible, Some(false));
}

#[test]
fn world_keeps_history_and_latest_per_source_in_source_order() {
    let mut world = WorldState::new();
    world.update(signal("zulu", 1, 9000, 100));
    world.update(signal("alpha", 1, 9000, 200));
    world.update(signal("zulu", 2, 9000, 300));
    world.update(signal("mike", 1, 9000, 400));
    world.update(signal("alphabet", 7, 9000, 500));
    assert_eq!(world.history.len(), 5);
    let order: Vec<(&str, u64)> = world.latest.iter().map(|o| (o.source_id.as_str(), o.timestamp)).collect();
    assert_eq!(order, vec![("alpha", 1), ("alphabet", 7), ("mike", 1), ("zulu", 2)]);
}

#[test]
fn derive_candidates_applies_the_thresholds() {
    let mut world = WorldState::new();
    world.update(water("w-high", 1, 8000, 3500, 8000));
    world.update(water("w-exact", 1, 9000, 7000, 7000));
    world.update(water("w-unsure", 1, 7999, 9000, 9000));
    world.update(signal("s-strong", 1, 8000, 7501));
    world.update(signal("s-exact", 1, 9000, 7500));
    let candidates = world.derive_candidates();
    assert_eq!(candidates.len(), 2);
    match &candidates[0].action {
        Action::InvestigateSurvivorSignal { source_id, reason } => {
            assert_eq!(source_id, "s-strong");
            assert_eq!(reason, "survivor signal detected: strength=0.75");
        }
        _ => panic!("expected a survivor signal first"),
    }
    match &candidates[1].action {
        Action::InvestigateWater { source_id, reason } => {
            assert_eq!(source_id, "w-high");
            assert_eq!(reason, "water anomaly detected: spectral=0.80, turbidity=0.35");
        }
        _ => panic!("expected a water anomaly second"),
    }
    assert!(candidates.iter().all(|c| c.score.is_none() && c.feasible.is_none()));
}

#[test]
fn derive_candidates_holds_when_nothing_calls_for_action() {
    let mut world = WorldState::new();
    world.update(signal("s", 1, 9000, 100));
    let candidates = world.derive_candidates();
    assert_eq!(candidates.len(), 1);
    assert!(matches!(candidates[0].action, Action::Hold));
    assert_eq!(candidates[0].confidence, 10000);
    assert_eq!(WorldState::new().derive_candidates().len(), 1);
}

#[test]
fn falsifiers_name_the_anomaly_and_its_deadline() {
    let beacon = PlanningBeacon;
    let state = beacon.infer_state(&[
        water("water-01", 4, 5000, 7500, 2500),
        water("water-02", 9, 5000, 1000, 1000),
        signal("drone-01", 3, 9000, 100),
    ]);
    assert!(beacon.deadlines_fit(&state));
    let falsifiers = beacon.falsifiers(&state);
    assert_eq!(falsifiers.len(), 1);
    assert_eq!(
        falsifiers[0].description,
        "water-01: expect turbidity 0.75 / spectral 0.25 to fall below 0.70"
    );
    assert_eq!(falsifiers[0].expected_by, 7);
    assert!(beacon.exposures(&state).is_empty());
}

#[test]
fn deadlines_that_would_overflow_are_reported() {
    let beacon = PlanningBeacon;
    let state = beacon.infer_state(&[water("water-01", u64::MAX - 2, 5000, 7500, 2500)]);
    assert!(!beacon.deadlines_fit(&state));
    let calm = beacon.infer_state(&[water("water-01", u64::MAX, 5000, 100, 100)]);
    assert!(beacon.deadlines_fit(&calm));
}

#[test]
fn lineage_and_confidence_come_from_the_primary_source() {
    let beacon = PlanningBeacon;
    let state = beacon.infer_state(&[
        signal("drone-01", 3, 8001, 5000),
        signal("drone-02", 2, 100, 9000),
        signal("drone-01", 1, 9000, 4000),
        signal("drone-01", 2, 7000, 4000),
    ]);
    let lineage: Vec<(String, u64)> = state.latent.lineage.iter().map(|id| (id.source_id.clone(), id.timestamp)).collect();
    assert_eq!(lineage, vec![("drone-01".to_string(), 1), ("drone-01".to_string(), 2), ("drone-01".to_string(), 3)]);
    assert_eq!(state.latent.confidence, 15001);
    assert_eq!(state.latent.motion, Motion::Strengthening);
    assert_eq!(state.latent.persistence, 1);
    let timestamps: Vec<u64> = state.world.history.iter().map(|o| o.timestamp).collect();
    assert_eq!(timestamps, vec![1, 2, 2, 3]);
}

#[test]
fn equal_timestamps_keep_arrival_order() {
    let beacon = PlanningBeacon;
    let state = beacon.infer_state(&[signal("drone-01", 5, 9000, 2000), signal("drone-01", 5, 9000, 9000)]);
    assert_eq!(state.latent.motion, Motion::Strengthening);
    let reversed = beacon.infer_state(&[signal("drone-01", 5, 9000, 9000), signal("drone-01", 5, 9000, 2000)]);
    assert_eq!(reversed.latent.motion, Motion::Weakening);
}

#[test]
fn arrival_order_across_ticks_does_not_matter() {
    let beacon = PlanningBeacon;
    let a = beacon.infer_state(&[signal("drone-01", 1, 9000, 3000), signal("drone-01", 3, 9000, 9000), signal("drone-01", 2, 9000, 6000)]);
    let b = beacon.infer_state(&[signal("drone-01", 3, 9000, 9000), signal("drone-01", 2, 9000, 6000), signal("drone-01", 1, 9000, 3000)]);
    assert_eq!(a.latent.motion, b.latent.motion);
    assert_eq!(a.latent.persistence, 2);
    assert_eq!(b.latent.persistence, 2);
    assert_eq!(a.latent.confidence, b.latent.confidence);
}

#[test]
fn unassessed_when_kind_stays_and_is_not_a_signal() {
    let beacon = PlanningBeacon;
    let state = beacon.infer_state(&[water("drone-01", 1, 9000, 1, 1), water("drone-01", 2, 9000, 2, 2)]);
    assert_eq!(state.latent.motion, Motion::Unassessed);
    assert_eq!(state.latent.persistence, 1);
}

#[test]
fn other_sources_do_not_drive_motion() {
    let beacon = PlanningBeacon;
    let state = beacon.infer_state(&[signal("drone-02", 1, 9000, 1000), signal("drone-02", 2, 9000, 9000)]);
    assert_eq!(state.latent.motion, Motion::Unassessed);
    assert_eq!(state.latent.persistence, 0);
    assert!(state.latent.lineage.is_empty());
    assert_eq!(state.latent.confidence, 0);
    assert_eq!(state.world.latest.len(), 1);
}

#[test]
fn mock_sensors_follow_their_scripts() {
    let mut drone = MockDrone::new("d", 1, -2);
    let strengths: Vec<i64> = (0..5)
        .map(|_| match drone.observe().payload {
            ObservationPayload::SurvivorSignal { strength } => strength,
            _ => panic!("drone reports signals"),
        })
        .collect();
    assert_eq!(strengths, vec![4200, 8100, 6300, 1500, 4200]);
    assert_eq!(drone.step, 5);
    let mut sensor = MockWaterSensor::new("w", 3, 4);
    let mut readings = Vec::new();
    for _ in 0..6 {
        let o = sensor.observe();
        match o.payload {
            ObservationPayload::WaterReading { surface_temp_c, turbidity, spectral_anomaly } => {
                readings.push((o.timestamp, o.confidence, surface_temp_c, turbidity, spectral_anomaly))
            }
            _ => panic!("water sensor reports water"),
        }
        assert_eq!((o.x, o.y), (3, 4));
        assert_eq!(o.source_id, "w");
    }
    assert_eq!(
        readings,
        vec![
            (1, 8500, 190000, 3500, 2500),
            (2, 8500, 200000, 7500, 8000),
            (3, 8500, 180000, 5000, 4000),
            (4, 8500, 190000, 2000, 1500),
            (5, 8500, 200000, 3500, 1000),
            (6, 9200, 180000, 7500, 2500),
        ]
    );
}

#[test]
fn latent_confidence_is_the_exact_mean() {
    let beacon = PlanningBeacon;
    let state = beacon.infer_state(&[signal("drone-01", 1, 8001, 5000), signal("drone-01", 2, 9000, 5000)]);
    // Twenty-thousandths: 0.85005 is 17001 / 20000.
    assert_eq!(state.latent.confidence, 17001);
}

#[test]
fn scores_show_the_exact_value_rounded() {
    let candidates = vec![
        candidate(Action::Hold, 10000, Some(59507), Some(true)),
        candidate(Action::Hold, 10000, Some(59500), Some(true)),
        candidate(Action::Hold, 10000, Some(58500), Some(true)),
    ];
    let text = render_cycle(3, 2, &candidates, Some(&candidates[0]));
    assert!(text.contains(&format!("  ✓ {:<30} score=0.60\n  ✓ {:<30} score=0.60\n  ✓ {:<30} score=0.58\n", "Hold", "Hold", "Hold")));
    assert!(text.contains("  Hold (score=0.60, confidence=1.00)\n"));
}

#[test]
fn unconsumed_readings_from_new_sources_change_no_candidate() {
    let mut world = WorldState::new();
    world.update(signal("drone-01", 1, 9000, 8100));
    world.update(water("water-01", 1, 8500, 7500, 8000));
    let before: Vec<String> = world.derive_candidates().iter().map(|c| format!("{:?}", c)).collect();
    world.update(Observation {
        source_id: "weather-01".to_string(),
        timestamp: 1,
        x: 0,
        y: 0,
        confidence: 9900,
        payload: ObservationPayload::Weather { wind_speed: 90000, humidity: 9000 },
    });
    world.update(Observation {
        source_id: "grid".to_string(),
        timestamp: 4,
        x: 0,
        y: 0,
        confidence: 9900,
        payload: ObservationPayload::PowerGrid { continuity: false, voltage: false },
    });
    let after: Vec<String> = world.derive_candidates().iter().map(|c| format!("{:?}", c)).collect();
    assert_eq!(before, after);
    assert_eq!(world.latest.len(), 4);
}

#[test]
fn motion_reads_only_the_payloads() {
    let a = signal("drone-01", 1, 9000, 4000);
    let b = signal("drone-01", 2, 9000, 8000);
    let c = signal("elsewhere", 40, 1, 4000);
    let d = signal("elsewhere", 3, 5, 8000);
    assert_eq!(classify_motion(&a, &b), Motion::Strengthening);
    assert_eq!(classify_motion(&c, &d), Motion::Strengthening);
    assert_eq!(classify_motion(&b, &a), Motion::Weakening);
    assert_eq!(classify_motion(&a, &water("x", 2, 9000, 0, 0)), Motion::Discontinuous);
}

#[test]
fn falsifiers_read_only_the_latest_readings() {
    let beacon = PlanningBeacon;
    let one = beacon.infer_state(&[water("water-01", 1, 5000, 100, 100), water("water-01", 2, 5000, 7500, 100)]);
    let two = beacon.infer_state(&[signal("drone-01", 1, 9000, 100), water("water-01", 2, 5000, 7500, 100)]);
    let a: Vec<(String, u64)> = beacon.falsifiers(&one).into_iter().map(|f| (f.description, f.expected_by)).collect();
    let b: Vec<(String, u64)> = beacon.falsifiers(&two).into_iter().map(|f| (f.description, f.expected_by)).collect();
    assert_eq!(a.len(), 1);
    assert_eq!(a, b);
}
