use melt::beacon::Beacon;
use melt::latent_state::Motion;
use melt::observation::{Observation, ObservationPayload};
use melt::planning_beacon::PlanningBeacon;

/// A reading given as a decimal, in the crate's fixed-point units.
fn fixed(value: f64) -> i64 {
    (value * 10000.0).round() as i64
}

fn obs(timestamp: u64, strength: f64) -> Observation {
    Observation {
        source_id: "drone-01".to_string(),
        timestamp,
        x: fixed(0.0),
        y: fixed(0.0),
        confidence: fixed(0.9),
        payload: ObservationPayload::SurvivorSignal { strength: fixed(strength) },
    }
}

fn obs_water(timestamp: u64) -> Observation {
    Observation {
        source_id: "drone-01".to_string(),
        timestamp,
        x: fixed(0.0),
        y: fixed(0.0),
        confidence: fixed(0.9),
        payload: ObservationPayload::WaterReading {
            surface_temp_c: fixed(18.0),
            turbidity: fixed(0.5),
            spectral_anomaly: fixed(0.5),
        },
    }
}

#[test]
fn motion_is_unassessed_with_no_observations() {
    let beacon = PlanningBeacon;
    let world = beacon.infer_state(&[]);
    assert_eq!(beacon.motion(&world), Motion::Unassessed)
}

#[test]
fn motion_strengthening_when_signal_rises() {
    let beacon = PlanningBeacon;
    let world = beacon.infer_state(&[obs(1, 0.40), obs(2, 0.80)]);
    assert_eq!(beacon.motion(&world), Motion::Strengthening)
}

#[test]
fn motion_weakening_when_signal_falls() {
    let beacon = PlanningBeacon;
    let world = beacon.infer_state(&[obs(1, 0.80), obs(2, 0.40)]);
    assert_eq!(beacon.motion(&world), Motion::Weakening)
}

#[test]
fn motion_stable_within_deadband() {
    let beacon = PlanningBeacon;
    let world = beacon.infer_state(&[obs(1, 0.50), obs(2, 0.52)]);
    assert_eq!(beacon.motion(&world), Motion::Stable) // delta 0.02 < EPSILON 0.05 — deadband absorbs jitter
}

#[test]
fn motion_stable_at_exact_epsilon_rising() {
    let beacon = PlanningBeacon;
    let world = beacon.infer_state(&[obs(1, 0.50), obs(2, 0.55)]);
    assert_eq!(beacon.motion(&world), Motion::Stable) // delta exactly EPSILON: strict > means this is Stable, deliberately
}

#[test]
fn motion_stable_at_exact_epsilon_falling() {
    let beacon = PlanningBeacon;
    let world = beacon.infer_state(&[obs(1, 0.55), obs(2, 0.50)]);
    assert_eq!(beacon.motion(&world), Motion::Stable) // delta exactly EPSILON: strict < means this is Stable, deliberately
}

#[test]
fn motion_discontinuous_when_payload_kind_changed() {
    let beacon = PlanningBeacon;
    let world = beacon.infer_state(&[obs(1, 0.80), obs_water(2)]);
    assert_eq!(beacon.motion(&world), Motion::Discontinuous)
}

#[test]
fn motion_respects_timestamps_not_arrival_order() {
    let beacon = PlanningBeacon;
    let world = beacon.infer_state(&[obs(2, 0.80), obs(1, 0.40)]);
    assert_eq!(beacon.motion(&world), Motion::Strengthening)
}

#[test]
fn persistence_zero_with_no_observations() {
    let beacon = PlanningBeacon;
    let state = beacon.infer_state(&[]);
    assert_eq!(state.latent.persistence, 0)
}

#[test]
fn persistence_resets_when_motion_changes() {
    // classifications: [Strengthening, Strengthening, Weakening] -> run of 1
    let beacon = PlanningBeacon;
    let state = beacon.infer_state(&[obs(1, 0.30), obs(2, 0.60), obs(3, 0.90), obs(4, 0.40)]);
    assert_eq!(state.latent.motion, Motion::Weakening);
    assert_eq!(state.latent.persistence, 1);
}

#[test]
fn persistence_counts_only_the_unbroken_tail() {
    // classifications: [S, W, S, S] -> tail run 2; a plain filter would count 3
    let beacon = PlanningBeacon;
    let state = beacon.infer_state(&[
        obs(1, 0.30),
        obs(2, 0.80),
        obs(3, 0.40),
        obs(4, 0.60),
        obs(5, 0.90),
    ]);
    assert_eq!(state.latent.motion, Motion::Strengthening);
    assert_eq!(state.latent.persistence, 2);
}

#[test]
fn persistence_zero_with_one_observation() {
    let beacon = PlanningBeacon;
    let state = beacon.infer_state(&[obs(1, 0.50)]);
    assert_eq!(state.latent.persistence, 0);
}
