//! The contract of a beacon: state, motion, exposure, falsifiers.

use vstd::prelude::*;
use crate::falsifier::Falsifier;
use crate::latent_state::{LatentState, Motion};
use crate::state::WorldState;

verus! {

/// A latent state together with the world state it was inferred from.
pub struct PlanningState {
    pub latent: LatentState,
    pub world_state: WorldState,
}

/// Anything that can answer four questions about a domain it watches: what
/// appears to be happening, how it is moving, where it has consequences,
/// and what observation would change its mind.
pub trait Beacon {
    type Observation;

    type State;

    type Exposure;

    /// Whether `falsifiers` can answer for `state` (its deadlines fit the clock).
    spec fn can_falsify(&self, state: &Self::State) -> bool;

    fn infer_state(&self, observations: &[Self::Observation]) -> Self::State;

    fn motion(&self, state: &Self::State) -> Motion;

    fn exposures(&self, state: &Self::State) -> Vec<Self::Exposure>;

    fn falsifiers(&self, state: &Self::State) -> Vec<Falsifier>
        requires
            self.can_falsify(state),
    ;
}

} // verus!
