//! What the beacon infers, as opposed to what was measured.

use vstd::prelude::*;
use crate::observation::Observation;

verus! {

/// Names one observation: its source and its tick on that source's clock.
#[derive(Debug, PartialEq, Eq)]
pub struct ObservationId {
    pub source_id: String,
    pub timestamp: u64,
}

impl Clone for ObservationId {
    fn clone(&self) -> (r: Self)
        ensures
            r == *self,
    {
        ObservationId { source_id: self.source_id.clone(), timestamp: self.timestamp }
    }
}

/// The identity of an observation.
pub open spec fn id_of(o: Observation) -> ObservationId {
    ObservationId { source_id: o.source_id, timestamp: o.timestamp }
}

impl ObservationId {
    /// The identity of `observation`.
    pub fn of(observation: &Observation) -> (id: ObservationId)
        ensures
            id == id_of(*observation),
    {
        ObservationId { source_id: observation.source_id.clone(), timestamp: observation.timestamp }
    }
}

/// Units of latent confidence in one whole: twenty-thousandths, twice the
/// readings' scale, so that the mean of two readings is held exactly.
pub const LATENT_SCALE: i128 = 20000;

/// The inferred state: how sure the beacon is (in `LATENT_SCALE` units), for how many
/// consecutive classifications the motion has held, the motion itself, and
/// the observations the inference rests on.
#[derive(Debug)]
pub struct LatentState {
    pub confidence: i128,
    pub persistence: u64,
    pub motion: Motion,
    /// EVIDENCE: which observations support this inference.
    pub lineage: Vec<ObservationId>,
}

impl Clone for LatentState {
    fn clone(&self) -> (r: Self)
        ensures
            r.confidence == self.confidence,
            r.persistence == self.persistence,
            r.motion == self.motion,
            r.lineage@ == self.lineage@,
    {
        let lineage = self.lineage.clone();
        assert(lineage@ =~= self.lineage@);
        LatentState {
            confidence: self.confidence,
            persistence: self.persistence,
            motion: self.motion,
            lineage,
        }
    }
}

#[derive(Debug, Clone, Copy, PartialEq, Eq, Structural)]
pub enum Motion {
    Strengthening,
    Weakening,
    Stable,
    /// Insufficient data to assign motion - not informative
    Unassessed,
    /// A detected regime break - highly informative
    Discontinuous,
}

} // verus!
