//! Normalizing outside reports into observations.

use vstd::prelude::*;
use crate::observation::Observation;

verus! {

/// Something that can be turned into an observation.
pub trait ObservationIngress {
    fn normalize(&self) -> Observation;
}

} // verus!
