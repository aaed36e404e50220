//! Edges between beacons.

use vstd::prelude::*;

verus! {

/// Identifies a node in the transmission graph. Wraps the same string
/// identity used by `Observation::source_id` and the sensor `id` fields.
#[derive(Debug, PartialEq, Eq, PartialOrd, Ord, Hash)]
pub struct NodeId(pub String);

/// A weighted edge; `weight` is fixed-point.
#[derive(Debug)]
pub struct Transmission {
    pub from: NodeId,
    pub to: NodeId,
    pub weight: i64,
}

impl Clone for NodeId {
    fn clone(&self) -> (r: Self)
        ensures
            r == *self,
    {
        NodeId(self.0.clone())
    }
}

impl Clone for Transmission {
    fn clone(&self) -> (r: Self)
        ensures
            r == *self,
    {
        Transmission { from: self.from.clone(), to: self.to.clone(), weight: self.weight }
    }
}

} // verus!
