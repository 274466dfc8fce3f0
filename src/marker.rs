//! The lifecycle of one blueprint instance. Exactly one stage holds at a
//! time, and stages only move forward.

use vstd::prelude::*;

verus! {

#[derive(Clone, Copy, PartialEq, Eq, Structural, Debug)]
pub enum Marker {
    SpawnRequested,
    Spawning,
    ReadyForPostProcess,
    InstanceReady,
}

impl Marker {
    pub open spec fn rank(self) -> nat {
        match self {
            Marker::SpawnRequested => 0,
            Marker::Spawning => 1,
            Marker::ReadyForPostProcess => 2,
            Marker::InstanceReady => 3,
        }
    }

    /// The stage that follows this one, if any.
    pub fn next(&self) -> (r: Option<Marker>)
        ensures
            *self == Marker::InstanceReady <==> r is None,
            r matches Some(m) ==> m.rank() == self.rank() + 1,
    {
        match self {
            Marker::SpawnRequested => Some(Marker::Spawning),
            Marker::Spawning => Some(Marker::ReadyForPostProcess),
            Marker::ReadyForPostProcess => Some(Marker::InstanceReady),
            Marker::InstanceReady => None,
        }
    }
}

} // verus!
