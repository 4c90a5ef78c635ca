use vstd::prelude::*;

verus! {

/// Identifier of a timeline: together with a relish tag it forms the full
/// key space of the layer map.
#[derive(Clone, Copy, PartialEq, Eq, Structural, Hash, Debug)]
pub struct ZTimelineId(pub u64);

impl View for ZTimelineId {
    type V = nat;

    open spec fn view(&self) -> nat {
        self.0 as nat
    }
}

} // verus!
