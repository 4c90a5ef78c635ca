use vstd::prelude::*;

verus! {

/// Log sequence number: a totally ordered, monotonically assigned marker of
/// logical write time.  It orders page versions and bounds a layer's
/// coverage.
#[derive(Clone, Copy, PartialEq, Eq, Structural, Hash, Debug)]
pub struct Lsn(pub u64);

impl View for Lsn {
    type V = nat;

    open spec fn view(&self) -> nat {
        self.0 as nat
    }
}

} // verus!
