use vstd::prelude::*;

verus! {

/// Identity of the logical object (for example a relation fork) whose page
/// history a layer stores.  The layer treats it as an opaque key.
#[derive(Clone, Copy, PartialEq, Eq, Structural, Hash, Debug)]
pub struct RelishTag(pub u64);

impl View for RelishTag {
    type V = nat;

    open spec fn view(&self) -> nat {
        self.0 as nat
    }
}

} // verus!
