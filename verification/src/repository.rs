use crate::lsn::Lsn;
use vstd::prelude::*;

verus! {

/// Mathematical view of a WAL record: the position at which it applies and
/// its opaque payload.
#[verifier::ext_equal]
pub struct WalRecordView {
    pub lsn: nat,
    pub rec: Seq<u8>,
}

/// A WAL record: an opaque change payload plus the log position at which it
/// applies.  Applying an ordered run of records to a base image is delegated
/// to the redo manager.
#[derive(Clone, Debug)]
pub struct WALRecord {
    pub lsn: Lsn,
    pub rec: Vec<u8>,
}

impl View for WALRecord {
    type V = WalRecordView;

    open spec fn view(&self) -> WalRecordView {
        WalRecordView { lsn: self.lsn@, rec: self.rec@ }
    }
}

} // verus!
