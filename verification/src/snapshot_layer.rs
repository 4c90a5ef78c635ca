use crate::lsn::Lsn;
use crate::relish::RelishTag;
use crate::storage_layer::{Layer, LayerData, LayerError, LayerView, PageVersion};
use crate::walredo::WalRedoManager;
use crate::zid::ZTimelineId;
use vstd::prelude::*;

verus! {

/// The immutable layer variant: a sealed slice of one relish's history,
/// produced by freezing an open layer.  Every write on it fails with
/// `FrozenLayerMutation`; reads answer from the sealed state.
pub struct SnapshotLayer {
    pub(crate) data: LayerData,
}

impl View for SnapshotLayer {
    type V = LayerView;

    closed spec fn view(&self) -> LayerView {
        self.data.model()
    }
}

impl SnapshotLayer {
    /// The representation invariant: well-formed sealed state, classified
    /// as frozen.
    pub closed spec fn wf(&self) -> bool {
        self.data.wf() && self.data.model().frozen
    }

    /// Wraps sealed state into a frozen layer.
    pub(crate) fn from_data(data: LayerData) -> (s: SnapshotLayer)
        requires
            data.wf(),
            data.model().frozen,
        ensures
            s.wf(),
            s@ == data.model(),
    {
        SnapshotLayer { data }
    }

    /// Permanently discards this layer.  Taking the layer by value models
    /// the registry's obligation that no live reference remains: a layer
    /// still shared cannot be deleted.
    pub fn delete(self) -> (r: Result<(), LayerError>)
        ensures
            r == Ok::<(), LayerError>(()),
    {
        Ok(())
    }
}

impl Layer for SnapshotLayer {
    open spec fn model(&self) -> LayerView {
        self@
    }

    open spec fn inv(&self) -> bool {
        self.wf()
    }

    proof fn inv_implies_wf(&self) {
    }

    fn get_timeline_id(&self) -> (r: ZTimelineId) {
        self.data.timeline_id
    }

    fn get_relish_tag(&self) -> (r: RelishTag) {
        self.data.relish_tag
    }

    fn get_start_lsn(&self) -> (r: Lsn) {
        self.data.start_lsn
    }

    fn get_end_lsn(&self) -> (r: Lsn) {
        self.data.end_lsn
    }

    fn is_dropped(&self) -> (r: bool) {
        self.data.drop_lsn.is_some()
    }

    fn is_frozen(&self) -> (r: bool) {
        self.data.frozen
    }

    fn get_page_at_lsn<R: WalRedoManager>(&self, walredo_mgr: &R, blknum: u32, lsn: Lsn) -> (r:
        Result<Vec<u8>, LayerError>) {
        self.data.read_page(walredo_mgr, blknum, lsn)
    }

    fn get_relish_size(&self, lsn: Lsn) -> (r: Result<Option<u32>, LayerError>) {
        Ok(self.data.relish_size(lsn))
    }

    fn get_rel_exists(&self, lsn: Lsn) -> (r: Result<bool, LayerError>) {
        Ok(self.data.rel_exists(lsn))
    }

    fn put_page_version(&mut self, blknum: u32, lsn: Lsn, pv: PageVersion) -> (r: Result<
        (),
        LayerError,
    >) {
        self.data.put_page_version(blknum, lsn, pv)
    }

    fn put_truncation(&mut self, lsn: Lsn, relsize: u32) -> (r: Result<(), LayerError>) {
        self.data.put_truncation(lsn, relsize)
    }

    fn put_unlink(&mut self, lsn: Lsn) -> (r: Result<(), LayerError>) {
        self.data.put_unlink(lsn)
    }

    fn freeze<R: WalRedoManager>(&self, end_lsn: Lsn, _walredo_mgr: &R) -> (r: Result<
        Vec<SnapshotLayer>,
        LayerError,
    >) {
        Err(LayerError::FrozenLayerMutation)
    }

    fn unload(&mut self) -> (r: Result<(), LayerError>) {
        Ok(())
    }
}

} // verus!
