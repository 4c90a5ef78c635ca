use crate::lsn::Lsn;
use crate::relish::RelishTag;
use crate::snapshot_layer::SnapshotLayer;
use crate::storage_layer::{
    page_result_eq, read_page_spec, EntryView, Layer, LayerData, LayerError, LayerView,
    PageVersion,
};
use crate::walredo::WalRedoManager;
use crate::zid::ZTimelineId;
use vstd::prelude::*;

verus! {

/// The open, in-memory layer variant: the single mutable tip of one
/// relish's history.  It ingests new versions at non-decreasing positions
/// and covers every position from its start until it is frozen, so its end
/// is reported as the largest position.
pub struct InMemoryLayer {
    pub(crate) data: LayerData,
}

impl View for InMemoryLayer {
    type V = LayerView;

    closed spec fn view(&self) -> LayerView {
        self.data.model()
    }
}

impl InMemoryLayer {
    /// The representation invariant: well-formed open state, classified as
    /// mutable.
    pub closed spec fn wf(&self) -> bool {
        self.data.wf() && !self.data.model().frozen
    }

    /// A fresh open layer for one relish, accepting versions from
    /// `start_lsn` on.  Nothing is recorded yet: every block reads as the
    /// canonical zero page.
    pub fn new(timeline_id: ZTimelineId, relish_tag: RelishTag, start_lsn: Lsn) -> (s:
        InMemoryLayer)
        requires
            start_lsn.0 < u64::MAX,
        ensures
            s.inv(),
            s.model() == (LayerView {
                timeline: timeline_id@,
                relish: relish_tag@,
                start: start_lsn@,
                end: u64::MAX as nat,
                frozen: false,
                latest: start_lsn@,
                drop_lsn: None,
                entries: Seq::<EntryView>::empty(),
                sizes: Seq::<(nat, nat)>::empty(),
            }),
    {
        InMemoryLayer { data: LayerData::new(timeline_id, relish_tag, start_lsn) }
    }

    /// A read that opportunistically stores the reconstructed image back
    /// into the version entry it resolved.  The caching is observationally
    /// transparent: this call and every later read answer exactly as they
    /// would have without it.
    pub fn get_page_at_lsn_cached<R: WalRedoManager>(
        &mut self,
        walredo_mgr: &R,
        blknum: u32,
        lsn: Lsn,
    ) -> (r: Result<Vec<u8>, LayerError>)
        requires
            old(self).inv(),
        ensures
            final(self).inv(),
            page_result_eq(r, read_page_spec(walredo_mgr, old(self).model(), blknum as nat, lsn@)),
            forall|b: nat, q: nat|
                read_page_spec(walredo_mgr, final(self).model(), b, q) == read_page_spec(
                    walredo_mgr,
                    old(self).model(),
                    b,
                    q,
                ),
    {
        self.data.read_page_cached(walredo_mgr, blknum, lsn)
    }
}

impl Layer for InMemoryLayer {
    open spec fn model(&self) -> LayerView {
        self@
    }

    open spec fn inv(&self) -> bool {
        self.wf()
    }

    proof fn inv_implies_wf(&self) {
    }

    fn get_timeline_id(&self) -> (r: ZTimelineId) {
        self.data.timeline_id
    }

    fn get_relish_tag(&self) -> (r: RelishTag) {
        self.data.relish_tag
    }

    fn get_start_lsn(&self) -> (r: Lsn) {
        self.data.start_lsn
    }

    fn get_end_lsn(&self) -> (r: Lsn) {
        self.data.end_lsn
    }

    fn is_dropped(&self) -> (r: bool) {
        self.data.drop_lsn.is_some()
    }

    fn is_frozen(&self) -> (r: bool) {
        self.data.frozen
    }

    fn get_page_at_lsn<R: WalRedoManager>(&self, walredo_mgr: &R, blknum: u32, lsn: Lsn) -> (r:
        Result<Vec<u8>, LayerError>) {
        self.data.read_page(walredo_mgr, blknum, lsn)
    }

    fn get_relish_size(&self, lsn: Lsn) -> (r: Result<Option<u32>, LayerError>) {
        Ok(self.data.relish_size(lsn))
    }

    fn get_rel_exists(&self, lsn: Lsn) -> (r: Result<bool, LayerError>) {
        Ok(self.data.rel_exists(lsn))
    }

    fn put_page_version(&mut self, blknum: u32, lsn: Lsn, pv: PageVersion) -> (r: Result<
        (),
        LayerError,
    >) {
        self.data.put_page_version(blknum, lsn, pv)
    }

    fn put_truncation(&mut self, lsn: Lsn, relsize: u32) -> (r: Result<(), LayerError>) {
        self.data.put_truncation(lsn, relsize)
    }

    fn put_unlink(&mut self, lsn: Lsn) -> (r: Result<(), LayerError>) {
        self.data.put_unlink(lsn)
    }

    fn freeze<R: WalRedoManager>(&self, end_lsn: Lsn, _walredo_mgr: &R) -> (r: Result<
        Vec<SnapshotLayer>,
        LayerError,
    >) {
        if end_lsn.0 <= self.data.latest_lsn.0 {
            return Err(LayerError::InvalidRange);
        }
        let d = self.data.freeze_data(end_lsn);
        let s = SnapshotLayer::from_data(d);
        let mut v: Vec<SnapshotLayer> = Vec::new();
        v.push(s);
        proof {
            assert(v@[0].model() =~= (LayerView { frozen: true, end: end_lsn@, ..self.model() }));
        }
        Ok(v)
    }

    fn unload(&mut self) -> (r: Result<(), LayerError>) {
        Ok(())
    }
}

} // verus!
