use crate::lsn::Lsn;
use crate::relish::RelishTag;
use crate::repository::{WALRecord, WalRecordView};
use crate::snapshot_layer::SnapshotLayer;
use crate::walredo::{fold_with, lemma_fold_with_append, records_view, strictly_increasing, WalRedoManager};
use crate::zid::ZTimelineId;
use vstd::pervasive::VecAdditionalExecFns;
use vstd::prelude::*;

verus! {

/// Size in bytes of one page image.
pub const PAGE_SIZE: usize = 8192;

/// The contents of a block that was never written: the canonical all-zero
/// page, the base case when a layer's history holds no earlier image.
pub open spec fn zero_page_seq() -> Seq<u8> {
    Seq::new(PAGE_SIZE as nat, |i: int| 0u8)
}

/// Builds the canonical zero page.
pub fn zero_page() -> (r: Vec<u8>)
    ensures
        r@ == zero_page_seq(),
{
    let mut v: Vec<u8> = Vec::new();
    while v.len() < PAGE_SIZE
        invariant
            v@.len() <= PAGE_SIZE,
            v@ == Seq::new(v@.len(), |i: int| 0u8),
        decreases PAGE_SIZE - v.len(),
    {
        v.push(0u8);
        proof {
            assert(v@ =~= Seq::new(v@.len(), |i: int| 0u8));
        }
    }
    proof {
        assert(v@ =~= zero_page_seq());
    }
    v
}

/// Copies a byte vector.
pub(crate) fn copy_bytes(v: &Vec<u8>) -> (r: Vec<u8>)
    ensures
        r@ == v@,
{
    let mut r: Vec<u8> = Vec::new();
    let mut i: usize = 0;
    while i < v.len()
        invariant
            i <= v.len(),
            r@ == v@.subrange(0, i as int),
        decreases v.len() - i,
    {
        r.push(v[i]);
        i += 1;
        proof {
            assert(r@ =~= v@.subrange(0, i as int));
        }
    }
    proof {
        assert(r@ =~= v@);
    }
    r
}

/// A failure of a layer operation.  The layer never retries and never
/// panics: every failure is handed to the caller as one of these.
#[derive(Clone, Copy, PartialEq, Eq, Structural, Debug)]
pub enum LayerError {
    /// The queried position lies outside the layer's `[start, end)` range.
    InvalidRange,
    /// A write named a position below one already recorded in the layer.
    OutOfOrderAppend,
    /// A write was attempted on a frozen layer.
    FrozenLayerMutation,
    /// The redo manager could not reconstruct the page.
    RedoFailure,
    /// The relish was unlinked at or before the queried position.
    ObjectNotExists,
    /// No recorded version or existence fact resolves the block.
    NotFound,
}

/// Mathematical view of a page version.
#[verifier::ext_equal]
pub struct PageVersionView {
    pub page_image: Option<Seq<u8>>,
    pub record: Option<WalRecordView>,
}

impl PageVersionView {
    /// At least one of the two fields is present, and a present image is a
    /// whole page.
    pub open spec fn valid(self) -> bool {
        &&& self.page_image is Some || self.record is Some
        &&& self.page_image matches Some(img) ==> img.len() == PAGE_SIZE
    }
}

/// One recorded version of one block: a full page image, a WAL record to
/// apply over the previous version, or a record together with the image it
/// was already resolved to.  The last form is produced only by the
/// reconstruction path, as a cache of a resolved read, never by direct
/// ingestion.
#[derive(Debug)]
pub struct PageVersion {
    page_image: Option<Vec<u8>>,
    record: Option<WALRecord>,
}

impl View for PageVersion {
    type V = PageVersionView;

    closed spec fn view(&self) -> PageVersionView {
        PageVersionView {
            page_image: match self.page_image {
                Some(v) => Some(v@),
                None => None,
            },
            record: match self.record {
                Some(r) => Some(r@),
                None => None,
            },
        }
    }
}

impl PageVersion {
    /// Constructs a page version from its two optional parts.  A version
    /// with neither part, or with an image that is not a whole page, is
    /// invalid input and is rejected.
    pub fn new(page_image: Option<Vec<u8>>, record: Option<WALRecord>) -> (r: Option<PageVersion>)
        ensures
            (r is Some <==> PageVersionView {
                page_image: match page_image {
                    Some(v) => Some(v@),
                    None => None,
                },
                record: match record {
                    Some(rc) => Some(rc@),
                    None => None,
                },
            }.valid()),
            r matches Some(pv) ==> pv@ == (PageVersionView {
                page_image: match page_image {
                    Some(v) => Some(v@),
                    None => None,
                },
                record: match record {
                    Some(rc) => Some(rc@),
                    None => None,
                },
            }),
    {
        let image_ok = match &page_image {
            Some(v) => v.len() == PAGE_SIZE,
            None => true,
        };
        let some_part = page_image.is_some() || record.is_some();
        if image_ok && some_part {
            Some(PageVersion { page_image, record })
        } else {
            None
        }
    }

    /// The "as delta" construction: record present, image absent.
    pub fn from_wal_record(rec: WALRecord) -> (r: PageVersion)
        ensures
            r@ == (PageVersionView { page_image: None, record: Some(rec@) }),
            r@.valid(),
    {
        PageVersion { page_image: None, record: Some(rec) }
    }

    /// The "as image" construction: image present, record absent.
    pub fn from_page_image(img: Vec<u8>) -> (r: PageVersion)
        requires
            img@.len() == PAGE_SIZE,
        ensures
            r@ == (PageVersionView { page_image: Some(img@), record: None }),
            r@.valid(),
    {
        PageVersion { page_image: Some(img), record: None }
    }

    /// The full page image, if this version carries one.
    pub fn page_image(&self) -> (r: &Option<Vec<u8>>)
        ensures
            r is Some <==> self@.page_image is Some,
            r matches Some(v) ==> self@.page_image == Some(v@),
    {
        &self.page_image
    }

    /// The WAL record, if this version carries one.
    pub fn record(&self) -> (r: &Option<WALRecord>)
        ensures
            r is Some <==> self@.record is Some,
            r matches Some(rc) ==> self@.record == Some(rc@),
    {
        &self.record
    }
}

/// Copies a page version.
pub(crate) fn copy_page_version(pv: &PageVersion) -> (r: PageVersion)
    ensures
        r@ == pv@,
{
    let page_image = match &pv.page_image {
        Some(v) => Some(copy_bytes(v)),
        None => None,
    };
    let record = match &pv.record {
        Some(rc) => Some(WALRecord { lsn: rc.lsn, rec: copy_bytes(&rc.rec) }),
        None => None,
    };
    PageVersion { page_image, record }
}

/// Mathematical view of one entry of a layer's version index: the block it
/// belongs to, the position it was recorded at, and the version itself.
#[verifier::ext_equal]
pub struct EntryView {
    pub blknum: nat,
    pub lsn: nat,
    pub pv: PageVersionView,
}

/// Mathematical view of a layer: its identity, its claimed position range
/// `[start, end)`, its durability classification, the highest position
/// recorded so far, the unlink fact if one was recorded, the version index,
/// and the recorded size facts.
#[verifier::ext_equal]
pub struct LayerView {
    pub timeline: nat,
    pub relish: nat,
    pub start: nat,
    pub end: nat,
    pub frozen: bool,
    pub latest: nat,
    pub drop_lsn: Option<nat>,
    pub entries: Seq<EntryView>,
    pub sizes: Seq<(nat, nat)>,
}

/// Well-formedness of a version index: positions are non-decreasing in
/// recording order, keys `(blknum, lsn)` are unique, every position lies in
/// `[start, latest]`, and every version is valid.
pub open spec fn entries_wf(entries: Seq<EntryView>, start: nat, latest: nat) -> bool {
    &&& forall|i: int, j: int|
        0 <= i < j < entries.len() ==> #[trigger] entries[i].lsn <= #[trigger] entries[j].lsn
    &&& forall|i: int, j: int|
        0 <= i < j < entries.len() ==> !(#[trigger] entries[i].blknum == #[trigger] entries[j].blknum
            && entries[i].lsn == entries[j].lsn)
    &&& forall|i: int|
        0 <= i < entries.len() ==> start <= (#[trigger] entries[i]).lsn <= latest
            && entries[i].pv.valid()
}

/// Well-formedness of a whole layer view.
pub open spec fn layer_wf(m: LayerView) -> bool {
    &&& m.start <= m.latest < m.end
    &&& entries_wf(m.entries, m.start, m.latest)
    &&& forall|i: int, j: int|
        0 <= i < j < m.sizes.len() ==> #[trigger] m.sizes[i].0 <= #[trigger] m.sizes[j].0
    &&& forall|i: int| 0 <= i < m.sizes.len() ==> m.start <= #[trigger] m.sizes[i].0 <= m.latest
    &&& (m.drop_lsn matches Some(d) ==> m.start <= d <= m.latest)
}

/// Index of the most recent version of `blknum` at or before `p` among the
/// first `n` entries.
pub open spec fn last_version_index(
    entries: Seq<EntryView>,
    blknum: nat,
    p: nat,
    n: nat,
) -> Option<int>
    decreases n,
{
    if n == 0 {
        None
    } else if entries[n - 1].blknum == blknum && entries[n - 1].lsn <= p {
        Some(n - 1)
    } else {
        last_version_index(entries, blknum, p, (n - 1) as nat)
    }
}

/// Reconstruction data for `blknum`, gathered from the first `n` entries by
/// walking backward: the nearest recorded image, and the records above it
/// in increasing position order.  A `None` image means the walk reached the
/// layer's start, in which case the canonical zero page is the base.  An
/// entry carrying an image stops the walk: the image already resolves the
/// entry's own record, if any.
pub open spec fn collect_versions(entries: Seq<EntryView>, blknum: nat, n: nat) -> (
    Option<Seq<u8>>,
    Seq<WalRecordView>,
)
    decreases n,
{
    if n == 0 {
        (None, Seq::<WalRecordView>::empty())
    } else if entries[n - 1].blknum != blknum {
        collect_versions(entries, blknum, (n - 1) as nat)
    } else if entries[n - 1].pv.page_image is Some {
        (Some(entries[n - 1].pv.page_image->0), Seq::<WalRecordView>::empty())
    } else {
        let prev = collect_versions(entries, blknum, (n - 1) as nat);
        (
            prev.0,
            prev.1.push(
                WalRecordView { lsn: entries[n - 1].lsn, rec: entries[n - 1].pv.record->0.rec },
            ),
        )
    }
}

/// The most recent size fact at or before `p` among the first `n` facts.
pub open spec fn size_at(sizes: Seq<(nat, nat)>, p: nat, n: nat) -> Option<nat>
    decreases n,
{
    if n == 0 {
        None
    } else if sizes[n - 1].0 <= p {
        Some(sizes[n - 1].1)
    } else {
        size_at(sizes, p, (n - 1) as nat)
    }
}

/// The most recently recorded size fact at or before `p`, or `None` if this
/// layer records none.
pub open spec fn relish_size_at(m: LayerView, p: nat) -> Option<nat> {
    size_at(m.sizes, p, m.sizes.len())
}

/// Whether the relish exists at `p`: false exactly when an unlink fact at
/// or before `p` is recorded.
pub open spec fn rel_exists_at(m: LayerView, p: nat) -> bool {
    !(m.drop_lsn matches Some(d) && d <= p)
}

/// Whether block `blknum` is cut off at `p` by a recorded truncation: the
/// most recent size fact at or before `p` places the block at or beyond the
/// relish's size.
pub open spec fn truncated_at(m: LayerView, blknum: nat, p: nat) -> bool {
    relish_size_at(m, p) matches Some(s) && blknum >= s
}

/// What a point-in-time read of block `blknum` as of position `p` returns:
/// a position outside the range is a caller error; a position at or after
/// the unlink reports non-existence; a truncated-away block reports
/// `NotFound`; otherwise the most recent version at or before `p` is
/// resolved, folding records into the nearest base image through the redo
/// manager, with the canonical zero page standing in when no version or no
/// base image is recorded.
pub open spec fn read_page_spec<R: WalRedoManager>(
    mgr: &R,
    m: LayerView,
    blknum: nat,
    p: nat,
) -> Result<Seq<u8>, LayerError> {
    if !(m.start <= p < m.end) {
        Err(LayerError::InvalidRange)
    } else if !rel_exists_at(m, p) {
        Err(LayerError::ObjectNotExists)
    } else if truncated_at(m, blknum, p) {
        Err(LayerError::NotFound)
    } else {
        match last_version_index(m.entries, blknum, p, m.entries.len()) {
            None => Ok(zero_page_seq()),
            Some(i) => {
                let cv = collect_versions(m.entries, blknum, (i + 1) as nat);
                let base = match cv.0 {
                    Some(img) => img,
                    None => zero_page_seq(),
                };
                if cv.1.len() == 0 {
                    Ok(base)
                } else {
                    match fold_with(mgr.apply_one(), base, cv.1) {
                        Some(img) => Ok(img),
                        None => Err(LayerError::RedoFailure),
                    }
                }
            },
        }
    }
}

/// Whether an executable read result equals a specified one.
pub open spec fn page_result_eq(r: Result<Vec<u8>, LayerError>, s: Result<Seq<u8>, LayerError>) -> bool {
    match r {
        Ok(v) => s == Ok::<Seq<u8>, LayerError>(v@),
        Err(e) => s == Err::<Seq<u8>, LayerError>(e),
    }
}

/// Index of the entry with exactly the key (`blknum`, `l`) among the first
/// `n` entries, if one exists.
pub open spec fn find_entry(entries: Seq<EntryView>, blknum: nat, l: nat, n: nat) -> Option<int>
    decreases n,
{
    if n == 0 {
        None
    } else if entries[n - 1].blknum == blknum && entries[n - 1].lsn == l {
        Some(n - 1)
    } else {
        find_entry(entries, blknum, l, (n - 1) as nat)
    }
}

/// The version index after recording `pv` at key (`blknum`, `l`): an
/// existing entry with that key is replaced, otherwise the entry is
/// appended.
pub open spec fn put_entries(
    entries: Seq<EntryView>,
    blknum: nat,
    l: nat,
    pv: PageVersionView,
) -> Seq<EntryView> {
    let e = EntryView { blknum, lsn: l, pv };
    match find_entry(entries, blknum, l, entries.len()) {
        Some(k) => entries.update(k, e),
        None => entries.push(e),
    }
}

/// The layer after a successful `put_page_version`.
pub open spec fn put_page_version_model(
    m: LayerView,
    blknum: nat,
    l: nat,
    pv: PageVersionView,
) -> LayerView {
    LayerView { entries: put_entries(m.entries, blknum, l, pv), latest: l, ..m }
}

/// The layer after a successful `put_truncation`.
pub open spec fn put_truncation_model(m: LayerView, l: nat, relsize: nat) -> LayerView {
    LayerView { sizes: m.sizes.push((l, relsize)), latest: l, ..m }
}

/// The layer after a successful `put_unlink`: the earliest unlink governs,
/// so a second unlink only advances `latest`.
pub open spec fn put_unlink_model(m: LayerView, l: nat) -> LayerView {
    LayerView {
        drop_lsn: if m.drop_lsn is Some {
            m.drop_lsn
        } else {
            Some(l)
        },
        latest: l,
        ..m
    }
}

/// Shared shape of every write contract: a write on a frozen layer fails
/// with `FrozenLayerMutation`; a position at or beyond the layer's end
/// fails with `InvalidRange`; a position below one already recorded fails
/// with `OutOfOrderAppend`; otherwise the write succeeds and the layer
/// steps to `ok_model`.  A failed write leaves the layer unchanged.
pub open spec fn write_post(
    old_m: LayerView,
    new_m: LayerView,
    l: nat,
    ok_model: LayerView,
    r: Result<(), LayerError>,
) -> bool {
    if old_m.frozen {
        r == Err::<(), LayerError>(LayerError::FrozenLayerMutation) && new_m == old_m
    } else if l >= old_m.end {
        r == Err::<(), LayerError>(LayerError::InvalidRange) && new_m == old_m
    } else if l < old_m.latest {
        r == Err::<(), LayerError>(LayerError::OutOfOrderAppend) && new_m == old_m
    } else {
        r == Ok::<(), LayerError>(()) && new_m == ok_model
    }
}

/// Properties of a found most-recent-version index.
pub proof fn lemma_last_version_index_props(entries: Seq<EntryView>, blknum: nat, p: nat, n: nat)
    requires
        n <= entries.len(),
    ensures
        (match last_version_index(entries, blknum, p, n) {
            Some(i) => 0 <= i < n && entries[i].blknum == blknum && entries[i].lsn <= p,
            None => forall|t: int|
                0 <= t < n ==> !(#[trigger] entries[t].blknum == blknum && entries[t].lsn <= p),
        }),
    decreases n,
{
    if n > 0 {
        if !(entries[n - 1].blknum == blknum && entries[n - 1].lsn <= p) {
            lemma_last_version_index_props(entries, blknum, p, (n - 1) as nat);
        }
    }
}

/// A key search over entries whose positions all differ from `l` finds
/// nothing.
pub proof fn lemma_find_entry_none_below(entries: Seq<EntryView>, blknum: nat, l: nat, n: nat)
    requires
        n <= entries.len(),
        forall|t: int| 0 <= t < n ==> (#[trigger] entries[t].lsn) != l,
    ensures
        find_entry(entries, blknum, l, n) is None,
    decreases n,
{
    if n > 0 {
        lemma_find_entry_none_below(entries, blknum, l, (n - 1) as nat);
    }
}

/// Properties of a key search: a found index carries the key; a miss means
/// no entry carries it.
pub proof fn lemma_find_entry_props(entries: Seq<EntryView>, blknum: nat, l: nat, n: nat)
    requires
        n <= entries.len(),
    ensures
        (match find_entry(entries, blknum, l, n) {
            Some(k) => 0 <= k < n && entries[k].blknum == blknum && entries[k].lsn == l,
            None => forall|t: int|
                0 <= t < n ==> !(#[trigger] entries[t].blknum == blknum && entries[t].lsn == l),
        }),
    decreases n,
{
    if n > 0 {
        if !(entries[n - 1].blknum == blknum && entries[n - 1].lsn == l) {
            lemma_find_entry_props(entries, blknum, l, (n - 1) as nat);
        }
    }
}

/// Whether some entry below `n` belongs to `blknum` and was recorded at `l`.
pub open spec fn rec_from_below(entries: Seq<EntryView>, blknum: nat, n: nat, l: nat) -> bool {
    exists|t: int| 0 <= t < n && (#[trigger] entries[t]).blknum == blknum && entries[t].lsn == l
}

/// The records gathered for a reconstruction come from entries of the block
/// below the walk's start, and their positions are strictly increasing: the
/// order the redo manager requires.
pub proof fn lemma_collect_increasing(
    entries: Seq<EntryView>,
    blknum: nat,
    n: nat,
    start: nat,
    latest: nat,
)
    requires
        n <= entries.len(),
        entries_wf(entries, start, latest),
    ensures
        strictly_increasing(collect_versions(entries, blknum, n).1),
        forall|k: int|
            0 <= k < collect_versions(entries, blknum, n).1.len() ==> rec_from_below(
                entries,
                blknum,
                n,
                (#[trigger] collect_versions(entries, blknum, n).1[k]).lsn,
            ),
    decreases n,
{
    if n > 0 {
        lemma_collect_increasing(entries, blknum, (n - 1) as nat, start, latest);
        let prev = collect_versions(entries, blknum, (n - 1) as nat);
        let cur = collect_versions(entries, blknum, n);
        if entries[n - 1].blknum == blknum && entries[n - 1].pv.page_image is None {
            let rv = WalRecordView {
                lsn: entries[n - 1].lsn,
                rec: entries[n - 1].pv.record->0.rec,
            };
            assert(cur.1 == prev.1.push(rv));
            assert forall|k: int| 0 <= k < prev.1.len() implies prev.1[k].lsn < rv.lsn by {
                let t = choose|t: int|
                    0 <= t < n - 1 && (#[trigger] entries[t]).blknum == blknum && entries[t].lsn
                        == prev.1[k].lsn;
                assert(entries[t].lsn <= entries[n - 1].lsn);
                assert(entries[t].lsn != entries[n - 1].lsn);
            }
            assert forall|k: int| 0 <= k < cur.1.len() implies rec_from_below(
                entries,
                blknum,
                n,
                (#[trigger] cur.1[k]).lsn,
            ) by {
                if k < prev.1.len() {
                    let t = choose|t: int|
                        0 <= t < n - 1 && (#[trigger] entries[t]).blknum == blknum
                            && entries[t].lsn == prev.1[k].lsn;
                    assert(0 <= t < n && entries[t].blknum == blknum && entries[t].lsn
                        == cur.1[k].lsn);
                } else {
                    assert(entries[n - 1].blknum == blknum && entries[n - 1].lsn == cur.1[k].lsn);
                }
            }
        } else {
            if entries[n - 1].blknum == blknum {
                assert(cur.1 == Seq::<WalRecordView>::empty());
            } else {
                assert(cur.1 == prev.1);
                assert forall|k: int| 0 <= k < cur.1.len() implies rec_from_below(
                    entries,
                    blknum,
                    n,
                    (#[trigger] cur.1[k]).lsn,
                ) by {
                    let t = choose|t: int|
                        0 <= t < n - 1 && (#[trigger] entries[t]).blknum == blknum
                            && entries[t].lsn == prev.1[k].lsn;
                    assert(0 <= t < n && entries[t].blknum == blknum && entries[t].lsn
                        == cur.1[k].lsn);
                }
            }
        }
    }
}

/// One entry of the concrete version index.
pub(crate) struct PageEntry {
    pub(crate) blknum: u32,
    pub(crate) lsn: Lsn,
    pub(crate) pv: PageVersion,
}

impl View for PageEntry {
    type V = EntryView;

    closed spec fn view(&self) -> EntryView {
        EntryView { blknum: self.blknum as nat, lsn: self.lsn@, pv: self.pv@ }
    }
}

/// The concrete state shared by both layer variants.  The version index is
/// kept in recording order; the size facts likewise.
pub(crate) struct LayerData {
    pub(crate) timeline_id: ZTimelineId,
    pub(crate) relish_tag: RelishTag,
    pub(crate) start_lsn: Lsn,
    pub(crate) end_lsn: Lsn,
    pub(crate) frozen: bool,
    pub(crate) latest_lsn: Lsn,
    pub(crate) drop_lsn: Option<Lsn>,
    pub(crate) page_versions: Vec<PageEntry>,
    pub(crate) relsizes: Vec<(Lsn, u32)>,
}

impl LayerData {
    /// The mathematical view of this state.
    pub(crate) open spec fn model(&self) -> LayerView {
        LayerView {
            timeline: self.timeline_id@,
            relish: self.relish_tag@,
            start: self.start_lsn@,
            end: self.end_lsn@,
            frozen: self.frozen,
            latest: self.latest_lsn@,
            drop_lsn: match self.drop_lsn {
                Some(l) => Some(l@),
                None => None,
            },
            entries: self.page_versions@.map_values(|e: PageEntry| e@),
            sizes: self.relsizes@.map_values(|t: (Lsn, u32)| (t.0@, t.1 as nat)),
        }
    }

    /// Well-formedness of this state.
    pub(crate) open spec fn wf(&self) -> bool {
        layer_wf(self.model())
    }

    /// A fresh open state for one relish, starting at `start_lsn`.
    pub(crate) fn new(timeline_id: ZTimelineId, relish_tag: RelishTag, start_lsn: Lsn) -> (d:
        LayerData)
        requires
            start_lsn.0 < u64::MAX,
        ensures
            d.wf(),
            d.model() == (LayerView {
                timeline: timeline_id@,
                relish: relish_tag@,
                start: start_lsn@,
                end: u64::MAX as nat,
                frozen: false,
                latest: start_lsn@,
                drop_lsn: None,
                entries: Seq::<EntryView>::empty(),
                sizes: Seq::<(nat, nat)>::empty(),
            }),
    {
        let d = LayerData {
            timeline_id,
            relish_tag,
            start_lsn,
            end_lsn: Lsn(u64::MAX),
            frozen: false,
            latest_lsn: start_lsn,
            drop_lsn: None,
            page_versions: Vec::new(),
            relsizes: Vec::new(),
        };
        proof {
            assert(d.model().entries =~= Seq::<EntryView>::empty());
            assert(d.model().sizes =~= Seq::<(nat, nat)>::empty());
            assert(d.model() =~= (LayerView {
                timeline: timeline_id@,
                relish: relish_tag@,
                start: start_lsn@,
                end: u64::MAX as nat,
                frozen: false,
                latest: start_lsn@,
                drop_lsn: None,
                entries: Seq::<EntryView>::empty(),
                sizes: Seq::<(nat, nat)>::empty(),
            }));
        }
        d
    }

    /// Whether the relish exists at `lsn`.
    pub(crate) fn rel_exists(&self, lsn: Lsn) -> (r: bool)
        ensures
            r == rel_exists_at(self.model(), lsn@),
    {
        match self.drop_lsn {
            Some(d) => d.0 > lsn.0,
            None => true,
        }
    }

    /// The most recently recorded size fact at or before `lsn`.
    pub(crate) fn relish_size(&self, lsn: Lsn) -> (r: Option<u32>)
        ensures
            (match r {
                Some(s) => relish_size_at(self.model(), lsn@) == Some(s as nat),
                None => relish_size_at(self.model(), lsn@) is None,
            }),
    {
        let ghost sizes = self.model().sizes;
        let mut n: usize = self.relsizes.len();
        while n > 0
            invariant
                n <= self.relsizes.len(),
                sizes == self.model().sizes,
                sizes.len() == self.relsizes@.len(),
                size_at(sizes, lsn@, sizes.len()) == size_at(sizes, lsn@, n as nat),
            decreases n,
        {
            let pair = self.relsizes[n - 1];
            proof {
                assert(sizes[n - 1] == (self.relsizes@[n - 1].0@, self.relsizes@[n - 1].1 as nat));
            }
            if pair.0.0 <= lsn.0 {
                return Some(pair.1);
            }
            n -= 1;
        }
        None
    }

    /// Index of the most recent version of `blknum` at or before `lsn`.
    pub(crate) fn find_last_version(&self, blknum: u32, lsn: Lsn) -> (r: Option<usize>)
        ensures
            (match r {
                Some(i) => last_version_index(
                    self.model().entries,
                    blknum as nat,
                    lsn@,
                    self.model().entries.len(),
                ) == Some(i as int),
                None => last_version_index(
                    self.model().entries,
                    blknum as nat,
                    lsn@,
                    self.model().entries.len(),
                ) is None,
            }),
    {
        let ghost entries = self.model().entries;
        let mut n: usize = self.page_versions.len();
        while n > 0
            invariant
                n <= self.page_versions.len(),
                entries == self.model().entries,
                entries.len() == self.page_versions@.len(),
                last_version_index(entries, blknum as nat, lsn@, entries.len())
                    == last_version_index(entries, blknum as nat, lsn@, n as nat),
            decreases n,
        {
            let e = &self.page_versions[n - 1];
            proof {
                assert(entries[n - 1] == self.page_versions@[n - 1]@);
            }
            if e.blknum == blknum && e.lsn.0 <= lsn.0 {
                return Some(n - 1);
            }
            n -= 1;
        }
        None
    }

    /// Index of the nearest entry of `blknum` at or below index `i` that
    /// carries a full image, if any.
    pub(crate) fn find_base_image(&self, blknum: u32, i: usize) -> (r: Option<usize>)
        requires
            i < self.model().entries.len(),
        ensures
            ({
                let entries = self.model().entries;
                match r {
                    Some(k) => k <= i && entries[k as int].blknum == blknum as nat
                        && entries[k as int].pv.page_image is Some && (forall|t: int|
                        k < t <= i && (#[trigger] entries[t]).blknum == blknum as nat
                            ==> entries[t].pv.page_image is None),
                    None => forall|t: int|
                        0 <= t <= i && (#[trigger] entries[t]).blknum == blknum as nat
                            ==> entries[t].pv.page_image is None,
                }
            }),
    {
        let ghost entries = self.model().entries;
        let total = self.page_versions.len();
        proof {
            assert(entries.len() == self.page_versions@.len());
            assert(i < total);
        }
        let mut n: usize = i + 1;
        while n > 0
            invariant
                n <= i + 1,
                i < total,
                total == self.page_versions@.len(),
                i < entries.len(),
                entries == self.model().entries,
                entries.len() == self.page_versions@.len(),
                forall|t: int|
                    n <= t <= i && (#[trigger] entries[t]).blknum == blknum as nat
                        ==> entries[t].pv.page_image is None,
            decreases n,
        {
            let e = &self.page_versions[n - 1];
            proof {
                assert(entries[n - 1] == self.page_versions@[n - 1]@);
            }
            if e.blknum == blknum {
                if e.pv.page_image().is_some() {
                    return Some(n - 1);
                }
            }
            n -= 1;
        }
        None
    }

    /// Index of the entry recorded at exactly (`blknum`, `lsn`), if any.
    /// Only positions at or above every recorded one are searched for: the
    /// version index is sorted, so the search stops at the first lower
    /// position.
    pub(crate) fn find_exact(&self, blknum: u32, lsn: Lsn) -> (r: Option<usize>)
        requires
            self.wf(),
            self.model().latest <= lsn@,
        ensures
            ({
                let entries = self.model().entries;
                match r {
                    Some(k) => k < entries.len() && find_entry(
                        entries,
                        blknum as nat,
                        lsn@,
                        entries.len(),
                    ) == Some(k as int),
                    None => find_entry(entries, blknum as nat, lsn@, entries.len()) is None,
                }
            }),
    {
        let ghost entries = self.model().entries;
        let mut n: usize = self.page_versions.len();
        while n > 0
            invariant
                n <= self.page_versions.len(),
                entries == self.model().entries,
                entries.len() == self.page_versions@.len(),
                self.wf(),
                self.model().latest <= lsn@,
                find_entry(entries, blknum as nat, lsn@, entries.len()) == find_entry(
                    entries,
                    blknum as nat,
                    lsn@,
                    n as nat,
                ),
            decreases n,
        {
            let e = &self.page_versions[n - 1];
            proof {
                assert(entries[n - 1] == self.page_versions@[n - 1]@);
            }
            if e.lsn.0 == lsn.0 {
                if e.blknum == blknum {
                    return Some(n - 1);
                }
                n -= 1;
            } else {
                proof {
                    assert forall|t: int| 0 <= t < n implies (#[trigger] entries[t]).lsn != lsn@ by {
                        assert(entries[t].lsn <= entries[n - 1].lsn);
                        assert(entries[n - 1].lsn < lsn@);
                    }
                    lemma_find_entry_none_below(entries, blknum as nat, lsn@, n as nat);
                }
                return None;
            }
        }
        None
    }

    /// A point-in-time read of block `blknum` as of `lsn`, resolving the
    /// most recent version through the redo manager where records must be
    /// folded.
    pub(crate) fn read_page<R: WalRedoManager>(
        &self,
        walredo_mgr: &R,
        blknum: u32,
        lsn: Lsn,
    ) -> (r: Result<Vec<u8>, LayerError>)
        requires
            self.wf(),
        ensures
            page_result_eq(r, read_page_spec(walredo_mgr, self.model(), blknum as nat, lsn@)),
    {
        let ghost m = self.model();
        let ghost b = blknum as nat;
        let ghost p = lsn@;
        if lsn.0 < self.start_lsn.0 || lsn.0 >= self.end_lsn.0 {
            return Err(LayerError::InvalidRange);
        }
        if !self.rel_exists(lsn) {
            return Err(LayerError::ObjectNotExists);
        }
        let relsize = self.relish_size(lsn);
        match relsize {
            Some(s) => {
                if blknum >= s {
                    return Err(LayerError::NotFound);
                }
            },
            None => {},
        }
        proof {
            assert(!truncated_at(m, b, p));
        }
        let found = self.find_last_version(blknum, lsn);
        proof {
            lemma_last_version_index_props(m.entries, b, p, m.entries.len());
        }
        let i = match found {
            None => {
                return Ok(zero_page());
            },
            Some(i) => i,
        };
        let ghost entries = m.entries;
        let total = self.page_versions.len();
        proof {
            assert(entries.len() == self.page_versions@.len());
            assert(i < total);
        }
        let base_idx = self.find_base_image(blknum, i);
        let mut j: usize;
        let base: Option<Vec<u8>>;
        match base_idx {
            Some(k) => {
                let e = &self.page_versions[k];
                proof {
                    assert(entries[k as int] == self.page_versions@[k as int]@);
                }
                match e.pv.page_image() {
                    Some(img) => {
                        base = Some(copy_bytes(img));
                    },
                    None => {
                        proof {
                            assert(false);
                        }
                        base = None;
                    },
                }
                j = k + 1;
            },
            None => {
                base = None;
                j = 0;
            },
        }
        let ghost bspec = collect_versions(entries, b, j as nat).0;
        proof {
            assert(bspec == (match base {
                Some(ref v) => Some(v@),
                None => None,
            }));
        }
        let mut recs: Vec<WALRecord> = Vec::new();
        proof {
            assert(records_view(recs@) =~= Seq::<WalRecordView>::empty());
        }
        while j <= i
            invariant
                j <= i + 1,
                i < total,
                total == self.page_versions@.len(),
                i < entries.len(),
                entries == self.model().entries,
                entries.len() == self.page_versions@.len(),
                self.wf(),
                b == blknum as nat,
                collect_versions(entries, b, j as nat).0 == bspec,
                collect_versions(entries, b, j as nat).1 == records_view(recs@),
                forall|t: int|
                    j <= t <= i && (#[trigger] entries[t]).blknum == b ==> entries[t].pv.page_image
                        is None,
            decreases i + 1 - j,
        {
            let e = &self.page_versions[j];
            proof {
                assert(entries[j as int] == self.page_versions@[j as int]@);
                assert(entries[j as int].pv.valid());
            }
            if e.blknum == blknum {
                match e.pv.record() {
                    Some(rc) => {
                        let ghost prev_recs = recs@;
                        recs.push(WALRecord { lsn: e.lsn, rec: copy_bytes(&rc.rec) });
                        proof {
                            assert(records_view(recs@) =~= records_view(prev_recs).push(
                                WalRecordView {
                                    lsn: entries[j as int].lsn,
                                    rec: entries[j as int].pv.record->0.rec,
                                },
                            ));
                        }
                    },
                    None => {
                        proof {
                            assert(false);
                        }
                    },
                }
            }
            j += 1;
        }
        proof {
            assert(collect_versions(entries, b, (i + 1) as nat) == (bspec, records_view(recs@)));
        }
        let base_vec = match base {
            Some(v) => v,
            None => zero_page(),
        };
        proof {
            match base_idx {
                Some(k) => {
                    assert(entries[k as int].pv.valid());
                },
                None => {},
            }
            assert(base_vec@.len() == PAGE_SIZE);
        }
        if recs.len() == 0 {
            return Ok(base_vec);
        }
        proof {
            lemma_collect_increasing(entries, b, (i + 1) as nat, m.start, m.latest);
        }
        let res = walredo_mgr.apply(self.relish_tag, blknum, lsn, &base_vec, &recs);
        match res {
            Ok(img) => Ok(img),
            Err(_) => Err(LayerError::RedoFailure),
        }
    }

    /// A read that opportunistically stores the reconstructed image back
    /// into the version entry it resolved, so a later read of that entry
    /// finds a base image at once.  The caching is observationally
    /// transparent: every read of every block answers as before it.
    pub(crate) fn read_page_cached<R: WalRedoManager>(
        &mut self,
        walredo_mgr: &R,
        blknum: u32,
        lsn: Lsn,
    ) -> (r: Result<Vec<u8>, LayerError>)
        requires
            old(self).wf(),
        ensures
            final(self).wf(),
            final(self).model().frozen == old(self).model().frozen,
            page_result_eq(r, read_page_spec(walredo_mgr, old(self).model(), blknum as nat, lsn@)),
            forall|b: nat, q: nat|
                read_page_spec(walredo_mgr, final(self).model(), b, q) == read_page_spec(
                    walredo_mgr,
                    old(self).model(),
                    b,
                    q,
                ),
    {
        let ghost m = old(self).model();
        let ghost b = blknum as nat;
        let ghost p = lsn@;
        let r = self.read_page(walredo_mgr, blknum, lsn);
        let img = match &r {
            Ok(v) => copy_bytes(v),
            Err(_) => {
                return r;
            },
        };
        if img.len() != PAGE_SIZE {
            return r;
        }
        let found = self.find_last_version(blknum, lsn);
        proof {
            lemma_last_version_index_props(m.entries, b, p, m.entries.len());
            assert(m.entries.len() == self.page_versions@.len());
        }
        let i = match found {
            Some(i) => i,
            None => {
                return r;
            },
        };
        let already = {
            let e = &self.page_versions[i];
            e.pv.page_image().is_some()
        };
        if already {
            return r;
        }
        let cached = {
            let e = &self.page_versions[i];
            let record = match e.pv.record() {
                Some(rc) => Some(WALRecord { lsn: rc.lsn, rec: copy_bytes(&rc.rec) }),
                None => None,
            };
            PageEntry {
                blknum: e.blknum,
                lsn: e.lsn,
                pv: PageVersion { page_image: Some(copy_bytes(&img)), record },
            }
        };
        self.page_versions.set(i, cached);
        proof {
            assert(self.model().entries =~= cache_model(m, i as int, img@).entries);
            assert(self.model() =~= cache_model(m, i as int, img@));
            assert(m.start <= p < m.end && rel_exists_at(m, p) && !truncated_at(m, b, p));
            lemma_read_is_resolve(walredo_mgr, m, b, p);
            assert(resolve_at(walredo_mgr, m.entries, b, (i + 1) as nat) == Some(img@));
            assert(m.entries[i as int].blknum == b);
            assert forall|bq: nat, q: nat|
                read_page_spec(walredo_mgr, self.model(), bq, q) == read_page_spec(
                    walredo_mgr,
                    m,
                    bq,
                    q,
                ) by {
                lemma_cache_transparent_core(walredo_mgr, m, i as int, img@, bq, q);
            }
            let es = self.model().entries;
            assert forall|a: int, c: int| 0 <= a < c < es.len() implies (#[trigger] es[a]).lsn
                <= (#[trigger] es[c]).lsn by {
                assert(m.entries[a].lsn <= m.entries[c].lsn);
            }
            assert forall|a: int, c: int| 0 <= a < c < es.len() implies !((#[trigger] es[a]).blknum
                == (#[trigger] es[c]).blknum && es[a].lsn == es[c].lsn) by {
                assert(!(m.entries[a].blknum == m.entries[c].blknum && m.entries[a].lsn
                    == m.entries[c].lsn));
            }
            assert forall|a: int| 0 <= a < es.len() implies m.start <= (#[trigger] es[a]).lsn
                <= m.latest && es[a].pv.valid() by {
                assert(m.start <= m.entries[a].lsn <= m.latest && m.entries[a].pv.valid());
            }
            assert(layer_wf(self.model()));
        }
        r
    }

    /// Records `pv` for `blknum` at `lsn`: the version index maps each key
    /// (`blknum`, `lsn`) to one version, so recording at an existing key
    /// replaces that version.
    pub(crate) fn put_page_version(&mut self, blknum: u32, lsn: Lsn, pv: PageVersion) -> (r:
        Result<(), LayerError>)
        requires
            old(self).wf(),
            pv@.valid(),
        ensures
            final(self).wf(),
            write_post(
                old(self).model(),
                final(self).model(),
                lsn@,
                put_page_version_model(old(self).model(), blknum as nat, lsn@, pv@),
                r,
            ),
    {
        let ghost m = old(self).model();
        let ghost b = blknum as nat;
        let ghost l = lsn@;
        if self.frozen {
            return Err(LayerError::FrozenLayerMutation);
        }
        if lsn.0 >= self.end_lsn.0 {
            return Err(LayerError::InvalidRange);
        }
        if lsn.0 < self.latest_lsn.0 {
            return Err(LayerError::OutOfOrderAppend);
        }
        let found = self.find_exact(blknum, lsn);
        proof {
            lemma_find_entry_props(m.entries, b, l, m.entries.len());
        }
        match found {
            Some(k) => {
                self.page_versions.set(k, PageEntry { blknum, lsn, pv });
            },
            None => {
                self.page_versions.push(PageEntry { blknum, lsn, pv });
            },
        }
        self.latest_lsn = lsn;
        proof {
            let target = put_page_version_model(m, b, l, pv@);
            assert(self.model().entries =~= target.entries);
            assert(self.model() =~= target);
            let es = self.model().entries;
            assert forall|a: int, c: int| 0 <= a < c < es.len() implies (#[trigger] es[a]).lsn
                <= (#[trigger] es[c]).lsn by {
                if c < m.entries.len() {
                    assert(m.entries[a].lsn <= m.entries[c].lsn);
                } else {
                    assert(m.entries[a].lsn <= m.latest);
                }
            }
            assert forall|a: int, c: int| 0 <= a < c < es.len() implies !((#[trigger] es[a]).blknum
                == (#[trigger] es[c]).blknum && es[a].lsn == es[c].lsn) by {
                if c < m.entries.len() {
                    assert(!(m.entries[a].blknum == m.entries[c].blknum && m.entries[a].lsn
                        == m.entries[c].lsn));
                } else {
                    assert(!(m.entries[a].blknum == b && m.entries[a].lsn == l));
                }
            }
            assert forall|a: int| 0 <= a < es.len() implies m.start <= (#[trigger] es[a]).lsn <= l
                && es[a].pv.valid() by {
                if a < m.entries.len() && (match find_entry(m.entries, b, l, m.entries.len()) {
                    Some(k) => a != k,
                    None => true,
                }) {
                    assert(es[a] == m.entries[a]);
                    assert(m.start <= m.entries[a].lsn <= m.latest);
                }
            }
            assert(layer_wf(self.model()));
        }
        Ok(())
    }

    /// Records a size fact effective at `lsn`.
    pub(crate) fn put_truncation(&mut self, lsn: Lsn, relsize: u32) -> (r: Result<(), LayerError>)
        requires
            old(self).wf(),
        ensures
            final(self).wf(),
            write_post(
                old(self).model(),
                final(self).model(),
                lsn@,
                put_truncation_model(old(self).model(), lsn@, relsize as nat),
                r,
            ),
    {
        let ghost m = old(self).model();
        if self.frozen {
            return Err(LayerError::FrozenLayerMutation);
        }
        if lsn.0 >= self.end_lsn.0 {
            return Err(LayerError::InvalidRange);
        }
        if lsn.0 < self.latest_lsn.0 {
            return Err(LayerError::OutOfOrderAppend);
        }
        self.relsizes.push((lsn, relsize));
        self.latest_lsn = lsn;
        proof {
            let target = put_truncation_model(m, lsn@, relsize as nat);
            assert(self.model().sizes =~= target.sizes);
            assert(self.model() =~= target);
            let ss = self.model().sizes;
            assert forall|a: int| 0 <= a < ss.len() implies m.start <= (#[trigger] ss[a]).0 <= lsn@ by {
                if a < m.sizes.len() {
                    assert(ss[a] == m.sizes[a]);
                    assert(m.start <= m.sizes[a].0 <= m.latest);
                }
            }
            assert forall|a: int, c: int| 0 <= a < c < ss.len() implies (#[trigger] ss[a]).0
                <= (#[trigger] ss[c]).0 by {
                if c < m.sizes.len() {
                    assert(m.sizes[a].0 <= m.sizes[c].0);
                } else {
                    assert(m.sizes[a].0 <= m.latest);
                }
            }
            assert(layer_wf(self.model()));
        }
        Ok(())
    }

    /// Records an unlink fact effective at `lsn`; the earliest recorded
    /// unlink governs.
    pub(crate) fn put_unlink(&mut self, lsn: Lsn) -> (r: Result<(), LayerError>)
        requires
            old(self).wf(),
        ensures
            final(self).wf(),
            write_post(
                old(self).model(),
                final(self).model(),
                lsn@,
                put_unlink_model(old(self).model(), lsn@),
                r,
            ),
    {
        let ghost m = old(self).model();
        if self.frozen {
            return Err(LayerError::FrozenLayerMutation);
        }
        if lsn.0 >= self.end_lsn.0 {
            return Err(LayerError::InvalidRange);
        }
        if lsn.0 < self.latest_lsn.0 {
            return Err(LayerError::OutOfOrderAppend);
        }
        if self.drop_lsn.is_none() {
            self.drop_lsn = Some(lsn);
        }
        self.latest_lsn = lsn;
        proof {
            let target = put_unlink_model(m, lsn@);
            assert(self.model() =~= target);
            assert(layer_wf(self.model()));
        }
        Ok(())
    }

    /// A frozen copy of this state, sealed at `end_lsn`.
    pub(crate) fn freeze_data(&self, end_lsn: Lsn) -> (d: LayerData)
        requires
            self.wf(),
            self.model().latest < end_lsn@,
        ensures
            d.wf(),
            d.model() == (LayerView { frozen: true, end: end_lsn@, ..self.model() }),
    {
        let mut page_versions: Vec<PageEntry> = Vec::new();
        let mut i: usize = 0;
        while i < self.page_versions.len()
            invariant
                i <= self.page_versions.len(),
                page_versions@.len() == i,
                forall|t: int| 0 <= t < i ==> (#[trigger] page_versions@[t])@
                    == self.page_versions@[t]@,
            decreases self.page_versions.len() - i,
        {
            let e = &self.page_versions[i];
            page_versions.push(
                PageEntry { blknum: e.blknum, lsn: e.lsn, pv: copy_page_version(&e.pv) },
            );
            i += 1;
        }
        let mut relsizes: Vec<(Lsn, u32)> = Vec::new();
        let mut k: usize = 0;
        while k < self.relsizes.len()
            invariant
                k <= self.relsizes.len(),
                relsizes@ == self.relsizes@.subrange(0, k as int),
            decreases self.relsizes.len() - k,
        {
            relsizes.push(self.relsizes[k]);
            k += 1;
            proof {
                assert(relsizes@ =~= self.relsizes@.subrange(0, k as int));
            }
        }
        proof {
            assert(relsizes@ =~= self.relsizes@);
        }
        let d = LayerData {
            timeline_id: self.timeline_id,
            relish_tag: self.relish_tag,
            start_lsn: self.start_lsn,
            end_lsn,
            frozen: true,
            latest_lsn: self.latest_lsn,
            drop_lsn: self.drop_lsn,
            page_versions,
            relsizes,
        };
        proof {
            assert(d.model().entries =~= self.model().entries);
            assert(d.model().sizes =~= self.model().sizes);
            assert(d.model() =~= (LayerView { frozen: true, end: end_lsn@, ..self.model() }));
            assert(layer_wf(d.model()));
        }
        d
    }
}

/// The outcome owed by `freeze`: on a frozen layer it fails with
/// `FrozenLayerMutation`; with a sealing position not above the highest
/// recorded one it fails with `InvalidRange`; otherwise it succeeds, and
/// the returned frozen layers' ranges partition `[start, end)` exactly
/// while carrying the layer's whole recorded state.  The splitting policy
/// here returns a single frozen layer covering the whole range.
pub open spec fn freeze_post(
    m: LayerView,
    end: nat,
    r: Result<Vec<SnapshotLayer>, LayerError>,
) -> bool {
    if m.frozen {
        r == Err::<Vec<SnapshotLayer>, LayerError>(LayerError::FrozenLayerMutation)
    } else if end <= m.latest {
        r == Err::<Vec<SnapshotLayer>, LayerError>(LayerError::InvalidRange)
    } else {
        match r {
            Ok(v) => {
                &&& v@.len() == 1
                &&& v@[0].wf()
                &&& v@[0]@ == (LayerView { frozen: true, end, ..m })
            },
            Err(_) => false,
        }
    }
}

/// A layer holds all page versions of one relish in a range of log
/// positions.  The open, in-memory variant ingests new versions; the
/// frozen variant is immutable.  Both expose this one contract.
pub trait Layer: Sized + Send + Sync {
    /// The layer's mathematical view.
    spec fn model(&self) -> LayerView;

    /// The layer's representation invariant.
    spec fn inv(&self) -> bool;

    /// A layer satisfying its invariant has a well-formed view.
    proof fn inv_implies_wf(&self)
        requires
            self.inv(),
        ensures
            layer_wf(self.model()),
    ;

    /// The timeline this layer belongs to.
    fn get_timeline_id(&self) -> (r: ZTimelineId)
        ensures
            r@ == self.model().timeline,
    ;

    /// The relish whose history this layer holds.
    fn get_relish_tag(&self) -> (r: RelishTag)
        ensures
            r@ == self.model().relish,
    ;

    /// The first position this layer covers.
    fn get_start_lsn(&self) -> (r: Lsn)
        ensures
            r@ == self.model().start,
    ;

    /// The first position past this layer's coverage.
    fn get_end_lsn(&self) -> (r: Lsn)
        ensures
            r@ == self.model().end,
    ;

    /// Whether an unlink fact is recorded in this layer.
    fn is_dropped(&self) -> (r: bool)
        ensures
            r == (self.model().drop_lsn is Some),
    ;

    /// Whether this layer is immutable.
    fn is_frozen(&self) -> (r: bool)
        ensures
            r == self.model().frozen,
    ;

    /// The bytes of block `blknum` as of position `lsn`.
    fn get_page_at_lsn<R: WalRedoManager>(&self, walredo_mgr: &R, blknum: u32, lsn: Lsn) -> (r:
        Result<Vec<u8>, LayerError>)
        requires
            self.inv(),
        ensures
            page_result_eq(r, read_page_spec(walredo_mgr, self.model(), blknum as nat, lsn@)),
    ;

    /// The most recently recorded size fact at or before `lsn`.
    fn get_relish_size(&self, lsn: Lsn) -> (r: Result<Option<u32>, LayerError>)
        requires
            self.inv(),
        ensures
            (match r {
                Ok(o) => (match o {
                    Some(s) => relish_size_at(self.model(), lsn@) == Some(s as nat),
                    None => relish_size_at(self.model(), lsn@) is None,
                }),
                Err(_) => false,
            }),
    ;

    /// Whether the relish exists at `lsn`.
    fn get_rel_exists(&self, lsn: Lsn) -> (r: Result<bool, LayerError>)
        requires
            self.inv(),
        ensures
            r == Ok::<bool, LayerError>(rel_exists_at(self.model(), lsn@)),
    ;

    /// Records `pv` for `blknum` at `lsn`.
    fn put_page_version(&mut self, blknum: u32, lsn: Lsn, pv: PageVersion) -> (r: Result<
        (),
        LayerError,
    >)
        requires
            old(self).inv(),
            pv@.valid(),
        ensures
            final(self).inv(),
            write_post(
                old(self).model(),
                final(self).model(),
                lsn@,
                put_page_version_model(old(self).model(), blknum as nat, lsn@, pv@),
                r,
            ),
    ;

    /// Records a new version as a WAL record over the previous one.
    fn put_wal_record(&mut self, blknum: u32, rec: WALRecord) -> (r: Result<(), LayerError>)
        requires
            old(self).inv(),
        ensures
            final(self).inv(),
            write_post(
                old(self).model(),
                final(self).model(),
                rec@.lsn,
                put_page_version_model(
                    old(self).model(),
                    blknum as nat,
                    rec@.lsn,
                    PageVersionView { page_image: None, record: Some(rec@) },
                ),
                r,
            ),
    {
        let lsn = rec.lsn;
        let pv = PageVersion::from_wal_record(rec);
        self.put_page_version(blknum, lsn, pv)
    }

    /// Records a new version as a full page image.
    fn put_page_image(&mut self, blknum: u32, lsn: Lsn, img: Vec<u8>) -> (r: Result<
        (),
        LayerError,
    >)
        requires
            old(self).inv(),
            img@.len() == PAGE_SIZE,
        ensures
            final(self).inv(),
            write_post(
                old(self).model(),
                final(self).model(),
                lsn@,
                put_page_version_model(
                    old(self).model(),
                    blknum as nat,
                    lsn@,
                    PageVersionView { page_image: Some(img@), record: None },
                ),
                r,
            ),
    {
        let pv = PageVersion::from_page_image(img);
        self.put_page_version(blknum, lsn, pv)
    }

    /// Records a size fact effective at `lsn`.
    fn put_truncation(&mut self, lsn: Lsn, relsize: u32) -> (r: Result<(), LayerError>)
        requires
            old(self).inv(),
        ensures
            final(self).inv(),
            write_post(
                old(self).model(),
                final(self).model(),
                lsn@,
                put_truncation_model(old(self).model(), lsn@, relsize as nat),
                r,
            ),
    ;

    /// Records an unlink fact effective at `lsn`.
    fn put_unlink(&mut self, lsn: Lsn) -> (r: Result<(), LayerError>)
        requires
            old(self).inv(),
        ensures
            final(self).inv(),
            write_post(
                old(self).model(),
                final(self).model(),
                lsn@,
                put_unlink_model(old(self).model(), lsn@),
                r,
            ),
    ;

    /// Seals this layer's history up to `end_lsn` into frozen layers that
    /// replace it.  On failure the layer is untouched and fully usable.
    /// The redo manager is part of the contract for the sake of splitting
    /// policies that materialize boundary images; the policy here, a
    /// single output layer, does not consult it.
    fn freeze<R: WalRedoManager>(&self, end_lsn: Lsn, walredo_mgr: &R) -> (r: Result<
        Vec<SnapshotLayer>,
        LayerError,
    >)
        requires
            self.inv(),
        ensures
            freeze_post(self.model(), end_lsn@, r),
    ;

    /// Releases what in-memory state can be released without changing the
    /// layer's logical identity or observable contents.  Both variants
    /// here are their own backing store, so nothing can be released.
    fn unload(&mut self) -> (r: Result<(), LayerError>)
        requires
            old(self).inv(),
        ensures
            final(self).inv(),
            final(self).model() == old(self).model(),
            r == Ok::<(), LayerError>(()),
    ;
}

/// Prefix agreement: the most recent size fact depends only on the first
/// `n` facts.
pub proof fn lemma_size_at_prefix(s1: Seq<(nat, nat)>, s2: Seq<(nat, nat)>, p: nat, n: nat)
    requires
        n <= s1.len(),
        n <= s2.len(),
        forall|i: int| 0 <= i < n ==> s1[i] == s2[i],
    ensures
        size_at(s1, p, n) == size_at(s2, p, n),
    decreases n,
{
    if n > 0 {
        lemma_size_at_prefix(s1, s2, p, (n - 1) as nat);
    }
}

/// Unlink monotonicity: after an unlink at `l`, the relish does not exist
/// at any position at or after `l`, and existence below `l` is unchanged.
pub proof fn lemma_unlink_monotonic(m: LayerView, l: nat, q: nat)
    requires
        m.drop_lsn is None,
    ensures
        q >= l ==> !rel_exists_at(put_unlink_model(m, l), q),
        q < l ==> rel_exists_at(put_unlink_model(m, l), q) == rel_exists_at(m, q),
{
}

/// Unlink monotonicity, read half: where the relish does not exist, every
/// in-range read fails with `ObjectNotExists`.
pub proof fn lemma_unlinked_read_fails<R: WalRedoManager>(
    mgr: &R,
    m: LayerView,
    blknum: nat,
    q: nat,
)
    requires
        m.start <= q < m.end,
        !rel_exists_at(m, q),
    ensures
        read_page_spec(mgr, m, blknum, q) == Err::<Seq<u8>, LayerError>(
            LayerError::ObjectNotExists,
        ),
{
}

/// Truncation boundary, size half: after recording size `s` at `l`, the
/// recorded size at any position at or after `l` is `s`, and sizes below
/// `l` are unchanged.
pub proof fn lemma_truncation_boundary(m: LayerView, l: nat, s: nat, q: nat)
    requires
        layer_wf(m),
        m.latest <= l,
    ensures
        q >= l ==> relish_size_at(put_truncation_model(m, l, s), q) == Some(s),
        q < l ==> relish_size_at(put_truncation_model(m, l, s), q) == relish_size_at(m, q),
{
    let ms = put_truncation_model(m, l, s).sizes;
    assert(ms == m.sizes.push((l, s)));
    assert(ms[ms.len() - 1] == (l, s));
    if q < l {
        assert(size_at(ms, q, ms.len()) == size_at(ms, q, m.sizes.len()));
        lemma_size_at_prefix(ms, m.sizes, q, m.sizes.len());
    }
}

/// Truncation boundary, read half: a read of a truncated-away block at an
/// in-range position consistently reports non-existence: `NotFound`, or
/// `ObjectNotExists` where the relish is already unlinked there.
pub proof fn lemma_truncated_read_fails<R: WalRedoManager>(
    mgr: &R,
    m: LayerView,
    blknum: nat,
    q: nat,
)
    requires
        m.start <= q < m.end,
        truncated_at(m, blknum, q),
    ensures
        read_page_spec(mgr, m, blknum, q) == (if rel_exists_at(m, q) {
            Err::<Seq<u8>, LayerError>(LayerError::NotFound)
        } else {
            Err::<Seq<u8>, LayerError>(LayerError::ObjectNotExists)
        }),
{
}

/// Whether the layers' ranges partition `[start, end)` exactly:
/// contiguous, pairwise disjoint, and union-complete.
pub open spec fn ranges_partition(v: Seq<SnapshotLayer>, start: nat, end: nat) -> bool {
    &&& v.len() >= 1
    &&& v[0]@.start == start
    &&& v[v.len() - 1]@.end == end
    &&& forall|i: int| 0 <= i < v.len() - 1 ==> (#[trigger] v[i])@.end == v[i + 1]@.start
    &&& forall|i: int| 0 <= i < v.len() ==> (#[trigger] v[i])@.start < v[i]@.end
}

/// Freeze coverage, range half: the layers a successful freeze returns
/// partition `[start, end)` exactly.
pub proof fn lemma_freeze_partitions(
    m: LayerView,
    end: nat,
    r: Result<Vec<SnapshotLayer>, LayerError>,
)
    requires
        layer_wf(m),
        freeze_post(m, end, r),
        r is Ok,
    ensures
        ranges_partition(r->Ok_0@, m.start, end),
{
}

/// Freeze coverage, read half: a frozen layer carrying the same recorded
/// state answers every read below its sealed end exactly as the original
/// layer does.
pub proof fn lemma_freeze_read_agrees<R: WalRedoManager>(
    mgr: &R,
    m: LayerView,
    f: LayerView,
    blknum: nat,
    p: nat,
)
    requires
        f.start == m.start,
        f.drop_lsn == m.drop_lsn,
        f.entries == m.entries,
        f.sizes == m.sizes,
        m.start <= p < f.end,
        p < m.end,
    ensures
        read_page_spec(mgr, f, blknum, p) == read_page_spec(mgr, m, blknum, p),
{
}

/// The base image a reconstruction starts from: the collected image, or
/// the canonical zero page when none is recorded.
pub open spec fn base_of(cv0: Option<Seq<u8>>) -> Seq<u8> {
    match cv0 {
        Some(img) => img,
        None => zero_page_seq(),
    }
}

/// What resolving the reconstruction data gathered from the first `n`
/// entries yields.
pub open spec fn resolve_at<R: WalRedoManager>(
    mgr: &R,
    entries: Seq<EntryView>,
    blknum: nat,
    n: nat,
) -> Option<Seq<u8>> {
    fold_with(
        mgr.apply_one(),
        base_of(collect_versions(entries, blknum, n).0),
        collect_versions(entries, blknum, n).1,
    )
}

/// The layer after the reconstruction path caches a resolved image in the
/// entry at index `i`.
pub open spec fn cache_model(m: LayerView, i: int, img: Seq<u8>) -> LayerView {
    LayerView {
        entries: m.entries.update(
            i,
            EntryView {
                blknum: m.entries[i].blknum,
                lsn: m.entries[i].lsn,
                pv: PageVersionView { page_image: Some(img), record: m.entries[i].pv.record },
            },
        ),
        ..m
    }
}

/// The most recent version found depends only on the entries' keys.
pub proof fn lemma_lvi_same_keys(
    e1: Seq<EntryView>,
    e2: Seq<EntryView>,
    blknum: nat,
    p: nat,
    n: nat,
)
    requires
        n <= e1.len(),
        e1.len() == e2.len(),
        forall|t: int|
            0 <= t < e1.len() ==> (#[trigger] e1[t]).blknum == e2[t].blknum && e1[t].lsn
                == e2[t].lsn,
    ensures
        last_version_index(e1, blknum, p, n) == last_version_index(e2, blknum, p, n),
    decreases n,
{
    if n > 0 {
        lemma_lvi_same_keys(e1, e2, blknum, p, (n - 1) as nat);
    }
}

/// Reconstruction data agrees wherever the block's entries agree.
pub proof fn lemma_collect_agree(e1: Seq<EntryView>, e2: Seq<EntryView>, blknum: nat, n: nat)
    requires
        n <= e1.len(),
        n <= e2.len(),
        forall|t: int|
            0 <= t < n ==> (#[trigger] e1[t]).blknum == e2[t].blknum && e1[t].lsn == e2[t].lsn && (
            e1[t].blknum == blknum ==> e1[t].pv == e2[t].pv),
    ensures
        collect_versions(e1, blknum, n) == collect_versions(e2, blknum, n),
    decreases n,
{
    if n > 0 {
        lemma_collect_agree(e1, e2, blknum, (n - 1) as nat);
    }
}

/// The most recent version of an entry's own block at the entry's own
/// position is that entry itself.
pub proof fn lemma_lvi_at_own_key(e: Seq<EntryView>, i: int, start: nat, latest: nat, n: nat)
    requires
        entries_wf(e, start, latest),
        0 <= i < n <= e.len(),
    ensures
        last_version_index(e, e[i].blknum, e[i].lsn, n) == Some(i),
    decreases n,
{
    if n - 1 > i {
        if e[n - 1].blknum == e[i].blknum && e[n - 1].lsn <= e[i].lsn {
            assert(e[i].lsn <= e[n - 1].lsn);
            assert(!(e[i].blknum == e[n - 1].blknum && e[i].lsn == e[n - 1].lsn));
            assert(false);
        }
        lemma_lvi_at_own_key(e, i, start, latest, (n - 1) as nat);
    }
}

/// An in-range read that is not blocked by unlink or truncation resolves
/// the most recent version's reconstruction data.
pub proof fn lemma_read_is_resolve<R: WalRedoManager>(mgr: &R, m: LayerView, blknum: nat, p: nat)
    requires
        m.start <= p < m.end,
        rel_exists_at(m, p),
        !truncated_at(m, blknum, p),
    ensures
        read_page_spec(mgr, m, blknum, p) == (match last_version_index(
            m.entries,
            blknum,
            p,
            m.entries.len(),
        ) {
            None => Ok::<Seq<u8>, LayerError>(zero_page_seq()),
            Some(i) => (match resolve_at(mgr, m.entries, blknum, (i + 1) as nat) {
                Some(img) => Ok::<Seq<u8>, LayerError>(img),
                None => Err::<Seq<u8>, LayerError>(LayerError::RedoFailure),
            }),
        }),
{
}

/// Caching a resolved image in the entry it resolves leaves every later
/// reconstruction of that block with the same outcome.
proof fn lemma_resolve_cached<R: WalRedoManager>(
    mgr: &R,
    m: LayerView,
    i: int,
    img: Seq<u8>,
    n: nat,
)
    requires
        layer_wf(m),
        0 <= i < m.entries.len(),
        m.entries[i].pv.page_image is None,
        i < n <= m.entries.len(),
        resolve_at(mgr, m.entries, m.entries[i].blknum, (i + 1) as nat) == Some(img),
    ensures
        resolve_at(mgr, cache_model(m, i, img).entries, m.entries[i].blknum, n) == resolve_at(
            mgr,
            m.entries,
            m.entries[i].blknum,
            n,
        ),
    decreases n,
{
    let b0 = m.entries[i].blknum;
    let e1 = cache_model(m, i, img).entries;
    let e2 = m.entries;
    let step = mgr.apply_one();
    if n == i + 1 {
        assert(e1[i].pv.page_image == Some(img));
        assert(collect_versions(e1, b0, n) == (Some(img), Seq::<WalRecordView>::empty()));
        assert(resolve_at(mgr, e1, b0, n) == Some(img));
    } else {
        lemma_resolve_cached(mgr, m, i, img, (n - 1) as nat);
        assert(e1[n - 1] == e2[n - 1]);
        if e2[n - 1].blknum != b0 {
            assert(collect_versions(e1, b0, n) == collect_versions(e1, b0, (n - 1) as nat));
            assert(collect_versions(e2, b0, n) == collect_versions(e2, b0, (n - 1) as nat));
        } else if e2[n - 1].pv.page_image is Some {
            assert(collect_versions(e1, b0, n) == collect_versions(e2, b0, n));
        } else {
            let rv = WalRecordView { lsn: e2[n - 1].lsn, rec: e2[n - 1].pv.record->0.rec };
            let c1 = collect_versions(e1, b0, (n - 1) as nat);
            let c2 = collect_versions(e2, b0, (n - 1) as nat);
            assert(collect_versions(e1, b0, n) == (c1.0, c1.1.push(rv)));
            assert(collect_versions(e2, b0, n) == (c2.0, c2.1.push(rv)));
            assert(c1.1.push(rv) =~= c1.1 + seq![rv]);
            assert(c2.1.push(rv) =~= c2.1 + seq![rv]);
            lemma_fold_with_append(step, base_of(c1.0), c1.1, seq![rv]);
            lemma_fold_with_append(step, base_of(c2.0), c2.1, seq![rv]);
            assert(seq![rv].first() == rv);
            assert(seq![rv].drop_first() =~= Seq::<WalRecordView>::empty());
        }
    }
}

/// Determinism under caching: storing a reconstructed image back into the
/// entry it resolves is observationally transparent.  Every read of every
/// block at every position answers exactly as it did before the caching.
pub proof fn lemma_cache_transparent<R: WalRedoManager>(
    mgr: &R,
    m: LayerView,
    i: int,
    img: Seq<u8>,
    blknum: nat,
    p: nat,
)
    requires
        layer_wf(m),
        0 <= i < m.entries.len(),
        m.entries[i].pv.page_image is None,
        read_page_spec(mgr, m, m.entries[i].blknum, m.entries[i].lsn) == Ok::<Seq<u8>, LayerError>(
            img,
        ),
    ensures
        read_page_spec(mgr, cache_model(m, i, img), blknum, p) == read_page_spec(
            mgr,
            m,
            blknum,
            p,
        ),
{
    let b0 = m.entries[i].blknum;
    let l0 = m.entries[i].lsn;
    let e2 = m.entries;
    assert(m.start <= l0 <= m.latest);
    assert(rel_exists_at(m, l0));
    assert(!truncated_at(m, b0, l0));
    lemma_lvi_at_own_key(e2, i, m.start, m.latest, e2.len());
    lemma_read_is_resolve(mgr, m, b0, l0);
    assert(resolve_at(mgr, e2, b0, (i + 1) as nat) == Some(img));
    lemma_cache_transparent_core(mgr, m, i, img, blknum, p);
}

/// The transparency argument itself, from the resolved image alone.
pub proof fn lemma_cache_transparent_core<R: WalRedoManager>(
    mgr: &R,
    m: LayerView,
    i: int,
    img: Seq<u8>,
    blknum: nat,
    p: nat,
)
    requires
        layer_wf(m),
        0 <= i < m.entries.len(),
        m.entries[i].pv.page_image is None,
        resolve_at(mgr, m.entries, m.entries[i].blknum, (i + 1) as nat) == Some(img),
    ensures
        read_page_spec(mgr, cache_model(m, i, img), blknum, p) == read_page_spec(
            mgr,
            m,
            blknum,
            p,
        ),
{
    let b0 = m.entries[i].blknum;
    let m2 = cache_model(m, i, img);
    let e1 = m2.entries;
    let e2 = m.entries;
    assert forall|t: int| 0 <= t < e2.len() implies (#[trigger] e1[t]).blknum == e2[t].blknum
        && e1[t].lsn == e2[t].lsn by {}
    if !(m.start <= p < m.end) || !rel_exists_at(m, p) || truncated_at(m, blknum, p) {
        assert(read_page_spec(mgr, m2, blknum, p) == read_page_spec(mgr, m, blknum, p));
    } else {
        lemma_lvi_same_keys(e1, e2, blknum, p, e2.len());
        lemma_read_is_resolve(mgr, m, blknum, p);
        lemma_read_is_resolve(mgr, m2, blknum, p);
        match last_version_index(e2, blknum, p, e2.len()) {
            None => {},
            Some(j) => {
                lemma_last_version_index_props(e2, blknum, p, e2.len());
                if blknum == b0 && j >= i {
                    lemma_resolve_cached(mgr, m, i, img, (j + 1) as nat);
                } else {
                    assert forall|t: int| 0 <= t < j + 1 implies (#[trigger] e1[t]).blknum
                        == e2[t].blknum && e1[t].lsn == e2[t].lsn && (e1[t].blknum == blknum
                        ==> e1[t].pv == e2[t].pv) by {
                        if t == i {
                            assert(e1[t].blknum == b0);
                        }
                    }
                    lemma_collect_agree(e1, e2, blknum, (j + 1) as nat);
                }
            },
        }
    }
}

} // verus!
