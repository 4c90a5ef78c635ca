use crate::lsn::Lsn;
use crate::relish::RelishTag;
use crate::repository::{WALRecord, WalRecordView};
use crate::storage_layer::{copy_bytes, LayerError, PAGE_SIZE};
use vstd::pervasive::VecAdditionalExecFns;
use vstd::prelude::*;

verus! {

/// The views of a run of WAL records.
pub open spec fn records_view(s: Seq<WALRecord>) -> Seq<WalRecordView> {
    s.map_values(|r: WALRecord| r@)
}

/// Whether the record positions are strictly increasing: the order in which
/// records must be handed to the redo manager.
pub open spec fn strictly_increasing(recs: Seq<WalRecordView>) -> bool {
    forall|i: int, j: int|
        0 <= i < j < recs.len() ==> #[trigger] recs[i].lsn < #[trigger] recs[j].lsn
}

/// Folds `recs` into `base` one record at a time, first to last, with the
/// one-record application `step`; `None` when some record cannot be
/// replayed against the image it meets.
pub open spec fn fold_with(
    step: spec_fn(Seq<u8>, WalRecordView) -> Option<Seq<u8>>,
    base: Seq<u8>,
    recs: Seq<WalRecordView>,
) -> Option<Seq<u8>>
    decreases recs.len(),
{
    if recs.len() == 0 {
        Some(base)
    } else {
        match step(base, recs.first()) {
            Some(next) => fold_with(step, next, recs.drop_first()),
            None => None,
        }
    }
}

/// Folding over a concatenation folds the two parts in turn.
pub proof fn lemma_fold_with_append(
    step: spec_fn(Seq<u8>, WalRecordView) -> Option<Seq<u8>>,
    base: Seq<u8>,
    left: Seq<WalRecordView>,
    right: Seq<WalRecordView>,
)
    ensures
        fold_with(step, base, left + right) == (match fold_with(step, base, left) {
            Some(mid) => fold_with(step, mid, right),
            None => None,
        }),
    decreases left.len(),
{
    if left.len() == 0 {
        assert(left + right =~= right);
    } else {
        assert((left + right).first() == left.first());
        match step(base, left.first()) {
            Some(next) => {
                assert((left + right).drop_first() =~= left.drop_first() + right);
                lemma_fold_with_append(step, next, left.drop_first(), right);
            },
            None => {
                assert((left + right).len() != 0);
            },
        }
    }
}

/// The redo engine: folds a base image and ordered WAL records into the
/// resulting page image.  Applying records is a pure, deterministic
/// function of the base image and the record run.
pub trait WalRedoManager: Sized {
    /// The engine's one-record application: what replaying one record over
    /// one image yields, `None` when the record cannot be replayed against
    /// that image.
    spec fn apply_one(&self) -> spec_fn(Seq<u8>, WalRecordView) -> Option<Seq<u8>>;

    /// Applies `records` to `base` in order and returns the resulting
    /// image, or `RedoFailure` when some record cannot be replayed.
    fn apply(
        &self,
        tag: RelishTag,
        blknum: u32,
        lsn: Lsn,
        base: &Vec<u8>,
        records: &Vec<WALRecord>,
    ) -> (r: Result<Vec<u8>, LayerError>)
        requires
            base@.len() == PAGE_SIZE,
            strictly_increasing(records_view(records@)),
        ensures
            (match r {
                Ok(img) => fold_with(self.apply_one(), base@, records_view(records@)) == Some(
                    img@,
                ),
                Err(e) => {
                    &&& e == LayerError::RedoFailure
                    &&& fold_with(self.apply_one(), base@, records_view(records@)) is None
                },
            }),
    ;
}

/// What one patch record yields: a three-byte payload `[hi, lo, value]`
/// sets the byte at offset `hi * 256 + lo`; anything else is malformed.
pub open spec fn patch_one(base: Seq<u8>, rec: WalRecordView) -> Option<Seq<u8>> {
    if rec.rec.len() == 3 && 0 <= patch_offset(rec.rec) < base.len() {
        Some(base.update(patch_offset(rec.rec), rec.rec[2]))
    } else {
        None
    }
}

/// The offset named by a patch payload.
pub open spec fn patch_offset(payload: Seq<u8>) -> int {
    payload[0] * 256 + payload[1]
}

/// A redo manager whose records are single-byte patches.  It stands in for
/// an engine that replays real WAL: enough to exercise every reconstruction
/// path.
pub struct PatchRedoManager;

impl WalRedoManager for PatchRedoManager {
    open spec fn apply_one(&self) -> spec_fn(Seq<u8>, WalRecordView) -> Option<Seq<u8>> {
        |b: Seq<u8>, rc: WalRecordView| patch_one(b, rc)
    }

    fn apply(
        &self,
        tag: RelishTag,
        blknum: u32,
        lsn: Lsn,
        base: &Vec<u8>,
        records: &Vec<WALRecord>,
    ) -> (r: Result<Vec<u8>, LayerError>) {
        let ghost all = records_view(records@);
        let ghost step = self.apply_one();
        let mut img = copy_bytes(base);
        let mut k: usize = 0;
        proof {
            assert(all.skip(0) =~= all);
        }
        while k < records.len()
            invariant
                k <= records.len(),
                img@.len() == base@.len(),
                all == records_view(records@),
                step == self.apply_one(),
                fold_with(step, base@, all) == fold_with(step, img@, all.skip(k as int)),
            decreases records.len() - k,
        {
            let rec = &records[k];
            proof {
                assert(all[k as int] == records@[k as int]@);
                assert(all.skip(k as int).first() == all[k as int]);
                assert(step(img@, all[k as int]) == patch_one(img@, all[k as int]));
            }
            if rec.rec.len() == 3 {
                let off: usize = (rec.rec[0] as usize) * 256 + (rec.rec[1] as usize);
                if off < img.len() {
                    let val = rec.rec[2];
                    img.set(off, val);
                    proof {
                        assert(all.skip(k as int).drop_first() =~= all.skip(k as int + 1));
                    }
                    k += 1;
                    continue;
                }
            }
            proof {
                assert(patch_one(img@, all[k as int]) is None);
            }
            return Err(LayerError::RedoFailure);
        }
        proof {
            assert(all.skip(records@.len() as int).len() == 0);
        }
        Ok(img)
    }
}

} // verus!
