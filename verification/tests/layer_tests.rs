use pageserver::inmemory_layer::InMemoryLayer;
use pageserver::lsn::Lsn;
use pageserver::relish::RelishTag;
use pageserver::repository::WALRecord;
use pageserver::storage_layer::{zero_page, Layer, LayerError, PageVersion, PAGE_SIZE};
use pageserver::walredo::PatchRedoManager;
use pageserver::zid::ZTimelineId;

fn open_layer(start: u64) -> InMemoryLayer {
    InMemoryLayer::new(ZTimelineId(1), RelishTag(7), Lsn(start))
}

fn patch(lsn: u64, off: usize, val: u8) -> WALRecord {
    WALRecord { lsn: Lsn(lsn), rec: vec![(off / 256) as u8, (off % 256) as u8, val] }
}

#[test]
fn identity_accessors() {
    let layer = open_layer(100);
    assert_eq!(layer.get_timeline_id(), ZTimelineId(1));
    assert_eq!(layer.get_relish_tag(), RelishTag(7));
    assert_eq!(layer.get_start_lsn(), Lsn(100));
    assert_eq!(layer.get_end_lsn(), Lsn(u64::MAX));
    assert!(!layer.is_frozen());
    assert!(!layer.is_dropped());
}

#[test]
fn page_version_requires_some_part() {
    assert!(PageVersion::new(None, None).is_none());
    assert!(PageVersion::new(None, Some(patch(5, 0, 1))).is_some());
    assert!(PageVersion::new(Some(zero_page()), None).is_some());
    // an image that is not a whole page is rejected too
    assert!(PageVersion::new(Some(vec![0u8; 16]), None).is_none());
}

#[test]
fn unwritten_block_reads_as_zero_page() {
    let layer = open_layer(100);
    let mgr = PatchRedoManager;
    let page = layer.get_page_at_lsn(&mgr, 3, Lsn(500)).unwrap();
    assert_eq!(page, vec![0u8; PAGE_SIZE]);
    assert_eq!(layer.get_rel_exists(Lsn(500)), Ok(true));
    assert_eq!(layer.get_relish_size(Lsn(500)), Ok(None));
}

#[test]
fn reconstruction_scenario() {
    // a full zero base image at 100, a delta at 150 setting byte 0 to 1,
    // a delta at 200 setting byte 0 to 2
    let mut layer = open_layer(100);
    let mgr = PatchRedoManager;
    layer.put_page_image(0, Lsn(100), zero_page()).unwrap();
    layer.put_wal_record(0, patch(150, 0, 1)).unwrap();
    layer.put_wal_record(0, patch(200, 0, 2)).unwrap();

    let at_175 = layer.get_page_at_lsn(&mgr, 0, Lsn(175)).unwrap();
    assert_eq!(at_175[0], 1);
    assert!(at_175[1..].iter().all(|b| *b == 0));

    let at_250 = layer.get_page_at_lsn(&mgr, 0, Lsn(250)).unwrap();
    assert_eq!(at_250[0], 2);

    let at_100 = layer.get_page_at_lsn(&mgr, 0, Lsn(100)).unwrap();
    assert_eq!(at_100[0], 0);

    assert_eq!(layer.get_page_at_lsn(&mgr, 0, Lsn(99)), Err(LayerError::InvalidRange));
}

#[test]
fn repeated_reads_are_identical() {
    let mut layer = open_layer(0);
    let mgr = PatchRedoManager;
    layer.put_page_image(2, Lsn(10), zero_page()).unwrap();
    layer.put_wal_record(2, patch(20, 5, 9)).unwrap();
    let first = layer.get_page_at_lsn(&mgr, 2, Lsn(30)).unwrap();
    let second = layer.get_page_at_lsn(&mgr, 2, Lsn(30)).unwrap();
    assert_eq!(first, second);
    assert_eq!(first[5], 9);
}

#[test]
fn caching_a_reconstruction_is_transparent() {
    let mut plain = open_layer(0);
    let mut caching = open_layer(0);
    let mgr = PatchRedoManager;
    for layer in [&mut plain, &mut caching] {
        layer.put_page_image(2, Lsn(10), zero_page()).unwrap();
        layer.put_wal_record(2, patch(20, 5, 9)).unwrap();
        layer.put_wal_record(2, patch(30, 6, 4)).unwrap();
    }
    let cached = caching.get_page_at_lsn_cached(&mgr, 2, Lsn(25)).unwrap();
    assert_eq!(cached, plain.get_page_at_lsn(&mgr, 2, Lsn(25)).unwrap());
    // identical results after the cache was stored, for every read tried
    for lsn in [10, 20, 25, 30, 40] {
        assert_eq!(
            caching.get_page_at_lsn(&mgr, 2, Lsn(lsn)).unwrap(),
            plain.get_page_at_lsn(&mgr, 2, Lsn(lsn)).unwrap()
        );
    }
}

#[test]
fn delta_chain_from_zero_base() {
    // no image recorded at all: the canonical zero page is the base
    let mut layer = open_layer(0);
    let mgr = PatchRedoManager;
    layer.put_wal_record(4, patch(10, 0, 7)).unwrap();
    layer.put_wal_record(4, patch(11, 1, 8)).unwrap();
    let page = layer.get_page_at_lsn(&mgr, 4, Lsn(12)).unwrap();
    assert_eq!(page[0], 7);
    assert_eq!(page[1], 8);
}

#[test]
fn malformed_record_is_redo_failure() {
    let mut layer = open_layer(0);
    let mgr = PatchRedoManager;
    layer
        .put_wal_record(1, WALRecord { lsn: Lsn(10), rec: vec![1, 2, 3, 4] })
        .unwrap();
    assert_eq!(layer.get_page_at_lsn(&mgr, 1, Lsn(10)), Err(LayerError::RedoFailure));
}

#[test]
fn replacement_at_same_key() {
    let mut layer = open_layer(0);
    let mgr = PatchRedoManager;
    layer.put_page_image(1, Lsn(10), zero_page()).unwrap();
    layer.put_wal_record(1, patch(20, 0, 5)).unwrap();
    // recording again at the same (block, position) replaces the version
    layer.put_wal_record(1, patch(20, 0, 6)).unwrap();
    let page = layer.get_page_at_lsn(&mgr, 1, Lsn(20)).unwrap();
    assert_eq!(page[0], 6);
}

#[test]
fn out_of_order_append_is_rejected() {
    let mut layer = open_layer(0);
    layer.put_wal_record(0, patch(100, 0, 1)).unwrap();
    assert_eq!(
        layer.put_wal_record(0, patch(99, 0, 2)),
        Err(LayerError::OutOfOrderAppend)
    );
    // equal positions are allowed
    assert_eq!(layer.put_wal_record(1, patch(100, 0, 3)), Ok(()));
}

#[test]
fn frozen_layer_rejects_writes() {
    let mut layer = open_layer(0);
    let mgr = PatchRedoManager;
    layer.put_page_image(0, Lsn(10), zero_page()).unwrap();
    let mut frozen = layer.freeze(Lsn(11), &mgr).unwrap().pop().unwrap();
    assert!(frozen.is_frozen());
    assert_eq!(
        frozen.put_page_version(0, Lsn(20), PageVersion::from_page_image(zero_page())),
        Err(LayerError::FrozenLayerMutation)
    );
    assert_eq!(frozen.put_truncation(Lsn(20), 1), Err(LayerError::FrozenLayerMutation));
    assert_eq!(frozen.put_unlink(Lsn(20)), Err(LayerError::FrozenLayerMutation));
    assert_eq!(
        frozen.freeze(Lsn(30), &mgr).map(|v| v.len()),
        Err(LayerError::FrozenLayerMutation)
    );
}

#[test]
fn freeze_covers_range_and_preserves_reads() {
    let mut layer = open_layer(100);
    let mgr = PatchRedoManager;
    layer.put_page_image(0, Lsn(100), zero_page()).unwrap();
    layer.put_wal_record(0, patch(150, 0, 1)).unwrap();
    let before_150 = layer.get_page_at_lsn(&mgr, 0, Lsn(155)).unwrap();
    let before_100 = layer.get_page_at_lsn(&mgr, 0, Lsn(100)).unwrap();

    let frozen_layers = layer.freeze(Lsn(200), &mgr).unwrap();
    // the returned layers' ranges exactly partition [start, end)
    assert_eq!(frozen_layers.len(), 1);
    assert_eq!(frozen_layers[0].get_start_lsn(), Lsn(100));
    assert_eq!(frozen_layers[0].get_end_lsn(), Lsn(200));
    // the original layer is untouched and fully usable
    assert_eq!(layer.get_page_at_lsn(&mgr, 0, Lsn(155)).unwrap(), before_150);

    // every read valid before the freeze answers identically afterwards
    let frozen = &frozen_layers[0];
    assert_eq!(frozen.get_page_at_lsn(&mgr, 0, Lsn(155)).unwrap(), before_150);
    assert_eq!(frozen.get_page_at_lsn(&mgr, 0, Lsn(100)).unwrap(), before_100);
    // past the sealed end the frozen layer no longer answers
    assert_eq!(frozen.get_page_at_lsn(&mgr, 0, Lsn(200)), Err(LayerError::InvalidRange));
}

#[test]
fn freeze_below_latest_fails() {
    let mut layer = open_layer(0);
    let mgr = PatchRedoManager;
    layer.put_wal_record(0, patch(50, 0, 1)).unwrap();
    assert_eq!(
        layer.freeze(Lsn(50), &mgr).map(|v| v.len()),
        Err(LayerError::InvalidRange)
    );
    // still usable afterwards
    assert_eq!(layer.put_wal_record(0, patch(60, 0, 2)), Ok(()));
}

#[test]
fn unlink_is_monotonic() {
    let mut layer = open_layer(0);
    let mgr = PatchRedoManager;
    layer.put_page_image(0, Lsn(10), zero_page()).unwrap();
    layer.put_unlink(Lsn(50)).unwrap();
    assert!(layer.is_dropped());
    // unaffected below the unlink
    assert_eq!(layer.get_rel_exists(Lsn(49)), Ok(true));
    assert!(layer.get_page_at_lsn(&mgr, 0, Lsn(49)).is_ok());
    // gone at and after the unlink
    assert_eq!(layer.get_rel_exists(Lsn(50)), Ok(false));
    assert_eq!(layer.get_rel_exists(Lsn(500)), Ok(false));
    assert_eq!(layer.get_page_at_lsn(&mgr, 0, Lsn(50)), Err(LayerError::ObjectNotExists));
    assert_eq!(layer.get_page_at_lsn(&mgr, 0, Lsn(500)), Err(LayerError::ObjectNotExists));
}

#[test]
fn truncation_boundary() {
    let mut layer = open_layer(0);
    let mgr = PatchRedoManager;
    layer.put_page_image(0, Lsn(10), zero_page()).unwrap();
    layer.put_page_image(5, Lsn(20), zero_page()).unwrap();
    layer.put_truncation(Lsn(30), 3).unwrap();
    // the size fact is visible at and after its position
    assert_eq!(layer.get_relish_size(Lsn(30)), Ok(Some(3)));
    assert_eq!(layer.get_relish_size(Lsn(400)), Ok(Some(3)));
    assert_eq!(layer.get_relish_size(Lsn(29)), Ok(None));
    // blocks at or beyond the size read as gone at positions >= 30
    assert_eq!(layer.get_page_at_lsn(&mgr, 5, Lsn(30)), Err(LayerError::NotFound));
    assert_eq!(layer.get_page_at_lsn(&mgr, 3, Lsn(35)), Err(LayerError::NotFound));
    // block 0 is still below the size and still readable
    assert!(layer.get_page_at_lsn(&mgr, 0, Lsn(35)).is_ok());
    // before the truncation, block 5 still reads
    assert!(layer.get_page_at_lsn(&mgr, 5, Lsn(25)).is_ok());
    // a later truncation wins at later positions
    layer.put_truncation(Lsn(40), 8).unwrap();
    assert_eq!(layer.get_relish_size(Lsn(39)), Ok(Some(3)));
    assert_eq!(layer.get_relish_size(Lsn(40)), Ok(Some(8)));
    assert!(layer.get_page_at_lsn(&mgr, 5, Lsn(45)).is_ok());
}

#[test]
fn unload_and_delete() {
    let mut layer = open_layer(0);
    let mgr = PatchRedoManager;
    layer.put_page_image(0, Lsn(10), zero_page()).unwrap();
    assert_eq!(layer.unload(), Ok(()));
    let page_before = layer.get_page_at_lsn(&mgr, 0, Lsn(10)).unwrap();
    let mut frozen = layer.freeze(Lsn(20), &mgr).unwrap().pop().unwrap();
    assert_eq!(frozen.unload(), Ok(()));
    assert_eq!(frozen.get_page_at_lsn(&mgr, 0, Lsn(10)).unwrap(), page_before);
    assert_eq!(frozen.delete(), Ok(()));
}

#[test]
fn put_page_version_directly() {
    let mut layer = open_layer(0);
    let mgr = PatchRedoManager;
    let pv = PageVersion::new(None, Some(patch(15, 2, 4))).unwrap();
    layer.put_page_version(9, Lsn(15), pv).unwrap();
    let page = layer.get_page_at_lsn(&mgr, 9, Lsn(15)).unwrap();
    assert_eq!(page[2], 4);
}

#[test]
fn writes_below_start_are_rejected() {
    let mut layer = open_layer(100);
    assert_eq!(
        layer.put_wal_record(0, patch(99, 0, 1)),
        Err(LayerError::OutOfOrderAppend)
    );
}
