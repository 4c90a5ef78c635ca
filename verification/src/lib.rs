//! Versioned page storage: layers of page-version history for a
//! write-ahead-logged data store.
//!
//! A [`storage_layer::Layer`] stores a slice of one relish's page-version
//! history, bounded by a range of log positions.  The open, in-memory
//! variant ingests new versions; the frozen, immutable variant holds a
//! sealed slice.  Both answer point-in-time page reads by folding logged
//! deltas into a base image through a [`walredo::WalRedoManager`].

pub mod inmemory_layer;
pub mod lsn;
pub mod snapshot_layer;
pub mod relish;
pub mod repository;
pub mod storage_layer;
pub mod walredo;
pub mod zid;
