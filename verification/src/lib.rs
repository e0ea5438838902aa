//! An object store coupling a relational metadata catalog with a
//! content-addressed blob filesystem.
//!
//! Clients create named buckets and stream binary objects into them via a
//! two-phase upload (staging part, then committed object). The store
//! deduplicates by content hash, tracks per-bucket membership, and offers
//! consistency operations (`check`, `archive`, `prune`) that verify, mirror,
//! and reclaim the data at rest.

use vstd::prelude::*;

pub mod content;
pub mod error;
pub mod fs;
pub mod host;
pub mod model;
pub mod progress;
pub mod store;
pub mod table;

verus! {

/// The running software version.
#[derive(Clone, Debug)]
pub struct Version {
    pub number: String,
}

/// Static facts about the running store.
#[derive(Clone, Debug)]
pub struct About {
    pub version: Version,
}

} // verus!
