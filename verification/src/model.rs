//! The data model: buckets, objects, diagnostics, and aggregate totals.

use vstd::prelude::*;

verus! {

/// A committed, content-addressed object: its identity, content hash,
/// size, sniffed media type, and creation timestamp.
#[derive(Clone, Debug)]
pub struct Object {
    pub id: u128,
    pub hash: String,
    pub size: u64,
    pub media_type: String,
    pub media_subtype: String,
    pub added: i64,
}

/// A catalog-side bucket row: its unique name, creation timestamp, and
/// the ids of its member objects. The bucket's own id is the key under
/// which the catalog stores the record.
#[derive(Clone, Debug)]
pub struct BucketRecord {
    pub name: String,
    pub created: i64,
    pub objects: Vec<u128>,
}

/// The public view of a bucket: identity, name, and aggregates.
#[derive(Clone, Debug)]
pub struct Bucket {
    pub id: u128,
    pub name: String,
    pub created: i64,
    pub object_count: u64,
    pub space_used: u128,
}

/// A diagnostic record: the messages accumulated against one object by the
/// most recent stream operation.
#[derive(Clone, Debug)]
pub struct ObjectError {
    pub object_id: u128,
    pub messages: Vec<String>,
}

/// The report of a bulk object removal: which of the requested ids were
/// members of the bucket, and which were not.
#[derive(Clone, Debug)]
pub struct RemoveResult {
    pub removed: Vec<u128>,
    pub not_found: Vec<u128>,
}

/// An aggregated snapshot of the whole store.
#[derive(Clone, Copy, Debug, PartialEq, Eq, Structural)]
pub struct StoreTotals {
    pub buckets: u64,
    pub objects: u64,
    pub space_used: u128,
}

} // verus!
