//! The data model: buckets, object metadata records, and the bodies the
//! create-bucket endpoint may carry.
//!
//! Timestamps are held as milliseconds since the Unix epoch; object
//! identifiers and blob handles are opaque to this layer.

use vstd::prelude::*;

verus! {

/// A named, globally unique top-level container for objects.
#[derive(Debug, Clone)]
pub struct Bucket {
    pub name: String,
    pub region: String,
    /// Milliseconds since the Unix epoch.
    pub creation_date: i64,
}

/// A key-scoped metadata record within exactly one bucket.
///
/// The byte payload lives in an external blob backend referenced by
/// `file_id`; this layer never interprets that handle.
#[derive(Debug, Clone)]
pub struct ObjectRecord {
    /// Opaque identifier of this record.
    pub id: u128,
    /// The object's key, unique within its bucket.
    pub key: String,
    /// Payload size in bytes.
    pub size: u64,
    pub etag: String,
    /// Milliseconds since the Unix epoch.
    pub last_modified: i64,
    /// The owning bucket's name.
    pub bucket_name: String,
    /// Opaque handle into the external blob backend.
    pub file_id: String,
}

impl ObjectRecord {
    /// An equal copy of this record.
    pub fn duplicate(&self) -> (r: ObjectRecord)
        ensures
            r == *self,
    {
        ObjectRecord {
            id: self.id,
            key: self.key.clone(),
            size: self.size,
            etag: self.etag.clone(),
            last_modified: self.last_modified,
            bucket_name: self.bucket_name.clone(),
            file_id: self.file_id.clone(),
        }
    }
}

/// Location element of a create-bucket request body.
#[derive(Debug, Clone)]
pub struct LocationInfo {
    pub name: Option<String>,
    pub location_type: Option<String>,
}

/// Bucket element of a create-bucket request body.
#[derive(Debug, Clone)]
pub struct BucketInfo {
    pub data_redundancy: Option<String>,
    pub bucket_type: Option<String>,
}

/// The optional XML body of a create-bucket request.
#[derive(Debug, Clone)]
pub struct CreateBucketConfiguration {
    pub location_constraint: Option<String>,
    pub location: Option<LocationInfo>,
    pub bucket: Option<BucketInfo>,
}

} // verus!
