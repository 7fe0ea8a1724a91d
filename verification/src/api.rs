//! The compute side of the HTTP endpoints: each function takes the plain
//! values the transport layer parsed, drives the storage engine, and
//! returns the values the transport layer renders.
//!
//! Failures come back as the endpoint's protocol error, carrying the
//! resource path and the request-correlation token.

use vstd::prelude::*;

use crate::entities::{Bucket, CreateBucketConfiguration};
use crate::error::{map_create_error, map_delete_error, BaseError, CreateBucketError,
    DeleteBucketError};
use crate::storage::{default_region, StorageProvider};
use crate::sys::{format_rfc3339, rfc3339_of, MAX_TIMESTAMP_MILLIS};

verus! {

/// A character a request-correlation token is built from.
pub open spec fn is_request_id_char(c: char) -> bool {
    ('A' <= c && c <= 'Z') || ('0' <= c && c <= '9')
}

/// Draws a fresh opaque request-correlation token: sixteen characters,
/// each an uppercase letter or a digit.
pub fn generate_request_id() -> (r: String)
    ensures
        r@.len() == 16,
        forall|i: int| 0 <= i < r@.len() ==> is_request_id_char(#[trigger] r@[i]),
{
    let mut s = String::new();
    let mut i: usize = 0;
    while i < 16
        invariant
            i <= 16,
            s@.len() == i,
            forall|m: int| 0 <= m < s@.len() ==> is_request_id_char(#[trigger] s@[m]),
        decreases 16 - i,
    {
        let x: u32 = rand::random::<u32>();
        let idx: u32 = x % 36;
        let c: char = if idx < 26 {
            (65 + idx as u8) as char
        } else {
            (48 + (idx - 26) as u8) as char
        };
        assert(is_request_id_char(c));
        s.push(c);
        i += 1;
    }
    s
}

/// The region a create-bucket request body carries: the name under its
/// location element, if both are present.
pub open spec fn payload_region(payload: Option<CreateBucketConfiguration>) -> Option<Seq<char>> {
    match payload {
        Some(cfg) => match cfg.location {
            Some(loc) => match loc.name {
                Some(n) => Some(n@),
                None => None,
            },
            None => None,
        },
        None => None,
    }
}

/// The compute part of the create-bucket endpoint.
///
/// Registers the bucket, taking the region from the parsed body's
/// location name when one is given.  On success it returns the value of
/// the `Location` header, the bucket's path; an existing name comes back
/// as `BucketAlreadyExists` with status 409, carrying the bucket path and
/// the request token, and nothing changes.
pub fn create_bucket_response(
    provider: &mut StorageProvider,
    bucket: &str,
    payload: Option<CreateBucketConfiguration>,
    request_id: String,
) -> (r: Result<String, CreateBucketError>)
    requires
        old(provider).wf(),
    ensures
        final(provider).wf(),
        old(provider).has_bucket(bucket@) ==> (r matches Err(e) && e matches
            CreateBucketError::BucketAlreadyExists { request_id: rid, resource: res } && rid@
            == request_id@ && res@ == bucket@ && *final(provider) == *old(provider)),
        !old(provider).has_bucket(bucket@) ==> (r matches Ok(loc) && loc@ == "/"@ + bucket@) && {
            &&& final(provider).buckets@.len() == old(provider).buckets@.len() + 1
            &&& final(provider).buckets@.drop_last() == old(provider).buckets@
            &&& final(provider).buckets@.last().info.name@ == bucket@
            &&& final(provider).buckets@.last().info.region@ == (match payload_region(payload) {
                Some(rg) => rg,
                None => default_region(),
            })
            &&& 0 <= final(provider).buckets@.last().info.creation_date <= MAX_TIMESTAMP_MILLIS
            &&& final(provider).buckets@.last().objects@.len() == 0
        },
{
    let region: Option<String> = match payload {
        Some(cfg) => match cfg.location {
            Some(loc) => loc.name,
            None => None,
        },
        None => None,
    };
    match provider.create_bucket(bucket, region) {
        Ok(()) => {
            let mut loc = "/".to_owned();
            loc.append(bucket);
            Ok(loc)
        },
        Err(e) => Err(map_create_error(e, request_id, bucket.to_owned())),
    }
}

/// The compute part of the delete-bucket endpoint.
///
/// Removes the bucket.  An unknown name comes back as `NoSuchBucket`
/// with status 404 and a bucket still owning objects as `BucketNotEmpty`
/// with status 409, each carrying the bucket path and the request token;
/// nothing changes on failure.
pub fn delete_bucket_response(
    provider: &mut StorageProvider,
    bucket: &str,
    request_id: String,
) -> (r: Result<(), DeleteBucketError>)
    requires
        old(provider).wf(),
    ensures
        final(provider).wf(),
        !old(provider).has_bucket(bucket@) ==> (r matches Err(e) && e matches
            DeleteBucketError::NoSuchBucket { request_id: rid, resource: res } && rid@
            == request_id@ && res@ == bucket@ && *final(provider) == *old(provider)),
        old(provider).has_bucket(bucket@) && old(provider).buckets@[old(provider).bucket_idx(
            bucket@,
        )].objects@.len() > 0 ==> (r matches Err(e) && e matches DeleteBucketError::BucketNotEmpty {
            request_id: rid,
            resource: res,
        } && rid@ == request_id@ && res@ == bucket@ && *final(provider) == *old(provider)),
        old(provider).has_bucket(bucket@) && old(provider).buckets@[old(provider).bucket_idx(
            bucket@,
        )].objects@.len() == 0 ==> (r matches Ok(())) && final(provider).buckets@ == old(
            provider,
        ).buckets@.remove(old(provider).bucket_idx(bucket@)),
{
    match provider.delete_bucket(bucket) {
        Ok(()) => Ok(()),
        Err(e) => Err(map_delete_error(e, request_id, bucket.to_owned())),
    }
}

/// One bucket of the list-buckets response body.
#[derive(Debug, Clone)]
pub struct BucketSummary {
    pub creation_date: String,
    pub name: String,
}

/// The bucket collection of the response body.
#[derive(Debug, Clone)]
pub struct Buckets {
    pub buckets: Vec<BucketSummary>,
}

/// The fixed placeholder identity the response carries in the absence of
/// an authentication model.
#[derive(Debug, Clone)]
pub struct Owner {
    pub id: String,
    pub display_name: String,
}

/// The list-buckets response body.
#[derive(Debug, Clone)]
pub struct ListAllMyBucketsResult {
    pub buckets: Buckets,
    pub owner: Owner,
}

/// The compute part of the list-buckets endpoint.
///
/// Renders every registered bucket with its RFC 3339 creation date, in
/// registry order, under the fixed placeholder owner.  The in-memory
/// engine cannot fail; the request token is carried for the engines that
/// can.
pub fn list_buckets_response(provider: &StorageProvider, _request_id: String) -> (r: Result<
    ListAllMyBucketsResult,
    BaseError,
>)
    requires
        provider.wf(),
    ensures
        r matches Ok(body) && {
            &&& body.buckets.buckets@.len() == provider.buckets@.len()
            &&& (forall|i: int|
                0 <= i < provider.buckets@.len() ==> (#[trigger] body.buckets.buckets@[i]).name@
                    == provider.buckets@[i].info.name@)
            &&& (forall|i: int|
                0 <= i < provider.buckets@.len()
                    ==> (#[trigger] body.buckets.buckets@[i]).creation_date@ == rfc3339_of(
                    provider.buckets@[i].info.creation_date as int,
                ))
            &&& body.owner.id@ == "AIDACKCEVSQ6C2EXAMPLE"@
            &&& body.owner.display_name@ == "Account+Name"@
        },
{
    let listed = match provider.list_buckets() {
        Ok(listed) => listed,
        Err(_) => Vec::new(),
    };
    let n = listed.len();
    let mut summaries: Vec<BucketSummary> = Vec::new();
    let mut i: usize = 0;
    while i < n
        invariant
            provider.wf(),
            n == listed@.len(),
            n == provider.buckets@.len(),
            forall|m: int| 0 <= m < n ==> #[trigger] listed@[m] == provider.buckets@[m].info,
            i <= n,
            summaries@.len() == i,
            forall|m: int|
                0 <= m < i ==> (#[trigger] summaries@[m]).name@ == provider.buckets@[m].info.name@,
            forall|m: int|
                0 <= m < i ==> (#[trigger] summaries@[m]).creation_date@ == rfc3339_of(
                    provider.buckets@[m].info.creation_date as int,
                ),
        decreases n - i,
    {
        let b: &Bucket = &listed[i];
        assert(provider.buckets@[i as int].wf());
        let date = format_rfc3339(b.creation_date);
        summaries.push(BucketSummary { creation_date: date, name: b.name.clone() });
        i += 1;
    }
    Ok(
        ListAllMyBucketsResult {
            buckets: Buckets { buckets: summaries },
            owner: Owner {
                id: "AIDACKCEVSQ6C2EXAMPLE".to_owned(),
                display_name: "Account+Name".to_owned(),
            },
        },
    )
}

} // verus!
