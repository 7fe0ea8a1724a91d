//! Domain failures and their mapping onto the wire-level protocol.
//!
//! Storage operations fail with a [`StorageErr`]; at the API boundary each
//! failure is rendered through an explicit table into a fixed
//! `(status code, machine code, message)` triple and an [`XmlError`]
//! envelope carrying the resource path and a request-correlation token.

use vstd::prelude::*;

verus! {

/// A failure of the storage layer.
///
/// The `IOErr` payload carries the backing store's own message; it is kept
/// for logging only and is never rendered into a client-visible body.
#[derive(Debug, Clone)]
pub enum StorageErr {
    BucketNotFound,
    BucketNotEmpty,
    BucketAlreadyExists,
    ObjectNotFound,
    IOErr(String),
}

/// The client-visible error envelope, serialized as XML at the boundary.
#[derive(Debug, Clone)]
pub struct XmlError {
    pub code: String,
    pub message: String,
    pub resource: String,
    pub request_id: String,
}

/// Failures any endpoint may report.
#[derive(Debug, Clone)]
pub enum BaseError {
    InternalError { request_id: String, resource: String },
}

/// Failures of the create-bucket endpoint.
///
/// `BucketAlreadyOwnedByYou` is part of the protocol table but is never
/// produced by [`map_create_error`]: the data model defines no per-bucket
/// owner, so every existing-name conflict maps to `BucketAlreadyExists`.
#[derive(Debug, Clone)]
pub enum CreateBucketError {
    InternalError { request_id: String, resource: String },
    BucketAlreadyExists { request_id: String, resource: String },
    BucketAlreadyOwnedByYou { request_id: String, resource: String },
}

/// Failures of the delete-bucket endpoint.
#[derive(Debug, Clone)]
pub enum DeleteBucketError {
    InternalError { request_id: String, resource: String },
    BucketNotEmpty { request_id: String, resource: String },
    NoSuchBucket { request_id: String, resource: String },
}

impl BaseError {
    /// The HTTP status of this failure.
    pub fn status_code(&self) -> (r: u16)
        ensures
            r == 500,
    {
        match self {
            BaseError::InternalError { .. } => 500,
        }
    }

    /// The machine-readable code of this failure.
    pub fn error_code(&self) -> (r: String)
        ensures
            r@ == "InternalError"@,
    {
        match self {
            BaseError::InternalError { .. } => "InternalError".to_owned(),
        }
    }

    /// The fixed human-readable message of this failure.
    pub fn message(&self) -> (r: String)
        ensures
            r@ == "An internal error occurred. Try again."@,
    {
        match self {
            BaseError::InternalError { .. } => "An internal error occurred. Try again.".to_owned(),
        }
    }

    /// Renders this failure into the client-visible envelope.
    pub fn to_xml_error(&self) -> (r: XmlError)
        ensures
            r.code@ == self.error_code_spec(),
            r.message@ == self.message_spec(),
            self matches BaseError::InternalError { request_id, resource }
                ==> r.request_id@ == request_id@ && r.resource@ == resource@,
    {
        match self {
            BaseError::InternalError { request_id, resource } => XmlError {
                code: self.error_code(),
                message: self.message(),
                resource: resource.clone(),
                request_id: request_id.clone(),
            },
        }
    }

    /// The machine code, as the table states it.
    pub open spec fn error_code_spec(&self) -> Seq<char> {
        "InternalError"@
    }

    /// The fixed message, as the table states it.
    pub open spec fn message_spec(&self) -> Seq<char> {
        "An internal error occurred. Try again."@
    }
}

impl CreateBucketError {
    /// The machine code, as the table states it.
    pub open spec fn error_code_spec(&self) -> Seq<char> {
        match self {
            CreateBucketError::InternalError { .. } => "InternalError"@,
            CreateBucketError::BucketAlreadyExists { .. } => "BucketAlreadyExists"@,
            CreateBucketError::BucketAlreadyOwnedByYou { .. } => "BucketAlreadyOwnedByYou"@,
        }
    }

    /// The fixed message, as the table states it.
    pub open spec fn message_spec(&self) -> Seq<char> {
        match self {
            CreateBucketError::InternalError { .. } => "An internal error occurred. Try again."@,
            CreateBucketError::BucketAlreadyExists {
                ..
            } => "The requested bucket name is not available. The bucket namespace is shared by all users of the system. Specify a different name and try again."@,
            CreateBucketError::BucketAlreadyOwnedByYou {
                ..
            } => "The bucket that you tried to create already exists, and you own it. Amazon S3 returns this error in all AWS Regions except in the US East (N. Virginia) Region (us-east-1). For legacy compatibility, if you re-create an existing bucket that you already own in us-east-1, Amazon S3 returns 200 OK and resets the bucket access control lists (ACLs). For Amazon S3 on Outposts, the bucket that you tried to create already exists in your Outpost and you own it."@,
        }
    }

    /// The request-correlation token carried by this failure.
    pub open spec fn request_id_spec(&self) -> Seq<char> {
        match self {
            CreateBucketError::InternalError { request_id, .. } => request_id@,
            CreateBucketError::BucketAlreadyExists { request_id, .. } => request_id@,
            CreateBucketError::BucketAlreadyOwnedByYou { request_id, .. } => request_id@,
        }
    }

    /// The resource path carried by this failure.
    pub open spec fn resource_spec(&self) -> Seq<char> {
        match self {
            CreateBucketError::InternalError { resource, .. } => resource@,
            CreateBucketError::BucketAlreadyExists { resource, .. } => resource@,
            CreateBucketError::BucketAlreadyOwnedByYou { resource, .. } => resource@,
        }
    }

    /// The HTTP status of this failure.
    pub fn status_code(&self) -> (r: u16)
        ensures
            self matches CreateBucketError::InternalError { .. } ==> r == 500,
            self matches CreateBucketError::BucketAlreadyExists { .. } ==> r == 409,
            self matches CreateBucketError::BucketAlreadyOwnedByYou { .. } ==> r == 409,
    {
        match self {
            CreateBucketError::InternalError { .. } => 500,
            CreateBucketError::BucketAlreadyExists { .. } => 409,
            CreateBucketError::BucketAlreadyOwnedByYou { .. } => 409,
        }
    }

    /// The machine-readable code of this failure.
    pub fn error_code(&self) -> (r: String)
        ensures
            r@ == self.error_code_spec(),
    {
        match self {
            CreateBucketError::InternalError { .. } => "InternalError".to_owned(),
            CreateBucketError::BucketAlreadyExists { .. } => "BucketAlreadyExists".to_owned(),
            CreateBucketError::BucketAlreadyOwnedByYou { .. } => "BucketAlreadyOwnedByYou".to_owned(),
        }
    }

    /// The fixed human-readable message of this failure.
    pub fn message(&self) -> (r: String)
        ensures
            r@ == self.message_spec(),
    {
        match self {
            CreateBucketError::InternalError { .. } => "An internal error occurred. Try again.".to_owned(),
            CreateBucketError::BucketAlreadyExists {
                ..
            } => "The requested bucket name is not available. The bucket namespace is shared by all users of the system. Specify a different name and try again.".to_owned(),
            CreateBucketError::BucketAlreadyOwnedByYou {
                ..
            } => "The bucket that you tried to create already exists, and you own it. Amazon S3 returns this error in all AWS Regions except in the US East (N. Virginia) Region (us-east-1). For legacy compatibility, if you re-create an existing bucket that you already own in us-east-1, Amazon S3 returns 200 OK and resets the bucket access control lists (ACLs). For Amazon S3 on Outposts, the bucket that you tried to create already exists in your Outpost and you own it.".to_owned(),
        }
    }

    /// Renders this failure into the client-visible envelope.
    pub fn to_xml_error(&self) -> (r: XmlError)
        ensures
            r.code@ == self.error_code_spec(),
            r.message@ == self.message_spec(),
            r.request_id@ == self.request_id_spec(),
            r.resource@ == self.resource_spec(),
    {
        let (request_id, resource) = match self {
            CreateBucketError::InternalError { request_id, resource } => (
                request_id.clone(),
                resource.clone(),
            ),
            CreateBucketError::BucketAlreadyExists { request_id, resource } => (
                request_id.clone(),
                resource.clone(),
            ),
            CreateBucketError::BucketAlreadyOwnedByYou { request_id, resource } => (
                request_id.clone(),
                resource.clone(),
            ),
        };
        XmlError { code: self.error_code(), message: self.message(), resource, request_id }
    }
}

impl DeleteBucketError {
    /// The machine code, as the table states it.
    pub open spec fn error_code_spec(&self) -> Seq<char> {
        match self {
            DeleteBucketError::InternalError { .. } => "InternalError"@,
            DeleteBucketError::BucketNotEmpty { .. } => "BucketNotEmpty"@,
            DeleteBucketError::NoSuchBucket { .. } => "NoSuchBucket"@,
        }
    }

    /// The fixed message, as the table states it.
    pub open spec fn message_spec(&self) -> Seq<char> {
        match self {
            DeleteBucketError::InternalError { .. } => "An internal error occurred. Try again."@,
            DeleteBucketError::BucketNotEmpty {
                ..
            } => "The bucket that you tried to delete is not empty."@,
            DeleteBucketError::NoSuchBucket { .. } => "The specified bucket does not exist."@,
        }
    }

    /// The request-correlation token carried by this failure.
    pub open spec fn request_id_spec(&self) -> Seq<char> {
        match self {
            DeleteBucketError::InternalError { request_id, .. } => request_id@,
            DeleteBucketError::BucketNotEmpty { request_id, .. } => request_id@,
            DeleteBucketError::NoSuchBucket { request_id, .. } => request_id@,
        }
    }

    /// The resource path carried by this failure.
    pub open spec fn resource_spec(&self) -> Seq<char> {
        match self {
            DeleteBucketError::InternalError { resource, .. } => resource@,
            DeleteBucketError::BucketNotEmpty { resource, .. } => resource@,
            DeleteBucketError::NoSuchBucket { resource, .. } => resource@,
        }
    }

    /// The HTTP status of this failure.
    pub fn status_code(&self) -> (r: u16)
        ensures
            self matches DeleteBucketError::InternalError { .. } ==> r == 500,
            self matches DeleteBucketError::BucketNotEmpty { .. } ==> r == 409,
            self matches DeleteBucketError::NoSuchBucket { .. } ==> r == 404,
    {
        match self {
            DeleteBucketError::InternalError { .. } => 500,
            DeleteBucketError::BucketNotEmpty { .. } => 409,
            DeleteBucketError::NoSuchBucket { .. } => 404,
        }
    }

    /// The machine-readable code of this failure.
    pub fn error_code(&self) -> (r: String)
        ensures
            r@ == self.error_code_spec(),
    {
        match self {
            DeleteBucketError::InternalError { .. } => "InternalError".to_owned(),
            DeleteBucketError::BucketNotEmpty { .. } => "BucketNotEmpty".to_owned(),
            DeleteBucketError::NoSuchBucket { .. } => "NoSuchBucket".to_owned(),
        }
    }

    /// The fixed human-readable message of this failure.
    pub fn message(&self) -> (r: String)
        ensures
            r@ == self.message_spec(),
    {
        match self {
            DeleteBucketError::InternalError { .. } => "An internal error occurred. Try again.".to_owned(),
            DeleteBucketError::BucketNotEmpty {
                ..
            } => "The bucket that you tried to delete is not empty.".to_owned(),
            DeleteBucketError::NoSuchBucket { .. } => "The specified bucket does not exist.".to_owned(),
        }
    }

    /// Renders this failure into the client-visible envelope.
    pub fn to_xml_error(&self) -> (r: XmlError)
        ensures
            r.code@ == self.error_code_spec(),
            r.message@ == self.message_spec(),
            r.request_id@ == self.request_id_spec(),
            r.resource@ == self.resource_spec(),
    {
        let (request_id, resource) = match self {
            DeleteBucketError::InternalError { request_id, resource } => (
                request_id.clone(),
                resource.clone(),
            ),
            DeleteBucketError::BucketNotEmpty { request_id, resource } => (
                request_id.clone(),
                resource.clone(),
            ),
            DeleteBucketError::NoSuchBucket { request_id, resource } => (
                request_id.clone(),
                resource.clone(),
            ),
        };
        XmlError { code: self.error_code(), message: self.message(), resource, request_id }
    }
}

/// Maps a storage failure of bucket creation onto the protocol table.
///
/// Only an existing-name conflict is distinguished; every other failure is
/// rendered uniformly as an internal error, never leaking its cause.
pub fn map_create_error(e: StorageErr, request_id: String, resource: String) -> (r:
    CreateBucketError)
    ensures
        e matches StorageErr::BucketAlreadyExists ==> r == (CreateBucketError::BucketAlreadyExists {
            request_id,
            resource,
        }),
        !(e matches StorageErr::BucketAlreadyExists) ==> r == (CreateBucketError::InternalError {
            request_id,
            resource,
        }),
{
    match e {
        StorageErr::BucketAlreadyExists => CreateBucketError::BucketAlreadyExists {
            request_id,
            resource,
        },
        _ => CreateBucketError::InternalError { request_id, resource },
    }
}

/// Maps a storage failure of bucket deletion onto the protocol table.
pub fn map_delete_error(e: StorageErr, request_id: String, resource: String) -> (r:
    DeleteBucketError)
    ensures
        e matches StorageErr::BucketNotFound ==> r == (DeleteBucketError::NoSuchBucket {
            request_id,
            resource,
        }),
        e matches StorageErr::BucketNotEmpty ==> r == (DeleteBucketError::BucketNotEmpty {
            request_id,
            resource,
        }),
        !(e matches StorageErr::BucketNotFound) && !(e matches StorageErr::BucketNotEmpty) ==> r
            == (DeleteBucketError::InternalError { request_id, resource }),
{
    match e {
        StorageErr::BucketNotFound => DeleteBucketError::NoSuchBucket { request_id, resource },
        StorageErr::BucketNotEmpty => DeleteBucketError::BucketNotEmpty { request_id, resource },
        _ => DeleteBucketError::InternalError { request_id, resource },
    }
}

} // verus!
