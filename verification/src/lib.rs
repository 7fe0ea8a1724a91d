//! An S3-style object-storage core: a bucket registry, per-bucket object
//! metadata, a listing engine that emulates folder browsing over a flat key
//! space (prefix / delimiter / marker pagination), and the mapping from
//! domain failures to wire-level protocol errors.

pub mod api;
pub mod entities;
pub mod error;
pub mod laws;
pub mod listing;
pub mod order;
pub mod storage;
pub mod sys;
