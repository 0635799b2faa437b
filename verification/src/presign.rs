//! The presign protocol between the uploader and the coordinator: what is
//! asked, and how the coordinator reads it.

use crate::order::str_eq;
use vstd::prelude::*;
use vstd::string::*;

verus! {

/// The shortest life of a presigned URL, in seconds.
pub const MIN_PRESIGN_TTL_SECONDS: u64 = 30;

/// What is asked of the coordinator: a presigned URL for one storage
/// operation.
#[derive(Debug)]
pub struct PresignRequest {
    pub method: String,
    pub path: String,
    pub ttl_seconds: u64,
}

/// The storage operation that a presigned URL allows.
#[derive(Clone, Copy, Debug, PartialEq, Eq, Structural)]
pub enum PresignMethod {
    /// Reading an object.
    Get,
    /// Writing an object.
    Put,
}

/// The operation that the method `text` of a request names: `GET` or `PUT`,
/// in capitals; anything else names none.
pub open spec fn method_of(text: Seq<char>) -> Option<PresignMethod> {
    if text == "GET"@ {
        Some(PresignMethod::Get)
    } else if text == "PUT"@ {
        Some(PresignMethod::Put)
    } else {
        None
    }
}

/// The life of the presigned URL for a request that asks for `requested`
/// seconds: as asked, and [`MIN_PRESIGN_TTL_SECONDS`] at least.
pub open spec fn granted_ttl(requested: u64) -> u64 {
    if requested < MIN_PRESIGN_TTL_SECONDS {
        MIN_PRESIGN_TTL_SECONDS
    } else {
        requested
    }
}

/// The operation that the method of a request names, if it names one.
pub fn presign_method(method: &str) -> (operation: Option<PresignMethod>)
    ensures
        operation == method_of(method@),
{
    if str_eq(method, "GET") {
        Some(PresignMethod::Get)
    } else if str_eq(method, "PUT") {
        Some(PresignMethod::Put)
    } else {
        None
    }
}

/// The life of the presigned URL for a request that asks for `requested`
/// seconds.
pub fn presign_ttl_seconds(requested: u64) -> (ttl: u64)
    ensures
        ttl == granted_ttl(requested),
{
    if requested < MIN_PRESIGN_TTL_SECONDS {
        MIN_PRESIGN_TTL_SECONDS
    } else {
        requested
    }
}

} // verus!
