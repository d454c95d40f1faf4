//! The messages one node sends another, and what a peer's answer to a read
//! means.

use crate::error::CacheError;
use crate::storage::engine::{CacheValue, CacheValueView};
use vstd::prelude::*;

verus! {

/// A read of `key` on a peer.
#[derive(Debug)]
pub struct GetRequest {
    pub key: String,
}

/// A peer's answer to a read.
#[derive(Debug)]
pub struct GetResponse {
    pub found: bool,
    pub value: Option<Vec<u8>>,
    pub expires_at_unix: Option<u64>,
    pub created_at_unix: u64,
}

/// A write of `value` under `key` on a peer, with an optional time to live.
#[derive(Debug)]
pub struct SetRequest {
    pub key: String,
    pub value: Vec<u8>,
    pub ttl_secs: Option<u64>,
}

/// A removal of `key` on a peer.
#[derive(Debug)]
pub struct DeleteRequest {
    pub key: String,
}

/// A peer's answer to a write or a removal.
#[derive(Debug)]
pub struct OperationResponse {
    pub success: bool,
    pub message: Option<String>,
}

/// What a peer's answer to a read gives: nothing when the key was not found;
/// an `Upstream("missing value")` error when it was found but no bytes came
/// with it; otherwise the value with its bytes and times.
pub fn value_from_reply(reply: GetResponse) -> (r: Result<Option<CacheValue>, CacheError>)
    ensures
        !reply.found ==> r matches Ok(None),
        reply.found && reply.value is None ==> (r matches Err(CacheError::Upstream(m)) && m@ == "missing value"@),
        reply.found && reply.value is Some ==> (r matches Ok(Some(v)) && v@ == CacheValueView {
            data: reply.value.unwrap()@,
            expires_at_unix: reply.expires_at_unix,
            created_at_unix: reply.created_at_unix,
        }),
{
    if !reply.found {
        return Ok(None);
    }
    match reply.value {
        None => Err(CacheError::Upstream("missing value".to_owned())),
        Some(data) => Ok(Some(CacheValue {
            data,
            expires_at_unix: reply.expires_at_unix,
            created_at_unix: reply.created_at_unix,
        })),
    }
}

} // verus!
