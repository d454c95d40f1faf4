//! The cache's error type.

use vstd::prelude::*;

verus! {

#[verifier::external_type_specification]
#[verifier::external_body]
pub struct ExIoError(std::io::Error);

#[derive(Debug)]
pub enum CacheError {
    KeyNotFound(String),
    NodeUnavailable(String),
    CircuitOpen(String),
    NoNodeAvailable(String),
    Serialization(String),
    Persistence(std::io::Error),
    Cluster(String),
    InvalidEntry(String),
    Upstream(String),
}

} // verus!
