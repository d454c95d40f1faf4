//! The node's local key/value store.

pub mod engine;
pub mod eviction;
