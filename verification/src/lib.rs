//! A distributed in-memory cache: consistent-hash routing, circuit breakers,
//! an expiring key/value store, cluster membership and a write-ahead log.

pub mod seqs;
pub mod storage;
pub mod text;
pub mod clock;
pub mod cluster;
pub mod config;
pub mod error;
pub mod network;
pub mod persistence;
pub mod router;
