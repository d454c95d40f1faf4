//! Durability: the write-ahead log's record format and replay, and the
//! naming and retention of snapshot files.

pub mod snapshot;
pub mod wal;
