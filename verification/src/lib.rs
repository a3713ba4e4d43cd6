//! An embedded, single-node key-value storage engine for fixed-size numeric
//! vectors, built on a log-structured merge (LSM) design.
//!
//! Writes are buffered in an ordered in-memory table (the memtable) and
//! spilled, once a configured threshold is reached, into immutable sorted
//! segments of encoded records.  Reads consult the memtable first and then
//! the segments from newest to oldest; deletions either remove the key from
//! the memtable or place a tombstone against the newest segment that indexes
//! the key.

pub mod bytes;
pub mod codec;
pub mod error;
pub mod laws;
pub mod lsm;
pub mod model;
pub mod vector;
