//! Bounded, deterministic scan statistics for a partitioned message log:
//! a 32-bit FNV hasher for key bytes, snapshot boundaries and the cursors
//! that read each partition up to them, backoff for transient fetch
//! failures, per-partition and topic-wide metrics, last-write-wins key
//! liveness, and the byte layout of the liveness store.

pub mod fnv32;
pub mod metric;
pub mod liveness;
pub mod boundary;
pub mod codec;
pub mod retry;
