//! Core of a small clustered key-value system: a versioned store with
//! tombstoned deletes, a SWIM-style membership table with incarnation-based
//! gossip merging, and a Merkle-tree summary driving last-writer-wins
//! anti-entropy synchronization between two replicas.

pub mod keys;
pub mod digest;
pub mod store;
pub mod merkle;
pub mod sync;
pub mod membership;
pub mod gateway;
