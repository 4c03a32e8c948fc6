//! Storage and state-machine layer of a replicated key-value store.
//!
//! The log store keeps Raft log entries in index order together with the
//! vote, the committed watermark and the purge watermark. The state machine
//! applies committed entries to an ordered key-value map and packs that map
//! into snapshots. Durable persistence and the consensus engine itself sit
//! outside this crate and drive it through the plain values defined here.

pub mod types;
pub mod keys;
pub mod kv;
pub mod codec;
pub mod state_machine;
pub mod log_store;
pub mod service;
