//! A rollback-aware write-ahead log for a chain follower.
//!
//! The library keeps an append-only journal of chain events (block applies,
//! rollback undos, and tip marks), materializes immutable history into a
//! canonical chain index, and tracks pending transactions across block
//! inclusion and rollback.

pub mod codec;
pub mod doctor;
pub mod kv;
pub mod log;
pub mod mempool;
pub mod rolldb;
pub mod types;
