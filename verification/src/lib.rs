//! Log replication engine for per-author, per-topic append-only logs of
//! signed operations.
//!
//! Peers each write hash-chained, signed operation headers into their own
//! logs and exchange them over gossip and sync. This crate holds the core
//! of that exchange: building the next header of a log, the in-memory log
//! store with its chain validation, the topic-to-author lookup the sync
//! layer consults, the wire envelope codec, the ingestion pipeline that
//! validates and deduplicates inbound operations, and the event fan-out
//! towards the application.

pub mod bytes;
pub mod codec;
pub mod container;
pub mod crypto;
pub mod events;
pub mod header;
pub mod ingest;
pub mod operations;
pub mod repos;
pub mod router;
pub mod store;
pub mod topic;
