//! Chron: a bitemporal versioned object store for polled JSON documents.
//!
//! The library holds the verified core: canonical JSON hashing, the
//! observation log and version builder, keyset pagination, page tokens,
//! the stale-while-revalidate cache state machine, the upstream request
//! gate, and the derivation pipeline.

pub mod base;
pub mod cache;
pub mod feeds;
pub mod fetch;
pub mod games;
pub mod hashing;
pub mod json;
pub mod models;
pub mod queries;
pub mod schedule;
pub mod stats;
pub mod store;
pub mod synthetic;
pub mod token;
pub mod versions;
