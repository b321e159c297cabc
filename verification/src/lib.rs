//! An in-memory key-value cache with a line-oriented text protocol.
//!
//! The `query` module parses wire-format text such as `<GET: ("k")>` and
//! `<ADD: ("k", "v")>` into typed [`query::Query`] values and serializes them
//! back, with a proved round-trip. The `stash` module holds one cache shard
//! with generational aging eviction, and the `server` module routes keys to
//! shards by a byte-sum hash.

pub mod connection;
pub mod query;
pub mod server;
pub mod stash;
