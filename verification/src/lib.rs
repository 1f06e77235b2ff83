//! Core logic of a time-series metrics indexer: an ingestion scheduler that
//! advances a fetch cursor exactly once per completed cycle, an upsert writer
//! that persists interval batches idempotently (write-once keyed on
//! `end_time`), and a query engine that buckets, filters, sorts and paginates
//! the persisted series, reassembling nested earnings/pool entities from
//! joined rows.
//!
//! All I/O (the HTTP source, the durable store, the web server) lives outside
//! this crate; the functions here are pure state transformers over the
//! in-memory store model and plain values handed in by the caller.

pub mod bucket;
pub mod earn;
pub mod engine;
pub mod error;
pub mod model;
pub mod plan;
pub mod sched;
pub mod store;
pub mod timeparse;
