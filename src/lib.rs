//! A resumable, deduplicating enrichment pipeline for competition submissions.
//!
//! The library holds the decisions: how records are merged into a store, what the
//! backlog is, how one record moves through resolve, transcribe and embed, how a
//! batch is dispatched under a concurrency limit, and when a run is done or stalled.
//! The services themselves and the files on disk are driven by the caller.
pub mod submission;
pub mod store;
pub mod enrich;
pub mod pool;
pub mod orchestrator;
pub mod link;
