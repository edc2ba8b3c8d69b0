//! Room event graph and state-resolution engine for a federated messaging
//! server: an append-only, content-addressed event store, a per-room DAG
//! index with forward extremities, a pure authorization checker, a
//! deterministic state resolver for divergent snapshots, a bounded
//! frontier-keyed state cache, and the ingestion pipeline that drives them.

pub mod auth;
pub mod cache;
pub mod engine;
pub mod event;
pub mod resolve;
pub mod snapshot;
pub mod store;
