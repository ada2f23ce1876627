//! Deterministic analytics over a repository's commit history.
//!
//! The library is the computation core: commit classification, ticket
//! extraction, churn/hotspot/author aggregation, pattern and signal
//! detection, trend comparison, and the cache keying and freshness rules.
//! Repository access, JSON encoding and the command line live outside it
//! and hand the library plain values.
#![verifier::loop_isolation(false)]

pub mod authors;
pub mod cache;
pub mod churn;
pub mod classify;
pub mod commit;
pub mod convergence;
pub mod dates;
pub mod paths;
pub mod patterns;
pub mod signals;
pub mod sorting;
pub mod text;
pub mod ticket;
pub mod trends;
