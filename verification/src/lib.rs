//! Verified core of a repository line-count viewer.
//!
//! The library resolves a remote source repository, lists the blob entries of
//! its file tree (backfilling truncated listings), plans bounded-concurrency
//! content fetches, classifies each file by language, and folds per-file line
//! reports into per-language totals.  All decision logic is verified; network
//! transfer itself is left to the surrounding application, which drives the
//! state machines offered here.

pub mod blob;
pub mod client;
pub mod error;
pub mod language;
pub mod loc;
pub mod models;
pub mod params;
pub mod repository;
pub mod session;
pub mod statistics;
