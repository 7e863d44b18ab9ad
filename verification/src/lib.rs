//! Resolve the content of a software release from source-control history.
//!
//! Given, per repository, the commit graph and two references — a *release*
//! reference (what has shipped) and a *next* reference (the candidate) — the
//! library computes the commits only reachable from *next*, extracts
//! issue-tracker story identifiers from their messages, and aggregates the
//! fetched stories and their owning epics, deduplicated and label-filtered,
//! into a single release bundle.

pub mod git;
pub mod parse;
pub mod release;
pub mod shortcut;
pub mod types;
