//! A diagnostics aggregation and excerpt-projection engine.
//!
//! Producers (compilers, linters) report positional annotations for source
//! files at arbitrary times.  The engine keeps a ledger of the latest report
//! per (path, producer), groups annotations that share a group identity,
//! projects each group onto a context-expanded source excerpt, merges
//! overlapping excerpts, and keeps the whole projection sorted and stable.
//! A debounce flag coalesces bursts of reports into one recomputation, and a
//! reconciler turns two successive projections into a minimal edit script.

pub mod point;
pub mod severity;
pub mod config;
pub mod pathname;
pub mod annotation;
pub mod document;
pub mod ledger;
pub mod group;
pub mod excerpt;
pub mod projection;
pub mod engine;
pub mod laws;
pub mod attachment;
pub mod reconcile;
