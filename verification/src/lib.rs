//! Verified engine for summarizing a directory tree.
//!
//! The library owns the logic of a one-pass directory scan: the worklist
//! traversal, the aggregation of counts, sizes and per-extension summaries,
//! the ranking of the largest files, and the sizing of bundle
//! subdirectories. Filesystem access itself is left to the caller, which
//! feeds the engine plain entry records and renders the finished report.

pub mod report;
pub mod extension;
pub mod sorting;
pub mod engine;
pub mod walker;
pub mod laws;
