//! Source-tree statistics: a lexical line classifier, the bookkeeping of a
//! discovery/classification pipeline, and the aggregation that turns per-file
//! results into a per-extension report.

pub mod text;
pub mod name_map;
pub mod domain;
pub mod totals;
pub mod grammar;
pub mod classifier;
pub mod spans;
pub mod aggregate;
pub mod pipeline;
pub mod discovery;
pub mod coordinator;
pub mod ranking;
pub mod verticals;
pub mod report;
pub mod overview;
pub mod style;
