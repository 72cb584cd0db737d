//! Aggregate reporting over per-file language detections: grouping by
//! language, percentage shares, per-strategy buckets and styled rendering.

pub mod filter;
pub mod grouping;
pub mod laws;
pub mod model;
pub mod order;
pub mod path;
pub mod report;
pub mod strategy;
