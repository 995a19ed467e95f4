//! Aggregation of per-county epidemiological counts into per-date graphs of
//! county and state nodes.

pub mod aggregate;
pub mod graph;
pub mod record;
pub mod timestamp;
