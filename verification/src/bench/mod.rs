//! The benchmark harness: what a client measures of a running server.
//!
//! Times are nanoseconds. Percentiles come from the observed sample, never from
//! an assumed distribution, and a failed request is counted, not dropped.

pub mod effects;
pub mod frames;
pub mod report;
pub mod sample;
pub mod workload;
