//! Continuous batching: the queues, the cache interface the policy is written
//! against, and the scheduler itself.

pub mod batching;
pub mod cache;
pub mod driver;
pub mod effects;
pub mod laws;
pub mod policy;
pub mod queue;
pub mod serving;
pub mod testing;
pub mod truth;
