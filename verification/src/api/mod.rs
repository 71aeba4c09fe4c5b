//! The rules of the HTTP surface: request and response shapes, error mapping,
//! and what becomes of a stream of generation events.

pub mod effects;
pub mod responses;
pub mod types;
