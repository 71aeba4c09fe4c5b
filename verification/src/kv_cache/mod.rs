//! Paged KV cache accounting: physical blocks, block tables, the prefix index
//! and the manager that ties them together.

pub mod block;
pub mod effects;
pub mod history;
pub mod laws;
pub mod manager;
pub mod model;
pub mod prefix;
pub mod table;
