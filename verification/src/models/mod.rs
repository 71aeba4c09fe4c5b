//! Model descriptions, checkpoints, and the index arithmetic of the forward
//! pass.

pub mod attention;
pub mod backend;
pub mod config;
pub mod effects;
pub mod loader;
pub mod quantization;
pub mod tensor;
pub mod transformer;
