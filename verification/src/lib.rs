//! A verified inference-serving core: paged KV cache accounting, continuous
//! batching, prompt templating, streaming decode and the rules of the HTTP
//! surface. Everything here is plain data and plain computation; sockets,
//! files, threads and floating-point kernels live in the application around
//! it.

pub mod api;
pub mod bench;
pub mod cli;
pub mod config;
pub mod cuda;
pub mod distributed;
pub mod engine;
pub mod error;
pub mod float;
pub mod id;
pub mod kv_cache;
pub mod models;
pub mod observability;
pub mod ratio;
pub mod sampling;
pub mod sampling_params;
pub mod scheduler;
pub mod sequence;
pub mod submission;
pub mod text;
pub mod tokenizer;
pub mod traits;
