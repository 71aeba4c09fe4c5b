//! Text in and out of the model: chat templates, the tokenizer, incremental
//! decoding for streams, and stop strings.

pub mod chars;
pub mod decoder;
pub mod effects;
pub mod hf;
pub mod stop;
pub mod template;
