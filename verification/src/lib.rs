//! A configurable Base64 codec: alphabets, padding policies, engines,
//! streaming encode/decode, batch operations and line wrapping.

pub mod alphabet;
pub mod batch;
pub mod chunk;
pub mod codec;
pub mod config;
pub mod engine;
pub mod errors;
pub mod stream;
