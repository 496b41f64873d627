pub mod bigmath;
pub mod chunk;
pub mod chunker;
pub mod index;
pub mod laws;
pub mod manifest;
pub mod rolling_hash;
