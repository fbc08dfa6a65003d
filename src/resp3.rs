//! The RESP3 protocol: frame types, decoding and encoding, and their laws.
pub mod complete;
pub mod decode;
pub mod encode;
pub mod laws;
pub mod streaming;
pub mod types;
