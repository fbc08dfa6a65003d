//! Codec for the Redis serialization protocol, RESP2 and RESP3.
//!
//! - `resp3`: frame types, an incremental decoder that tells "need more
//!   bytes" from malformed input, an encoder (plain and streamed), the
//!   helper that reassembles streamed aggregates, and the laws that tie
//!   them together (round trip, partial input, attributes, streams).
//! - `resp2`: the older protocol's frames, decoder and encoder.
//! - `utils`: the cluster keyslot of a key, digit counts, and conversions
//!   between RESP2 and RESP3 frames.
//! - `types`: the error type.
//!
//! Every function is verified against the grammar and the wire form that
//! the spec functions of its module state.
pub mod resp2;
pub mod resp3;
pub mod types;
pub mod utils;
