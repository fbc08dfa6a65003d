//! Error types shared by the codec.
use vstd::prelude::*;

verus! {

/// The kind of failure that a codec function reports.
#[derive(Clone, Copy, Debug, PartialEq, Eq, Structural)]
pub enum RedisProtocolErrorKind {
    /// Malformed input, or a frame that cannot be returned as asked.
    DecodeError,
    /// A frame that cannot be written as asked.
    EncodeError,
}

/// An error with its kind and a short description of the failing step.
#[derive(Clone, Debug, PartialEq, Eq)]
pub struct RedisProtocolError {
    pub kind: RedisProtocolErrorKind,
    pub details: String,
}

impl RedisProtocolError {
    pub fn new(kind: RedisProtocolErrorKind, details: &str) -> (r: RedisProtocolError)
        ensures
            r.kind == kind,
            r.details@ == details@,
    {
        RedisProtocolError { kind, details: details.to_owned() }
    }

    pub fn new_decode(details: &str) -> (r: RedisProtocolError)
        ensures
            r.kind == RedisProtocolErrorKind::DecodeError,
            r.details@ == details@,
    {
        RedisProtocolError::new(RedisProtocolErrorKind::DecodeError, details)
    }

    /// The description of the failure.
    pub fn description(&self) -> (r: &str)
        ensures
            r@ == self.details@,
    {
        self.details.as_str()
    }
}

} // verus!
