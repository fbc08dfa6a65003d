//! Decoding that reports the header of a streamed aggregate; the caller
//! gathers what follows, for instance with a `StreamedFrame`.
use crate::resp3::decode::{agrees, d_parse_frame_or_attribute, dview, ends_within, fresh_result, parse_frame};
use crate::resp3::types::DecodedFrame;
use crate::types::RedisProtocolError;
use vstd::prelude::*;

verus! {

/// Decodes the first frame of `buf`, or the header of a streamed aggregate,
/// and says how many bytes it took. A header comes with an empty buffer.
///
/// `Ok(None)` means that `buf` holds only the start of a frame.
pub fn decode(buf: &[u8]) -> (r: Result<Option<(DecodedFrame, usize)>, RedisProtocolError>)
    ensures
        agrees(r, parse_frame(buf@, 0), dview()),
        ends_within(r, 3, buf@.len() as int),
        fresh_result(r),
{
    d_parse_frame_or_attribute(buf, 0)
}

} // verus!
