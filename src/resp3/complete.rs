//! Decoding of complete frames only: a streamed aggregate is an error.
use crate::resp3::decode::{agrees, d_parse_frame_or_attribute, decode_complete, ends_within};
use crate::resp3::types::{DecodedFrame, Frame};
use crate::types::RedisProtocolError;
use vstd::prelude::*;

verus! {

/// Decodes the first frame of `buf` and says how many bytes it took.
///
/// `Ok(None)` means that `buf` holds only the start of a frame; a stream
/// header is an error here.
pub fn decode(buf: &[u8]) -> (r: Result<Option<(Frame, usize)>, RedisProtocolError>)
    ensures
        agrees(r, decode_complete(buf@), |f: Frame| f@),
        ends_within(r, 3, buf@.len() as int),
{
    match d_parse_frame_or_attribute(buf, 0) {
        Ok(Some((DecodedFrame::Complete(f), e))) => Ok(Some((f, e))),
        Ok(Some((DecodedFrame::Streaming(_), _))) => Err(RedisProtocolError::new_decode("decode")),
        Ok(None) => Ok(None),
        Err(x) => Err(x),
    }
}

} // verus!
