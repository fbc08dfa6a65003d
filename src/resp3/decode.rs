//! Decoding RESP3 bytes into frames.
//!
//! The grammar is stated by the spec functions of this module over the
//! whole input `s` and an absolute position `p`; each exec parser returns
//! exactly what its spec function gives.
use crate::resp3::types::{
    attach_spec, attrs_view, decoded_view, frame_view, frames_view, fresh_stream, kind_of_byte, merged_attrs, pairs_view, Attributes,
    Auth, DecodedFrame, Frame, FrameKind, FrameMap, RespVersion, dedup, dedup_pairs, map_insert, to_set, SDecoded, SFrame, StreamedFrame, VerbatimStringFormat,
};
use crate::types::{RedisProtocolError, RedisProtocolErrorKind};
use vstd::prelude::*;
use vstd::slice::slice_subrange;

verus! {

broadcast use vstd::std_specs::vec::group_vec_axioms;

/// What a parser makes of the input at a position: a value and the position
/// just past it, a need for more bytes, or a parse error.
pub enum Outcome<T> {
    Done(T, nat),
    Incomplete,
    Fail,
}

/// Whether the position advanced, and stays within the input.
pub open spec fn advances(s: Seq<u8>, p: int, e: nat) -> bool {
    p < e <= s.len()
}

// ------------------------------------------------------------------ lines

/// Whether a CR LF pair starts at `i`.
pub open spec fn crlf_at(s: Seq<u8>, i: int) -> bool {
    0 <= i && i + 1 < s.len() && s[i] == 13u8 && s[i + 1] == 10u8
}

/// The first position at or after `i` where a CR LF pair starts.
pub open spec fn crlf_from(s: Seq<u8>, i: int) -> Option<int>
    decreases s.len() - i,
{
    if i < 0 || i + 1 >= s.len() {
        None
    } else if crlf_at(s, i) {
        Some(i)
    } else {
        crlf_from(s, i + 1)
    }
}

/// The bytes from `p` up to the next CR LF, which is consumed too.
pub open spec fn line(s: Seq<u8>, p: int) -> Outcome<Seq<u8>> {
    match crlf_from(s, p) {
        Some(i) => Outcome::Done(s.subrange(p, i), (i + 2) as nat),
        None => Outcome::Incomplete,
    }
}

/// `n` bytes from `p`, followed by CR LF.
pub open spec fn payload(s: Seq<u8>, p: int, n: int) -> Outcome<Seq<u8>> {
    if p + n + 2 > s.len() {
        Outcome::Incomplete
    } else if s[p + n] == 13u8 && s[p + n + 1] == 10u8 {
        Outcome::Done(s.subrange(p, p + n), (p + n + 2) as nat)
    } else {
        Outcome::Fail
    }
}

// ---------------------------------------------------------------- numbers

pub open spec fn is_digit(b: u8) -> bool {
    48 <= b <= 57
}

pub open spec fn all_digits(t: Seq<u8>) -> bool {
    forall|i: int| 0 <= i < t.len() ==> is_digit(#[trigger] t[i])
}

/// The value of a string of decimal digits.
pub open spec fn digits_value(t: Seq<u8>) -> int
    decreases t.len(),
{
    if t.len() == 0 {
        0
    } else {
        digits_value(t.drop_last()) * 10 + (t.last() - 48)
    }
}

/// A non-empty string of decimal digits, and its value.
pub open spec fn decimal(t: Seq<u8>) -> Option<int> {
    if t.len() > 0 && all_digits(t) {
        Some(digits_value(t))
    } else {
        None
    }
}

/// An unsigned decimal with an optional `+`.
pub open spec fn unsigned_text(t: Seq<u8>) -> Option<int> {
    if t.len() > 0 && t[0] == 43u8 {
        decimal(t.skip(1))
    } else {
        decimal(t)
    }
}

/// A decimal with an optional sign, between `lo` and `hi`.
pub open spec fn signed_text(t: Seq<u8>, lo: int, hi: int) -> Option<int> {
    if t.len() > 0 && t[0] == 45u8 {
        match decimal(t.skip(1)) {
            Some(v) => if -v >= lo { Some(-v) } else { None },
            None => None,
        }
    } else {
        match unsigned_text(t) {
            Some(v) => if v <= hi { Some(v) } else { None },
            None => None,
        }
    }
}

/// A length prefix: an unsigned decimal that fits in `usize`.
pub open spec fn usize_text(t: Seq<u8>) -> Option<int> {
    match unsigned_text(t) {
        Some(v) => if v <= usize::MAX { Some(v) } else { None },
        None => None,
    }
}

/// A 64-bit signed decimal.
pub open spec fn i64_text(t: Seq<u8>) -> Option<int> {
    signed_text(t, i64::MIN as int, i64::MAX as int)
}

/// A signed length prefix.
pub open spec fn isize_text(t: Seq<u8>) -> Option<int> {
    signed_text(t, isize::MIN as int, isize::MAX as int)
}

/// The length text `?`, which announces a streamed aggregate.
pub open spec fn stream_marker(t: Seq<u8>) -> bool {
    t == seq![63u8]
}

/// The position of the first byte at or after `i` that is not a digit.
pub open spec fn digits_end(t: Seq<u8>, i: int) -> int
    decreases t.len() - i,
{
    if 0 <= i < t.len() && is_digit(t[i]) {
        digits_end(t, i + 1)
    } else {
        i
    }
}

pub open spec fn is_sign(b: u8) -> bool {
    b == 43u8 || b == 45u8
}

/// The exponent of a decimal floating-point text, from `i` to the end.
pub open spec fn exponent_text(t: Seq<u8>, i: int) -> bool {
    i < t.len() && (t[i] == 101u8 || t[i] == 69u8) && {
        let j = if i + 1 < t.len() && is_sign(t[i + 1]) { i + 2 } else { i + 1 };
        let k = digits_end(t, j);
        k > j && k == t.len()
    }
}

/// A decimal floating-point text: an optional sign, digits with an optional
/// fraction (at least one digit in all), an optional exponent.
pub open spec fn float_text(t: Seq<u8>) -> bool {
    let i0: int = if t.len() > 0 && is_sign(t[0]) { 1 } else { 0 };
    let i1 = digits_end(t, i0);
    let i2 = if i1 < t.len() && t[i1] == 46u8 { digits_end(t, i1 + 1) } else { i1 };
    let n = if i2 > i1 { (i1 - i0) + (i2 - i1 - 1) } else { i1 - i0 };
    n > 0 && (i2 == t.len() || exponent_text(t, i2))
}

/// The text of a double: a decimal floating-point text, or an infinity.
pub open spec fn double_text(t: Seq<u8>) -> bool {
    t == seq![105u8, 110u8, 102u8] || t == seq![45u8, 105u8, 110u8, 102u8] || t == seq![43u8, 105u8, 110u8, 102u8]
        || float_text(t)
}

// ------------------------------------------------------------------- text

/// Whether the bytes are well-formed UTF-8: shortest-form encodings of
/// scalar values, no surrogates.
pub open spec fn utf8_valid(b: Seq<u8>) -> bool {
    vstd::utf8::valid_utf8(b)
}

/// Relies on `std::str::from_utf8`: it succeeds exactly on well-formed
/// UTF-8.
#[verifier::external_body]
pub(crate) fn check_utf8(b: &[u8]) -> (r: bool)
    ensures
        r == utf8_valid(b@),
{
    std::str::from_utf8(b).is_ok()
}

/// The boolean spelled `t` or `f`.
pub open spec fn bool_text(t: Seq<u8>) -> Option<bool> {
    if t == seq![116u8] {
        Some(true)
    } else if t == seq![102u8] {
        Some(false)
    } else {
        None
    }
}

/// The verbatim-string format spelled `txt` or `mkd`.
pub open spec fn format_text(t: Seq<u8>) -> Option<VerbatimStringFormat> {
    if t == seq![116u8, 120u8, 116u8] {
        Some(VerbatimStringFormat::Text)
    } else if t == seq![109u8, 107u8, 100u8] {
        Some(VerbatimStringFormat::Markdown)
    } else {
        None
    }
}

/// The first position at or after `i` that holds a space.
pub open spec fn space_from(t: Seq<u8>, i: int) -> Option<int>
    decreases t.len() - i,
{
    if i < 0 || i >= t.len() {
        None
    } else if t[i] == 32u8 {
        Some(i)
    } else {
        space_from(t, i + 1)
    }
}

/// Whether `ELLO ` (the handshake keyword after its prefix byte) starts `t`.
pub open spec fn hello_head(t: Seq<u8>) -> bool {
    t.len() >= 5 && t[0] == 69u8 && t[1] == 76u8 && t[2] == 76u8 && t[3] == 79u8 && t[4] == 32u8
}

/// Whether ` AUTH ` starts `t`.
pub open spec fn auth_head(t: Seq<u8>) -> bool {
    t.len() >= 6 && t[0] == 32u8 && t[1] == 65u8 && t[2] == 85u8 && t[3] == 84u8 && t[4] == 72u8 && t[5] == 32u8
}

/// The version byte of a handshake: `2` or `3`.
pub open spec fn version_byte(b: u8) -> Option<RespVersion> {
    if b == 50u8 {
        Some(RespVersion::RESP2)
    } else if b == 51u8 {
        Some(RespVersion::RESP3)
    } else {
        None
    }
}

/// The credentials of a handshake: nothing, or ` AUTH <user> <pass>`.
pub open spec fn auth_text(r: Seq<u8>) -> Option<Option<(Seq<u8>, Seq<u8>)>> {
    if r.len() == 0 {
        Some(None)
    } else if auth_head(r) {
        let c = r.skip(6);
        match space_from(c, 0) {
            Some(i) => {
                let user = c.take(i);
                let pass = c.skip(i + 1);
                if utf8_valid(user) && utf8_valid(pass) {
                    Some(Some((user, pass)))
                } else {
                    None
                }
            },
            None => None,
        }
    } else {
        None
    }
}

/// The line of a handshake after its prefix byte `H`:
/// `ELLO <version>[ AUTH <user> <pass>]`.
pub open spec fn hello_text(t: Seq<u8>) -> Option<SFrame> {
    if t.len() >= 6 && hello_head(t) {
        match (version_byte(t[5]), auth_text(t.skip(6))) {
            (Some(version), Some(auth)) => Some(SFrame::Hello { version, auth }),
            _ => None,
        }
    } else {
        None
    }
}

// ----------------------------------------------------------------- frames

/// A line whose text becomes a frame through `f`, or fails where `f` gives
/// nothing.
pub open spec fn line_frame(s: Seq<u8>, p: int, f: spec_fn(Seq<u8>) -> Option<SFrame>) -> Outcome<SDecoded> {
    match line(s, p) {
        Outcome::Done(t, e) => match f(t) {
            Some(fr) => Outcome::Done(SDecoded::Complete(fr), e),
            None => Outcome::Fail,
        },
        Outcome::Incomplete => Outcome::Incomplete,
        Outcome::Fail => Outcome::Fail,
    }
}

/// A length line: an unsigned decimal and CR LF.
pub open spec fn prefix_len(s: Seq<u8>, p: int) -> Outcome<int> {
    match line(s, p) {
        Outcome::Done(t, e) => match usize_text(t) {
            Some(n) => Outcome::Done(n, e),
            None => Outcome::Fail,
        },
        Outcome::Incomplete => Outcome::Incomplete,
        Outcome::Fail => Outcome::Fail,
    }
}

/// A length line followed by that many bytes and CR LF.
pub open spec fn sized_payload(s: Seq<u8>, p: int) -> Outcome<Seq<u8>> {
    match prefix_len(s, p) {
        Outcome::Done(n, e) => payload(s, e as int, n),
        Outcome::Incomplete => Outcome::Incomplete,
        Outcome::Fail => Outcome::Fail,
    }
}

/// A verbatim string after its prefix byte: a length line, a three-byte
/// format, `:`, the data and CR LF; the length counts the format and `:`.
pub open spec fn verbatim(s: Seq<u8>, p: int) -> Outcome<SDecoded> {
    match prefix_len(s, p) {
        Outcome::Done(n, e) => if e + 4 > s.len() {
            Outcome::Incomplete
        } else {
            match format_text(s.subrange(e as int, e + 3int)) {
                Some(format) => if s[e + 3int] != 58u8 || n < 4 {
                    Outcome::Fail
                } else {
                    match payload(s, e + 4int, n - 4) {
                        Outcome::Done(data, e2) => Outcome::Done(
                            SDecoded::Complete(SFrame::VerbatimString { data, format, attrs: None }),
                            e2,
                        ),
                        Outcome::Incomplete => Outcome::Incomplete,
                        Outcome::Fail => Outcome::Fail,
                    }
                },
                None => Outcome::Fail,
            }
        },
        Outcome::Incomplete => Outcome::Incomplete,
        Outcome::Fail => Outcome::Fail,
    }
}

/// One chunk of a streamed blob: a length line and that many bytes; the
/// zero-length chunk marks the end of the stream.
pub open spec fn chunk(s: Seq<u8>, p: int) -> Outcome<SDecoded> {
    match prefix_len(s, p) {
        Outcome::Done(n, e) => if n == 0 {
            Outcome::Done(SDecoded::Complete(SFrame::ChunkedString { data: seq![] }), e)
        } else {
            match payload(s, e as int, n) {
                Outcome::Done(data, e2) => Outcome::Done(SDecoded::Complete(SFrame::ChunkedString { data }), e2),
                Outcome::Incomplete => Outcome::Incomplete,
                Outcome::Fail => Outcome::Fail,
            }
        },
        Outcome::Incomplete => Outcome::Incomplete,
        Outcome::Fail => Outcome::Fail,
    }
}

/// What decoding the whole input gives when only complete frames are
/// accepted: a stream header is an error.
pub open spec fn decode_complete(s: Seq<u8>) -> Outcome<SFrame> {
    match parse_frame(s, 0) {
        Outcome::Done(SDecoded::Complete(f), e) => Outcome::Done(f, e),
        Outcome::Done(SDecoded::Streaming(_, _), _) => Outcome::Fail,
        Outcome::Incomplete => Outcome::Incomplete,
        Outcome::Fail => Outcome::Fail,
    }
}

/// A frame or an attribute block with the frame it decorates, at `p`.
pub open spec fn parse_frame(s: Seq<u8>, p: int) -> Outcome<SDecoded>
    decreases s.len() - p, 1int,
{
    if p < 0 || p >= s.len() {
        Outcome::Incomplete
    } else {
        match kind_of_byte(s[p]) {
            None => Outcome::Fail,
            Some(FrameKind::Attribute) => parse_attributed(s, p + 1),
            Some(k) => parse_body(s, p + 1, k),
        }
    }
}

/// An attribute block after its prefix byte, then the frame it decorates.
pub open spec fn parse_attributed(s: Seq<u8>, p: int) -> Outcome<SDecoded>
    decreases s.len() - p, 0int,
{
    if p < 0 || p > s.len() {
        Outcome::Fail
    } else {
        match prefix_len(s, p) {
            Outcome::Done(n, e) => if !advances(s, p, e) {
                Outcome::Fail
            } else {
                match parse_pairs(s, e as int, n as nat) {
                        Outcome::Done(attrs, e2) => if e2 >= s.len() {
                            Outcome::Incomplete
                        } else if e2 < e {
                            Outcome::Fail
                        } else {
                            match kind_of_byte(s[e2 as int]) {
                                None => Outcome::Fail,
                                Some(FrameKind::Attribute) => Outcome::Fail,
                                Some(k) => match parse_body(s, e2 + 1int, k) {
                                    Outcome::Done(d, e3) => match attach_spec(dedup_pairs(attrs), d) {
                                        Some(d2) => Outcome::Done(d2, e3),
                                        None => Outcome::Fail,
                                    },
                                    Outcome::Incomplete => Outcome::Incomplete,
                                    Outcome::Fail => Outcome::Fail,
                                },
                            }
                        },
                        Outcome::Incomplete => Outcome::Incomplete,
                        Outcome::Fail => Outcome::Fail,
                    }
            },
            Outcome::Incomplete => Outcome::Incomplete,
            Outcome::Fail => Outcome::Fail,
        }
    }
}

/// An aggregate whose length line may announce a stream (`?`); the length
/// -1 stands for null, and any other negative length is an error.
pub open spec fn parse_aggregate(s: Seq<u8>, p: int, k: FrameKind) -> Outcome<SDecoded>
    decreases s.len() - p, 0int,
{
    if p < 0 || p > s.len() {
        Outcome::Fail
    } else {
        match line(s, p) {
            Outcome::Done(t, e) => if stream_marker(t) {
                Outcome::Done(SDecoded::Streaming(k, None), e)
            } else {
                match isize_text(t) {
                Some(n) => if n == -1 {
                    Outcome::Done(SDecoded::Complete(SFrame::Null), e)
                } else if n < 0 || !advances(s, p, e) {
                    Outcome::Fail
                } else {
                    match k {
                        FrameKind::BlobString => match payload(s, e as int, n) {
                            Outcome::Done(data, e2) => Outcome::Done(
                                SDecoded::Complete(SFrame::BlobString { data, attrs: None }),
                                e2,
                            ),
                            Outcome::Incomplete => Outcome::Incomplete,
                            Outcome::Fail => Outcome::Fail,
                        },
                        FrameKind::Dict => match parse_pairs(s, e as int, n as nat) {
                            Outcome::Done(data, e2) => Outcome::Done(
                                SDecoded::Complete(SFrame::Dict { data: dedup_pairs(data), attrs: None }),
                                e2,
                            ),
                            Outcome::Incomplete => Outcome::Incomplete,
                            Outcome::Fail => Outcome::Fail,
                        },
                        _ => match parse_many(s, e as int, n as nat) {
                            Outcome::Done(data, e2) => Outcome::Done(
                                SDecoded::Complete(
                                    if k == FrameKind::Distinct {
                                        SFrame::Distinct { data: dedup(data), attrs: None }
                                    } else {
                                        SFrame::Array { data, attrs: None }
                                    },
                                ),
                                e2,
                            ),
                            Outcome::Incomplete => Outcome::Incomplete,
                            Outcome::Fail => Outcome::Fail,
                        },
                    }
                },
                None => Outcome::Fail,
                }
            },
            Outcome::Incomplete => Outcome::Incomplete,
            Outcome::Fail => Outcome::Fail,
        }
    }
}

/// A frame of kind `k` after its prefix byte.
pub open spec fn parse_body(s: Seq<u8>, p: int, k: FrameKind) -> Outcome<SDecoded>
    decreases s.len() - p, 1int,
{
    if p < 0 || p > s.len() {
        Outcome::Fail
    } else {
        match k {
            FrameKind::Array | FrameKind::BlobString | FrameKind::Dict | FrameKind::Distinct =>
                parse_aggregate(s, p, k),
            FrameKind::SimpleString => line_frame(
                s,
                p,
                |t: Seq<u8>| if utf8_valid(t) { Some(SFrame::SimpleString { data: t, attrs: None }) } else { None },
            ),
            FrameKind::SimpleError => line_frame(
                s,
                p,
                |t: Seq<u8>| if utf8_valid(t) { Some(SFrame::SimpleError { data: t, attrs: None }) } else { None },
            ),
            FrameKind::Number => line_frame(
                s,
                p,
                |t: Seq<u8>| match i64_text(t) {
                    Some(v) => Some(SFrame::Number { data: v as i64, attrs: None }),
                    None => None,
                },
            ),
            FrameKind::Null => line_frame(s, p, |t: Seq<u8>| Some(SFrame::Null)),
            FrameKind::Double => line_frame(
                s,
                p,
                |t: Seq<u8>| if double_text(t) { Some(SFrame::Double { data: t, attrs: None }) } else { None },
            ),
            FrameKind::Boolean => line_frame(
                s,
                p,
                |t: Seq<u8>| match bool_text(t) {
                    Some(b) => Some(SFrame::Boolean { data: b, attrs: None }),
                    None => None,
                },
            ),
            FrameKind::BigNumber => line_frame(
                s,
                p,
                |t: Seq<u8>| Some(SFrame::BigNumber { data: t, attrs: None }),
            ),
            FrameKind::Hello => line_frame(s, p, |t: Seq<u8>| hello_text(t)),
            FrameKind::EndStream => line_frame(
                s,
                p,
                |t: Seq<u8>| Some(SFrame::ChunkedString { data: seq![] }),
            ),
            FrameKind::BlobError => match sized_payload(s, p) {
                Outcome::Done(data, e) => Outcome::Done(SDecoded::Complete(SFrame::BlobError { data, attrs: None }), e),
                Outcome::Incomplete => Outcome::Incomplete,
                Outcome::Fail => Outcome::Fail,
            },
            FrameKind::VerbatimString => verbatim(s, p),
            FrameKind::ChunkedString => chunk(s, p),
            FrameKind::Push => match prefix_len(s, p) {
                Outcome::Done(n, e) => if !advances(s, p, e) {
                    Outcome::Fail
                } else {
                    match parse_many(s, e as int, n as nat) {
                        Outcome::Done(data, e2) => Outcome::Done(
                            SDecoded::Complete(SFrame::Push { data, attrs: None }),
                            e2,
                        ),
                        Outcome::Incomplete => Outcome::Incomplete,
                        Outcome::Fail => Outcome::Fail,
                    }
                },
                Outcome::Incomplete => Outcome::Incomplete,
                Outcome::Fail => Outcome::Fail,
            },
            FrameKind::Attribute => Outcome::Fail,
        }
    }
}

/// `n` complete frames in a row; a streamed header among them fails.
pub open spec fn parse_many(s: Seq<u8>, p: int, n: nat) -> Outcome<Seq<SFrame>>
    decreases s.len() - p, 2int, n,
{
    if n == 0 {
        Outcome::Done(seq![], p as nat)
    } else if p < 0 || p > s.len() {
        Outcome::Fail
    } else {
        match parse_frame(s, p) {
            Outcome::Done(SDecoded::Complete(f), e) => if !advances(s, p, e) {
                Outcome::Fail
            } else {
                match parse_many(s, e as int, (n - 1) as nat) {
                    Outcome::Done(rest, e2) => Outcome::Done(seq![f] + rest, e2),
                    Outcome::Incomplete => Outcome::Incomplete,
                    Outcome::Fail => Outcome::Fail,
                }
            },
            Outcome::Done(SDecoded::Streaming(_, _), _) => Outcome::Fail,
            Outcome::Incomplete => Outcome::Incomplete,
            Outcome::Fail => Outcome::Fail,
        }
    }
}

/// `n` key-value pairs, each two complete frames.
pub open spec fn parse_pairs(s: Seq<u8>, p: int, n: nat) -> Outcome<Seq<(SFrame, SFrame)>>
    decreases s.len() - p, 3int, n,
{
    if n == 0 {
        Outcome::Done(seq![], p as nat)
    } else if p < 0 || p > s.len() {
        Outcome::Fail
    } else {
        match parse_many(s, p, 2) {
            Outcome::Done(kv, e) => if !advances(s, p, e) || kv.len() != 2 {
                Outcome::Fail
            } else {
                match parse_pairs(s, e as int, (n - 1) as nat) {
                    Outcome::Done(rest, e2) => Outcome::Done(seq![(kv[0], kv[1])] + rest, e2),
                    Outcome::Incomplete => Outcome::Incomplete,
                    Outcome::Fail => Outcome::Fail,
                }
            },
            Outcome::Incomplete => Outcome::Incomplete,
            Outcome::Fail => Outcome::Fail,
        }
    }
}

// ------------------------------------------------------- exec: lexical layer

/// How an exec parser's result matches a spec outcome under a view.
pub open spec fn agrees<T, V>(r: Result<Option<(T, usize)>, RedisProtocolError>, o: Outcome<V>, view: spec_fn(T) -> V) -> bool {
    match (r, o) {
        (Ok(Some((v, e))), Outcome::Done(w, e2)) => view(v) == w && e as nat == e2,
        (Ok(None), Outcome::Incomplete) => true,
        (Err(x), Outcome::Fail) => x.kind == RedisProtocolErrorKind::DecodeError,
        _ => false,
    }
}

pub(crate) fn fail<T>(step: &str) -> (r: Result<T, RedisProtocolError>)
    ensures
        r is Err,
        r->Err_0.kind == RedisProtocolErrorKind::DecodeError,
{
    Err(RedisProtocolError::new_decode(step))
}

/// A line ends within the input, past its start.
pub proof fn lemma_line_bounds(s: Seq<u8>, p: int)
    requires
        0 <= p,
    ensures
        line(s, p) matches Outcome::Done(_, e) ==> p + 2 <= e <= s.len(),
{
    lemma_crlf_from(s, p);
}

proof fn lemma_crlf_from(s: Seq<u8>, i: int)
    ensures
        crlf_from(s, i) matches Some(j) ==> i <= j && crlf_at(s, j),
    decreases s.len() - i,
{
    if !(i < 0 || i + 1 >= s.len()) && !crlf_at(s, i) {
        lemma_crlf_from(s, i + 1);
    }
}

/// The first position at or after `p` where CR LF starts.
fn find_crlf(buf: &[u8], p: usize) -> (r: Option<usize>)
    ensures
        r is Some ==> crlf_from(buf@, p as int) == Some(r.unwrap() as int) && p <= r.unwrap() && r.unwrap() + 2
            <= buf@.len(),
        r is None ==> crlf_from(buf@, p as int) is None,
{
    proof {
        lemma_crlf_from(buf@, p as int);
    }
    let len = buf.len();
    if p >= len {
        return None;
    }
    let mut i: usize = p;
    while i < len && i + 1 < len
        invariant
            p <= i,
            len == buf@.len(),
            crlf_from(buf@, p as int) == crlf_from(buf@, i as int),
        decreases len - i,
    {
        if buf[i] == 13u8 && buf[i + 1] == 10u8 {
            return Some(i);
        }
        i = i + 1;
    }
    None
}

/// The end of the line that starts at `p`, and the position past its CR LF.
pub(crate) fn d_read_to_crlf(buf: &[u8], p: usize) -> (r: Option<(usize, usize)>)
    ensures
        match line(buf@, p as int) {
            Outcome::Done(t, e) => r is Some && t == buf@.subrange(p as int, r.unwrap().0 as int) && e == r.unwrap().1
                && p <= r.unwrap().0 && r.unwrap().1 == r.unwrap().0 + 2 && r.unwrap().1 <= buf@.len(),
            _ => r is None,
        },
{
    let len = buf.len();
    match find_crlf(buf, p) {
        Some(i) => Some((i, i + 2)),
        None => None,
    }
}

proof fn lemma_digits_nonneg(t: Seq<u8>)
    requires
        all_digits(t),
    ensures
        digits_value(t) >= 0,
    decreases t.len(),
{
    if t.len() > 0 {
        assert(all_digits(t.drop_last())) by {
            assert forall|i: int| 0 <= i < t.drop_last().len() implies is_digit(#[trigger] t.drop_last()[i]) by {
                assert(is_digit(t[i]));
            }
        }
        lemma_digits_nonneg(t.drop_last());
        assert(is_digit(t[t.len() - 1]));
    }
}

/// An unsigned decimal is never negative.
pub(crate) proof fn lemma_unsigned_nonneg(t: Seq<u8>)
    ensures
        unsigned_text(t) matches Some(v) ==> v >= 0,
        t.len() > 0 ==> (decimal(t.skip(1)) matches Some(v) ==> v >= 0),
{
    if all_digits(t) {
        lemma_digits_nonneg(t);
    }
    if t.len() > 0 && all_digits(t.skip(1)) {
        lemma_digits_nonneg(t.skip(1));
    }
}

proof fn lemma_digits_prefix_le(t: Seq<u8>, k: int)
    requires
        all_digits(t),
        0 <= k <= t.len(),
    ensures
        digits_value(t.take(k)) <= digits_value(t),
    decreases t.len(),
{
    if k < t.len() {
        let d = t.drop_last();
        assert(all_digits(d)) by {
            assert forall|i: int| 0 <= i < d.len() implies is_digit(#[trigger] d[i]) by {
                assert(is_digit(t[i]));
            }
        }
        lemma_digits_prefix_le(d, k);
        assert(d.take(k) == t.take(k));
        lemma_digits_nonneg(d);
        assert(is_digit(t[t.len() - 1]));
    } else {
        assert(t.take(k) == t);
    }
}

/// The value of the decimal digits from `a` to the end of `t`, where it
/// is at most `limit`.
fn parse_decimal(t: &[u8], a: usize, limit: u64) -> (r: Option<u64>)
    requires
        a <= t@.len(),
    ensures
        match decimal(t@.skip(a as int)) {
            Some(v) => if v <= limit { r == Some(v as u64) } else { r is None },
            None => r is None,
        },
        decimal(t@.skip(a as int)) matches Some(v) ==> v >= 0,
        r is Some ==> r.unwrap() <= limit && decimal(t@.skip(a as int)) == Some(r.unwrap() as int),
{
    let len = t.len();
    if a == len {
        return None;
    }
    let ghost s = t@.skip(a as int);
    proof {
        if all_digits(s) {
            lemma_digits_nonneg(s);
        }
    }
    let mut i: usize = a;
    let mut v: u64 = 0;
    while i < len
        invariant
            a <= i <= len,
            len == t@.len(),
            s == t@.skip(a as int),
            a < len,
            all_digits(s.take(i - a)),
            v as int == digits_value(s.take(i - a)),
            v <= limit,
        decreases len - i,
    {
        let b = t[i];
        if b < 48u8 || b > 57u8 {
            proof {
                assert(s[i - a] == b);
                assert(!all_digits(s));
            }
            return None;
        }
        let d = (b - 48u8) as u64;
        proof {
            assert(s.take(i - a + 1).drop_last() == s.take(i - a));
            assert(s.take(i - a + 1).last() == b);
            assert(all_digits(s.take(i - a + 1))) by {
                assert forall|j: int| 0 <= j < s.take(i - a + 1).len() implies is_digit(#[trigger] s.take(i - a + 1)[j]) by {
                    if j < i - a {
                        assert(s.take(i - a)[j] == s.take(i - a + 1)[j]);
                    }
                }
            }
        }
        if d > limit || v > (limit - d) / 10 {
            proof {
                assert(v * 10 + d > limit) by (nonlinear_arith)
                    requires d > limit || v > (limit - d) / 10, v >= 0, d >= 0;
                if all_digits(s) {
                    lemma_digits_prefix_le(s, i - a + 1);
                }
            }
            return None;
        }
        proof {
            assert(v * 10 + d <= limit) by (nonlinear_arith)
                requires d <= limit, v <= (limit - d) / 10, v >= 0, d >= 0;
        }
        v = v * 10 + d;
        i = i + 1;
    }
    proof {
        assert(s.take(i - a) == s);
    }
    Some(v)
}

/// An unsigned decimal with an optional `+`, at most `limit`.
fn parse_unsigned(t: &[u8], limit: u64) -> (r: Option<u64>)
    ensures
        match unsigned_text(t@) {
            Some(v) => if v <= limit { r == Some(v as u64) } else { r is None },
            None => r is None,
        },
        unsigned_text(t@) matches Some(v) ==> v >= 0,
        r is Some ==> r.unwrap() <= limit && unsigned_text(t@) == Some(r.unwrap() as int),
{
    if t.len() > 0 && t[0] == 43u8 {
        parse_decimal(t, 1, limit)
    } else {
        proof {
            assert(t@.skip(0) == t@);
        }
        parse_decimal(t, 0, limit)
    }
}

/// A length prefix.
pub fn to_usize(t: &[u8]) -> (r: Result<usize, RedisProtocolError>)
    ensures
        match usize_text(t@) {
            Some(v) => r == Ok::<usize, RedisProtocolError>(v as usize),
            None => r is Err && r->Err_0.kind == RedisProtocolErrorKind::DecodeError,
        },
        r is Ok ==> usize_text(t@) == Some(r.unwrap() as int),
{
    match parse_unsigned(t, usize::MAX as u64) {
        Some(v) => Ok(v as usize),
        None => fail("to_usize"),
    }
}

/// A signed decimal between `-(neg_limit)` and `pos_limit`.
fn parse_signed(t: &[u8], neg_limit: u64, pos_limit: u64) -> (r: Option<(bool, u64)>)
    ensures
        match signed_text(t@, -(neg_limit as int), pos_limit as int) {
            Some(v) => r is Some && (if r.unwrap().0 { v == -(r.unwrap().1 as int) } else { v == r.unwrap().1 as int }),
            None => r is None,
        },
        r is Some ==> (r.unwrap().0 ==> r.unwrap().1 <= neg_limit) && (!r.unwrap().0 ==> r.unwrap().1 <= pos_limit),
{
    if t.len() > 0 && t[0] == 45u8 {
        match parse_decimal(t, 1, neg_limit) {
            Some(v) => Some((true, v)),
            None => None,
        }
    } else {
        match parse_unsigned(t, pos_limit) {
            Some(v) => Some((false, v)),
            None => None,
        }
    }
}

/// A 64-bit signed decimal.
pub fn to_i64(t: &[u8]) -> (r: Result<i64, RedisProtocolError>)
    ensures
        match i64_text(t@) {
            Some(v) => r == Ok::<i64, RedisProtocolError>(v as i64),
            None => r is Err && r->Err_0.kind == RedisProtocolErrorKind::DecodeError,
        },
        r is Ok ==> i64_text(t@) == Some(r.unwrap() as int),
{
    match parse_signed(t, 9223372036854775808u64, 9223372036854775807u64) {
        Some((neg, v)) => if !neg {
            Ok(v as i64)
        } else if v == 9223372036854775808u64 {
            Ok(i64::MIN)
        } else {
            Ok(-(v as i64))
        },
        None => fail("to_i64"),
    }
}

/// A signed length prefix.
pub fn to_isize(t: &[u8]) -> (r: Result<isize, RedisProtocolError>)
    ensures
        match isize_text(t@) {
            Some(v) => r == Ok::<isize, RedisProtocolError>(v as isize),
            None => r is Err && r->Err_0.kind == RedisProtocolErrorKind::DecodeError,
        },
        r is Ok ==> isize_text(t@) == Some(r.unwrap() as int),
{
    let neg_limit = (isize::MAX as u64) + 1;
    match parse_signed(t, neg_limit, isize::MAX as u64) {
        Some((neg, v)) => if !neg {
            Ok(v as isize)
        } else if v == neg_limit {
            Ok(isize::MIN)
        } else {
            Ok(-(v as isize))
        },
        None => fail("to_isize"),
    }
}

/// A non-negative length.
pub fn isize_to_usize(n: isize) -> (r: Result<usize, RedisProtocolError>)
    ensures
        n >= 0 ==> r == Ok::<usize, RedisProtocolError>(n as usize),
        n < 0 ==> r is Err && r->Err_0.kind == RedisProtocolErrorKind::DecodeError,
{
    if n < 0 {
        fail("isize_to_usize")
    } else {
        Ok(n as usize)
    }
}

/// A boolean spelled `t` or `f`.
pub fn to_bool(t: &[u8]) -> (r: Result<bool, RedisProtocolError>)
    ensures
        match bool_text(t@) {
            Some(b) => r == Ok::<bool, RedisProtocolError>(b),
            None => r is Err && r->Err_0.kind == RedisProtocolErrorKind::DecodeError,
        },
{
    if t.len() == 1 && t[0] == 116u8 {
        proof {
            assert(t@ == seq![116u8]);
        }
        Ok(true)
    } else if t.len() == 1 && t[0] == 102u8 {
        proof {
            assert(t@ == seq![102u8]);
        }
        Ok(false)
    } else {
        fail("to_bool")
    }
}

/// A verbatim-string format spelled `txt` or `mkd`.
pub fn to_verbatimstring_format(t: &[u8]) -> (r: Result<VerbatimStringFormat, RedisProtocolError>)
    ensures
        match format_text(t@) {
            Some(f) => r == Ok::<VerbatimStringFormat, RedisProtocolError>(f),
            None => r is Err && r->Err_0.kind == RedisProtocolErrorKind::DecodeError,
        },
{
    if t.len() == 3 && t[0] == 116u8 && t[1] == 120u8 && t[2] == 116u8 {
        proof {
            assert(t@ == seq![116u8, 120u8, 116u8]);
        }
        Ok(VerbatimStringFormat::Text)
    } else if t.len() == 3 && t[0] == 109u8 && t[1] == 107u8 && t[2] == 100u8 {
        proof {
            assert(t@ == seq![109u8, 107u8, 100u8]);
        }
        Ok(VerbatimStringFormat::Markdown)
    } else {
        fail("to_verbatimstring_format")
    }
}

/// The position of the first non-digit at or after `i`.
fn skip_digits(t: &[u8], i: usize) -> (r: usize)
    requires
        i <= t@.len(),
    ensures
        r as int == digits_end(t@, i as int),
        i <= r <= t@.len(),
{
    let mut j: usize = i;
    while j < t.len() && t[j] >= 48u8 && t[j] <= 57u8
        invariant
            i <= j <= t@.len(),
            digits_end(t@, i as int) == digits_end(t@, j as int),
        decreases t@.len() - j,
    {
        j = j + 1;
    }
    j
}

/// Whether `t` is the text of a double.
pub fn check_double(t: &[u8]) -> (r: bool)
    ensures
        r == double_text(t@),
{
    let len = t.len();
    if len == 3 && t[0] == 105u8 && t[1] == 110u8 && t[2] == 102u8 {
        proof {
            assert(t@ == seq![105u8, 110u8, 102u8]);
        }
        return true;
    }
    if len == 4 && (t[0] == 45u8 || t[0] == 43u8) && t[1] == 105u8 && t[2] == 110u8 && t[3] == 102u8 {
        proof {
            if t[0] == 45u8 {
                assert(t@ == seq![45u8, 105u8, 110u8, 102u8]);
            } else {
                assert(t@ == seq![43u8, 105u8, 110u8, 102u8]);
            }
        }
        return true;
    }
    proof {
        assert(t@ != seq![105u8, 110u8, 102u8]);
        assert(t@ != seq![45u8, 105u8, 110u8, 102u8]);
        assert(t@ != seq![43u8, 105u8, 110u8, 102u8]);
    }
    let i0: usize = if len > 0 && (t[0] == 43u8 || t[0] == 45u8) { 1 } else { 0 };
    let i1 = skip_digits(t, i0);
    let i2 = if i1 < len && t[i1] == 46u8 { skip_digits(t, i1 + 1) } else { i1 };
    let n = if i2 > i1 { (i1 - i0) + (i2 - i1 - 1) } else { i1 - i0 };
    if n == 0 {
        return false;
    }
    if i2 == len {
        return true;
    }
    if t[i2] != 101u8 && t[i2] != 69u8 {
        return false;
    }
    let j: usize = if i2 + 1 < len && (t[i2 + 1] == 43u8 || t[i2 + 1] == 45u8) { i2 + 2 } else { i2 + 1 };
    let k = skip_digits(t, j);
    k > j && k == len
}

// ---------------------------------------------------------- exec: frames

/// An exec parser result that, when it is a value, ends between `lo` and
/// `hi`.
pub open spec fn ends_within<T>(r: Result<Option<(T, usize)>, RedisProtocolError>, lo: int, hi: int) -> bool {
    match r {
        Ok(Some((_, e))) => lo <= e <= hi,
        _ => true,
    }
}

/// A decoded result that, when it is a value, holds a fresh stream header.
pub open spec fn fresh_result(r: Result<Option<(DecodedFrame, usize)>, RedisProtocolError>) -> bool {
    match r {
        Ok(Some((d, _))) => fresh_stream(d),
        _ => true,
    }
}

/// The model of decoded results, as a closure for `agrees`.
pub open spec fn dview() -> spec_fn(DecodedFrame) -> SDecoded {
    |d: DecodedFrame| decoded_view(d)
}

/// The model of byte buffers, as a closure for `agrees`.
pub open spec fn bview() -> spec_fn(Vec<u8>) -> Seq<u8> {
    |v: Vec<u8>| v@
}

/// Wraps a frame as a complete decoder result.
pub fn map_complete_frame(frame: Frame) -> (r: DecodedFrame)
    ensures
        r == DecodedFrame::Complete(frame),
{
    DecodedFrame::Complete(frame)
}

/// The frame of a complete decoder result; a stream header is an error.
pub fn unwrap_complete_frame(frame: DecodedFrame) -> (r: Result<Frame, RedisProtocolError>)
    ensures
        match frame {
            DecodedFrame::Complete(f) => r == Ok::<Frame, RedisProtocolError>(f),
            DecodedFrame::Streaming(_) => r is Err && r->Err_0.kind == RedisProtocolErrorKind::DecodeError,
        },
{
    match frame {
        DecodedFrame::Complete(f) => Ok(f),
        DecodedFrame::Streaming(_) => fail("unwrap_complete_frame"),
    }
}

/// `n` bytes at `p` followed by CR LF.
pub(crate) fn d_parse_payload(buf: &[u8], p: usize, n: usize) -> (r: Result<Option<(Vec<u8>, usize)>, RedisProtocolError>)
    requires
        p <= buf@.len(),
    ensures
        agrees(r, payload(buf@, p as int, n as int), bview()),
        ends_within(r, p + 2, buf@.len() as int),
{
    let len = buf.len();
    if n > len - p || len - p - n < 2 {
        return Ok(None);
    }
    if buf[p + n] == 13u8 && buf[p + n + 1] == 10u8 {
        let data = vstd::slice::slice_to_vec(slice_subrange(buf, p, p + n));
        Ok(Some((data, p + n + 2)))
    } else {
        fail("payload")
    }
}

/// A length line at `p` and the position past it.
fn d_read_prefix_len(buf: &[u8], p: usize) -> (r: Result<Option<(usize, usize)>, RedisProtocolError>)
    requires
        p <= buf@.len(),
    ensures
        agrees(r, prefix_len(buf@, p as int), |n: usize| n as int),
        ends_within(r, p + 2, buf@.len() as int),
{
    let (i, e) = match d_read_to_crlf(buf, p) {
        Some(x) => x,
        None => return Ok(None),
    };
    match to_usize(slice_subrange(buf, p, i)) {
        Ok(n) => Ok(Some((n, e))),
        Err(x) => Err(x),
    }
}

/// The text of the line at `p`, as a new buffer.
pub(crate) fn line_bytes(buf: &[u8], p: usize, i: usize) -> (r: Vec<u8>)
    requires
        p <= i <= buf@.len(),
    ensures
        r@ == buf@.subrange(p as int, i as int),
{
    vstd::slice::slice_to_vec(slice_subrange(buf, p, i))
}

fn d_parse_simplestring(buf: &[u8], p: usize) -> (r: Result<Option<(DecodedFrame, usize)>, RedisProtocolError>)
    requires
        p <= buf@.len(),
    ensures
        agrees(r, parse_body(buf@, p as int, FrameKind::SimpleString), dview()),
        ends_within(r, p + 2, buf@.len() as int),
        fresh_result(r),
{
    let (i, e) = match d_read_to_crlf(buf, p) {
        Some(x) => x,
        None => return Ok(None),
    };
    if !check_utf8(slice_subrange(buf, p, i)) {
        return fail("parse_simplestring");
    }
    let data = line_bytes(buf, p, i);
    Ok(Some((DecodedFrame::Complete(Frame::SimpleString { data, attributes: None }), e)))
}

fn d_parse_simpleerror(buf: &[u8], p: usize) -> (r: Result<Option<(DecodedFrame, usize)>, RedisProtocolError>)
    requires
        p <= buf@.len(),
    ensures
        agrees(r, parse_body(buf@, p as int, FrameKind::SimpleError), dview()),
        ends_within(r, p + 2, buf@.len() as int),
        fresh_result(r),
{
    let (i, e) = match d_read_to_crlf(buf, p) {
        Some(x) => x,
        None => return Ok(None),
    };
    if !check_utf8(slice_subrange(buf, p, i)) {
        return fail("parse_simpleerror");
    }
    let data = line_bytes(buf, p, i);
    Ok(Some((DecodedFrame::Complete(Frame::SimpleError { data, attributes: None }), e)))
}

fn d_parse_number(buf: &[u8], p: usize) -> (r: Result<Option<(DecodedFrame, usize)>, RedisProtocolError>)
    requires
        p <= buf@.len(),
    ensures
        agrees(r, parse_body(buf@, p as int, FrameKind::Number), dview()),
        ends_within(r, p + 2, buf@.len() as int),
        fresh_result(r),
{
    let (i, e) = match d_read_to_crlf(buf, p) {
        Some(x) => x,
        None => return Ok(None),
    };
    match to_i64(slice_subrange(buf, p, i)) {
        Ok(data) => Ok(Some((DecodedFrame::Complete(Frame::Number { data, attributes: None }), e))),
        Err(x) => Err(x),
    }
}

fn d_parse_double(buf: &[u8], p: usize) -> (r: Result<Option<(DecodedFrame, usize)>, RedisProtocolError>)
    requires
        p <= buf@.len(),
    ensures
        agrees(r, parse_body(buf@, p as int, FrameKind::Double), dview()),
        ends_within(r, p + 2, buf@.len() as int),
        fresh_result(r),
{
    let (i, e) = match d_read_to_crlf(buf, p) {
        Some(x) => x,
        None => return Ok(None),
    };
    if !check_double(slice_subrange(buf, p, i)) {
        return fail("parse_double");
    }
    let data = line_bytes(buf, p, i);
    Ok(Some((DecodedFrame::Complete(Frame::Double { data, attributes: None }), e)))
}

fn d_parse_boolean(buf: &[u8], p: usize) -> (r: Result<Option<(DecodedFrame, usize)>, RedisProtocolError>)
    requires
        p <= buf@.len(),
    ensures
        agrees(r, parse_body(buf@, p as int, FrameKind::Boolean), dview()),
        ends_within(r, p + 2, buf@.len() as int),
        fresh_result(r),
{
    let (i, e) = match d_read_to_crlf(buf, p) {
        Some(x) => x,
        None => return Ok(None),
    };
    match to_bool(slice_subrange(buf, p, i)) {
        Ok(data) => Ok(Some((DecodedFrame::Complete(Frame::Boolean { data, attributes: None }), e))),
        Err(x) => Err(x),
    }
}

fn d_parse_null(buf: &[u8], p: usize) -> (r: Result<Option<(DecodedFrame, usize)>, RedisProtocolError>)
    requires
        p <= buf@.len(),
    ensures
        agrees(r, parse_body(buf@, p as int, FrameKind::Null), dview()),
        ends_within(r, p + 2, buf@.len() as int),
        fresh_result(r),
{
    match d_read_to_crlf(buf, p) {
        Some((_, e)) => Ok(Some((DecodedFrame::Complete(Frame::Null), e))),
        None => Ok(None),
    }
}

fn d_parse_bignumber(buf: &[u8], p: usize) -> (r: Result<Option<(DecodedFrame, usize)>, RedisProtocolError>)
    requires
        p <= buf@.len(),
    ensures
        agrees(r, parse_body(buf@, p as int, FrameKind::BigNumber), dview()),
        ends_within(r, p + 2, buf@.len() as int),
        fresh_result(r),
{
    match d_read_to_crlf(buf, p) {
        Some((i, e)) => {
            let data = line_bytes(buf, p, i);
            Ok(Some((DecodedFrame::Complete(Frame::BigNumber { data, attributes: None }), e)))
        },
        None => Ok(None),
    }
}

fn d_return_end_stream(buf: &[u8], p: usize) -> (r: Result<Option<(DecodedFrame, usize)>, RedisProtocolError>)
    requires
        p <= buf@.len(),
    ensures
        agrees(r, parse_body(buf@, p as int, FrameKind::EndStream), dview()),
        ends_within(r, p + 2, buf@.len() as int),
        fresh_result(r),
{
    match d_read_to_crlf(buf, p) {
        Some((_, e)) => Ok(Some((DecodedFrame::Complete(Frame::ChunkedString(Vec::new())), e))),
        None => Ok(None),
    }
}

fn d_parse_bloberror(buf: &[u8], p: usize) -> (r: Result<Option<(DecodedFrame, usize)>, RedisProtocolError>)
    requires
        p <= buf@.len(),
    ensures
        agrees(r, parse_body(buf@, p as int, FrameKind::BlobError), dview()),
        ends_within(r, p + 2, buf@.len() as int),
        fresh_result(r),
{
    let (n, e) = match d_read_prefix_len(buf, p) {
        Ok(Some(x)) => x,
        Ok(None) => return Ok(None),
        Err(x) => return Err(x),
    };
    match d_parse_payload(buf, e, n) {
        Ok(Some((data, e2))) => Ok(Some((DecodedFrame::Complete(Frame::BlobError { data, attributes: None }), e2))),
        Ok(None) => Ok(None),
        Err(x) => Err(x),
    }
}

fn d_parse_verbatimstring(buf: &[u8], p: usize) -> (r: Result<Option<(DecodedFrame, usize)>, RedisProtocolError>)
    requires
        p <= buf@.len(),
    ensures
        agrees(r, parse_body(buf@, p as int, FrameKind::VerbatimString), dview()),
        ends_within(r, p + 2, buf@.len() as int),
        fresh_result(r),
{
    let (n, e) = match d_read_prefix_len(buf, p) {
        Ok(Some(x)) => x,
        Ok(None) => return Ok(None),
        Err(x) => return Err(x),
    };
    if buf.len() - e < 4 {
        return Ok(None);
    }
    let format = match to_verbatimstring_format(slice_subrange(buf, e, e + 3)) {
        Ok(f) => f,
        Err(x) => return Err(x),
    };
    if buf[e + 3] != 58u8 || n < 4 {
        return fail("parse_verbatimstring");
    }
    match d_parse_payload(buf, e + 4, n - 4) {
        Ok(Some((data, e2))) => Ok(
            Some((DecodedFrame::Complete(Frame::VerbatimString { data, format, attributes: None }), e2)),
        ),
        Ok(None) => Ok(None),
        Err(x) => Err(x),
    }
}

fn d_parse_chunked_string(buf: &[u8], p: usize) -> (r: Result<Option<(DecodedFrame, usize)>, RedisProtocolError>)
    requires
        p <= buf@.len(),
    ensures
        agrees(r, parse_body(buf@, p as int, FrameKind::ChunkedString), dview()),
        ends_within(r, p + 2, buf@.len() as int),
        fresh_result(r),
{
    let (n, e) = match d_read_prefix_len(buf, p) {
        Ok(Some(x)) => x,
        Ok(None) => return Ok(None),
        Err(x) => return Err(x),
    };
    if n == 0 {
        return Ok(Some((DecodedFrame::Complete(Frame::ChunkedString(Vec::new())), e)));
    }
    match d_parse_payload(buf, e, n) {
        Ok(Some((data, e2))) => Ok(Some((DecodedFrame::Complete(Frame::ChunkedString(data)), e2))),
        Ok(None) => Ok(None),
        Err(x) => Err(x),
    }
}

/// The first space at or after `i`.
fn find_space(t: &[u8], i: usize) -> (r: Option<usize>)
    ensures
        r is Some ==> space_from(t@, i as int) == Some(r.unwrap() as int) && i <= r.unwrap() < t@.len(),
        r is None ==> space_from(t@, i as int) is None,
{
    let mut j: usize = i;
    while j < t.len()
        invariant
            i <= j,
            space_from(t@, i as int) == space_from(t@, j as int),
        decreases t@.len() - j,
    {
        if t[j] == 32u8 {
            return Some(j);
        }
        j = j + 1;
    }
    None
}

/// A handshake frame from its version byte (`2` or `3`) and credentials.
pub fn to_hello(version: u8, auth: Option<(&[u8], &[u8])>) -> (r: Result<Frame, RedisProtocolError>)
    ensures
        match version_byte(version) {
            Some(v) => r is Ok && r.unwrap()@ == SFrame::Hello {
                version: v,
                auth: match auth {
                    Some((u, w)) => Some((u@, w@)),
                    None => None,
                },
            },
            None => r is Err && r->Err_0.kind == RedisProtocolErrorKind::DecodeError,
        },
{
    let version = if version == 50u8 {
        RespVersion::RESP2
    } else if version == 51u8 {
        RespVersion::RESP3
    } else {
        return fail("parse_hello");
    };
    let auth = match auth {
        Some((username, password)) => Some(
            Auth {
                username: vstd::slice::slice_to_vec(username),
                password: vstd::slice::slice_to_vec(password),
            },
        ),
        None => None,
    };
    Ok(Frame::Hello { version, auth })
}

fn d_parse_hello(buf: &[u8], p: usize) -> (r: Result<Option<(DecodedFrame, usize)>, RedisProtocolError>)
    requires
        p <= buf@.len(),
    ensures
        agrees(r, parse_body(buf@, p as int, FrameKind::Hello), dview()),
        ends_within(r, p + 2, buf@.len() as int),
        fresh_result(r),
{
    let (i, e) = match d_read_to_crlf(buf, p) {
        Some(x) => x,
        None => return Ok(None),
    };
    let t = slice_subrange(buf, p, i);
    let n = t.len();
    if !(n >= 6 && t[0] == 69u8 && t[1] == 76u8 && t[2] == 76u8 && t[3] == 79u8 && t[4] == 32u8) {
        return fail("parse_hello");
    }
    let rest = slice_subrange(t, 6, n);
    let auth = if n == 6 {
        None
    } else {
        if !(n >= 12 && t[6] == 32u8 && t[7] == 65u8 && t[8] == 85u8 && t[9] == 84u8 && t[10] == 72u8
            && t[11] == 32u8) {
            return fail("parse_hello");
        }
        let c = slice_subrange(t, 12, n);
        proof {
            assert(rest@.skip(6) == c@);
        }
        match find_space(c, 0) {
            Some(sp) => {
                let user = slice_subrange(c, 0, sp);
                let pass = slice_subrange(c, sp + 1, c.len());
                proof {
                    assert(user@ == c@.take(sp as int));
                    assert(pass@ == c@.skip(sp + 1));
                }
                if !check_utf8(user) || !check_utf8(pass) {
                    return fail("parse_hello");
                }
                Some((user, pass))
            },
            None => return fail("parse_hello"),
        }
    };
    proof {
        assert(t@.skip(6) == rest@);
    }
    match to_hello(t[5], auth) {
        Ok(f) => Ok(Some((DecodedFrame::Complete(f), e))),
        Err(x) => Err(x),
    }
}

proof fn lemma_pairs_view_append(x: Seq<(Frame, Frame)>, y: Seq<(Frame, Frame)>)
    ensures
        pairs_view(x + y) == pairs_view(x) + pairs_view(y),
{
    assert(pairs_view(x + y) =~= pairs_view(x) + pairs_view(y));
}

/// Existing attributes extended by `a`.
fn merge_attributes(old: Option<Attributes>, a: Attributes) -> (r: Attributes)
    ensures
        pairs_view(r@) == merged_attrs(attrs_view(old), pairs_view(a@)),
{
    match old {
        Some(mut o) => {
            let mut a = a;
            proof {
                lemma_pairs_view_append(o@, a@);
            }
            o.append(&mut a);
            o
        },
        None => a,
    }
}

/// Attaches an attribute block to a decoded frame; kinds without an
/// attributes slot are an error.
pub fn attach_attributes(attributes: Attributes, frame: DecodedFrame) -> (r: Result<DecodedFrame, RedisProtocolError>)
    ensures
        match attach_spec(pairs_view(attributes@), decoded_view(frame)) {
            Some(d) => r is Ok && decoded_view(r.unwrap()) == d && (fresh_stream(frame) ==> fresh_stream(r.unwrap())),
            None => r is Err && r->Err_0.kind == RedisProtocolErrorKind::DecodeError,
        },
        frame matches DecodedFrame::Streaming(st) ==> r matches Ok(DecodedFrame::Streaming(st2)) && st2.kind == st.kind
            && st2.buffer == st.buffer && st2.finished == st.finished && attrs_view(st2.attributes) == Some(
            merged_attrs(attrs_view(st.attributes), pairs_view(attributes@)),
        ),
        frame matches DecodedFrame::Complete(_) ==> (r is Ok ==> r.unwrap() is Complete),
{
    match frame {
        DecodedFrame::Complete(f) => {
            let f2 = match f {
                Frame::BlobString { data, attributes: a } => Frame::BlobString { data, attributes: Some(merge_attributes(a, attributes)) },
                Frame::BlobError { data, attributes: a } => Frame::BlobError { data, attributes: Some(merge_attributes(a, attributes)) },
                Frame::SimpleString { data, attributes: a } => Frame::SimpleString { data, attributes: Some(merge_attributes(a, attributes)) },
                Frame::SimpleError { data, attributes: a } => Frame::SimpleError { data, attributes: Some(merge_attributes(a, attributes)) },
                Frame::Boolean { data, attributes: a } => Frame::Boolean { data, attributes: Some(merge_attributes(a, attributes)) },
                Frame::Number { data, attributes: a } => Frame::Number { data, attributes: Some(merge_attributes(a, attributes)) },
                Frame::Double { data, attributes: a } => Frame::Double { data, attributes: Some(merge_attributes(a, attributes)) },
                Frame::BigNumber { data, attributes: a } => Frame::BigNumber { data, attributes: Some(merge_attributes(a, attributes)) },
                Frame::VerbatimString { data, format, attributes: a } => Frame::VerbatimString {
                    data,
                    format,
                    attributes: Some(merge_attributes(a, attributes)),
                },
                Frame::Array { data, attributes: a } => Frame::Array { data, attributes: Some(merge_attributes(a, attributes)) },
                Frame::Dict { data, attributes: a } => Frame::Dict { data, attributes: Some(merge_attributes(a, attributes)) },
                Frame::Distinct { data, attributes: a } => Frame::Distinct { data, attributes: Some(merge_attributes(a, attributes)) },
                Frame::Push { data, attributes: a } => Frame::Push { data, attributes: Some(merge_attributes(a, attributes)) },
                _ => return fail("attach_attributes"),
            };
            Ok(DecodedFrame::Complete(f2))
        },
        DecodedFrame::Streaming(st) => {
            let StreamedFrame { kind, buffer, attributes: a, finished } = st;
            let merged = merge_attributes(a, attributes);
            Ok(DecodedFrame::Streaming(StreamedFrame { kind, buffer, attributes: Some(merged), finished }))
        },
    }
}

/// `pre` put before the value of an outcome.
pub open spec fn prepend<A>(pre: Seq<A>, o: Outcome<Seq<A>>) -> Outcome<Seq<A>> {
    match o {
        Outcome::Done(v, e) => Outcome::Done(pre + v, e),
        Outcome::Incomplete => Outcome::Incomplete,
        Outcome::Fail => Outcome::Fail,
    }
}

proof fn lemma_prepend_assoc<A>(x: Seq<A>, y: Seq<A>, o: Outcome<Seq<A>>)
    ensures
        prepend(x, prepend(y, o)) == prepend(x + y, o),
{
    if let Outcome::Done(v, e) = o {
        assert(x + (y + v) =~= (x + y) + v);
    }
}

proof fn lemma_frames_view_push(v: Seq<Frame>, f: Frame)
    ensures
        frames_view(v.push(f)) == frames_view(v) + seq![frame_view(f)],
{
    assert(frames_view(v.push(f)) =~= frames_view(v) + seq![frame_view(f)]);
}

/// `n` complete frames in a row.
fn d_parse_array_frames(buf: &[u8], p: usize, n: usize) -> (r: Result<Option<(Vec<Frame>, usize)>, RedisProtocolError>)
    requires
        p <= buf@.len(),
    ensures
        agrees(r, parse_many(buf@, p as int, n as nat), |v: Vec<Frame>| frames_view(v@)),
        ends_within(r, p as int, buf@.len() as int),
    decreases buf@.len() - p, 2int, n,
{
    let ghost s = buf@;
    let mut out: Vec<Frame> = Vec::new();
    let mut pos: usize = p;
    let mut i: usize = 0;
    proof {
        assert(frames_view(out@) =~= Seq::<SFrame>::empty());
        assert(seq![] + parse_many(s, p as int, n as nat)->Done_0 =~= parse_many(s, p as int, n as nat)->Done_0);
    }
    while i < n
        invariant
            s == buf@,
            p <= pos <= buf@.len(),
            i <= n,
            prepend(frames_view(out@), parse_many(s, pos as int, (n - i) as nat)) == parse_many(s, p as int, n as nat),
        decreases n - i,
    {
        match d_parse_frame_or_attribute(buf, pos) {
            Ok(Some((d, e))) => match unwrap_complete_frame(d) {
                Ok(f) => {
                    proof {
                        lemma_prepend_assoc(frames_view(out@), seq![frame_view(f)], parse_many(s, e as int, (n - i - 1) as nat));
                        lemma_frames_view_push(out@, f);
                    }
                    out.push(f);
                    pos = e;
                },
                Err(x) => return Err(x),
            },
            Ok(None) => return Ok(None),
            Err(x) => return Err(x),
        }
        i = i + 1;
    }
    proof {
        assert(frames_view(out@) + seq![] =~= frames_view(out@));
    }
    Ok(Some((out, pos)))
}

/// Each key once, in the order of the pairs, with its last value.
pub open spec fn dedup_pairs_outcome(o: Outcome<Seq<(SFrame, SFrame)>>) -> Outcome<Seq<(SFrame, SFrame)>> {
    match o {
        Outcome::Done(v, e) => Outcome::Done(dedup_pairs(v), e),
        Outcome::Incomplete => Outcome::Incomplete,
        Outcome::Fail => Outcome::Fail,
    }
}

/// `n` key-value pairs, inserted in order into a map.
fn d_parse_kv_pairs(buf: &[u8], p: usize, n: usize) -> (r: Result<Option<(FrameMap, usize)>, RedisProtocolError>)
    requires
        p <= buf@.len(),
    ensures
        agrees(r, dedup_pairs_outcome(parse_pairs(buf@, p as int, n as nat)), |v: FrameMap| pairs_view(v@)),
        ends_within(r, p as int, buf@.len() as int),
    decreases buf@.len() - p, 3int, n,
{
    let ghost s = buf@;
    let mut out: FrameMap = Vec::new();
    let ghost mut raw: Seq<(SFrame, SFrame)> = seq![];
    let mut pos: usize = p;
    let mut i: usize = 0;
    proof {
        assert(pairs_view(out@) =~= Seq::<(SFrame, SFrame)>::empty());
        assert(seq![] + parse_pairs(s, p as int, n as nat)->Done_0 =~= parse_pairs(s, p as int, n as nat)->Done_0);
    }
    while i < n
        invariant
            s == buf@,
            p <= pos <= buf@.len(),
            i <= n,
            pairs_view(out@) == dedup_pairs(raw),
            prepend(raw, parse_pairs(s, pos as int, (n - i) as nat)) == parse_pairs(s, p as int, n as nat),
        decreases n - i,
    {
        match d_parse_array_frames(buf, pos, 2) {
            Ok(Some((kv, e))) => {
                let mut kv = kv;
                if e == pos || kv.len() != 2 {
                    return fail("parse_kv_pairs");
                }
                let ghost kvs = frames_view(kv@);
                let ghost kv0 = kv@;
                let v = match kv.pop() {
                    Some(x) => x,
                    None => return fail("parse_kv_pairs"),
                };
                let k = match kv.pop() {
                    Some(x) => x,
                    None => return fail("parse_kv_pairs"),
                };
                proof {
                    assert(k == kv0[0] && v == kv0[1]);
                    assert(kvs[0] == frame_view(k));
                    assert(kvs[1] == frame_view(v));
                    lemma_prepend_assoc(raw, seq![(frame_view(k), frame_view(v))], parse_pairs(s, e as int, (n - i - 1) as nat));
                    assert(raw.push((frame_view(k), frame_view(v))).drop_last() =~= raw);
                    assert(raw + seq![(frame_view(k), frame_view(v))] =~= raw.push((frame_view(k), frame_view(v))));
                    raw = raw.push((frame_view(k), frame_view(v)));
                }
                map_insert(&mut out, k, v);
                pos = e;
            },
            Ok(None) => return Ok(None),
            Err(x) => return Err(x),
        }
        i = i + 1;
    }
    proof {
        assert(raw + seq![] =~= raw);
    }
    Ok(Some((out, pos)))
}

/// An array, set, map or blob string: its length line announces a stream
/// (`?`), null (-1) or a length.
fn d_check_streaming(buf: &[u8], p: usize, kind: FrameKind) -> (r: Result<Option<(DecodedFrame, usize)>, RedisProtocolError>)
    requires
        p <= buf@.len(),
        kind == FrameKind::Array || kind == FrameKind::BlobString || kind == FrameKind::Dict || kind == FrameKind::Distinct,
    ensures
        agrees(r, parse_aggregate(buf@, p as int, kind), dview()),
        ends_within(r, p + 2, buf@.len() as int),
        fresh_result(r),
    decreases buf@.len() - p, 0int, 0int,
{
    let (i, e) = match d_read_to_crlf(buf, p) {
        Some(x) => x,
        None => return Ok(None),
    };
    let t = slice_subrange(buf, p, i);
    if t.len() == 1 && t[0] == 63u8 {
        proof {
            assert(t@ =~= seq![63u8]);
        }
        return Ok(Some((DecodedFrame::Streaming(StreamedFrame::new(kind)), e)));
    }
    proof {
        assert(!stream_marker(t@));
    }
    let n = match to_isize(t) {
        Ok(n) => n,
        Err(x) => return Err(x),
    };
    if n == -1 {
        return Ok(Some((DecodedFrame::Complete(Frame::Null), e)));
    }
    let n = match isize_to_usize(n) {
        Ok(n) => n,
        Err(x) => return Err(x),
    };
    match kind {
        FrameKind::BlobString => match d_parse_payload(buf, e, n) {
            Ok(Some((data, e2))) => Ok(Some((DecodedFrame::Complete(Frame::BlobString { data, attributes: None }), e2))),
            Ok(None) => Ok(None),
            Err(x) => Err(x),
        },
        FrameKind::Dict => match d_parse_kv_pairs(buf, e, n) {
            Ok(Some((data, e2))) => Ok(Some((DecodedFrame::Complete(Frame::Dict { data, attributes: None }), e2))),
            Ok(None) => Ok(None),
            Err(x) => Err(x),
        },
        FrameKind::Distinct => match d_parse_array_frames(buf, e, n) {
            Ok(Some((data, e2))) => Ok(
                Some((DecodedFrame::Complete(Frame::Distinct { data: to_set(data), attributes: None }), e2)),
            ),
            Ok(None) => Ok(None),
            Err(x) => Err(x),
        },
        _ => match d_parse_array_frames(buf, e, n) {
            Ok(Some((data, e2))) => Ok(Some((DecodedFrame::Complete(Frame::Array { data, attributes: None }), e2))),
            Ok(None) => Ok(None),
            Err(x) => Err(x),
        },
    }
}

fn d_parse_push(buf: &[u8], p: usize) -> (r: Result<Option<(DecodedFrame, usize)>, RedisProtocolError>)
    requires
        p <= buf@.len(),
    ensures
        agrees(r, parse_body(buf@, p as int, FrameKind::Push), dview()),
        ends_within(r, p + 2, buf@.len() as int),
        fresh_result(r),
    decreases buf@.len() - p, 0int, 0int,
{
    let (n, e) = match d_read_prefix_len(buf, p) {
        Ok(Some(x)) => x,
        Ok(None) => return Ok(None),
        Err(x) => return Err(x),
    };
    match d_parse_array_frames(buf, e, n) {
        Ok(Some((data, e2))) => Ok(Some((DecodedFrame::Complete(Frame::Push { data, attributes: None }), e2))),
        Ok(None) => Ok(None),
        Err(x) => Err(x),
    }
}

/// A frame of kind `kind` after its prefix byte.
fn d_parse_non_attribute_frame(buf: &[u8], p: usize, kind: FrameKind) -> (r: Result<Option<(DecodedFrame, usize)>, RedisProtocolError>)
    requires
        p <= buf@.len(),
    ensures
        agrees(r, parse_body(buf@, p as int, kind), dview()),
        ends_within(r, p + 2, buf@.len() as int),
        fresh_result(r),
    decreases buf@.len() - p, 1int, 0int,
{
    match kind {
        FrameKind::Array | FrameKind::BlobString | FrameKind::Dict | FrameKind::Distinct => d_check_streaming(buf, p, kind),
        FrameKind::SimpleString => d_parse_simplestring(buf, p),
        FrameKind::SimpleError => d_parse_simpleerror(buf, p),
        FrameKind::Number => d_parse_number(buf, p),
        FrameKind::Null => d_parse_null(buf, p),
        FrameKind::Double => d_parse_double(buf, p),
        FrameKind::Boolean => d_parse_boolean(buf, p),
        FrameKind::BlobError => d_parse_bloberror(buf, p),
        FrameKind::VerbatimString => d_parse_verbatimstring(buf, p),
        FrameKind::Push => d_parse_push(buf, p),
        FrameKind::BigNumber => d_parse_bignumber(buf, p),
        FrameKind::Hello => d_parse_hello(buf, p),
        FrameKind::ChunkedString => d_parse_chunked_string(buf, p),
        FrameKind::EndStream => d_return_end_stream(buf, p),
        FrameKind::Attribute => fail("parse_non_attribute_frame"),
    }
}

/// An attribute block after its prefix byte, and the frame it decorates.
fn d_parse_attribute_and_frame(buf: &[u8], p: usize) -> (r: Result<Option<(DecodedFrame, usize)>, RedisProtocolError>)
    requires
        p <= buf@.len(),
    ensures
        agrees(r, parse_attributed(buf@, p as int), dview()),
        ends_within(r, p + 2, buf@.len() as int),
        fresh_result(r),
    decreases buf@.len() - p, 0int, 0int,
{
    let (n, e) = match d_read_prefix_len(buf, p) {
        Ok(Some(x)) => x,
        Ok(None) => return Ok(None),
        Err(x) => return Err(x),
    };
    let (attributes, e2) = match d_parse_kv_pairs(buf, e, n) {
        Ok(Some(x)) => x,
        Ok(None) => return Ok(None),
        Err(x) => return Err(x),
    };
    if e2 >= buf.len() {
        return Ok(None);
    }
    let kind = match FrameKind::from_byte(buf[e2]) {
        Some(FrameKind::Attribute) => return fail("parse_attribute_and_frame"),
        Some(k) => k,
        None => return fail("frame_type"),
    };
    let (next, e3) = match d_parse_non_attribute_frame(buf, e2 + 1, kind) {
        Ok(Some(x)) => x,
        Ok(None) => return Ok(None),
        Err(x) => return Err(x),
    };
    match attach_attributes(attributes, next) {
        Ok(d) => Ok(Some((d, e3))),
        Err(x) => Err(x),
    }
}

/// A frame, or an attribute block with the frame it decorates, at `p`.
pub(crate) fn d_parse_frame_or_attribute(buf: &[u8], p: usize) -> (r: Result<Option<(DecodedFrame, usize)>, RedisProtocolError>)
    requires
        p <= buf@.len(),
    ensures
        agrees(r, parse_frame(buf@, p as int), dview()),
        ends_within(r, p + 3, buf@.len() as int),
        fresh_result(r),
    decreases buf@.len() - p, 1int, 0int,
{
    if p >= buf.len() {
        return Ok(None);
    }
    match FrameKind::from_byte(buf[p]) {
        None => fail("frame_type"),
        Some(FrameKind::Attribute) => d_parse_attribute_and_frame(buf, p + 1),
        Some(k) => d_parse_non_attribute_frame(buf, p + 1, k),
    }
}

} // verus!
