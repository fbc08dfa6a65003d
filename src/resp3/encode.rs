//! Encoding RESP3 frames into bytes.
//!
//! `enc_frame` states the wire form of a frame; `encode` appends exactly
//! those bytes and `encode_len` counts them.
use crate::resp3::types::{
    kind_byte, FrameKind, attrs_view, frame_view, frames_view, pairs_view, Attributes, Auth, Frame, FrameMap, RespVersion, SFrame, VerbatimStringFormat,
};
use crate::utils::{digit_count, digits_in_number};
use crate::types::{RedisProtocolError, RedisProtocolErrorKind};
use vstd::prelude::*;

verus! {

broadcast use {vstd::std_specs::vec::group_vec_axioms, vstd::seq::group_seq_axioms};

pub open spec fn crlf() -> Seq<u8> {
    seq![13u8, 10u8]
}

/// The decimal digits of `n`, without leading zeros.
pub open spec fn dec(n: nat) -> Seq<u8>
    decreases n,
{
    if n < 10 {
        seq![(48 + n) as u8]
    } else {
        dec(n / 10) + seq![(48 + n % 10) as u8]
    }
}

/// The decimal form of `n`, with `-` where it is negative.
pub open spec fn signed_dec(n: int) -> Seq<u8> {
    if n < 0 {
        seq![45u8] + dec((-n) as nat)
    } else {
        dec(n as nat)
    }
}

/// A prefix byte, a length and CR LF.
pub open spec fn len_line(prefix: u8, n: nat) -> Seq<u8> {
    seq![prefix] + dec(n) + crlf()
}

/// A prefix byte, then `data` and CR LF.
pub open spec fn text_line(prefix: u8, data: Seq<u8>) -> Seq<u8> {
    seq![prefix] + data + crlf()
}

/// A prefix byte, the length of `data`, CR LF, `data` and CR LF.
pub open spec fn blob(prefix: u8, data: Seq<u8>) -> Seq<u8> {
    len_line(prefix, data.len()) + data + crlf()
}

pub open spec fn format_bytes(f: VerbatimStringFormat) -> Seq<u8> {
    match f {
        VerbatimStringFormat::Text => seq![116u8, 120u8, 116u8],
        VerbatimStringFormat::Markdown => seq![109u8, 107u8, 100u8],
    }
}

pub open spec fn version_digit(v: RespVersion) -> u8 {
    match v {
        RespVersion::RESP2 => 50u8,
        RespVersion::RESP3 => 51u8,
    }
}

/// The line of a handshake: `HELLO <version>[ AUTH <user> <pass>]`.
pub open spec fn hello_bytes(version: RespVersion, auth: Option<(Seq<u8>, Seq<u8>)>) -> Seq<u8> {
    seq![72u8, 69u8, 76u8, 76u8, 79u8, 32u8, version_digit(version)] + match auth {
        Some((u, w)) => seq![32u8, 65u8, 85u8, 84u8, 72u8, 32u8] + u + seq![32u8] + w,
        None => seq![],
    } + crlf()
}

/// The attribute block that precedes a frame, if any.
pub open spec fn enc_attrs(a: Option<Seq<(SFrame, SFrame)>>) -> Seq<u8>
    decreases a, 0int,
{
    match a {
        Some(m) => len_line(124u8, m.len()) + enc_pairs(m),
        None => seq![],
    }
}

/// Frames one after the other.
pub open spec fn enc_seq(v: Seq<SFrame>) -> Seq<u8>
    decreases v, 0int,
{
    if v.len() == 0 {
        seq![]
    } else {
        enc_frame(v[0]) + enc_seq(v.skip(1))
    }
}

/// Key-value pairs one after the other, each key before its value.
pub open spec fn enc_pairs(v: Seq<(SFrame, SFrame)>) -> Seq<u8>
    decreases v, 0int,
{
    if v.len() == 0 {
        seq![]
    } else {
        enc_frame(v[0].0) + enc_frame(v[0].1) + enc_pairs(v.skip(1))
    }
}

/// The attribute block that precedes a frame, if it has one.
pub open spec fn enc_attrs_of(f: SFrame) -> Seq<u8>
    decreases f, 1int,
{
    match f {
        SFrame::BlobString { attrs, .. } => enc_attrs(attrs),
        SFrame::BlobError { attrs, .. } => enc_attrs(attrs),
        SFrame::SimpleString { attrs, .. } => enc_attrs(attrs),
        SFrame::SimpleError { attrs, .. } => enc_attrs(attrs),
        SFrame::Boolean { attrs, .. } => enc_attrs(attrs),
        SFrame::Number { attrs, .. } => enc_attrs(attrs),
        SFrame::Double { attrs, .. } => enc_attrs(attrs),
        SFrame::BigNumber { attrs, .. } => enc_attrs(attrs),
        SFrame::VerbatimString { attrs, .. } => enc_attrs(attrs),
        SFrame::Array { attrs, .. } => enc_attrs(attrs),
        SFrame::Dict { attrs, .. } => enc_attrs(attrs),
        SFrame::Distinct { attrs, .. } => enc_attrs(attrs),
        SFrame::Push { attrs, .. } => enc_attrs(attrs),
        _ => seq![],
    }
}

/// The wire form of a frame without its attribute block.
pub open spec fn enc_body(f: SFrame) -> Seq<u8>
    decreases f, 1int,
{
    match f {
        SFrame::BlobString { data, .. } => blob(36u8, data),
        SFrame::BlobError { data, .. } => blob(33u8, data),
        SFrame::SimpleString { data, .. } => text_line(43u8, data),
        SFrame::SimpleError { data, .. } => text_line(45u8, data),
        SFrame::Boolean { data, .. } => text_line(35u8, if data { seq![116u8] } else { seq![102u8] }),
        SFrame::Null => text_line(95u8, seq![]),
        SFrame::Number { data, .. } => text_line(58u8, signed_dec(data as int)),
        SFrame::Double { data, .. } => text_line(44u8, data),
        SFrame::BigNumber { data, .. } => text_line(40u8, data),
        SFrame::VerbatimString { data, format, .. } => len_line(61u8, data.len() + 4) + format_bytes(format) + seq![58u8]
            + data + crlf(),
        SFrame::Array { data, .. } => len_line(42u8, data.len()) + enc_seq(data),
        SFrame::Dict { data, .. } => len_line(37u8, data.len()) + enc_pairs(data),
        SFrame::Distinct { data, .. } => len_line(126u8, data.len()) + enc_seq(data),
        SFrame::Push { data, .. } => len_line(62u8, data.len()) + enc_seq(data),
        SFrame::Hello { version, auth } => hello_bytes(version, auth),
        SFrame::ChunkedString { data } => if data.len() == 0 {
            len_line(59u8, 0)
        } else {
            blob(59u8, data)
        },
    }
}

/// The wire form of a frame: its attribute block, then the frame itself.
pub open spec fn enc_frame(f: SFrame) -> Seq<u8>
    decreases f, 2int,
{
    enc_attrs_of(f) + enc_body(f)
}

/// The number of bytes of the wire form of a frame.
pub open spec fn encoded_len(f: SFrame) -> nat {
    enc_frame(f).len()
}

proof fn lemma_enc_seq_push(x: Seq<SFrame>, y: SFrame)
    ensures
        enc_seq(x.push(y)) == enc_seq(x) + enc_frame(y),
    decreases x.len(),
{
    if x.len() == 0 {
        assert(x.push(y).skip(1) =~= Seq::<SFrame>::empty());
        assert(x.push(y)[0] == y);
        assert(enc_seq(x.push(y)) == enc_frame(y) + enc_seq(x.push(y).skip(1)));
        assert(enc_seq(x.push(y)) =~= enc_seq(x) + enc_frame(y));
    } else {
        assert(x.push(y).skip(1) =~= x.skip(1).push(y));
        lemma_enc_seq_push(x.skip(1), y);
        assert(x.push(y)[0] == x[0]);
        assert(enc_seq(x.push(y)) == enc_frame(x[0]) + enc_seq(x.skip(1).push(y)));
        assert(enc_seq(x) == enc_frame(x[0]) + enc_seq(x.skip(1)));
        assert(enc_seq(x.push(y)) =~= enc_seq(x) + enc_frame(y));
    }
}

proof fn lemma_enc_pairs_push(x: Seq<(SFrame, SFrame)>, y: (SFrame, SFrame))
    ensures
        enc_pairs(x.push(y)) == enc_pairs(x) + enc_frame(y.0) + enc_frame(y.1),
    decreases x.len(),
{
    if x.len() == 0 {
        assert(x.push(y).skip(1) =~= Seq::<(SFrame, SFrame)>::empty());
        assert(x.push(y)[0] == y);
        assert(enc_pairs(x.push(y)) == enc_frame(y.0) + enc_frame(y.1) + enc_pairs(x.push(y).skip(1)));
        assert(enc_pairs(x.push(y)) =~= enc_pairs(x) + enc_frame(y.0) + enc_frame(y.1));
    } else {
        assert(x.push(y).skip(1) =~= x.skip(1).push(y));
        lemma_enc_pairs_push(x.skip(1), y);
        assert(x.push(y)[0] == x[0]);
        assert(enc_pairs(x.push(y)) == enc_frame(x[0].0) + enc_frame(x[0].1) + enc_pairs(x.skip(1).push(y)));
        assert(enc_pairs(x) == enc_frame(x[0].0) + enc_frame(x[0].1) + enc_pairs(x.skip(1)));
        assert(enc_pairs(x.push(y)) =~= enc_pairs(x) + enc_frame(y.0) + enc_frame(y.1));
    }
}

proof fn lemma_enc_seq_append(x: Seq<SFrame>, y: Seq<SFrame>)
    ensures
        enc_seq(x + y) == enc_seq(x) + enc_seq(y),
    decreases y.len(),
{
    if y.len() == 0 {
        assert(x + y =~= x);
        assert(enc_seq(x) + enc_seq(y) =~= enc_seq(x));
    } else {
        let y0 = y.drop_last();
        assert(x + y =~= (x + y0).push(y.last()));
        assert(y =~= y0.push(y.last()));
        lemma_enc_seq_append(x, y0);
        lemma_enc_seq_push(x + y0, y.last());
        lemma_enc_seq_push(y0, y.last());
        assert(enc_seq(x + y) =~= enc_seq(x) + enc_seq(y));
    }
}

proof fn lemma_enc_pairs_append(x: Seq<(SFrame, SFrame)>, y: Seq<(SFrame, SFrame)>)
    ensures
        enc_pairs(x + y) == enc_pairs(x) + enc_pairs(y),
    decreases y.len(),
{
    if y.len() == 0 {
        assert(x + y =~= x);
        assert(enc_pairs(x) + enc_pairs(y) =~= enc_pairs(x));
    } else {
        let y0 = y.drop_last();
        assert(x + y =~= (x + y0).push(y.last()));
        assert(y =~= y0.push(y.last()));
        lemma_enc_pairs_append(x, y0);
        lemma_enc_pairs_push(x + y0, y.last());
        lemma_enc_pairs_push(y0, y.last());
        assert(enc_pairs(x + y) =~= enc_pairs(x) + enc_pairs(y));
    }
}

pub(crate) proof fn lemma_dec_len(n: nat)
    ensures
        dec(n).len() == digit_count(n),
    decreases n,
{
    if n >= 10 {
        lemma_dec_len(n / 10);
    }
}

pub(crate) proof fn lemma_assoc(a: Seq<u8>, b: Seq<u8>, c: Seq<u8>)
    ensures
        a + (b + c) == (a + b) + c,
{
    assert(a + (b + c) =~= (a + b) + c);
}

// ------------------------------------------------------------------ writing

/// Appends the decimal digits of `n`.
pub(crate) fn write_decimal(buf: &mut Vec<u8>, n: u128)
    ensures
        final(buf)@ == old(buf)@ + dec(n as nat),
    decreases n,
{
    if n >= 10 {
        write_decimal(buf, n / 10);
    }
    buf.push(48u8 + (n % 10) as u8);
    proof {
        assert(final(buf)@ =~= old(buf)@ + dec(n as nat));
    }
}

/// Appends the bytes of `data`.
pub(crate) fn write_bytes(buf: &mut Vec<u8>, data: &[u8])
    ensures
        final(buf)@ == old(buf)@ + data@,
{
    let mut i: usize = 0;
    while i < data.len()
        invariant
            i <= data@.len(),
            buf@ == old(buf)@ + data@.take(i as int),
        decreases data@.len() - i,
    {
        buf.push(data[i]);
        proof {
            assert(buf@ =~= old(buf)@ + data@.take(i + 1));
        }
        i = i + 1;
    }
    proof {
        assert(data@.take(i as int) =~= data@);
    }
}

pub(crate) fn write_crlf(buf: &mut Vec<u8>)
    ensures
        final(buf)@ == old(buf)@ + crlf(),
{
    buf.push(13u8);
    buf.push(10u8);
    proof {
        assert(final(buf)@ =~= old(buf)@ + crlf());
    }
}

/// Appends a prefix byte, a length and CR LF.
pub(crate) fn write_len_line(buf: &mut Vec<u8>, prefix: u8, n: u128)
    ensures
        final(buf)@ == old(buf)@ + len_line(prefix, n as nat),
{
    buf.push(prefix);
    write_decimal(buf, n);
    write_crlf(buf);
    proof {
        assert(final(buf)@ =~= old(buf)@ + len_line(prefix, n as nat));
    }
}

/// Appends a prefix byte, `data` and CR LF.
pub(crate) fn write_text_line(buf: &mut Vec<u8>, prefix: u8, data: &[u8])
    ensures
        final(buf)@ == old(buf)@ + text_line(prefix, data@),
{
    buf.push(prefix);
    write_bytes(buf, data);
    write_crlf(buf);
    proof {
        assert(final(buf)@ =~= old(buf)@ + text_line(prefix, data@));
    }
}

/// Appends a prefix byte, the length of `data`, CR LF, `data` and CR LF.
pub(crate) fn write_blob(buf: &mut Vec<u8>, prefix: u8, data: &[u8])
    ensures
        final(buf)@ == old(buf)@ + blob(prefix, data@),
{
    write_len_line(buf, prefix, data.len() as u128);
    write_bytes(buf, data);
    write_crlf(buf);
    proof {
        assert(final(buf)@ =~= old(buf)@ + blob(prefix, data@));
    }
}

fn encode_attributes(buf: &mut Vec<u8>, a: &Option<Attributes>)
    ensures
        final(buf)@ == old(buf)@ + enc_attrs(attrs_view(*a)),
    decreases *a, 0int,
{
    match a {
        Some(m) => {
            write_len_line(buf, 124u8, m.len() as u128);
            encode_pairs(buf, m);
            proof {
                assert(pairs_view(m@).len() == m@.len());
                assert(final(buf)@ =~= old(buf)@ + enc_attrs(attrs_view(*a)));
            }
        },
        None => {
            proof {
                assert(final(buf)@ =~= old(buf)@ + enc_attrs(attrs_view(*a)));
            }
        },
    }
}

fn encode_frames(buf: &mut Vec<u8>, v: &Vec<Frame>)
    ensures
        final(buf)@ == old(buf)@ + enc_seq(frames_view(v@)),
    decreases *v, 0int,
{
    let ghost fv = frames_view(v@);
    let mut i: usize = 0;
    proof {
        assert(fv.take(0) =~= Seq::<SFrame>::empty());
        assert(buf@ =~= old(buf)@ + enc_seq(fv.take(0)));
    }
    while i < v.len()
        invariant
            i <= v@.len(),
            fv == frames_view(v@),
            buf@ == old(buf)@ + enc_seq(fv.take(i as int)),
        decreases v@.len() - i,
    {
        encode_frame(buf, &v[i]);
        proof {
            assert(fv.take(i + 1) =~= fv.take(i as int).push(frame_view(v@[i as int])));
            lemma_enc_seq_push(fv.take(i as int), frame_view(v@[i as int]));
            assert(buf@ =~= old(buf)@ + enc_seq(fv.take(i + 1)));
        }
        i = i + 1;
    }
    proof {
        assert(fv.take(i as int) =~= fv);
    }
}

fn encode_pairs(buf: &mut Vec<u8>, v: &FrameMap)
    ensures
        final(buf)@ == old(buf)@ + enc_pairs(pairs_view(v@)),
    decreases *v, 0int,
{
    let ghost pv = pairs_view(v@);
    let mut i: usize = 0;
    proof {
        assert(pv.take(0) =~= Seq::<(SFrame, SFrame)>::empty());
        assert(buf@ =~= old(buf)@ + enc_pairs(pv.take(0)));
    }
    while i < v.len()
        invariant
            i <= v@.len(),
            pv == pairs_view(v@),
            buf@ == old(buf)@ + enc_pairs(pv.take(i as int)),
        decreases v@.len() - i,
    {
        let pair = &v[i];
        encode_frame(buf, &pair.0);
        encode_frame(buf, &pair.1);
        proof {
            let y = (frame_view(v@[i as int].0), frame_view(v@[i as int].1));
            assert(pv.take(i + 1) =~= pv.take(i as int).push(y));
            lemma_enc_pairs_push(pv.take(i as int), y);
            assert(buf@ =~= old(buf)@ + enc_pairs(pv.take(i + 1)));
        }
        i = i + 1;
    }
    proof {
        assert(pv.take(i as int) =~= pv);
    }
}

fn format_tag(f: VerbatimStringFormat) -> (r: [u8; 3])
    ensures
        r@ == format_bytes(f),
{
    let r = match f {
        VerbatimStringFormat::Text => [116u8, 120u8, 116u8],
        VerbatimStringFormat::Markdown => [109u8, 107u8, 100u8],
    };
    proof {
        assert(r@ =~= format_bytes(f));
    }
    r
}

fn encode_hello(buf: &mut Vec<u8>, version: RespVersion, auth: &Option<Auth>)
    ensures
        final(buf)@ == old(buf)@ + hello_bytes(
            version,
            match *auth {
                Some(a) => Some((a.username@, a.password@)),
                None => None,
            },
        ),
{
    let head: [u8; 6] = [72u8, 69u8, 76u8, 76u8, 79u8, 32u8];
    write_bytes(buf, vstd::array::array_as_slice(&head));
    buf.push(
        match version {
            RespVersion::RESP2 => 50u8,
            RespVersion::RESP3 => 51u8,
        },
    );
    match auth {
        Some(a) => {
            let kw: [u8; 6] = [32u8, 65u8, 85u8, 84u8, 72u8, 32u8];
            write_bytes(buf, vstd::array::array_as_slice(&kw));
            write_bytes(buf, a.username.as_slice());
            buf.push(32u8);
            write_bytes(buf, a.password.as_slice());
        },
        None => {},
    }
    write_crlf(buf);
    proof {
        assert(head@ =~= seq![72u8, 69u8, 76u8, 76u8, 79u8, 32u8]);
        assert(final(buf)@ =~= old(buf)@ + hello_bytes(
            version,
            match *auth {
                Some(a) => Some((a.username@, a.password@)),
                None => None,
            },
        ));
    }
}

/// Appends a length line and the frames of an aggregate.
fn write_aggregate(buf: &mut Vec<u8>, prefix: u8, data: &Vec<Frame>)
    ensures
        final(buf)@ == old(buf)@ + len_line(prefix, data@.len()) + enc_seq(frames_view(data@)),
    decreases *data, 1int,
{
    write_len_line(buf, prefix, data.len() as u128);
    encode_frames(buf, data);
    proof {
        assert(final(buf)@ =~= old(buf)@ + len_line(prefix, data@.len()) + enc_seq(frames_view(data@)));
    }
}

/// Appends a length line and the pairs of a map.
fn write_map(buf: &mut Vec<u8>, data: &FrameMap)
    ensures
        final(buf)@ == old(buf)@ + len_line(37u8, data@.len()) + enc_pairs(pairs_view(data@)),
    decreases *data, 1int,
{
    write_len_line(buf, 37u8, data.len() as u128);
    encode_pairs(buf, data);
    proof {
        assert(final(buf)@ =~= old(buf)@ + len_line(37u8, data@.len()) + enc_pairs(pairs_view(data@)));
    }
}

pub(crate) fn write_number(buf: &mut Vec<u8>, data: i64)
    ensures
        final(buf)@ == old(buf)@ + text_line(58u8, signed_dec(data as int)),
{
    buf.push(58u8);
    if data < 0 {
        buf.push(45u8);
        write_decimal(buf, (0i128 - data as i128) as u128);
    } else {
        write_decimal(buf, data as u128);
    }
    write_crlf(buf);
    proof {
        assert(final(buf)@ =~= old(buf)@ + text_line(58u8, signed_dec(data as int)));
    }
}

fn write_boolean(buf: &mut Vec<u8>, data: bool)
    ensures
        final(buf)@ == old(buf)@ + text_line(35u8, if data { seq![116u8] } else { seq![102u8] }),
{
    buf.push(35u8);
    buf.push(if data { 116u8 } else { 102u8 });
    write_crlf(buf);
    proof {
        assert(final(buf)@ =~= old(buf)@ + text_line(35u8, if data { seq![116u8] } else { seq![102u8] }));
    }
}

fn write_verbatim(buf: &mut Vec<u8>, data: &[u8], format: VerbatimStringFormat)
    ensures
        final(buf)@ == old(buf)@ + (len_line(61u8, data@.len() + 4) + format_bytes(format) + seq![58u8] + data@
            + crlf()),
{
    write_len_line(buf, 61u8, data.len() as u128 + 4);
    let tag = format_tag(format);
    write_bytes(buf, vstd::array::array_as_slice(&tag));
    buf.push(58u8);
    write_bytes(buf, data);
    write_crlf(buf);
    proof {
        assert(final(buf)@ =~= old(buf)@ + (len_line(61u8, data@.len() + 4) + format_bytes(format) + seq![58u8]
            + data@ + crlf()));
    }
}

fn write_chunk(buf: &mut Vec<u8>, data: &[u8])
    ensures
        final(buf)@ == old(buf)@ + (if data@.len() == 0 {
            len_line(59u8, 0)
        } else {
            blob(59u8, data@)
        }),
{
    if data.len() == 0 {
        write_len_line(buf, 59u8, 0);
    } else {
        write_blob(buf, 59u8, data);
    }
}

/// Appends the body of a frame that is not an aggregate.
fn encode_scalar_body(buf: &mut Vec<u8>, frame: &Frame)
    requires
        !(frame is Array || frame is Dict || frame is Distinct || frame is Push),
    ensures
        final(buf)@ == old(buf)@ + enc_body(frame@),
{
    match frame {
        Frame::BlobString { data, .. } => write_blob(buf, 36u8, data.as_slice()),
        Frame::BlobError { data, .. } => write_blob(buf, 33u8, data.as_slice()),
        Frame::SimpleString { data, .. } => write_text_line(buf, 43u8, data.as_slice()),
        Frame::SimpleError { data, .. } => write_text_line(buf, 45u8, data.as_slice()),
        Frame::Boolean { data, .. } => write_boolean(buf, *data),
        Frame::Null => {
            buf.push(95u8);
            write_crlf(buf);
            proof {
                assert(final(buf)@ =~= old(buf)@ + text_line(95u8, seq![]));
            }
        },
        Frame::Number { data, .. } => write_number(buf, *data),
        Frame::Double { data, .. } => write_text_line(buf, 44u8, data.as_slice()),
        Frame::BigNumber { data, .. } => write_text_line(buf, 40u8, data.as_slice()),
        Frame::VerbatimString { data, format, .. } => write_verbatim(buf, data.as_slice(), *format),
        Frame::Hello { version, auth } => encode_hello(buf, *version, auth),
        Frame::ChunkedString(data) => write_chunk(buf, data.as_slice()),
        _ => {},
    }
}

/// Appends the attribute block of a frame, if it has one.
fn encode_attributes_of(buf: &mut Vec<u8>, frame: &Frame)
    ensures
        final(buf)@ == old(buf)@ + enc_attrs_of(frame@),
    decreases *frame, 1int,
{
    match frame {
        Frame::BlobString { attributes, .. } | Frame::BlobError { attributes, .. } | Frame::SimpleString {
            attributes,
            ..
        } | Frame::SimpleError { attributes, .. } | Frame::Boolean { attributes, .. } | Frame::Number {
            attributes,
            ..
        } | Frame::Double { attributes, .. } | Frame::BigNumber { attributes, .. } | Frame::VerbatimString {
            attributes,
            ..
        } | Frame::Array { attributes, .. } | Frame::Dict { attributes, .. } | Frame::Distinct { attributes, .. }
        | Frame::Push { attributes, .. } => encode_attributes(buf, attributes),
        _ => {
            proof {
                assert(final(buf)@ =~= old(buf)@ + enc_attrs_of(frame@));
            }
        },
    }
}

/// Appends the wire form of `frame`.
fn encode_frame(buf: &mut Vec<u8>, frame: &Frame)
    ensures
        final(buf)@ == old(buf)@ + enc_frame(frame@),
    decreases *frame, 2int,
{
    let ghost start = buf@;
    encode_attributes_of(buf, frame);
    let ghost mid = buf@;
    match frame {
        Frame::Array { data, .. } => write_aggregate(buf, 42u8, data),
        Frame::Dict { data, .. } => write_map(buf, data),
        Frame::Distinct { data, .. } => write_aggregate(buf, 126u8, data),
        Frame::Push { data, .. } => write_aggregate(buf, 62u8, data),
        _ => encode_scalar_body(buf, frame),
    }
    proof {
        assert(buf@ == mid + enc_body(frame@));
        lemma_assoc(start, enc_attrs_of(frame@), enc_body(frame@));
    }
}

/// Appends the wire form of `frame` to `buf` and returns the number of
/// bytes written.
pub fn encode(buf: &mut Vec<u8>, frame: &Frame) -> (r: usize)
    ensures
        final(buf)@ == old(buf)@ + enc_frame(frame@),
        r == encoded_len(frame@),
{
    let start = buf.len();
    encode_frame(buf, frame);
    let end = buf.len();
    end - start
}

// ----------------------------------------------------------------- lengths

/// `a + b`, where it fits in `usize`.
pub(crate) fn plus(a: usize, b: usize) -> (r: Option<usize>)
    ensures
        r is Some <==> a + b <= usize::MAX,
        r is Some ==> r.unwrap() == a + b,
{
    if a > usize::MAX - b {
        None
    } else {
        Some(a + b)
    }
}

/// The length of a length line.
pub(crate) fn len_line_len(n: usize) -> (r: usize)
    ensures
        forall|p: u8| #[trigger] len_line(p, n as nat).len() == r,
        r <= 23,
{
    proof {
        lemma_dec_len(n as nat);
    }
    digits_in_number(n as u64) + 3
}

fn frames_len(v: &Vec<Frame>) -> (r: Option<usize>)
    ensures
        r is Some ==> r.unwrap() == enc_seq(frames_view(v@)).len(),
        r is None ==> enc_seq(frames_view(v@)).len() > usize::MAX,
    decreases *v, 0int,
{
    let ghost fv = frames_view(v@);
    let mut acc: usize = 0;
    let mut i: usize = 0;
    proof {
        assert(fv.take(0) =~= Seq::<SFrame>::empty());
    }
    while i < v.len()
        invariant
            i <= v@.len(),
            fv == frames_view(v@),
            acc == enc_seq(fv.take(i as int)).len(),
        decreases v@.len() - i,
    {
        proof {
            assert(fv.take(i + 1) =~= fv.take(i as int).push(frame_view(v@[i as int])));
            lemma_enc_seq_push(fv.take(i as int), frame_view(v@[i as int]));
            assert(fv =~= fv.take(i + 1) + fv.skip(i + 1));
            lemma_enc_seq_append(fv.take(i + 1), fv.skip(i + 1));
        }
        let n = match frame_len(&v[i]) {
            Some(n) => n,
            None => return None,
        };
        acc = match plus(acc, n) {
            Some(t) => t,
            None => return None,
        };
        i = i + 1;
    }
    proof {
        assert(fv.take(i as int) =~= fv);
    }
    Some(acc)
}

fn pairs_len(v: &FrameMap) -> (r: Option<usize>)
    ensures
        r is Some ==> r.unwrap() == enc_pairs(pairs_view(v@)).len(),
        r is None ==> enc_pairs(pairs_view(v@)).len() > usize::MAX,
    decreases *v, 0int,
{
    let ghost pv = pairs_view(v@);
    let mut acc: usize = 0;
    let mut i: usize = 0;
    proof {
        assert(pv.take(0) =~= Seq::<(SFrame, SFrame)>::empty());
    }
    while i < v.len()
        invariant
            i <= v@.len(),
            pv == pairs_view(v@),
            acc == enc_pairs(pv.take(i as int)).len(),
        decreases v@.len() - i,
    {
        let pair = &v[i];
        proof {
            let y = (frame_view(v@[i as int].0), frame_view(v@[i as int].1));
            assert(pv.take(i + 1) =~= pv.take(i as int).push(y));
            lemma_enc_pairs_push(pv.take(i as int), y);
            assert(pv =~= pv.take(i + 1) + pv.skip(i + 1));
            lemma_enc_pairs_append(pv.take(i + 1), pv.skip(i + 1));
        }
        let k = match frame_len(&pair.0) {
            Some(n) => n,
            None => return None,
        };
        let x = match frame_len(&pair.1) {
            Some(n) => n,
            None => return None,
        };
        let kx = match plus(k, x) {
            Some(t) => t,
            None => return None,
        };
        acc = match plus(acc, kx) {
            Some(t) => t,
            None => return None,
        };
        i = i + 1;
    }
    proof {
        assert(pv.take(i as int) =~= pv);
    }
    Some(acc)
}

fn attributes_len(a: &Option<Attributes>) -> (r: Option<usize>)
    ensures
        r is Some ==> r.unwrap() == enc_attrs(attrs_view(*a)).len(),
        r is None ==> enc_attrs(attrs_view(*a)).len() > usize::MAX,
    decreases *a, 0int,
{
    match a {
        Some(m) => {
            let head = len_line_len(m.len());
            match pairs_len(m) {
                Some(n) => plus(head, n),
                None => None,
            }
        },
        None => Some(0),
    }
}

fn attributes_len_of(frame: &Frame) -> (r: Option<usize>)
    ensures
        r is Some ==> r.unwrap() == enc_attrs_of(frame@).len(),
        r is None ==> enc_attrs_of(frame@).len() > usize::MAX,
    decreases *frame, 1int,
{
    match frame {
        Frame::BlobString { attributes, .. } | Frame::BlobError { attributes, .. } | Frame::SimpleString {
            attributes,
            ..
        } | Frame::SimpleError { attributes, .. } | Frame::Boolean { attributes, .. } | Frame::Number {
            attributes,
            ..
        } | Frame::Double { attributes, .. } | Frame::BigNumber { attributes, .. } | Frame::VerbatimString {
            attributes,
            ..
        } | Frame::Array { attributes, .. } | Frame::Dict { attributes, .. } | Frame::Distinct { attributes, .. }
        | Frame::Push { attributes, .. } => attributes_len(attributes),
        _ => Some(0),
    }
}

fn body_len(frame: &Frame) -> (r: Option<usize>)
    ensures
        r is Some ==> r.unwrap() == enc_body(frame@).len(),
        r is None ==> enc_body(frame@).len() > usize::MAX,
    decreases *frame, 1int,
{
    match frame {
        Frame::BlobString { data, .. } | Frame::BlobError { data, .. } => match plus(len_line_len(data.len()), data.len()) {
            Some(n) => plus(n, 2),
            None => None,
        },
        Frame::SimpleString { data, .. } | Frame::SimpleError { data, .. } | Frame::Double { data, .. }
        | Frame::BigNumber { data, .. } => plus(data.len(), 3),
        Frame::Boolean { .. } => Some(4),
        Frame::Null => Some(3),
        Frame::Number { data, .. } => {
            let mag: u64 = if *data < 0 {
                (0i128 - *data as i128) as u64
            } else {
                *data as u64
            };
            proof {
                lemma_dec_len(mag as nat);
            }
            let sign: usize = if *data < 0 { 1 } else { 0 };
            Some(digits_in_number(mag) + sign + 3)
        },
        Frame::VerbatimString { data, .. } => {
            if data.len() > usize::MAX - 4 {
                return None;
            }
            let head = len_line_len(data.len() + 4);
            match plus(head + 4, data.len()) {
                Some(n) => plus(n, 2),
                None => None,
            }
        },
        Frame::Array { data, .. } | Frame::Distinct { data, .. } | Frame::Push { data, .. } => match frames_len(data) {
            Some(n) => plus(len_line_len(data.len()), n),
            None => None,
        },
        Frame::Dict { data, .. } => match pairs_len(data) {
            Some(n) => plus(len_line_len(data.len()), n),
            None => None,
        },
        Frame::Hello { auth, .. } => match auth {
            Some(a) => match plus(a.username.len(), a.password.len()) {
                Some(n) => plus(n, 16),
                None => None,
            },
            None => Some(9),
        },
        Frame::ChunkedString(data) => {
            if data.len() == 0 {
                Some(4)
            } else {
                match plus(len_line_len(data.len()), data.len()) {
                    Some(n) => plus(n, 2),
                    None => None,
                }
            }
        },
    }
}

fn frame_len(frame: &Frame) -> (r: Option<usize>)
    ensures
        r is Some ==> r.unwrap() == encoded_len(frame@),
        r is None ==> encoded_len(frame@) > usize::MAX,
    decreases *frame, 2int,
{
    let a = match attributes_len_of(frame) {
        Some(a) => a,
        None => return None,
    };
    match body_len(frame) {
        Some(b) => plus(a, b),
        None => None,
    }
}

/// The number of bytes that `encode` writes for `frame`; an error where
/// that number does not fit in `usize`.
pub fn encode_len(frame: &Frame) -> (r: Result<usize, RedisProtocolError>)
    ensures
        encoded_len(frame@) <= usize::MAX ==> r == Ok::<usize, RedisProtocolError>(encoded_len(frame@) as usize),
        encoded_len(frame@) > usize::MAX ==> r is Err && r->Err_0.kind == RedisProtocolErrorKind::EncodeError,
{
    match frame_len(frame) {
        Some(n) => Ok(n),
        None => Err(RedisProtocolError::new(RedisProtocolErrorKind::EncodeError, "encode_len")),
    }
}

// ---------------------------------------------------------------- streaming

/// Whether a frame of this kind can be sent as a stream.
pub open spec fn streamable(kind: FrameKind) -> bool {
    kind == FrameKind::Array || kind == FrameKind::Distinct || kind == FrameKind::Dict || kind
        == FrameKind::BlobString
}

/// The header that opens a stream of `kind`: its prefix byte, `?` and CR LF.
pub open spec fn stream_header(kind: FrameKind) -> Seq<u8> {
    seq![kind_byte(kind), 63u8, 13u8, 10u8]
}

/// The marker that closes a stream of `kind`: an empty chunk for a blob
/// string, `.` and CR LF for an aggregate.
pub open spec fn stream_end(kind: FrameKind) -> Seq<u8> {
    if kind == FrameKind::BlobString {
        len_line(59u8, 0)
    } else {
        seq![46u8, 13u8, 10u8]
    }
}

/// Appends the header that opens a stream of `kind`; kinds that cannot be
/// streamed are an error and leave `buf` as it was.
pub fn encode_start_stream(buf: &mut Vec<u8>, kind: FrameKind) -> (r: Result<usize, RedisProtocolError>)
    ensures
        streamable(kind) ==> r == Ok::<usize, RedisProtocolError>(4) && final(buf)@ == old(buf)@ + stream_header(kind),
        !streamable(kind) ==> r is Err && r->Err_0.kind == RedisProtocolErrorKind::EncodeError && final(buf)@ == old(
            buf,
        )@,
{
    match kind {
        FrameKind::Array | FrameKind::Distinct | FrameKind::Dict | FrameKind::BlobString => {
            buf.push(kind.to_byte());
            buf.push(63u8);
            write_crlf(buf);
            proof {
                assert(final(buf)@ =~= old(buf)@ + stream_header(kind));
            }
            Ok(4)
        },
        _ => Err(RedisProtocolError::new(RedisProtocolErrorKind::EncodeError, "encode_start_stream")),
    }
}

/// Appends one chunk of a streamed blob string; an empty chunk would end
/// the stream, so it is an error and leaves `buf` as it was.
pub fn encode_stream_chunk(buf: &mut Vec<u8>, data: &[u8]) -> (r: Result<usize, RedisProtocolError>)
    ensures
        data@.len() > 0 ==> r is Ok && final(buf)@ == old(buf)@ + blob(59u8, data@) && r.unwrap() == blob(
            59u8,
            data@,
        ).len(),
        data@.len() == 0 ==> r is Err && r->Err_0.kind == RedisProtocolErrorKind::EncodeError && final(buf)@ == old(
            buf,
        )@,
{
    if data.len() == 0 {
        return Err(RedisProtocolError::new(RedisProtocolErrorKind::EncodeError, "encode_stream_chunk"));
    }
    let start = buf.len();
    write_blob(buf, 59u8, data);
    let end = buf.len();
    Ok(end - start)
}

/// Appends the marker that closes a stream of `kind`; kinds that cannot be
/// streamed are an error and leave `buf` as it was.
pub fn encode_end_stream(buf: &mut Vec<u8>, kind: FrameKind) -> (r: Result<usize, RedisProtocolError>)
    ensures
        streamable(kind) ==> r is Ok && final(buf)@ == old(buf)@ + stream_end(kind) && r.unwrap() == stream_end(
            kind,
        ).len(),
        !streamable(kind) ==> r is Err && r->Err_0.kind == RedisProtocolErrorKind::EncodeError && final(buf)@ == old(
            buf,
        )@,
{
    match kind {
        FrameKind::BlobString => {
            write_len_line(buf, 59u8, 0);
            Ok(4)
        },
        FrameKind::Array | FrameKind::Distinct | FrameKind::Dict => {
            buf.push(46u8);
            write_crlf(buf);
            proof {
                assert(final(buf)@ =~= old(buf)@ + stream_end(kind));
            }
            Ok(3)
        },
        _ => Err(RedisProtocolError::new(RedisProtocolErrorKind::EncodeError, "encode_end_stream")),
    }
}

} // verus!
