//! The RESP2 protocol: its frames, decoding and encoding.
use crate::resp3::decode::{
    agrees, check_utf8, d_parse_payload, d_read_to_crlf, fail, i64_text, line, line_bytes, payload, to_i64,
    utf8_valid, Outcome,
};
use crate::resp3::encode::{
    blob, crlf, lemma_assoc, lemma_dec_len, len_line, len_line_len, plus, signed_dec, text_line, write_blob, write_bytes,
    write_len_line, write_number, write_text_line,
};
use crate::resp3::laws::{
    holds_at, lemma_aggregate_head, lemma_blob_body, lemma_holds_split, lemma_signed_dec, lemma_text_body, no_crlf,
};
use crate::utils::digits_in_number;
use crate::types::{RedisProtocolError, RedisProtocolErrorKind};
use vstd::prelude::*;
use vstd::slice::slice_subrange;

verus! {

broadcast use vstd::std_specs::vec::group_vec_axioms;

/// A RESP2 frame. Simple strings and errors hold UTF-8 bytes.
#[derive(Debug, PartialEq, Eq, Hash)]
pub enum Frame {
    SimpleString(Vec<u8>),
    Error(Vec<u8>),
    Integer(i64),
    BulkString(Vec<u8>),
    Array(Vec<Frame>),
    /// A null bulk string or array.
    Null,
}

/// The mathematical model of a RESP2 frame.
pub enum S2Frame {
    SimpleString(Seq<u8>),
    Error(Seq<u8>),
    Integer(i64),
    BulkString(Seq<u8>),
    Array(Seq<S2Frame>),
    Null,
}

/// The model of a sequence of frames.
pub open spec fn frames2_view(v: Seq<Frame>) -> Seq<S2Frame>
    decreases v,
{
    Seq::new(v.len(), |i: int| if 0 <= i < v.len() { frame2_view(v[i]) } else { S2Frame::Null })
}

/// The model of a frame.
pub open spec fn frame2_view(f: Frame) -> S2Frame
    decreases f,
{
    match f {
        Frame::SimpleString(d) => S2Frame::SimpleString(d@),
        Frame::Error(d) => S2Frame::Error(d@),
        Frame::Integer(n) => S2Frame::Integer(n),
        Frame::BulkString(d) => S2Frame::BulkString(d@),
        Frame::Array(v) => S2Frame::Array(frames2_view(v@)),
        Frame::Null => S2Frame::Null,
    }
}

impl View for Frame {
    type V = S2Frame;

    open spec fn view(&self) -> S2Frame {
        frame2_view(*self)
    }
}

/// The length of a bulk string or an array: -1 for null, else a count.
pub open spec fn len2_text(t: Seq<u8>) -> Option<int> {
    match i64_text(t) {
        Some(n) => if n == -1 || (0 <= n <= usize::MAX) {
            Some(n)
        } else {
            None
        },
        None => None,
    }
}

/// A RESP2 frame at `p`: `+` text, `-` text, `:` integer, `$` length and
/// bytes (`$-1` for null), `*` count and frames (`*-1` for null).
pub open spec fn parse2(s: Seq<u8>, p: int) -> Outcome<S2Frame>
    decreases s.len() - p, 1int,
{
    if p < 0 || p >= s.len() {
        Outcome::Incomplete
    } else {
        let b = s[p];
        match line(s, p + 1) {
            Outcome::Done(t, e) => if b == 43u8 || b == 45u8 {
                if utf8_valid(t) {
                    Outcome::Done(if b == 43u8 { S2Frame::SimpleString(t) } else { S2Frame::Error(t) }, e)
                } else {
                    Outcome::Fail
                }
            } else if b == 58u8 {
                match i64_text(t) {
                    Some(n) => Outcome::Done(S2Frame::Integer(n as i64), e),
                    None => Outcome::Fail,
                }
            } else if b == 36u8 || b == 42u8 {
                match len2_text(t) {
                    Some(n) => if n == -1 {
                        Outcome::Done(S2Frame::Null, e)
                    } else if b == 36u8 {
                        match payload(s, e as int, n) {
                            Outcome::Done(d, e2) => Outcome::Done(S2Frame::BulkString(d), e2),
                            Outcome::Incomplete => Outcome::Incomplete,
                            Outcome::Fail => Outcome::Fail,
                        }
                    } else if e <= p || e > s.len() {
                        Outcome::Fail
                    } else {
                        match parse2_many(s, e as int, n as nat) {
                            Outcome::Done(v, e2) => Outcome::Done(S2Frame::Array(v), e2),
                            Outcome::Incomplete => Outcome::Incomplete,
                            Outcome::Fail => Outcome::Fail,
                        }
                    },
                    None => Outcome::Fail,
                }
            } else {
                Outcome::Fail
            },
            Outcome::Incomplete => if b == 43u8 || b == 45u8 || b == 58u8 || b == 36u8 || b == 42u8 {
                Outcome::Incomplete
            } else {
                Outcome::Fail
            },
            Outcome::Fail => Outcome::Fail,
        }
    }
}

/// `n` frames in a row.
pub open spec fn parse2_many(s: Seq<u8>, p: int, n: nat) -> Outcome<Seq<S2Frame>>
    decreases s.len() - p, 2int, n,
{
    if n == 0 {
        Outcome::Done(seq![], p as nat)
    } else if p < 0 || p > s.len() {
        Outcome::Fail
    } else {
        match parse2(s, p) {
            Outcome::Done(f, e) => if e <= p || e > s.len() {
                Outcome::Fail
            } else {
                match parse2_many(s, e as int, (n - 1) as nat) {
                    Outcome::Done(rest, e2) => Outcome::Done(seq![f] + rest, e2),
                    Outcome::Incomplete => Outcome::Incomplete,
                    Outcome::Fail => Outcome::Fail,
                }
            },
            Outcome::Incomplete => Outcome::Incomplete,
            Outcome::Fail => Outcome::Fail,
        }
    }
}

/// `pre` put before the value of an outcome.
pub open spec fn prepend2(pre: Seq<S2Frame>, o: Outcome<Seq<S2Frame>>) -> Outcome<Seq<S2Frame>> {
    match o {
        Outcome::Done(v, e) => Outcome::Done(pre + v, e),
        Outcome::Incomplete => Outcome::Incomplete,
        Outcome::Fail => Outcome::Fail,
    }
}

proof fn lemma_prepend2_assoc(x: Seq<S2Frame>, y: Seq<S2Frame>, o: Outcome<Seq<S2Frame>>)
    ensures
        prepend2(x, prepend2(y, o)) == prepend2(x + y, o),
{
    if let Outcome::Done(v, e) = o {
        assert(x + (y + v) =~= (x + y) + v);
    }
}

/// The length of a bulk string or an array.
fn to_len2(t: &[u8]) -> (r: Result<i64, RedisProtocolError>)
    ensures
        match len2_text(t@) {
            Some(n) => r == Ok::<i64, RedisProtocolError>(n as i64),
            None => r is Err && r->Err_0.kind == RedisProtocolErrorKind::DecodeError,
        },
        r is Ok ==> len2_text(t@) == Some(r.unwrap() as int),
{
    match to_i64(t) {
        Ok(n) => if n == -1 || (n >= 0 && (n as u64) <= (usize::MAX as u64)) {
            Ok(n)
        } else {
            fail("to_len")
        },
        Err(x) => Err(x),
    }
}

fn d_parse2_many(buf: &[u8], p: usize, n: usize) -> (r: Result<Option<(Vec<Frame>, usize)>, RedisProtocolError>)
    requires
        p <= buf@.len(),
    ensures
        agrees(r, parse2_many(buf@, p as int, n as nat), |v: Vec<Frame>| frames2_view(v@)),
        match r {
            Ok(Some((_, e))) => p <= e <= buf@.len(),
            _ => true,
        },
    decreases buf@.len() - p, 2int, n,
{
    let ghost s = buf@;
    let mut out: Vec<Frame> = Vec::new();
    let mut pos: usize = p;
    let mut i: usize = 0;
    proof {
        assert(frames2_view(out@) =~= Seq::<S2Frame>::empty());
        assert(seq![] + parse2_many(s, p as int, n as nat)->Done_0 =~= parse2_many(s, p as int, n as nat)->Done_0);
    }
    while i < n
        invariant
            s == buf@,
            p <= pos <= buf@.len(),
            i <= n,
            prepend2(frames2_view(out@), parse2_many(s, pos as int, (n - i) as nat)) == parse2_many(s, p as int, n as nat),
        decreases n - i,
    {
        match d_parse2(buf, pos) {
            Ok(Some((f, e))) => {
                proof {
                    lemma_prepend2_assoc(frames2_view(out@), seq![frame2_view(f)], parse2_many(s, e as int, (n - i - 1) as nat));
                    assert(frames2_view(out@.push(f)) =~= frames2_view(out@) + seq![frame2_view(f)]);
                }
                out.push(f);
                pos = e;
            },
            Ok(None) => return Ok(None),
            Err(x) => return Err(x),
        }
        i = i + 1;
    }
    proof {
        assert(frames2_view(out@) + seq![] =~= frames2_view(out@));
    }
    Ok(Some((out, pos)))
}

fn d_parse2(buf: &[u8], p: usize) -> (r: Result<Option<(Frame, usize)>, RedisProtocolError>)
    requires
        p <= buf@.len(),
    ensures
        agrees(r, parse2(buf@, p as int), |f: Frame| f@),
        match r {
            Ok(Some((_, e))) => p < e <= buf@.len(),
            _ => true,
        },
    decreases buf@.len() - p, 1int, 0int,
{
    if p >= buf.len() {
        return Ok(None);
    }
    let b = buf[p];
    let known = b == 43u8 || b == 45u8 || b == 58u8 || b == 36u8 || b == 42u8;
    if !known {
        return fail("frame_type");
    }
    let (i, e) = match d_read_to_crlf(buf, p + 1) {
        Some(x) => x,
        None => return Ok(None),
    };
    let t = slice_subrange(buf, p + 1, i);
    if b == 43u8 || b == 45u8 {
        if !check_utf8(t) {
            return fail("parse_string");
        }
        let data = line_bytes(buf, p + 1, i);
        if b == 43u8 {
            Ok(Some((Frame::SimpleString(data), e)))
        } else {
            Ok(Some((Frame::Error(data), e)))
        }
    } else if b == 58u8 {
        match to_i64(t) {
            Ok(n) => Ok(Some((Frame::Integer(n), e))),
            Err(x) => Err(x),
        }
    } else {
        let n = match to_len2(t) {
            Ok(n) => n,
            Err(x) => return Err(x),
        };
        if n == -1 {
            return Ok(Some((Frame::Null, e)));
        }
        if b == 36u8 {
            match d_parse_payload(buf, e, n as usize) {
                Ok(Some((data, e2))) => Ok(Some((Frame::BulkString(data), e2))),
                Ok(None) => Ok(None),
                Err(x) => Err(x),
            }
        } else {
            match d_parse2_many(buf, e, n as usize) {
                Ok(Some((v, e2))) => Ok(Some((Frame::Array(v), e2))),
                Ok(None) => Ok(None),
                Err(x) => Err(x),
            }
        }
    }
}

/// Decodes the first RESP2 frame of `buf` and says how many bytes it took.
///
/// `Ok(None)` means that `buf` holds only the start of a frame.
pub fn decode(buf: &[u8]) -> (r: Result<Option<(Frame, usize)>, RedisProtocolError>)
    ensures
        agrees(r, parse2(buf@, 0), |f: Frame| f@),
{
    d_parse2(buf, 0)
}

// ----------------------------------------------------------------- encoding

/// `$-1` and CR LF, the wire form of null.
pub open spec fn null2() -> Seq<u8> {
    seq![36u8, 45u8, 49u8, 13u8, 10u8]
}

/// Frames one after the other.
pub open spec fn enc2_seq(v: Seq<S2Frame>) -> Seq<u8>
    decreases v, 0int,
{
    if v.len() == 0 {
        seq![]
    } else {
        enc2(v[0]) + enc2_seq(v.skip(1))
    }
}

/// The wire form of a RESP2 frame.
pub open spec fn enc2(f: S2Frame) -> Seq<u8>
    decreases f, 1int,
{
    match f {
        S2Frame::SimpleString(t) => text_line(43u8, t),
        S2Frame::Error(t) => text_line(45u8, t),
        S2Frame::Integer(n) => text_line(58u8, signed_dec(n as int)),
        S2Frame::BulkString(d) => blob(36u8, d),
        S2Frame::Array(v) => len_line(42u8, v.len()) + enc2_seq(v),
        S2Frame::Null => null2(),
    }
}

proof fn lemma_enc2_seq_push(x: Seq<S2Frame>, y: S2Frame)
    ensures
        enc2_seq(x.push(y)) == enc2_seq(x) + enc2(y),
    decreases x.len(),
{
    assert(x.push(y)[0] == if x.len() == 0 { y } else { x[0] });
    if x.len() == 0 {
        assert(x.push(y).skip(1) =~= Seq::<S2Frame>::empty());
        assert(enc2_seq(x.push(y)) == enc2(y) + enc2_seq(x.push(y).skip(1)));
        assert(enc2_seq(x.push(y)) =~= enc2_seq(x) + enc2(y));
    } else {
        assert(x.push(y).skip(1) =~= x.skip(1).push(y));
        lemma_enc2_seq_push(x.skip(1), y);
        assert(enc2_seq(x.push(y)) == enc2(x[0]) + enc2_seq(x.skip(1).push(y)));
        assert(enc2_seq(x) == enc2(x[0]) + enc2_seq(x.skip(1)));
        assert(enc2_seq(x.push(y)) =~= enc2_seq(x) + enc2(y));
    }
}

proof fn lemma_enc2_seq_append(x: Seq<S2Frame>, y: Seq<S2Frame>)
    ensures
        enc2_seq(x + y) == enc2_seq(x) + enc2_seq(y),
    decreases y.len(),
{
    if y.len() == 0 {
        assert(x + y =~= x);
        assert(enc2_seq(x) + enc2_seq(y) =~= enc2_seq(x));
    } else {
        let y0 = y.drop_last();
        assert(x + y =~= (x + y0).push(y.last()));
        assert(y =~= y0.push(y.last()));
        lemma_enc2_seq_append(x, y0);
        lemma_enc2_seq_push(x + y0, y.last());
        lemma_enc2_seq_push(y0, y.last());
        assert(enc2_seq(x + y) =~= enc2_seq(x) + enc2_seq(y));
    }
}

fn encode2_frames(buf: &mut Vec<u8>, v: &Vec<Frame>)
    ensures
        final(buf)@ == old(buf)@ + enc2_seq(frames2_view(v@)),
    decreases *v, 0int,
{
    let ghost fv = frames2_view(v@);
    let mut i: usize = 0;
    proof {
        assert(fv.take(0) =~= Seq::<S2Frame>::empty());
        assert(buf@ =~= old(buf)@ + enc2_seq(fv.take(0)));
    }
    while i < v.len()
        invariant
            i <= v@.len(),
            fv == frames2_view(v@),
            buf@ == old(buf)@ + enc2_seq(fv.take(i as int)),
        decreases v@.len() - i,
    {
        encode2_frame(buf, &v[i]);
        proof {
            assert(fv.take(i + 1) =~= fv.take(i as int).push(frame2_view(v@[i as int])));
            lemma_enc2_seq_push(fv.take(i as int), frame2_view(v@[i as int]));
            assert(buf@ =~= old(buf)@ + enc2_seq(fv.take(i + 1)));
        }
        i = i + 1;
    }
    proof {
        assert(fv.take(i as int) =~= fv);
    }
}

fn encode2_frame(buf: &mut Vec<u8>, frame: &Frame)
    ensures
        final(buf)@ == old(buf)@ + enc2(frame@),
    decreases *frame, 1int,
{
    match frame {
        Frame::SimpleString(t) => write_text_line(buf, 43u8, t.as_slice()),
        Frame::Error(t) => write_text_line(buf, 45u8, t.as_slice()),
        Frame::Integer(n) => write_number(buf, *n),
        Frame::BulkString(d) => write_blob(buf, 36u8, d.as_slice()),
        Frame::Array(v) => {
            let ghost start = buf@;
            write_len_line(buf, 42u8, v.len() as u128);
            encode2_frames(buf, v);
            proof {
                lemma_assoc(start, len_line(42u8, v@.len()), enc2_seq(frames2_view(v@)));
            }
        },
        Frame::Null => {
            let n: [u8; 5] = [36u8, 45u8, 49u8, 13u8, 10u8];
            write_bytes(buf, vstd::array::array_as_slice(&n));
            proof {
                assert(n@ =~= null2());
            }
        },
    }
}

/// Appends the wire form of `frame` to `buf` and returns the number of
/// bytes written.
pub fn encode(buf: &mut Vec<u8>, frame: &Frame) -> (r: usize)
    ensures
        final(buf)@ == old(buf)@ + enc2(frame@),
        r == enc2(frame@).len(),
{
    let start = buf.len();
    encode2_frame(buf, frame);
    let end = buf.len();
    end - start
}

fn frames2_len(v: &Vec<Frame>) -> (r: Option<usize>)
    ensures
        r is Some ==> r.unwrap() == enc2_seq(frames2_view(v@)).len(),
        r is None ==> enc2_seq(frames2_view(v@)).len() > usize::MAX,
    decreases *v, 0int,
{
    let ghost fv = frames2_view(v@);
    let mut acc: usize = 0;
    let mut i: usize = 0;
    proof {
        assert(fv.take(0) =~= Seq::<S2Frame>::empty());
    }
    while i < v.len()
        invariant
            i <= v@.len(),
            fv == frames2_view(v@),
            acc == enc2_seq(fv.take(i as int)).len(),
        decreases v@.len() - i,
    {
        proof {
            assert(fv.take(i + 1) =~= fv.take(i as int).push(frame2_view(v@[i as int])));
            lemma_enc2_seq_push(fv.take(i as int), frame2_view(v@[i as int]));
            assert(fv =~= fv.take(i + 1) + fv.skip(i + 1));
            lemma_enc2_seq_append(fv.take(i + 1), fv.skip(i + 1));
        }
        let n = match frame2_len(&v[i]) {
            Some(n) => n,
            None => return None,
        };
        acc = match plus(acc, n) {
            Some(t) => t,
            None => return None,
        };
        i = i + 1;
    }
    proof {
        assert(fv.take(i as int) =~= fv);
    }
    Some(acc)
}

fn frame2_len(frame: &Frame) -> (r: Option<usize>)
    ensures
        r is Some ==> r.unwrap() == enc2(frame@).len(),
        r is None ==> enc2(frame@).len() > usize::MAX,
    decreases *frame, 1int,
{
    match frame {
        Frame::SimpleString(t) | Frame::Error(t) => plus(t.len(), 3),
        Frame::Integer(n) => {
            let mag: u64 = if *n < 0 {
                (0i128 - *n as i128) as u64
            } else {
                *n as u64
            };
            proof {
                lemma_dec_len(mag as nat);
            }
            let sign: usize = if *n < 0 { 1 } else { 0 };
            Some(digits_in_number(mag) + sign + 3)
        },
        Frame::BulkString(d) => match plus(len_line_len(d.len()), d.len()) {
            Some(n) => plus(n, 2),
            None => None,
        },
        Frame::Array(v) => match frames2_len(v) {
            Some(n) => plus(len_line_len(v.len()), n),
            None => None,
        },
        Frame::Null => Some(5),
    }
}

/// The number of bytes that `encode` writes for `frame`; an error where
/// that number does not fit in `usize`.
pub fn encode_len(frame: &Frame) -> (r: Result<usize, RedisProtocolError>)
    ensures
        enc2(frame@).len() <= usize::MAX ==> r == Ok::<usize, RedisProtocolError>(enc2(frame@).len() as usize),
        enc2(frame@).len() > usize::MAX ==> r is Err && r->Err_0.kind == RedisProtocolErrorKind::EncodeError,
{
    match frame2_len(frame) {
        Some(n) => Ok(n),
        None => Err(RedisProtocolError::new(RedisProtocolErrorKind::EncodeError, "encode_len")),
    }
}

// -------------------------------------------------------------- round trip

/// The frames that the decoder can produce: text without CR LF that is
/// UTF-8, and lengths that fit the length prefixes.
pub open spec fn decodable2(f: S2Frame) -> bool
    decreases f,
{
    match f {
        S2Frame::SimpleString(t) => utf8_valid(t) && no_crlf(t),
        S2Frame::Error(t) => utf8_valid(t) && no_crlf(t),
        S2Frame::Integer(_) => true,
        S2Frame::BulkString(d) => d.len() <= usize::MAX && d.len() <= i64::MAX,
        S2Frame::Array(v) => v.len() <= usize::MAX && v.len() <= i64::MAX && forall|i: int|
            0 <= i < v.len() ==> decodable2(#[trigger] v[i]),
        S2Frame::Null => true,
    }
}

proof fn lemma2_frame(s: Seq<u8>, p: int, f: S2Frame)
    requires
        decodable2(f),
        holds_at(s, p, enc2(f)),
    ensures
        parse2(s, p) == Outcome::Done(f, (p + enc2(f).len()) as nat),
        enc2(f).len() >= 3,
    decreases f, 1int,
{
    match f {
        S2Frame::SimpleString(t) => lemma_text_body(s, p, 43u8, t),
        S2Frame::Error(t) => lemma_text_body(s, p, 45u8, t),
        S2Frame::Integer(n) => {
            lemma_signed_dec(n as int, i64::MIN as int, i64::MAX as int);
            lemma_text_body(s, p, 58u8, signed_dec(n as int));
        },
        S2Frame::BulkString(d) => {
            lemma_blob_body(s, p, 36u8, d);
            lemma_signed_dec(d.len() as int, i64::MIN as int, i64::MAX as int);
        },
        S2Frame::Array(v) => {
            lemma_aggregate_head(s, p, 42u8, v.len(), enc2_seq(v));
            lemma_signed_dec(v.len() as int, i64::MIN as int, i64::MAX as int);
            lemma2_many(s, p + len_line(42u8, v.len()).len(), v);
        },
        S2Frame::Null => {
            lemma_signed_dec(-1, i64::MIN as int, i64::MAX as int);
            assert(signed_dec(-1) =~= seq![45u8, 49u8]);
            assert(null2() =~= seq![36u8] + seq![45u8, 49u8] + crlf());
            lemma_text_body(s, p, 36u8, seq![45u8, 49u8]);
        },
    }
}

proof fn lemma2_many(s: Seq<u8>, p: int, v: Seq<S2Frame>)
    requires
        forall|i: int| 0 <= i < v.len() ==> decodable2(#[trigger] v[i]),
        holds_at(s, p, enc2_seq(v)),
    ensures
        parse2_many(s, p, v.len()) == Outcome::Done(v, (p + enc2_seq(v).len()) as nat),
    decreases v, 0int,
{
    if v.len() > 0 {
        assert(enc2_seq(v) == enc2(v[0]) + enc2_seq(v.skip(1)));
        lemma_holds_split(s, p, enc2(v[0]), enc2_seq(v.skip(1)));
        lemma2_frame(s, p, v[0]);
        assert forall|i: int| 0 <= i < v.skip(1).len() implies decodable2(#[trigger] v.skip(1)[i]) by {
            assert(v.skip(1)[i] == v[i + 1]);
        }
        lemma2_many(s, p + enc2(v[0]).len(), v.skip(1));
        assert(v.skip(1).len() == (v.len() - 1) as nat);
        assert(seq![v[0]] + v.skip(1) =~= v);
    } else {
        assert(v =~= Seq::<S2Frame>::empty());
    }
}

/// Decoding the wire form of a decodable RESP2 frame, followed by any
/// bytes, gives the frame back and takes exactly the bytes that `encode`
/// writes.
pub proof fn decode_of_encode2(f: S2Frame, rest: Seq<u8>)
    requires
        decodable2(f),
    ensures
        parse2(enc2(f) + rest, 0) == Outcome::Done(f, enc2(f).len()),
{
    let s = enc2(f) + rest;
    assert(s.subrange(0, enc2(f).len() as int) =~= enc2(f));
    lemma2_frame(s, 0, f);
}

} // verus!
