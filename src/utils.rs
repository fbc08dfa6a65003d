//! Helpers shared by the codec: the cluster keyslot of a key, the digit
//! count of a number, and conversions between RESP2 and RESP3 frames.
use crate::resp2::{frame2_view, frames2_view, Frame as Frame2, S2Frame};
use crate::resp3::types::{frame_view, frames_view, Frame, SFrame};
use crate::types::{RedisProtocolError, RedisProtocolErrorKind};
use vstd::prelude::*;

verus! {

/// The number of bytes in a kilobyte.
pub const KB: usize = 1024;

/// A kilobyte of zero bytes, for callers that need padding.
pub fn zeroed_kb() -> (r: Vec<u8>)
    ensures
        r@.len() == KB,
        forall|i: int| 0 <= i < KB ==> r@[i] == 0,
{
    vec![0u8; KB]
}

/// The number of hash slots of a cluster.
pub const REDIS_CLUSTER_SLOTS: u16 = 16384;

/// The CRC16/XMODEM checksum of a byte string.
pub uninterp spec fn crc16_xmodem(b: Seq<u8>) -> u16;

/// Relies on `crc16::State::<crc16::XMODEM>::calculate`: the CRC16/XMODEM
/// checksum of the bytes, which depends on the bytes alone.
#[verifier::external_body]
fn crc16_xmodem_of(b: &[u8]) -> (r: u16)
    ensures
        r == crc16_xmodem(b@),
{
    crc16::State::<crc16::XMODEM>::calculate(b)
}

/// The first position at or after `i` that holds `b`.
pub open spec fn byte_from(s: Seq<u8>, i: int, b: u8) -> Option<int>
    decreases s.len() - i,
{
    if i < 0 || i >= s.len() {
        None
    } else if s[i] == b {
        Some(i)
    } else {
        byte_from(s, i + 1, b)
    }
}

/// The bounds of the hash tag of a key: the bytes strictly between the
/// first `{` and the next `}`, where there is at least one; the whole key
/// otherwise.
pub open spec fn hash_tag_bounds(k: Seq<u8>) -> (int, int) {
    match byte_from(k, 0, 123u8) {
        Some(i) => match byte_from(k, i + 1, 125u8) {
            Some(j) => if j > i + 1 {
                (i + 1, j)
            } else {
                (0, k.len() as int)
            },
            None => (0, k.len() as int),
        },
        None => (0, k.len() as int),
    }
}

/// The bytes of a key that decide its slot.
pub open spec fn hash_tag(k: Seq<u8>) -> Seq<u8> {
    k.subrange(hash_tag_bounds(k).0, hash_tag_bounds(k).1)
}

/// The slot of a key: the low 14 bits of the checksum of its hash tag.
pub open spec fn keyslot(k: Seq<u8>) -> u16 {
    (crc16_xmodem(hash_tag(k)) % REDIS_CLUSTER_SLOTS) as u16
}

proof fn lemma_byte_from(s: Seq<u8>, i: int, b: u8)
    requires
        0 <= i,
    ensures
        byte_from(s, i, b) matches Some(j) ==> i <= j < s.len() && s[j] == b && forall|m: int| i <= m < j ==> s[m] != b,
        byte_from(s, i, b) is None ==> forall|m: int| i <= m < s.len() ==> s[m] != b,
    decreases s.len() - i,
{
    if i < s.len() && s[i] != b {
        lemma_byte_from(s, i + 1, b);
    }
}

proof fn lemma_byte_from_at(s: Seq<u8>, i: int, j: int, b: u8)
    requires
        0 <= i <= j < s.len(),
        s[j] == b,
        forall|m: int| i <= m < j ==> s[m] != b,
    ensures
        byte_from(s, i, b) == Some(j),
    decreases j - i,
{
    if i < j {
        lemma_byte_from_at(s, i + 1, j, b);
    }
}

proof fn lemma_byte_from_none(s: Seq<u8>, i: int, b: u8)
    requires
        0 <= i,
        forall|m: int| i <= m < s.len() ==> s[m] != b,
    ensures
        byte_from(s, i, b) is None,
    decreases s.len() - i,
{
    if i < s.len() {
        lemma_byte_from_none(s, i + 1, b);
    }
}

/// The first position at or after `i` that holds `b`.
fn find_byte(s: &[u8], i: usize, b: u8) -> (r: Option<usize>)
    ensures
        r is Some ==> byte_from(s@, i as int, b) == Some(r.unwrap() as int) && i <= r.unwrap() < s@.len(),
        r is None ==> byte_from(s@, i as int, b) is None,
{
    let mut j: usize = i;
    while j < s.len()
        invariant
            i <= j,
            byte_from(s@, i as int, b) == byte_from(s@, j as int, b),
        decreases s@.len() - j,
    {
        if s[j] == b {
            return Some(j);
        }
        j = j + 1;
    }
    None
}

/// The bounds of the hash tag of `key`: the bytes strictly between the
/// first `{` and the next `}` where there is at least one, the whole key
/// otherwise.
pub fn hash_tag_range(key: &[u8]) -> (r: (usize, usize))
    ensures
        r.0 as int == hash_tag_bounds(key@).0,
        r.1 as int == hash_tag_bounds(key@).1,
        r.0 <= r.1 <= key@.len(),
{
    proof {
        lemma_byte_from(key@, 0, 123u8);
    }
    let _len = key.len();
    match find_byte(key, 0, 123u8) {
        Some(i) => {
            proof {
                lemma_byte_from(key@, i + 1, 125u8);
            }
            match find_byte(key, i + 1, 125u8) {
                Some(j) => if j > i + 1 {
                    (i + 1, j)
                } else {
                    (0, key.len())
                },
                None => (0, key.len()),
            }
        },
        None => (0, key.len()),
    }
}

/// The slot that a checksum falls in: its low 14 bits.
pub fn slot_of_checksum(crc: u16) -> (r: u16)
    ensures
        r == crc % REDIS_CLUSTER_SLOTS,
        r < REDIS_CLUSTER_SLOTS,
{
    crc % REDIS_CLUSTER_SLOTS
}

/// The cluster slot of a key: CRC16/XMODEM over its hash tag, low 14 bits.
pub fn redis_keyslot(key: &[u8]) -> (r: u16)
    ensures
        r == keyslot(key@),
        r < REDIS_CLUSTER_SLOTS,
{
    let (a, b) = hash_tag_range(key);
    let tag = vstd::slice::slice_subrange(key, a, b);
    slot_of_checksum(crc16_xmodem_of(tag))
}

/// Every key falls in one of the cluster's slots.
pub proof fn keyslot_in_range(k: Seq<u8>)
    ensures
        0 <= keyslot(k) < REDIS_CLUSTER_SLOTS,
{
}

/// A key made of `{`, a non-empty tag without `}`, `}` and any suffix falls
/// in the slot of the tag itself.
pub proof fn keyslot_of_tagged_key(t: Seq<u8>, suffix: Seq<u8>)
    requires
        t.len() > 0,
        forall|m: int| 0 <= m < t.len() ==> t[m] != 125u8,
    ensures
        keyslot(seq![123u8] + t + seq![125u8] + suffix) == keyslot(t),
{
    let k = seq![123u8] + t + seq![125u8] + suffix;
    let n = t.len() as int;
    assert(k[0] == 123u8);
    lemma_byte_from_at(k, 0, 0, 123u8);
    assert forall|m: int| 1 <= m < n + 1 implies k[m] != 125u8 by {
        assert(k[m] == t[m - 1]);
    }
    assert(k[n + 1] == 125u8);
    lemma_byte_from_at(k, 1, n + 1, 125u8);
    assert(hash_tag(k) =~= t);
    lemma_byte_from(t, 0, 123u8);
    if let Some(i) = byte_from(t, 0, 123u8) {
        lemma_byte_from_none(t, i + 1, 125u8);
    }
    assert(hash_tag(t) =~= t);
}

/// The number of decimal digits of `n`, counting a zero as one digit.
pub open spec fn digit_count(n: nat) -> nat
    decreases n,
{
    if n < 10 {
        1
    } else {
        1 + digit_count(n / 10)
    }
}

pub open spec fn pow10(k: nat) -> nat
    decreases k,
{
    if k == 0 {
        1
    } else {
        10 * pow10((k - 1) as nat)
    }
}

proof fn lemma_digit_count_bound(n: nat, k: nat)
    requires
        k >= 1,
        n < pow10(k),
    ensures
        1 <= digit_count(n) <= k,
    decreases k,
{
    if n >= 10 {
        assert(k >= 2) by {
            if k == 1 {
                reveal_with_fuel(pow10, 2);
            }
        }
        lemma_digit_count_bound(n / 10, (k - 1) as nat);
    }
}

/// The number of decimal digits of `n`.
pub fn digits_in_number(n: u64) -> (r: usize)
    ensures
        r == digit_count(n as nat),
        1 <= r <= 20,
{
    proof {
        reveal_with_fuel(pow10, 21);
        lemma_digit_count_bound(n as nat, 20);
    }
    let mut m: u64 = n;
    let mut count: usize = 1;
    while m >= 10
        invariant
            1 <= count,
            count + digit_count(m as nat) == digit_count(n as nat) + 1,
            digit_count(n as nat) <= 20,
        decreases m,
    {
        m = m / 10;
        count = count + 1;
    }
    count
}

// -------------------------------------------------------------- conversions

/// The RESP3 frame that stands for a RESP2 frame, without attributes.
pub open spec fn resp2_to_resp3(f: S2Frame) -> SFrame
    decreases f,
{
    match f {
        S2Frame::SimpleString(t) => SFrame::SimpleString { data: t, attrs: None },
        S2Frame::Error(t) => SFrame::SimpleError { data: t, attrs: None },
        S2Frame::Integer(n) => SFrame::Number { data: n, attrs: None },
        S2Frame::BulkString(d) => SFrame::BlobString { data: d, attrs: None },
        S2Frame::Array(v) => SFrame::Array {
            data: Seq::new(v.len(), |i: int| if 0 <= i < v.len() { resp2_to_resp3(v[i]) } else { SFrame::Null }),
            attrs: None,
        },
        S2Frame::Null => SFrame::Null,
    }
}

/// The RESP2 frames that stand for RESP3 frames, if each has one.
pub open spec fn resp3_seq_to_resp2(v: Seq<SFrame>) -> Option<Seq<S2Frame>>
    decreases v, 0int,
{
    if v.len() == 0 {
        Some(seq![])
    } else {
        match (resp3_to_resp2(v[0]), resp3_seq_to_resp2(v.skip(1))) {
            (Some(f), Some(rest)) => Some(seq![f] + rest),
            _ => None,
        }
    }
}

/// The RESP2 frame that stands for a RESP3 frame; `None` for the kinds that
/// RESP2 cannot carry (maps, sets, pushes, verbatim strings, big numbers,
/// handshakes, chunks). Attributes are dropped.
pub open spec fn resp3_to_resp2(f: SFrame) -> Option<S2Frame>
    decreases f, 1int,
{
    match f {
        SFrame::SimpleString { data, .. } => Some(S2Frame::SimpleString(data)),
        SFrame::SimpleError { data, .. } => Some(S2Frame::Error(data)),
        SFrame::BlobError { data, .. } => Some(S2Frame::Error(data)),
        SFrame::Number { data, .. } => Some(S2Frame::Integer(data)),
        SFrame::BlobString { data, .. } => Some(S2Frame::BulkString(data)),
        SFrame::Double { data, .. } => Some(S2Frame::BulkString(data)),
        SFrame::Boolean { data, .. } => Some(S2Frame::Integer(if data { 1 } else { 0 })),
        SFrame::Null => Some(S2Frame::Null),
        SFrame::Array { data, .. } => match resp3_seq_to_resp2(data) {
            Some(v) => Some(S2Frame::Array(v)),
            None => None,
        },
        _ => None,
    }
}

fn resp2_frames_to_resp3(frames: Vec<Frame2>) -> (r: Vec<Frame>)
    ensures
        frames_view(r@) == Seq::new(frames@.len(), |i: int| resp2_to_resp3(frames2_view(frames@)[i])),
    decreases frames, 0int,
{
    let ghost orig = frames;
    let ghost n = frames@.len();
    let mut v = frames;
    let mut rev: Vec<Frame> = Vec::new();
    while v.len() > 0
        invariant
            orig == frames,
            n == orig@.len(),
            v@.len() <= n,
            v@ == orig@.take(v@.len() as int),
            rev@.len() + v@.len() == n,
            forall|j: int|
                0 <= j < rev@.len() ==> frame_view(#[trigger] rev@[j]) == resp2_to_resp3(frame2_view(orig@[n - 1 - j])),
        decreases v@.len(),
    {
        let ghost k = v@.len() - 1;
        let x = v.pop().unwrap();
        proof {
            assert(x == orig@[k]);
            assert(decreases_to!(orig => orig@[k]));
            assert(decreases_to!(orig => x));
            assert(v@ =~= orig@.take(v@.len() as int));
        }
        let y = resp2_frame_to_resp3(x);
        rev.push(y);
    }
    let ghost rev0 = rev@;
    let mut out: Vec<Frame> = Vec::new();
    while rev.len() > 0
        invariant
            rev0.len() == n,
            out@.len() + rev@.len() == n,
            rev@ == rev0.take(rev@.len() as int),
            forall|j: int| 0 <= j < n ==> frame_view(#[trigger] rev0[j]) == resp2_to_resp3(frame2_view(orig@[n - 1 - j])),
            forall|j: int| 0 <= j < out@.len() ==> frame_view(#[trigger] out@[j]) == resp2_to_resp3(frame2_view(orig@[j])),
        decreases rev@.len(),
    {
        let ghost m = rev@.len();
        let x = rev.pop().unwrap();
        proof {
            assert(x == rev0[m - 1]);
            assert(rev@ =~= rev0.take(rev@.len() as int));
        }
        out.push(x);
    }
    proof {
        assert(frames_view(out@) =~= Seq::new(n, |i: int| resp2_to_resp3(frames2_view(orig@)[i])));
    }
    out
}

/// The RESP3 frame that stands for a RESP2 frame: simple strings and
/// errors, integers as numbers, bulk strings as blob strings, arrays
/// element by element, null as null; no attributes.
pub fn resp2_frame_to_resp3(frame: Frame2) -> (r: Frame)
    ensures
        r@ == resp2_to_resp3(frame@),
    decreases frame, 1int,
{
    match frame {
        Frame2::SimpleString(data) => Frame::SimpleString { data, attributes: None },
        Frame2::Error(data) => Frame::SimpleError { data, attributes: None },
        Frame2::Integer(data) => Frame::Number { data, attributes: None },
        Frame2::BulkString(data) => Frame::BlobString { data, attributes: None },
        Frame2::Array(v) => {
            let ghost vv = frames2_view(v@);
            let data = resp2_frames_to_resp3(v);
            proof {
                if let SFrame::Array { data: d, .. } = resp2_to_resp3(S2Frame::Array(vv)) {
                    assert(frames_view(data@) =~= d);
                }
            }
            Frame::Array { data, attributes: None }
        },
        Frame2::Null => Frame::Null,
    }
}

/// Each frame's RESP2 form, where all have one.
pub open spec fn resp2_forms(v: Seq<SFrame>) -> Seq<S2Frame> {
    Seq::new(v.len(), |i: int| resp3_to_resp2(v[i])->Some_0)
}

proof fn lemma_resp3_seq_to_resp2(v: Seq<SFrame>)
    ensures
        (forall|i: int| 0 <= i < v.len() ==> #[trigger] resp3_to_resp2(v[i]) is Some) ==> resp3_seq_to_resp2(v)
            == Some(resp2_forms(v)),
        (exists|i: int| 0 <= i < v.len() && #[trigger] resp3_to_resp2(v[i]) is None) ==> resp3_seq_to_resp2(v) is None,
    decreases v.len(),
{
    if v.len() > 0 {
        let t = v.skip(1);
        lemma_resp3_seq_to_resp2(t);
        assert forall|i: int| 0 <= i < t.len() implies t[i] == v[i + 1] by {}
        if forall|i: int| 0 <= i < v.len() ==> #[trigger] resp3_to_resp2(v[i]) is Some {
            assert forall|i: int| 0 <= i < t.len() implies #[trigger] resp3_to_resp2(t[i]) is Some by {
                assert(resp3_to_resp2(v[i + 1]) is Some);
            }
            assert(seq![resp3_to_resp2(v[0])->Some_0] + resp2_forms(t) =~= resp2_forms(v));
        }
        if exists|i: int| 0 <= i < v.len() && #[trigger] resp3_to_resp2(v[i]) is None {
            let i = choose|i: int| 0 <= i < v.len() && #[trigger] resp3_to_resp2(v[i]) is None;
            if i > 0 {
                assert(resp3_to_resp2(t[i - 1]) is None);
            }
        }
    }
}

fn resp3_frames_to_resp2(frames: Vec<Frame>) -> (r: Result<Vec<Frame2>, RedisProtocolError>)
    ensures
        match resp3_seq_to_resp2(frames_view(frames@)) {
            Some(g) => r is Ok && frames2_view(r.unwrap()@) == g,
            None => r is Err && r->Err_0.kind == RedisProtocolErrorKind::EncodeError,
        },
    decreases frames, 0int,
{
    let ghost orig = frames;
    let ghost n = frames@.len();
    let ghost fv = frames_view(frames@);
    proof {
        lemma_resp3_seq_to_resp2(fv);
    }
    let mut v = frames;
    let mut rev: Vec<Frame2> = Vec::new();
    while v.len() > 0
        invariant
            orig == frames,
            fv == frames_view(orig@),
            n == orig@.len(),
            v@.len() <= n,
            v@ == orig@.take(v@.len() as int),
            rev@.len() + v@.len() == n,
            forall|j: int|
                0 <= j < rev@.len() ==> resp3_to_resp2(fv[n - 1 - j]) == Some(frame2_view(#[trigger] rev@[j])),
        decreases v@.len(),
    {
        let ghost k = v@.len() - 1;
        let x = v.pop().unwrap();
        proof {
            assert(x == orig@[k]);
            assert(decreases_to!(orig => orig@[k]));
            assert(decreases_to!(orig => x));
            assert(v@ =~= orig@.take(v@.len() as int));
            assert(fv[k] == frame_view(x));
        }
        match resp3_frame_to_resp2(x) {
            Ok(y) => rev.push(y),
            Err(e) => {
                proof {
                    assert(resp3_to_resp2(fv[k]) is None);
                    lemma_resp3_seq_to_resp2(fv);
                }
                return Err(e);
            },
        }
    }
    let ghost rev0 = rev@;
    let mut out: Vec<Frame2> = Vec::new();
    while rev.len() > 0
        invariant
            fv == frames_view(orig@),
            n == orig@.len(),
            rev0.len() == n,
            out@.len() + rev@.len() == n,
            rev@ == rev0.take(rev@.len() as int),
            forall|j: int| 0 <= j < n ==> resp3_to_resp2(fv[n - 1 - j]) == Some(frame2_view(#[trigger] rev0[j])),
            forall|j: int| 0 <= j < out@.len() ==> resp3_to_resp2(fv[j]) == Some(frame2_view(#[trigger] out@[j])),
        decreases rev@.len(),
    {
        let ghost m = rev@.len();
        let x = rev.pop().unwrap();
        proof {
            assert(x == rev0[m - 1]);
            assert(rev@ =~= rev0.take(rev@.len() as int));
        }
        out.push(x);
    }
    proof {
        assert forall|i: int| 0 <= i < fv.len() implies #[trigger] resp3_to_resp2(fv[i]) is Some by {
            assert(resp3_to_resp2(fv[i]) == Some(frame2_view(out@[i])));
        }
        assert(frames2_view(out@) =~= resp2_forms(fv));
    }
    Ok(out)
}

/// The RESP2 frame that stands for a RESP3 frame: simple strings, simple
/// and blob errors as errors, numbers and booleans (0 or 1) as integers,
/// blob strings and doubles (their decimal text) as bulk strings, arrays
/// element by element, null as null. Attributes are dropped; the other
/// kinds have no RESP2 form and give an encoding error.
pub fn resp3_frame_to_resp2(frame: Frame) -> (r: Result<Frame2, RedisProtocolError>)
    ensures
        match resp3_to_resp2(frame@) {
            Some(g) => r is Ok && r.unwrap()@ == g,
            None => r is Err && r->Err_0.kind == RedisProtocolErrorKind::EncodeError,
        },
    decreases frame, 1int,
{
    match frame {
        Frame::SimpleString { data, .. } => Ok(Frame2::SimpleString(data)),
        Frame::SimpleError { data, .. } | Frame::BlobError { data, .. } => Ok(Frame2::Error(data)),
        Frame::Number { data, .. } => Ok(Frame2::Integer(data)),
        Frame::BlobString { data, .. } | Frame::Double { data, .. } => Ok(Frame2::BulkString(data)),
        Frame::Boolean { data, .. } => Ok(Frame2::Integer(if data { 1 } else { 0 })),
        Frame::Null => Ok(Frame2::Null),
        Frame::Array { data, .. } => match resp3_frames_to_resp2(data) {
            Ok(v) => Ok(Frame2::Array(v)),
            Err(e) => Err(e),
        },
        _ => Err(RedisProtocolError::new(RedisProtocolErrorKind::EncodeError, "resp3_frame_to_resp2")),
    }
}

} // verus!
