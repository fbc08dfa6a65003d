//! RESP3 frames, their mathematical model, and the streamed-aggregate helper.
use crate::types::{RedisProtocolError, RedisProtocolErrorKind};
use vstd::prelude::*;

verus! {

broadcast use vstd::std_specs::vec::group_vec_axioms;

/// The kind of a frame, given by its prefix byte on the wire.
#[derive(Clone, Copy, Debug, PartialEq, Eq, Hash, Structural)]
pub enum FrameKind {
    Array,
    BlobString,
    SimpleString,
    SimpleError,
    Number,
    Null,
    Double,
    Boolean,
    BlobError,
    VerbatimString,
    Dict,
    Distinct,
    Attribute,
    Push,
    Hello,
    BigNumber,
    ChunkedString,
    EndStream,
}

/// The prefix byte that introduces each kind of frame.
pub open spec fn kind_byte(k: FrameKind) -> u8 {
    match k {
        FrameKind::Array => 42u8,
        FrameKind::BlobString => 36u8,
        FrameKind::SimpleString => 43u8,
        FrameKind::SimpleError => 45u8,
        FrameKind::Number => 58u8,
        FrameKind::Null => 95u8,
        FrameKind::Double => 44u8,
        FrameKind::Boolean => 35u8,
        FrameKind::BlobError => 33u8,
        FrameKind::VerbatimString => 61u8,
        FrameKind::Dict => 37u8,
        FrameKind::Distinct => 126u8,
        FrameKind::Attribute => 124u8,
        FrameKind::Push => 62u8,
        FrameKind::Hello => 72u8,
        FrameKind::BigNumber => 40u8,
        FrameKind::ChunkedString => 59u8,
        FrameKind::EndStream => 46u8,
    }
}

/// The kind that a prefix byte introduces, if any.
pub open spec fn kind_of_byte(b: u8) -> Option<FrameKind> {
    if b == 42 {
        Some(FrameKind::Array)
    } else if b == 36 {
        Some(FrameKind::BlobString)
    } else if b == 43 {
        Some(FrameKind::SimpleString)
    } else if b == 45 {
        Some(FrameKind::SimpleError)
    } else if b == 58 {
        Some(FrameKind::Number)
    } else if b == 95 {
        Some(FrameKind::Null)
    } else if b == 44 {
        Some(FrameKind::Double)
    } else if b == 35 {
        Some(FrameKind::Boolean)
    } else if b == 33 {
        Some(FrameKind::BlobError)
    } else if b == 61 {
        Some(FrameKind::VerbatimString)
    } else if b == 37 {
        Some(FrameKind::Dict)
    } else if b == 126 {
        Some(FrameKind::Distinct)
    } else if b == 124 {
        Some(FrameKind::Attribute)
    } else if b == 62 {
        Some(FrameKind::Push)
    } else if b == 72 {
        Some(FrameKind::Hello)
    } else if b == 40 {
        Some(FrameKind::BigNumber)
    } else if b == 59 {
        Some(FrameKind::ChunkedString)
    } else if b == 46 {
        Some(FrameKind::EndStream)
    } else {
        None
    }
}

impl FrameKind {
    /// The kind introduced by the prefix byte `b`, if any.
    pub fn from_byte(b: u8) -> (r: Option<FrameKind>)
        ensures
            r == kind_of_byte(b),
    {
        match b {
            42u8 => Some(FrameKind::Array),
            36u8 => Some(FrameKind::BlobString),
            43u8 => Some(FrameKind::SimpleString),
            45u8 => Some(FrameKind::SimpleError),
            58u8 => Some(FrameKind::Number),
            95u8 => Some(FrameKind::Null),
            44u8 => Some(FrameKind::Double),
            35u8 => Some(FrameKind::Boolean),
            33u8 => Some(FrameKind::BlobError),
            61u8 => Some(FrameKind::VerbatimString),
            37u8 => Some(FrameKind::Dict),
            126u8 => Some(FrameKind::Distinct),
            124u8 => Some(FrameKind::Attribute),
            62u8 => Some(FrameKind::Push),
            72u8 => Some(FrameKind::Hello),
            40u8 => Some(FrameKind::BigNumber),
            59u8 => Some(FrameKind::ChunkedString),
            46u8 => Some(FrameKind::EndStream),
            _ => None,
        }
    }

    /// The prefix byte of this kind.
    pub fn to_byte(&self) -> (r: u8)
        ensures
            r == kind_byte(*self),
            kind_of_byte(r) == Some(*self),
    {
        match self {
            FrameKind::Array => 42u8,
            FrameKind::BlobString => 36u8,
            FrameKind::SimpleString => 43u8,
            FrameKind::SimpleError => 45u8,
            FrameKind::Number => 58u8,
            FrameKind::Null => 95u8,
            FrameKind::Double => 44u8,
            FrameKind::Boolean => 35u8,
            FrameKind::BlobError => 33u8,
            FrameKind::VerbatimString => 61u8,
            FrameKind::Dict => 37u8,
            FrameKind::Distinct => 126u8,
            FrameKind::Attribute => 124u8,
            FrameKind::Push => 62u8,
            FrameKind::Hello => 72u8,
            FrameKind::BigNumber => 40u8,
            FrameKind::ChunkedString => 59u8,
            FrameKind::EndStream => 46u8,
        }
    }
}

/// The format tag of a verbatim string.
#[derive(Clone, Copy, Debug, PartialEq, Eq, Hash, Structural)]
pub enum VerbatimStringFormat {
    /// `txt`
    Text,
    /// `mkd`
    Markdown,
}

/// The protocol version named in a `HELLO` handshake.
#[derive(Clone, Copy, Debug, PartialEq, Eq, Hash, Structural)]
pub enum RespVersion {
    RESP2,
    RESP3,
}

/// Credentials carried by a `HELLO` handshake.
#[derive(Clone, Debug, PartialEq, Eq, Hash)]
pub struct Auth {
    pub username: Vec<u8>,
    pub password: Vec<u8>,
}

/// The key-value pairs of a map or of an attribute block, in wire order.
pub type FrameMap = Vec<(Frame, Frame)>;

/// A map of metadata attached to the frame that follows it on the wire.
pub type Attributes = FrameMap;

#[allow(inconsistent_fields)]
/// A RESP3 frame.
///
/// Text-typed payloads (simple strings and errors, credentials) hold UTF-8
/// bytes. A double holds its decimal text as it stands on the wire.
#[derive(Debug, PartialEq, Eq, Hash)]
pub enum Frame {
    BlobString { data: Vec<u8>, attributes: Option<Attributes> },
    BlobError { data: Vec<u8>, attributes: Option<Attributes> },
    SimpleString { data: Vec<u8>, attributes: Option<Attributes> },
    SimpleError { data: Vec<u8>, attributes: Option<Attributes> },
    Boolean { data: bool, attributes: Option<Attributes> },
    Null,
    Number { data: i64, attributes: Option<Attributes> },
    Double { data: Vec<u8>, attributes: Option<Attributes> },
    BigNumber { data: Vec<u8>, attributes: Option<Attributes> },
    VerbatimString { data: Vec<u8>, format: VerbatimStringFormat, attributes: Option<Attributes> },
    Array { data: Vec<Frame>, attributes: Option<Attributes> },
    Dict { data: FrameMap, attributes: Option<Attributes> },
    Distinct { data: Vec<Frame>, attributes: Option<Attributes> },
    Push { data: Vec<Frame>, attributes: Option<Attributes> },
    Hello { version: RespVersion, auth: Option<Auth> },
    /// One chunk of a streamed blob; an empty chunk marks the end of a stream.
    ChunkedString(Vec<u8>),
}

#[allow(inconsistent_fields)]
/// The mathematical model of a frame: byte strings as `Seq<u8>` and
/// children as sequences of models.
pub enum SFrame {
    BlobString { data: Seq<u8>, attrs: Option<Seq<(SFrame, SFrame)>> },
    BlobError { data: Seq<u8>, attrs: Option<Seq<(SFrame, SFrame)>> },
    SimpleString { data: Seq<u8>, attrs: Option<Seq<(SFrame, SFrame)>> },
    SimpleError { data: Seq<u8>, attrs: Option<Seq<(SFrame, SFrame)>> },
    Boolean { data: bool, attrs: Option<Seq<(SFrame, SFrame)>> },
    Null,
    Number { data: i64, attrs: Option<Seq<(SFrame, SFrame)>> },
    Double { data: Seq<u8>, attrs: Option<Seq<(SFrame, SFrame)>> },
    BigNumber { data: Seq<u8>, attrs: Option<Seq<(SFrame, SFrame)>> },
    VerbatimString { data: Seq<u8>, format: VerbatimStringFormat, attrs: Option<Seq<(SFrame, SFrame)>> },
    Array { data: Seq<SFrame>, attrs: Option<Seq<(SFrame, SFrame)>> },
    Dict { data: Seq<(SFrame, SFrame)>, attrs: Option<Seq<(SFrame, SFrame)>> },
    Distinct { data: Seq<SFrame>, attrs: Option<Seq<(SFrame, SFrame)>> },
    Push { data: Seq<SFrame>, attrs: Option<Seq<(SFrame, SFrame)>> },
    Hello { version: RespVersion, auth: Option<(Seq<u8>, Seq<u8>)> },
    ChunkedString { data: Seq<u8> },
}

/// The model of a sequence of frames.
pub open spec fn frames_view(v: Seq<Frame>) -> Seq<SFrame>
    decreases v,
{
    Seq::new(v.len(), |i: int| if 0 <= i < v.len() { frame_view(v[i]) } else { SFrame::Null })
}

/// The model of a sequence of key-value pairs.
pub open spec fn pairs_view(v: Seq<(Frame, Frame)>) -> Seq<(SFrame, SFrame)>
    decreases v,
{
    Seq::new(v.len(), |i: int| if 0 <= i < v.len() { (frame_view(v[i].0), frame_view(v[i].1)) } else { (SFrame::Null, SFrame::Null) })
}

/// The model of an optional attribute block.
pub open spec fn attrs_view(a: Option<Attributes>) -> Option<Seq<(SFrame, SFrame)>>
    decreases a,
{
    match a {
        Some(m) => Some(pairs_view(m@)),
        None => None,
    }
}

/// The model of a frame.
pub open spec fn frame_view(f: Frame) -> SFrame
    decreases f,
{
    match f {
        Frame::BlobString { data, attributes } => SFrame::BlobString { data: data@, attrs: attrs_view(attributes) },
        Frame::BlobError { data, attributes } => SFrame::BlobError { data: data@, attrs: attrs_view(attributes) },
        Frame::SimpleString { data, attributes } => SFrame::SimpleString { data: data@, attrs: attrs_view(attributes) },
        Frame::SimpleError { data, attributes } => SFrame::SimpleError { data: data@, attrs: attrs_view(attributes) },
        Frame::Boolean { data, attributes } => SFrame::Boolean { data, attrs: attrs_view(attributes) },
        Frame::Null => SFrame::Null,
        Frame::Number { data, attributes } => SFrame::Number { data, attrs: attrs_view(attributes) },
        Frame::Double { data, attributes } => SFrame::Double { data: data@, attrs: attrs_view(attributes) },
        Frame::BigNumber { data, attributes } => SFrame::BigNumber { data: data@, attrs: attrs_view(attributes) },
        Frame::VerbatimString { data, format, attributes } => SFrame::VerbatimString { data: data@, format, attrs: attrs_view(attributes) },
        Frame::Array { data, attributes } => SFrame::Array { data: frames_view(data@), attrs: attrs_view(attributes) },
        Frame::Dict { data, attributes } => SFrame::Dict { data: pairs_view(data@), attrs: attrs_view(attributes) },
        Frame::Distinct { data, attributes } => SFrame::Distinct { data: frames_view(data@), attrs: attrs_view(attributes) },
        Frame::Push { data, attributes } => SFrame::Push { data: frames_view(data@), attrs: attrs_view(attributes) },
        Frame::Hello { version, auth } => SFrame::Hello {
            version,
            auth: match auth {
                Some(a) => Some((a.username@, a.password@)),
                None => None,
            },
        },
        Frame::ChunkedString(data) => SFrame::ChunkedString { data: data@ },
    }
}

impl View for Frame {
    type V = SFrame;

    open spec fn view(&self) -> SFrame {
        frame_view(*self)
    }
}


/// The model of a decoder result: a complete frame, or the header of a
/// streamed aggregate with its kind and the attributes that preceded it.
pub enum SDecoded {
    Complete(SFrame),
    Streaming(FrameKind, Option<Seq<(SFrame, SFrame)>>),
}

/// The attributes slot of a frame, for the kinds that have one.
pub open spec fn frame_attrs(f: SFrame) -> Option<Option<Seq<(SFrame, SFrame)>>> {
    match f {
        SFrame::BlobString { attrs, .. } => Some(attrs),
        SFrame::BlobError { attrs, .. } => Some(attrs),
        SFrame::SimpleString { attrs, .. } => Some(attrs),
        SFrame::SimpleError { attrs, .. } => Some(attrs),
        SFrame::Boolean { attrs, .. } => Some(attrs),
        SFrame::Number { attrs, .. } => Some(attrs),
        SFrame::Double { attrs, .. } => Some(attrs),
        SFrame::BigNumber { attrs, .. } => Some(attrs),
        SFrame::VerbatimString { attrs, .. } => Some(attrs),
        SFrame::Array { attrs, .. } => Some(attrs),
        SFrame::Dict { attrs, .. } => Some(attrs),
        SFrame::Distinct { attrs, .. } => Some(attrs),
        SFrame::Push { attrs, .. } => Some(attrs),
        _ => None,
    }
}

/// `f` with its attributes slot set to `a`; `f` itself for the kinds
/// without a slot.
pub open spec fn with_attrs(f: SFrame, a: Option<Seq<(SFrame, SFrame)>>) -> SFrame {
    match f {
        SFrame::BlobString { data, .. } => SFrame::BlobString { data, attrs: a },
        SFrame::BlobError { data, .. } => SFrame::BlobError { data, attrs: a },
        SFrame::SimpleString { data, .. } => SFrame::SimpleString { data, attrs: a },
        SFrame::SimpleError { data, .. } => SFrame::SimpleError { data, attrs: a },
        SFrame::Boolean { data, .. } => SFrame::Boolean { data, attrs: a },
        SFrame::Number { data, .. } => SFrame::Number { data, attrs: a },
        SFrame::Double { data, .. } => SFrame::Double { data, attrs: a },
        SFrame::BigNumber { data, .. } => SFrame::BigNumber { data, attrs: a },
        SFrame::VerbatimString { data, format, .. } => SFrame::VerbatimString { data, format, attrs: a },
        SFrame::Array { data, .. } => SFrame::Array { data, attrs: a },
        SFrame::Dict { data, .. } => SFrame::Dict { data, attrs: a },
        SFrame::Distinct { data, .. } => SFrame::Distinct { data, attrs: a },
        SFrame::Push { data, .. } => SFrame::Push { data, attrs: a },
        _ => f,
    }
}

/// Existing attributes extended by `a`.
pub open spec fn merged_attrs(old: Option<Seq<(SFrame, SFrame)>>, a: Seq<(SFrame, SFrame)>) -> Seq<(SFrame, SFrame)> {
    match old {
        Some(o) => o + a,
        None => a,
    }
}

/// The result of attaching the attribute block `a` to a decoded frame:
/// `None` where the frame has no attributes slot.
pub open spec fn attach_spec(a: Seq<(SFrame, SFrame)>, d: SDecoded) -> Option<SDecoded> {
    match d {
        SDecoded::Complete(f) => match frame_attrs(f) {
            Some(old) => Some(SDecoded::Complete(with_attrs(f, Some(merged_attrs(old, a))))),
            None => None,
        },
        SDecoded::Streaming(k, old) => Some(SDecoded::Streaming(k, Some(merged_attrs(old, a)))),
    }
}

/// A streamed aggregate being reassembled from the frames that follow its
/// header.
#[derive(Debug, PartialEq, Eq)]
pub struct StreamedFrame {
    /// The kind of the aggregate: array, set, map or blob string.
    pub kind: FrameKind,
    /// The children received so far, in order.
    pub buffer: Vec<Frame>,
    /// The attributes that preceded the header.
    pub attributes: Option<Attributes>,
    /// Whether the end-of-stream marker has been received.
    pub finished: bool,
}

/// Whether a frame is the end-of-stream marker: an empty chunk.
pub open spec fn is_end_stream(f: SFrame) -> bool {
    f matches SFrame::ChunkedString { data } && data.len() == 0
}

/// The kind of a frame; an empty chunk is the end-of-stream marker.
pub open spec fn frame_kind(f: SFrame) -> FrameKind {
    match f {
        SFrame::BlobString { .. } => FrameKind::BlobString,
        SFrame::BlobError { .. } => FrameKind::BlobError,
        SFrame::SimpleString { .. } => FrameKind::SimpleString,
        SFrame::SimpleError { .. } => FrameKind::SimpleError,
        SFrame::Boolean { .. } => FrameKind::Boolean,
        SFrame::Null => FrameKind::Null,
        SFrame::Number { .. } => FrameKind::Number,
        SFrame::Double { .. } => FrameKind::Double,
        SFrame::BigNumber { .. } => FrameKind::BigNumber,
        SFrame::VerbatimString { .. } => FrameKind::VerbatimString,
        SFrame::Array { .. } => FrameKind::Array,
        SFrame::Dict { .. } => FrameKind::Dict,
        SFrame::Distinct { .. } => FrameKind::Distinct,
        SFrame::Push { .. } => FrameKind::Push,
        SFrame::Hello { .. } => FrameKind::Hello,
        SFrame::ChunkedString { data } => if data.len() == 0 {
            FrameKind::EndStream
        } else {
            FrameKind::ChunkedString
        },
    }
}

/// The text of a simple string or a blob string.
pub open spec fn string_text(f: SFrame) -> Option<Seq<u8>> {
    match f {
        SFrame::SimpleString { data, .. } => Some(data),
        SFrame::BlobString { data, .. } => Some(data),
        _ => None,
    }
}

pub open spec fn pubsub_word() -> Seq<u8> {
    seq![112u8, 117u8, 98u8, 115u8, 117u8, 98u8]
}

pub open spec fn message_word() -> Seq<u8> {
    seq![109u8, 101u8, 115u8, 115u8, 97u8, 103u8, 101u8]
}

pub open spec fn pmessage_word() -> Seq<u8> {
    seq![112u8, 109u8, 101u8, 115u8, 115u8, 97u8, 103u8, 101u8]
}

/// A push of at least three frames: `pubsub`, then `word`, then the rest.
pub open spec fn is_pubsub_with(f: SFrame, word: Seq<u8>) -> bool {
    match f {
        SFrame::Push { data, .. } => data.len() >= 3 && string_text(data[0]) == Some(pubsub_word()) && string_text(
            data[1],
        ) == Some(word),
        _ => false,
    }
}

fn eq_bytes(a: &[u8], b: &[u8]) -> (r: bool)
    ensures
        r == (a@ == b@),
{
    if a.len() != b.len() {
        return false;
    }
    let mut i: usize = 0;
    while i < a.len()
        invariant
            a@.len() == b@.len(),
            i <= a@.len(),
            a@.take(i as int) == b@.take(i as int),
        decreases a@.len() - i,
    {
        if a[i] != b[i] {
            return false;
        }
        proof {
            assert(a@.take(i + 1) =~= a@.take(i as int).push(a@[i as int]));
            assert(b@.take(i + 1) =~= b@.take(i as int).push(b@[i as int]));
        }
        i = i + 1;
    }
    proof {
        assert(a@ =~= a@.take(i as int));
        assert(b@ =~= b@.take(i as int));
    }
    true
}

fn text_is(f: &Frame, word: &[u8]) -> (r: bool)
    ensures
        r == (string_text(f@) == Some(word@)),
{
    match f {
        Frame::SimpleString { data, .. } => eq_bytes(data.as_slice(), word),
        Frame::BlobString { data, .. } => eq_bytes(data.as_slice(), word),
        _ => false,
    }
}

fn is_pubsub_frames(f: &Frame, word: &[u8]) -> (r: bool)
    ensures
        r == is_pubsub_with(f@, word@),
{
    let p: [u8; 6] = [112u8, 117u8, 98u8, 115u8, 117u8, 98u8];
    let ps = vstd::array::array_as_slice(&p);
    proof {
        assert(ps@ =~= pubsub_word());
    }
    match f {
        Frame::Push { data, .. } => {
            if data.len() < 3 {
                return false;
            }
            proof {
                assert(frames_view(data@)[0] == frame_view(data@[0]));
                assert(frames_view(data@)[1] == frame_view(data@[1]));
            }
            text_is(&data[0], ps) && text_is(&data[1], word)
        },
        _ => false,
    }
}

fn frames_eq(a: &Vec<Frame>, b: &Vec<Frame>) -> (r: bool)
    ensures
        r == (frames_view(a@) == frames_view(b@)),
    decreases *a, 0int,
{
    if a.len() != b.len() {
        proof {
            assert(frames_view(a@).len() != frames_view(b@).len());
        }
        return false;
    }
    let mut i: usize = 0;
    while i < a.len()
        invariant
            a@.len() == b@.len(),
            i <= a@.len(),
            forall|j: int| 0 <= j < i ==> frame_view(#[trigger] a@[j]) == frame_view(b@[j]),
        decreases a@.len() - i,
    {
        if !frame_eq(&a[i], &b[i]) {
            proof {
                assert(frames_view(a@)[i as int] != frames_view(b@)[i as int]);
            }
            return false;
        }
        i = i + 1;
    }
    proof {
        assert(frames_view(a@) =~= frames_view(b@));
    }
    true
}

fn pairs_eq(a: &FrameMap, b: &FrameMap) -> (r: bool)
    ensures
        r == (pairs_view(a@) == pairs_view(b@)),
    decreases *a, 0int,
{
    if a.len() != b.len() {
        proof {
            assert(pairs_view(a@).len() != pairs_view(b@).len());
        }
        return false;
    }
    let mut i: usize = 0;
    while i < a.len()
        invariant
            a@.len() == b@.len(),
            i <= a@.len(),
            forall|j: int|
                0 <= j < i ==> frame_view(#[trigger] a@[j].0) == frame_view(b@[j].0) && frame_view(a@[j].1)
                    == frame_view(b@[j].1),
        decreases a@.len() - i,
    {
        let x = &a[i];
        let y = &b[i];
        if !frame_eq(&x.0, &y.0) || !frame_eq(&x.1, &y.1) {
            proof {
                assert(pairs_view(a@)[i as int] != pairs_view(b@)[i as int]);
            }
            return false;
        }
        i = i + 1;
    }
    proof {
        assert(pairs_view(a@) =~= pairs_view(b@));
    }
    true
}

fn attributes_eq(a: &Option<Attributes>, b: &Option<Attributes>) -> (r: bool)
    ensures
        r == (attrs_view(*a) == attrs_view(*b)),
    decreases *a, 0int,
{
    match (a, b) {
        (Some(x), Some(y)) => pairs_eq(x, y),
        (None, None) => true,
        _ => false,
    }
}

fn vec_bytes_eq(a: &Vec<u8>, b: &Vec<u8>) -> (r: bool)
    ensures
        r == (a@ == b@),
{
    eq_bytes(a.as_slice(), b.as_slice())
}

/// Whether two frames are equal: same kind, same payload, equal children
/// and attributes.
pub fn frame_eq(a: &Frame, b: &Frame) -> (r: bool)
    ensures
        r == (a@ == b@),
    decreases *a, 1int,
{
    match (a, b) {
        (Frame::BlobString { data: d1, attributes: a1 }, Frame::BlobString { data: d2, attributes: a2 })
        | (Frame::BlobError { data: d1, attributes: a1 }, Frame::BlobError { data: d2, attributes: a2 })
        | (Frame::SimpleString { data: d1, attributes: a1 }, Frame::SimpleString { data: d2, attributes: a2 })
        | (Frame::SimpleError { data: d1, attributes: a1 }, Frame::SimpleError { data: d2, attributes: a2 })
        | (Frame::Double { data: d1, attributes: a1 }, Frame::Double { data: d2, attributes: a2 })
        | (Frame::BigNumber { data: d1, attributes: a1 }, Frame::BigNumber { data: d2, attributes: a2 }) => {
            vec_bytes_eq(d1, d2) && attributes_eq(a1, a2)
        },
        (Frame::Boolean { data: d1, attributes: a1 }, Frame::Boolean { data: d2, attributes: a2 }) => {
            *d1 == *d2 && attributes_eq(a1, a2)
        },
        (Frame::Number { data: d1, attributes: a1 }, Frame::Number { data: d2, attributes: a2 }) => {
            *d1 == *d2 && attributes_eq(a1, a2)
        },
        (Frame::Null, Frame::Null) => true,
        (
            Frame::VerbatimString { data: d1, format: f1, attributes: a1 },
            Frame::VerbatimString { data: d2, format: f2, attributes: a2 },
        ) => *f1 == *f2 && vec_bytes_eq(d1, d2) && attributes_eq(a1, a2),
        (Frame::Array { data: d1, attributes: a1 }, Frame::Array { data: d2, attributes: a2 })
        | (Frame::Distinct { data: d1, attributes: a1 }, Frame::Distinct { data: d2, attributes: a2 })
        | (Frame::Push { data: d1, attributes: a1 }, Frame::Push { data: d2, attributes: a2 }) => {
            frames_eq(d1, d2) && attributes_eq(a1, a2)
        },
        (Frame::Dict { data: d1, attributes: a1 }, Frame::Dict { data: d2, attributes: a2 }) => {
            pairs_eq(d1, d2) && attributes_eq(a1, a2)
        },
        (Frame::Hello { version: v1, auth: u1 }, Frame::Hello { version: v2, auth: u2 }) => {
            *v1 == *v2 && match (u1, u2) {
                (Some(x), Some(y)) => vec_bytes_eq(&x.username, &y.username) && vec_bytes_eq(&x.password, &y.password),
                (None, None) => true,
                _ => false,
            }
        },
        (Frame::ChunkedString(d1), Frame::ChunkedString(d2)) => vec_bytes_eq(d1, d2),
        _ => false,
    }
}

impl Frame {
    /// The end-of-stream marker.
    pub fn new_end_stream() -> (r: Frame)
        ensures
            is_end_stream(r@),
    {
        Frame::ChunkedString(Vec::new())
    }

    /// Whether this frame is the end-of-stream marker.
    pub fn is_end_stream_frame(&self) -> (r: bool)
        ensures
            r == is_end_stream(self@),
    {
        match self {
            Frame::ChunkedString(d) => d.len() == 0,
            _ => false,
        }
    }

    /// The kind of this frame.
    pub fn kind(&self) -> (r: FrameKind)
        ensures
            r == frame_kind(self@),
    {
        match self {
            Frame::BlobString { .. } => FrameKind::BlobString,
            Frame::BlobError { .. } => FrameKind::BlobError,
            Frame::SimpleString { .. } => FrameKind::SimpleString,
            Frame::SimpleError { .. } => FrameKind::SimpleError,
            Frame::Boolean { .. } => FrameKind::Boolean,
            Frame::Null => FrameKind::Null,
            Frame::Number { .. } => FrameKind::Number,
            Frame::Double { .. } => FrameKind::Double,
            Frame::BigNumber { .. } => FrameKind::BigNumber,
            Frame::VerbatimString { .. } => FrameKind::VerbatimString,
            Frame::Array { .. } => FrameKind::Array,
            Frame::Dict { .. } => FrameKind::Dict,
            Frame::Distinct { .. } => FrameKind::Distinct,
            Frame::Push { .. } => FrameKind::Push,
            Frame::Hello { .. } => FrameKind::Hello,
            Frame::ChunkedString(d) => if d.len() == 0 {
                FrameKind::EndStream
            } else {
                FrameKind::ChunkedString
            },
        }
    }

    /// Whether this frame is an error: a simple error or a blob error.
    pub fn is_error(&self) -> (r: bool)
        ensures
            r == (self@ is SimpleError || self@ is BlobError),
    {
        match self {
            Frame::SimpleError { .. } | Frame::BlobError { .. } => true,
            _ => false,
        }
    }

    /// Whether this frame is a publish-subscribe message: a push of at
    /// least three frames that starts with `pubsub` and then `message` or
    /// `pmessage`.
    pub fn is_pubsub_message(&self) -> (r: bool)
        ensures
            r == (is_pubsub_with(self@, message_word()) || is_pubsub_with(self@, pmessage_word())),
    {
        self.is_pattern_pubsub_message() || self.is_normal_pubsub()
    }

    /// Whether this frame is a publish-subscribe message of a channel
    /// subscription: `pubsub`, then `message`.
    pub fn is_normal_pubsub(&self) -> (r: bool)
        ensures
            r == is_pubsub_with(self@, message_word()),
    {
        let m: [u8; 7] = [109u8, 101u8, 115u8, 115u8, 97u8, 103u8, 101u8];
        let ms = vstd::array::array_as_slice(&m);
        proof {
            assert(ms@ =~= message_word());
        }
        is_pubsub_frames(self, ms)
    }

    /// Whether this frame is a publish-subscribe message of a pattern
    /// subscription: `pubsub`, then `pmessage`.
    pub fn is_pattern_pubsub_message(&self) -> (r: bool)
        ensures
            r == is_pubsub_with(self@, pmessage_word()),
    {
        let m: [u8; 8] = [112u8, 109u8, 101u8, 115u8, 115u8, 97u8, 103u8, 101u8];
        let ms = vstd::array::array_as_slice(&m);
        proof {
            assert(ms@ =~= pmessage_word());
        }
        is_pubsub_frames(self, ms)
    }
}

impl StreamedFrame {
    /// An empty stream of the given kind.
    pub fn new(kind: FrameKind) -> (r: StreamedFrame)
        ensures
            r.kind == kind,
            r.buffer@.len() == 0,
            r.attributes is None,
            !r.finished,
    {
        StreamedFrame { kind, buffer: Vec::new(), attributes: None, finished: false }
    }

    /// Whether the end-of-stream marker has been received.
    pub fn is_finished(&self) -> (r: bool)
        ensures
            r == self.finished,
    {
        self.finished
    }

    /// Takes the next frame of the stream: the end-of-stream marker
    /// finishes it, any other frame is kept. A finished stream takes nothing.
    pub fn add_frame(&mut self, data: Frame) -> (r: Result<(), RedisProtocolError>)
        ensures
            old(self).finished ==> r is Err && r->Err_0.kind == RedisProtocolErrorKind::DecodeError && *final(self)
                == *old(self),
            !old(self).finished ==> r is Ok && final(self).kind == old(self).kind && final(self).attributes
                == old(self).attributes && (if is_end_stream(data@) {
                final(self).finished && final(self).buffer@ == old(self).buffer@
            } else {
                !final(self).finished && final(self).buffer@ == old(self).buffer@.push(data)
            }),
    {
        if self.finished {
            return Err(RedisProtocolError::new_decode("add_frame"));
        }
        if data.is_end_stream_frame() {
            self.finished = true;
        } else {
            self.buffer.push(data);
        }
        Ok(())
    }

    /// The frame that the finished stream stands for: the children as an
    /// array or a set, taken two by two as a map, or the chunks joined as a
    /// blob string; it keeps the attributes of the header.
    pub fn into_frame(self) -> (r: Result<Frame, RedisProtocolError>)
        ensures
            !self.finished ==> r is Err,
            self.finished ==> match reassemble(self.kind, frames_view(self.buffer@), attrs_view(self.attributes)) {
                Some(f) => r is Ok && r.unwrap()@ == f,
                None => r is Err,
            },
            r is Err ==> r->Err_0.kind == RedisProtocolErrorKind::DecodeError,
    {
        if !self.finished {
            return Err(RedisProtocolError::new_decode("into_frame"));
        }
        let StreamedFrame { kind, buffer, attributes, finished: _ } = self;
        match kind {
            FrameKind::Array => Ok(Frame::Array { data: buffer, attributes }),
            FrameKind::Distinct => Ok(Frame::Distinct { data: to_set(buffer), attributes }),
            FrameKind::Dict => match to_map(buffer) {
                Ok(data) => Ok(Frame::Dict { data, attributes }),
                Err(x) => Err(x),
            },
            FrameKind::BlobString => {
                let ghost children = frames_view(buffer@);
                let mut out: Vec<u8> = Vec::new();
                let mut i: usize = 0;
                while i < buffer.len()
                    invariant
                        i <= buffer@.len(),
                        children == frames_view(buffer@),
                        self.kind == FrameKind::BlobString,
                        self.buffer == buffer,
                        chunks_concat(children.take(i as int)) == Some(out@),
                    decreases buffer@.len() - i,
                {
                    proof {
                        assert(children.take(i + 1).drop_last() =~= children.take(i as int));
                        assert(children[i as int] == frame_view(buffer@[i as int]));
                    }
                    match &buffer[i] {
                        Frame::ChunkedString(d) => {
                            let mut j: usize = 0;
                            let ghost start = out@;
                            while j < d.len()
                                invariant
                                    j <= d@.len(),
                                    out@ == start + d@.take(j as int),
                                decreases d@.len() - j,
                            {
                                out.push(d[j]);
                                proof {
                                    assert(start + d@.take(j + 1) =~= (start + d@.take(j as int)).push(d@[j as int]));
                                }
                                j = j + 1;
                            }
                            proof {
                                assert(d@.take(j as int) =~= d@);
                            }
                        },
                        _ => {
                            proof {
                                assert(children.take(i + 1).last() == children[i as int]);
                                assert(chunks_concat(children.take(i + 1)) is None);
                                lemma_chunks_prefix_none(children, i + 1);
                            }
                            return Err(RedisProtocolError::new_decode("into_frame"));
                        },
                    }
                    i = i + 1;
                }
                proof {
                    assert(children.take(i as int) =~= children);
                }
                Ok(Frame::BlobString { data: out, attributes })
            },
            _ => Err(RedisProtocolError::new_decode("into_frame")),
        }
    }
}

impl DecodedFrame {
    /// Whether this result is the header of a streamed aggregate.
    pub fn is_streaming(&self) -> (r: bool)
        ensures
            r == (*self is Streaming),
    {
        match self {
            DecodedFrame::Streaming(_) => true,
            DecodedFrame::Complete(_) => false,
        }
    }

    /// The complete frame; a stream header is an error.
    pub fn into_complete_frame(self) -> (r: Result<Frame, RedisProtocolError>)
        ensures
            match self {
                DecodedFrame::Complete(f) => r == Ok::<Frame, RedisProtocolError>(f),
                DecodedFrame::Streaming(_) => r is Err && r->Err_0.kind == RedisProtocolErrorKind::DecodeError,
            },
    {
        match self {
            DecodedFrame::Complete(f) => Ok(f),
            DecodedFrame::Streaming(_) => Err(RedisProtocolError::new_decode("into_complete_frame")),
        }
    }

    /// The stream header; a complete frame is an error.
    pub fn into_streaming_frame(self) -> (r: Result<StreamedFrame, RedisProtocolError>)
        ensures
            match self {
                DecodedFrame::Streaming(st) => r == Ok::<StreamedFrame, RedisProtocolError>(st),
                DecodedFrame::Complete(_) => r is Err && r->Err_0.kind == RedisProtocolErrorKind::DecodeError,
            },
    {
        match self {
            DecodedFrame::Streaming(st) => Ok(st),
            DecodedFrame::Complete(_) => Err(RedisProtocolError::new_decode("into_streaming_frame")),
        }
    }
}

/// The frames of `s` without repeats, each where it first occurs.
pub open spec fn dedup(s: Seq<SFrame>) -> Seq<SFrame>
    decreases s.len(),
{
    if s.len() == 0 {
        seq![]
    } else {
        let d = dedup(s.drop_last());
        if d.contains(s.last()) {
            d
        } else {
            d.push(s.last())
        }
    }
}

/// The first position at or after `i` of a pair whose key is `k`.
pub open spec fn key_from(m: Seq<(SFrame, SFrame)>, k: SFrame, i: int) -> Option<int>
    decreases m.len() - i,
{
    if i < 0 || i >= m.len() {
        None
    } else if m[i].0 == k {
        Some(i)
    } else {
        key_from(m, k, i + 1)
    }
}

/// `m` with the pair `kv` inserted: it replaces the pair with the same key,
/// in place, or comes last.
pub open spec fn insert_pair(m: Seq<(SFrame, SFrame)>, kv: (SFrame, SFrame)) -> Seq<(SFrame, SFrame)> {
    match key_from(m, kv.0, 0) {
        Some(j) => m.update(j, kv),
        None => m.push(kv),
    }
}

/// Pairs inserted in order: each key once, where it first occurs, with the
/// last value given for it.
pub open spec fn dedup_pairs(s: Seq<(SFrame, SFrame)>) -> Seq<(SFrame, SFrame)>
    decreases s.len(),
{
    if s.len() == 0 {
        seq![]
    } else {
        insert_pair(dedup_pairs(s.drop_last()), s.last())
    }
}

/// Adds `f` at the end of `out` unless an equal frame is there.
pub fn set_insert(out: &mut Vec<Frame>, f: Frame)
    ensures
        frames_view(final(out)@) == if frames_view(old(out)@).contains(f@) {
            frames_view(old(out)@)
        } else {
            frames_view(old(out)@).push(f@)
        },
{
    let ghost fv = frames_view(out@);
    let mut j: usize = 0;
    while j < out.len()
        invariant
            fv == frames_view(out@),
            out@ == old(out)@,
            j <= out@.len(),
            forall|i: int| 0 <= i < j ==> fv[i] != f@,
        decreases out@.len() - j,
    {
        if frame_eq(&out[j], &f) {
            proof {
                assert(fv[j as int] == f@);
            }
            return;
        }
        j = j + 1;
    }
    proof {
        assert(!fv.contains(f@));
        assert(frames_view(out@.push(f)) =~= fv.push(f@));
    }
    out.push(f);
}

/// Inserts the pair `(k, v)` into `out`: it replaces the pair with an equal
/// key, in place, or comes last.
pub fn map_insert(out: &mut FrameMap, k: Frame, v: Frame)
    ensures
        pairs_view(final(out)@) == insert_pair(pairs_view(old(out)@), (k@, v@)),
{
    let ghost pv = pairs_view(out@);
    let mut j: usize = 0;
    while j < out.len()
        invariant
            pv == pairs_view(out@),
            out@ == old(out)@,
            j <= out@.len(),
            key_from(pv, k@, 0) == key_from(pv, k@, j as int),
        decreases out@.len() - j,
    {
        if frame_eq(&out[j].0, &k) {
            proof {
                assert(pv[j as int].0 == k@);
            }
            out[j] = (k, v);
            proof {
                assert(pairs_view(out@) =~= pv.update(j as int, (k@, v@)));
            }
            return;
        }
        proof {
            assert(pv[j as int].0 != k@);
        }
        j = j + 1;
    }
    proof {
        assert(pairs_view(out@.push((k, v))) =~= pv.push((k@, v@)));
    }
    out.push((k, v));
}

/// The frames of `data` without repeats, each where it first occurs.
pub fn to_set(data: Vec<Frame>) -> (r: Vec<Frame>)
    ensures
        frames_view(r@) == dedup(frames_view(data@)),
{
    let ghost orig = data@;
    let ghost n = data@.len();
    let ghost fv = frames_view(orig);
    let mut data = data;
    let mut rev: Vec<Frame> = Vec::new();
    while data.len() > 0
        invariant
            n == orig.len(),
            data@.len() <= n,
            data@ == orig.take(data@.len() as int),
            rev@.len() + data@.len() == n,
            forall|j: int| 0 <= j < rev@.len() ==> #[trigger] rev@[j] == orig[n - 1 - j],
        decreases data@.len(),
    {
        let ghost k = data@.len() - 1;
        let x = data.pop().unwrap();
        proof {
            assert(x == orig[k]);
            assert(data@ =~= orig.take(data@.len() as int));
        }
        rev.push(x);
    }
    let ghost rev0 = rev@;
    let mut out: Vec<Frame> = Vec::new();
    proof {
        assert(fv.take(0) =~= Seq::<SFrame>::empty());
        assert(frames_view(out@) =~= dedup(fv.take(0)));
    }
    while rev.len() > 0
        invariant
            n == orig.len(),
            fv == frames_view(orig),
            rev0.len() == n,
            rev@.len() <= n,
            rev@ == rev0.take(rev@.len() as int),
            forall|j: int| 0 <= j < n ==> #[trigger] rev0[j] == orig[n - 1 - j],
            frames_view(out@) == dedup(fv.take(n - rev@.len())),
        decreases rev@.len(),
    {
        let ghost m = rev@.len();
        let ghost i = n - m;
        let x = rev.pop().unwrap();
        proof {
            assert(x == rev0[m - 1]);
            assert(x == orig[i]);
            assert(rev@ =~= rev0.take(rev@.len() as int));
            assert(fv.take(i + 1).drop_last() =~= fv.take(i));
            assert(fv.take(i + 1).last() == frame_view(x));
        }
        set_insert(&mut out, x);
    }
    proof {
        assert(fv.take(n as int) =~= fv);
    }
    out
}

/// Consecutive frames taken two by two as key-value pairs.
pub open spec fn pair_up(v: Seq<SFrame>) -> Seq<(SFrame, SFrame)> {
    Seq::new(v.len() / 2, |i: int| (v[2 * i], v[2 * i + 1]))
}

/// The bytes of a sequence of chunks, one after the other; `None` where a
/// frame is not a chunk.
pub open spec fn chunks_concat(v: Seq<SFrame>) -> Option<Seq<u8>>
    decreases v.len(),
{
    if v.len() == 0 {
        Some(seq![])
    } else {
        match (chunks_concat(v.drop_last()), v.last()) {
            (Some(a), SFrame::ChunkedString { data }) => Some(a + data),
            _ => None,
        }
    }
}

/// The frame that a finished stream of `kind` with these children and
/// attributes stands for; `None` where the children do not fit the kind.
pub open spec fn reassemble(kind: FrameKind, children: Seq<SFrame>, attrs: Option<Seq<(SFrame, SFrame)>>) -> Option<
    SFrame,
> {
    match kind {
        FrameKind::Array => Some(SFrame::Array { data: children, attrs }),
        FrameKind::Distinct => Some(SFrame::Distinct { data: dedup(children), attrs }),
        FrameKind::Dict => if children.len() % 2 == 0 {
            Some(SFrame::Dict { data: dedup_pairs(pair_up(children)), attrs })
        } else {
            None
        },
        FrameKind::BlobString => match chunks_concat(children) {
            Some(data) => Some(SFrame::BlobString { data, attrs }),
            None => None,
        },
        _ => None,
    }
}

proof fn lemma_pair_up_index(v: Seq<SFrame>, i: int)
    requires
        0 <= i < v.len() / 2,
    ensures
        pair_up(v)[i] == (v[2 * i], v[2 * i + 1]),
{
}

/// Pairs up frames in order: the first is a key, the second its value, and
/// so on; a repeated key keeps its first place and takes the last value.
/// An odd count is an error.
pub fn to_map(data: Vec<Frame>) -> (r: Result<FrameMap, RedisProtocolError>)
    ensures
        data@.len() % 2 == 0 ==> r is Ok && pairs_view(r.unwrap()@) == dedup_pairs(pair_up(frames_view(data@))),
        data@.len() % 2 != 0 ==> r is Err && r->Err_0.kind == RedisProtocolErrorKind::DecodeError,
{
    if data.len() % 2 != 0 {
        return Err(RedisProtocolError::new_decode("to_map"));
    }
    let ghost orig = data@;
    let ghost pairs = pair_up(frames_view(orig));
    let mut data = data;
    let mut rev: FrameMap = Vec::new();
    while data.len() >= 2
        invariant
            data@.len() % 2 == 0,
            data@.len() <= orig.len(),
            data@ == orig.take(data@.len() as int),
            rev@.len() * 2 + data@.len() == orig.len(),
            pairs.len() == orig.len() / 2,
            pairs == pair_up(frames_view(orig)),
            forall|j: int|
                0 <= j < rev@.len() ==> (frame_view(#[trigger] rev@[j].0), frame_view(rev@[j].1)) == pairs[pairs.len() - 1
                    - j],
        decreases data@.len(),
    {
        let ghost n = data@.len();
        let v = data.pop().unwrap();
        let k = data.pop().unwrap();
        proof {
            assert(v == orig[n - 1]);
            assert(k == orig[n - 2]);
            assert(pairs.len() - 1 - rev@.len() == n / 2 - 1);
            assert(2 * (n / 2 - 1) == n - 2);
            let i = n / 2 - 1;
            assert(0 <= i < pairs.len()) by (nonlinear_arith)
                requires
                    i == n / 2 - 1,
                    2 <= n <= orig.len(),
                    pairs.len() == orig.len() / 2,
            pairs == pair_up(frames_view(orig)),
            ;
            lemma_pair_up_index(frames_view(orig), i);
            assert(frames_view(orig)[n - 2] == frame_view(orig[n - 2]));
            assert(frames_view(orig)[n - 1] == frame_view(orig[n - 1]));
            assert(data@ =~= orig.take(data@.len() as int));
        }
        let ghost before = rev@;
        rev.push((k, v));
        proof {
            let i = n / 2 - 1;
            lemma_pair_up_index(frames_view(orig), i);
            assert(pairs[i] == (frames_view(orig)[2 * i], frames_view(orig)[2 * i + 1]));
            assert(2 * i == n - 2 && 2 * i + 1 == n - 1);
            assert(frames_view(orig)[2 * i] == frame_view(k));
            assert(frames_view(orig)[2 * i + 1] == frame_view(v));
            assert forall|j: int|
                0 <= j < rev@.len() implies (frame_view(#[trigger] rev@[j].0), frame_view(rev@[j].1)) == pairs[pairs.len()
                    - 1 - j] by {
                if j < before.len() {
                    assert(rev@[j] == before[j]);
                    assert((frame_view(before[j].0), frame_view(before[j].1)) == pairs[pairs.len() - 1 - j]);
                } else {
                    assert(j == before.len());
                    assert(rev@[j] == (k, v));
                    assert(pairs.len() - 1 - j == i);
                    assert(pairs[i] == (frame_view(k), frame_view(v)));
                }
            }
        }
    }
    let ghost rev0 = rev@;
    let mut out: FrameMap = Vec::new();
    proof {
        assert(pairs.take(0) =~= Seq::<(SFrame, SFrame)>::empty());
    }
    while rev.len() > 0
        invariant
            rev0.len() == pairs.len(),
            pairs == pair_up(frames_view(orig)),
            rev@.len() <= pairs.len(),
            rev@ == rev0.take(rev@.len() as int),
            forall|j: int|
                0 <= j < rev0.len() ==> (frame_view(#[trigger] rev0[j].0), frame_view(rev0[j].1)) == pairs[pairs.len() - 1
                    - j],
            pairs_view(out@) == dedup_pairs(pairs.take(pairs.len() - rev@.len())),
        decreases rev@.len(),
    {
        let ghost m = rev@.len();
        let ghost i = pairs.len() - m;
        let x = rev.pop().unwrap();
        proof {
            assert(x == rev0[m - 1]);
            assert(rev@ =~= rev0.take(rev@.len() as int));
            assert(pairs.take(i + 1).drop_last() =~= pairs.take(i));
            assert(pairs.take(i + 1).last() == pairs[i]);
        }
        let (k, v) = x;
        map_insert(&mut out, k, v);
    }
    proof {
        assert(pairs.take(pairs.len() as int) =~= pairs);
    }
    Ok(out)
}

proof fn lemma_chunks_prefix_none(v: Seq<SFrame>, i: int)
    requires
        0 <= i <= v.len(),
        chunks_concat(v.take(i)) is None,
    ensures
        chunks_concat(v) is None,
    decreases v.len() - i,
{
    if i < v.len() {
        assert(v.take(i + 1).drop_last() =~= v.take(i));
        lemma_chunks_prefix_none(v, i + 1);
    } else {
        assert(v.take(i) =~= v);
    }
}

/// A decoder result: a complete frame, or the header of a streamed aggregate.
#[derive(Debug, PartialEq, Eq)]
pub enum DecodedFrame {
    Complete(Frame),
    Streaming(StreamedFrame),
}

/// The model of a decoder result. The buffer and the flag of a streamed
/// header are not part of it: a fresh header has an empty buffer.
pub open spec fn decoded_view(d: DecodedFrame) -> SDecoded {
    match d {
        DecodedFrame::Complete(f) => SDecoded::Complete(f@),
        DecodedFrame::Streaming(s) => SDecoded::Streaming(s.kind, attrs_view(s.attributes)),
    }
}

/// A decoder result that holds a fresh streamed header, if any.
pub open spec fn fresh_stream(d: DecodedFrame) -> bool {
    match d {
        DecodedFrame::Complete(_) => true,
        DecodedFrame::Streaming(s) => s.buffer@.len() == 0 && !s.finished,
    }
}

} // verus!
