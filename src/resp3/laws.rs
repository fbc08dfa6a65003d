//! Laws that relate the decoder, the encoder and the stream helper.
use crate::resp3::decode::{
    advances, all_digits, crlf_at, crlf_from, decode_complete, digits_value, double_text, is_digit, isize_text, line,
    parse_aggregate, parse_attributed, parse_body, parse_frame, parse_many, parse_pairs, payload, prefix_len,
    signed_text, space_from, stream_marker, unsigned_text, utf8_valid, verbatim, Outcome,
};
use crate::resp3::encode::{
    blob, crlf, dec, enc_attrs_of, enc_body, enc_frame, enc_pairs, enc_seq, encoded_len, format_bytes, hello_bytes,
    len_line, signed_dec, stream_end, stream_header, streamable, text_line, version_digit,
};
use crate::resp3::types::{
    chunks_concat, dedup, dedup_pairs, frame_attrs, key_from, kind_of_byte, pair_up, reassemble, with_attrs,
    FrameKind, RespVersion, SDecoded, SFrame, VerbatimStringFormat,
};
use vstd::prelude::*;

verus! {

broadcast use vstd::seq::group_seq_axioms;

/// Whether a byte string holds no CR LF pair.
pub open spec fn no_crlf(t: Seq<u8>) -> bool {
    forall|i: int| 0 <= i < t.len() - 1 ==> !(t[i] == 13u8 && #[trigger] t[i + 1] == 10u8)
}

/// Whether every frame of a sequence is decodable.
pub open spec fn all_decodable(v: Seq<SFrame>) -> bool
    decreases v, 0int,
{
    forall|i: int| 0 <= i < v.len() ==> decodable(#[trigger] v[i])
}

/// Whether every key and value of a sequence of pairs is decodable.
pub open spec fn pairs_decodable(v: Seq<(SFrame, SFrame)>) -> bool
    decreases v, 0int,
{
    forall|i: int| 0 <= i < v.len() ==> decodable(#[trigger] v[i].0) && decodable(v[i].1)
}

/// Whether an attribute block is decodable.
pub open spec fn attrs_decodable(a: Option<Seq<(SFrame, SFrame)>>) -> bool
    decreases a, 1int,
{
    match a {
        Some(m) => m.len() <= usize::MAX && pairs_decodable(m) && dedup_pairs(m) == m,
        None => true,
    }
}

/// The frames that the decoder can produce: text without CR LF (and UTF-8
/// where the kind is text), lengths that fit the length prefixes, sets
/// without repeats and maps without repeated keys, and decodable children
/// and attributes.
pub open spec fn decodable(f: SFrame) -> bool
    decreases f, 2int,
{
    match f {
        SFrame::BlobString { data, attrs } => attrs_decodable(attrs) && data.len() <= isize::MAX,
        SFrame::BlobError { data, attrs } => attrs_decodable(attrs) && data.len() <= usize::MAX,
        SFrame::SimpleString { data, attrs } => attrs_decodable(attrs) && no_crlf(data) && utf8_valid(data),
        SFrame::SimpleError { data, attrs } => attrs_decodable(attrs) && no_crlf(data) && utf8_valid(data),
        SFrame::Boolean { attrs, .. } => attrs_decodable(attrs),
        SFrame::Null => true,
        SFrame::Number { attrs, .. } => attrs_decodable(attrs),
        SFrame::Double { data, attrs } => attrs_decodable(attrs) && no_crlf(data) && double_text(data),
        SFrame::BigNumber { data, attrs } => attrs_decodable(attrs) && no_crlf(data),
        SFrame::VerbatimString { data, attrs, .. } => attrs_decodable(attrs) && data.len() + 4 <= usize::MAX,
        SFrame::Array { data, attrs } => attrs_decodable(attrs) && data.len() <= isize::MAX && all_decodable(data),
        SFrame::Dict { data, attrs } => attrs_decodable(attrs) && data.len() <= isize::MAX && pairs_decodable(data)
            && dedup_pairs(data) == data,
        SFrame::Distinct { data, attrs } => attrs_decodable(attrs) && data.len() <= isize::MAX && all_decodable(data)
            && dedup(data) == data,
        SFrame::Push { data, attrs } => attrs_decodable(attrs) && data.len() <= usize::MAX && all_decodable(data),
        SFrame::Hello { auth, .. } => match auth {
            Some((u, w)) => utf8_valid(u) && utf8_valid(w) && no_crlf(u) && no_crlf(w) && space_from(u, 0) is None,
            None => true,
        },
        SFrame::ChunkedString { data } => data.len() <= usize::MAX,
    }
}

// ------------------------------------------------------------ byte lemmas

/// Whether `s` holds `t` at `p`.
pub open spec fn holds_at(s: Seq<u8>, p: int, t: Seq<u8>) -> bool {
    0 <= p && p + t.len() <= s.len() && s.subrange(p, p + t.len()) == t
}

pub(crate) proof fn lemma_holds_split(s: Seq<u8>, p: int, a: Seq<u8>, b: Seq<u8>)
    requires
        holds_at(s, p, a + b),
    ensures
        holds_at(s, p, a),
        holds_at(s, p + a.len(), b),
{
    assert(s.subrange(p, p + a.len()) =~= (a + b).subrange(0, a.len() as int));
    assert(s.subrange(p + a.len(), p + a.len() + b.len()) =~= (a + b).subrange(a.len() as int, (a + b).len() as int));
    assert((a + b).subrange(0, a.len() as int) =~= a);
    assert((a + b).subrange(a.len() as int, (a + b).len() as int) =~= b);
}

proof fn lemma_holds_index(s: Seq<u8>, p: int, t: Seq<u8>, i: int)
    requires
        holds_at(s, p, t),
        0 <= i < t.len(),
    ensures
        s[p + i] == t[i],
{
    assert(s.subrange(p, p + t.len())[i] == s[p + i]);
}

proof fn lemma_crlf_from_at(s: Seq<u8>, i: int, j: int)
    requires
        0 <= i <= j,
        crlf_at(s, j),
        forall|m: int| i <= m < j ==> !crlf_at(s, m),
    ensures
        crlf_from(s, i) == Some(j),
    decreases j - i,
{
    if i < j {
        lemma_crlf_from_at(s, i + 1, j);
    }
}

proof fn lemma_line(s: Seq<u8>, p: int, t: Seq<u8>)
    requires
        holds_at(s, p, t + crlf()),
        no_crlf(t),
    ensures
        line(s, p) == Outcome::Done(t, (p + t.len() + 2) as nat),
{
    let n = t.len() as int;
    lemma_holds_split(s, p, t, crlf());
    lemma_holds_index(s, p + n, crlf(), 0);
    lemma_holds_index(s, p + n, crlf(), 1);
    assert forall|m: int| p <= m < p + n implies !crlf_at(s, m) by {
        lemma_holds_index(s, p, t, m - p);
        if m + 1 < p + n {
            lemma_holds_index(s, p, t, m + 1 - p);
            let i = m - p;
            assert(!(t[i] == 13u8 && t[i + 1] == 10u8));
        }
    }
    lemma_crlf_from_at(s, p, p + n);
}

proof fn lemma_payload(s: Seq<u8>, p: int, data: Seq<u8>)
    requires
        holds_at(s, p, data + crlf()),
    ensures
        payload(s, p, data.len() as int) == Outcome::Done(data, (p + data.len() + 2) as nat),
{
    lemma_holds_split(s, p, data, crlf());
    lemma_holds_index(s, p + data.len(), crlf(), 0);
    lemma_holds_index(s, p + data.len(), crlf(), 1);
}

// --------------------------------------------------------- number lemmas

proof fn lemma_dec(n: nat)
    ensures
        dec(n).len() >= 1,
        all_digits(dec(n)),
        digits_value(dec(n)) == n,
        no_crlf(dec(n)),
    decreases n,
{
    if n >= 10 {
        lemma_dec(n / 10);
        let d = dec(n);
        assert(d.drop_last() =~= dec(n / 10));
        assert(d.last() == (48 + n % 10) as u8);
        assert((n / 10) * 10 + n % 10 == n);
        assert(digits_value(d) == digits_value(dec(n / 10)) * 10 + (d.last() - 48));
        assert(all_digits(d)) by {
            assert forall|i: int| 0 <= i < d.len() implies is_digit(#[trigger] d[i]) by {
                if i < d.len() - 1 {
                    assert(d[i] == dec(n / 10)[i]);
                }
            }
        }
    } else {
        let d = dec(n);
        assert(d.drop_last() =~= Seq::<u8>::empty());
        assert(digits_value(Seq::<u8>::empty()) == 0);
        assert(digits_value(d) == digits_value(d.drop_last()) * 10 + (d.last() - 48));
    }
}

proof fn lemma_dec_unsigned(n: nat)
    ensures
        unsigned_text(dec(n)) == Some(n as int),
        dec(n) != seq![63u8],
        dec(n)[0] != 45u8,
{
    lemma_dec(n);
    assert(is_digit(dec(n)[0]));
}

pub(crate) proof fn lemma_signed_dec(n: int, lo: int, hi: int)
    requires
        lo <= n <= hi,
    ensures
        signed_text(signed_dec(n), lo, hi) == Some(n),
        no_crlf(signed_dec(n)),
        signed_dec(n) != seq![63u8],
{
    if n < 0 {
        let t = signed_dec(n);
        lemma_dec((-n) as nat);
        assert(t.skip(1) =~= dec((-n) as nat));
        assert(no_crlf(t)) by {
            assert forall|i: int| 0 <= i < t.len() - 1 implies !(t[i] == 13u8 && #[trigger] t[i + 1] == 10u8) by {
                assert(t[i + 1] == dec((-n) as nat)[i]);
                assert(is_digit(dec((-n) as nat)[i]));
            }
        }
        assert(t[0] == 45u8);
    } else {
        lemma_dec_unsigned(n as nat);
        lemma_dec(n as nat);
    }
}

/// A length line of `n` at `p`, read as a length prefix.
proof fn lemma_len_line(s: Seq<u8>, p: int, prefix: u8, n: nat)
    requires
        holds_at(s, p, len_line(prefix, n)),
    ensures
        s[p] == prefix,
        line(s, p + 1) == Outcome::Done(dec(n), (p + len_line(prefix, n).len()) as nat),
        n <= usize::MAX ==> prefix_len(s, p + 1) == Outcome::Done(n as int, (p + len_line(prefix, n).len()) as nat),
        n <= isize::MAX ==> isize_text(dec(n)) == Some(n as int),
        len_line(prefix, n).len() >= 4,
{
    lemma_dec(n);
    lemma_dec_unsigned(n);
    assert(len_line(prefix, n) =~= seq![prefix] + (dec(n) + crlf()));
    lemma_holds_split(s, p, seq![prefix], dec(n) + crlf());
    lemma_holds_index(s, p, seq![prefix], 0);
    lemma_line(s, p + 1, dec(n));
    if n <= isize::MAX {
        lemma_signed_dec(n as int, isize::MIN as int, isize::MAX as int);
    }
}

// ---------------------------------------------------------- frame lemmas

/// The kind that the prefix byte of a frame's wire form names.
pub open spec fn body_kind(f: SFrame) -> FrameKind {
    match f {
        SFrame::BlobString { .. } => FrameKind::BlobString,
        SFrame::BlobError { .. } => FrameKind::BlobError,
        SFrame::SimpleString { .. } => FrameKind::SimpleString,
        SFrame::SimpleError { .. } => FrameKind::SimpleError,
        SFrame::Boolean { .. } => FrameKind::Boolean,
        SFrame::Null => FrameKind::Null,
        SFrame::Number { .. } => FrameKind::Number,
        SFrame::Double { .. } => FrameKind::Double,
        SFrame::BigNumber { .. } => FrameKind::BigNumber,
        SFrame::VerbatimString { .. } => FrameKind::VerbatimString,
        SFrame::Array { .. } => FrameKind::Array,
        SFrame::Dict { .. } => FrameKind::Dict,
        SFrame::Distinct { .. } => FrameKind::Distinct,
        SFrame::Push { .. } => FrameKind::Push,
        SFrame::Hello { .. } => FrameKind::Hello,
        SFrame::ChunkedString { .. } => FrameKind::ChunkedString,
    }
}

proof fn lemma_with_attrs(f: SFrame)
    ensures
        frame_attrs(f) matches Some(a) ==> frame_attrs(with_attrs(f, None)) == Some(
            None::<Seq<(SFrame, SFrame)>>,
        ) && with_attrs(with_attrs(f, None), a) == f,
        frame_attrs(f) is None ==> with_attrs(f, None) == f,
        frame_attrs(f) matches Some(Some(m)) ==> enc_attrs_of(f) == len_line(124u8, m.len()) + enc_pairs(m),
        !(frame_attrs(f) matches Some(Some(m))) ==> enc_attrs_of(f) == Seq::<u8>::empty(),
{
}

pub(crate) proof fn lemma_text_body(s: Seq<u8>, p: int, prefix: u8, t: Seq<u8>)
    requires
        holds_at(s, p, text_line(prefix, t)),
        no_crlf(t),
    ensures
        s[p] == prefix,
        line(s, p + 1) == Outcome::Done(t, (p + text_line(prefix, t).len()) as nat),
{
    assert(text_line(prefix, t) =~= seq![prefix] + (t + crlf()));
    lemma_holds_split(s, p, seq![prefix], t + crlf());
    lemma_holds_index(s, p, seq![prefix], 0);
    lemma_line(s, p + 1, t);
}

pub(crate) proof fn lemma_blob_body(s: Seq<u8>, p: int, prefix: u8, data: Seq<u8>)
    requires
        holds_at(s, p, blob(prefix, data)),
    ensures
        s[p] == prefix,
        line(s, p + 1) == Outcome::Done(dec(data.len()), (p + len_line(prefix, data.len()).len()) as nat),
        data.len() <= usize::MAX ==> prefix_len(s, p + 1) == Outcome::Done(
            data.len() as int,
            (p + len_line(prefix, data.len()).len()) as nat,
        ),
        data.len() <= isize::MAX ==> isize_text(dec(data.len())) == Some(data.len() as int),
        payload(s, p + len_line(prefix, data.len()).len(), data.len() as int) == Outcome::Done(
            data,
            (p + blob(prefix, data).len()) as nat,
        ),
        len_line(prefix, data.len()).len() >= 4,
{
    let h = len_line(prefix, data.len());
    assert(blob(prefix, data) =~= h + (data + crlf()));
    lemma_holds_split(s, p, h, data + crlf());
    lemma_len_line(s, p, prefix, data.len());
    lemma_payload(s, p + h.len(), data);
}

/// An aggregate's length line and then `rest`.
pub(crate) proof fn lemma_aggregate_head(s: Seq<u8>, p: int, prefix: u8, n: nat, rest: Seq<u8>)
    requires
        holds_at(s, p, len_line(prefix, n) + rest),
    ensures
        s[p] == prefix,
        line(s, p + 1) == Outcome::Done(dec(n), (p + len_line(prefix, n).len()) as nat),
        n <= usize::MAX ==> prefix_len(s, p + 1) == Outcome::Done(n as int, (p + len_line(prefix, n).len()) as nat),
        n <= isize::MAX ==> isize_text(dec(n)) == Some(n as int),
        holds_at(s, p + len_line(prefix, n).len(), rest),
        len_line(prefix, n).len() >= 4,
{
    lemma_holds_split(s, p, len_line(prefix, n), rest);
    lemma_len_line(s, p, prefix, n);
}

proof fn lemma_body_line(s: Seq<u8>, p: int, f: SFrame)
    requires
        decodable(f),
        holds_at(s, p, enc_body(f)),
        f is SimpleString || f is SimpleError || f is Boolean || f is Null || f is Number || f is Double
            || f is BigNumber,
    ensures
        kind_of_byte(s[p]) == Some(body_kind(f)),
        parse_body(s, p + 1, body_kind(f)) == Outcome::Done(
            SDecoded::Complete(with_attrs(f, None)),
            (p + enc_body(f).len()) as nat,
        ),
{
    match f {
        SFrame::SimpleString { data, attrs } => {
            lemma_text_body(s, p, 43u8, data);
        },
        SFrame::SimpleError { data, attrs } => {
            lemma_text_body(s, p, 45u8, data);
        },
        SFrame::Boolean { data, attrs } => {
            let t = if data { seq![116u8] } else { seq![102u8] };
            assert(t.len() == 1);
            lemma_text_body(s, p, 35u8, t);
        },
        SFrame::Null => {
            lemma_text_body(s, p, 95u8, seq![]);
        },
        SFrame::Number { data, attrs } => {
            lemma_signed_dec(data as int, i64::MIN as int, i64::MAX as int);
            lemma_text_body(s, p, 58u8, signed_dec(data as int));
        },
        SFrame::Double { data, attrs } => {
            lemma_text_body(s, p, 44u8, data);
        },
        SFrame::BigNumber { data, attrs } => {
            lemma_text_body(s, p, 40u8, data);
        },
        _ => {},
    }
}

proof fn lemma_body_blob(s: Seq<u8>, p: int, f: SFrame)
    requires
        decodable(f),
        holds_at(s, p, enc_body(f)),
        f is BlobString || f is BlobError || f is ChunkedString,
    ensures
        kind_of_byte(s[p]) == Some(body_kind(f)),
        parse_body(s, p + 1, body_kind(f)) == Outcome::Done(
            SDecoded::Complete(with_attrs(f, None)),
            (p + enc_body(f).len()) as nat,
        ),
{
    match f {
        SFrame::BlobString { data, attrs } => {
            lemma_blob_body(s, p, 36u8, data);
        },
        SFrame::BlobError { data, attrs } => {
            lemma_blob_body(s, p, 33u8, data);
        },
        SFrame::ChunkedString { data } => {
            if data.len() == 0 {
                assert(len_line(59u8, 0) =~= len_line(59u8, 0) + Seq::<u8>::empty());
                lemma_aggregate_head(s, p, 59u8, 0, seq![]);
                assert(seq![] =~= data);
            } else {
                lemma_blob_body(s, p, 59u8, data);
            }
        },
        _ => {},
    }
}

proof fn lemma_body_verbatim(s: Seq<u8>, p: int, data: Seq<u8>, format: VerbatimStringFormat)
    requires
        data.len() + 4 <= usize::MAX,
        holds_at(s, p, len_line(61u8, data.len() + 4) + format_bytes(format) + seq![58u8] + data + crlf()),
    ensures
        kind_of_byte(s[p]) == Some(FrameKind::VerbatimString),
        parse_body(s, p + 1, FrameKind::VerbatimString) == Outcome::Done(
            SDecoded::Complete(SFrame::VerbatimString { data, format, attrs: None }),
            (p + (len_line(61u8, data.len() + 4) + format_bytes(format) + seq![58u8] + data + crlf()).len()) as nat,
        ),
{
    let h = len_line(61u8, data.len() + 4);
    let fm = format_bytes(format) + seq![58u8];
    assert(h + format_bytes(format) + seq![58u8] + data + crlf() =~= h + (fm + (data + crlf())));
    lemma_aggregate_head(s, p, 61u8, (data.len() + 4) as nat, fm + (data + crlf()));
    let e = p + h.len();
    lemma_holds_split(s, e, fm, data + crlf());
    assert(s.subrange(e, e + 3) =~= format_bytes(format)) by {
        assert forall|i: int| 0 <= i < 3 implies s.subrange(e, e + 3)[i] == format_bytes(format)[i] by {
            lemma_holds_index(s, e, fm, i);
        }
    }
    lemma_holds_index(s, e, fm, 3);
    lemma_payload(s, e + 4, data);
    assert(verbatim(s, p + 1) == Outcome::Done(
        SDecoded::Complete(SFrame::VerbatimString { data, format, attrs: None }),
        (e + 4 + data.len() + 2) as nat,
    ));
}

proof fn lemma_no_crlf_concat(a: Seq<u8>, b: Seq<u8>)
    requires
        no_crlf(a),
        no_crlf(b),
        !(a.len() > 0 && b.len() > 0 && a.last() == 13u8 && b[0] == 10u8),
    ensures
        no_crlf(a + b),
{
    let c = a + b;
    assert forall|i: int| 0 <= i < c.len() - 1 implies !(c[i] == 13u8 && #[trigger] c[i + 1] == 10u8) by {
        if i + 1 < a.len() {
            assert(c[i] == a[i] && c[i + 1] == a[i + 1]);
        } else if i >= a.len() {
            let j = i - a.len();
            assert(c[i] == b[j] && c[i + 1] == b[j + 1]);
        } else {
            assert(c[i] == a.last() && c[i + 1] == b[0]);
        }
    }
}

proof fn lemma_space_from_none(t: Seq<u8>, i: int)
    requires
        0 <= i,
        space_from(t, i) is None,
    ensures
        forall|m: int| i <= m < t.len() ==> t[m] != 32u8,
    decreases t.len() - i,
{
    if i < t.len() {
        lemma_space_from_none(t, i + 1);
    }
}

proof fn lemma_space_from_at(t: Seq<u8>, i: int, j: int)
    requires
        0 <= i <= j < t.len(),
        t[j] == 32u8,
        forall|m: int| i <= m < j ==> t[m] != 32u8,
    ensures
        space_from(t, i) == Some(j),
    decreases j - i,
{
    if i < j {
        lemma_space_from_at(t, i + 1, j);
    }
}

proof fn lemma_body_hello(s: Seq<u8>, p: int, version: RespVersion, auth: Option<(Seq<u8>, Seq<u8>)>)
    requires
        decodable(SFrame::Hello { version, auth }),
        holds_at(s, p, hello_bytes(version, auth)),
    ensures
        kind_of_byte(s[p]) == Some(FrameKind::Hello),
        parse_body(s, p + 1, FrameKind::Hello) == Outcome::Done(
            SDecoded::Complete(SFrame::Hello { version, auth }),
            (p + hello_bytes(version, auth).len()) as nat,
        ),
{
    let head = seq![69u8, 76u8, 76u8, 79u8, 32u8, version_digit(version)];
    let rest = match auth {
        Some((u, w)) => seq![32u8, 65u8, 85u8, 84u8, 72u8, 32u8] + u + seq![32u8] + w,
        None => Seq::<u8>::empty(),
    };
    let t = head + rest;
    assert(hello_bytes(version, auth) =~= seq![72u8] + (t + crlf()));
    lemma_holds_split(s, p, seq![72u8], t + crlf());
    lemma_holds_index(s, p, seq![72u8], 0);
    assert(no_crlf(head));
    match auth {
        Some((u, w)) => {
            let kw = seq![32u8, 65u8, 85u8, 84u8, 72u8, 32u8];
            assert(no_crlf(kw));
            assert(no_crlf(seq![32u8]));
            lemma_no_crlf_concat(kw, u);
            lemma_no_crlf_concat(kw + u, seq![32u8]);
            lemma_no_crlf_concat(kw + u + seq![32u8], w);
            lemma_no_crlf_concat(head, rest);
            let c = u + seq![32u8] + w;
            assert(rest.skip(6) =~= c);
            assert(rest.take(6) =~= kw);
            lemma_space_from_none(u, 0);
            lemma_space_from_at(c, 0, u.len() as int);
            assert(c.take(u.len() as int) =~= u);
            assert(c.skip(u.len() + 1int) =~= w);
            assert(t.skip(6) =~= rest);
        },
        None => {
            assert(t =~= head);
            assert(t.skip(6) =~= Seq::<u8>::empty());
        },
    }
    lemma_line(s, p + 1, t);
}

proof fn lemma_body_len(f: SFrame)
    ensures
        enc_body(f).len() >= 3,
{
    match f {
        SFrame::Array { data, .. } => {
            assert(len_line(42u8, data.len()).len() >= 3);
        },
        SFrame::Distinct { data, .. } => {
            assert(len_line(126u8, data.len()).len() >= 3);
        },
        SFrame::Push { data, .. } => {
            assert(len_line(62u8, data.len()).len() >= 3);
        },
        SFrame::Dict { data, .. } => {
            assert(len_line(37u8, data.len()).len() >= 3);
        },
        _ => {},
    }
}

#[verifier::spinoff_prover]
#[verifier::rlimit(100)]
proof fn lemma_body(s: Seq<u8>, p: int, f: SFrame)
    requires
        decodable(f),
        holds_at(s, p, enc_body(f)),
    ensures
        kind_of_byte(s[p]) == Some(body_kind(f)),
        parse_body(s, p + 1, body_kind(f)) == Outcome::Done(
            SDecoded::Complete(with_attrs(f, None)),
            (p + enc_body(f).len()) as nat,
        ),
    decreases f, 2int,
{
    match f {
        SFrame::Array { data, attrs } => {
            let q = p + len_line(42u8, data.len()).len();
            lemma_aggregate_head(s, p, 42u8, data.len(), enc_seq(data));
            lemma_many(s, q, data);
            assert(parse_aggregate(s, p + 1, FrameKind::Array) == Outcome::Done(
                SDecoded::Complete(SFrame::Array { data, attrs: None }),
                (q + enc_seq(data).len()) as nat,
            ));
        },
        SFrame::Distinct { data, attrs } => {
            let q = p + len_line(126u8, data.len()).len();
            lemma_aggregate_head(s, p, 126u8, data.len(), enc_seq(data));
            lemma_many(s, q, data);
            assert(parse_aggregate(s, p + 1, FrameKind::Distinct) == Outcome::Done(
                SDecoded::Complete(SFrame::Distinct { data, attrs: None }),
                (q + enc_seq(data).len()) as nat,
            ));
        },
        SFrame::Push { data, attrs } => {
            let q = p + len_line(62u8, data.len()).len();
            lemma_aggregate_head(s, p, 62u8, data.len(), enc_seq(data));
            lemma_many(s, q, data);
        },
        SFrame::Dict { data, attrs } => {
            let q = p + len_line(37u8, data.len()).len();
            lemma_aggregate_head(s, p, 37u8, data.len(), enc_pairs(data));
            lemma_pairs(s, q, data);
            assert(parse_aggregate(s, p + 1, FrameKind::Dict) == Outcome::Done(
                SDecoded::Complete(SFrame::Dict { data, attrs: None }),
                (q + enc_pairs(data).len()) as nat,
            ));
        },
        SFrame::VerbatimString { data, format, attrs } => {
            lemma_body_verbatim(s, p, data, format);
        },
        SFrame::Hello { version, auth } => {
            lemma_body_hello(s, p, version, auth);
        },
        SFrame::BlobString { .. } | SFrame::BlobError { .. } | SFrame::ChunkedString { .. } => {
            lemma_body_blob(s, p, f);
        },
        _ => {
            lemma_body_line(s, p, f);
        },
    }
}

proof fn lemma_frame_attributed(s: Seq<u8>, p: int, f: SFrame, m: Seq<(SFrame, SFrame)>)
    requires
        decodable(f),
        frame_attrs(f) == Some(Some(m)),
        holds_at(s, p, len_line(124u8, m.len()) + (enc_pairs(m) + enc_body(f))),
    ensures
        parse_frame(s, p) == Outcome::Done(
            SDecoded::Complete(f),
            (p + len_line(124u8, m.len()).len() + enc_pairs(m).len() + enc_body(f).len()) as nat,
        ),
    decreases f, 3int,
{
    let b = enc_body(f);
    let h = len_line(124u8, m.len());
    lemma_with_attrs(f);
    lemma_aggregate_head(s, p, 124u8, m.len(), enc_pairs(m) + b);
    let q = p + h.len();
    lemma_holds_split(s, q, enc_pairs(m), b);
    lemma_pairs(s, q, m);
    let r = q + enc_pairs(m).len();
    lemma_body(s, r, f);
    lemma_body_len(f);
    assert(parse_attributed(s, p + 1) == Outcome::Done(SDecoded::Complete(f), (r + b.len()) as nat));
}

proof fn lemma_frame(s: Seq<u8>, p: int, f: SFrame)
    requires
        decodable(f),
        holds_at(s, p, enc_frame(f)),
    ensures
        parse_frame(s, p) == Outcome::Done(SDecoded::Complete(f), (p + enc_frame(f).len()) as nat),
        enc_frame(f).len() >= 3,
    decreases f, 4int,
{
    lemma_with_attrs(f);
    lemma_body_len(f);
    let b = enc_body(f);
    match frame_attrs(f) {
        Some(Some(m)) => {
            assert(enc_frame(f) =~= len_line(124u8, m.len()) + (enc_pairs(m) + b));
            lemma_frame_attributed(s, p, f, m);
        },
        _ => {
            assert(enc_frame(f) =~= b);
            lemma_body(s, p, f);
        },
    }
}

proof fn lemma_many(s: Seq<u8>, p: int, v: Seq<SFrame>)
    requires
        all_decodable(v),
        holds_at(s, p, enc_seq(v)),
    ensures
        parse_many(s, p, v.len()) == Outcome::Done(v, (p + enc_seq(v).len()) as nat),
    decreases v, 1int,
{
    if v.len() > 0 {
        assert(enc_seq(v) == enc_frame(v[0]) + enc_seq(v.skip(1)));
        lemma_holds_split(s, p, enc_frame(v[0]), enc_seq(v.skip(1)));
        lemma_frame(s, p, v[0]);
        assert(all_decodable(v.skip(1))) by {
            assert forall|i: int| 0 <= i < v.skip(1).len() implies decodable(#[trigger] v.skip(1)[i]) by {
                assert(v.skip(1)[i] == v[i + 1]);
            }
        }
        let e = p + enc_frame(v[0]).len();
        lemma_many(s, e, v.skip(1));
        assert(v.skip(1).len() == (v.len() - 1) as nat);
        assert(seq![v[0]] + v.skip(1) =~= v);
    } else {
        assert(v =~= Seq::<SFrame>::empty());
    }
}

proof fn lemma_pairs(s: Seq<u8>, p: int, v: Seq<(SFrame, SFrame)>)
    requires
        pairs_decodable(v),
        holds_at(s, p, enc_pairs(v)),
    ensures
        parse_pairs(s, p, v.len()) == Outcome::Done(v, (p + enc_pairs(v).len()) as nat),
    decreases v, 1int,
{
    if v.len() > 0 {
        let k = v[0].0;
        let x = v[0].1;
        assert(enc_pairs(v) =~= enc_frame(k) + (enc_frame(x) + enc_pairs(v.skip(1))));
        lemma_holds_split(s, p, enc_frame(k), enc_frame(x) + enc_pairs(v.skip(1)));
        let e1 = p + enc_frame(k).len();
        lemma_holds_split(s, e1, enc_frame(x), enc_pairs(v.skip(1)));
        let e2 = e1 + enc_frame(x).len();
        lemma_frame(s, p, k);
        lemma_frame(s, e1, x);
        assert(parse_many(s, e2, 0) == Outcome::Done(Seq::<SFrame>::empty(), e2 as nat));
        assert(parse_many(s, e1, 1) == Outcome::Done(seq![x], e2 as nat)) by {
            assert(seq![x] + Seq::<SFrame>::empty() =~= seq![x]);
        }
        assert(parse_many(s, p, 2) == Outcome::Done(seq![k, x], e2 as nat)) by {
            assert(seq![k] + seq![x] =~= seq![k, x]);
        }
        assert(pairs_decodable(v.skip(1))) by {
            assert forall|i: int| 0 <= i < v.skip(1).len() implies decodable(#[trigger] v.skip(1)[i].0) && decodable(
                v.skip(1)[i].1,
            ) by {
                assert(v.skip(1)[i] == v[i + 1]);
                assert(decodable(v[i + 1].0) && decodable(v[i + 1].1));
            }
        }
        lemma_pairs(s, e2, v.skip(1));
        assert(v.skip(1).len() == (v.len() - 1) as nat);
        assert(seq![(k, x)] + v.skip(1) =~= v);
    } else {
        assert(v =~= Seq::<(SFrame, SFrame)>::empty());
    }
}

// ------------------------------------------------------------------ laws

/// Decoding the wire form of a decodable frame, followed by any bytes,
/// gives the frame back and takes exactly the bytes that `encode` writes.
pub proof fn decode_of_encode(f: SFrame, rest: Seq<u8>)
    requires
        decodable(f),
    ensures
        parse_frame(enc_frame(f) + rest, 0) == Outcome::Done(SDecoded::Complete(f), encoded_len(f)),
        decode_complete(enc_frame(f) + rest) == Outcome::Done(f, encoded_len(f)),
{
    let s = enc_frame(f) + rest;
    assert(s.subrange(0, enc_frame(f).len() as int) =~= enc_frame(f));
    lemma_frame(s, 0, f);
}

/// Input whose first byte names no kind of frame is an error, never a
/// need for more bytes.
pub proof fn junk_prefix_fails(s: Seq<u8>)
    requires
        s.len() > 0,
        kind_of_byte(s[0]) is None,
    ensures
        parse_frame(s, 0) is Fail,
        decode_complete(s) is Fail,
{
}

proof fn lemma_body_fresh(s: Seq<u8>, p: int, k: FrameKind)
    ensures
        parse_body(s, p, k) matches Outcome::Done(SDecoded::Complete(f), _) ==> frame_attrs(f) is None || frame_attrs(
            f,
        ) == Some(None::<Seq<(SFrame, SFrame)>>),
{
    if 0 <= p <= s.len() && (k == FrameKind::Array || k == FrameKind::BlobString || k == FrameKind::Dict || k
        == FrameKind::Distinct) {
        assert(parse_body(s, p, k) == parse_aggregate(s, p, k));
        let a = parse_aggregate(s, p, k);
        assert(a matches Outcome::Done(SDecoded::Complete(f), _) ==> frame_attrs(f) is None || frame_attrs(f) == Some(
            None::<Seq<(SFrame, SFrame)>>,
        ));
    }
}

/// An attribute block (`|`, a count, the pairs) followed by a frame decodes
/// as that frame with the block, as a map, in its attributes slot; where the
/// frame has no such slot, the whole input is an error.
pub proof fn attributes_decorate_next_frame(
    s: Seq<u8>,
    n: int,
    e0: nat,
    a: Seq<(SFrame, SFrame)>,
    e1: nat,
    k: FrameKind,
    f: SFrame,
    e2: nat,
)
    requires
        s.len() > 0,
        s[0] == 124u8,
        prefix_len(s, 1) == Outcome::Done(n, e0),
        parse_pairs(s, e0 as int, n as nat) == Outcome::Done(a, e1),
        e1 < s.len(),
        kind_of_byte(s[e1 as int]) == Some(k),
        k != FrameKind::Attribute,
        parse_body(s, e1 + 1int, k) == Outcome::Done(SDecoded::Complete(f), e2),
    ensures
        frame_attrs(f) is Some ==> parse_frame(s, 0) == Outcome::Done(
            SDecoded::Complete(with_attrs(f, Some(dedup_pairs(a)))),
            e2,
        ),
        frame_attrs(f) is None ==> parse_frame(s, 0) is Fail,
{
    lemma_body_fresh(s, e1 + 1int, k);
    lemma_prefix_len_advances(s, 1);
    lemma_pairs_advance(s, e0 as int, n as nat);
}

/// An attribute block is never a frame of its own: decoding one as the
/// frame after a prefix byte fails, and so does an attribute block followed
/// directly by another.
pub proof fn attribute_never_stands_alone(s: Seq<u8>, p: int, n: int, e0: nat, a: Seq<(SFrame, SFrame)>, e1: nat)
    requires
        s.len() > 0,
        s[0] == 124u8,
        prefix_len(s, 1) == Outcome::Done(n, e0),
        parse_pairs(s, e0 as int, n as nat) == Outcome::Done(a, e1),
        e1 < s.len(),
        s[e1 as int] == 124u8,
    ensures
        parse_body(s, p, FrameKind::Attribute) is Fail,
        parse_frame(s, 0) is Fail,
{
    lemma_prefix_len_advances(s, 1);
    lemma_pairs_advance(s, e0 as int, n as nat);
}

proof fn lemma_prefix_len_advances(s: Seq<u8>, p: int)
    requires
        0 <= p,
    ensures
        prefix_len(s, p) matches Outcome::Done(_, e) ==> p + 2 <= e <= s.len(),
{
    crate::resp3::decode::lemma_line_bounds(s, p);
}

proof fn lemma_pairs_advance(s: Seq<u8>, p: int, n: nat)
    ensures
        parse_pairs(s, p, n) matches Outcome::Done(_, e) ==> p <= e,
    decreases n,
{
    if n > 0 && 0 <= p <= s.len() {
        if let Outcome::Done(kv, e) = parse_many(s, p, 2) {
            if advances(s, p, e) && kv.len() == 2 {
                lemma_pairs_advance(s, e as int, (n - 1) as nat);
            }
        }
    }
}

/// The bytes of chunks joined in order.
pub open spec fn join_chunks(chunks: Seq<Seq<u8>>) -> Seq<u8>
    decreases chunks.len(),
{
    if chunks.len() == 0 {
        seq![]
    } else {
        join_chunks(chunks.drop_last()) + chunks.last()
    }
}

/// The chunk frames that carry these bytes.
pub open spec fn chunk_frames(chunks: Seq<Seq<u8>>) -> Seq<SFrame> {
    Seq::new(chunks.len(), |i: int| SFrame::ChunkedString { data: chunks[i] })
}

proof fn lemma_chunks_concat(chunks: Seq<Seq<u8>>)
    ensures
        chunks_concat(chunk_frames(chunks)) == Some(join_chunks(chunks)),
    decreases chunks.len(),
{
    if chunks.len() > 0 {
        assert(chunk_frames(chunks).drop_last() =~= chunk_frames(chunks.drop_last()));
        lemma_chunks_concat(chunks.drop_last());
    } else {
        assert(chunk_frames(chunks) =~= Seq::<SFrame>::empty());
    }
}

/// A streamed blob reassembles into the blob string of its joined chunks,
/// the same frame that the blob's plain (unstreamed) wire form decodes to.
pub proof fn streamed_blob_matches_plain(chunks: Seq<Seq<u8>>, attrs: Option<Seq<(SFrame, SFrame)>>)
    requires
        join_chunks(chunks).len() <= isize::MAX,
        attrs_decodable(attrs),
    ensures
        reassemble(FrameKind::BlobString, chunk_frames(chunks), attrs) == Some(
            SFrame::BlobString { data: join_chunks(chunks), attrs },
        ),
        decode_complete(enc_frame(SFrame::BlobString { data: join_chunks(chunks), attrs })) == Outcome::Done(
            SFrame::BlobString { data: join_chunks(chunks), attrs },
            encoded_len(SFrame::BlobString { data: join_chunks(chunks), attrs }),
        ),
{
    lemma_chunks_concat(chunks);
    let f = SFrame::BlobString { data: join_chunks(chunks), attrs };
    decode_of_encode(f, seq![]);
    assert(enc_frame(f) + seq![] =~= enc_frame(f));
}

/// A streamed array or set reassembles into the aggregate of its children
/// (a set without repeats), the same frame that the aggregate's plain wire
/// form decodes to; a streamed map, into the map of its children taken two
/// by two.
pub proof fn streamed_aggregate_matches_plain(
    kind: FrameKind,
    children: Seq<SFrame>,
    attrs: Option<Seq<(SFrame, SFrame)>>,
)
    requires
        kind == FrameKind::Array || kind == FrameKind::Distinct || kind == FrameKind::Dict,
        all_decodable(children),
        children.len() <= isize::MAX,
        kind == FrameKind::Dict ==> children.len() % 2 == 0,
        attrs_decodable(attrs),
    ensures
        reassemble(kind, children, attrs) matches Some(f) && decode_complete(enc_frame(f)) == Outcome::Done(
            f,
            encoded_len(f),
        ),
{
    let f = reassemble(kind, children, attrs)->Some_0;
    if kind == FrameKind::Dict {
        let pv = pair_up(children);
        assert(pairs_decodable(pv)) by {
            assert forall|i: int| 0 <= i < pv.len() implies decodable(#[trigger] pv[i].0) && decodable(pv[i].1) by {
                assert(pv[i] == (children[2 * i], children[2 * i + 1]));
            }
        }
        lemma_dedup_pairs_decodable(pv);
    } else if kind == FrameKind::Distinct {
        lemma_dedup_decodable(children);
    }
    decode_of_encode(f, seq![]);
    assert(enc_frame(f) + seq![] =~= enc_frame(f));
}

// ------------------------------------------------------- partial input

/// Whether the input ends strictly inside `t`, which starts at `p`.
pub open spec fn cut_inside(s: Seq<u8>, p: int, t: Seq<u8>) -> bool {
    0 <= p <= s.len() && s.len() < p + t.len() && s.subrange(p, s.len() as int) == t.take(s.len() - p)
}

proof fn lemma_cut_split(s: Seq<u8>, p: int, a: Seq<u8>, b: Seq<u8>)
    requires
        cut_inside(s, p, a + b),
    ensures
        cut_inside(s, p, a) || (holds_at(s, p, a) && cut_inside(s, p + a.len(), b)),
{
    let k = s.len() - p;
    if k < a.len() {
        assert((a + b).take(k) =~= a.take(k));
    } else {
        assert(s.subrange(p, p + a.len()) =~= (a + b).take(k).subrange(0, a.len() as int));
        assert((a + b).take(k).subrange(0, a.len() as int) =~= a);
        assert(s.subrange(p + a.len(), s.len() as int) =~= (a + b).take(k).subrange(a.len() as int, k));
        assert((a + b).take(k).subrange(a.len() as int, k) =~= b.take(k - a.len()));
    }
}

proof fn lemma_cut_index(s: Seq<u8>, p: int, t: Seq<u8>, i: int)
    requires
        cut_inside(s, p, t),
        0 <= i < s.len() - p,
    ensures
        s[p + i] == t[i],
{
    assert(s.subrange(p, s.len() as int)[i] == s[p + i]);
    assert(t.take(s.len() - p)[i] == t[i]);
}

proof fn lemma_crlf_from_none(s: Seq<u8>, i: int)
    requires
        0 <= i,
        forall|m: int| i <= m ==> !crlf_at(s, m),
    ensures
        crlf_from(s, i) is None,
    decreases s.len() - i,
{
    if i + 1 < s.len() {
        lemma_crlf_from_none(s, i + 1);
    }
}

/// A line cut before its CR LF is complete needs more bytes.
proof fn lemma_line_cut(s: Seq<u8>, p: int, t: Seq<u8>)
    requires
        no_crlf(t),
        cut_inside(s, p, t + crlf()),
    ensures
        line(s, p) is Incomplete,
{
    let n = t.len() as int;
    let u = t + crlf();
    assert forall|m: int| p <= m implies !crlf_at(s, m) by {
        if crlf_at(s, m) {
            lemma_cut_index(s, p, u, m - p);
            lemma_cut_index(s, p, u, m + 1 - p);
            if m + 1 - p < n {
                assert(u[m - p] == t[m - p] && u[m + 1 - p] == t[m + 1 - p]);
                let i = m - p;
                assert(!(t[i] == 13u8 && t[i + 1] == 10u8));
            } else if m - p == n - 1 {
                assert(u[m + 1 - p] == 13u8);
            } else {
                assert(m - p >= n);
                assert(m + 1 - p >= n + 1);
            }
        }
    }
    lemma_crlf_from_none(s, p);
}

/// A prefix byte, a line of text and CR LF, cut inside: either nothing is
/// there, or the line needs more bytes.
proof fn lemma_head_cut(s: Seq<u8>, p: int, prefix: u8, t: Seq<u8>)
    requires
        no_crlf(t),
        cut_inside(s, p, seq![prefix] + t + crlf()),
        p < s.len(),
    ensures
        s[p] == prefix,
        line(s, p + 1) is Incomplete,
{
    assert(seq![prefix] + t + crlf() =~= seq![prefix] + (t + crlf()));
    lemma_cut_index(s, p, seq![prefix] + t + crlf(), 0);
    lemma_cut_split(s, p, seq![prefix], t + crlf());
    lemma_line_cut(s, p + 1, t);
}

/// A length line, then `rest`, cut inside: the line needs more bytes, or
/// it is complete and the cut falls in `rest`.
proof fn lemma_len_line_cut(s: Seq<u8>, p: int, prefix: u8, n: nat, rest: Seq<u8>)
    requires
        cut_inside(s, p, len_line(prefix, n) + rest),
        p < s.len(),
    ensures
        s[p] == prefix,
        line(s, p + 1) is Incomplete || (holds_at(s, p, len_line(prefix, n)) && cut_inside(
            s,
            p + len_line(prefix, n).len(),
            rest,
        )),
{
    lemma_dec(n);
    lemma_cut_split(s, p, len_line(prefix, n), rest);
    if cut_inside(s, p, len_line(prefix, n)) {
        lemma_head_cut(s, p, prefix, dec(n));
    } else {
        lemma_holds_index(s, p, len_line(prefix, n), 0);
    }
}

proof fn lemma_body_cut_line(s: Seq<u8>, p: int, f: SFrame)
    requires
        decodable(f),
        cut_inside(s, p, enc_body(f)),
        p < s.len(),
        f is SimpleString || f is SimpleError || f is Boolean || f is Null || f is Number || f is Double
            || f is BigNumber || f is Hello,
    ensures
        kind_of_byte(s[p]) == Some(body_kind(f)),
        parse_body(s, p + 1, body_kind(f)) is Incomplete,
{
    match f {
        SFrame::SimpleString { data, .. } => lemma_head_cut(s, p, 43u8, data),
        SFrame::SimpleError { data, .. } => lemma_head_cut(s, p, 45u8, data),
        SFrame::Boolean { data, .. } => lemma_head_cut(s, p, 35u8, if data { seq![116u8] } else { seq![102u8] }),
        SFrame::Null => lemma_head_cut(s, p, 95u8, seq![]),
        SFrame::Number { data, .. } => {
            lemma_signed_dec(data as int, i64::MIN as int, i64::MAX as int);
            lemma_head_cut(s, p, 58u8, signed_dec(data as int));
        },
        SFrame::Double { data, .. } => lemma_head_cut(s, p, 44u8, data),
        SFrame::BigNumber { data, .. } => lemma_head_cut(s, p, 40u8, data),
        SFrame::Hello { version, auth } => {
            let head = seq![69u8, 76u8, 76u8, 79u8, 32u8, version_digit(version)];
            let rest = match auth {
                Some((u, w)) => seq![32u8, 65u8, 85u8, 84u8, 72u8, 32u8] + u + seq![32u8] + w,
                None => Seq::<u8>::empty(),
            };
            let t = head + rest;
            assert(hello_bytes(version, auth) =~= seq![72u8] + t + crlf());
            assert(no_crlf(head));
            if let Some((u, w)) = auth {
                let kw = seq![32u8, 65u8, 85u8, 84u8, 72u8, 32u8];
                assert(no_crlf(kw));
                assert(no_crlf(seq![32u8]));
                lemma_no_crlf_concat(kw, u);
                lemma_no_crlf_concat(kw + u, seq![32u8]);
                lemma_no_crlf_concat(kw + u + seq![32u8], w);
                lemma_no_crlf_concat(head, rest);
            } else {
                assert(t =~= head);
            }
            lemma_head_cut(s, p, 72u8, t);
        },
        _ => {},
    }
}

proof fn lemma_body_cut_blob(s: Seq<u8>, p: int, f: SFrame)
    requires
        decodable(f),
        cut_inside(s, p, enc_body(f)),
        p < s.len(),
        f is BlobString || f is BlobError || f is ChunkedString || f is VerbatimString,
    ensures
        kind_of_byte(s[p]) == Some(body_kind(f)),
        parse_body(s, p + 1, body_kind(f)) is Incomplete,
{
    match f {
        SFrame::BlobString { data, .. } => {
            assert(blob(36u8, data) =~= len_line(36u8, data.len()) + (data + crlf()));
            lemma_len_line_cut(s, p, 36u8, data.len(), data + crlf());
            if !(line(s, p + 1) is Incomplete) {
                lemma_len_line(s, p, 36u8, data.len());
            }
        },
        SFrame::BlobError { data, .. } => {
            assert(blob(33u8, data) =~= len_line(33u8, data.len()) + (data + crlf()));
            lemma_len_line_cut(s, p, 33u8, data.len(), data + crlf());
            if !(line(s, p + 1) is Incomplete) {
                lemma_len_line(s, p, 33u8, data.len());
            }
        },
        SFrame::ChunkedString { data } => {
            if data.len() == 0 {
                assert(len_line(59u8, 0) =~= len_line(59u8, 0) + Seq::<u8>::empty());
                lemma_len_line_cut(s, p, 59u8, 0, Seq::<u8>::empty());
            } else {
                assert(blob(59u8, data) =~= len_line(59u8, data.len()) + (data + crlf()));
                lemma_len_line_cut(s, p, 59u8, data.len(), data + crlf());
                if !(line(s, p + 1) is Incomplete) {
                    lemma_len_line(s, p, 59u8, data.len());
                }
            }
        },
        SFrame::VerbatimString { data, format, .. } => {
            let h = len_line(61u8, data.len() + 4);
            let fm = format_bytes(format) + seq![58u8];
            assert(enc_body(f) =~= h + (fm + (data + crlf())));
            lemma_len_line_cut(s, p, 61u8, (data.len() + 4) as nat, fm + (data + crlf()));
            if !(line(s, p + 1) is Incomplete) {
                lemma_len_line(s, p, 61u8, (data.len() + 4) as nat);
                let e = p + h.len();
                if e + 4 <= s.len() {
                    lemma_cut_split(s, e, fm, data + crlf());
                    assert(s.subrange(e, e + 3) =~= format_bytes(format)) by {
                        assert forall|i: int| 0 <= i < 3 implies s.subrange(e, e + 3)[i] == format_bytes(format)[i] by {
                            lemma_holds_index(s, e, fm, i);
                        }
                    }
                    lemma_holds_index(s, e, fm, 3);
                }
            }
        },
        _ => {},
    }
}

#[verifier::spinoff_prover]
#[verifier::rlimit(100)]
proof fn lemma_body_cut(s: Seq<u8>, p: int, f: SFrame)
    requires
        decodable(f),
        cut_inside(s, p, enc_body(f)),
        p < s.len(),
    ensures
        kind_of_byte(s[p]) == Some(body_kind(f)),
        parse_body(s, p + 1, body_kind(f)) is Incomplete,
    decreases f, 2int,
{
    match f {
        SFrame::Array { data, .. } => {
            lemma_len_line_cut(s, p, 42u8, data.len(), enc_seq(data));
            if !(line(s, p + 1) is Incomplete) {
                lemma_len_line(s, p, 42u8, data.len());
                lemma_many_cut(s, p + len_line(42u8, data.len()).len(), data);
            }
            assert(parse_aggregate(s, p + 1, FrameKind::Array) is Incomplete);
        },
        SFrame::Distinct { data, .. } => {
            lemma_len_line_cut(s, p, 126u8, data.len(), enc_seq(data));
            if !(line(s, p + 1) is Incomplete) {
                lemma_len_line(s, p, 126u8, data.len());
                lemma_many_cut(s, p + len_line(126u8, data.len()).len(), data);
            }
            assert(parse_aggregate(s, p + 1, FrameKind::Distinct) is Incomplete);
        },
        SFrame::Push { data, .. } => {
            lemma_len_line_cut(s, p, 62u8, data.len(), enc_seq(data));
            if !(line(s, p + 1) is Incomplete) {
                lemma_len_line(s, p, 62u8, data.len());
                lemma_many_cut(s, p + len_line(62u8, data.len()).len(), data);
            }
        },
        SFrame::Dict { data, .. } => {
            lemma_len_line_cut(s, p, 37u8, data.len(), enc_pairs(data));
            if !(line(s, p + 1) is Incomplete) {
                lemma_len_line(s, p, 37u8, data.len());
                lemma_pairs_cut(s, p + len_line(37u8, data.len()).len(), data);
            }
            assert(parse_aggregate(s, p + 1, FrameKind::Dict) is Incomplete);
        },
        SFrame::BlobString { .. } | SFrame::BlobError { .. } | SFrame::ChunkedString { .. }
        | SFrame::VerbatimString { .. } => {
            lemma_body_cut_blob(s, p, f);
        },
        _ => {
            lemma_body_cut_line(s, p, f);
        },
    }
}

proof fn lemma_frame_cut(s: Seq<u8>, p: int, f: SFrame)
    requires
        decodable(f),
        cut_inside(s, p, enc_frame(f)),
    ensures
        parse_frame(s, p) is Incomplete,
    decreases f, 4int,
{
    if p < s.len() {
        lemma_with_attrs(f);
        let b = enc_body(f);
        match frame_attrs(f) {
            Some(Some(m)) => {
                let h = len_line(124u8, m.len());
                assert(enc_frame(f) =~= h + (enc_pairs(m) + b));
                lemma_len_line_cut(s, p, 124u8, m.len(), enc_pairs(m) + b);
                if !(line(s, p + 1) is Incomplete) {
                    lemma_len_line(s, p, 124u8, m.len());
                    let q = p + h.len();
                    lemma_cut_split(s, q, enc_pairs(m), b);
                    if cut_inside(s, q, enc_pairs(m)) {
                        lemma_pairs_cut(s, q, m);
                    } else {
                        lemma_pairs(s, q, m);
                        let r = q + enc_pairs(m).len();
                        if r < s.len() {
                            lemma_body_cut(s, r, f);
                        }
                    }
                }
                assert(parse_attributed(s, p + 1) is Incomplete);
            },
            _ => {
                assert(enc_frame(f) =~= b);
                lemma_body_cut(s, p, f);
            },
        }
    }
}

proof fn lemma_many_cut(s: Seq<u8>, p: int, v: Seq<SFrame>)
    requires
        all_decodable(v),
        cut_inside(s, p, enc_seq(v)),
    ensures
        parse_many(s, p, v.len()) is Incomplete,
    decreases v, 1int,
{
    if v.len() > 0 {
        assert(enc_seq(v) == enc_frame(v[0]) + enc_seq(v.skip(1)));
        lemma_cut_split(s, p, enc_frame(v[0]), enc_seq(v.skip(1)));
        if cut_inside(s, p, enc_frame(v[0])) {
            lemma_frame_cut(s, p, v[0]);
        } else {
            lemma_frame(s, p, v[0]);
            assert(all_decodable(v.skip(1))) by {
                assert forall|i: int| 0 <= i < v.skip(1).len() implies decodable(#[trigger] v.skip(1)[i]) by {
                    assert(v.skip(1)[i] == v[i + 1]);
                }
            }
            lemma_many_cut(s, p + enc_frame(v[0]).len(), v.skip(1));
            assert(v.skip(1).len() == (v.len() - 1) as nat);
        }
    }
}

proof fn lemma_pairs_cut(s: Seq<u8>, p: int, v: Seq<(SFrame, SFrame)>)
    requires
        pairs_decodable(v),
        cut_inside(s, p, enc_pairs(v)),
    ensures
        parse_pairs(s, p, v.len()) is Incomplete,
    decreases v, 1int,
{
    if v.len() > 0 {
        let k = v[0].0;
        let x = v[0].1;
        assert(enc_pairs(v) =~= enc_frame(k) + (enc_frame(x) + enc_pairs(v.skip(1))));
        lemma_cut_split(s, p, enc_frame(k), enc_frame(x) + enc_pairs(v.skip(1)));
        if cut_inside(s, p, enc_frame(k)) {
            lemma_frame_cut(s, p, k);
            assert(parse_many(s, p, 2) is Incomplete);
        } else {
            lemma_frame(s, p, k);
            let e1 = p + enc_frame(k).len();
            lemma_cut_split(s, e1, enc_frame(x), enc_pairs(v.skip(1)));
            if cut_inside(s, e1, enc_frame(x)) {
                lemma_frame_cut(s, e1, x);
                assert(parse_many(s, e1, 1) is Incomplete);
                assert(parse_many(s, p, 2) is Incomplete);
            } else {
                lemma_frame(s, e1, x);
                let e2 = e1 + enc_frame(x).len();
                assert(parse_many(s, e2, 0) == Outcome::Done(Seq::<SFrame>::empty(), e2 as nat));
                assert(parse_many(s, e1, 1) == Outcome::Done(seq![x], e2 as nat)) by {
                    assert(seq![x] + Seq::<SFrame>::empty() =~= seq![x]);
                }
                assert(parse_many(s, p, 2) == Outcome::Done(seq![k, x], e2 as nat)) by {
                    assert(seq![k] + seq![x] =~= seq![k, x]);
                }
                assert(pairs_decodable(v.skip(1))) by {
                    assert forall|i: int| 0 <= i < v.skip(1).len() implies decodable(#[trigger] v.skip(1)[i].0)
                        && decodable(v.skip(1)[i].1) by {
                        assert(v.skip(1)[i] == v[i + 1]);
                        assert(decodable(v[i + 1].0) && decodable(v[i + 1].1));
                    }
                }
                lemma_pairs_cut(s, e2, v.skip(1));
                assert(v.skip(1).len() == (v.len() - 1) as nat);
            }
        }
    }
}

/// Every proper prefix of the wire form of a decodable frame needs more
/// bytes: the decoder reports neither a frame nor an error on it.
pub proof fn partial_input_is_incomplete(f: SFrame, k: int)
    requires
        decodable(f),
        0 <= k < encoded_len(f),
    ensures
        parse_frame(enc_frame(f).take(k), 0) is Incomplete,
        decode_complete(enc_frame(f).take(k)) is Incomplete,
{
    let s = enc_frame(f).take(k);
    assert(s.subrange(0, s.len() as int) =~= enc_frame(f).take(s.len() - 0));
    lemma_frame_cut(s, 0, f);
}

// ------------------------------------------------------ repeats removed

/// Whether no frame occurs twice.
pub open spec fn no_repeats(t: Seq<SFrame>) -> bool {
    forall|i: int, j: int| 0 <= i < j < t.len() ==> t[i] != t[j]
}

/// Whether no key occurs twice.
pub open spec fn unique_keys(t: Seq<(SFrame, SFrame)>) -> bool {
    forall|i: int, j: int| 0 <= i < j < t.len() ==> t[i].0 != t[j].0
}

proof fn lemma_dedup(s: Seq<SFrame>)
    ensures
        no_repeats(dedup(s)),
        dedup(s).len() <= s.len(),
        forall|i: int| 0 <= i < dedup(s).len() ==> s.contains(#[trigger] dedup(s)[i]),
    decreases s.len(),
{
    if s.len() > 0 {
        let t = s.drop_last();
        lemma_dedup(t);
        let d = dedup(t);
        assert forall|i: int| 0 <= i < dedup(s).len() implies s.contains(#[trigger] dedup(s)[i]) by {
            if i < d.len() {
                assert(t.contains(d[i]));
                let j = choose|j: int| 0 <= j < t.len() && t[j] == d[i];
                assert(s[j] == d[i]);
            } else {
                assert(dedup(s)[i] == s[s.len() - 1]);
            }
        }
    }
}

proof fn lemma_dedup_of_distinct(t: Seq<SFrame>)
    requires
        no_repeats(t),
    ensures
        dedup(t) == t,
    decreases t.len(),
{
    if t.len() > 0 {
        let u = t.drop_last();
        assert(no_repeats(u));
        lemma_dedup_of_distinct(u);
        assert(!u.contains(t.last())) by {
            if u.contains(t.last()) {
                let j = choose|j: int| 0 <= j < u.len() && u[j] == t.last();
                assert(t[j] == t[t.len() - 1]);
            }
        }
        assert(u.push(t.last()) =~= t);
    }
}

proof fn lemma_key_from(m: Seq<(SFrame, SFrame)>, k: SFrame, i: int)
    requires
        0 <= i,
    ensures
        key_from(m, k, i) matches Some(j) ==> i <= j < m.len() && m[j].0 == k,
        key_from(m, k, i) is None ==> forall|j: int| i <= j < m.len() ==> m[j].0 != k,
    decreases m.len() - i,
{
    if i < m.len() && m[i].0 != k {
        lemma_key_from(m, k, i + 1);
    }
}

proof fn lemma_key_from_absent(m: Seq<(SFrame, SFrame)>, k: SFrame, i: int)
    requires
        0 <= i,
        forall|j: int| i <= j < m.len() ==> m[j].0 != k,
    ensures
        key_from(m, k, i) is None,
    decreases m.len() - i,
{
    if i < m.len() {
        lemma_key_from_absent(m, k, i + 1);
    }
}

proof fn lemma_dedup_pairs(s: Seq<(SFrame, SFrame)>)
    ensures
        unique_keys(dedup_pairs(s)),
        dedup_pairs(s).len() <= s.len(),
        forall|i: int|
            0 <= i < dedup_pairs(s).len() ==> (exists|j: int| 0 <= j < s.len() && s[j].0 == #[trigger] dedup_pairs(s)[i].0)
                && (exists|j: int| 0 <= j < s.len() && s[j].1 == dedup_pairs(s)[i].1),
    decreases s.len(),
{
    if s.len() > 0 {
        let t = s.drop_last();
        lemma_dedup_pairs(t);
        let d = dedup_pairs(t);
        let kv = s.last();
        lemma_key_from(d, kv.0, 0);
        let r = dedup_pairs(s);
        assert forall|i: int|
            0 <= i < r.len() implies (exists|j: int| 0 <= j < s.len() && s[j].0 == #[trigger] r[i].0) && (exists|j: int|
            0 <= j < s.len() && s[j].1 == r[i].1) by {
            if i < d.len() && r[i] == d[i] {
                let j0 = choose|j: int| 0 <= j < t.len() && t[j].0 == d[i].0;
                let j1 = choose|j: int| 0 <= j < t.len() && t[j].1 == d[i].1;
                assert(s[j0] == t[j0] && s[j1] == t[j1]);
            } else {
                assert(r[i] == kv);
                assert(s[s.len() - 1] == kv);
            }
        }
        assert(unique_keys(r)) by {
            assert forall|i: int, j: int| 0 <= i < j < r.len() implies r[i].0 != r[j].0 by {
                match key_from(d, kv.0, 0) {
                    Some(q) => {
                        assert(r[i].0 == d[i].0 && r[j].0 == d[j].0);
                    },
                    None => {
                        if j < d.len() {
                            assert(r[i] == d[i] && r[j] == d[j]);
                        } else {
                            assert(r[j] == kv);
                            assert(r[i] == d[i]);
                        }
                    },
                }
            }
        }
    }
}

proof fn lemma_dedup_pairs_of_unique(t: Seq<(SFrame, SFrame)>)
    requires
        unique_keys(t),
    ensures
        dedup_pairs(t) == t,
    decreases t.len(),
{
    if t.len() > 0 {
        let u = t.drop_last();
        assert(unique_keys(u));
        lemma_dedup_pairs_of_unique(u);
        assert forall|j: int| 0 <= j < u.len() implies u[j].0 != t.last().0 by {
            assert(t[j].0 != t[t.len() - 1].0);
        }
        lemma_key_from_absent(u, t.last().0, 0);
        assert(u.push(t.last()) =~= t);
    }
}

// ------------------------------------------------ decoded frames qualify

proof fn lemma_crlf_from_first(s: Seq<u8>, i: int)
    requires
        0 <= i,
    ensures
        crlf_from(s, i) matches Some(j) ==> i <= j && crlf_at(s, j) && forall|m: int| i <= m < j ==> !crlf_at(s, m),
    decreases s.len() - i,
{
    if !(i + 1 >= s.len()) && !crlf_at(s, i) {
        lemma_crlf_from_first(s, i + 1);
    }
}

proof fn lemma_line_text(s: Seq<u8>, p: int)
    requires
        0 <= p,
    ensures
        line(s, p) matches Outcome::Done(t, e) ==> no_crlf(t) && e == p + t.len() + 2 && e <= s.len(),
{
    lemma_crlf_from_first(s, p);
    if let Outcome::Done(t, e) = line(s, p) {
        let i = crlf_from(s, p)->Some_0;
        assert forall|j: int| 0 <= j < t.len() - 1 implies !(t[j] == 13u8 && #[trigger] t[j + 1] == 10u8) by {
            assert(t[j] == s[p + j] && t[j + 1] == s[p + j + 1]);
            assert(!crlf_at(s, p + j));
        }
    }
}

proof fn lemma_no_crlf_sub(t: Seq<u8>, a: int, b: int)
    requires
        no_crlf(t),
        0 <= a <= b <= t.len(),
    ensures
        no_crlf(t.subrange(a, b)),
{
    let u = t.subrange(a, b);
    assert forall|j: int| 0 <= j < u.len() - 1 implies !(u[j] == 13u8 && #[trigger] u[j + 1] == 10u8) by {
        assert(u[j] == t[a + j] && u[j + 1] == t[a + j + 1]);
        let k = a + j;
        assert(!(t[k] == 13u8 && t[k + 1] == 10u8));
    }
}

proof fn lemma_space_from_first(t: Seq<u8>, i: int)
    requires
        0 <= i,
    ensures
        space_from(t, i) matches Some(j) ==> i <= j < t.len() && t[j] == 32u8 && forall|m: int| i <= m < j ==> t[m] != 32u8,
    decreases t.len() - i,
{
    if i < t.len() && t[i] != 32u8 {
        lemma_space_from_first(t, i + 1);
    }
}

proof fn lemma_space_from_absent(t: Seq<u8>, i: int)
    requires
        0 <= i,
        forall|m: int| i <= m < t.len() ==> t[m] != 32u8,
    ensures
        space_from(t, i) is None,
    decreases t.len() - i,
{
    if i < t.len() {
        lemma_space_from_absent(t, i + 1);
    }
}

proof fn lemma_decodable_with_attrs(g: SFrame, x: Option<Seq<(SFrame, SFrame)>>)
    requires
        decodable(g),
        frame_attrs(g) is Some,
        attrs_decodable(x),
    ensures
        decodable(with_attrs(g, x)),
{
}

proof fn lemma_decoded_line(s: Seq<u8>, p: int, k: FrameKind)
    requires
        0 <= p <= s.len(),
        k == FrameKind::SimpleString || k == FrameKind::SimpleError || k == FrameKind::Number || k == FrameKind::Null
            || k == FrameKind::Double || k == FrameKind::Boolean || k == FrameKind::BigNumber || k
            == FrameKind::EndStream || k == FrameKind::BlobError || k == FrameKind::VerbatimString || k
            == FrameKind::ChunkedString || k == FrameKind::Hello,
    ensures
        parse_body(s, p, k) matches Outcome::Done(SDecoded::Complete(f), _) ==> decodable(f),
{
    lemma_line_text(s, p);
    if k == FrameKind::BlobError || k == FrameKind::ChunkedString || k == FrameKind::VerbatimString {
        if let Outcome::Done(n, e) = prefix_len(s, p) {
            assert(n <= usize::MAX);
            if let Outcome::Done(t, _) = line(s, p) {
                crate::resp3::decode::lemma_unsigned_nonneg(t);
            }
            if k == FrameKind::VerbatimString && e + 4 <= s.len() && n >= 4 {
                if let Outcome::Done(d, e2) = payload(s, e + 4int, n - 4) {
                    assert(d.len() == n - 4);
                }
            }
            if let Outcome::Done(d, e2) = payload(s, e as int, n) {
                assert(d.len() == n);
            }
        }
        assert(parse_body(s, p, k) matches Outcome::Done(SDecoded::Complete(f), _) ==> decodable(f));
    } else if k == FrameKind::Hello {
        if let Outcome::Done(t, e) = line(s, p) {
            if t.len() >= 6 {
                let r = t.skip(6);
                let c = r.skip(6);
                lemma_space_from_first(c, 0);
                if r.len() >= 6 {
                    assert(c =~= t.subrange(12, t.len() as int));
                    lemma_no_crlf_sub(t, 12, t.len() as int);
                    if let Some(i) = space_from(c, 0) {
                        lemma_no_crlf_sub(c, 0, i);
                        lemma_no_crlf_sub(c, i + 1, c.len() as int);
                        assert(c.take(i) =~= c.subrange(0, i));
                        assert(c.skip(i + 1) =~= c.subrange(i + 1, c.len() as int));
                        assert forall|m: int| 0 <= m < c.take(i).len() implies c.take(i)[m] != 32u8 by {
                            assert(c.take(i)[m] == c[m]);
                        }
                        lemma_space_from_absent(c.take(i), 0);
                    }
                }
            }
        }
        assert(parse_body(s, p, k) matches Outcome::Done(SDecoded::Complete(f), _) ==> decodable(f));
    } else {
        assert(parse_body(s, p, k) matches Outcome::Done(SDecoded::Complete(f), _) ==> decodable(f));
    }
}

proof fn lemma_dedup_decodable(v: Seq<SFrame>)
    requires
        all_decodable(v),
    ensures
        all_decodable(dedup(v)),
        dedup(dedup(v)) == dedup(v),
        dedup(v).len() <= v.len(),
{
    lemma_dedup(v);
    lemma_dedup_of_distinct(dedup(v));
    assert forall|i: int| 0 <= i < dedup(v).len() implies decodable(#[trigger] dedup(v)[i]) by {
        assert(v.contains(dedup(v)[i]));
        let j = choose|j: int| 0 <= j < v.len() && v[j] == dedup(v)[i];
        assert(decodable(v[j]));
    }
}

proof fn lemma_dedup_pairs_decodable(v: Seq<(SFrame, SFrame)>)
    requires
        pairs_decodable(v),
    ensures
        pairs_decodable(dedup_pairs(v)),
        dedup_pairs(dedup_pairs(v)) == dedup_pairs(v),
        dedup_pairs(v).len() <= v.len(),
{
    lemma_dedup_pairs(v);
    lemma_dedup_pairs_of_unique(dedup_pairs(v));
    let d = dedup_pairs(v);
    assert forall|i: int| 0 <= i < d.len() implies decodable(#[trigger] d[i].0) && decodable(d[i].1) by {
        assert(exists|j: int| 0 <= j < v.len() && v[j].0 == d[i].0);
        assert(exists|j: int| 0 <= j < v.len() && v[j].1 == d[i].1);
        let j0 = choose|j: int| 0 <= j < v.len() && v[j].0 == d[i].0;
        let j1 = choose|j: int| 0 <= j < v.len() && v[j].1 == d[i].1;
        assert(decodable(v[j0].0));
        assert(decodable(v[j1].0) && decodable(v[j1].1));
    }
}

proof fn lemma_decoded_frame(s: Seq<u8>, p: int)
    requires
        0 <= p,
    ensures
        parse_frame(s, p) matches Outcome::Done(SDecoded::Complete(f), _) ==> decodable(f),
    decreases s.len() - p, 1int, 0int,
{
    if p < s.len() {
        match kind_of_byte(s[p]) {
            Some(FrameKind::Attribute) => lemma_decoded_attributed(s, p + 1),
            Some(k) => lemma_decoded_body(s, p + 1, k),
            None => {},
        }
    }
}

proof fn lemma_decoded_attributed(s: Seq<u8>, p: int)
    requires
        0 <= p,
    ensures
        parse_attributed(s, p) matches Outcome::Done(SDecoded::Complete(f), _) ==> decodable(f),
    decreases s.len() - p, 0int, 0int,
{
    if p <= s.len() {
        if let Outcome::Done(t, _) = line(s, p) {
            crate::resp3::decode::lemma_unsigned_nonneg(t);
        }
        if let Outcome::Done(n, e) = prefix_len(s, p) {
            if advances(s, p, e) {
                lemma_decoded_pairs(s, e as int, n as nat);
                if let Outcome::Done(raw, e2) = parse_pairs(s, e as int, n as nat) {
                    lemma_dedup_pairs_decodable(raw);
                    if e2 < s.len() && e2 >= e {
                        if let Some(k) = kind_of_byte(s[e2 as int]) {
                            if k != FrameKind::Attribute {
                                lemma_decoded_body(s, e2 + 1int, k);
                                lemma_body_fresh(s, e2 + 1int, k);
                                if let Outcome::Done(SDecoded::Complete(g), _) = parse_body(s, e2 + 1int, k) {
                                    if frame_attrs(g) is Some {
                                        lemma_decodable_with_attrs(g, Some(dedup_pairs(raw)));
                                    }
                                }
                            }
                        }
                    }
                }
            }
        }
    }
}

proof fn lemma_decoded_body(s: Seq<u8>, p: int, k: FrameKind)
    requires
        0 <= p,
    ensures
        parse_body(s, p, k) matches Outcome::Done(SDecoded::Complete(f), _) ==> decodable(f),
    decreases s.len() - p, 1int, 0int,
{
    if p <= s.len() {
        if k == FrameKind::Array || k == FrameKind::BlobString || k == FrameKind::Dict || k == FrameKind::Distinct {
            lemma_decoded_aggregate(s, p, k);
            assert(parse_body(s, p, k) == parse_aggregate(s, p, k));
        } else if k == FrameKind::Push {
            if let Outcome::Done(t, _) = line(s, p) {
                crate::resp3::decode::lemma_unsigned_nonneg(t);
            }
            if let Outcome::Done(n, e) = prefix_len(s, p) {
                if advances(s, p, e) {
                    lemma_decoded_many(s, e as int, n as nat);
                }
            }
        } else if k != FrameKind::Attribute {
            lemma_decoded_line(s, p, k);
        }
    }
}

proof fn lemma_decoded_aggregate(s: Seq<u8>, p: int, k: FrameKind)
    requires
        0 <= p,
    ensures
        parse_aggregate(s, p, k) matches Outcome::Done(SDecoded::Complete(f), _) ==> decodable(f),
    decreases s.len() - p, 0int, 0int,
{
    if p <= s.len() {
        if let Outcome::Done(t, e) = line(s, p) {
            crate::resp3::decode::lemma_unsigned_nonneg(t);
            if let Some(n) = isize_text(t) {
                if n >= 0 && advances(s, p, e) {
                    assert(n <= isize::MAX);
                    if k == FrameKind::Dict {
                        lemma_decoded_pairs(s, e as int, n as nat);
                        if let Outcome::Done(raw, _) = parse_pairs(s, e as int, n as nat) {
                            lemma_dedup_pairs_decodable(raw);
                            assert(decodable(SFrame::Dict { data: dedup_pairs(raw), attrs: None }));
                        }
                    } else if k != FrameKind::BlobString {
                        lemma_decoded_many(s, e as int, n as nat);
                        if let Outcome::Done(v, _) = parse_many(s, e as int, n as nat) {
                            lemma_dedup_decodable(v);
                            assert(decodable(SFrame::Distinct { data: dedup(v), attrs: None }));
                            assert(decodable(SFrame::Array { data: v, attrs: None }));
                        }
                    } else {
                        if let Outcome::Done(d, _) = payload(s, e as int, n) {
                            assert(d.len() == n);
                            assert(decodable(SFrame::BlobString { data: d, attrs: None }));
                        }
                    }
                }
            }
        }
    }
}

proof fn lemma_decoded_many(s: Seq<u8>, p: int, n: nat)
    requires
        0 <= p,
    ensures
        parse_many(s, p, n) matches Outcome::Done(v, _) ==> all_decodable(v) && v.len() == n,
    decreases s.len() - p, 2int, n,
{
    if n > 0 && p <= s.len() {
        lemma_decoded_frame(s, p);
        if let Outcome::Done(SDecoded::Complete(f), e) = parse_frame(s, p) {
            if advances(s, p, e) {
                lemma_decoded_many(s, e as int, (n - 1) as nat);
                if let Outcome::Done(rest, _) = parse_many(s, e as int, (n - 1) as nat) {
                    let v = seq![f] + rest;
                    assert forall|i: int| 0 <= i < v.len() implies decodable(#[trigger] v[i]) by {
                        if i > 0 {
                            assert(v[i] == rest[i - 1]);
                        }
                    }
                }
            }
        }
    }
}

proof fn lemma_decoded_pairs(s: Seq<u8>, p: int, n: nat)
    requires
        0 <= p,
    ensures
        parse_pairs(s, p, n) matches Outcome::Done(v, _) ==> pairs_decodable(v) && v.len() == n,
    decreases s.len() - p, 3int, n,
{
    if n > 0 && p <= s.len() {
        lemma_decoded_many(s, p, 2);
        if let Outcome::Done(kv, e) = parse_many(s, p, 2) {
            if advances(s, p, e) && kv.len() == 2 {
                lemma_decoded_pairs(s, e as int, (n - 1) as nat);
                if let Outcome::Done(rest, _) = parse_pairs(s, e as int, (n - 1) as nat) {
                    let v = seq![(kv[0], kv[1])] + rest;
                    assert(decodable(kv[0]) && decodable(kv[1]));
                    assert forall|i: int| 0 <= i < v.len() implies decodable(#[trigger] v[i].0) && decodable(v[i].1) by {
                        if i > 0 {
                            assert(v[i] == rest[i - 1]);
                            assert(decodable(rest[i - 1].0) && decodable(rest[i - 1].1));
                        } else {
                            assert(v[i] == (kv[0], kv[1]));
                        }
                    }
                    assert(v.len() == n);
                }
            }
        }
    }
}

/// Every frame that the decoder produces is decodable in the sense of the
/// round-trip law: it encodes to bytes that decode back to it.
pub proof fn decoded_frames_are_decodable(s: Seq<u8>)
    ensures
        decode_complete(s) matches Outcome::Done(f, _) ==> decodable(f) && decode_complete(enc_frame(f))
            == Outcome::Done(f, encoded_len(f)),
{
    lemma_decoded_frame(s, 0);
    if let Outcome::Done(f, _) = decode_complete(s) {
        decode_of_encode(f, seq![]);
        assert(enc_frame(f) + seq![] =~= enc_frame(f));
    }
}

/// What the streaming encoder writes decodes piece by piece: the header as
/// the opening of a stream of its kind, a chunk as that chunk, and the
/// closing marker as the end-of-stream frame, whatever follows each.
#[verifier::rlimit(60)]
pub proof fn streamed_pieces_decode(kind: FrameKind, data: Seq<u8>, rest: Seq<u8>)
    requires
        streamable(kind),
        0 < data.len() <= usize::MAX,
    ensures
        parse_frame(stream_header(kind) + rest, 0) == Outcome::Done(SDecoded::Streaming(kind, None), 4),
        parse_frame(blob(59u8, data) + rest, 0) == Outcome::Done(
            SDecoded::Complete(SFrame::ChunkedString { data }),
            blob(59u8, data).len(),
        ),
        parse_frame(stream_end(kind) + rest, 0) == Outcome::Done(
            SDecoded::Complete(SFrame::ChunkedString { data: seq![] }),
            stream_end(kind).len(),
        ),
{
    let h = stream_header(kind) + rest;
    assert(h.subrange(1, 4) =~= seq![63u8] + crlf());
    assert(no_crlf(seq![63u8]));
    lemma_line(h, 1, seq![63u8]);
    assert(stream_marker(seq![63u8]));
    assert(parse_aggregate(h, 1, kind) == Outcome::Done(SDecoded::Streaming(kind, None), 4));

    let f = SFrame::ChunkedString { data };
    let c = blob(59u8, data) + rest;
    assert(enc_frame(f) =~= blob(59u8, data));
    assert(c.subrange(0, blob(59u8, data).len() as int) =~= blob(59u8, data));
    lemma_frame(c, 0, f);

    let e = stream_end(kind) + rest;
    if kind == FrameKind::BlobString {
        assert(e.subrange(0, len_line(59u8, 0).len() as int) =~= len_line(59u8, 0));
        lemma_len_line(e, 0, 59u8, 0);
    } else {
        assert(e.subrange(1, 3) =~= Seq::<u8>::empty() + crlf());
        assert(no_crlf(Seq::<u8>::empty()));
        lemma_line(e, 1, Seq::<u8>::empty());
    }
}

// ------------------------------------------------ any complete input, cut

/// What a parser gives on the input cut at `k`, given what it gives on the
/// whole input: the same value where it ends by `k`, a need for more bytes
/// where it ends later.
pub open spec fn cut_at<T>(o: Outcome<T>, k: int) -> Outcome<T> {
    match o {
        Outcome::Done(v, e) => if e <= k {
            Outcome::Done(v, e)
        } else {
            Outcome::Incomplete
        },
        Outcome::Incomplete => Outcome::Incomplete,
        Outcome::Fail => Outcome::Fail,
    }
}

proof fn lemma_crlf_from_cut(s: Seq<u8>, k: int, i: int)
    requires
        0 <= i,
        0 <= k <= s.len(),
    ensures
        crlf_from(s, i) matches Some(j) ==> (j + 2 <= k ==> crlf_from(s.take(k), i) == Some(j)) && (j + 2 > k
            ==> crlf_from(s.take(k), i) is None),
    decreases s.len() - i,
{
    let t = s.take(k);
    if i + 1 < s.len() {
        if i + 1 < k {
            assert(t[i] == s[i] && t[i + 1] == s[i + 1]);
        }
        if !crlf_at(s, i) {
            lemma_crlf_from_cut(s, k, i + 1);
        }
    }
}

proof fn lemma_line_cut_at(s: Seq<u8>, k: int, p: int)
    requires
        0 <= p <= k <= s.len(),
    ensures
        line(s, p) matches Outcome::Done(_, e) ==> e >= p + 2 && line(s.take(k), p) == cut_at(line(s, p), k),
{
    lemma_crlf_from_cut(s, k, p);
    lemma_crlf_from_first(s, p);
    if let Outcome::Done(t, e) = line(s, p) {
        let i = crlf_from(s, p)->Some_0;
        if e <= k {
            assert(s.take(k).subrange(p, i) =~= s.subrange(p, i));
        }
    }
}

proof fn lemma_payload_cut_at(s: Seq<u8>, k: int, p: int, n: int)
    requires
        0 <= p <= k <= s.len(),
        0 <= n,
    ensures
        payload(s, p, n) matches Outcome::Done(_, e) ==> e >= p + 2 && payload(s.take(k), p, n) == cut_at(
            payload(s, p, n),
            k,
        ),
{
    if p + n + 2 <= k {
        let t = s.take(k);
        assert(t[p + n] == s[p + n] && t[p + n + 1] == s[p + n + 1]);
        assert(t.subrange(p, p + n) =~= s.subrange(p, p + n));
    }
}

proof fn lemma_prefix_len_cut_at(s: Seq<u8>, k: int, p: int)
    requires
        0 <= p <= k <= s.len(),
    ensures
        prefix_len(s, p) matches Outcome::Done(n, e) ==> e >= p + 2 && n >= 0 && prefix_len(s.take(k), p) == cut_at(
            prefix_len(s, p),
            k,
        ),
{
    lemma_line_cut_at(s, k, p);
    if let Outcome::Done(t, _) = line(s, p) {
        crate::resp3::decode::lemma_unsigned_nonneg(t);
    }
}

proof fn lemma_frame_cut_at(s: Seq<u8>, k: int, p: int)
    requires
        0 <= p <= k <= s.len(),
    ensures
        parse_frame(s, p) matches Outcome::Done(_, e) ==> e > p && parse_frame(s.take(k), p) == cut_at(
            parse_frame(s, p),
            k,
        ),
    decreases s.len() - p, 1int, 0int,
{
    if p < s.len() {
        if p < k {
            assert(s.take(k)[p] == s[p]);
            match kind_of_byte(s[p]) {
                Some(FrameKind::Attribute) => lemma_attributed_cut_at(s, k, p + 1),
                Some(kind) => lemma_body_cut_at(s, k, p + 1, kind),
                None => {},
            }
        } else {
            match kind_of_byte(s[p]) {
                Some(FrameKind::Attribute) => lemma_attributed_cut_at(s, s.len() as int, p + 1),
                Some(kind) => lemma_body_cut_at(s, s.len() as int, p + 1, kind),
                None => {},
            }
        }
    }
}

proof fn lemma_attributed_cut_at(s: Seq<u8>, k: int, p: int)
    requires
        0 <= p <= k <= s.len(),
    ensures
        parse_attributed(s, p) matches Outcome::Done(_, e) ==> e > p && parse_attributed(s.take(k), p) == cut_at(
            parse_attributed(s, p),
            k,
        ),
    decreases s.len() - p, 0int, 0int,
{
    let t = s.take(k);
    lemma_prefix_len_cut_at(s, k, p);
    if let Outcome::Done(n, e) = prefix_len(s, p) {
        if advances(s, p, e) {
            if e <= k {
                lemma_pairs_cut_at(s, k, e as int, n as nat);
                if let Outcome::Done(a, e2) = parse_pairs(s, e as int, n as nat) {
                    if e2 < s.len() && e2 >= e {
                        if e2 < k {
                            assert(t[e2 as int] == s[e2 as int]);
                            if let Some(kind) = kind_of_byte(s[e2 as int]) {
                                if kind != FrameKind::Attribute {
                                    lemma_body_cut_at(s, k, e2 + 1int, kind);
                                }
                            }
                        } else {
                            if let Some(kind) = kind_of_byte(s[e2 as int]) {
                                lemma_body_cut_at(s, s.len() as int, e2 + 1int, kind);
                            }
                        }
                    }
                }
            } else {
                lemma_pairs_ends(s, e as int, n as nat);
                if let Outcome::Done(a, e2) = parse_pairs(s, e as int, n as nat) {
                    if e2 < s.len() && e2 >= e {
                        if let Some(kind) = kind_of_byte(s[e2 as int]) {
                            lemma_body_cut_at(s, s.len() as int, e2 + 1int, kind);
                        }
                    }
                }
            }
        }
    }
}

proof fn lemma_pairs_ends(s: Seq<u8>, p: int, n: nat)
    requires
        0 <= p,
    ensures
        parse_pairs(s, p, n) matches Outcome::Done(_, e) ==> e >= p,
{
    lemma_pairs_advance(s, p, n);
}

proof fn lemma_many_ends(s: Seq<u8>, p: int, n: nat)
    requires
        0 <= p,
    ensures
        parse_many(s, p, n) matches Outcome::Done(_, e) ==> e >= p,
    decreases n,
{
    if n > 0 && p <= s.len() {
        if let Outcome::Done(SDecoded::Complete(f), e) = parse_frame(s, p) {
            if advances(s, p, e) {
                lemma_many_ends(s, e as int, (n - 1) as nat);
            }
        }
    }
}

proof fn lemma_aggregate_cut_at(s: Seq<u8>, k: int, p: int, kind: FrameKind)
    requires
        0 <= p <= k <= s.len(),
    ensures
        parse_aggregate(s, p, kind) matches Outcome::Done(_, e) ==> e > p && parse_aggregate(s.take(k), p, kind)
            == cut_at(parse_aggregate(s, p, kind), k),
    decreases s.len() - p, 0int, 0int,
{
    lemma_line_cut_at(s, k, p);
    if let Outcome::Done(t, e) = line(s, p) {
        if !stream_marker(t) {
            if let Some(n) = isize_text(t) {
                if n >= 0 && advances(s, p, e) {
                    if e <= k {
                        if kind == FrameKind::BlobString {
                            lemma_payload_cut_at(s, k, e as int, n);
                        } else if kind == FrameKind::Dict {
                            lemma_pairs_cut_at(s, k, e as int, n as nat);
                        } else {
                            lemma_many_cut_at(s, k, e as int, n as nat);
                        }
                    } else {
                        lemma_pairs_ends(s, e as int, n as nat);
                        lemma_many_ends(s, e as int, n as nat);
                    }
                }
            }
        }
    }
}

proof fn lemma_body_cut_at(s: Seq<u8>, k: int, p: int, kind: FrameKind)
    requires
        0 <= p <= k <= s.len(),
    ensures
        parse_body(s, p, kind) matches Outcome::Done(_, e) ==> e > p && parse_body(s.take(k), p, kind) == cut_at(
            parse_body(s, p, kind),
            k,
        ),
    decreases s.len() - p, 1int, 0int,
{
    let t = s.take(k);
    if kind == FrameKind::Array || kind == FrameKind::BlobString || kind == FrameKind::Dict || kind
        == FrameKind::Distinct {
        lemma_aggregate_cut_at(s, k, p, kind);
        assert(parse_body(s, p, kind) == parse_aggregate(s, p, kind));
        assert(parse_body(t, p, kind) == parse_aggregate(t, p, kind));
    } else if kind == FrameKind::Push {
        lemma_prefix_len_cut_at(s, k, p);
        if let Outcome::Done(n, e) = prefix_len(s, p) {
            if advances(s, p, e) {
                if e <= k {
                    lemma_many_cut_at(s, k, e as int, n as nat);
                } else {
                    lemma_many_ends(s, e as int, n as nat);
                }
            }
        }
    } else if kind == FrameKind::BlobError || kind == FrameKind::ChunkedString {
        lemma_prefix_len_cut_at(s, k, p);
        if let Outcome::Done(n, e) = prefix_len(s, p) {
            if e <= k {
                lemma_payload_cut_at(s, k, e as int, n);
            }
        }
    } else if kind == FrameKind::VerbatimString {
        lemma_prefix_len_cut_at(s, k, p);
        if let Outcome::Done(n, e) = prefix_len(s, p) {
            if e + 4 <= k {
                assert(t.subrange(e as int, e + 3int) =~= s.subrange(e as int, e + 3int));
                assert(t[e + 3int] == s[e + 3int]);
                if n >= 4 {
                    lemma_payload_cut_at(s, k, e + 4int, n - 4);
                }
            }
        }
    } else {
        lemma_line_cut_at(s, k, p);
    }
}

proof fn lemma_many_cut_at(s: Seq<u8>, k: int, p: int, n: nat)
    requires
        0 <= p <= k <= s.len(),
    ensures
        parse_many(s, p, n) matches Outcome::Done(_, e) ==> e >= p && parse_many(s.take(k), p, n) == cut_at(
            parse_many(s, p, n),
            k,
        ),
    decreases s.len() - p, 2int, n,
{
    if n > 0 {
        lemma_frame_cut_at(s, k, p);
        if let Outcome::Done(SDecoded::Complete(f), e) = parse_frame(s, p) {
            if advances(s, p, e) {
                if e <= k {
                    lemma_many_cut_at(s, k, e as int, (n - 1) as nat);
                } else {
                    lemma_many_ends(s, e as int, (n - 1) as nat);
                }
            }
        }
    }
}

proof fn lemma_pairs_cut_at(s: Seq<u8>, k: int, p: int, n: nat)
    requires
        0 <= p <= k <= s.len(),
    ensures
        parse_pairs(s, p, n) matches Outcome::Done(_, e) ==> e >= p && parse_pairs(s.take(k), p, n) == cut_at(
            parse_pairs(s, p, n),
            k,
        ),
    decreases s.len() - p, 3int, n,
{
    if n > 0 {
        lemma_many_cut_at(s, k, p, 2);
        if let Outcome::Done(kv, e) = parse_many(s, p, 2) {
            if advances(s, p, e) && kv.len() == 2 {
                if e <= k {
                    lemma_pairs_cut_at(s, k, e as int, (n - 1) as nat);
                } else {
                    lemma_pairs_ends(s, e as int, (n - 1) as nat);
                }
            }
        }
    }
}

/// Every proper prefix of an input that decodes in full, to a frame or a
/// stream header, needs more bytes: the decoder reports neither a value nor
/// an error on it.
pub proof fn prefix_of_complete_input_is_incomplete(s: Seq<u8>, k: int)
    requires
        parse_frame(s, 0) matches Outcome::Done(_, e) && e == s.len(),
        0 <= k < s.len(),
    ensures
        parse_frame(s.take(k), 0) is Incomplete,
        decode_complete(s.take(k)) is Incomplete,
{
    lemma_frame_cut_at(s, k, 0);
}

} // verus!
