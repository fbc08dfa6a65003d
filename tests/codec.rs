use redis_protocol::resp3::complete::decode;
use redis_protocol::resp3::decode::{
    attach_attributes, check_double, isize_to_usize, map_complete_frame, to_bool, to_hello, to_i64, to_isize,
    to_usize, to_verbatimstring_format, unwrap_complete_frame,
};
use redis_protocol::resp3::encode::{encode, encode_end_stream, encode_len, encode_start_stream, encode_stream_chunk};
use redis_protocol::resp3::streaming::decode as stream_decode;
use redis_protocol::resp3::types::{
    to_map, Auth, DecodedFrame, Frame, FrameKind, RespVersion, StreamedFrame, VerbatimStringFormat,
};
use redis_protocol::types::RedisProtocolErrorKind;
use redis_protocol::utils::{digits_in_number, hash_tag_range, redis_keyslot, slot_of_checksum, zeroed_kb};

fn number(n: i64) -> Frame {
    Frame::Number { data: n, attributes: None }
}

fn blob(s: &str) -> Frame {
    Frame::BlobString { data: s.into(), attributes: None }
}

fn simple(s: &str) -> Frame {
    Frame::SimpleString { data: s.into(), attributes: None }
}

fn round_trip(frame: &Frame) {
    let mut buf: Vec<u8> = b"xy".to_vec();
    let n = encode(&mut buf, frame);
    assert_eq!(n, buf.len() - 2);
    assert_eq!(encode_len(frame).unwrap(), n);
    let (decoded, used) = decode(&buf[2..]).unwrap().unwrap();
    assert_eq!(&decoded, frame);
    assert_eq!(used, n);
}

#[test]
fn number_scenario() {
    let (f, n) = decode(b":48293\r\n").unwrap().unwrap();
    assert_eq!(f, number(48293));
    assert_eq!(n, 8);
}

#[test]
fn blob_scenario() {
    let (f, n) = decode(b"$3\r\nfoo\r\n").unwrap().unwrap();
    assert_eq!(f, blob("foo"));
    assert_eq!(n, 9);
}

#[test]
fn verbatim_scenario() {
    let (f, n) = decode(b"=15\r\nmkd:Some string\r\n").unwrap().unwrap();
    assert_eq!(
        f,
        Frame::VerbatimString { data: "Some string".into(), format: VerbatimStringFormat::Markdown, attributes: None }
    );
    assert_eq!(n, 22);
}

#[test]
fn verbatim_too_short_or_bad_tag_fails() {
    assert!(decode(b"=3\r\ntxt\r\n").is_err());
    assert!(decode(b"=6\r\nabc:de\r\n").is_err());
    assert!(decode(b"=6\r\ntxt;de\r\n").is_err());
}

#[test]
fn streamed_blob_scenario() {
    let mut bytes: Vec<u8> = b"$?\r\n;4\r\nHell\r\n;6\r\no worl\r\n;1\r\nd\r\n;0\r\n".to_vec();
    let (header, n) = stream_decode(&bytes).unwrap().unwrap();
    assert_eq!(n, 4);
    bytes.drain(..n);
    let mut stream = header.into_streaming_frame().unwrap();
    assert_eq!(stream.kind, FrameKind::BlobString);
    let mut chunks = 0;
    while !stream.is_finished() {
        let (frame, n) = stream_decode(&bytes).unwrap().unwrap();
        bytes.drain(..n);
        let frame = frame.into_complete_frame().unwrap();
        if !frame.is_end_stream_frame() {
            chunks += 1;
        }
        stream.add_frame(frame).unwrap();
    }
    assert_eq!(chunks, 3);
    assert!(bytes.is_empty());
    assert_eq!(stream.into_frame().unwrap(), blob("Hello world"));
}

#[test]
fn outer_attributes_scenario() {
    let bytes = b"|1\r\n+key-popularity\r\n%2\r\n$1\r\na\r\n,0.1923\r\n$1\r\nb\r\n,0.0012\r\n*2\r\n:2039123\r\n:9543892\r\n";
    let (f, n) = decode(bytes).unwrap().unwrap();
    let inner = Frame::Dict {
        data: vec![
            (blob("a"), Frame::Double { data: "0.1923".into(), attributes: None }),
            (blob("b"), Frame::Double { data: "0.0012".into(), attributes: None }),
        ],
        attributes: None,
    };
    let expected = Frame::Array {
        data: vec![number(2039123), number(9543892)],
        attributes: Some(vec![(simple("key-popularity"), inner)]),
    };
    assert_eq!(f, expected);
    assert_eq!(n, bytes.len());
}

#[test]
fn keyslot_scenario() {
    assert_eq!(redis_keyslot(b"foobarbaz"), 5409);
    assert_eq!(redis_keyslot(b"foo"), 12182);
    assert_eq!(redis_keyslot(b"123456789"), 0x31C3);
    assert_eq!(redis_keyslot(b"{foo}bar"), redis_keyslot(b"foo"));
}

#[test]
fn keyslot_tag_edges() {
    assert_eq!(hash_tag_range(b"{foo}bar"), (1, 4));
    assert_eq!(hash_tag_range(b"a{}b"), (0, 4));
    assert_eq!(hash_tag_range(b"a{b"), (0, 3));
    assert_eq!(hash_tag_range(b"x{ab}{cd}"), (2, 4));
    assert_eq!(hash_tag_range(b""), (0, 0));
    assert_eq!(redis_keyslot(b"{user1000}.following"), redis_keyslot(b"user1000"));
    assert_eq!(redis_keyslot(b"a{}b"), redis_keyslot(b"a{}b"));
    assert_ne!(redis_keyslot(b"foo"), redis_keyslot(b"bar"));
    for key in [&b""[..], b"a", b"{", b"}{", b"123456789", b"{a}{b}"] {
        assert!(redis_keyslot(key) < 16384);
    }
}

#[test]
fn keyslot_of_tagged_key_law() {
    for (tag, suffix) in [("foo", "bar"), ("a", ""), ("x{y", "}z"), ("user:1", "{other}")] {
        let key = format!("{{{}}}{}", tag, suffix);
        assert_eq!(redis_keyslot(key.as_bytes()), redis_keyslot(tag.as_bytes()));
    }
}

#[test]
fn checksum_slot() {
    assert_eq!(slot_of_checksum(0xFFFF), 16383);
    assert_eq!(slot_of_checksum(16384), 0);
    assert_eq!(slot_of_checksum(0x31C3), 0x31C3);
}

#[test]
fn digit_counts() {
    assert_eq!(digits_in_number(0), 1);
    assert_eq!(digits_in_number(9), 1);
    assert_eq!(digits_in_number(10), 2);
    assert_eq!(digits_in_number(48293), 5);
    assert_eq!(digits_in_number(u64::MAX), 20);
}

#[test]
fn encode_scalars() {
    let mut buf = Vec::new();
    assert_eq!(encode(&mut buf, &number(48293)), 8);
    assert_eq!(buf, b":48293\r\n");
    let mut buf = Vec::new();
    encode(&mut buf, &number(-12));
    assert_eq!(buf, b":-12\r\n");
    let mut buf = Vec::new();
    encode(&mut buf, &blob("foo"));
    assert_eq!(buf, b"$3\r\nfoo\r\n");
    let mut buf = Vec::new();
    encode(&mut buf, &Frame::Null);
    assert_eq!(buf, b"_\r\n");
    let mut buf = Vec::new();
    encode(&mut buf, &Frame::Boolean { data: false, attributes: None });
    assert_eq!(buf, b"#f\r\n");
    let mut buf = Vec::new();
    encode(&mut buf, &Frame::new_end_stream());
    assert_eq!(buf, b";0\r\n");
}

#[test]
fn encode_len_matches_encode() {
    let frames = vec![
        number(0),
        number(i64::MIN),
        number(i64::MAX),
        blob(""),
        Frame::Null,
        Frame::Hello { version: RespVersion::RESP3, auth: None },
        Frame::ChunkedString(b"abc".to_vec()),
    ];
    for f in &frames {
        let mut buf = Vec::new();
        let n = encode(&mut buf, f);
        assert_eq!(encode_len(f).unwrap(), n);
        assert_eq!(buf.len(), n);
    }
    assert_eq!(encode_len(&number(i64::MIN)).unwrap(), 23);
}

#[test]
fn round_trips() {
    round_trip(&number(i64::MIN));
    round_trip(&number(7));
    round_trip(&Frame::SimpleError { data: "ERR bad".into(), attributes: None });
    round_trip(&Frame::BlobError { data: "a\r\nb".into(), attributes: None });
    round_trip(&Frame::Double { data: "-1.5e10".into(), attributes: None });
    round_trip(&Frame::Double { data: "inf".into(), attributes: None });
    round_trip(&Frame::BigNumber { data: "3492890328409238509324850943850943825024385".into(), attributes: None });
    round_trip(&Frame::VerbatimString { data: "x".into(), format: VerbatimStringFormat::Text, attributes: None });
    round_trip(&Frame::Hello {
        version: RespVersion::RESP2,
        auth: Some(Auth { username: "default".into(), password: "pass word".into() }),
    });
    round_trip(&Frame::Push { data: vec![simple("pubsub"), simple("message")], attributes: None });
    round_trip(&Frame::Distinct { data: vec![number(1), Frame::Null], attributes: None });
    round_trip(&Frame::Dict {
        data: vec![(simple("k"), Frame::Array { data: vec![blob("v")], attributes: None })],
        attributes: Some(vec![(simple("ttl"), number(3600))]),
    });
    round_trip(&Frame::Array {
        data: vec![Frame::Boolean { data: true, attributes: Some(vec![]) }],
        attributes: Some(vec![(blob("a"), blob("b"))]),
    });
}

#[test]
fn every_proper_prefix_is_incomplete() {
    let frame = Frame::Array {
        data: vec![number(-5), blob("hello"), Frame::Null],
        attributes: Some(vec![(simple("k"), Frame::Double { data: "1.5".into(), attributes: None })]),
    };
    let mut buf = Vec::new();
    encode(&mut buf, &frame);
    for k in 0..buf.len() {
        assert_eq!(decode(&buf[..k]).unwrap(), None, "prefix of length {}", k);
    }
    assert!(decode(&buf).unwrap().is_some());
}

#[test]
fn junk_prefix_is_an_error() {
    for junk in [&b"foobar"[..], b"x", b"\r\n", b"?3\r\n"] {
        assert!(decode(junk).is_err());
        assert!(stream_decode(junk).is_err());
    }
    assert_eq!(decode(b"").unwrap(), None);
}

#[test]
fn decode_errors() {
    assert!(decode(b"#x\r\n").is_err());
    assert!(decode(b":12a\r\n").is_err());
    assert!(decode(b":9223372036854775808\r\n").is_err());
    assert_eq!(decode(b":-9223372036854775808\r\n").unwrap().unwrap().0, number(i64::MIN));
    assert!(decode(b",nan\r\n").is_err());
    assert!(decode(b"$-2\r\n").is_err());
    assert!(decode(b"$3\r\nfooXY").is_err());
    assert!(decode(b"*1\r\n$?\r\n").is_err());
    assert!(decode(b"$?\r\n").is_err());
    assert!(decode(b"|1\r\n+a\r\n+b\r\n_\r\n").is_err());
    assert!(decode(b"|1\r\n+a\r\n+b\r\n|0\r\n_\r\n").is_err());
    assert!(decode(b"+\xff\r\n").is_err());
    let e = decode(b"!x\r\n").unwrap_err();
    assert_eq!(e.kind, RedisProtocolErrorKind::DecodeError);
}

#[test]
fn hello_frames() {
    let (f, n) = decode(b"HELLO 3\r\n").unwrap().unwrap();
    assert_eq!(f, Frame::Hello { version: RespVersion::RESP3, auth: None });
    assert_eq!(n, 9);
    let (f, _) = decode(b"HELLO 2 AUTH user secret\r\n").unwrap().unwrap();
    assert_eq!(
        f,
        Frame::Hello {
            version: RespVersion::RESP2,
            auth: Some(Auth { username: "user".into(), password: "secret".into() })
        }
    );
    assert!(decode(b"HELLO 4\r\n").is_err());
    assert!(decode(b"HELLO 3 AUTH user\r\n").is_err());
}

#[test]
fn streamed_header_with_attributes() {
    let (d, n) = stream_decode(b"|1\r\n+a\r\n:1\r\n*?\r\n").unwrap().unwrap();
    assert_eq!(n, 16);
    let stream = d.into_streaming_frame().unwrap();
    assert_eq!(stream.kind, FrameKind::Array);
    assert_eq!(stream.attributes, Some(vec![(simple("a"), number(1))]));
    assert!(stream.buffer.is_empty());
}

#[test]
fn stream_helper_rules() {
    let mut s = StreamedFrame::new(FrameKind::Dict);
    assert!(s.add_frame(simple("a")).is_ok());
    assert!(s.add_frame(number(1)).is_ok());
    assert!(s.add_frame(simple("b")).is_ok());
    assert!(s.add_frame(Frame::new_end_stream()).is_ok());
    assert!(s.add_frame(number(2)).is_err());
    assert_eq!(s.into_frame().unwrap_err().kind, RedisProtocolErrorKind::DecodeError);

    let unfinished = StreamedFrame::new(FrameKind::Array);
    assert!(unfinished.into_frame().is_err());

    let mut blobs = StreamedFrame::new(FrameKind::BlobString);
    blobs.add_frame(number(1)).unwrap();
    blobs.add_frame(Frame::new_end_stream()).unwrap();
    assert!(blobs.into_frame().is_err());

    let mut wrong = StreamedFrame::new(FrameKind::Number);
    wrong.add_frame(Frame::new_end_stream()).unwrap();
    assert!(wrong.into_frame().is_err());
}

#[test]
fn streamed_map_equals_plain_map() {
    let mut s = StreamedFrame::new(FrameKind::Dict);
    for f in [simple("a"), number(1), simple("b"), number(2), Frame::new_end_stream()] {
        s.add_frame(f).unwrap();
    }
    let plain = decode(b"%2\r\n+a\r\n:1\r\n+b\r\n:2\r\n").unwrap().unwrap().0;
    assert_eq!(s.into_frame().unwrap(), plain);
}

#[test]
fn pairs_in_order() {
    let m = to_map(vec![simple("a"), number(1), simple("b"), number(2)]).unwrap();
    assert_eq!(m, vec![(simple("a"), number(1)), (simple("b"), number(2))]);
    assert!(to_map(vec![simple("a")]).is_err());
    assert_eq!(to_map(vec![]).unwrap(), vec![]);
}

#[test]
fn token_conversions() {
    assert_eq!(to_usize(b"42").unwrap(), 42);
    assert_eq!(to_usize(b"+7").unwrap(), 7);
    assert!(to_usize(b"-1").is_err());
    assert!(to_usize(b"").is_err());
    assert!(to_usize(b"+").is_err());
    assert!(to_isize(b"?").is_err());
    assert_eq!(to_isize(b"-1").unwrap(), -1);
    assert_eq!(to_isize(b"-3").unwrap(), -3);
    assert!(to_isize(b"??").is_err());
    assert_eq!(isize_to_usize(5).unwrap(), 5);
    assert!(isize_to_usize(-1).is_err());
    assert_eq!(to_i64(b"-0").unwrap(), 0);
    assert!(to_i64(b"-").is_err());
    assert_eq!(to_bool(b"t").unwrap(), true);
    assert_eq!(to_bool(b"f").unwrap(), false);
    assert!(to_bool(b"true").is_err());
    assert_eq!(to_verbatimstring_format(b"txt").unwrap(), VerbatimStringFormat::Text);
    assert!(to_verbatimstring_format(b"TXT").is_err());
    assert!(check_double(b"4.59193"));
    assert!(check_double(b"-inf"));
    assert!(check_double(b".5"));
    assert!(check_double(b"1e-3"));
    assert!(!check_double(b"nan"));
    assert!(!check_double(b"1e"));
    assert!(!check_double(b"."));
    assert_eq!(to_hello(b'3', None).unwrap(), Frame::Hello { version: RespVersion::RESP3, auth: None });
    assert!(to_hello(3, None).is_err());
}

#[test]
fn frame_wrappers() {
    assert_eq!(map_complete_frame(number(1)), DecodedFrame::Complete(number(1)));
    assert_eq!(unwrap_complete_frame(DecodedFrame::Complete(number(1))).unwrap(), number(1));
    assert!(unwrap_complete_frame(DecodedFrame::Streaming(StreamedFrame::new(FrameKind::Array))).is_err());
    let attrs = || vec![(simple("x"), number(1))];
    let d = attach_attributes(attrs(), DecodedFrame::Complete(number(2))).unwrap();
    assert_eq!(d, DecodedFrame::Complete(Frame::Number { data: 2, attributes: Some(attrs()) }));
    assert!(attach_attributes(attrs(), DecodedFrame::Complete(Frame::Null)).is_err());
    let twice = attach_attributes(vec![(simple("y"), number(3))], d).unwrap();
    match twice {
        DecodedFrame::Complete(Frame::Number { attributes: Some(a), .. }) => assert_eq!(a.len(), 2),
        _ => panic!("attributes were not extended"),
    }
}

#[test]
fn frame_predicates() {
    let push = Frame::Push { data: vec![blob("pubsub"), simple("pmessage"), simple("p*")], attributes: None };
    assert!(push.is_pubsub_message());
    assert!(push.is_pattern_pubsub_message());
    assert!(!push.is_normal_pubsub());
    let short = Frame::Push { data: vec![simple("pubsub"), simple("message")], attributes: None };
    assert!(!short.is_pubsub_message());
    assert!(Frame::SimpleError { data: "E".into(), attributes: None }.is_error());
    assert!(!number(1).is_error());
    assert_eq!(Frame::new_end_stream().kind(), FrameKind::EndStream);
    assert_eq!(Frame::ChunkedString(b"a".to_vec()).kind(), FrameKind::ChunkedString);
    assert!(DecodedFrame::Streaming(StreamedFrame::new(FrameKind::Array)).is_streaming());
    assert_eq!(FrameKind::from_byte(b'%'), Some(FrameKind::Dict));
    assert_eq!(FrameKind::Distinct.to_byte(), b'~');
    assert_eq!(FrameKind::from_byte(b'x'), None);
}

#[test]
fn sets_and_maps_hold_no_repeats() {
    let (f, n) = decode(b"~4\r\n:1\r\n:2\r\n:1\r\n+x\r\n").unwrap().unwrap();
    assert_eq!(f, Frame::Distinct { data: vec![number(1), number(2), simple("x")], attributes: None });
    assert_eq!(n, 20);
    let (f, _) = decode(b"%3\r\n+a\r\n:1\r\n+b\r\n:2\r\n+a\r\n:3\r\n").unwrap().unwrap();
    assert_eq!(f, Frame::Dict { data: vec![(simple("a"), number(3)), (simple("b"), number(2))], attributes: None });
    assert!(decode(b"|2\r\n+k\r\n:1\r\n+k\r\n:2\r\n_\r\n").is_err());
    let (f, _) = decode(b"|2\r\n+k\r\n:1\r\n+k\r\n:2\r\n:5\r\n").unwrap().unwrap();
    assert_eq!(f, Frame::Number { data: 5, attributes: Some(vec![(simple("k"), number(2))]) });
}

#[test]
fn streamed_set_drops_repeats() {
    let mut s = StreamedFrame::new(FrameKind::Distinct);
    for f in [number(1), number(1), blob("a"), number(1), Frame::new_end_stream()] {
        s.add_frame(f).unwrap();
    }
    assert_eq!(s.into_frame().unwrap(), Frame::Distinct { data: vec![number(1), blob("a")], attributes: None });
    let m = to_map(vec![simple("k"), number(1), simple("k"), number(2)]).unwrap();
    assert_eq!(m, vec![(simple("k"), number(2))]);
}

fn reassemble(bytes: &[u8]) -> (Frame, usize) {
    let (header, mut used) = stream_decode(bytes).unwrap().unwrap();
    let mut stream = header.into_streaming_frame().unwrap();
    while !stream.is_finished() {
        let (frame, n) = stream_decode(&bytes[used..]).unwrap().unwrap();
        used += n;
        stream.add_frame(frame.into_complete_frame().unwrap()).unwrap();
    }
    (stream.into_frame().unwrap(), used)
}

#[test]
fn streaming_encoder_writes_what_the_decoder_reassembles() {
    let mut buf = Vec::new();
    assert_eq!(encode_start_stream(&mut buf, FrameKind::BlobString).unwrap(), 4);
    encode_stream_chunk(&mut buf, b"Hell").unwrap();
    encode_stream_chunk(&mut buf, b"o world").unwrap();
    assert_eq!(encode_end_stream(&mut buf, FrameKind::BlobString).unwrap(), 4);
    assert_eq!(buf, b"$?\r\n;4\r\nHell\r\n;7\r\no world\r\n;0\r\n");
    let (f, used) = reassemble(&buf);
    assert_eq!(used, buf.len());
    assert_eq!(f, decode(b"$11\r\nHello world\r\n").unwrap().unwrap().0);

    let mut buf = Vec::new();
    encode_start_stream(&mut buf, FrameKind::Array).unwrap();
    encode(&mut buf, &number(1));
    encode(&mut buf, &blob("two"));
    assert_eq!(encode_end_stream(&mut buf, FrameKind::Array).unwrap(), 3);
    let (f, _) = reassemble(&buf);
    assert_eq!(f, decode(b"*2\r\n:1\r\n$3\r\ntwo\r\n").unwrap().unwrap().0);
}

#[test]
fn streaming_encoder_rejects() {
    let mut buf = b"x".to_vec();
    assert_eq!(encode_start_stream(&mut buf, FrameKind::Number).unwrap_err().kind, RedisProtocolErrorKind::EncodeError);
    assert!(encode_end_stream(&mut buf, FrameKind::Push).is_err());
    assert!(encode_stream_chunk(&mut buf, b"").is_err());
    assert_eq!(buf, b"x");
}

#[test]
fn zeroed_kilobyte() {
    let z = zeroed_kb();
    assert_eq!(z.len(), 1024);
    assert!(z.iter().all(|b| *b == 0));
}

#[test]
fn minus_one_length_is_null() {
    assert_eq!(decode(b"$-1\r\n").unwrap().unwrap(), (Frame::Null, 5));
    assert_eq!(decode(b"*-1\r\n").unwrap().unwrap(), (Frame::Null, 5));
    assert_eq!(stream_decode(b"*-1\r\n").unwrap().unwrap(), (DecodedFrame::Complete(Frame::Null), 5));
    let (f, n) = decode(b"*3\r\n$3\r\nFoo\r\n$-1\r\n$3\r\nBar\r\n").unwrap().unwrap();
    assert_eq!(f, Frame::Array { data: vec![blob("Foo"), Frame::Null, blob("Bar")], attributes: None });
    assert_eq!(n, 27);
    assert!(decode(b"*-2\r\n").is_err());
    assert!(decode(b"$-3\r\n").is_err());
    assert!(decode(b"|1\r\n+a\r\n+b\r\n$-1\r\n").is_err());
    let (d, n) = stream_decode(b"%?\r\n").unwrap().unwrap();
    assert!(d.is_streaming());
    assert_eq!(n, 4);
}

#[test]
fn attribute_after_attribute_is_an_error() {
    assert!(decode(b"|1\r\n+a\r\n+b\r\n|1\r\n+c\r\n+d\r\n:1\r\n").is_err());
    assert!(stream_decode(b"|0\r\n|0\r\n:1\r\n").is_err());
}

#[test]
fn every_proper_prefix_of_any_complete_input_is_incomplete() {
    let inputs: [&[u8]; 4] = [b":+5\r\n", b"*2\r\n$-1\r\n:007\r\n", b"|1\r\n+a\r\n+b\r\n~?\r\n", b"HELLO 3 AUTH u p w\r\n"];
    for input in inputs {
        let (_, n) = stream_decode(input).unwrap().unwrap();
        assert_eq!(n, input.len());
        for k in 0..input.len() {
            assert_eq!(stream_decode(&input[..k]).unwrap(), None);
            assert_eq!(decode(&input[..k]).unwrap(), None);
        }
    }
}
