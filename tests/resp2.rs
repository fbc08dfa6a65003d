use redis_protocol::resp2::{decode, encode, encode_len, Frame};
use redis_protocol::resp3::types::{Auth, Frame as Frame3, RespVersion};
use redis_protocol::types::RedisProtocolErrorKind;
use redis_protocol::utils::{resp2_frame_to_resp3, resp3_frame_to_resp2};

fn bulk(s: &str) -> Frame {
    Frame::BulkString(s.into())
}

#[test]
fn resp2_array_with_null_scenario() {
    let bytes = b"*3\r\n$3\r\nFoo\r\n$-1\r\n$3\r\nBar\r\n";
    let (f, n) = decode(bytes).unwrap().unwrap();
    assert_eq!(f, Frame::Array(vec![bulk("Foo"), Frame::Null, bulk("Bar")]));
    assert_eq!(n, bytes.len());
}

#[test]
fn resp2_scalars() {
    assert_eq!(decode(b":48293\r\n").unwrap().unwrap(), (Frame::Integer(48293), 8));
    assert_eq!(decode(b"$3\r\nfoo\r\n").unwrap().unwrap(), (bulk("foo"), 9));
    assert_eq!(decode(b"+OK\r\n").unwrap().unwrap(), (Frame::SimpleString("OK".into()), 5));
    assert_eq!(decode(b"-ERR x\r\n").unwrap().unwrap(), (Frame::Error("ERR x".into()), 8));
    assert_eq!(decode(b"*-1\r\n").unwrap().unwrap(), (Frame::Null, 5));
    assert_eq!(decode(b"*0\r\n").unwrap().unwrap(), (Frame::Array(vec![]), 4));
}

#[test]
fn resp2_incomplete_and_errors() {
    assert_eq!(decode(b"").unwrap(), None);
    assert_eq!(decode(b"$3\r\nfo").unwrap(), None);
    assert_eq!(decode(b"*2\r\n:1\r\n").unwrap(), None);
    assert_eq!(decode(b"+OK").unwrap(), None);
    assert!(decode(b"$-2\r\n").is_err());
    assert!(decode(b"*-5\r\n").is_err());
    assert!(decode(b"$3\r\nfooXY").is_err());
    assert!(decode(b":1x\r\n").is_err());
    assert!(decode(b"_\r\n").is_err());
    assert!(decode(b"x").is_err());
    assert!(decode(b"$?\r\n").is_err());
}

#[test]
fn resp2_encode_and_round_trip() {
    let frames = vec![
        Frame::SimpleString("OK".into()),
        Frame::Error("ERR bad".into()),
        Frame::Integer(-42),
        Frame::Integer(i64::MIN),
        bulk("a\r\nb"),
        Frame::Null,
        Frame::Array(vec![bulk("Foo"), Frame::Null, Frame::Array(vec![Frame::Integer(1)])]),
    ];
    for f in &frames {
        let mut buf = Vec::new();
        let n = encode(&mut buf, f);
        assert_eq!(n, buf.len());
        assert_eq!(encode_len(f).unwrap(), n);
        buf.extend_from_slice(b"tail");
        let (g, m) = decode(&buf).unwrap().unwrap();
        assert_eq!(&g, f);
        assert_eq!(m, n);
        for k in 0..n {
            assert_eq!(decode(&buf[..k]).unwrap(), None);
        }
    }
    let mut buf = Vec::new();
    encode(&mut buf, &Frame::Null);
    assert_eq!(buf, b"$-1\r\n");
}

#[test]
fn resp2_to_resp3_conversion() {
    let f = Frame::Array(vec![
        Frame::SimpleString("a".into()),
        Frame::Error("e".into()),
        Frame::Integer(3),
        bulk("b"),
        Frame::Null,
    ]);
    let g = resp2_frame_to_resp3(f);
    assert_eq!(
        g,
        Frame3::Array {
            data: vec![
                Frame3::SimpleString { data: "a".into(), attributes: None },
                Frame3::SimpleError { data: "e".into(), attributes: None },
                Frame3::Number { data: 3, attributes: None },
                Frame3::BlobString { data: "b".into(), attributes: None },
                Frame3::Null,
            ],
            attributes: None,
        }
    );
}

#[test]
fn resp3_to_resp2_conversion() {
    let f = Frame3::Array {
        data: vec![
            Frame3::Boolean { data: true, attributes: None },
            Frame3::Boolean { data: false, attributes: None },
            Frame3::Double { data: "4.2".into(), attributes: None },
            Frame3::BlobError { data: "oops".into(), attributes: None },
            Frame3::Number { data: 7, attributes: Some(vec![]) },
        ],
        attributes: None,
    };
    assert_eq!(
        resp3_frame_to_resp2(f).unwrap(),
        Frame::Array(vec![Frame::Integer(1), Frame::Integer(0), bulk("4.2"), Frame::Error("oops".into()), Frame::Integer(7)])
    );
    let nested = Frame3::Array {
        data: vec![Frame3::Null, Frame3::Distinct { data: vec![], attributes: None }],
        attributes: None,
    };
    assert_eq!(resp3_frame_to_resp2(nested).unwrap_err().kind, RedisProtocolErrorKind::EncodeError);
    let hello = Frame3::Hello { version: RespVersion::RESP3, auth: Some(Auth { username: "u".into(), password: "p".into() }) };
    assert!(resp3_frame_to_resp2(hello).is_err());
    assert!(resp3_frame_to_resp2(Frame3::Dict { data: vec![], attributes: None }).is_err());
}
