use redis_protocol::resp3::complete::decode;
use redis_protocol::resp3::streaming::decode as stream_decode;
use redis_protocol::resp3::types::{DecodedFrame, Frame, FrameKind, StreamedFrame, VerbatimStringFormat};
use redis_protocol::types::RedisProtocolError;

const PADDING: &str = "FOOBARBAZ";

fn pretty_print_panic(e: RedisProtocolError) {
  panic!("{:?}", e);
}

fn panic_no_decode() {
  panic!("Failed to decode bytes. None returned.")
}

fn decode_and_verify_some(bytes: &mut Vec<u8>, expected: &(Option<Frame>, usize)) {
  let (frame, len) = match decode(&bytes) {
    Ok(Some((f, l))) => (Some(f), l),
    Ok(None) => return panic_no_decode(),
    Err(e) => return pretty_print_panic(e),
  };

  assert_eq!(frame, expected.0, "decoded frame matched");
  assert_eq!(len, expected.1, "decoded frame len matched");
}

fn decode_and_verify_padded_some(bytes: &mut Vec<u8>, expected: &(Option<Frame>, usize)) {
  bytes.extend_from_slice(PADDING.as_bytes());

  let (frame, len) = match decode(&bytes) {
    Ok(Some((f, l))) => (Some(f), l),
    Ok(None) => return panic_no_decode(),
    Err(e) => return pretty_print_panic(e),
  };

  assert_eq!(frame, expected.0, "decoded frame matched");
  assert_eq!(len, expected.1, "decoded frame len matched");
}

fn decode_and_verify_none(bytes: &mut Vec<u8>) {
  let (frame, len) = match decode(&bytes) {
    Ok(Some((f, l))) => (Some(f), l),
    Ok(None) => (None, 0),
    Err(e) => return pretty_print_panic(e),
  };

  assert!(frame.is_none());
  assert_eq!(len, 0);
}

// ----------------------- tests adapted from RESP2 ------------------------

#[test]
fn should_decode_llen_res_example() {
  let expected = (
    Some(Frame::Number {
      data: 48293,
      attributes: None,
    }),
    8,
  );
  let mut bytes: Vec<u8> = ":48293\r\n".into();

  decode_and_verify_some(&mut bytes, &expected);
  decode_and_verify_padded_some(&mut bytes, &expected);
}

#[test]
fn should_decode_simple_string() {
  let expected = (
    Some(Frame::SimpleString {
      data: "string".into(),
      attributes: None,
    }),
    9,
  );
  let mut bytes: Vec<u8> = "+string\r\n".into();

  decode_and_verify_some(&mut bytes, &expected);
  decode_and_verify_padded_some(&mut bytes, &expected);
}

#[test]
#[should_panic]
fn should_decode_simple_string_incomplete() {
  let expected = (
    Some(Frame::SimpleString {
      data: "string".into(),
      attributes: None,
    }),
    9,
  );
  let mut bytes: Vec<u8> = "+stri".into();

  decode_and_verify_some(&mut bytes, &expected);
  decode_and_verify_padded_some(&mut bytes, &expected);
}

#[test]
fn should_decode_blob_string() {
  let expected = (
    Some(Frame::BlobString {
      data: "foo".into(),
      attributes: None,
    }),
    9,
  );
  let mut bytes: Vec<u8> = "$3\r\nfoo\r\n".into();

  decode_and_verify_some(&mut bytes, &expected);
  decode_and_verify_padded_some(&mut bytes, &expected);
}

#[test]
#[should_panic]
fn should_decode_blob_string_incomplete() {
  let expected = (
    Some(Frame::BlobString {
      data: "foo".into(),
      attributes: None,
    }),
    9,
  );
  let mut bytes: Vec<u8> = "$3\r\nfo".into();

  decode_and_verify_some(&mut bytes, &expected);
  decode_and_verify_padded_some(&mut bytes, &expected);
}

#[test]
fn should_decode_array_no_nulls() {
  let expected = (
    Some(Frame::Array {
      data: vec![
        Frame::SimpleString {
          data: "Foo".into(),
          attributes: None,
        },
        Frame::SimpleString {
          data: "Bar".into(),
          attributes: None,
        },
      ],
      attributes: None,
    }),
    16,
  );
  let mut bytes: Vec<u8> = "*2\r\n+Foo\r\n+Bar\r\n".into();

  decode_and_verify_some(&mut bytes, &expected);
  decode_and_verify_padded_some(&mut bytes, &expected);
}

#[test]
fn should_decode_array_nulls() {
  let mut bytes: Vec<u8> = "*3\r\n$3\r\nFoo\r\n_\r\n$3\r\nBar\r\n".into();

  let expected = (
    Some(Frame::Array {
      data: vec![
        Frame::BlobString {
          data: "Foo".into(),
          attributes: None,
        },
        Frame::Null,
        Frame::BlobString {
          data: "Bar".into(),
          attributes: None,
        },
      ],
      attributes: None,
    }),
    bytes.len(),
  );

  decode_and_verify_some(&mut bytes, &expected);
  decode_and_verify_padded_some(&mut bytes, &expected);
}

#[test]
fn should_decode_normal_error() {
  let mut bytes: Vec<u8> = "-WRONGTYPE Operation against a key holding the wrong kind of value\r\n".into();
  let expected = (
    Some(Frame::SimpleError {
      data: "WRONGTYPE Operation against a key holding the wrong kind of value".into(),
      attributes: None,
    }),
    bytes.len(),
  );

  decode_and_verify_some(&mut bytes, &expected);
  decode_and_verify_padded_some(&mut bytes, &expected);
}

#[test]
fn should_decode_moved_error() {
  let mut bytes: Vec<u8> = "-MOVED 3999 127.0.0.1:6381\r\n".into();
  let expected = (
    Some(Frame::SimpleError {
      data: "MOVED 3999 127.0.0.1:6381".into(),
      attributes: None,
    }),
    bytes.len(),
  );

  decode_and_verify_some(&mut bytes, &expected);
  decode_and_verify_padded_some(&mut bytes, &expected);
}

#[test]
fn should_decode_ask_error() {
  let mut bytes: Vec<u8> = "-ASK 3999 127.0.0.1:6381\r\n".into();
  let expected = (
    Some(Frame::SimpleError {
      data: "ASK 3999 127.0.0.1:6381".into(),
      attributes: None,
    }),
    bytes.len(),
  );

  decode_and_verify_some(&mut bytes, &expected);
  decode_and_verify_padded_some(&mut bytes, &expected);
}

#[test]
fn should_decode_incomplete() {
  let mut bytes: Vec<u8> = "*3\r\n$3\r\nFoo\r\n_\r\n$3\r\nBar".into();
  decode_and_verify_none(&mut bytes);
}

#[test]
#[should_panic]
fn should_error_on_junk() {
  let bytes: Vec<u8> = "foobarbazwibblewobble".into();
  let _ = decode(&bytes).map_err(|e| pretty_print_panic(e));
}

// ----------------- end tests adapted from RESP2 ------------------------

#[test]
fn should_decode_blob_error() {
  let expected = (
    Some(Frame::BlobError {
      data: "foo".into(),
      attributes: None,
    }),
    9,
  );
  let mut bytes: Vec<u8> = "!3\r\nfoo\r\n".into();

  decode_and_verify_some(&mut bytes, &expected);
  decode_and_verify_padded_some(&mut bytes, &expected);
}

#[test]
#[should_panic]
fn should_decode_blob_error_incomplete() {
  let expected = (
    Some(Frame::BlobError {
      data: "foo".into(),
      attributes: None,
    }),
    9,
  );
  let mut bytes: Vec<u8> = "!3\r\nfo".into();

  decode_and_verify_some(&mut bytes, &expected);
  decode_and_verify_padded_some(&mut bytes, &expected);
}

#[test]
fn should_decode_simple_error() {
  let expected = (
    Some(Frame::SimpleError {
      data: "string".into(),
      attributes: None,
    }),
    9,
  );
  let mut bytes: Vec<u8> = "-string\r\n".into();

  decode_and_verify_some(&mut bytes, &expected);
  decode_and_verify_padded_some(&mut bytes, &expected);
}

#[test]
#[should_panic]
fn should_decode_simple_error_incomplete() {
  let expected = (
    Some(Frame::SimpleError {
      data: "string".into(),
      attributes: None,
    }),
    9,
  );
  let mut bytes: Vec<u8> = "-strin".into();

  decode_and_verify_some(&mut bytes, &expected);
  decode_and_verify_padded_some(&mut bytes, &expected);
}

#[test]
fn should_decode_boolean_true() {
  let expected = (
    Some(Frame::Boolean {
      data: true,
      attributes: None,
    }),
    4,
  );
  let mut bytes: Vec<u8> = "#t\r\n".into();

  decode_and_verify_some(&mut bytes, &expected);
  decode_and_verify_padded_some(&mut bytes, &expected);
}

#[test]
fn should_decode_boolean_false() {
  let expected = (
    Some(Frame::Boolean {
      data: false,
      attributes: None,
    }),
    4,
  );
  let mut bytes: Vec<u8> = "#f\r\n".into();

  decode_and_verify_some(&mut bytes, &expected);
  decode_and_verify_padded_some(&mut bytes, &expected);
}

#[test]
fn should_decode_number() {
  let expected = (
    Some(Frame::Number {
      data: 42,
      attributes: None,
    }),
    5,
  );
  let mut bytes: Vec<u8> = ":42\r\n".into();

  decode_and_verify_some(&mut bytes, &expected);
  decode_and_verify_padded_some(&mut bytes, &expected);
}

#[test]
fn should_decode_double_inf() {
  let expected = (
    Some(Frame::Double {
      data: "inf".into(),
      attributes: None,
    }),
    6,
  );
  let mut bytes: Vec<u8> = ",inf\r\n".into();

  decode_and_verify_some(&mut bytes, &expected);
  decode_and_verify_padded_some(&mut bytes, &expected);
}

#[test]
fn should_decode_double_neg_inf() {
  let expected = (
    Some(Frame::Double {
      data: "-inf".into(),
      attributes: None,
    }),
    7,
  );
  let mut bytes: Vec<u8> = ",-inf\r\n".into();

  decode_and_verify_some(&mut bytes, &expected);
  decode_and_verify_padded_some(&mut bytes, &expected);
}

#[test]
#[should_panic]
fn should_decode_double_nan() {
  let expected = (
    Some(Frame::Double {
      data: "nan".into(),
      attributes: None,
    }),
    7,
  );
  let mut bytes: Vec<u8> = ",foo\r\n".into();

  decode_and_verify_some(&mut bytes, &expected);
  decode_and_verify_padded_some(&mut bytes, &expected);
}

#[test]
fn should_decode_double() {
  let expected = (
    Some(Frame::Double {
      data: "4.59193".into(),
      attributes: None,
    }),
    10,
  );
  let mut bytes: Vec<u8> = ",4.59193\r\n".into();

  decode_and_verify_some(&mut bytes, &expected);
  decode_and_verify_padded_some(&mut bytes, &expected);

  let expected = (
    Some(Frame::Double {
      data: "4".into(),
      attributes: None,
    }),
    4,
  );
  let mut bytes: Vec<u8> = ",4\r\n".into();

  decode_and_verify_some(&mut bytes, &expected);
  decode_and_verify_padded_some(&mut bytes, &expected);
}

#[test]
fn should_decode_bignumber() {
  let expected = (
    Some(Frame::BigNumber {
      data: "3492890328409238509324850943850943825024385".as_bytes().to_vec(),
      attributes: None,
    }),
    46,
  );
  let mut bytes: Vec<u8> = "(3492890328409238509324850943850943825024385\r\n".into();

  decode_and_verify_some(&mut bytes, &expected);
  decode_and_verify_padded_some(&mut bytes, &expected);
}

#[test]
fn should_decode_null() {
  let expected = (Some(Frame::Null), 3);
  let mut bytes: Vec<u8> = "_\r\n".into();

  decode_and_verify_some(&mut bytes, &expected);
  decode_and_verify_padded_some(&mut bytes, &expected);
}

#[test]
fn should_decode_verbatim_string_mkd() {
  let expected = (
    Some(Frame::VerbatimString {
      data: "Some string".as_bytes().to_vec(),
      format: VerbatimStringFormat::Markdown,
      attributes: None,
    }),
    22,
  );
  let mut bytes: Vec<u8> = "=15\r\nmkd:Some string\r\n".into();

  decode_and_verify_some(&mut bytes, &expected);
  decode_and_verify_padded_some(&mut bytes, &expected);
}

#[test]
fn should_decode_verbatim_string_txt() {
  let expected = (
    Some(Frame::VerbatimString {
      data: "Some string".as_bytes().to_vec(),
      format: VerbatimStringFormat::Text,
      attributes: None,
    }),
    22,
  );
  let mut bytes: Vec<u8> = "=15\r\ntxt:Some string\r\n".into();

  decode_and_verify_some(&mut bytes, &expected);
  decode_and_verify_padded_some(&mut bytes, &expected);
}

#[test]
fn should_decode_map_no_nulls() {
  let k1 = Frame::SimpleString {
    data: "first".into(),
    attributes: None,
  };
  let v1 = Frame::Number {
    data: 1,
    attributes: None,
  };
  let k2 = Frame::BlobString {
    data: "second".into(),
    attributes: None,
  };
  let v2 = Frame::Double {
    data: "4.2".into(),
    attributes: None,
  };

  let mut expected_map = Vec::new();
  expected_map.push((k1, v1));
  expected_map.push((k2, v2));
  let expected = (
    Some(Frame::Dict {
      data: expected_map,
      attributes: None,
    }),
    34,
  );
  let mut bytes: Vec<u8> = "%2\r\n+first\r\n:1\r\n$6\r\nsecond\r\n,4.2\r\n".into();

  decode_and_verify_some(&mut bytes, &expected);
  decode_and_verify_padded_some(&mut bytes, &expected);
}

#[test]
fn should_decode_map_with_nulls() {
  let k1 = Frame::SimpleString {
    data: "first".into(),
    attributes: None,
  };
  let v1 = Frame::Number {
    data: 1,
    attributes: None,
  };
  let k2 = Frame::Number {
    data: 2,
    attributes: None,
  };
  let v2 = Frame::Null;
  let k3 = Frame::BlobString {
    data: "second".into(),
    attributes: None,
  };
  let v3 = Frame::Double {
    data: "4.2".into(),
    attributes: None,
  };

  let mut expected_map = Vec::new();
  expected_map.push((k1, v1));
  expected_map.push((k2, v2));
  expected_map.push((k3, v3));
  let expected = (
    Some(Frame::Dict {
      data: expected_map,
      attributes: None,
    }),
    41,
  );
  let mut bytes: Vec<u8> = "%3\r\n+first\r\n:1\r\n:2\r\n_\r\n$6\r\nsecond\r\n,4.2\r\n".into();

  decode_and_verify_some(&mut bytes, &expected);
  decode_and_verify_padded_some(&mut bytes, &expected);
}

#[test]
fn should_decode_set_no_nulls() {
  let mut expected_set = Vec::new();
  expected_set.push(Frame::Number {
    data: 1,
    attributes: None,
  });
  expected_set.push(Frame::SimpleString {
    data: "2".into(),
    attributes: None,
  });
  expected_set.push(Frame::BlobString {
    data: "foobar".into(),
    attributes: None,
  });
  expected_set.push(Frame::Double {
    data: "4.2".into(),
    attributes: None,
  });
  let expected = (
    Some(Frame::Distinct {
      data: expected_set,
      attributes: None,
    }),
    30,
  );
  let mut bytes: Vec<u8> = "~4\r\n:1\r\n+2\r\n$6\r\nfoobar\r\n,4.2\r\n".into();

  decode_and_verify_some(&mut bytes, &expected);
  decode_and_verify_padded_some(&mut bytes, &expected);
}

#[test]
fn should_decode_set_with_nulls() {
  let mut expected_set = Vec::new();
  expected_set.push(Frame::Number {
    data: 1,
    attributes: None,
  });
  expected_set.push(Frame::SimpleString {
    data: "2".into(),
    attributes: None,
  });
  expected_set.push(Frame::Null);
  expected_set.push(Frame::Double {
    data: "4.2".into(),
    attributes: None,
  });
  let expected = (
    Some(Frame::Distinct {
      data: expected_set,
      attributes: None,
    }),
    21,
  );
  let mut bytes: Vec<u8> = "~4\r\n:1\r\n+2\r\n_\r\n,4.2\r\n".into();

  decode_and_verify_some(&mut bytes, &expected);
  decode_and_verify_padded_some(&mut bytes, &expected);
}

#[test]
fn should_decode_push_pubsub() {
  let expected = (
    Some(Frame::Push {
      data: vec![
        Frame::SimpleString {
          data: "pubsub".into(),
          attributes: None,
        },
        Frame::SimpleString {
          data: "message".into(),
          attributes: None,
        },
        Frame::SimpleString {
          data: "somechannel".into(),
          attributes: None,
        },
        Frame::SimpleString {
          data: "this is the message".into(),
          attributes: None,
        },
      ],
      attributes: None,
    }),
    59,
  );
  let mut bytes: Vec<u8> = ">4\r\n+pubsub\r\n+message\r\n+somechannel\r\n+this is the message\r\n".into();

  decode_and_verify_some(&mut bytes, &expected);
  decode_and_verify_padded_some(&mut bytes, &expected);

  let (frame, _) = decode(&bytes).unwrap().unwrap();
  assert!(frame.is_pubsub_message());
  assert!(frame.is_normal_pubsub());
}

#[test]
fn should_decode_push_pattern_pubsub() {
  let expected = (
    Some(Frame::Push {
      data: vec![
        Frame::SimpleString {
          data: "pubsub".into(),
          attributes: None,
        },
        Frame::SimpleString {
          data: "pmessage".into(),
          attributes: None,
        },
        Frame::SimpleString {
          data: "somechannel".into(),
          attributes: None,
        },
        Frame::SimpleString {
          data: "this is the message".into(),
          attributes: None,
        },
      ],
      attributes: None,
    }),
    60,
  );
  let mut bytes: Vec<u8> = ">4\r\n+pubsub\r\n+pmessage\r\n+somechannel\r\n+this is the message\r\n".into();

  decode_and_verify_some(&mut bytes, &expected);
  decode_and_verify_padded_some(&mut bytes, &expected);

  let (frame, _) = decode(&bytes).unwrap().unwrap();
  assert!(frame.is_pattern_pubsub_message());
  assert!(frame.is_pubsub_message());
}

#[test]
fn should_decode_keyevent_message() {
  let expected = (
    Some(Frame::Push {
      data: vec![
        Frame::SimpleString {
          data: "pubsub".into(),
          attributes: None,
        },
        Frame::SimpleString {
          data: "pmessage".into(),
          attributes: None,
        },
        Frame::SimpleString {
          data: "__key*".into(),
          attributes: None,
        },
        Frame::SimpleString {
          data: "__keyevent@0__:set".into(),
          attributes: None,
        },
        Frame::SimpleString {
          data: "foo".into(),
          attributes: None,
        },
      ],
      attributes: None,
    }),
    60,
  );
  let mut bytes: Vec<u8> = ">5\r\n+pubsub\r\n+pmessage\r\n+__key*\r\n+__keyevent@0__:set\r\n+foo\r\n".into();

  decode_and_verify_some(&mut bytes, &expected);
  decode_and_verify_padded_some(&mut bytes, &expected);

  let (frame, _) = decode(&bytes).unwrap().unwrap();
  assert!(frame.is_pattern_pubsub_message());
  assert!(frame.is_pubsub_message());
}

#[test]
fn should_parse_outer_attributes() {
  let mut expected_inner_attrs = Vec::new();
  expected_inner_attrs.push((
    Frame::BlobString {
      data: "a".into(),
      attributes: None,
    },
    Frame::Double {
      data: "0.1923".into(),
      attributes: None,
    }));
  expected_inner_attrs.push((
    Frame::BlobString {
      data: "b".into(),
      attributes: None,
    },
    Frame::Double {
      data: "0.0012".into(),
      attributes: None,
    }));
  let expected_inner_attrs = Frame::Dict {
    data: expected_inner_attrs,
    attributes: None,
  };

  let mut expected_attrs = Vec::new();
  expected_attrs.push((
    Frame::SimpleString {
      data: "key-popularity".into(),
      attributes: None,
    },
    expected_inner_attrs));

  let expected = (
    Some(Frame::Array {
      data: vec![
        Frame::Number {
          data: 2039123,
          attributes: None,
        },
        Frame::Number {
          data: 9543892,
          attributes: None,
        },
      ],
      attributes: Some(expected_attrs.into()),
    }),
    81,
  );

  let mut bytes: Vec<u8> =
    "|1\r\n+key-popularity\r\n%2\r\n$1\r\na\r\n,0.1923\r\n$1\r\nb\r\n,0.0012\r\n*2\r\n:2039123\r\n:9543892\r\n"
      .into();

  decode_and_verify_some(&mut bytes, &expected);
  decode_and_verify_padded_some(&mut bytes, &expected);
}

#[test]
fn should_parse_inner_attributes() {
  let mut expected_attrs = Vec::new();
  expected_attrs.push((
    Frame::SimpleString {
      data: "ttl".into(),
      attributes: None,
    },
    Frame::Number {
      data: 3600,
      attributes: None,
    }));

  let expected = (
    Some(Frame::Array {
      data: vec![
        Frame::Number {
          data: 1,
          attributes: None,
        },
        Frame::Number {
          data: 2,
          attributes: None,
        },
        Frame::Number {
          data: 3,
          attributes: Some(expected_attrs),
        },
      ],
      attributes: None,
    }),
    33,
  );
  let mut bytes: Vec<u8> = "*3\r\n:1\r\n:2\r\n|1\r\n+ttl\r\n:3600\r\n:3\r\n".into();

  decode_and_verify_some(&mut bytes, &expected);
  decode_and_verify_padded_some(&mut bytes, &expected);
}

#[test]
fn should_decode_end_stream() {
  let bytes: Vec<u8> = ";0\r\n".into();
  let (frame, _) = stream_decode(&bytes).unwrap().unwrap();
  assert_eq!(frame, DecodedFrame::Complete(Frame::new_end_stream()))
}

#[test]
fn should_decode_streaming_string() {
  let mut bytes: Vec<u8> = "$?\r\n;4\r\nHell\r\n;6\r\no worl\r\n;1\r\nd\r\n;0\r\n".into();

  let (frame, amt) = stream_decode(&bytes).unwrap().unwrap();
  assert_eq!(
    frame,
    DecodedFrame::Streaming(StreamedFrame::new(FrameKind::BlobString))
  );
  assert_eq!(amt, 4);
  bytes.drain(..amt);

  let (frame, amt) = stream_decode(&bytes).unwrap().unwrap();
  assert_eq!(frame, DecodedFrame::Complete(Frame::ChunkedString("Hell".into())));
  assert_eq!(amt, 10);
  bytes.drain(..amt);

  let (frame, amt) = stream_decode(&bytes).unwrap().unwrap();
  assert_eq!(frame, DecodedFrame::Complete(Frame::ChunkedString("o worl".into())));
  assert_eq!(amt, 12);
  bytes.drain(..amt);

  let (frame, amt) = stream_decode(&bytes).unwrap().unwrap();
  assert_eq!(frame, DecodedFrame::Complete(Frame::ChunkedString("d".into())));
  assert_eq!(amt, 7);
  bytes.drain(..amt);

  let (frame, amt) = stream_decode(&bytes).unwrap().unwrap();
  assert_eq!(frame, DecodedFrame::Complete(Frame::new_end_stream()));
  assert_eq!(amt, 4);
}

#[test]
fn should_decode_streaming_array() {
  let mut bytes: Vec<u8> = "*?\r\n:1\r\n:2\r\n:3\r\n.\r\n".into();

  let (frame, amt) = stream_decode(&bytes).unwrap().unwrap();
  assert_eq!(frame, DecodedFrame::Streaming(StreamedFrame::new(FrameKind::Array)));
  assert_eq!(amt, 4);
  bytes.drain(..amt);
  let mut streamed = frame.into_streaming_frame().unwrap();

  let (frame, amt) = stream_decode(&bytes).unwrap().unwrap();
  assert_eq!(
    frame,
    DecodedFrame::Complete(Frame::Number {
      data: 1,
      attributes: None
    })
  );
  assert_eq!(amt, 4);
  bytes.drain(..amt);
  streamed.add_frame(frame.into_complete_frame().unwrap());

  let (frame, amt) = stream_decode(&bytes).unwrap().unwrap();
  assert_eq!(
    frame,
    DecodedFrame::Complete(Frame::Number {
      data: 2,
      attributes: None
    })
  );
  assert_eq!(amt, 4);
  bytes.drain(..amt);
  streamed.add_frame(frame.into_complete_frame().unwrap());

  let (frame, amt) = stream_decode(&bytes).unwrap().unwrap();
  assert_eq!(
    frame,
    DecodedFrame::Complete(Frame::Number {
      data: 3,
      attributes: None
    })
  );
  assert_eq!(amt, 4);
  bytes.drain(..amt);
  streamed.add_frame(frame.into_complete_frame().unwrap());

  let (frame, amt) = stream_decode(&bytes).unwrap().unwrap();
  assert_eq!(frame, DecodedFrame::Complete(Frame::new_end_stream()));
  assert_eq!(amt, 3);
  streamed.add_frame(frame.into_complete_frame().unwrap());

  assert!(streamed.is_finished());
  let actual = streamed.into_frame().unwrap();
  let expected = Frame::Array {
    data: vec![
      Frame::Number {
        data: 1,
        attributes: None,
      },
      Frame::Number {
        data: 2,
        attributes: None,
      },
      Frame::Number {
        data: 3,
        attributes: None,
      },
    ],
    attributes: None,
  };

  assert_eq!(actual, expected);
}

#[test]
fn should_decode_streaming_set() {
  let mut bytes: Vec<u8> = "~?\r\n:1\r\n:2\r\n:3\r\n.\r\n".into();

  let (frame, amt) = stream_decode(&bytes).unwrap().unwrap();
  assert_eq!(frame, DecodedFrame::Streaming(StreamedFrame::new(FrameKind::Distinct)));
  assert_eq!(amt, 4);
  bytes.drain(..amt);
  let mut streamed = frame.into_streaming_frame().unwrap();

  let (frame, amt) = stream_decode(&bytes).unwrap().unwrap();
  assert_eq!(
    frame,
    DecodedFrame::Complete(Frame::Number {
      data: 1,
      attributes: None
    })
  );
  assert_eq!(amt, 4);
  bytes.drain(..amt);
  streamed.add_frame(frame.into_complete_frame().unwrap());

  let (frame, amt) = stream_decode(&bytes).unwrap().unwrap();
  assert_eq!(
    frame,
    DecodedFrame::Complete(Frame::Number {
      data: 2,
      attributes: None
    })
  );
  assert_eq!(amt, 4);
  bytes.drain(..amt);
  streamed.add_frame(frame.into_complete_frame().unwrap());

  let (frame, amt) = stream_decode(&bytes).unwrap().unwrap();
  assert_eq!(
    frame,
    DecodedFrame::Complete(Frame::Number {
      data: 3,
      attributes: None
    })
  );
  assert_eq!(amt, 4);
  bytes.drain(..amt);
  streamed.add_frame(frame.into_complete_frame().unwrap());

  let (frame, amt) = stream_decode(&bytes).unwrap().unwrap();
  assert_eq!(frame, DecodedFrame::Complete(Frame::new_end_stream()));
  assert_eq!(amt, 3);
  streamed.add_frame(frame.into_complete_frame().unwrap());

  assert!(streamed.is_finished());
  let actual = streamed.into_frame().unwrap();
  let mut expected_result = Vec::new();
  expected_result.push(Frame::Number {
    data: 1,
    attributes: None,
  });
  expected_result.push(Frame::Number {
    data: 2,
    attributes: None,
  });
  expected_result.push(Frame::Number {
    data: 3,
    attributes: None,
  });

  let expected = Frame::Distinct {
    data: expected_result,
    attributes: None,
  };

  assert_eq!(actual, expected);
}

#[test]
fn should_decode_streaming_map() {
  let mut bytes: Vec<u8> = "%?\r\n+a\r\n:1\r\n+b\r\n:2\r\n.\r\n".into();

  let (frame, amt) = stream_decode(&bytes).unwrap().unwrap();
  assert_eq!(frame, DecodedFrame::Streaming(StreamedFrame::new(FrameKind::Dict)));
  assert_eq!(amt, 4);
  bytes.drain(..amt);
  let mut streamed = frame.into_streaming_frame().unwrap();

  let (frame, amt) = stream_decode(&bytes).unwrap().unwrap();
  assert_eq!(
    frame,
    DecodedFrame::Complete(Frame::SimpleString {
      data: "a".into(),
      attributes: None
    })
  );
  assert_eq!(amt, 4);
  bytes.drain(..amt);
  streamed.add_frame(frame.into_complete_frame().unwrap());

  let (frame, amt) = stream_decode(&bytes).unwrap().unwrap();
  assert_eq!(
    frame,
    DecodedFrame::Complete(Frame::Number {
      data: 1.into(),
      attributes: None
    })
  );
  assert_eq!(amt, 4);
  bytes.drain(..amt);
  streamed.add_frame(frame.into_complete_frame().unwrap());

  let (frame, amt) = stream_decode(&bytes).unwrap().unwrap();
  assert_eq!(
    frame,
    DecodedFrame::Complete(Frame::SimpleString {
      data: "b".into(),
      attributes: None
    })
  );
  assert_eq!(amt, 4);
  bytes.drain(..amt);
  streamed.add_frame(frame.into_complete_frame().unwrap());

  let (frame, amt) = stream_decode(&bytes).unwrap().unwrap();
  assert_eq!(
    frame,
    DecodedFrame::Complete(Frame::Number {
      data: 2.into(),
      attributes: None
    })
  );
  assert_eq!(amt, 4);
  bytes.drain(..amt);
  streamed.add_frame(frame.into_complete_frame().unwrap());

  let (frame, amt) = stream_decode(&bytes).unwrap().unwrap();
  assert_eq!(frame, DecodedFrame::Complete(Frame::new_end_stream()));
  assert_eq!(amt, 3);
  streamed.add_frame(frame.into_complete_frame().unwrap());

  assert!(streamed.is_finished());
  let actual = streamed.into_frame().unwrap();
  let mut expected_result = Vec::new();
  expected_result.push((
    Frame::SimpleString {
      data: "a".into(),
      attributes: None,
    },
    Frame::Number {
      data: 1,
      attributes: None,
    }));
  expected_result.push((
    Frame::SimpleString {
      data: "b".into(),
      attributes: None,
    },
    Frame::Number {
      data: 2,
      attributes: None,
    }));
  let expected = Frame::Dict {
    data: expected_result,
    attributes: None,
  };

  assert_eq!(actual, expected);
}
