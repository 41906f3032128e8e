use bytes::BytesMut;
use simple_redis::{BulkString, RespArray, RespError, RespFrame};

#[test]
fn test_bulk_string_encode() {
    let frame: RespFrame = RespFrame::BulkString(BulkString::new(b"hello".to_vec()));
    assert_eq!(frame.encode(), b"$5\r\nhello\r\n".to_vec());
}

#[test]
fn test_null_bulk_string_encode() {
    let frame: RespFrame = RespFrame::BulkString(BulkString::null());
    assert_eq!(frame.encode(), b"$-1\r\n".to_vec());
}

#[test]
fn test_bulk_string_decode() {
    let mut buf = BytesMut::new();
    buf.extend_from_slice(b"$5\r\nhello\r\n");

    let frame = BulkString::decode(&mut buf).unwrap();
    assert_eq!(frame, BulkString::new(b"hello".to_vec()));

    buf.extend_from_slice(b"$5\r\nhello");
    let ret = BulkString::decode(&mut buf);
    assert_eq!(ret.unwrap_err(), RespError::NotComplete);

    buf.extend_from_slice(b"\r\n");
    let frame = BulkString::decode(&mut buf).unwrap();
    assert_eq!(frame, BulkString::new(b"hello".to_vec()));
}

#[test]
fn test_null_bulk_string_decode() {
    let mut buf = BytesMut::new();
    buf.extend_from_slice(b"$-1\r\n");

    let frame = BulkString::decode(&mut buf).unwrap();
    assert_eq!(frame, BulkString::null());
    assert!(buf.is_empty());
}

#[test]
fn test_array_encode() {
    let frame: RespFrame = RespFrame::Array(RespArray::new(
        vec![
            RespFrame::BulkString(BulkString::new(b"set".to_vec())),
            RespFrame::BulkString(BulkString::new(b"hello".to_vec())),
            RespFrame::BulkString(BulkString::new(b"world".to_vec())),
        ],
        false,
    ));
    assert_eq!(
        frame.encode(),
        b"*3\r\n$3\r\nset\r\n$5\r\nhello\r\n$5\r\nworld\r\n".to_vec()
    );
}

#[test]
fn test_null_array_encode() {
    let frame: RespFrame = RespFrame::Array(RespArray::new(
        vec![RespFrame::BulkString(BulkString::new(b"nil".to_vec()))],
        true,
    ));
    assert_eq!(frame.encode(), b"*-1\r\n".to_vec());
}

#[test]
fn test_null_array_decode() {
    let mut buf = BytesMut::new();
    buf.extend_from_slice(b"*-1\r\n");

    let frame = RespArray::decode(&mut buf).unwrap();
    assert_eq!(
        frame,
        RespArray::new(
            vec![RespFrame::BulkString(BulkString::new(b"-1\r\n".to_vec()))],
            true
        )
    );
}

#[test]
fn test_array_decode() {
    let mut buf = BytesMut::new();
    buf.extend_from_slice(b"*2\r\n$3\r\nset\r\n$5\r\nhello\r\n");

    let frame = RespArray::decode(&mut buf).unwrap();
    assert_eq!(
        frame,
        RespArray::new(
            vec![
                RespFrame::BulkString(BulkString::new(b"set".to_vec())),
                RespFrame::BulkString(BulkString::new(b"hello".to_vec())),
            ],
            false
        )
    );

    buf.extend_from_slice(b"*2\r\n$3\r\nset\r\n");
    let ret = RespArray::decode(&mut buf);
    assert_eq!(ret.unwrap_err(), RespError::NotComplete);

    buf.extend_from_slice(b"$5\r\nhello\r\n");
    let frame = RespArray::decode(&mut buf).unwrap();
    assert_eq!(
        frame,
        RespArray::new(
            vec![
                RespFrame::BulkString(BulkString::new(b"set".to_vec())),
                RespFrame::BulkString(BulkString::new(b"hello".to_vec())),
            ],
            false
        )
    );
}

#[test]
fn test_decode_wrong_type_byte() {
    let mut buf = BytesMut::new();
    buf.extend_from_slice(b"x5\r\nhello\r\n");
    assert_eq!(
        RespFrame::decode(&mut buf).unwrap_err(),
        RespError::InvalidFrameType
    );
    // typed decoders refuse the other type's prefix
    let mut buf = BytesMut::new();
    buf.extend_from_slice(b"*1\r\n$1\r\na\r\n");
    assert_eq!(
        BulkString::decode(&mut buf).unwrap_err(),
        RespError::InvalidFrameType
    );
    let mut buf = BytesMut::new();
    buf.extend_from_slice(b"$1\r\na\r\n");
    assert_eq!(
        RespArray::decode(&mut buf).unwrap_err(),
        RespError::InvalidFrameType
    );
}

#[test]
fn test_decode_bad_length_header() {
    for bad in [
        &b"$ab\r\nxx\r\n"[..],
        b"$-2\r\n",
        b"$05\r\nhello\r\n",
        b"$2147483648\r\n",
        b"*-2\r\n",
        b"$xxxxxxxxxxxxxxxxxxxx\r\n",
    ] {
        let mut buf = BytesMut::new();
        buf.extend_from_slice(bad);
        let before = buf.clone();
        assert_eq!(
            RespFrame::decode(&mut buf).unwrap_err(),
            RespError::InvalidFrameLength,
            "input {:?}",
            bad
        );
        assert_eq!(buf, before, "failed decode must not consume");
    }
}

#[test]
fn test_decode_bad_terminator() {
    let mut buf = BytesMut::new();
    buf.extend_from_slice(b"$5\r\nhelloXY");
    assert_eq!(
        RespFrame::decode(&mut buf).unwrap_err(),
        RespError::InvalidFrameLength
    );
}

#[test]
fn test_expect_length() {
    // complete frames: exact totals
    assert_eq!(RespFrame::expect_length(b"$5\r\nhello\r\n"), Ok(11));
    assert_eq!(RespFrame::expect_length(b"$-1\r\n"), Ok(5));
    assert_eq!(RespFrame::expect_length(b"*-1\r\n"), Ok(5));
    assert_eq!(
        RespFrame::expect_length(b"*2\r\n$3\r\nset\r\n$5\r\nhello\r\n"),
        Ok(24)
    );
    // the header alone already fixes a bulk string's total
    assert_eq!(RespFrame::expect_length(b"$5\r\n"), Ok(11));
    assert_eq!(RespFrame::expect_length(b"$5\r\nhel"), Ok(11));
    // a torn header does not
    assert_eq!(
        RespFrame::expect_length(b"$5"),
        Err(RespError::NotComplete)
    );
    assert_eq!(
        RespFrame::expect_length(b"*2\r\n$3\r\nse"),
        Err(RespError::NotComplete)
    );
    // typed variants check the prefix
    assert_eq!(BulkString::expect_length(b"$5\r\n"), Ok(11));
    assert_eq!(
        BulkString::expect_length(b"*1\r\n"),
        Err(RespError::InvalidFrameType)
    );
    assert_eq!(RespArray::expect_length(b"*-1\r\n"), Ok(5));
    assert_eq!(
        RespArray::expect_length(b"$5\r\n"),
        Err(RespError::InvalidFrameType)
    );
}

#[test]
fn test_roundtrip_canonical_inputs() {
    // encode(decode(bytes)) == bytes for canonical bulk string and array
    for bytes in [
        &b"$5\r\nhello\r\n"[..],
        b"$0\r\n\r\n",
        b"$-1\r\n",
        b"*-1\r\n",
        b"*0\r\n",
        b"*2\r\n$4\r\necho\r\n$5\r\nhello\r\n",
        b"*2\r\n*1\r\n$1\r\na\r\n$-1\r\n",
    ] {
        let mut buf = BytesMut::new();
        buf.extend_from_slice(bytes);
        let frame = RespFrame::decode(&mut buf).unwrap();
        assert!(buf.is_empty());
        assert_eq!(frame.encode(), bytes.to_vec(), "input {:?}", bytes);
    }
}

#[test]
fn test_progressive_feed_equivalence() {
    let bytes = &b"*2\r\n$4\r\necho\r\n$5\r\nhello\r\n"[..];
    // decoding the whole buffer at once
    let mut whole = BytesMut::new();
    whole.extend_from_slice(bytes);
    let expected = RespFrame::decode(&mut whole).unwrap();
    // feeding byte by byte: NotComplete until every byte is there
    let mut buf = BytesMut::new();
    for (i, b) in bytes.iter().enumerate() {
        if i + 1 < bytes.len() {
            buf.extend_from_slice(&[*b]);
            if i + 1 < bytes.len() {
                let before = buf.clone();
                assert_eq!(
                    RespFrame::decode(&mut buf).unwrap_err(),
                    RespError::NotComplete,
                    "after {} bytes",
                    i + 1
                );
                assert_eq!(buf, before, "NotComplete must not consume");
            }
        } else {
            buf.extend_from_slice(&[*b]);
        }
    }
    let got = RespFrame::decode(&mut buf).unwrap();
    assert!(buf.is_empty());
    assert_eq!(got, expected);
}

#[test]
fn test_expect_length_matches_decode_consumption() {
    for bytes in [
        &b"$5\r\nhello\r\nTRAILING"[..],
        b"$-1\r\nX",
        b"*-1\r\nX",
        b"*2\r\n$3\r\nset\r\n$5\r\nhello\r\nMORE",
    ] {
        let n = RespFrame::expect_length(bytes).unwrap();
        let mut buf = BytesMut::new();
        buf.extend_from_slice(bytes);
        let before = buf.len();
        RespFrame::decode(&mut buf).unwrap();
        assert_eq!(n, before - buf.len(), "input {:?}", bytes);
    }
}

#[test]
fn test_scenario_null_array() {
    let mut buf = BytesMut::new();
    buf.extend_from_slice(b"*-1\r\n");
    let frame = RespFrame::decode(&mut buf).unwrap();
    assert_eq!(frame, RespFrame::Array(RespArray::new(vec![], true)));
    assert_eq!(frame.encode(), b"*-1\r\n".to_vec());
}

#[test]
fn test_scenario_incomplete_bulk_then_complete() {
    let mut buf = BytesMut::new();
    buf.extend_from_slice(b"$5\r\nhello");
    assert_eq!(
        RespFrame::decode(&mut buf).unwrap_err(),
        RespError::NotComplete
    );
    buf.extend_from_slice(b"\r\n");
    let frame = RespFrame::decode(&mut buf).unwrap();
    assert_eq!(
        frame,
        RespFrame::BulkString(BulkString::new(b"hello".to_vec()))
    );
}

#[test]
fn test_progressive_feed_bulk_string() {
    let bytes = &b"$5\r\nhello\r\n"[..];
    let mut buf = BytesMut::new();
    for i in 0..bytes.len() - 1 {
        buf.extend_from_slice(&[bytes[i]]);
        let before = buf.clone();
        assert_eq!(
            BulkString::decode(&mut buf).unwrap_err(),
            RespError::NotComplete,
            "after {} bytes",
            i + 1
        );
        assert_eq!(buf, before, "NotComplete must not consume");
    }
    buf.extend_from_slice(&[bytes[bytes.len() - 1]]);
    let frame = BulkString::decode(&mut buf).unwrap();
    assert!(buf.is_empty());
    assert_eq!(frame, BulkString::new(b"hello".to_vec()));
}

#[test]
fn test_progressive_feed_nested_array() {
    let bytes = &b"*2\r\n*1\r\n$1\r\na\r\n$-1\r\n"[..];
    let mut whole = BytesMut::new();
    whole.extend_from_slice(bytes);
    let expected = RespArray::decode(&mut whole).unwrap();
    let mut buf = BytesMut::new();
    for i in 0..bytes.len() - 1 {
        buf.extend_from_slice(&[bytes[i]]);
        let before = buf.clone();
        assert_eq!(
            RespArray::decode(&mut buf).unwrap_err(),
            RespError::NotComplete,
            "after {} bytes",
            i + 1
        );
        assert_eq!(buf, before, "NotComplete must not consume");
    }
    buf.extend_from_slice(&[bytes[bytes.len() - 1]]);
    let frame = RespArray::decode(&mut buf).unwrap();
    assert!(buf.is_empty());
    assert_eq!(frame, expected);
}
