use bytes::BytesMut;
use simple_redis::resp::{BulkString, RespArray, RespError, RespFrame, RespNull, SimpleString};

fn bulk(s: &[u8]) -> RespFrame {
    RespFrame::BulkString(BulkString::new(Some(s.to_vec())))
}

#[test]
fn test_array_encode() {
    let frame: RespFrame = RespFrame::Array(RespArray::new(Some(vec![
        bulk(b"set"),
        bulk(b"hello"),
        bulk(b"world"),
    ])));
    assert_eq!(
        frame.encode(),
        b"*3\r\n$3\r\nset\r\n$5\r\nhello\r\n$5\r\nworld\r\n".to_vec()
    );
}

#[test]
fn test_null_array_encode() {
    let frame: RespFrame = RespFrame::Array(RespArray::new(None));
    assert_eq!(frame.encode(), b"*-1\r\n".to_vec());
}

#[test]
fn test_null_array_decode() {
    let mut buf = BytesMut::new();
    buf.extend_from_slice(b"*-1\r\n");

    let frame = RespArray::decode(&mut buf).unwrap();
    let got = RespFrame::Array(frame);
    let want = RespFrame::Array(RespArray::new(None));
    assert!(got.frame_eq(&want));
    assert_eq!(buf.len(), 0);
}

#[test]
fn test_array_decode() {
    let mut buf = BytesMut::new();
    buf.extend_from_slice(b"*2\r\n$3\r\nset\r\n$5\r\nhello\r\n");

    let frame = RespArray::decode(&mut buf).unwrap();
    let want = RespFrame::Array(RespArray::new(Some(vec![bulk(b"set"), bulk(b"hello")])));
    assert!(RespFrame::Array(frame).frame_eq(&want));

    buf.extend_from_slice(b"*2\r\n$3\r\nset\r\n");
    let ret = RespArray::decode(&mut buf);
    assert_eq!(ret.unwrap_err(), RespError::NotComplete);

    buf.extend_from_slice(b"$5\r\nhello\r\n");
    let frame = RespArray::decode(&mut buf).unwrap();
    assert!(RespFrame::Array(frame).frame_eq(&want));
}

#[test]
fn test_bulk_string_encode() {
    let frame: RespFrame = bulk(b"hello");
    assert_eq!(frame.encode(), b"$5\r\nhello\r\n".to_vec());
}

#[test]
fn test_null_bulk_string_encode() {
    let frame: RespFrame = RespFrame::BulkString(BulkString::new(None));
    assert_eq!(frame.encode(), b"$-1\r\n".to_vec());
}

#[test]
fn test_bulk_string_decode() {
    let mut buf = BytesMut::new();
    buf.extend_from_slice(b"$5\r\nhello\r\n");

    let frame = BulkString::decode(&mut buf).unwrap();
    assert!(RespFrame::BulkString(frame).frame_eq(&bulk(b"hello")));

    buf.extend_from_slice(b"$5\r\nhello");
    let ret = BulkString::decode(&mut buf);
    assert_eq!(ret.unwrap_err(), RespError::NotComplete);

    buf.extend_from_slice(b"\r\n");
    let frame = BulkString::decode(&mut buf).unwrap();
    assert!(RespFrame::BulkString(frame).frame_eq(&bulk(b"hello")));
}

#[test]
fn test_null_bulk_string_decode() {
    let mut buf = BytesMut::new();
    buf.extend_from_slice(b"$-1\r\n");

    let frame = BulkString::decode(&mut buf).unwrap();
    let want = RespFrame::BulkString(BulkString::new(None));
    assert!(RespFrame::BulkString(frame).frame_eq(&want));
}

#[test]
fn test_simple_string_roundtrip() {
    let frame = RespFrame::SimpleString(SimpleString::new(b"OK".to_vec()));
    let encoded = frame.encode();
    assert_eq!(encoded, b"+OK\r\n".to_vec());

    let mut buf = BytesMut::new();
    buf.extend_from_slice(&encoded);
    let back = RespFrame::decode(&mut buf).unwrap();
    let want = RespFrame::SimpleString(SimpleString::new(b"OK".to_vec()));
    assert!(back.frame_eq(&want));
    assert_eq!(buf.len(), 0);
}

#[test]
fn test_integer_roundtrip() {
    for n in [0i64, 7, -42, i64::MAX, i64::MIN] {
        let encoded = RespFrame::Integer(n).encode();
        let mut buf = BytesMut::new();
        buf.extend_from_slice(&encoded);
        let back = RespFrame::decode(&mut buf).unwrap();
        assert!(back.frame_eq(&RespFrame::Integer(n)));
        assert_eq!(buf.len(), 0);
    }
    assert_eq!(RespFrame::Integer(-42).encode(), b":-42\r\n".to_vec());
    assert_eq!(RespFrame::Integer(1).encode(), b":1\r\n".to_vec());
}

#[test]
fn test_null_frame_roundtrip() {
    let encoded = RespFrame::Null(RespNull).encode();
    assert_eq!(encoded, b"_\r\n".to_vec());
    let mut buf = BytesMut::new();
    buf.extend_from_slice(&encoded);
    let back = RespFrame::decode(&mut buf).unwrap();
    assert!(back.frame_eq(&RespFrame::Null(RespNull)));
}

#[test]
fn test_nested_array_roundtrip() {
    let inner = RespFrame::Array(RespArray::new(Some(vec![
        RespFrame::Integer(3),
        RespFrame::BulkString(BulkString::new(None)),
    ])));
    let frame = RespFrame::Array(RespArray::new(Some(vec![
        inner,
        bulk(b"tail"),
        RespFrame::Null(RespNull),
    ])));
    let want = RespFrame::Array(RespArray::new(Some(vec![
        RespFrame::Array(RespArray::new(Some(vec![
            RespFrame::Integer(3),
            RespFrame::BulkString(BulkString::new(None)),
        ]))),
        bulk(b"tail"),
        RespFrame::Null(RespNull),
    ])));
    let encoded = frame.encode();
    let mut buf = BytesMut::new();
    buf.extend_from_slice(&encoded);
    let back = RespFrame::decode(&mut buf).unwrap();
    assert!(back.frame_eq(&want));
    assert_eq!(buf.len(), 0);
}

#[test]
fn test_incremental_decode_chunks() {
    let encoded = RespFrame::Array(RespArray::new(Some(vec![bulk(b"get"), bulk(b"hello")])))
        .encode();
    for split in 1..encoded.len() {
        let mut buf = BytesMut::new();
        buf.extend_from_slice(&encoded[..split]);
        let ret = RespFrame::decode(&mut buf);
        assert_eq!(ret.unwrap_err(), RespError::NotComplete);
        assert_eq!(&buf[..], &encoded[..split]);

        buf.extend_from_slice(&encoded[split..]);
        let frame = RespFrame::decode(&mut buf).unwrap();
        assert!(frame.frame_eq(&RespFrame::Array(RespArray::new(Some(vec![
            bulk(b"get"),
            bulk(b"hello"),
        ])))));
        assert_eq!(buf.len(), 0);
    }
}

#[test]
fn test_null_and_empty_differ() {
    let null_bulk = RespFrame::BulkString(BulkString::new(None));
    let empty_bulk = RespFrame::BulkString(BulkString::new(Some(Vec::new())));
    assert_eq!(null_bulk.clone().encode(), b"$-1\r\n".to_vec());
    assert_eq!(empty_bulk.clone().encode(), b"$0\r\n\r\n".to_vec());
    assert!(!null_bulk.frame_eq(&empty_bulk));

    let null_arr = RespFrame::Array(RespArray::new(None));
    let empty_arr = RespFrame::Array(RespArray::new(Some(Vec::new())));
    assert_eq!(null_arr.clone().encode(), b"*-1\r\n".to_vec());
    assert_eq!(empty_arr.clone().encode(), b"*0\r\n".to_vec());
    assert!(!null_arr.frame_eq(&empty_arr));

    let mut buf = BytesMut::new();
    buf.extend_from_slice(b"$-1\r\n");
    let back = RespFrame::decode(&mut buf).unwrap();
    assert!(back.frame_eq(&null_bulk));
    assert!(!back.frame_eq(&empty_bulk));
}

#[test]
fn test_malformed_frame() {
    let mut buf = BytesMut::new();
    buf.extend_from_slice(b"$5x\r\nhello\r\n");
    assert_eq!(RespFrame::decode(&mut buf).unwrap_err(), RespError::InvalidFrame);
    assert_eq!(&buf[..], b"$5x\r\nhello\r\n");

    let mut buf = BytesMut::new();
    buf.extend_from_slice(b"?what\r\n");
    assert_eq!(RespFrame::decode(&mut buf).unwrap_err(), RespError::InvalidFrame);
}

#[test]
fn test_decode_wrong_kind_refused() {
    let mut buf = BytesMut::new();
    buf.extend_from_slice(b"*1\r\n$1\r\na\r\n");
    assert_eq!(BulkString::decode(&mut buf).unwrap_err(), RespError::InvalidFrameType);
    assert_eq!(&buf[..], b"*1\r\n$1\r\na\r\n");

    let mut buf = BytesMut::new();
    buf.extend_from_slice(b"$1\r\na\r\n");
    assert_eq!(RespArray::decode(&mut buf).unwrap_err(), RespError::InvalidFrameType);
}

#[test]
fn test_expect_length() {
    let bytes = b"*2\r\n$3\r\nset\r\n$5\r\nhello\r\n";
    assert_eq!(RespFrame::expect_length(bytes).unwrap(), bytes.len());
    assert_eq!(RespArray::expect_length(bytes).unwrap(), bytes.len());
    assert_eq!(
        RespFrame::expect_length(&bytes[..bytes.len() - 1]).unwrap_err(),
        RespError::NotComplete
    );
    assert_eq!(BulkString::expect_length(b"$5\r\nhello\r\n").unwrap(), 11);
}
