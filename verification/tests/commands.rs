use bytes::BytesMut;
use simple_redis::backend::Backend;
use simple_redis::cmd::{
    Command, CommandError, Echo, HGet, HGetAll, HMGet, HSet, Sadd, SetCmd, Sismember,
};
use simple_redis::resp::{BulkString, RespArray, RespFrame, RespNull};

fn bulk(s: &[u8]) -> RespFrame {
    RespFrame::BulkString(BulkString::new(Some(s.to_vec())))
}

fn decode_array(bytes: &[u8]) -> RespArray {
    let mut buf = BytesMut::new();
    buf.extend_from_slice(bytes);
    RespArray::decode(&mut buf).unwrap()
}

#[test]
fn test_echo_from_resp_array() {
    let frame = decode_array(b"*2\r\n$4\r\necho\r\n$5\r\nhello\r\n");
    let result: Echo = Echo::try_from(frame).unwrap();
    assert_eq!(result.message, "hello");
}

#[test]
fn test_hget_from_resp_array() {
    let frame = decode_array(b"*3\r\n$4\r\nhget\r\n$3\r\nmap\r\n$5\r\nhello\r\n");
    let result: HGet = HGet::try_from(frame).unwrap();
    assert_eq!(result.key, "map");
    assert_eq!(result.field, "hello");
}

#[test]
fn test_hmget_from_resp_array() {
    let frame = decode_array(b"*4\r\n$5\r\nhmget\r\n$5\r\nhello\r\n$6\r\nfield1\r\n$6\r\nfield2\r\n");
    let result: HMGet = HMGet::try_from(frame).unwrap();
    assert_eq!(result.key, "hello");
    assert_eq!(result.fields.len(), 2);
    assert_eq!(result.fields[0], "field1");
    assert_eq!(result.fields[1], "field2");
}

#[test]
fn test_hgetall_from_resp_array() {
    let frame = decode_array(b"*2\r\n$7\r\nhgetall\r\n$3\r\nmap\r\n");
    let result: HGetAll = HGetAll::try_from(frame).unwrap();
    assert_eq!(result.key, "map");
}

#[test]
fn test_hset_from_resp_array() {
    let frame = decode_array(b"*4\r\n$4\r\nhset\r\n$3\r\nmap\r\n$5\r\nhello\r\n$5\r\nworld\r\n");
    let result: HSet = HSet::try_from(frame).unwrap();
    assert_eq!(result.key, "map");
    assert_eq!(result.field, "hello");
    assert!(result.value.frame_eq(&bulk(b"world")));
}

#[test]
fn test_hset_hget_hgetall_commands() {
    let mut backend = Backend::new();
    let cmd = HSet {
        key: "map".to_string(),
        field: "hello".to_string(),
        value: bulk(b"world"),
    };
    let result = cmd.execute(&mut backend);
    assert!(result.frame_eq(&RespFrame::Integer(1)));

    let cmd = HSet {
        key: "map".to_string(),
        field: "hello1".to_string(),
        value: bulk(b"world1"),
    };
    cmd.execute(&mut backend);

    let cmd = HGet {
        key: "map".to_string(),
        field: "hello".to_string(),
    };
    let result = cmd.execute(&backend);
    assert!(result.frame_eq(&bulk(b"world")));

    let cmd = HGetAll {
        key: "map".to_string(),
        sort: true,
    };
    let result = cmd.execute(&backend);

    let expected = RespFrame::Array(RespArray::new(Some(vec![
        bulk(b"hello"),
        bulk(b"world"),
        bulk(b"hello1"),
        bulk(b"world1"),
    ])));
    assert!(result.frame_eq(&expected));
}

#[test]
fn test_hset_hmget_commands() {
    let mut backend = Backend::new();
    let cmd = HSet {
        key: "hello".to_string(),
        field: "field1".to_string(),
        value: bulk(b"world1"),
    };
    let result = cmd.execute(&mut backend);
    assert!(result.frame_eq(&RespFrame::Integer(1)));

    let cmd = HSet {
        key: "hello".to_string(),
        field: "field2".to_string(),
        value: bulk(b"world2"),
    };
    cmd.execute(&mut backend);

    let cmd = HMGet {
        key: "hello".to_string(),
        fields: vec!["field1".to_string(), "field2".to_string()],
    };
    let result = cmd.execute(&backend);

    let expected = RespFrame::Array(RespArray::new(Some(vec![bulk(b"world1"), bulk(b"world2")])));
    assert!(result.frame_eq(&expected));
}

#[test]
fn test_command() {
    let frame = decode_array(b"*2\r\n$3\r\nget\r\n$5\r\nhello\r\n");
    let cmd: Command = Command::try_from(frame).unwrap();
    let mut backend = Backend::new();
    let ret = cmd.execute(&mut backend);
    assert!(ret.frame_eq(&RespFrame::Null(RespNull)));
}

#[test]
fn test_sadd_from_resp_array() {
    let frame = decode_array(b"*4\r\n$4\r\nsadd\r\n$5\r\nmyset\r\n$5\r\nhello\r\n$5\r\nworld\r\n");
    let result: Sadd = Sadd::try_from(frame).unwrap();
    assert_eq!(result.key, "myset");
    assert_eq!(result.members, vec!["hello".to_owned(), "world".to_owned()]);
}

#[test]
fn test_sismember_from_resp_array() {
    let frame = decode_array(b"*3\r\n$9\r\nsismember\r\n$5\r\nmyset\r\n$5\r\nhello\r\n");
    let result: Sismember = Sismember::try_from(frame).unwrap();
    assert_eq!(result.key, "myset");
    assert_eq!(result.member, "hello");
}

#[test]
fn test_sadd_sismember_command() {
    let mut backend = Backend::new();
    let cmd = Sadd {
        key: "myset".to_string(),
        members: vec!["hello".to_owned(), "world".to_owned()],
    };
    let result = cmd.execute(&mut backend);
    assert!(result.frame_eq(&RespFrame::Integer(2)));

    let cmd = Sismember {
        key: "myset".to_string(),
        member: "hello".to_string(),
    };
    let result = cmd.execute(&backend);
    assert!(result.frame_eq(&RespFrame::Integer(1)));
}

#[test]
fn test_sadd_dedup() {
    let mut backend = Backend::new();
    let cmd = Sadd {
        key: "s".to_string(),
        members: vec!["a".to_string(), "b".to_string(), "a".to_string()],
    };
    let result = cmd.execute(&mut backend);
    assert!(result.frame_eq(&RespFrame::Integer(2)));

    let cmd = Sismember {
        key: "s".to_string(),
        member: "a".to_string(),
    };
    assert!(cmd.execute(&backend).frame_eq(&RespFrame::Integer(1)));

    let cmd = Sismember {
        key: "s".to_string(),
        member: "z".to_string(),
    };
    assert!(cmd.execute(&backend).frame_eq(&RespFrame::Integer(0)));
}

#[test]
fn test_hset_overwrite() {
    let mut backend = Backend::new();
    let cmd = HSet {
        key: "h".to_string(),
        field: "f".to_string(),
        value: bulk(b"v1"),
    };
    assert!(cmd.execute(&mut backend).frame_eq(&RespFrame::Integer(1)));

    let cmd = HSet {
        key: "h".to_string(),
        field: "f".to_string(),
        value: bulk(b"v2"),
    };
    assert!(cmd.execute(&mut backend).frame_eq(&RespFrame::Integer(0)));

    let cmd = HGet {
        key: "h".to_string(),
        field: "f".to_string(),
    };
    assert!(cmd.execute(&backend).frame_eq(&bulk(b"v2")));
}

#[test]
fn test_missing_keys() {
    let mut backend = Backend::new();
    let cmd = Command::try_from(decode_array(b"*2\r\n$3\r\nget\r\n$4\r\nnope\r\n")).unwrap();
    assert!(cmd.execute(&mut backend).frame_eq(&RespFrame::Null(RespNull)));

    let cmd = HGetAll {
        key: "nope".to_string(),
        sort: false,
    };
    let reply = cmd.execute(&backend);
    assert!(reply.frame_eq(&RespFrame::Array(RespArray::new(None))));
    assert!(!reply.frame_eq(&RespFrame::Array(RespArray::new(Some(Vec::new())))));
}

#[test]
fn test_hmget_padding() {
    let mut backend = Backend::new();
    let cmd = HSet {
        key: "h".to_string(),
        field: "f".to_string(),
        value: bulk(b"v2"),
    };
    cmd.execute(&mut backend);

    let cmd = HMGet {
        key: "h".to_string(),
        fields: vec!["f".to_string(), "missing".to_string()],
    };
    let reply = cmd.execute(&backend);
    let expected = RespFrame::Array(RespArray::new(Some(vec![
        bulk(b"v2"),
        RespFrame::BulkString(BulkString::new(None)),
    ])));
    assert!(reply.frame_eq(&expected));
}

#[test]
fn test_get_scenario_wire() {
    let mut buf = BytesMut::new();
    buf.extend_from_slice(b"*2\r\n$3\r\nget\r\n$5\r\nhello\r\n");
    let frame = RespArray::decode(&mut buf).unwrap();
    let cmd = Command::try_from(frame).unwrap();
    let mut backend = Backend::new();
    let reply = cmd.execute(&mut backend);
    assert_eq!(reply.encode(), RespFrame::Null(RespNull).encode());
    assert_eq!(RespFrame::Null(RespNull).encode(), b"_\r\n".to_vec());
}

#[test]
fn test_sadd_sismember_wire() {
    let mut backend = Backend::new();

    let mut buf = BytesMut::new();
    buf.extend_from_slice(b"*3\r\n$4\r\nsadd\r\n$5\r\nmyset\r\n$5\r\nhello\r\n");
    let cmd = Command::try_from(RespArray::decode(&mut buf).unwrap()).unwrap();
    let reply = cmd.execute(&mut backend);
    assert_eq!(reply.encode(), b":1\r\n".to_vec());

    let mut buf = BytesMut::new();
    buf.extend_from_slice(b"*3\r\n$9\r\nsismember\r\n$5\r\nmyset\r\n$5\r\nhello\r\n");
    let cmd = Command::try_from(RespArray::decode(&mut buf).unwrap()).unwrap();
    let reply = cmd.execute(&mut backend);
    assert_eq!(reply.encode(), b":1\r\n".to_vec());
}

#[test]
fn test_set_then_get_wire() {
    let mut backend = Backend::new();

    let cmd = SetCmd {
        key: "hello".to_string(),
        value: bulk(b"world"),
    };
    let reply = cmd.execute(&mut backend);
    assert_eq!(reply.encode(), b"+OK\r\n".to_vec());

    let cmd = Command::try_from(decode_array(b"*2\r\n$3\r\nget\r\n$5\r\nhello\r\n")).unwrap();
    let reply = cmd.execute(&mut backend);
    assert!(reply.frame_eq(&bulk(b"world")));
}

#[test]
fn test_case_insensitive_names() {
    let frame = decode_array(b"*2\r\n$4\r\nECHO\r\n$2\r\nhi\r\n");
    let result: Echo = Echo::try_from(frame).unwrap();
    assert_eq!(result.message, "hi");

    let frame = decode_array(b"*2\r\n$4\r\nEcHo\r\n$2\r\nhi\r\n");
    let cmd = Command::try_from(frame).unwrap();
    let mut backend = Backend::new();
    assert!(cmd.execute(&mut backend).frame_eq(&bulk(b"hi")));
}

#[test]
fn test_unrecognized_command() {
    let frame = decode_array(b"*2\r\n$5\r\nwhoop\r\n$2\r\nhi\r\n");
    let cmd = Command::try_from(frame).unwrap();
    let mut backend = Backend::new();
    let reply = cmd.execute(&mut backend);
    assert_eq!(reply.encode(), b"+OK\r\n".to_vec());
}

#[test]
fn test_command_errors() {
    // a null array cannot be a request
    let err = Command::try_from(RespArray::new(None)).unwrap_err();
    assert_eq!(err, CommandError::InvalidCommand);

    // first element must be a bulk string
    let err = Command::try_from(RespArray::new(Some(vec![RespFrame::Integer(1)]))).unwrap_err();
    assert_eq!(err, CommandError::InvalidCommand);

    // wrong argument count
    let frame = decode_array(b"*1\r\n$3\r\nget\r\n");
    let err = Command::try_from(frame).unwrap_err();
    assert_eq!(err, CommandError::InvalidArgument);

    // a key position must hold text: a null bulk string is not text
    let frame = decode_array(b"*2\r\n$3\r\nget\r\n$-1\r\n");
    let err = Command::try_from(frame).unwrap_err();
    assert_eq!(err, CommandError::InvalidArgument);

    // non-UTF-8 bytes where text is required
    let frame = decode_array(b"*2\r\n$4\r\necho\r\n$2\r\n\xff\xfe\r\n");
    let err = Command::try_from(frame).unwrap_err();
    assert_eq!(err, CommandError::InvalidArgument);
}
