use bytes::BytesMut;
use simple_redis::cmd::{extract_args, validate_command};
use simple_redis::{
    Backend, BulkString, CommandError, Echo, RespArray, RespFrame, SAdd, Sismember,
};

fn bulk(s: &[u8]) -> RespFrame {
    RespFrame::BulkString(BulkString::new(s.to_vec()))
}

fn request(parts: &[&[u8]]) -> RespArray {
    let mut items = Vec::new();
    for p in parts {
        items.push(bulk(p));
    }
    RespArray::new(items, false)
}

#[test]
fn test_echo_from_resparry() {
    let mut buf = BytesMut::new();
    buf.extend_from_slice(b"*2\r\n$4\r\necho\r\n$5\r\nhello\r\n");

    let frame = RespArray::decode(&mut buf).unwrap();

    let result: Echo = Echo::try_from(frame).unwrap();
    assert_eq!(result.msg, b"hello".to_vec());
}

#[test]
fn test_echo_hello() {
    let backend = Backend::new();
    let cmd = Echo {
        msg: b"hello".to_vec(),
    };
    let result = cmd.execute(&backend);
    assert_eq!(result, bulk(b"hello"));
}

#[test]
fn test_echo_is_case_insensitive_and_strict() {
    let cmd = Echo::try_from(request(&[b"ECHO", b"hi"])).unwrap();
    assert_eq!(cmd.msg, b"hi".to_vec());
    assert_eq!(
        Echo::try_from(request(&[b"ping", b"hi"])).unwrap_err(),
        CommandError::WrongCommand
    );
    assert_eq!(
        Echo::try_from(request(&[b"echo"])).unwrap_err(),
        CommandError::WrongNumberOfArguments
    );
    assert_eq!(
        Echo::try_from(request(&[b"echo", b"a", b"b"])).unwrap_err(),
        CommandError::WrongNumberOfArguments
    );
    // a null bulk string is not a valid message
    let arr = RespArray::new(
        vec![bulk(b"echo"), RespFrame::BulkString(BulkString::null())],
        false,
    );
    assert_eq!(
        Echo::try_from(arr).unwrap_err(),
        CommandError::InvalidArgument
    );
    // a null array names no command at all
    assert_eq!(
        Echo::try_from(RespArray::new(vec![], true)).unwrap_err(),
        CommandError::WrongCommand
    );
}

#[test]
fn test_scenario_echo_execute_encode() {
    let mut buf = BytesMut::new();
    buf.extend_from_slice(b"*2\r\n$4\r\necho\r\n$5\r\nhello\r\n");
    let frame = RespArray::decode(&mut buf).unwrap();
    let cmd = Echo::try_from(frame).unwrap();
    let mut backend = Backend::new();
    let reply = cmd.execute(&mut backend);
    assert_eq!(reply, bulk(b"hello"));
    assert_eq!(reply.encode(), b"$5\r\nhello\r\n".to_vec());
}

#[test]
fn test_scenario_sismember_after_sadd() {
    let mut backend = Backend::new();
    // empty backend: not a member
    let ask = Sismember::try_from(request(&[b"sismember", b"s", b"a"])).unwrap();
    assert_eq!(ask.execute(&backend), bulk(b"0"));
    // add it, then ask again
    let add = SAdd::try_from(request(&[b"sadd", b"s", b"a"])).unwrap();
    let reply = add.execute(&mut backend);
    assert_eq!(reply, bulk(b"OK"));
    let ask = Sismember::try_from(request(&[b"sismember", b"s", b"a"])).unwrap();
    assert_eq!(ask.execute(&backend), bulk(b"1"));
    // a different key stays empty
    let ask = Sismember::try_from(request(&[b"sismember", b"t", b"a"])).unwrap();
    assert_eq!(ask.execute(&backend), bulk(b"0"));
}

#[test]
fn test_sadd_idempotent_membership() {
    let mut backend = Backend::new();
    // a repeated member within one command, and the command run twice
    let add = SAdd::try_from(request(&[b"sadd", b"s", b"a", b"a", b"b"])).unwrap();
    add.execute(&mut backend);
    let add = SAdd::try_from(request(&[b"sadd", b"s", b"a", b"a", b"b"])).unwrap();
    add.execute(&mut backend);
    for (member, expect) in [(&b"a"[..], b"1"), (b"b", b"1"), (b"c", b"0")] {
        let ask = Sismember::try_from(request(&[b"sismember", b"s", member])).unwrap();
        // the answer is also stable across repeated queries
        assert_eq!(ask.execute(&backend), bulk(expect));
        let ask = Sismember::try_from(request(&[b"sismember", b"s", member])).unwrap();
        assert_eq!(ask.execute(&backend), bulk(expect));
    }
}

#[test]
fn test_sadd_validation() {
    // a key without a member, or no key at all, fails construction
    assert_eq!(
        SAdd::try_from(request(&[b"sadd", b"s"])).unwrap_err(),
        CommandError::InvalidArgument
    );
    assert_eq!(
        SAdd::try_from(request(&[b"sadd"])).unwrap_err(),
        CommandError::InvalidArgument
    );
    assert_eq!(
        SAdd::try_from(request(&[b"srem", b"s", b"a"])).unwrap_err(),
        CommandError::WrongCommand
    );
    // a key must be UTF-8 text
    assert_eq!(
        SAdd::try_from(request(&[b"sadd", &[0xff, 0xfe], b"a"])).unwrap_err(),
        CommandError::InvalidArgument
    );
    // a multi-byte UTF-8 key is fine
    let cmd = SAdd::try_from(request(&[b"SADD", "héllo".as_bytes(), b"a"])).unwrap();
    assert_eq!(cmd.key, "héllo".as_bytes().to_vec());
}

#[test]
fn test_sadd_skips_non_utf8_and_non_bulk_members() {
    let mut backend = Backend::new();
    let arr = RespArray::new(
        vec![
            bulk(b"sadd"),
            bulk(b"s"),
            bulk(&[0xff, 0xfe]),
            RespFrame::Array(RespArray::new(vec![], false)),
            bulk(b"ok"),
        ],
        false,
    );
    let add = SAdd::try_from(arr).unwrap();
    assert_eq!(add.execute(&mut backend), bulk(b"OK"));
    let ask = Sismember::try_from(request(&[b"sismember", b"s", b"ok"])).unwrap();
    assert_eq!(ask.execute(&backend), bulk(b"1"));
}

#[test]
fn test_sismember_validation() {
    assert_eq!(
        Sismember::try_from(request(&[b"sismember", b"s"])).unwrap_err(),
        CommandError::WrongNumberOfArguments
    );
    assert_eq!(
        Sismember::try_from(request(&[b"sismember", b"s", b"a", b"b"])).unwrap_err(),
        CommandError::WrongNumberOfArguments
    );
    assert_eq!(
        Sismember::try_from(request(&[b"sismember", b"s", &[0xff]])).unwrap_err(),
        CommandError::InvalidArgument
    );
    assert_eq!(
        Sismember::try_from(request(&[b"exists", b"s", b"a"])).unwrap_err(),
        CommandError::WrongCommand
    );
}

#[test]
fn test_validate_and_extract_args() {
    let arr = request(&[b"echo", b"hello"]);
    assert!(validate_command(&arr, b"echo", 1).is_ok());
    assert_eq!(
        validate_command(&arr, b"echo", 2).unwrap_err(),
        CommandError::WrongNumberOfArguments
    );
    assert_eq!(
        validate_command(&arr, b"get", 1).unwrap_err(),
        CommandError::WrongCommand
    );
    let args = extract_args(arr, 1).unwrap();
    assert_eq!(args, vec![bulk(b"hello")]);
}
