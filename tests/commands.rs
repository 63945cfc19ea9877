use bytes::BytesMut;
use simple_redis::{
    respond, Backend, BulkString, Command, CommandError, CommandExcetor, Echo, Get, HGet, HGetAll,
    HMget, HSet, RespArray, RespDecoder, RespEncoder, RespFrame, Sadd, SetCommand, SimpleError,
    SimpleString, Sismember,
};

fn array(bytes: &[u8]) -> RespArray {
    let mut buf = BytesMut::new();
    buf.extend_from_slice(bytes);
    RespArray::decode(&mut buf).unwrap()
}

fn bulk(b: &[u8]) -> RespFrame {
    RespFrame::BulkString(BulkString::new(b))
}

#[test]
fn test_get_command() {
    let frame = array(b"*2\r\n$3\r\nget\r\n$3\r\nkey\r\n");
    let result = Get::try_from(frame).unwrap();
    assert_eq!(result.key, "key");
}

#[test]
fn test_set_command() {
    let frame = array(b"*3\r\n$3\r\nset\r\n$5\r\nhello\r\n$5\r\nworld\r\n");
    let result = SetCommand::try_from(frame).unwrap();
    assert_eq!(result.key, "hello");
    assert_eq!(result.value, bulk(b"world"));
}

#[test]
fn test_set_ge_command() {
    let frame = array(b"*3\r\n$3\r\nset\r\n$5\r\nhello\r\n$5\r\nworld\r\n");
    let cmd = SetCommand::try_from(frame).unwrap();
    let mut backend = Backend::new();
    cmd.execute(&mut backend);
    let frame = array(b"*2\r\n$3\r\nget\r\n$5\r\nhello\r\n");
    let get_cmd = Get::try_from(frame).unwrap();
    let result = get_cmd.execute(&mut backend);
    assert_eq!(result, bulk(b"world"));
}

#[test]
fn test_hget_command() {
    let frame = array(b"*3\r\n$4\r\nhget\r\n$3\r\nkey\r\n$5\r\nfield\r\n");
    let result = HGet::try_from(frame).unwrap();
    assert_eq!(result.key, "key");
    assert_eq!(result.field, "field");
}

#[test]
fn test_hgetall_command() {
    let frame = array(b"*2\r\n$7\r\nhgetall\r\n$3\r\nkey\r\n");
    let result = HGetAll::try_from(frame).unwrap();
    assert_eq!(result.key, "key");
}

#[test]
fn test_hset_command() {
    let frame = array(b"*4\r\n$4\r\nhset\r\n$3\r\nkey\r\n$5\r\nfield\r\n$5\r\nvalue\r\n");
    let result = HSet::try_from(frame).unwrap();
    assert_eq!(result.key, "key");
    assert_eq!(result.field, "field");
    assert_eq!(result.value, bulk(b"value"));
}

#[test]
fn test_hmget_command() {
    let frame = array(b"*4\r\n$5\r\nhmget\r\n$3\r\nsay\r\n$5\r\nhello\r\n$6\r\nhello1\r\n");
    let result = HMget::try_from(frame).unwrap();
    assert_eq!(result.key, "say");
    assert_eq!(result.fields, vec!["hello", "hello1"]);
}

#[test]
fn test_sadd() {
    let frame = array(b"*4\r\n$4\r\nsadd\r\n$5\r\nmyset\r\n$4\r\nfour\r\n$4\r\nfive\r\n");
    let sadd = Sadd::try_from(frame).unwrap();
    assert_eq!(sadd.key, "myset");
    assert_eq!(sadd.members, vec!["four", "five"]);
    assert_eq!(sadd.execute(&mut Backend::new()), RespFrame::Integer(2));
}

#[test]
fn test_sismember() {
    let frame = array(b"*3\r\n$9\r\nsismember\r\n$5\r\nmyset\r\n$4\r\nfour\r\n");
    let sismember = Sismember::try_from(frame).unwrap();
    assert_eq!(sismember.key, "myset");
    assert_eq!(sismember.member, "four");
    assert_eq!(sismember.execute(&mut Backend::new()), RespFrame::Integer(0));
}

#[test]
fn echo_replies_with_message() {
    let frame = array(b"*2\r\n$4\r\necho\r\n$5\r\nhello\r\n");
    let echo = Echo::try_from(frame).unwrap();
    assert_eq!(echo.execute(&mut Backend::new()), bulk(b"hello"));
}

#[test]
fn command_names_ignore_case() {
    let frame = array(b"*2\r\n$3\r\nGeT\r\n$1\r\nk\r\n");
    assert!(matches!(Command::try_from_array(frame).unwrap(), Command::Get(_)));
}

#[test]
fn wrong_arity_is_invalid_argument() {
    let frame = array(b"*3\r\n$3\r\nget\r\n$1\r\na\r\n$1\r\nb\r\n");
    assert!(matches!(Get::try_from(frame).unwrap_err(), CommandError::InvalidArgument(_)));
    let frame = array(b"*2\r\n$4\r\nsadd\r\n$1\r\ns\r\n");
    assert!(matches!(Sadd::try_from(frame).unwrap_err(), CommandError::InvalidArgument(_)));
}

#[test]
fn non_bulk_argument_is_invalid_argument() {
    let frame = array(b"*2\r\n$3\r\nget\r\n:1\r\n");
    assert!(matches!(Get::try_from(frame).unwrap_err(), CommandError::InvalidArgument(_)));
}

#[test]
fn non_array_is_invalid_command() {
    let r = Command::try_from(RespFrame::Integer(1));
    assert!(matches!(r.unwrap_err(), CommandError::InvalidCommand(_)));
    let r = Command::try_from_array(RespArray::new(vec![RespFrame::Integer(1)]));
    assert!(matches!(r.unwrap_err(), CommandError::InvalidCommand(_)));
}

#[test]
fn unrecognized_command_replies_ok() {
    let mut backend = Backend::new();
    let frame = RespFrame::Array(array(b"*1\r\n$4\r\nping\r\n"));
    let reply = respond(frame, &mut backend);
    assert_eq!(reply, RespFrame::SimpleString(SimpleString::new("OK")));
}

#[test]
fn malformed_command_gets_error_reply() {
    let mut backend = Backend::new();
    let reply = respond(RespFrame::Integer(3), &mut backend);
    assert_eq!(reply, RespFrame::Error(SimpleError::new("ERR invalid command")));
    let frame = RespFrame::Array(array(b"*1\r\n$3\r\nget\r\n"));
    let reply = respond(frame, &mut backend);
    assert_eq!(reply.encode(), b"-ERR invalid argument\r\n");
}

#[test]
fn hmget_marks_missing_fields() {
    let mut backend = Backend::new();
    backend.hset("h".to_string(), "a".to_string(), RespFrame::Integer(1));
    let frame = array(b"*4\r\n$5\r\nhmget\r\n$1\r\nh\r\n$1\r\na\r\n$1\r\nz\r\n");
    let cmd = HMget::try_from(frame).unwrap();
    assert_eq!(
        cmd.execute(&mut backend),
        RespFrame::Array(RespArray::new(vec![
            RespFrame::Integer(1),
            RespFrame::SimpleString(SimpleString::new("(nil)")),
        ]))
    );
}

#[test]
fn store_set_twice_then_get() {
    let mut backend = Backend::new();
    backend.set("k".to_string(), bulk(b"v"));
    backend.set("k".to_string(), bulk(b"v"));
    assert_eq!(backend.get("k"), Some(bulk(b"v")));
    assert_eq!(backend.get("other"), None);
}

#[test]
fn store_sadd_twice() {
    let mut backend = Backend::new();
    let members = vec!["m".to_string()];
    assert_eq!(backend.sadd("s".to_string(), &members), 1);
    assert_eq!(backend.sadd("s".to_string(), &members), 0);
    assert_eq!(backend.sismember("s".to_string(), "m".to_string()), 1);
    assert_eq!(backend.sismember("s".to_string(), "n".to_string()), 0);
}

#[test]
fn store_hash_snapshot() {
    let mut backend = Backend::new();
    assert!(backend.hgetall("h").is_none());
    backend.hset("h".to_string(), "a".to_string(), RespFrame::Integer(1));
    backend.hset("h".to_string(), "b".to_string(), RespFrame::Integer(2));
    backend.hset("h".to_string(), "a".to_string(), RespFrame::Integer(3));
    let mut pairs = backend.hgetall("h").unwrap();
    pairs.sort_by(|x, y| x.0.cmp(&y.0));
    assert_eq!(
        pairs,
        vec![
            ("a".to_string(), RespFrame::Integer(3)),
            ("b".to_string(), RespFrame::Integer(2)),
        ]
    );
    assert_eq!(backend.hget("h", "b"), Some(RespFrame::Integer(2)));
    assert_eq!(backend.hget("h", "c"), None);
}

#[test]
fn sadd_keeps_members_distinct() {
    let mut backend = Backend::new();
    let members = vec!["a".to_string(), "b".to_string(), "a".to_string()];
    assert_eq!(backend.sadd("s".to_string(), &members), 2);
    assert_eq!(backend.sadd("s".to_string(), &vec!["b".to_string(), "c".to_string()]), 1);
    assert_eq!(backend.sismember("s".to_string(), "c".to_string()), 1);
}
