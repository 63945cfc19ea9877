use bytes::BytesMut;
use simple_redis::{serve_one, Backend, Step};

fn feed(buf: &mut BytesMut, backend: &mut Backend, input: &[u8]) -> Vec<u8> {
    buf.extend_from_slice(input);
    match serve_one(buf, backend) {
        Step::Reply(bytes) => bytes,
        other => panic!("expected a reply, got {:?}", other),
    }
}

#[test]
fn scenario_set_then_get() {
    let mut backend = Backend::new();
    let mut buf = BytesMut::new();
    let out = feed(&mut buf, &mut backend, b"*3\r\n$3\r\nSET\r\n$5\r\nhello\r\n$5\r\nworld\r\n");
    assert_eq!(out, b"+OK\r\n");
    let out = feed(&mut buf, &mut backend, b"*2\r\n$3\r\nGET\r\n$5\r\nhello\r\n");
    assert_eq!(out, b"$5\r\nworld\r\n");
}

#[test]
fn scenario_get_missing_key() {
    let mut backend = Backend::new();
    let mut buf = BytesMut::new();
    let out = feed(&mut buf, &mut backend, b"*2\r\n$3\r\nget\r\n$6\r\nabsent\r\n");
    assert_eq!(out, b"_\r\n");
}

#[test]
fn scenario_hset_then_hgetall() {
    let mut backend = Backend::new();
    let mut buf = BytesMut::new();
    let out = feed(&mut buf, &mut backend, b"*4\r\n$4\r\nhset\r\n$1\r\nh\r\n$1\r\na\r\n$1\r\n1\r\n");
    assert_eq!(out, b"+OK\r\n");
    let out = feed(&mut buf, &mut backend, b"*4\r\n$4\r\nhset\r\n$1\r\nh\r\n$1\r\nb\r\n$1\r\n2\r\n");
    assert_eq!(out, b"+OK\r\n");
    let out = feed(&mut buf, &mut backend, b"*2\r\n$7\r\nhgetall\r\n$1\r\nh\r\n");
    let ab: &[u8] = b"*4\r\n$1\r\na\r\n$1\r\n1\r\n$1\r\nb\r\n$1\r\n2\r\n";
    let ba: &[u8] = b"*4\r\n$1\r\nb\r\n$1\r\n2\r\n$1\r\na\r\n$1\r\n1\r\n";
    assert!(out == ab || out == ba, "unexpected reply {:?}", out);
}

#[test]
fn scenario_sadd_duplicates() {
    let mut backend = Backend::new();
    let mut buf = BytesMut::new();
    let out = feed(&mut buf, &mut backend, b"*4\r\n$4\r\nsadd\r\n$1\r\ns\r\n$1\r\nx\r\n$1\r\nx\r\n");
    assert_eq!(out, b":1\r\n");
    let out = feed(&mut buf, &mut backend, b"*3\r\n$9\r\nsismember\r\n$1\r\ns\r\n$1\r\nx\r\n");
    assert_eq!(out, b":1\r\n");
}

#[test]
fn scenario_echo() {
    let mut backend = Backend::new();
    let mut buf = BytesMut::new();
    let out = feed(&mut buf, &mut backend, b"*2\r\n$4\r\necho\r\n$5\r\nhello\r\n");
    assert_eq!(out, b"$5\r\nhello\r\n");
}

#[test]
fn scenario_partial_frame_then_completion() {
    let mut backend = Backend::new();
    let mut buf = BytesMut::new();
    let first: &[u8] = b"*3\r\n$3\r\nSET\r\n$5\r\nhe";
    buf.extend_from_slice(first);
    assert!(matches!(serve_one(&mut buf, &mut backend), Step::NeedMore));
    assert_eq!(&buf[..], first);
    let out = feed(&mut buf, &mut backend, b"llo\r\n$5\r\nworld\r\n");
    assert_eq!(out, b"+OK\r\n");
    assert!(buf.is_empty());
    assert!(matches!(serve_one(&mut buf, &mut backend), Step::NeedMore));
}

#[test]
fn scenario_sadd_twice_idempotent() {
    let mut backend = Backend::new();
    let mut buf = BytesMut::new();
    let out = feed(&mut buf, &mut backend, b"*3\r\n$4\r\nsadd\r\n$1\r\nk\r\n$1\r\nm\r\n");
    assert_eq!(out, b":1\r\n");
    let out = feed(&mut buf, &mut backend, b"*3\r\n$4\r\nsadd\r\n$1\r\nk\r\n$1\r\nm\r\n");
    assert_eq!(out, b":0\r\n");
    let out = feed(&mut buf, &mut backend, b"*3\r\n$9\r\nsismember\r\n$1\r\nk\r\n$1\r\nm\r\n");
    assert_eq!(out, b":1\r\n");
}

#[test]
fn scenario_set_twice_then_get() {
    let mut backend = Backend::new();
    let mut buf = BytesMut::new();
    for _ in 0..2 {
        let out = feed(&mut buf, &mut backend, b"*3\r\n$3\r\nset\r\n$1\r\nk\r\n$1\r\nv\r\n");
        assert_eq!(out, b"+OK\r\n");
    }
    let out = feed(&mut buf, &mut backend, b"*2\r\n$3\r\nget\r\n$1\r\nk\r\n");
    assert_eq!(out, b"$1\r\nv\r\n");
}

#[test]
fn malformed_request_closes() {
    let mut backend = Backend::new();
    let mut buf = BytesMut::new();
    buf.extend_from_slice(b"!oops\r\n");
    assert!(matches!(serve_one(&mut buf, &mut backend), Step::Close(_)));
}

#[test]
fn pipelined_requests_are_answered_in_order() {
    let mut backend = Backend::new();
    let mut buf = BytesMut::new();
    buf.extend_from_slice(b"*2\r\n$4\r\necho\r\n$1\r\na\r\n*2\r\n$4\r\necho\r\n$1\r\nb\r\n");
    let a = match serve_one(&mut buf, &mut backend) {
        Step::Reply(b) => b,
        other => panic!("{:?}", other),
    };
    let b = match serve_one(&mut buf, &mut backend) {
        Step::Reply(b) => b,
        other => panic!("{:?}", other),
    };
    assert_eq!(a, b"$1\r\na\r\n");
    assert_eq!(b, b"$1\r\nb\r\n");
}
