use simple_redis::{
    BulkString, RespArray, RespEncoder, RespFrame, RespMap, RespNull, RespNullArray,
    RespNullBulkString, RespSet, SimpleError, SimpleString,
};

#[test]
fn encode_test_simple_string_encode() {
    let frame = SimpleString::new("OK");
    assert_eq!(frame.encode(), b"+OK\r\n");
}

#[test]
fn simple_string_test_simple_string_encode() {
    let frame = SimpleString::new("OK");
    assert_eq!(frame.encode(), b"+OK\r\n");
}

#[test]
fn encode_test_simple_error_encode() {
    let frame = SimpleError::new("Error message");
    assert_eq!(frame.encode(), b"-Error message\r\n");
}

#[test]
fn simple_error_test_simple_error_encode() {
    let frame = SimpleError::new("Error message");
    assert_eq!(frame.encode(), b"-Error message\r\n");
}

#[test]
fn encode_test_integer_encode() {
    let frame: i64 = 123;
    assert_eq!(frame.encode(), b":123\r\n");
    let frame: i64 = -123;
    assert_eq!(frame.encode(), b":-123\r\n");
}

#[test]
fn integer_test_integer_encode() {
    let frame: i64 = 123;
    assert_eq!(frame.encode(), b":123\r\n");
    let frame: i64 = -123;
    assert_eq!(frame.encode(), b":-123\r\n");
}

#[test]
fn encode_test_bulk_string_encode() {
    let frame = BulkString::new(b"hello");
    assert_eq!(frame.encode(), b"$5\r\nhello\r\n");
}

#[test]
fn bulk_string_test_bulk_string_encode() {
    let frame = BulkString::new("hello".as_bytes());
    assert_eq!(frame.encode(), b"$5\r\nhello\r\n");
}

#[test]
fn encode_test_null_bulk_string_encode() {
    let frame = RespNullBulkString;
    assert_eq!(frame.encode(), b"$-1\r\n");
}

#[test]
fn bulk_string_test_null_bulk_string_encode() {
    let frame = RespNullBulkString;
    assert_eq!(frame.encode(), b"$-1\r\n");
}

#[test]
fn encode_test_array_encode() {
    let frame = RespArray::new(vec![
        RespFrame::BulkString(BulkString::new(b"set")),
        RespFrame::BulkString(BulkString::new(b"hello")),
    ]);
    assert_eq!(frame.encode(), b"*2\r\n$3\r\nset\r\n$5\r\nhello\r\n");
}

#[test]
fn array_test_array_encode() {
    let frame = RespArray::new(vec![
        RespFrame::BulkString(BulkString::new(b"set")),
        RespFrame::BulkString(BulkString::new(b"hello")),
    ]);
    assert_eq!(frame.encode(), b"*2\r\n$3\r\nset\r\n$5\r\nhello\r\n");
}

#[test]
fn encode_test_null_array_encode() {
    let frame = RespNullArray;
    assert_eq!(frame.encode(), b"*-1\r\n");
}

#[test]
fn array_test_null_array_encode() {
    let frame = RespNullArray;
    assert_eq!(frame.encode(), b"*-1\r\n");
}

#[test]
fn encode_test_null_encode() {
    let frame = RespNull;
    assert_eq!(frame.encode(), b"_\r\n");
}

#[test]
fn frame_test_null_encode() {
    let frame = RespNull::new();
    assert_eq!(frame.encode(), b"_\r\n");
}

#[test]
fn encode_test_boolean_encode() {
    let frame = true;
    assert_eq!(frame.encode(), b"#t\r\n");
    let frame = false;
    assert_eq!(frame.encode(), b"#f\r\n");
}

#[test]
fn bool_test_boolean_encode() {
    let frame = true;
    assert_eq!(frame.encode(), b"#t\r\n");
    let frame = false;
    assert_eq!(frame.encode(), b"#f\r\n");
}

#[test]
fn encode_test_map_encode() {
    let mut map = RespMap::new();
    map.insert("age".to_string(), RespFrame::Integer(18));
    map.insert("name".to_string(), RespFrame::BulkString(BulkString::new(b"zhangsan")));
    let frame = map;
    assert_eq!(
        frame.encode(),
        b"%2\r\n+age\r\n:18\r\n+name\r\n$8\r\nzhangsan\r\n"
    );
}

#[test]
fn map_test_map_encode() {
    let mut map = RespMap::new();
    map.insert("age".to_string(), RespFrame::Integer(18));
    map.insert("name".to_string(), RespFrame::BulkString(BulkString::new(b"zhangsan")));
    let frame = map;
    assert_eq!(
        frame.encode(),
        b"%2\r\n+age\r\n:18\r\n+name\r\n$8\r\nzhangsan\r\n"
    );
}

#[test]
fn encode_test_set_encode() {
    let mut set = RespSet::new();
    set.insert(RespFrame::BulkString(BulkString::new(b"zhangsan")));
    set.insert(RespFrame::BulkString(BulkString::new(b"lisi")));
    set.insert(RespFrame::Integer(123));
    set.insert(RespFrame::BulkString(BulkString::new(b"lisi")));
    let frame = set;
    assert_eq!(
        frame.encode(),
        b"~3\r\n$8\r\nzhangsan\r\n$4\r\nlisi\r\n:123\r\n"
    );
}

#[test]
fn set_test_set_encode() {
    let mut set = RespSet::new();
    set.insert(RespFrame::BulkString(BulkString::new(b"zhangsan")));
    set.insert(RespFrame::BulkString(BulkString::new(b"lisi")));
    set.insert(RespFrame::Integer(123));
    set.insert(RespFrame::BulkString(BulkString::new(b"lisi")));
    let frame = set;
    assert_eq!(
        frame.encode(),
        b"~3\r\n$8\r\nzhangsan\r\n$4\r\nlisi\r\n:123\r\n"
    );
}

#[test]
fn map_insert_orders_keys_and_replaces_values() {
    let mut map = RespMap::new();
    map.insert("name".to_string(), RespFrame::Integer(1));
    map.insert("age".to_string(), RespFrame::Integer(2));
    map.insert("name".to_string(), RespFrame::Integer(3));
    assert_eq!(map.encode(), b"%2\r\n+age\r\n:2\r\n+name\r\n:3\r\n");
}

#[test]
fn integer_encode_extremes() {
    assert_eq!(i64::MAX.encode(), b":9223372036854775807\r\n");
    assert_eq!(i64::MIN.encode(), b":-9223372036854775808\r\n");
    assert_eq!(0i64.encode(), b":0\r\n");
}

#[test]
fn nested_frame_encode() {
    let mut map = RespMap::new();
    map.insert("k".to_string(), RespFrame::NullArray(RespNullArray));
    let frame = RespFrame::Array(RespArray::new(vec![
        RespFrame::Mapping(map),
        RespFrame::Array(RespArray::new(vec![])),
        RespFrame::Null(RespNull),
    ]));
    assert_eq!(frame.encode(), b"*3\r\n%1\r\n+k\r\n*-1\r\n*0\r\n_\r\n");
}

#[test]
fn string_encodes_as_simple_string() {
    assert_eq!("hi".to_string().encode(), b"+hi\r\n");
}
