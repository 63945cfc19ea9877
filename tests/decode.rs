use bytes::{BufMut, BytesMut};
use simple_redis::{
    BulkString, RespArray, RespDecoder, RespDouble, RespEncoder, RespError, RespFrame, RespMap, RespNull,
    RespNullArray, RespNullBulkString, RespSet, SimpleError, SimpleString,
};

fn buffer(bytes: &[u8]) -> BytesMut {
    let mut data = BytesMut::new();
    data.extend_from_slice(bytes);
    data
}

fn bulk(b: &[u8]) -> RespFrame {
    RespFrame::BulkString(BulkString::new(b))
}

fn simple_string_decode_case() {
    let mut data = buffer(b"+OK\r\n");
    let frame = SimpleString::new("OK");
    let result = SimpleString::decode(&mut data).unwrap();
    assert_eq!(result, frame);

    let mut data = buffer(b"+hello\r");
    let result = SimpleString::decode(&mut data);
    assert_eq!(result.unwrap_err(), RespError::NotComplete);

    data.put_u8(b'\n');
    let result = SimpleString::decode(&mut data).unwrap();
    assert_eq!(result, SimpleString::new("hello"));
}

#[test]
fn decode_test_simple_string_decode() {
    simple_string_decode_case();
}

#[test]
fn simple_string_test_simple_string_decode() {
    simple_string_decode_case();
}

fn simple_error_decode_case() {
    let mut data = buffer(b"-Error message\r\n");
    let frame = SimpleError::new("Error message");
    let result = SimpleError::decode(&mut data).unwrap();
    assert_eq!(result, frame);

    let mut data = buffer(b"-hello\r");
    let result = SimpleError::decode(&mut data);
    assert_eq!(result.unwrap_err(), RespError::NotComplete);

    data.put_u8(b'\n');
    let result = SimpleError::decode(&mut data).unwrap();
    assert_eq!(result, SimpleError::new("hello"));
}

#[test]
fn decode_test_simple_error_decode() {
    simple_error_decode_case();
}

#[test]
fn simple_error_test_simple_error_decode() {
    simple_error_decode_case();
}

fn integer_decode_case() {
    let mut data = buffer(b":100\r\n");
    let frame: i64 = 100;
    let result = i64::decode(&mut data).unwrap();
    assert_eq!(result, frame);

    let mut data = buffer(b":100\r");
    let result = i64::decode(&mut data);
    assert_eq!(result.unwrap_err(), RespError::NotComplete);

    data.put_u8(b'\n');
    let result = i64::decode(&mut data).unwrap();
    assert_eq!(result, 100);
}

#[test]
fn decode_test_integer_decode() {
    integer_decode_case();
}

#[test]
fn integer_test_integer_decode() {
    integer_decode_case();
}

fn bool_decode_case() {
    let mut data = buffer(b"#t\r\n");
    let result = bool::decode(&mut data).unwrap();
    assert_eq!(result, true);

    let mut data = buffer(b"#f\r\n");
    let result = bool::decode(&mut data).unwrap();
    assert_eq!(result, false);

    let mut data = buffer(b"#t\r");
    let result = bool::decode(&mut data);
    assert_eq!(result.unwrap_err(), RespError::NotComplete);

    data.put_u8(b'\n');
    let result = bool::decode(&mut data).unwrap();
    assert!(result);
}

#[test]
fn decode_test_bool_decode() {
    bool_decode_case();
}

#[test]
fn bool_test_bool_decode() {
    bool_decode_case();
}

fn array_decode_case() {
    let mut buf = buffer(b"*2\r\n$3\r\nset\r\n$5\r\nhello\r\n");
    let frame = RespArray::decode(&mut buf).unwrap();
    assert_eq!(frame, RespArray::new(vec![bulk(b"set"), bulk(b"hello")]));

    let mut buf = buffer(b"*2\r\n$3\r\nset\r\n");
    let frame = RespArray::decode(&mut buf);
    assert_eq!(frame.unwrap_err(), RespError::NotComplete);
}

#[test]
fn decode_test_array_decode() {
    array_decode_case();
}

#[test]
fn array_test_array_decode() {
    array_decode_case();
}

fn double_decode_case() {
    let mut data = buffer(b",1.23\r\n");
    let result = RespDouble::decode(&mut data).unwrap();
    let text = String::from_utf8(result.0.clone()).unwrap();
    assert_eq!(text.parse::<f64>().unwrap(), 1.23);

    let mut data = buffer(b",+1.23456e8\r\n");
    let result = RespDouble::decode(&mut data).unwrap();
    let text = String::from_utf8(result.0.clone()).unwrap();
    assert_eq!(text.parse::<f64>().unwrap(), 1.23456e+8);

    let mut data = buffer(b",-1.23456e-9\r\n");
    let result = RespDouble::decode(&mut data).unwrap();
    let text = String::from_utf8(result.0.clone()).unwrap();
    assert_eq!(text.parse::<f64>().unwrap(), -1.23456e-9);
}

#[test]
fn decode_test_double_encode() {
    double_decode_case();
}

#[test]
fn test_double_decode() {
    double_decode_case();
}

fn bulk_string_decode_case() {
    let mut data = buffer(b"$5\r\nhello\r\n");
    let result = BulkString::decode(&mut data).unwrap();
    assert_eq!(result, BulkString::new(b"hello"));
}

#[test]
fn decode_test_bulk_string_decode() {
    bulk_string_decode_case();
}

#[test]
fn bulk_string_test_bulk_string_decode() {
    bulk_string_decode_case();
}

#[test]
fn empty_bulk_string_decodes() {
    let mut data = buffer(b"$0\r\n\r\n");
    let frame = RespFrame::decode(&mut data).unwrap();
    assert_eq!(frame, bulk(b""));
    assert!(data.is_empty());
}

#[test]
fn empty_array_decodes() {
    let mut data = buffer(b"*0\r\n");
    let frame = RespFrame::decode(&mut data).unwrap();
    assert_eq!(frame, RespFrame::Array(RespArray::new(vec![])));
    assert!(data.is_empty());
}

#[test]
fn null_variants_stay_distinct() {
    let nb = RespFrame::decode(&mut buffer(b"$-1\r\n")).unwrap();
    let na = RespFrame::decode(&mut buffer(b"*-1\r\n")).unwrap();
    let nl = RespFrame::decode(&mut buffer(b"_\r\n")).unwrap();
    assert_eq!(nb, RespFrame::NullBulkString(RespNullBulkString));
    assert_eq!(na, RespFrame::NullArray(RespNullArray));
    assert_eq!(nl, RespFrame::Null(RespNull));
    assert_ne!(nb, nl);
    assert_ne!(na, nl);
    assert_ne!(nb, na);
}

#[test]
fn null_marker_prefix_is_not_complete() {
    let mut data = buffer(b"$-");
    assert_eq!(RespFrame::decode(&mut data).unwrap_err(), RespError::NotComplete);
    assert_eq!(&data[..], b"$-");
    let mut data = buffer(b"*-1\r");
    assert_eq!(RespFrame::decode(&mut data).unwrap_err(), RespError::NotComplete);
}

#[test]
fn integer_boundaries_parse() {
    assert_eq!(i64::decode(&mut buffer(b":+0\r\n")).unwrap(), 0);
    assert_eq!(i64::decode(&mut buffer(b":-0\r\n")).unwrap(), 0);
    assert_eq!(i64::decode(&mut buffer(b":0\r\n")).unwrap(), 0);
    assert_eq!(i64::decode(&mut buffer(b":9223372036854775807\r\n")).unwrap(), i64::MAX);
    assert_eq!(i64::decode(&mut buffer(b":-9223372036854775808\r\n")).unwrap(), i64::MIN);
}

#[test]
fn integer_out_of_range_is_parse_error() {
    let r = i64::decode(&mut buffer(b":9223372036854775808\r\n"));
    assert_eq!(r.unwrap_err(), RespError::ParseIntError);
    let r = i64::decode(&mut buffer(b":-9223372036854775809\r\n"));
    assert_eq!(r.unwrap_err(), RespError::ParseIntError);
    let r = i64::decode(&mut buffer(b":12a\r\n"));
    assert_eq!(r.unwrap_err(), RespError::ParseIntError);
}

#[test]
fn unknown_prefix_is_invalid_frame_type() {
    let r = RespFrame::decode(&mut buffer(b"?abc\r\n"));
    assert!(matches!(r.unwrap_err(), RespError::InvalidFrameType(_)));
}

#[test]
fn negative_length_is_invalid_frame_length() {
    let r = RespFrame::decode(&mut buffer(b"$-2\r\n"));
    assert_eq!(r.unwrap_err(), RespError::InvalidFrameLength(-2));
    let r = RespFrame::decode(&mut buffer(b"%-1\r\n"));
    assert_eq!(r.unwrap_err(), RespError::InvalidFrameLength(-1));
}

#[test]
fn bad_double_is_parse_error() {
    let r = RespFrame::decode(&mut buffer(b",1.2.3\r\n"));
    assert_eq!(r.unwrap_err(), RespError::ParseFloatError);
    let r = RespFrame::decode(&mut buffer(b",inf\r\n"));
    assert!(r.is_ok());
    assert!(RespDouble::from_text(b"-2.5E+3").is_some());
    assert!(RespDouble::from_text(b"e5").is_none());
}

#[test]
fn wrong_type_leaves_buffer() {
    let mut data = buffer(b":1\r\n");
    let r = SimpleString::decode(&mut data);
    assert!(matches!(r.unwrap_err(), RespError::InvalidFrameType(_)));
    assert_eq!(&data[..], b":1\r\n");
}

#[test]
fn map_decode_sorts_and_keeps_last() {
    let mut data = buffer(b"%3\r\n+b\r\n:1\r\n+a\r\n:2\r\n+b\r\n:3\r\n");
    let map = RespMap::decode(&mut data).unwrap();
    let mut expected = RespMap::new();
    expected.insert("a".to_string(), RespFrame::Integer(2));
    expected.insert("b".to_string(), RespFrame::Integer(3));
    assert_eq!(map, expected);
    assert_eq!(map.0[0].0, "a");
}

#[test]
fn set_decode_keeps_first_occurrences() {
    let mut data = buffer(b"~3\r\n:1\r\n:2\r\n:1\r\n");
    let set = RespSet::decode(&mut data).unwrap();
    assert_eq!(set.0, vec![RespFrame::Integer(1), RespFrame::Integer(2)]);
}

#[test]
fn decode_takes_one_frame_and_leaves_rest() {
    let mut data = buffer(b"+a\r\n:5\r\n");
    assert_eq!(
        RespFrame::decode(&mut data).unwrap(),
        RespFrame::SimpleString(SimpleString::new("a"))
    );
    assert_eq!(&data[..], b":5\r\n");
    assert_eq!(RespFrame::decode(&mut data).unwrap(), RespFrame::Integer(5));
    assert!(data.is_empty());
}

#[test]
fn expect_length_counts_nested_frames() {
    let n = RespFrame::expect_length(b"*2\r\n$3\r\nset\r\n:1\r\nrest").unwrap();
    assert_eq!(n, 17);
    assert_eq!(RespFrame::expect_length(b"*2\r\n$3\r\nset\r\n").unwrap_err(), RespError::NotComplete);
}

#[test]
fn invalid_utf8_text_is_replaced() {
    let mut data = buffer(b"+a\xffb\r\n");
    let s = SimpleString::decode(&mut data).unwrap();
    assert_eq!(s.0, "a\u{FFFD}b");
}

fn sample_frame() -> RespFrame {
    let mut map = RespMap::new();
    map.insert("z".to_string(), RespFrame::Boolean(false));
    map.insert("a".to_string(), RespFrame::Error(SimpleError::new("bad")));
    let mut set = RespSet::new();
    set.insert(RespFrame::Integer(-7));
    set.insert(RespFrame::Null(RespNull));
    RespFrame::Array(RespArray::new(vec![
        RespFrame::SimpleString(SimpleString::new("hi")),
        bulk(b"bytes\r\nwith crlf"),
        RespFrame::NullBulkString(RespNullBulkString),
        RespFrame::Mapping(map),
        RespFrame::UniqueSet(set),
        RespFrame::Double(RespDouble::from_text(b"-1.5e3").unwrap()),
        RespFrame::NullArray(RespNullArray),
    ]))
}

#[test]
fn encode_then_decode_gives_frame_back() {
    let frame = sample_frame();
    let bytes = frame.encode();
    let mut data = buffer(&bytes);
    data.extend_from_slice(b"+next\r\n");
    assert_eq!(RespFrame::decode(&mut data).unwrap(), frame);
    assert_eq!(&data[..], b"+next\r\n");
}

#[test]
fn decoding_any_split_gives_same_frames() {
    let mut stream = sample_frame().encode();
    stream.extend_from_slice(b":42\r\n*0\r\n");
    let mut whole = buffer(&stream);
    let mut expected = Vec::new();
    while let Ok(f) = RespFrame::decode(&mut whole) {
        expected.push(f);
    }
    assert_eq!(expected.len(), 3);
    for split in 0..=stream.len() {
        let mut data = buffer(&stream[..split]);
        let mut got = Vec::new();
        loop {
            match RespFrame::decode(&mut data) {
                Ok(f) => got.push(f),
                Err(e) => {
                    assert_eq!(e, RespError::NotComplete);
                    break;
                }
            }
        }
        data.extend_from_slice(&stream[split..]);
        while let Ok(f) = RespFrame::decode(&mut data) {
            got.push(f);
        }
        assert_eq!(got, expected, "split at {}", split);
    }
}

#[test]
fn overflowing_length_is_invalid_frame_length() {
    let r = RespFrame::decode(&mut buffer(b"$99999999999999999999\r\n"));
    assert_eq!(r.unwrap_err(), RespError::InvalidFrameLength(i64::MAX));
    let r = RespFrame::decode(&mut buffer(b"*-99999999999999999999\r\n"));
    assert_eq!(r.unwrap_err(), RespError::InvalidFrameLength(i64::MIN));
    let r = RespFrame::decode(&mut buffer(b"~+18446744073709551616\r\n"));
    assert_eq!(r.unwrap_err(), RespError::InvalidFrameLength(i64::MAX));
    let r = RespFrame::decode(&mut buffer(b"$1x\r\n"));
    assert_eq!(r.unwrap_err(), RespError::ParseIntError);
}
