use bytes::BytesMut;
use simple_redis::decode::{calc_total_length, decode_frame, parse_length};
use simple_redis::scan::find_crlf;
use simple_redis::{
    BulkString, RespArray, RespDecode, RespError, RespFrame, RespMap, RespNull, RespSet,
    SimpleError, SimpleString,
};

fn bulk(s: &str) -> RespFrame {
    RespFrame::BulkString(BulkString::new(s.as_bytes().to_vec()))
}

fn simple(s: &str) -> RespFrame {
    RespFrame::SimpleString(SimpleString::new(s.to_string()))
}

#[test]
fn test_array_decode() {
    let mut buf = BytesMut::from("*3\r\n$2\r\nOk\r\n+Ok\r\n:+1\r\n");
    let frame = RespArray::new(vec![bulk("Ok"), simple("Ok"), RespFrame::Integer(1)]);
    assert_eq!(RespArray::decode(&mut buf).unwrap(), frame);

    buf.extend_from_slice(b"*2\r\n$3\r\nget\r\n$5\r\nhello\r");
    let ret = RespArray::decode(&mut buf);
    assert_eq!(ret, Err(RespError::NotComplete));
    buf.extend_from_slice(b"\n");
    let frame = RespArray::new(vec![bulk("get"), bulk("hello")]);
    assert_eq!(RespArray::decode(&mut buf).unwrap(), frame);
}

#[test]
fn test_bool_decode() {
    let mut buf = BytesMut::from("#t\r\n");
    assert_eq!(bool::decode(&mut buf).unwrap(), true);
    buf.extend_from_slice(b"#f\r\n");
    assert_eq!(bool::decode(&mut buf).unwrap(), false);
}

#[test]
fn test_null_bulk_string_decode() {
    let mut buf = BytesMut::from("$-1\r\n");
    assert_eq!(BulkString::decode(&mut buf).unwrap(), BulkString(None));
}

#[test]
fn test_bulk_string_decode() {
    let mut buf = BytesMut::from("$6\r\nfoobar\r\n");
    assert_eq!(BulkString::decode(&mut buf).unwrap(), BulkString::new(b"foobar".to_vec()));
    let mut buf = BytesMut::from("$2\r\nOk\r\n");
    assert_eq!(BulkString::decode(&mut buf).unwrap(), BulkString::new(b"Ok".to_vec()));
}

#[test]
fn test_null_decode() {
    let mut buf = BytesMut::from("_\r\n");
    assert_eq!(RespNull::decode(&mut buf).unwrap(), RespNull);
}

#[test]
fn test_resp_frame_decode() {
    let mut buf = BytesMut::from("+Ok\r\n");
    assert_eq!(RespFrame::decode(&mut buf).unwrap(), simple("Ok"));

    let mut buf = BytesMut::from("-Error\r\n");
    assert_eq!(
        RespFrame::decode(&mut buf).unwrap(),
        RespFrame::Error(SimpleError::new("Error".to_string()))
    );

    let mut buf = BytesMut::from(":1\r\n");
    assert_eq!(RespFrame::decode(&mut buf).unwrap(), RespFrame::Integer(1));

    let mut buf = BytesMut::from("$2\r\nOk\r\n");
    assert_eq!(RespFrame::decode(&mut buf).unwrap(), bulk("Ok"));

    let mut buf = BytesMut::from("*3\r\n$2\r\nOk\r\n+Ok\r\n:+1\r\n");
    let frame = RespFrame::Array(RespArray::new(vec![bulk("Ok"), simple("Ok"), RespFrame::Integer(1)]));
    assert_eq!(RespFrame::decode(&mut buf).unwrap(), frame);

    let mut buf = BytesMut::from("$-1\r\n");
    assert_eq!(RespFrame::decode(&mut buf).unwrap(), RespFrame::BulkString(BulkString(None)));

    let mut buf = BytesMut::from("#t\r\n");
    assert_eq!(RespFrame::decode(&mut buf).unwrap(), RespFrame::Boolean(true));

    let mut buf = BytesMut::from(",1.0\r\n");
    assert_eq!(RespFrame::decode(&mut buf).unwrap(), RespFrame::Double(b"1.0".to_vec()));

    let mut buf = BytesMut::from("%2\r\n+first\r\n:1\r\n+second\r\n:2\r\n");
    let mut map = RespMap::new();
    map.insert("first".to_string(), RespFrame::Integer(1));
    map.insert("second".to_string(), RespFrame::Integer(2));
    assert_eq!(RespFrame::decode(&mut buf).unwrap(), RespFrame::RespMap(map));
}

#[test]
fn test_integer_decode() {
    let mut buf = BytesMut::from(":1\r\n");
    assert_eq!(i64::decode(&mut buf).unwrap(), 1);
}

#[test]
fn test_map_decode() {
    let mut buf = BytesMut::from("%2\r\n+first\r\n:1\r\n+second\r\n:2\r\n");
    let mut map = RespMap::new();
    map.insert("first".to_string(), RespFrame::Integer(1));
    map.insert("second".to_string(), RespFrame::Integer(2));
    assert_eq!(RespMap::decode(&mut buf).unwrap(), map);

    buf.extend_from_slice(b"%2\r\n+first\r\n:1\r\n+second\r\n:2\r");
    let ret = RespMap::decode(&mut buf);
    assert_eq!(ret, Err(RespError::NotComplete));
}

#[test]
fn test_calc_array_length() {
    let buf = b"*2\r\n$3\r\nset\r\n$5\r\nhello\r\n";
    let (end, len) = parse_length(buf, b'*').unwrap();
    let total_len = calc_total_length(buf, end, len, b'*').unwrap();
    assert_eq!(total_len, buf.len());

    let buf = b"*2\r\n$3\r\nset\r\n";
    let (end, len) = parse_length(buf, b'*').unwrap();
    let ret = calc_total_length(buf, end, len, b'*');
    assert_eq!(ret.unwrap_err(), RespError::NotComplete);
}

#[test]
fn test_set_decode() {
    let mut buf = BytesMut::from("~4\r\n+first\r\n:+1\r\n+second\r\n:+2\r\n");
    let mut set = RespSet::new();
    set.push(simple("first"));
    set.push(RespFrame::Integer(1));
    set.push(simple("second"));
    set.push(RespFrame::Integer(2));
    assert_eq!(RespSet::decode(&mut buf).unwrap(), set);
}

#[test]
fn test_simple_error_decode() {
    let mut buf = BytesMut::from("-Error\r\n");
    assert_eq!(SimpleError::decode(&mut buf).unwrap(), SimpleError::new("Error".to_string()));
}

#[test]
fn test_simple_string_decode() {
    let mut buf = BytesMut::from("+Ok\r\n");
    assert_eq!(SimpleString::decode(&mut buf).unwrap(), SimpleString::new("Ok".to_string()));

    buf.extend_from_slice(b"+hello\r");
    let ret = SimpleString::decode(&mut buf);
    assert_eq!(ret, Err(RespError::NotComplete));

    buf.extend_from_slice(b"\n");
    let ret = SimpleString::decode(&mut buf).unwrap();
    assert_eq!(ret, SimpleString::new("hello".to_string()));
}

#[test]
fn decode_leaves_the_next_frame_in_the_buffer() {
    let mut buf = BytesMut::from("+a\r\n:+7\r\n_\r");
    assert_eq!(RespFrame::decode(&mut buf).unwrap(), simple("a"));
    assert_eq!(&buf[..], b":+7\r\n_\r");
    assert_eq!(RespFrame::decode(&mut buf).unwrap(), RespFrame::Integer(7));
    assert_eq!(RespFrame::decode(&mut buf), Err(RespError::NotComplete));
    assert_eq!(&buf[..], b"_\r");
}

#[test]
fn each_decode_error_has_an_input() {
    let cases: Vec<(&[u8], RespError)> = vec![
        (b"", RespError::NotComplete),
        (b"?x\r\n", RespError::InvalidFrameType),
        (b"#x\r\n", RespError::InvalidFrameType),
        (b"_x\r\n", RespError::InvalidFrameType),
        (b"$x\r\nab\r\n", RespError::InvalidFrameLength),
        (b"*-2\r\n", RespError::InvalidFrameLength),
        (b"$2\r\nabcd", RespError::InvalidFrame),
        (b"+a\nb\r\n", RespError::InvalidFrame),
        (b":12a\r\n", RespError::ParseIntError),
        (b":9223372036854775808\r\n", RespError::ParseIntError),
        (b",1.\r\n", RespError::ParseFloatError),
        (b"+\xff\r\n", RespError::Utf8Error),
        (b"*2\r\n:+1\r\n", RespError::NotComplete),
        (b"%1\r\n:1\r\n:2\r\n", RespError::InvalidFrameType),
    ];
    for (input, err) in cases {
        let mut buf = BytesMut::from(input);
        assert_eq!(RespFrame::decode(&mut buf), Err(err), "{:?}", input);
        assert_eq!(&buf[..], input);
    }
}

#[test]
fn integers_and_doubles_parse_exactly() {
    assert_eq!(decode_frame(b":-9223372036854775808\r\n").unwrap().0, RespFrame::Integer(i64::MIN));
    assert_eq!(decode_frame(b":+42\r\n").unwrap(), (RespFrame::Integer(42), 6));
    assert_eq!(decode_frame(b",-inf\r\n").unwrap().0, RespFrame::Double(b"-inf".to_vec()));
    assert_eq!(decode_frame(b",2.5E-3\r\n").unwrap().0, RespFrame::Double(b"2.5E-3".to_vec()));
    assert_eq!(decode_frame(b"$0\r\n\r\n").unwrap(), (RespFrame::BulkString(BulkString::new(Vec::new())), 6));
}

#[test]
fn find_crlf_counts_from_one() {
    let buf = b"+a\r\nb\r\n";
    assert_eq!(find_crlf(buf, 1), Some(2));
    assert_eq!(find_crlf(buf, 2), Some(5));
    assert_eq!(find_crlf(buf, 3), None);
    assert_eq!(find_crlf(buf, 0), None);
    assert_eq!(find_crlf(b"", 1), None);
}

#[test]
fn typed_decoders_refuse_other_frames() {
    let mut buf = BytesMut::from(":1\r\n");
    assert_eq!(SimpleString::decode(&mut buf), Err(RespError::InvalidFrameType));
    assert_eq!(&buf[..], b":1\r\n");
    assert_eq!(<i64 as RespDecode>::expect_length(b":1\r\n"), Ok(4));
    assert_eq!(<bool as RespDecode>::expect_length(b":1\r\n"), Err(RespError::InvalidFrameType));
}

#[test]
fn map_decode_sorts_and_replaces_keys() {
    let mut buf = BytesMut::from("%3\r\n+b\r\n:1\r\n+a\r\n:2\r\n+b\r\n:3\r\n");
    let m = RespMap::decode(&mut buf).unwrap();
    let mut want = RespMap::new();
    want.insert("a".to_string(), RespFrame::Integer(2));
    want.insert("b".to_string(), RespFrame::Integer(3));
    assert_eq!(m, want);
    assert_eq!(m.entries[0].key, "a");
}
