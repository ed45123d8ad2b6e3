use simple_redis::{
    BulkString, MapEntry, RespArray, RespEncode, RespFrame, RespMap, RespNull, RespNullArray,
    RespNullBulkString, RespSet, SimpleError, SimpleString,
};

fn bulk(s: &str) -> RespFrame {
    RespFrame::BulkString(BulkString::new(s.as_bytes().to_vec()))
}

fn simple(s: &str) -> RespFrame {
    RespFrame::SimpleString(SimpleString::new(s.to_string()))
}

#[test]
fn array_test_resp_array_encode() {
    let s = RespArray::new(vec![bulk("Ok"), simple("Ok"), RespFrame::Integer(1)]);
    // integers carry an explicit sign on the wire
    assert_eq!(s.encode(), b"*3\r\n$2\r\nOk\r\n+Ok\r\n:+1\r\n");
}

#[test]
fn array_test_resp_null_array_encode() {
    let s = RespArray(None);
    assert_eq!(s.encode(), b"*-1\r\n");
}

#[test]
fn bool_test_bool_encode() {
    let s = true;
    assert_eq!(s.encode(), b"#t\r\n");
    let s = false;
    assert_eq!(s.encode(), b"#f\r\n");
}

#[test]
fn bulk_string_test_bulk_string_encode() {
    let s = BulkString::new(b"Hello".to_vec());
    assert_eq!(s.encode(), b"$5\r\nHello\r\n");
}

#[test]
fn bulk_string_test_resp_null_bulk_string_encode() {
    let s = BulkString(None);
    assert_eq!(s.encode(), b"$-1\r\n");
}

#[test]
fn encode_test_simple_string_encode() {
    let s = SimpleString::new("Ok".to_string());
    assert_eq!(s.encode(), b"+Ok\r\n");
}

#[test]
fn encode_test_simple_error_encode() {
    let s = SimpleError::new("Error".to_string());
    assert_eq!(s.encode(), b"-Error\r\n");
}

#[test]
fn encode_test_integer_encode() {
    let frame = RespFrame::Integer(1);
    assert_eq!(frame.encode(), b":+1\r\n");
    let frame = RespFrame::Integer(-1);
    assert_eq!(frame.encode(), b":-1\r\n");
}

#[test]
fn encode_test_bulk_string_encode() {
    let s = BulkString::new(b"Hello".to_vec());
    assert_eq!(s.encode(), b"$5\r\nHello\r\n");
}

#[test]
fn encode_test_resp_null_bulk_string_encode() {
    let s = RespNullBulkString;
    assert_eq!(s.encode(), b"$-1\r\n");
}

#[test]
fn encode_test_resp_array_encode() {
    let s = RespArray::new(vec![bulk("Ok"), simple("Ok"), RespFrame::Integer(1)]);
    assert_eq!(s.encode(), b"*3\r\n$2\r\nOk\r\n+Ok\r\n:+1\r\n");
}

#[test]
fn encode_test_resp_null_encode() {
    let s = RespNull;
    assert_eq!(s.encode(), b"_\r\n");
}

#[test]
fn encode_test_resp_null_array_encode() {
    let s = RespNullArray;
    assert_eq!(s.encode(), b"*-1\r\n");
}

#[test]
fn encode_test_bool_encode() {
    let s = true;
    assert_eq!(s.encode(), b"#t\r\n");
    let s = false;
    assert_eq!(s.encode(), b"#f\r\n");
}

#[test]
fn encode_test_map_encode() {
    let mut m = RespMap::new();
    m.insert("key".to_string(), RespFrame::Integer(1));
    assert_eq!(m.encode(), b"%1\r\n+key\r\n:+1\r\n");
}

#[test]
fn encode_test_set_encode() {
    let mut s = RespSet::new();
    s.push(RespFrame::Integer(1));
    assert_eq!(s.encode(), b"~1\r\n:+1\r\n");
}

#[test]
fn frame_test_resp_null_encode() {
    let s = RespNull;
    assert_eq!(s.encode(), b"_\r\n");
}

#[test]
fn integer_test_integer_encode() {
    let frame = RespFrame::Integer(1);
    assert_eq!(frame.encode(), b":+1\r\n");
    let frame = RespFrame::Integer(-1);
    assert_eq!(frame.encode(), b":-1\r\n");
}

#[test]
fn map_test_map_encode() {
    let mut m = RespMap::new();
    m.insert("key".to_string(), RespFrame::Integer(1));
    assert_eq!(m.encode(), b"%1\r\n+key\r\n:+1\r\n");
}

#[test]
fn set_test_set_encode() {
    let mut s = RespSet::new();
    s.push(RespFrame::Integer(1));
    assert_eq!(s.encode(), b"~1\r\n:+1\r\n");
}

#[test]
fn simple_error_test_simple_error_encode() {
    let s = SimpleError::new("Error".to_string());
    assert_eq!(s.encode(), b"-Error\r\n");
}

#[test]
fn simple_string_test_simple_string_encode() {
    let s = SimpleString::new("Ok".to_string());
    assert_eq!(s.encode(), b"+Ok\r\n");
}

#[test]
fn integer_extremes_encode() {
    assert_eq!(RespFrame::Integer(i64::MIN).encode(), b":-9223372036854775808\r\n");
    assert_eq!(RespFrame::Integer(i64::MAX).encode(), b":+9223372036854775807\r\n");
    assert_eq!(RespFrame::Integer(0).encode(), b":+0\r\n");
}

#[test]
fn map_keys_encode_sorted_and_unique() {
    let mut m = RespMap::new();
    m.insert("zeta".to_string(), RespFrame::Integer(1));
    m.insert("alpha".to_string(), RespFrame::Integer(2));
    m.insert("zeta".to_string(), RespFrame::Integer(3));
    assert_eq!(m.len(), 2);
    assert_eq!(m.entries[0], MapEntry { key: "alpha".to_string(), value: RespFrame::Integer(2) });
    assert_eq!(m.encode(), b"%2\r\n+alpha\r\n:+2\r\n+zeta\r\n:+3\r\n");
}

#[test]
fn double_and_nested_encode() {
    let f = RespFrame::Double(b"-1.5e10".to_vec());
    assert_eq!(f.encode(), b",-1.5e10\r\n");
    let inner = RespFrame::Array(RespArray::new(vec![RespFrame::Boolean(true), RespFrame::Null(RespNull)]));
    let outer = RespFrame::RespSet(RespSet(vec![inner, RespFrame::Error(SimpleError::new("bad".to_string()))]));
    assert_eq!(outer.encode(), b"~2\r\n*2\r\n#t\r\n_\r\n-bad\r\n");
    assert_eq!(RespFrame::BulkString(BulkString::new(Vec::new())).encode(), b"$0\r\n\r\n");
}
