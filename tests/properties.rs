use bytes::BytesMut;
use simple_redis::decode::expect_frame_length;
use simple_redis::{
    BulkString, RespArray, RespDecode, RespEncode, RespError, RespFrame, RespMap, RespNull,
    RespSet, SimpleError, SimpleString,
};

fn sample_frames() -> Vec<RespFrame> {
    let mut map = RespMap::new();
    map.insert("first".to_string(), RespFrame::Integer(-7));
    map.insert("second".to_string(), RespFrame::Double(b"+1.25e-3".to_vec()));
    let mut set = RespSet::new();
    set.push(RespFrame::Boolean(false));
    set.push(RespFrame::BulkString(BulkString(None)));
    vec![
        RespFrame::SimpleString(SimpleString::new("OK".to_string())),
        RespFrame::Error(SimpleError::new("ERR bad".to_string())),
        RespFrame::Integer(i64::MIN),
        RespFrame::BulkString(BulkString::new(b"a\r\nb".to_vec())),
        RespFrame::BulkString(BulkString(None)),
        RespFrame::Array(RespArray(None)),
        RespFrame::Null(RespNull),
        RespFrame::Boolean(true),
        RespFrame::Double(b"-inf".to_vec()),
        RespFrame::RespMap(map),
        RespFrame::RespSet(set),
        RespFrame::Array(RespArray::new(vec![
            RespFrame::Array(RespArray::new(vec![RespFrame::Integer(1)])),
            RespFrame::SimpleString(SimpleString::new("héllo".to_string())),
        ])),
    ]
}

#[test]
fn round_trip_of_every_kind() {
    for frame in sample_frames() {
        let bytes = frame.clone().encode();
        let mut buf = BytesMut::from(&bytes[..]);
        assert_eq!(RespFrame::decode(&mut buf).unwrap(), frame);
        assert!(buf.is_empty());
        assert_eq!(expect_frame_length(&bytes), Ok(bytes.len()));
    }
}

#[test]
fn partial_buffer_at_every_split() {
    for frame in sample_frames() {
        let bytes = frame.clone().encode();
        for k in 1..bytes.len() {
            let mut buf = BytesMut::from(&bytes[..k]);
            assert_eq!(RespFrame::decode(&mut buf), Err(RespError::NotComplete));
            assert_eq!(&buf[..], &bytes[..k]);
            buf.extend_from_slice(&bytes[k..]);
            assert_eq!(RespFrame::decode(&mut buf).unwrap(), frame);
            assert!(buf.is_empty());
        }
    }
}

#[test]
fn probing_an_incomplete_aggregate_reads_only() {
    let whole = b"*2\r\n%1\r\n+k\r\n*1\r\n:+1\r\n$3\r\nabc\r\n";
    assert_eq!(<RespArray as RespDecode>::expect_length(whole), Ok(whole.len()));
    let part = &whole[..whole.len() - 3];
    assert_eq!(<RespArray as RespDecode>::expect_length(part), Err(RespError::NotComplete));
    let mut buf = BytesMut::from(part);
    assert_eq!(RespArray::decode(&mut buf), Err(RespError::NotComplete));
    assert_eq!(&buf[..], part);
}
