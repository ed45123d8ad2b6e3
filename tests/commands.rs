use bytes::BytesMut;
use simple_redis::backend::Backend;
use simple_redis::cmd::{
    ok_frame, Command, CommandError, CommandExecutor, Echo, Get, HGet, HMGet, HSet, SAdd,
    SIsMember, SetCmd,
};
use simple_redis::{BulkString, RespArray, RespDecode, RespFrame, RespNull, SimpleString};

fn bulk(s: &str) -> RespFrame {
    RespFrame::BulkString(BulkString::new(s.as_bytes().to_vec()))
}

fn request(words: &[&str]) -> Vec<RespFrame> {
    words.iter().map(|w| bulk(w)).collect()
}

fn run(backend: &mut Backend, words: &[&str]) -> RespFrame {
    Command::from_frames(&request(words)).unwrap().execute(backend)
}

#[test]
fn test_echo_execute() {
    let echo = Echo { value: BulkString::new(b"hello".to_vec()) };
    let frame = echo.execute(&mut Backend::new());
    assert_eq!(frame, bulk("hello"));
}

#[test]
fn test_get_from_resp_array() {
    let mut buf = BytesMut::new();
    buf.extend_from_slice(b"*2\r\n$3\r\nget\r\n$5\r\nhello\r\n");
    let frame = RespArray::decode(&mut buf).unwrap();
    let result = Get::from_frames(&frame.0.unwrap()).unwrap();
    assert_eq!(result.key, "hello");
}

#[test]
fn test_hget_from_resp_array() {
    let mut buf = BytesMut::new();
    buf.extend_from_slice(b"*3\r\n$4\r\nhget\r\n$3\r\nmap\r\n$5\r\nhello\r\n");
    let frame = RespArray::decode(&mut buf).unwrap();
    let result = HGet::from_frames(&frame.0.unwrap()).unwrap();
    assert_eq!(result.key, "map");
    assert_eq!(result.field, "hello");
}

#[test]
fn test_hmget_from_resp_array() {
    let mut buf = BytesMut::new();
    buf.extend_from_slice(b"*4\r\n$5\r\nhmget\r\n$3\r\nmap\r\n$5\r\nhello\r\n$5\r\nworld\r\n");
    let frame = RespArray::decode(&mut buf).unwrap();
    let result = HMGet::from_frames(&frame.0.unwrap()).unwrap();
    assert_eq!(result.key, "map");
    assert_eq!(result.fields, vec!["hello", "world"]);
}

#[test]
fn test_hmget_command() {
    let mut backend = Backend::new();
    HSet { key: "map".to_string(), field: "hello".to_string(), value: bulk("world") }
        .execute(&mut backend);
    let cmd = HMGet { key: "map".to_string(), fields: vec!["hello".to_string(), "rust".to_string()] };
    let result = cmd.execute(&mut backend);
    assert_eq!(
        result,
        RespFrame::Array(RespArray::new(vec![bulk("world"), RespFrame::Null(RespNull)]))
    );
}

#[test]
fn test_hset_from_resp_array() {
    let mut buf = BytesMut::new();
    buf.extend_from_slice(b"*4\r\n$4\r\nhset\r\n$3\r\nmap\r\n$5\r\nhello\r\n$5\r\nworld\r\n");
    let frame = RespArray::decode(&mut buf).unwrap();
    let result = HSet::from_frames(&frame.0.unwrap()).unwrap();
    assert_eq!(result.key, "map");
    assert_eq!(result.field, "hello");
    assert_eq!(result.value, bulk("world"));
}

#[test]
fn test_sadd_from_resp_array() {
    let mut buf = BytesMut::new();
    buf.extend_from_slice(b"*3\r\n$4\r\nsadd\r\n$5\r\nhello\r\n$5\r\nworld\r\n");
    let frame = RespArray::decode(&mut buf).unwrap();
    let result = SAdd::from_frames(&frame.0.unwrap()).unwrap();
    assert_eq!(result.key, "hello");
    assert_eq!(result.members, vec!["world"]);
}

#[test]
fn test_sadd_command() {
    let mut backend = Backend::new();
    let cmd = SAdd {
        key: "hello".to_string(),
        members: vec!["world".to_string(), "world2".to_string(), "world".to_string()],
    };
    let resp = cmd.execute(&mut backend);
    assert_eq!(resp, RespFrame::Integer(2));
}

#[test]
fn test_set_from_resp_array() {
    let mut buf = BytesMut::new();
    buf.extend_from_slice(b"*3\r\n$3\r\nset\r\n$5\r\nhello\r\n$5\r\nworld\r\n");
    let frame = RespArray::decode(&mut buf).unwrap();
    let result = SetCmd::from_frames(&frame.0.unwrap()).unwrap();
    assert_eq!(result.key, "hello");
    assert_eq!(result.value, bulk("world"));
}

#[test]
fn test_set_get_command() {
    let mut backend = Backend::new();
    let cmd = SetCmd { key: "hello".to_string(), value: bulk("world") };
    let result = cmd.execute(&mut backend);
    assert_eq!(result, ok_frame());

    let cmd = Get { key: "hello".to_string() };
    let result = cmd.execute(&mut backend);
    assert_eq!(result, bulk("world"));
}

#[test]
fn test_sismember_from_resp_array() {
    let mut buf = BytesMut::new();
    buf.extend_from_slice(b"*3\r\n$9\r\nsismember\r\n$5\r\nmyset\r\n$5\r\nworld\r\n");
    let frame = RespArray::decode(&mut buf).unwrap();
    let result = SIsMember::from_frames(&frame.0.unwrap()).unwrap();
    assert_eq!(result.key, "myset");
    assert_eq!(result.member, "world");
}

#[test]
fn test_sismember_command() {
    let mut backend = Backend::new();
    let cmd = SIsMember { key: "myset".to_string(), member: "world".to_string() };
    assert_eq!(cmd.execute(&mut backend), RespFrame::Integer(0));

    SAdd { key: "myset".to_string(), members: vec!["world".to_string()] }.execute(&mut backend);
    let cmd = SIsMember { key: "myset".to_string(), member: "world".to_string() };
    assert_eq!(cmd.execute(&mut backend), RespFrame::Integer(1));
}

#[test]
fn set_arity_is_checked() {
    assert!(matches!(
        Command::from_frames(&request(&["SET", "key"])),
        Err(CommandError::InvalidArgument)
    ));
    let mut backend = Backend::new();
    assert_eq!(run(&mut backend, &["SET", "key", "val"]), ok_frame());
    assert_eq!(run(&mut backend, &["get", "key"]), bulk("val"));
}

#[test]
fn sadd_counts_only_new_members() {
    let mut backend = Backend::new();
    assert_eq!(run(&mut backend, &["sadd", "s", "a", "a", "b"]), RespFrame::Integer(2));
    assert_eq!(run(&mut backend, &["sadd", "s", "a"]), RespFrame::Integer(0));
    assert_eq!(run(&mut backend, &["SISMEMBER", "s", "b"]), RespFrame::Integer(1));
}

#[test]
fn hmget_keeps_request_order_and_nulls() {
    let mut backend = Backend::new();
    assert_eq!(run(&mut backend, &["HSET", "m", "f1", "v1"]), ok_frame());
    assert_eq!(
        run(&mut backend, &["HMGET", "m", "f1", "f2"]),
        RespFrame::Array(RespArray::new(vec![bulk("v1"), RespFrame::Null(RespNull)]))
    );
    assert_eq!(
        run(&mut backend, &["hmget", "absent", "f1"]),
        RespFrame::Array(RespArray::new(vec![RespFrame::Null(RespNull)]))
    );
}

#[test]
fn unknown_command_replies_ok() {
    let mut backend = Backend::new();
    let cmd = Command::from_frames(&request(&["FOO", "x", "y"])).unwrap();
    assert!(matches!(cmd, Command::Unrecognized(_)));
    assert_eq!(cmd.execute(&mut backend), ok_frame());
    assert_eq!(ok_frame(), RespFrame::SimpleString(SimpleString::new("OK".to_string())));
}

#[test]
fn null_forms_are_no_value_for_get_and_hget() {
    let mut legacy = BytesMut::from("$-1\r\n");
    let mut modern = BytesMut::from("_\r\n");
    let a = RespFrame::decode(&mut legacy).unwrap();
    let b = RespFrame::decode(&mut modern).unwrap();
    assert_eq!(a, RespFrame::BulkString(BulkString(None)));
    assert_eq!(b, RespFrame::Null(RespNull));
    for null in [a, b] {
        let get = vec![bulk("get"), null.clone()];
        assert!(matches!(Command::from_frames(&get), Err(CommandError::InvalidArgument)));
        let hget = vec![bulk("hget"), bulk("k"), null];
        assert!(matches!(Command::from_frames(&hget), Err(CommandError::InvalidArgument)));
    }
    let mut backend = Backend::new();
    assert_eq!(run(&mut backend, &["GET", "missing"]), RespFrame::Null(RespNull));
    assert_eq!(run(&mut backend, &["HGET", "missing", "f"]), RespFrame::Null(RespNull));
}

#[test]
fn grammar_errors() {
    let not_array = RespFrame::Integer(3);
    assert!(matches!(Command::from_frame(&not_array), Err(CommandError::InvalidCommand)));
    let null_array = RespFrame::Array(RespArray(None));
    assert!(matches!(Command::from_frame(&null_array), Err(CommandError::InvalidCommand)));
    assert!(matches!(Command::from_frames(&vec![]), Err(CommandError::InvalidCommand)));
    assert!(matches!(
        Command::from_frames(&vec![RespFrame::Integer(1), bulk("x")]),
        Err(CommandError::InvalidCommand)
    ));
    assert!(matches!(
        Command::from_frames(&vec![bulk("get"), RespFrame::Integer(1)]),
        Err(CommandError::InvalidArgument)
    ));
    let bad_utf8 = RespFrame::BulkString(BulkString::new(vec![0xff]));
    assert!(matches!(
        Command::from_frames(&vec![bulk("get"), bad_utf8]),
        Err(CommandError::InvalidArgument)
    ));
    assert!(matches!(
        Command::from_frames(&request(&["sadd", "k"])),
        Err(CommandError::InvalidArgument)
    ));
    assert!(matches!(Get::from_frames(&request(&["set", "k"])), Err(CommandError::InvalidCommand)));
    let frame = RespFrame::Array(RespArray::new(request(&["GeT", "k"])));
    match Command::from_frame(&frame) {
        Ok(Command::Get(g)) => assert_eq!(g.key, "k"),
        _ => panic!("expected GET"),
    }
}

#[test]
fn hgetall_lists_the_hash_sorted() {
    let mut backend = Backend::new();
    assert_eq!(run(&mut backend, &["hgetall", "h"]), RespFrame::Null(RespNull));
    run(&mut backend, &["hset", "h", "b", "2"]);
    run(&mut backend, &["hset", "h", "a", "1"]);
    run(&mut backend, &["hset", "h", "b", "3"]);
    match run(&mut backend, &["hgetall", "h"]) {
        RespFrame::RespMap(m) => {
            assert_eq!(m.len(), 2);
            assert_eq!(m.entries[0].key, "a");
            assert_eq!(m.entries[0].value, bulk("1"));
            assert_eq!(m.entries[1].key, "b");
            assert_eq!(m.entries[1].value, bulk("3"));
        }
        other => panic!("unexpected {:?}", other),
    }
}

#[test]
fn echo_and_set_values_of_any_type() {
    let mut backend = Backend::new();
    assert_eq!(run(&mut backend, &["echo", "hi"]), bulk("hi"));
    let req = vec![bulk("set"), bulk("n"), RespFrame::Integer(-5)];
    assert_eq!(Command::from_frames(&req).unwrap().execute(&mut backend), ok_frame());
    assert_eq!(run(&mut backend, &["get", "n"]), RespFrame::Integer(-5));
    let echo_null = vec![bulk("echo"), RespFrame::BulkString(BulkString(None))];
    assert_eq!(
        Command::from_frames(&echo_null).unwrap().execute(&mut backend),
        RespFrame::BulkString(BulkString(None))
    );
}

#[test]
fn smembers_lists_each_member_once() {
    let mut backend = Backend::new();
    assert_eq!(backend.smembers("s"), None);
    run(&mut backend, &["sadd", "s", "x", "y", "x"]);
    let mut members = backend.smembers("s").unwrap();
    members.sort();
    assert_eq!(members, vec!["x".to_string(), "y".to_string()]);
}

#[test]
fn element_count_is_checked_before_the_name() {
    assert!(matches!(Get::from_frames(&request(&["foo"])), Err(CommandError::InvalidArgument)));
    assert!(matches!(Get::from_frames(&request(&["foo", "k"])), Err(CommandError::InvalidCommand)));
    assert!(matches!(HMGet::from_frames(&request(&["foo", "k"])), Err(CommandError::InvalidArgument)));
    assert!(matches!(
        HMGet::from_frames(&request(&["foo", "k", "f"])),
        Err(CommandError::InvalidCommand)
    ));
    assert!(matches!(SAdd::from_frames(&vec![]), Err(CommandError::InvalidArgument)));
    assert!(matches!(
        HSet::from_frames(&vec![RespFrame::Integer(1), bulk("k"), bulk("f"), bulk("v")]),
        Err(CommandError::InvalidCommand)
    ));
}
