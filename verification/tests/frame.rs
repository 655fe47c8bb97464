use bytes::BytesMut;
use my_redis::frame::{Frame, FrameError};

#[test]
fn serialize_simple() {
    let mut buf = BytesMut::new();
    Frame::Simple("OK".to_string()).serialize(&mut buf);
    assert_eq!(buf, &b"+OK\r\n"[..]);
}

#[test]
fn serialize_error() {
    let mut buf = BytesMut::new();
    Frame::Error("ERR unknown command".to_string()).serialize(&mut buf);
    assert_eq!(buf, &b"-ERR unknown command\r\n"[..]);
}

#[test]
fn serialize_integer() {
    let mut buf = BytesMut::new();
    Frame::Integer(1000).serialize(&mut buf);
    assert_eq!(buf, &b":1000\r\n"[..]);
}

#[test]
fn serialize_negative_integer() {
    let mut buf = BytesMut::new();
    Frame::Integer(-42).serialize(&mut buf);
    assert_eq!(buf, &b":-42\r\n"[..]);
}

#[test]
fn serialize_bulk() {
    let mut buf = BytesMut::new();
    Frame::Bulk("hello".to_string()).serialize(&mut buf);
    assert_eq!(buf, &b"$5\r\nhello\r\n"[..]);
}

#[test]
fn serialize_empty_bulk() {
    let mut buf = BytesMut::new();
    Frame::Bulk("".to_string()).serialize(&mut buf);
    assert_eq!(buf, &b"$0\r\n\r\n"[..]);
}

#[test]
fn serialize_null() {
    let mut buf = BytesMut::new();
    Frame::Null.serialize(&mut buf);
    assert_eq!(buf, &b"$-1\r\n"[..]);
}

#[test]
fn serialize_array() {
    let mut buf = BytesMut::new();
    Frame::Array(vec![
        Frame::Bulk("GET".to_string()),
        Frame::Bulk("key".to_string()),
    ])
    .serialize(&mut buf);
    assert_eq!(buf, &b"*2\r\n$3\r\nGET\r\n$3\r\nkey\r\n"[..]);
}

#[test]
fn serialize_nested_array() {
    let mut buf = BytesMut::new();
    Frame::Array(vec![
        Frame::Integer(1),
        Frame::Array(vec![Frame::Simple("OK".to_string()), Frame::Null]),
    ])
    .serialize(&mut buf);
    assert_eq!(buf, &b"*2\r\n:1\r\n*2\r\n+OK\r\n$-1\r\n"[..]);
}

#[test]
fn serialize_empty_array() {
    let mut buf = BytesMut::new();
    Frame::Array(vec![]).serialize(&mut buf);
    assert_eq!(buf, &b"*0\r\n"[..]);
}

// --- further cases ---

#[test]
fn serialize_appends_after_existing_bytes() {
    let mut buf = BytesMut::new();
    Frame::Integer(i64::MIN).serialize(&mut buf);
    Frame::Bulk("héllo".to_string()).serialize(&mut buf);
    assert_eq!(buf, &b":-9223372036854775808\r\n$6\r\nh\xc3\xa9llo\r\n"[..]);
}

#[test]
fn parse_each_kind() {
    let (f, n) = Frame::parse(b"+OK\r\nrest").unwrap();
    assert!(matches!(f, Frame::Simple(s) if s == "OK"));
    assert_eq!(n, 5);
    let (f, n) = Frame::parse(b"-ERR x\r\n").unwrap();
    assert!(matches!(f, Frame::Error(s) if s == "ERR x"));
    assert_eq!(n, 8);
    let (f, _) = Frame::parse(b":-42\r\n").unwrap();
    assert!(matches!(f, Frame::Integer(-42)));
    let (f, n) = Frame::parse(b"$5\r\nhe\r\no\r\n").unwrap();
    assert!(matches!(f, Frame::Bulk(s) if s == "he\r\no"));
    assert_eq!(n, 11);
    let (f, _) = Frame::parse(b"$-1\r\n").unwrap();
    assert!(matches!(f, Frame::Null));
    let (f, n) = Frame::parse(b"*2\r\n:1\r\n*0\r\n").unwrap();
    match f {
        Frame::Array(items) => {
            assert_eq!(items.len(), 2);
            assert!(matches!(&items[0], Frame::Integer(1)));
            assert!(matches!(&items[1], Frame::Array(v) if v.is_empty()));
        }
        _ => panic!("expected Array"),
    }
    assert_eq!(n, 12);
}

#[test]
fn parse_incomplete_input() {
    for input in [
        &b""[..],
        b"+OK",
        b"+OK\r",
        b":12",
        b"$5\r\nhel",
        b"$5\r\nhello\r",
        b"*2\r\n:1\r\n",
        b"*2\r\n:1\r\n$3\r\nab",
    ] {
        assert_eq!(Frame::parse(input).err(), Some(FrameError::Incomplete), "{:?}", input);
        assert_eq!(Frame::check(input), Err(FrameError::Incomplete), "{:?}", input);
    }
}

#[test]
fn parse_invalid_input() {
    for input in [
        &b"?x\r\n"[..],
        b":007\r\n",
        b":-0\r\n",
        b":+1\r\n",
        b":9223372036854775808\r\n",
        b"$-2\r\n",
        b"$3\r\nabcd\r\n",
        b"*-1\r\n",
        b"+\xff\r\n",
        b"$1\r\n\xff\r\n",
        b"*1\r\n!\r\n",
    ] {
        assert_eq!(Frame::parse(input).err(), Some(FrameError::Invalid), "{:?}", input);
        assert_eq!(Frame::check(input), Err(FrameError::Invalid), "{:?}", input);
    }
}

#[test]
fn parse_reads_back_serialized_frames() {
    let frames = vec![
        Frame::Simple("PONG".to_string()),
        Frame::Error("ERR a\rb".to_string()),
        Frame::Integer(i64::MAX),
        Frame::Bulk("line\r\nbreak".to_string()),
        Frame::Null,
        Frame::Array(vec![Frame::Bulk("SET".to_string()), Frame::Array(vec![])]),
    ];
    for frame in frames {
        let mut buf = BytesMut::new();
        frame.serialize(&mut buf);
        let (back, n) = Frame::parse(&buf[..]).unwrap();
        assert_eq!(n, buf.len());
        assert_eq!(Frame::check(&buf[..]), Ok(buf.len()));
        let mut again = BytesMut::new();
        back.serialize(&mut again);
        assert_eq!(again, buf);
        // every proper prefix is incomplete
        for k in 0..buf.len() {
            assert_eq!(Frame::parse(&buf[..k]).err(), Some(FrameError::Incomplete));
        }
    }
}

#[test]
fn check_measures_the_first_frame() {
    assert_eq!(Frame::check(b"*2\r\n:1\r\n$2\r\nab\r\n+after\r\n"), Ok(16));
    assert_eq!(Frame::check(b"$-1\r\n$-1\r\n"), Ok(5));
}
