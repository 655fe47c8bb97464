use bytes::BytesMut;
use my_redis::connection::{frame_at_close, parse_frame};
use my_redis::frame::{Frame, FrameError};

/// What one side writes and the other reads: frames encoded into a buffer.
fn written(frames: &[Frame]) -> BytesMut {
    let mut buf = BytesMut::new();
    for frame in frames {
        frame.serialize(&mut buf);
    }
    buf
}

#[test]
fn read_write_simple() {
    let mut buf = written(&[Frame::Simple("OK".to_string())]);
    let frame = parse_frame(&mut buf).unwrap().unwrap();
    assert!(matches!(frame, Frame::Simple(s) if s == "OK"));
}

#[test]
fn read_write_bulk() {
    let mut buf = written(&[Frame::Bulk("hello".to_string())]);
    let frame = parse_frame(&mut buf).unwrap().unwrap();
    assert!(matches!(frame, Frame::Bulk(s) if s == "hello"));
}

#[test]
fn read_write_array() {
    let cmd = Frame::Array(vec![
        Frame::Bulk("SET".to_string()),
        Frame::Bulk("key".to_string()),
        Frame::Bulk("value".to_string()),
    ]);
    let mut buf = written(&[cmd]);
    let frame = parse_frame(&mut buf).unwrap().unwrap();
    match frame {
        Frame::Array(frames) => {
            assert_eq!(frames.len(), 3);
            assert!(matches!(&frames[0], Frame::Bulk(s) if s == "SET"));
            assert!(matches!(&frames[1], Frame::Bulk(s) if s == "key"));
            assert!(matches!(&frames[2], Frame::Bulk(s) if s == "value"));
        }
        _ => panic!("expected Array"),
    }
}

#[test]
fn read_write_null() {
    let mut buf = written(&[Frame::Null]);
    let frame = parse_frame(&mut buf).unwrap().unwrap();
    assert!(matches!(frame, Frame::Null));
}

#[test]
fn read_multiple_frames() {
    let mut buf = written(&[Frame::Simple("PONG".to_string()), Frame::Integer(42)]);
    let frame1 = parse_frame(&mut buf).unwrap().unwrap();
    assert!(matches!(frame1, Frame::Simple(s) if s == "PONG"));
    let frame2 = parse_frame(&mut buf).unwrap().unwrap();
    assert!(matches!(frame2, Frame::Integer(42)));
    assert!(buf.is_empty());
}

#[test]
fn read_eof_returns_none() {
    // the peer closes the connection without sending anything
    let mut buf = BytesMut::new();
    assert!(parse_frame(&mut buf).unwrap().is_none());
    let result = frame_at_close(&buf).unwrap();
    assert!(result.is_none());
}

#[test]
fn close_inside_a_frame_is_invalid() {
    let mut buf = BytesMut::new();
    buf.extend_from_slice(b"$5\r\nhel");
    assert!(parse_frame(&mut buf).unwrap().is_none());
    assert_eq!(frame_at_close(&buf).err(), Some(FrameError::Invalid));
}

// --- further cases ---

#[test]
fn partial_frame_waits_for_more() {
    let mut buf = BytesMut::new();
    buf.extend_from_slice(b"*2\r\n$3\r\nGET\r\n$1\r");
    assert!(parse_frame(&mut buf).unwrap().is_none());
    assert_eq!(buf, &b"*2\r\n$3\r\nGET\r\n$1\r"[..]);
    buf.extend_from_slice(b"\nk\r\n+next");
    let frame = parse_frame(&mut buf).unwrap().unwrap();
    assert!(matches!(frame, Frame::Array(v) if v.len() == 2));
    assert_eq!(buf, &b"+next"[..]);
}

#[test]
fn invalid_bytes_are_reported_and_kept() {
    let mut buf = BytesMut::new();
    buf.extend_from_slice(b"hello\r\n");
    assert_eq!(parse_frame(&mut buf).err(), Some(FrameError::Invalid));
    assert_eq!(buf, &b"hello\r\n"[..]);
}
