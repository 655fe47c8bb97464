use my_redis::frame::Frame;
use my_redis::pubsub::{message_frame, publish_reply, subscribe_confirmations};

#[test]
fn confirmations_are_numbered_in_order() {
    let frames = subscribe_confirmations(&vec!["news".to_string(), "sport".to_string()]);
    assert_eq!(frames.len(), 2);
    for (i, (frame, channel)) in frames.iter().zip(["news", "sport"]).enumerate() {
        match frame {
            Frame::Array(items) => {
                assert_eq!(items.len(), 3);
                assert!(matches!(&items[0], Frame::Bulk(s) if s == "subscribe"));
                assert!(matches!(&items[1], Frame::Bulk(s) if s == channel));
                assert!(matches!(&items[2], Frame::Integer(n) if *n == i as i64 + 1));
            }
            _ => panic!("expected Array"),
        }
    }
}

#[test]
fn messages_name_their_channel() {
    let frame = message_frame("news".to_string(), "hello".to_string());
    match frame {
        Frame::Array(items) => {
            assert!(matches!(&items[0], Frame::Bulk(s) if s == "message"));
            assert!(matches!(&items[1], Frame::Bulk(s) if s == "news"));
            assert!(matches!(&items[2], Frame::Bulk(s) if s == "hello"));
        }
        _ => panic!("expected Array"),
    }
}

#[test]
fn publish_counts_receivers() {
    assert!(matches!(publish_reply(Some(3)), Frame::Integer(3)));
    assert!(matches!(publish_reply(None), Frame::Integer(0)));
}
