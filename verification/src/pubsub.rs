//! The replies of publish and subscribe, which the connection sends.
use vstd::prelude::*;

use crate::frame::{Frame, FrameModel};

verus! {

broadcast use vstd::string::group_string_axioms;

/// The confirmation of subscribing to `channel` as the `n`-th channel of a
/// `SUBSCRIBE` (counting from 1).
pub open spec fn confirmation(channel: Seq<char>, n: int) -> FrameModel {
    FrameModel::Array(seq![
        FrameModel::Bulk("subscribe"@),
        FrameModel::Bulk(channel),
        FrameModel::Integer(n as i64),
    ])
}

/// One confirmation per channel, in order, numbered from 1.
pub fn subscribe_confirmations(channels: &Vec<String>) -> (frames: Vec<Frame>)
    requires
        channels@.len() < i64::MAX,
    ensures
        frames@.len() == channels@.len(),
        forall|i: int| 0 <= i < frames@.len() ==> #[trigger] frames@[i]@ == confirmation(channels@[i]@, i + 1),
{
    let mut frames: Vec<Frame> = Vec::new();
    let mut i: usize = 0;
    while i < channels.len()
        invariant
            0 <= i <= channels@.len(),
            channels@.len() < i64::MAX,
            frames@.len() == i,
            forall|j: int| 0 <= j < i ==> #[trigger] frames@[j]@ == confirmation(channels@[j]@, j + 1),
        decreases channels@.len() - i,
    {
        let mut items: Vec<Frame> = Vec::new();
        items.push(Frame::Bulk("subscribe".to_string()));
        items.push(Frame::Bulk(channels[i].clone()));
        items.push(Frame::Integer(i as i64 + 1));
        let frame = Frame::Array(items);
        proof {
            let x = match frame@ {
                FrameModel::Array(x) => x,
                _ => Seq::empty(),
            };
            assert(items@[0]@ == FrameModel::Bulk("subscribe"@));
            assert(items@[1]@ == FrameModel::Bulk(channels@[i as int]@));
            assert(items@[2]@ == FrameModel::Integer((i + 1) as i64));
            assert(x =~= seq![
                FrameModel::Bulk("subscribe"@),
                FrameModel::Bulk(channels@[i as int]@),
                FrameModel::Integer((i + 1) as i64),
            ]);
        }
        frames.push(frame);
        i = i + 1;
    }
    frames
}

/// A message published on `channel`, as delivered to its subscribers.
pub fn message_frame(channel: String, message: String) -> (f: Frame)
    ensures
        f@ == FrameModel::Array(seq![
            FrameModel::Bulk("message"@),
            FrameModel::Bulk(channel@),
            FrameModel::Bulk(message@),
        ]),
{
    let ghost c = channel@;
    let ghost m = message@;
    let mut items: Vec<Frame> = Vec::new();
    items.push(Frame::Bulk("message".to_string()));
    items.push(Frame::Bulk(channel));
    items.push(Frame::Bulk(message));
    let frame = Frame::Array(items);
    proof {
        let x = match frame@ {
            FrameModel::Array(x) => x,
            _ => Seq::empty(),
        };
        assert(items@[0]@ == FrameModel::Bulk("message"@));
        assert(items@[1]@ == FrameModel::Bulk(c));
        assert(items@[2]@ == FrameModel::Bulk(m));
        assert(x =~= seq![FrameModel::Bulk("message"@), FrameModel::Bulk(c), FrameModel::Bulk(m)]);
    }
    frame
}

/// The reply to `PUBLISH`: how many subscribers received the message; none when
/// the channel has no subscribers or the message could not be sent.
pub fn publish_reply(receivers: Option<usize>) -> (f: Frame)
    requires
        receivers matches Some(n) ==> n <= i64::MAX,
    ensures
        f@ == FrameModel::Integer(
            match receivers {
                Some(n) => n as i64,
                None => 0,
            },
        ),
{
    match receivers {
        Some(n) => Frame::Integer(n as i64),
        None => Frame::Integer(0),
    }
}

} // verus!
