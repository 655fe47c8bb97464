//! Taking frames off the front of the bytes a connection has received.
use bytes::BytesMut;
use vstd::prelude::*;

use crate::buffer::{advance_buffer, buffer_bytes, buffer_contents};
use crate::frame::{
    decode, encode, law_decode_encode, law_decoded_is_encoding, well_formed, Frame, FrameError,
    FrameModel,
};

verus! {

/// Takes the first complete frame off the front of `buf`. With only part of a
/// frame received, returns `Ok(None)` and leaves `buf` as it is, to be called
/// again once more bytes have arrived; bytes that can never start a frame give
/// `Err(FrameError::Invalid)`, with `buf` unchanged.
pub fn parse_frame(buf: &mut BytesMut) -> (r: Result<Option<Frame>, FrameError>)
    ensures
        match decode(buffer_contents(*old(buf))) {
            Ok((m, n)) => {
                &&& r matches Ok(Some(f))
                &&& f@ == m
                &&& buffer_contents(*final(buf)) == buffer_contents(*old(buf)).skip(n)
            },
            Err(FrameError::Incomplete) => {
                &&& r matches Ok(None)
                &&& buffer_contents(*final(buf)) == buffer_contents(*old(buf))
            },
            Err(FrameError::Invalid) => {
                &&& r matches Err(FrameError::Invalid)
                &&& buffer_contents(*final(buf)) == buffer_contents(*old(buf))
            },
        },
{
    let bytes = buffer_bytes(buf);
    match Frame::check(bytes) {
        Ok(len) => {
            let frame = match Frame::parse(bytes) {
                Ok((frame, _)) => frame,
                Err(e) => {
                    return Err(e);
                },
            };
            proof {
                law_decoded_is_encoding(bytes@);
            }
            advance_buffer(buf, len);
            Ok(Some(frame))
        },
        Err(FrameError::Incomplete) => Ok(None),
        Err(e) => Err(e),
    }
}

/// What reading gives once the peer has closed the connection and no complete
/// frame is left in `buf`: nothing, if no bytes are left over, and otherwise
/// `Err(FrameError::Invalid)`, since what is left is a frame cut short.
pub fn frame_at_close(buf: &BytesMut) -> (r: Result<Option<Frame>, FrameError>)
    ensures
        r == (if buffer_contents(*buf).len() == 0 {
            Ok::<Option<Frame>, FrameError>(None)
        } else {
            Err::<Option<Frame>, FrameError>(FrameError::Invalid)
        }),
{
    if buffer_bytes(buf).len() == 0 {
        Ok(None)
    } else {
        Err(FrameError::Invalid)
    }
}

/// Frames come off a connection in the order they were written: with the
/// encodings of `f` and then `g` received, the first frame taken is `f`, and the
/// next one, from the bytes left, is `g`.
pub proof fn law_frames_in_order(f: FrameModel, g: FrameModel, rest: Seq<u8>)
    requires
        well_formed(f),
        well_formed(g),
    ensures
        decode(encode(f) + encode(g) + rest) == Ok::<(FrameModel, int), FrameError>((f, encode(f).len() as int)),
        decode((encode(f) + encode(g) + rest).skip(encode(f).len() as int))
            == Ok::<(FrameModel, int), FrameError>((g, encode(g).len() as int)),
{
    let b = encode(f) + encode(g) + rest;
    assert(b =~= encode(f) + (encode(g) + rest));
    law_decode_encode(f, encode(g) + rest);
    assert(b.skip(encode(f).len() as int) =~= encode(g) + rest);
    law_decode_encode(g, rest);
}

} // verus!
