//! Frames as they arrive from a peer.
use vstd::prelude::*;

use crate::broker::sbe_tcp::codec::{decode, decoded, Message, MessageView, SbeError};
use crate::wire::{get_le, le_value, lemma_bounds};

verus! {

/// The longest payload that a peer may send.
pub const MAX_FRAME_SIZE_BYTES: usize = 8_388_608;

/// Whether a payload is longer than a peer may send.
pub fn frame_too_large(payload_len: usize) -> (b: bool)
    ensures
        b == (payload_len > MAX_FRAME_SIZE_BYTES),
{
    payload_len > MAX_FRAME_SIZE_BYTES
}

/// What to do after the four bytes that announce a payload.
#[derive(Debug, Clone, Copy, PartialEq, Eq)]
pub enum FrameStep {
    /// Read a payload of this length.
    Read { payload_len: usize },
    /// Close the connection: the payload is too long.
    Close { payload_len: usize },
}

/// Reads the length that stands before a payload.
pub fn next_frame(prefix: [u8; 4]) -> (r: FrameStep)
    ensures
        le_value(prefix@) <= MAX_FRAME_SIZE_BYTES ==> r == (FrameStep::Read {
            payload_len: le_value(prefix@) as usize,
        }),
        le_value(prefix@) > MAX_FRAME_SIZE_BYTES ==> r == (FrameStep::Close {
            payload_len: le_value(prefix@) as usize,
        }),
{
    proof {
        lemma_bounds();
        assert(prefix@.subrange(0, 4) =~= prefix@);
    }
    let payload_len = get_le(prefix.as_slice(), 0, 4) as usize;
    if frame_too_large(payload_len) {
        FrameStep::Close { payload_len }
    } else {
        FrameStep::Read { payload_len }
    }
}

/// What to do with a payload that was read.
pub enum FrameAction {
    /// Hand the message to the replication.
    Deliver(Message),
    /// Drop the payload and wait for the next one.
    Skip(SbeError),
}

/// Decodes a payload. One that cannot be decoded does not end the connection.
pub fn handle_frame(payload: &[u8]) -> (r: FrameAction)
    ensures
        match r {
            FrameAction::Deliver(m) => decoded(payload@) == Ok::<MessageView, SbeError>(m.deep_view()),
            FrameAction::Skip(e) => decoded(payload@) == Err::<MessageView, SbeError>(e),
        },
{
    match decode(payload) {
        Ok(m) => FrameAction::Deliver(m),
        Err(e) => FrameAction::Skip(e),
    }
}

} // verus!
