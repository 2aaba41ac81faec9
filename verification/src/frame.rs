//! A message over TCP, RFC 1035 section 4.2.2: its two-byte length before it.

use vstd::prelude::*;

use crate::message::MAX_MESSAGE;
use crate::wire;

verus! {

/// `message` with its length before it: the largest there is where the
/// message is longer than any length.
pub open spec fn frame_wire(message: Seq<u8>) -> Seq<u8> {
    wire::be16(
        if message.len() <= MAX_MESSAGE {
            message.len() as u16
        } else {
            MAX_MESSAGE as u16
        },
    ) + message
}

/// The bytes that carry `message` over TCP.
pub fn framed(message: &[u8]) -> (bytes: Vec<u8>)
    ensures
        bytes@ == frame_wire(message@),
{
    let length: u16 = if message.len() <= MAX_MESSAGE {
        message.len() as u16
    } else {
        MAX_MESSAGE as u16
    };
    let mut bytes: Vec<u8> = Vec::new();
    wire::push16(&mut bytes, length);
    wire::push_bytes(&mut bytes, message);
    assert(bytes@ =~= frame_wire(message@));
    bytes
}

/// How many bytes of message follow the length `prefix`.
pub fn frame_length(prefix: [u8; 2]) -> (length: usize)
    ensures
        length == wire::word(prefix@, 0),
{
    prefix[0] as usize * 256 + prefix[1] as usize
}

/// The length before a message that has one says how many bytes follow.
pub proof fn law_frame_tells_its_length(message: Seq<u8>)
    requires
        message.len() <= MAX_MESSAGE,
    ensures
        frame_wire(message).len() == 2 + message.len(),
        wire::word(frame_wire(message), 0) == message.len(),
        frame_wire(message).skip(2) == message,
{
    assert(frame_wire(message).skip(2) =~= message);
}

} // verus!
