//! Numbers as bytes, the highest first, and as decimal text.

use vstd::prelude::*;

use crate::frame;
use crate::message;
use crate::record;
use crate::text;
use crate::wire;

verus! {

/// Two bytes, taken as digits to the base 256 with the first the higher, are
/// the number they are written for.
pub proof fn law_sixteen_bits_are_written_high_byte_first(value: u16)
    ensures
        wire::be16(value).len() == 2,
        wire::be16(value)[0] * 0x100 + wire::be16(value)[1] == value,
{
}

/// Four bytes, taken as digits to the base 256 with the first the highest,
/// are the number they are written for.
pub proof fn law_thirty_two_bits_are_written_high_byte_first(value: u32)
    ensures
        wire::be32(value).len() == 4,
        wire::be32(value)[0] * 0x100_0000 + wire::be32(value)[1] * 0x1_0000 + wire::be32(value)[2]
            * 0x100 + wire::be32(value)[3] == value,
{
}

/// Two bytes are read as digits to the base 256 with the first the higher.
pub proof fn law_sixteen_bits_are_read_high_byte_first(bytes: Seq<u8>, at: int)
    requires
        0 <= at,
        at + 2 <= bytes.len(),
    ensures
        wire::word(bytes, at) == bytes[at] * 0x100 + bytes[at + 1],
{
}

/// Four bytes are read as digits to the base 256 with the first the highest.
pub proof fn law_thirty_two_bits_are_read_high_byte_first(bytes: Seq<u8>, at: int)
    requires
        0 <= at,
        at + 4 <= bytes.len(),
    ensures
        wire::long(bytes, at) == bytes[at] * 0x100_0000 + bytes[at + 1] * 0x1_0000 + bytes[at + 2]
            * 0x100 + bytes[at + 3],
{
}

/// A number is written in decimal as one digit below ten, and from ten on as
/// its tenth with its last digit behind.
pub proof fn law_decimal_is_digits_to_the_base_ten(tenth: nat, last: nat)
    requires
        last < 10,
    ensures
        text::decimal(last).len() == 1,
        text::decimal(last)[0] as int == '0' as int + last,
        tenth > 0 ==> text::decimal(10 * tenth + last).len() == text::decimal(tenth).len() + 1,
        tenth > 0 ==> text::decimal(10 * tenth + last).drop_last() == text::decimal(tenth),
        tenth > 0 ==> text::decimal(10 * tenth + last).last() as int == '0' as int + last,
{
    if tenth > 0 {
        let n = 10 * tenth + last;
        assert(n / 10 == tenth && n % 10 == last);
        assert(text::decimal(n).drop_last() =~= text::decimal(tenth));
    }
}

/// A message over TCP stands behind two bytes that, the first the higher, are
/// its length, or the largest they can say where it is longer.
pub proof fn law_a_frame_is_a_length_and_the_message(message: Seq<u8>)
    ensures
        frame::frame_wire(message).len() == 2 + message.len(),
        frame::frame_wire(message).skip(2) == message,
        message.len() <= 0xffff ==> frame::frame_wire(message)[0] * 0x100 + frame::frame_wire(
            message,
        )[1] == message.len(),
        message.len() > 0xffff ==> frame::frame_wire(message)[0] == 0xff && frame::frame_wire(
            message,
        )[1] == 0xff,
{
    assert(frame::frame_wire(message).skip(2) =~= message);
}

/// The numbers RFC 1035, 2136, 2782, 3596, 6762 and 6891 assign.
pub proof fn law_numbers_are_as_assigned()
    ensures
        record::TYPE_A == 1,
        record::TYPE_SOA == 6,
        record::TYPE_PTR == 12,
        record::TYPE_TXT == 16,
        record::TYPE_AAAA == 28,
        record::TYPE_SRV == 33,
        record::TYPE_OPT == 41,
        record::TYPE_ANY == 255,
        record::CLASS_IN == 1,
        record::CLASS_ANY == 255,
        record::BIT_UNICAST == 0x8000,
        message::FLAG_RESPONSE == 0x8000,
        message::FLAG_AUTHORITATIVE == 0x400,
        message::OPCODE_QUERY == 0,
        message::OPCODE_UPDATE == 5,
        message::RCODE_NOERROR == 0,
        message::RCODE_FORMERR == 1,
        message::RCODE_SERVFAIL == 2,
        message::RCODE_NOTIMP == 4,
        message::RCODE_REFUSED == 5,
        message::UDP_CLASSIC == 512,
        message::UDP_EDNS == 4096,
        message::MAX_MESSAGE == 65535,
{
}

} // verus!
