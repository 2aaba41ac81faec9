//! Sixteen and thirty-two bits in network order.

use vstd::prelude::*;

use crate::error::DnsError;

verus! {

/// Two bytes, the high one first.
pub open spec fn be16(value: u16) -> Seq<u8> {
    seq![(value / 256) as u8, (value % 256) as u8]
}

/// Four bytes, the highest one first.
pub open spec fn be32(value: u32) -> Seq<u8> {
    be16((value / 65536) as u16) + be16((value % 65536) as u16)
}

/// The sixteen bits the two bytes at `at` say.
pub open spec fn word(bytes: Seq<u8>, at: int) -> u16 {
    (bytes[at] * 256 + bytes[at + 1]) as u16
}

/// The thirty-two bits the four bytes at `at` say.
pub open spec fn long(bytes: Seq<u8>, at: int) -> u32 {
    (word(bytes, at) * 65536 + word(bytes, at + 2)) as u32
}

/// Write `value` behind `out`.
pub fn push16(out: &mut Vec<u8>, value: u16)
    ensures
        final(out)@ == old(out)@ + be16(value),
{
    out.push((value / 256) as u8);
    out.push((value % 256) as u8);
    assert(out@ =~= old(out)@ + be16(value));
}

/// Write `value` behind `out`.
pub fn push32(out: &mut Vec<u8>, value: u32)
    ensures
        final(out)@ == old(out)@ + be32(value),
{
    push16(out, (value / 65536) as u16);
    push16(out, (value % 65536) as u16);
    assert(out@ =~= old(out)@ + be32(value));
}

/// The sixteen bits at `at`, where the bytes reach that far.
pub fn field16(bytes: &[u8], at: usize) -> (field: Result<u16, DnsError>)
    ensures
        field == if at + 2 <= bytes@.len() {
            Ok::<u16, DnsError>(word(bytes@, at as int))
        } else {
            Err::<u16, DnsError>(DnsError::ShortSection)
        },
{
    if bytes.len() < 2 || at > bytes.len() - 2 {
        return Err(DnsError::ShortSection);
    }
    Ok(bytes[at] as u16 * 256 + bytes[at + 1] as u16)
}

/// Write `more` behind `out`.
pub fn push_bytes(out: &mut Vec<u8>, more: &[u8])
    ensures
        final(out)@ == old(out)@ + more@,
{
    out.extend_from_slice(more);
    assert(out@ =~= old(out)@ + more@);
}

} // verus!
