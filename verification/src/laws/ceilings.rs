//! What the loopback carries, and what it does not.

use vstd::prelude::*;

use crate::laws::delivery;
use crate::laws::lengths;
use crate::laws::names;
use crate::loopback;
use crate::loopback::{DATAGRAM_CEILING, LOOPBACK_NAME, LOOPBACK_ZONE, MESSAGE_CEILING};
use crate::message;
use crate::transport;
use crate::transport::TransportModel;

verus! {

/// The loopback's names are in full.
proof fn lemma_loopback_names_are_full()
    ensures
        names::full_name(LOOPBACK_ZONE@) == LOOPBACK_ZONE@,
        names::full_name(LOOPBACK_NAME@) == LOOPBACK_NAME@,
{
    reveal_strlit("xmip.example.");
    reveal_strlit("probe.xmip.example.");
    names::law_full_names_read_back_unchanged(LOOPBACK_ZONE@);
    names::law_full_names_read_back_unchanged(LOOPBACK_NAME@);
}

/// What an update of the loopback with `length` bytes of payload takes: sixty
/// bytes, eleven more with EDNS, the payload, and a length before each of
/// `strings` strings.
pub open spec fn loopback_length(length: nat, strings: nat, edns: bool) -> int {
    60 + length + strings + if edns {
        11int
    } else {
        0
    }
}

/// An update of the loopback fits a limit exactly where its bytes are no more
/// than the limit and than 65535, in as few strings of 255 bytes as hold the
/// payload, and in one where there is none.
pub proof fn law_an_update_fits_by_its_length(
    payload: Seq<u8>,
    limit: nat,
    edns: bool,
    strings: nat,
)
    requires
        strings > 0,
        payload.len() <= 255 * strings,
        strings > 1 ==> payload.len() > 255 * (strings - 1),
    ensures
        loopback::fits(payload, limit, edns) <==> loopback_length(payload.len(), strings, edns)
            <= limit && loopback_length(payload.len(), strings, edns) <= 65535,
{
    assert(message::string_count(payload.len()) == strings);
    loopback::lemma_loopback_names();
    lengths::law_update_length(0, LOOPBACK_ZONE@, LOOPBACK_NAME@, payload, edns);
}

/// The largest fitting is a length that fits, where any does, and no greater
/// one up to the limit does: said of what the update takes.
pub proof fn law_largest_fitting_is_the_largest(
    most: nat,
    strings: nat,
    more: nat,
    others: nat,
    limit: nat,
    edns: bool,
)
    requires
        loopback::is_largest_fitting(most, limit, edns),
        strings > 0,
        most <= 255 * strings,
        strings > 1 ==> most > 255 * (strings - 1),
        more > 0,
        others > 0,
        255 * (others - 1) < more <= 255 * others,
    ensures
        most > 0 ==> loopback_length(most, strings, edns) <= limit && loopback_length(
            most,
            strings,
            edns,
        ) <= 65535,
        most < more <= limit ==> loopback_length(more, others, edns) > limit || loopback_length(
            more,
            others,
            edns,
        ) > 65535,
        most <= limit,
{
    assert(loopback::zeros(most).len() == most);
    assert(loopback::zeros(more).len() == more);
    law_an_update_fits_by_its_length(loopback::zeros(most), limit, edns, strings);
    law_an_update_fits_by_its_length(loopback::zeros(more), limit, edns, others);
}

/// The loopback's zone and name, and what it carries over each carrier.
pub proof fn law_the_loopback_is_as_documented()
    ensures
        LOOPBACK_ZONE@ == "xmip.example."@,
        LOOPBACK_NAME@ == "probe.xmip.example."@,
        DATAGRAM_CEILING == 4009,
        MESSAGE_CEILING == 65219,
{
}

/// A payload up to the datagram ceiling goes as a datagram, one up to the
/// message ceiling as a TCP message, and either arrives whole; past the
/// message ceiling nothing goes.
pub proof fn law_loopback_carries_what_is_under_its_ceiling(
    end: TransportModel,
    address: Seq<char>,
    payload: Seq<u8>,
    peer: Seq<char>,
)
    requires
        end.zone == LOOPBACK_ZONE@,
        end.name == LOOPBACK_NAME@,
        !"dns://"@.is_prefix_of(address),
    ensures
        end.carrier is Udp ==> (end.prepared(address, payload) is Ok <==> payload.len()
            <= DATAGRAM_CEILING),
        end.carrier is Tcp ==> (end.prepared(address, payload) is Ok <==> payload.len()
            <= MESSAGE_CEILING),
        end.prepared(address, payload) matches Ok(outgoing) ==> {
            &&& outgoing.address == address
            &&& end.answered(peer, outgoing.bytes) matches Ok(answer)
            &&& answer.arrived matches Some(arrived)
            &&& arrived.bytes == payload
            &&& transport::accepted(outgoing.id, answer.bytes) is Ok
        },
{
    let edns = end.carrier is Udp;
    loopback::lemma_loopback_names();
    lengths::law_update_length(end.next_id, LOOPBACK_ZONE@, LOOPBACK_NAME@, payload, edns);
    assert(end.update_for(address, payload) == lengths::update_with(
        end.next_id,
        LOOPBACK_ZONE@,
        LOOPBACK_NAME@,
        payload,
        edns,
    ));
    if end.prepared(address, payload) is Ok {
        lemma_loopback_names_are_full();
        delivery::law_what_is_sent_arrives(end, end, address, payload, peer);
    }
}

} // verus!
