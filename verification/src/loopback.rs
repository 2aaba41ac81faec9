//! DNS at both ends on this machine: what the loopback updates, and how much
//! one of its updates carries.
//!
//! An update goes as a datagram while it fits, and as a TCP message past
//! that, RFC 7766. The ceiling is the message's own sixteen-bit length, less
//! what the update spends on the zone question, the record's name and the
//! TXT string lengths.

use core::time::Duration;
use vstd::prelude::*;
use vstd::utf8::*;

use crate::error::DnsError;
use crate::label;
use crate::laws::lengths;
use crate::laws::names;
use crate::message;
use crate::message::{encode, Message, MAX_MESSAGE, UDP_EDNS};
use crate::transport::{Carrier, DnsTransport, TransportModel};

verus! {

/// The zone the loopback updates.
pub const LOOPBACK_ZONE: &'static str = "xmip.example.";

/// The name the loopback adds under.
pub const LOOPBACK_NAME: &'static str = "probe.xmip.example.";

/// The bytes one update of the loopback carries as a datagram.
pub const DATAGRAM_CEILING: usize = 4009;

/// The bytes one update of the loopback carries at all.
pub const MESSAGE_CEILING: usize = 65219;

/// Whether the loopback's update of `payload`, with EDNS or without, is
/// encoded within `limit` bytes.
pub open spec fn fits(payload: Seq<u8>, limit: nat, edns: bool) -> bool {
    message::message_wire(
        lengths::update_with(0, LOOPBACK_ZONE@, LOOPBACK_NAME@, payload, edns),
    ) matches Ok(bytes) && bytes.len() <= limit
}

/// A payload of `length` zeros.
pub open spec fn zeros(length: nat) -> Seq<u8> {
    Seq::new(length, |i: int| 0u8)
}

/// Whether `most` is the most zeros, up to `limit`, whose update is encoded
/// within `limit`: 0 where none is.
pub open spec fn is_largest_fitting(most: nat, limit: nat, edns: bool) -> bool {
    &&& most <= limit
    &&& most == 0 || fits(zeros(most), limit, edns)
    &&& forall|n: nat| most < n <= limit ==> !fits(#[trigger] zeros(n), limit, edns)
}

/// A label of ASCII and its dot before the rest of a name.
proof fn lemma_ascii_label(first: Seq<char>, rest: Seq<char>)
    requires
        first.len() > 0,
        !first.contains('.'),
        is_ascii_chars(first),
    ensures
        label::labels(first.push('.') + rest) == seq![first] + label::labels(rest),
        encode_utf8(first).len() == first.len(),
{
    names::lemma_labels_of_dotted(first, rest);
    is_ascii_chars_encode_utf8(first);
}

/// The loopback's names are written in fourteen and twenty bytes.
pub proof fn lemma_loopback_names()
    ensures
        label::name_wire(LOOPBACK_ZONE@) is Ok,
        label::name_wire(LOOPBACK_ZONE@)->Ok_0.len() == 14,
        label::name_wire(LOOPBACK_NAME@) is Ok,
        label::name_wire(LOOPBACK_NAME@)->Ok_0.len() == 20,
{
    reveal_strlit("xmip.example.");
    reveal_strlit("probe.xmip.example.");
    let xmip = seq!['x', 'm', 'i', 'p'];
    let example = seq!['e', 'x', 'a', 'm', 'p', 'l', 'e'];
    let probe = seq!['p', 'r', 'o', 'b', 'e'];
    let none = Seq::<char>::empty();
    let tail = example.push('.') + none;
    let zone = xmip.push('.') + tail;
    let name = probe.push('.') + zone;
    assert(LOOPBACK_ZONE@ =~= zone);
    assert(LOOPBACK_NAME@ =~= name);
    assert(label::labels(none) =~= Seq::empty());
    lemma_ascii_label(example, none);
    lemma_ascii_label(xmip, tail);
    lemma_ascii_label(probe, zone);
    let l1 = seq![xmip];
    let l2 = seq![xmip, example];
    assert(label::labels(tail) =~= seq![example]);
    assert(label::labels(zone) =~= l2);
    assert(l2.drop_last() =~= l1);
    assert(l1.drop_last() =~= Seq::empty());
    assert(label::label_wire(Seq::empty()) == Ok::<Seq<u8>, DnsError>(Seq::empty()));
    assert(label::label_wire(l1) is Ok && label::label_wire(l1)->Ok_0.len() == 5);
    assert(label::label_wire(l2) is Ok && label::label_wire(l2)->Ok_0.len() == 13);
    let k1 = seq![probe];
    let k2 = seq![probe, xmip];
    let k3 = seq![probe, xmip, example];
    assert(label::labels(name) =~= k3);
    assert(k3.drop_last() =~= k2);
    assert(k2.drop_last() =~= k1);
    assert(k1.drop_last() =~= Seq::empty());
    assert(label::label_wire(k1) is Ok && label::label_wire(k1)->Ok_0.len() == 6);
    assert(label::label_wire(k2) is Ok && label::label_wire(k2)->Ok_0.len() == 11);
    assert(label::label_wire(k3) is Ok && label::label_wire(k3)->Ok_0.len() == 19);
}

/// Whether a payload fits is a matter of its length.
pub proof fn lemma_fits_by_length(payload: Seq<u8>, limit: nat, edns: bool)
    requires
        limit <= MAX_MESSAGE,
    ensures
        fits(payload, limit, edns) <==> payload.len() + message::string_count(payload.len()) + (
        if edns {
            71int
        } else {
            60
        }) <= limit,
{
    lemma_loopback_names();
    lengths::law_update_length(0, LOOPBACK_ZONE@, LOOPBACK_NAME@, payload, edns);
}

/// Whether the loopback's update of `bytes` zeros is encoded within `limit`.
fn zeros_fit(bytes: usize, limit: usize, edns: bool) -> (fit: bool)
    ensures
        fit == fits(zeros(bytes as nat), limit as nat, edns),
{
    let payload: Vec<u8> = vec![0; bytes];
    assert(payload@ =~= zeros(bytes as nat));
    let update = Message::update_adding_txt(0, LOOPBACK_ZONE, LOOPBACK_NAME, payload.as_slice());
    let update = if edns {
        update.with_edns()
    } else {
        update
    };
    match encode(&update) {
        Ok(wire) => wire.len() <= limit,
        Err(_) => false,
    }
}

/// The most zeros, up to `limit`, whose update is encoded within `limit`: 0
/// where none is.
pub fn largest_fitting(limit: usize, edns: bool) -> (most: usize)
    ensures
        is_largest_fitting(most as nat, limit as nat, edns),
{
    let mut bytes: usize = limit;
    while bytes > 0
        invariant
            bytes <= limit,
            forall|n: nat| bytes < n <= limit ==> !fits(#[trigger] zeros(n), limit as nat, edns),
        decreases bytes,
    {
        if zeros_fit(bytes, limit, edns) {
            return bytes;
        }
        bytes = bytes - 1;
    }
    0
}

/// The most one update carries as a datagram: the largest payload whose
/// update (the zone question, one TXT record of it in strings of 255, the
/// OPT record asking for [`UDP_EDNS`]) encodes within the datagram. It is
/// what [`largest_fitting`] finds, known beforehand.
#[must_use]
pub fn datagram_ceiling() -> (most: usize)
    ensures
        forall|payload: Seq<u8>| #[trigger]
            fits(payload, UDP_EDNS as nat, true) <==> payload.len() <= most,
        is_largest_fitting(most as nat, UDP_EDNS as nat, true),
        most == DATAGRAM_CEILING,
{
    proof {
        lemma_ceiling(UDP_EDNS as nat, true, DATAGRAM_CEILING as nat);
    }
    DATAGRAM_CEILING
}

/// The most one update carries at all: the largest payload whose update
/// still fits the sixteen-bit length a TCP message is prefixed with. It is
/// what [`largest_fitting`] finds, known beforehand.
#[must_use]
pub fn message_ceiling() -> (most: usize)
    ensures
        forall|payload: Seq<u8>| #[trigger]
            fits(payload, MAX_MESSAGE as nat, false) <==> payload.len() <= most,
        is_largest_fitting(most as nat, MAX_MESSAGE as nat, false),
        most == MESSAGE_CEILING,
{
    proof {
        lemma_ceiling(MAX_MESSAGE as nat, false, MESSAGE_CEILING as nat);
    }
    MESSAGE_CEILING
}

/// A length whose update fits, where one byte more does not, is the most of
/// any bytes that do.
proof fn lemma_ceiling(limit: nat, edns: bool, ceiling: nat)
    requires
        limit <= MAX_MESSAGE,
        ceiling < limit,
        ceiling + message::string_count(ceiling) + (if edns {
            71int
        } else {
            60
        }) <= limit,
        ceiling + 1 + message::string_count(ceiling + 1) + (if edns {
            71int
        } else {
            60
        }) > limit,
    ensures
        is_largest_fitting(ceiling, limit, edns),
        forall|payload: Seq<u8>| #[trigger]
            fits(payload, limit, edns) <==> payload.len() <= ceiling,
{
    assert forall|payload: Seq<u8>| #[trigger]
        fits(payload, limit, edns) <==> payload.len() <= ceiling by {
        lemma_fits_by_length(payload, limit, edns);
        let n = payload.len();
        if n <= ceiling {
            lemma_string_count_grows(n, ceiling);
        } else {
            lemma_string_count_grows(ceiling + 1, n);
        }
    }
    assert(fits(zeros(ceiling), limit, edns));
}

/// There is one largest fitting.
pub proof fn law_largest_fitting_is_one(most: nat, other: nat, limit: nat, edns: bool)
    requires
        is_largest_fitting(most, limit, edns),
        is_largest_fitting(other, limit, edns),
    ensures
        most == other,
{
    if most < other {
        assert(!fits(zeros(other), limit, edns));
    } else if other < most {
        assert(!fits(zeros(most), limit, edns));
    }
}

/// More bytes are not split into fewer strings.
proof fn lemma_string_count_grows(fewer: nat, more: nat)
    requires
        fewer <= more,
    ensures
        message::string_count(fewer) <= message::string_count(more),
{
}

/// What an update of `length` bytes goes over on the loopback: UDP with EDNS
/// up to the datagram ceiling, TCP with a length prefix above it.
///
/// # Errors
/// Past the message ceiling nothing goes, and the refusal says so before
/// anything is sent.
pub fn carrier_for(length: usize) -> (carrier: Result<Carrier, DnsError>)
    ensures
        carrier == if length <= DATAGRAM_CEILING {
            Ok::<Carrier, DnsError>(Carrier::Udp)
        } else if length <= MESSAGE_CEILING {
            Ok(Carrier::Tcp)
        } else {
            Err(DnsError::OverCeiling { bytes: length, ceiling: MESSAGE_CEILING })
        },
        forall|payload: Seq<u8>|
            payload.len() == length ==> {
                &&& carrier == Ok::<Carrier, DnsError>(Carrier::Udp) <==> #[trigger] fits(
                    payload,
                    UDP_EDNS as nat,
                    true,
                )
                &&& carrier is Ok <==> fits(payload, MAX_MESSAGE as nat, false)
            },
{
    let ceiling: usize = message_ceiling();
    let datagram: usize = datagram_ceiling();
    if length > ceiling {
        return Err(DnsError::OverCeiling { bytes: length, ceiling });
    }
    if length <= datagram {
        Ok(Carrier::Udp)
    } else {
        Ok(Carrier::Tcp)
    }
}

impl DnsTransport {
    /// Both ends on this machine: an ephemeral local port, the loopback zone
    /// and name, `timeout` on every wait.
    #[must_use]
    pub fn loopback(timeout: Duration) -> (transport: Self)
        ensures
            transport@ == (TransportModel {
                bind: "127.0.0.1:0"@,
                zone: LOOPBACK_ZONE@,
                name: LOOPBACK_NAME@,
                carrier: Carrier::Udp,
                timeout: Some(timeout),
                next_id: 1,
            }),
    {
        DnsTransport::new("127.0.0.1:0", LOOPBACK_ZONE, LOOPBACK_NAME).timing_out_after(timeout)
    }

    /// The most one update of the loopback carries.
    #[must_use]
    pub fn ceiling(&self) -> (most: Option<usize>)
        ensures
            most == Some(MESSAGE_CEILING),
    {
        Some(message_ceiling())
    }
}

} // verus!
