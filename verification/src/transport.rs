//! What a sender and a receiver of updates decide: where a target is and
//! what to send there, what an update that arrives earns, and what an
//! answer means. The sockets are the caller's.

use core::time::Duration;
use vstd::prelude::*;

use crate::error::DnsError;
use crate::message;
use crate::message::{
    decode, encode, Message, MessageModel, MAX_MESSAGE, OPCODE_UPDATE, RCODE_NOERROR,
    RCODE_NOTIMP, RCODE_REFUSED, RCODE_SERVFAIL, UDP_EDNS,
};
use crate::text;

verus! {

/// UDP datagrams with EDNS, or TCP with a length prefix.
#[derive(Clone, Copy, Debug, PartialEq, Eq, Structural)]
pub enum Carrier {
    Udp,
    Tcp,
}

/// One end of the transport: where it listens, the zone whose updates it
/// takes, the name it adds, and the id its next update goes under.
#[derive(Clone, Debug)]
pub struct DnsTransport {
    bind: String,
    zone: String,
    name: String,
    carrier: Carrier,
    timeout: Option<Duration>,
    next_id: u16,
}

/// [`DnsTransport`] with its text as sequences.
#[verifier::ext_equal]
pub struct TransportModel {
    pub bind: Seq<char>,
    pub zone: Seq<char>,
    pub name: Seq<char>,
    pub carrier: Carrier,
    pub timeout: Option<Duration>,
    pub next_id: u16,
}

impl View for DnsTransport {
    type V = TransportModel;

    closed spec fn view(&self) -> TransportModel {
        TransportModel {
            bind: self.bind@,
            zone: self.zone@,
            name: self.name@,
            carrier: self.carrier,
            timeout: self.timeout,
            next_id: self.next_id,
        }
    }
}

/// A Stream that arrived, and where it came from.
#[derive(Clone, Debug, PartialEq, Eq)]
pub struct Arrived {
    pub origin_uri: String,
    pub bytes: Vec<u8>,
}

/// [`Arrived`] with its text and bytes as sequences.
#[verifier::ext_equal]
pub struct ArrivedModel {
    pub origin_uri: Seq<char>,
    pub bytes: Seq<u8>,
}

impl View for Arrived {
    type V = ArrivedModel;

    open spec fn view(&self) -> ArrivedModel {
        ArrivedModel { origin_uri: self.origin_uri@, bytes: self.bytes@ }
    }
}

/// What may have arrived.
pub open spec fn arrived_view(arrived: Option<Arrived>) -> Option<ArrivedModel> {
    match arrived {
        Some(arrived) => Some(arrived@),
        None => None,
    }
}

/// What goes back to a peer, and the Stream its message carried: none where
/// the message is answered and skipped.
#[derive(Clone, Debug, PartialEq, Eq)]
pub struct Answer {
    pub bytes: Vec<u8>,
    pub arrived: Option<Arrived>,
}

/// [`Answer`] with its bytes as a sequence.
#[verifier::ext_equal]
pub struct AnswerModel {
    pub bytes: Seq<u8>,
    pub arrived: Option<ArrivedModel>,
}

impl View for Answer {
    type V = AnswerModel;

    open spec fn view(&self) -> AnswerModel {
        AnswerModel { bytes: self.bytes@, arrived: arrived_view(self.arrived) }
    }
}

/// An update ready to go: to which address, under which id, as which bytes.
#[derive(Clone, Debug, PartialEq, Eq)]
pub struct Outgoing {
    pub address: String,
    pub id: u16,
    pub bytes: Vec<u8>,
}

/// [`Outgoing`] with its text and bytes as sequences.
#[verifier::ext_equal]
pub struct OutgoingModel {
    pub address: Seq<char>,
    pub id: u16,
    pub bytes: Seq<u8>,
}

impl View for Outgoing {
    type V = OutgoingModel;

    open spec fn view(&self) -> OutgoingModel {
        OutgoingModel { address: self.address@, id: self.id, bytes: self.bytes@ }
    }
}

/// The zone a query string names: what follows the first `zone=` one of its
/// `&`-separated pairs begins with, `otherwise` where none does.
pub open spec fn zone_in(query: Seq<char>, otherwise: Seq<char>) -> Seq<char>
    decreases query.len(),
{
    proof {
        text::lemma_position(query, '&');
    }
    let pair = text::before(query, '&');
    if "zone="@.is_prefix_of(pair) {
        pair.skip("zone="@.len() as int)
    } else if text::position(query, '&') < query.len() {
        zone_in(text::after(query, '&'), otherwise)
    } else {
        otherwise
    }
}

/// The id that follows `id`: 0 follows the last.
pub open spec fn following(id: u16) -> u16 {
    if id == u16::MAX {
        0
    } else {
        (id + 1) as u16
    }
}

/// The zone `message` is about: the name of its first question.
pub open spec fn zone_of(message: MessageModel) -> Seq<char> {
    if message.questions.len() > 0 {
        message.questions[0].name
    } else {
        Seq::empty()
    }
}

/// The name `message` updates: that of its first update record.
pub open spec fn name_of(message: MessageModel) -> Seq<char> {
    if message.authority.len() > 0 {
        message.authority[0].name
    } else {
        Seq::empty()
    }
}

/// Where `message` came from when `peer` sent it:
/// `dns://peer/name?zone=zone&id=id`.
pub open spec fn origin(peer: Seq<char>, message: MessageModel) -> Seq<char> {
    "dns://"@ + peer + "/"@ + name_of(message) + "?zone="@ + zone_of(message) + "&id="@
        + text::decimal(message.id as nat)
}

impl TransportModel {
    /// The address, name and zone of `target`: `dns://host:53/name?zone=zone.`,
    /// or an address alone with the configured name and zone.
    pub open spec fn resolved(self, target: Seq<char>) -> (Seq<char>, Seq<char>, Seq<char>) {
        if "dns://"@.is_prefix_of(target) {
            let rest = target.skip("dns://"@.len() as int);
            let path = text::after(rest, '/');
            let name = text::before(path, '?');
            (
                text::before(rest, '/'),
                if name.len() == 0 {
                    self.name
                } else {
                    name
                },
                zone_in(text::after(path, '?'), self.zone),
            )
        } else {
            (target, self.name, self.zone)
        }
    }

    /// The update that takes `payload` to `target`, over UDP with EDNS.
    pub open spec fn update_for(self, target: Seq<char>, payload: Seq<u8>) -> MessageModel {
        let (_, name, zone) = self.resolved(target);
        let update = MessageModel::update(self.next_id, zone, name, payload);
        match self.carrier {
            Carrier::Udp => update.with_edns(),
            Carrier::Tcp => update,
        }
    }

    /// What goes out to take `payload` to `target`.
    pub open spec fn prepared(self, target: Seq<char>, payload: Seq<u8>) -> Result<
        OutgoingModel,
        DnsError,
    > {
        match message::message_wire(self.update_for(target, payload)) {
            Err(error) => Err(error),
            Ok(bytes) => if self.carrier is Udp && bytes.len() > UDP_EDNS {
                Err(DnsError::LongDatagram)
            } else {
                Ok(OutgoingModel { address: self.resolved(target).0, id: self.next_id, bytes })
            },
        }
    }

    /// The rcode `message` earns, and the Stream it carries: an update is
    /// taken where this end has no zone or the update is to it, whatever
    /// the case of its letters; another zone is refused; what is no update
    /// is not implemented.
    pub open spec fn judged(self, peer: Seq<char>, message: MessageModel) -> (
        u16,
        Option<ArrivedModel>,
    ) {
        if message.opcode() != OPCODE_UPDATE {
            (RCODE_NOTIMP, None)
        } else if self.zone.len() > 0 && !text::same_but_for_case(zone_of(message), self.zone) {
            (RCODE_REFUSED, None)
        } else {
            (
                RCODE_NOERROR,
                Some(
                    ArrivedModel { origin_uri: origin(peer, message), bytes: message.payload() },
                ),
            )
        }
    }

    /// What the message `bytes` from `peer` are answered with.
    pub open spec fn answered(self, peer: Seq<char>, bytes: Seq<u8>) -> Result<
        AnswerModel,
        DnsError,
    > {
        match message::message_at(bytes) {
            Err(error) => Err(error),
            Ok(message) => {
                let (rcode, arrived) = self.judged(peer, message);
                match message::message_wire(message.response(rcode)) {
                    Err(error) => Err(error),
                    Ok(bytes) => Ok(AnswerModel { bytes, arrived }),
                }
            },
        }
    }
}

/// What the answer `message` to the update `id` means: it is accepted where
/// it is the update's own and says NOERROR.
pub open spec fn settled(id: u16, message: MessageModel) -> Result<MessageModel, DnsError> {
    if message.id != id {
        Err(DnsError::OtherAnswer)
    } else if message.rcode() == RCODE_NOERROR {
        Ok(message)
    } else if message.rcode() == RCODE_SERVFAIL {
        Err(DnsError::ServerFailure)
    } else {
        Err(DnsError::Refused { rcode: message.rcode() })
    }
}

/// What `bytes` that answer the update `id` mean.
pub open spec fn accepted(id: u16, bytes: Seq<u8>) -> Result<MessageModel, DnsError> {
    match message::message_at(bytes) {
        Err(error) => Err(error),
        Ok(message) => settled(id, message),
    }
}

/// The zone `query` names, `otherwise` where it names none.
fn find_zone<'a>(query: &'a str, otherwise: &'a str) -> (zone: &'a str)
    ensures
        zone@ == zone_in(query@, otherwise@),
{
    let mut rest = query;
    loop
        invariant
            zone_in(rest@, otherwise@) == zone_in(query@, otherwise@),
        decreases rest@.len(),
    {
        proof {
            text::lemma_position(rest@, '&');
        }
        let at: usize = text::find(rest, '&');
        let (pair, tail) = text::cut(rest, '&');
        if let Some(zone) = text::strip_prefix(pair, "zone=") {
            return zone;
        }
        if at == rest.unicode_len() {
            return otherwise;
        }
        rest = tail;
    }
}

impl DnsTransport {
    /// Listen at `bind`, `0.0.0.0:53` being the standard port, for updates
    /// to `zone`; send updates adding `name` in it.
    #[must_use]
    pub fn new(bind: &str, zone: &str, name: &str) -> (transport: Self)
        ensures
            transport@ == (TransportModel {
                bind: bind@,
                zone: zone@,
                name: name@,
                carrier: Carrier::Udp,
                timeout: None,
                next_id: 1,
            }),
    {
        DnsTransport {
            bind: bind.to_string(),
            zone: zone.to_string(),
            name: name.to_string(),
            carrier: Carrier::Udp,
            timeout: None,
            next_id: 1,
        }
    }

    /// Over TCP rather than UDP.
    #[must_use]
    pub fn over(self, carrier: Carrier) -> (transport: Self)
        ensures
            transport@ == (TransportModel { carrier, ..self@ }),
    {
        let mut transport = self;
        transport.carrier = carrier;
        transport
    }

    /// Give up waiting for an update or an answer after `timeout`.
    #[must_use]
    pub fn timing_out_after(self, timeout: Duration) -> (transport: Self)
        ensures
            transport@ == (TransportModel { timeout: Some(timeout), ..self@ }),
    {
        let mut transport = self;
        transport.timeout = Some(timeout);
        transport
    }

    /// The address this end listens at.
    pub fn bind(&self) -> (bind: &str)
        ensures
            bind@ == self@.bind,
    {
        self.bind.as_str()
    }

    /// What this end's updates go over.
    pub fn carrier(&self) -> (carrier: Carrier)
        ensures
            carrier == self@.carrier,
    {
        self.carrier
    }

    /// How long this end waits, where not for ever.
    pub fn timeout(&self) -> (timeout: Option<Duration>)
        ensures
            timeout == self@.timeout,
    {
        self.timeout
    }

    /// The address, name and zone of `target`: `dns://host:53/name?zone=zone.`,
    /// or `host:port` with the configured name and zone.
    pub fn resolve<'a>(&'a self, target: &'a str) -> (parts: (&'a str, &'a str, &'a str))
        ensures
            (parts.0@, parts.1@, parts.2@) == self@.resolved(target@),
    {
        let rest = match text::strip_prefix(target, "dns://") {
            Some(rest) => rest,
            None => {
                return (target, self.name.as_str(), self.zone.as_str());
            },
        };
        let (address, path) = text::cut(rest, '/');
        let (name, query) = text::cut(path, '?');
        let zone = find_zone(query, self.zone.as_str());
        let name = if name.is_empty() {
            self.name.as_str()
        } else {
            name
        };
        (address, name, zone)
    }

    /// Make the update that takes `payload` to `target`, and give it the
    /// next id.
    ///
    /// # Errors
    /// A payload the carrier cannot frame, or a name that cannot be written.
    /// The id is spent all the same.
    pub fn prepare(&mut self, target: &str, payload: &[u8]) -> (prepared: Result<
        Outgoing,
        DnsError,
    >)
        ensures
            prepared matches Ok(outgoing) ==> old(self)@.prepared(target@, payload@) == Ok::<
                OutgoingModel,
                DnsError,
            >(outgoing@) && outgoing.bytes@.len() <= match old(self)@.carrier {
                Carrier::Udp => UDP_EDNS,
                Carrier::Tcp => MAX_MESSAGE,
            },
            prepared matches Err(error) ==> old(self)@.prepared(target@, payload@) == Err::<
                OutgoingModel,
                DnsError,
            >(error),
            final(self)@ == (TransportModel {
                next_id: following(old(self)@.next_id),
                ..old(self)@
            }),
    {
        let id: u16 = self.next_id;
        self.next_id = if id == u16::MAX {
            0
        } else {
            id + 1
        };
        let (address, name, zone) = self.resolve(target);
        let update = Message::update_adding_txt(id, zone, name, payload);
        match self.carrier {
            Carrier::Udp => {
                let update = update.with_edns();
                let bytes = encode(&update)?;
                if bytes.len() > UDP_EDNS {
                    return Err(DnsError::LongDatagram);
                }
                Ok(Outgoing { address: address.to_string(), id, bytes })
            },
            Carrier::Tcp => {
                let bytes = encode(&update)?;
                Ok(Outgoing { address: address.to_string(), id, bytes })
            },
        }
    }

    /// The rcode `message` from `peer` earns, and the Stream it carries
    /// where it is an update to this zone.
    pub fn judge(&self, peer: &str, message: &Message) -> (judged: (u16, Option<Arrived>))
        ensures
            (judged.0, arrived_view(judged.1)) == self@.judged(peer@, message@),
    {
        if message.opcode() != OPCODE_UPDATE {
            return (RCODE_NOTIMP, None);
        }
        let zone = if message.questions.len() > 0 {
            message.questions[0].name.as_str()
        } else {
            ""
        };
        let name = if message.authority.len() > 0 {
            message.authority[0].name.as_str()
        } else {
            ""
        };
        proof {
            reveal_strlit("");
            assert(zone@ =~= zone_of(message@));
            assert(name@ =~= name_of(message@));
        }
        if !self.zone.as_str().is_empty() && !text::eq_ignore_ascii_case(
            zone,
            self.zone.as_str(),
        ) {
            return (RCODE_REFUSED, None);
        }
        let mut origin_uri = String::new();
        origin_uri.append("dns://");
        origin_uri.append(peer);
        origin_uri.append("/");
        origin_uri.append(name);
        origin_uri.append("?zone=");
        origin_uri.append(zone);
        origin_uri.append("&id=");
        text::push_decimal(&mut origin_uri, message.id as u64);
        assert(origin_uri@ =~= origin(peer@, message@));
        (RCODE_NOERROR, Some(Arrived { origin_uri, bytes: message.txt_payload() }))
    }

    /// Take the message `bytes` from `peer`: what to answer, and the Stream
    /// that arrived where it is an update to this zone. Without one the
    /// message is answered and skipped.
    ///
    /// # Errors
    /// What arrived is not DNS, or its question cannot be written back.
    pub fn answer(&self, peer: &str, bytes: &[u8]) -> (answer: Result<Answer, DnsError>)
        ensures
            answer matches Ok(answer) ==> self@.answered(peer@, bytes@) == Ok::<
                AnswerModel,
                DnsError,
            >(answer@),
            answer matches Err(error) ==> self@.answered(peer@, bytes@) == Err::<
                AnswerModel,
                DnsError,
            >(error),
    {
        let message = decode(bytes)?;
        let (rcode, arrived) = self.judge(peer, &message);
        let bytes = encode(&message.response(rcode))?;
        Ok(Answer { bytes, arrived })
    }
}

/// Check the answer `message` to the update `id`.
///
/// # Errors
/// An answer to another message, or an rcode that is not NOERROR: REFUSED is
/// permanent, SERVFAIL retryable.
pub fn settle(id: u16, message: Message) -> (settled_with: Result<Message, DnsError>)
    ensures
        settled_with matches Ok(same) ==> settled(id, message@) == Ok::<MessageModel, DnsError>(
            same@,
        ) && same == message,
        settled_with matches Err(error) ==> settled(id, message@) == Err::<MessageModel, DnsError>(
            error,
        ),
{
    if message.id != id {
        return Err(DnsError::OtherAnswer);
    }
    let rcode: u16 = message.rcode();
    if rcode == RCODE_NOERROR {
        Ok(message)
    } else if rcode == RCODE_SERVFAIL {
        Err(DnsError::ServerFailure)
    } else {
        Err(DnsError::Refused { rcode })
    }
}

/// Read the answer to the update `id`, and check it.
///
/// # Errors
/// What arrived is not DNS, an answer to another message, or an rcode that
/// is not NOERROR.
pub fn accept(id: u16, bytes: &[u8]) -> (answer: Result<Message, DnsError>)
    ensures
        answer matches Ok(message) ==> accepted(id, bytes@) == Ok::<MessageModel, DnsError>(
            message@,
        ),
        answer matches Err(error) ==> accepted(id, bytes@) == Err::<MessageModel, DnsError>(error),
{
    let message = decode(bytes)?;
    settle(id, message)
}

} // verus!
