//! What one end sends, the other takes; what it takes, it answers; and the
//! answer is one the sender accepts.

use vstd::prelude::*;

use crate::error::DnsError;
use crate::laws::lengths;
use crate::laws::names;
use crate::laws::roundtrip;
use crate::message;
use crate::message::{MessageModel, QuestionModel, OPCODE_UPDATE, RCODE_NOTIMP, RCODE_REFUSED};
use crate::text;
use crate::transport;
use crate::transport::{ArrivedModel, TransportModel};

verus! {

/// A response has the id, the opcode and the questions of what it responds
/// to, the rcode it was given, and no record.
pub proof fn law_response_matches_its_message(message: MessageModel, rcode: u16)
    ensures
        message.response(rcode).id == message.id,
        message.response(rcode).is_response(),
        message.response(rcode).opcode() == message.opcode(),
        message.response(rcode).rcode() == rcode & 0x0f,
        rcode < 16 ==> message.response(rcode).rcode() == rcode,
        message.response(rcode).questions == message.questions,
        message.response(rcode).records() == Seq::<crate::record::RecordModel>::empty(),
{
    let flags = message.flags;
    assert((0x8000u16 | (flags & 0x7800) | (rcode & 0x0f)) & 0x8000 != 0) by (bit_vector);
    assert(((0x8000u16 | (flags & 0x7800) | (rcode & 0x0f)) >> 11) & 0x0f == (flags >> 11) & 0x0f)
        by (bit_vector);
    assert((0x8000u16 | (flags & 0x7800) | (rcode & 0x0f)) & 0x0f == rcode & 0x0f) by (bit_vector);
    assert(rcode < 16 ==> rcode & 0x0f == rcode) by (bit_vector);
    assert(message.response(rcode).records() =~= Seq::empty());
}

/// An update is an update, with EDNS or without, and no response.
pub proof fn law_update_is_an_update(
    id: u16,
    zone: Seq<char>,
    name: Seq<char>,
    payload: Seq<u8>,
    edns: bool,
)
    ensures
        lengths::update_with(id, zone, name, payload, edns).opcode() == OPCODE_UPDATE,
        !lengths::update_with(id, zone, name, payload, edns).is_response(),
        lengths::update_with(id, zone, name, payload, edns).id == id,
{
    assert(((5u16 << 11) >> 11) & 0x0f == 5) by (bit_vector);
    assert((5u16 << 11) & 0x8000 == 0) by (bit_vector);
}

/// The answer to a message reads back as the response its verdict calls
/// for: same id and opcode, the questions with names in full, the rcode the
/// message earned, and no record.
pub proof fn law_answer_reads_back_as_the_verdict(
    receiver: TransportModel,
    peer: Seq<char>,
    bytes: Seq<u8>,
)
    requires
        receiver.answered(peer, bytes) is Ok,
    ensures
        ({
            let message = message::message_at(bytes)->Ok_0;
            let answer = receiver.answered(peer, bytes)->Ok_0;
            let (rcode, arrived) = receiver.judged(peer, message);
            &&& message::message_at(bytes) is Ok
            &&& answer.arrived == arrived
            &&& message::message_at(answer.bytes) matches Ok(response)
            &&& response.id == message.id
            &&& response.is_response()
            &&& response.opcode() == message.opcode()
            &&& response.rcode() == rcode
            &&& response.questions == roundtrip::full_questions(message.questions)
            &&& response.records() == Seq::<crate::record::RecordModel>::empty()
        }),
{
    let message = message::message_at(bytes)->Ok_0;
    let answer = receiver.answered(peer, bytes)->Ok_0;
    let (rcode, _) = receiver.judged(peer, message);
    let response = message.response(rcode);
    law_response_matches_its_message(message, rcode);
    roundtrip::law_decode_undoes_encode(response, Seq::empty());
    assert(answer.bytes + Seq::<u8>::empty() =~= answer.bytes);
    let full = roundtrip::full_message(response);
    assert(full.records() =~= Seq::empty());
}

/// Questions with names in full are written the same.
proof fn lemma_full_questions_wire(questions: Seq<QuestionModel>)
    ensures
        message::questions_wire(roundtrip::full_questions(questions)) == message::questions_wire(
            questions,
        ),
    decreases questions.len(),
{
    let full = roundtrip::full_questions(questions);
    if questions.len() > 0 {
        lemma_full_questions_wire(questions.drop_last());
        assert(full.drop_last() =~= roundtrip::full_questions(questions.drop_last()));
        names::law_full_name_is_the_same_name(questions.last().name);
    }
}

/// The response to a message that can be written can be too, its names in
/// full or not.
proof fn lemma_response_can_be_written(message: MessageModel, read: MessageModel, rcode: u16)
    requires
        message::message_wire(message) is Ok,
        read.questions == roundtrip::full_questions(message.questions),
    ensures
        message::message_wire(read.response(rcode)) is Ok,
        message::message_wire(read.response(rcode))->Ok_0.len() <= message::message_wire(
            message,
        )->Ok_0.len(),
{
    let response = read.response(rcode);
    lemma_full_questions_wire(message.questions);
    assert(response.records() =~= Seq::empty());
    assert(message::records_wire(response.records()) == Ok::<Seq<u8>, DnsError>(Seq::empty()));
    assert(message::header_wire(response).len() == 12);
    assert(message::header_wire(message).len() == 12);
}

/// Every message that is encoded is answered, in no more bytes than it has.
pub proof fn law_what_is_encoded_is_answered(
    receiver: TransportModel,
    peer: Seq<char>,
    message: MessageModel,
)
    requires
        message::message_wire(message) is Ok,
        roundtrip::all_shaped(message),
    ensures
        receiver.answered(peer, message::message_wire(message)->Ok_0) is Ok,
        receiver.answered(peer, message::message_wire(message)->Ok_0)->Ok_0.bytes.len()
            <= message::message_wire(message)->Ok_0.len(),
{
    let wire = message::message_wire(message)->Ok_0;
    roundtrip::law_decode_undoes_encode(message, Seq::empty());
    assert(wire + Seq::<u8>::empty() =~= wire);
    let read = roundtrip::full_message(message);
    lemma_response_can_be_written(message, read, receiver.judged(peer, read).0);
}

/// An answer is to the message it answers: under any other id it is refused.
pub proof fn law_an_answer_is_to_its_own_message(
    receiver: TransportModel,
    peer: Seq<char>,
    bytes: Seq<u8>,
    id: u16,
)
    requires
        receiver.answered(peer, bytes) is Ok,
        id != message::message_at(bytes)->Ok_0.id,
    ensures
        transport::accepted(id, receiver.answered(peer, bytes)->Ok_0.bytes) == Err::<
            MessageModel,
            DnsError,
        >(DnsError::OtherAnswer),
{
    law_answer_reads_back_as_the_verdict(receiver, peer, bytes);
}

/// The id of the update that comes `count` updates behind the one under
/// `first`.
pub open spec fn id_after(first: u16, count: nat) -> u16
    decreases count,
{
    if count == 0 {
        first
    } else {
        transport::following(id_after(first, (count - 1) as nat))
    }
}

/// Ids are spent in turn: none comes again before all the others have.
pub proof fn law_ids_are_spent_in_turn(first: u16, count: nat)
    ensures
        id_after(first, count) == (first + count) % 65536,
        0 < count < 65536 ==> id_after(first, count) != first,
    decreases count,
{
    if count > 0 {
        law_ids_are_spent_in_turn(first, (count - 1) as nat);
    }
}

/// What is no update is answered NOTIMP and carries nothing.
pub proof fn law_what_is_no_update_is_not_implemented(
    receiver: TransportModel,
    peer: Seq<char>,
    bytes: Seq<u8>,
)
    requires
        receiver.answered(peer, bytes) is Ok,
        message::message_at(bytes)->Ok_0.opcode() != OPCODE_UPDATE,
    ensures
        receiver.answered(peer, bytes)->Ok_0.arrived is None,
        message::message_at(receiver.answered(peer, bytes)->Ok_0.bytes) is Ok,
        message::message_at(receiver.answered(peer, bytes)->Ok_0.bytes)->Ok_0.rcode()
            == RCODE_NOTIMP,
{
    law_answer_reads_back_as_the_verdict(receiver, peer, bytes);
}

/// What the update that takes `payload` to `target` reads back as.
proof fn lemma_update_reads_back(sender: TransportModel, target: Seq<char>, payload: Seq<u8>)
    requires
        sender.prepared(target, payload) is Ok,
    ensures
        ({
            let outgoing = sender.prepared(target, payload)->Ok_0;
            let (_, name, zone) = sender.resolved(target);
            &&& message::message_at(outgoing.bytes) matches Ok(message)
            &&& message.id == outgoing.id
            &&& message.opcode() == OPCODE_UPDATE
            &&& message.payload() == payload
            &&& transport::zone_of(message) == names::full_name(zone)
            &&& transport::name_of(message) == names::full_name(name)
        }),
        message::message_wire(sender.update_for(target, payload)) is Ok,
        roundtrip::all_shaped(sender.update_for(target, payload)),
{
    let update = sender.update_for(target, payload);
    let outgoing = sender.prepared(target, payload)->Ok_0;
    let (_, name, zone) = sender.resolved(target);
    let edns = sender.carrier is Udp;
    assert(update == lengths::update_with(sender.next_id, zone, name, payload, edns));
    law_update_is_an_update(sender.next_id, zone, name, payload, edns);
    let txt = update.authority[0];
    assert(update.authority =~= seq![txt]);
    assert forall|i: int| 0 <= i < update.records().len() implies roundtrip::is_shaped(
        #[trigger] update.records()[i],
    ) by {
        if i == 0 {
            assert(update.records()[0] == txt);
        } else {
            assert(update.records()[i] == message::edns_record());
        }
    }
    roundtrip::law_decode_undoes_encode(update, Seq::empty());
    assert(outgoing.bytes + Seq::<u8>::empty() =~= outgoing.bytes);
    let full = roundtrip::full_message(update);
    assert(full.authority =~= seq![roundtrip::full_record(txt)]);
    lengths::lemma_carried_alone(roundtrip::full_record(txt));
    lengths::law_split_strings_are_the_payload(payload);
}

/// Any update that goes out arrives where the receiver has no zone, or has
/// the update's in letters of any case: the Stream is the payload, its
/// origin says who sent it under which name, zone and id, and the sender
/// accepts the answer.
pub proof fn law_what_is_sent_arrives(
    sender: TransportModel,
    receiver: TransportModel,
    target: Seq<char>,
    payload: Seq<u8>,
    peer: Seq<char>,
)
    requires
        sender.prepared(target, payload) is Ok,
        receiver.zone.len() == 0 || text::same_but_for_case(
            names::full_name(sender.resolved(target).2),
            receiver.zone,
        ),
    ensures
        ({
            let outgoing = sender.prepared(target, payload)->Ok_0;
            let (_, name, zone) = sender.resolved(target);
            &&& receiver.answered(peer, outgoing.bytes) matches Ok(answer)
            &&& answer.arrived == Some(
                ArrivedModel {
                    origin_uri: "dns://"@ + peer + "/"@ + names::full_name(name) + "?zone="@
                        + names::full_name(zone) + "&id="@ + text::decimal(outgoing.id as nat),
                    bytes: payload,
                },
            )
            &&& transport::accepted(outgoing.id, answer.bytes) is Ok
        }),
{
    let outgoing = sender.prepared(target, payload)->Ok_0;
    lemma_update_reads_back(sender, target, payload);
    law_what_is_encoded_is_answered(receiver, peer, sender.update_for(target, payload));
    law_answer_reads_back_as_the_verdict(receiver, peer, outgoing.bytes);
}

/// An update to another zone than the receiver's is refused, carries
/// nothing, and its sender learns that it was, for good.
pub proof fn law_another_zone_is_refused(
    sender: TransportModel,
    receiver: TransportModel,
    target: Seq<char>,
    payload: Seq<u8>,
    peer: Seq<char>,
)
    requires
        sender.prepared(target, payload) is Ok,
        receiver.zone.len() > 0,
        !text::same_but_for_case(names::full_name(sender.resolved(target).2), receiver.zone),
    ensures
        ({
            let outgoing = sender.prepared(target, payload)->Ok_0;
            &&& receiver.answered(peer, outgoing.bytes) matches Ok(answer)
            &&& answer.arrived is None
            &&& transport::accepted(outgoing.id, answer.bytes) == Err::<MessageModel, DnsError>(
                DnsError::Refused { rcode: RCODE_REFUSED },
            )
        }),
{
    let outgoing = sender.prepared(target, payload)->Ok_0;
    lemma_update_reads_back(sender, target, payload);
    law_what_is_encoded_is_answered(receiver, peer, sender.update_for(target, payload));
    law_answer_reads_back_as_the_verdict(receiver, peer, outgoing.bytes);
}

} // verus!
