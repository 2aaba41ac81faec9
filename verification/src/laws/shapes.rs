//! What messages are made with, said of their fields.

use vstd::prelude::*;

use crate::laws::lengths;
use crate::message;
use crate::message::{Message, MessageModel, Question};
use crate::record::{DataModel, Record, RecordData, RecordModel};

verus! {

/// A message without entries has its id and flags and nothing else.
pub proof fn law_a_bare_message_has_no_entry(id: u16, flags: u16)
    ensures
        MessageModel::bare(id, flags).id == id,
        MessageModel::bare(id, flags).flags == flags,
        MessageModel::bare(id, flags).questions.len() == 0,
        MessageModel::bare(id, flags).answers.len() == 0,
        MessageModel::bare(id, flags).authority.len() == 0,
        MessageModel::bare(id, flags).additional.len() == 0,
{
}

/// The flags are one bit for a response, four of opcode, seven others and
/// four of response code, from the highest on.
pub proof fn law_flags_are_read_bit_by_bit(message: MessageModel)
    ensures
        message.is_response() <==> message.flags >= 0x8000,
        message.opcode() == message.flags / 0x800 % 16,
        message.rcode() == message.flags % 16,
{
    let flags = message.flags;
    assert((flags & 0x8000 != 0) == (flags >= 0x8000)) by (bit_vector);
    assert((flags >> 11) & 0x0f == flags / 0x800 % 16) by (bit_vector);
    assert(flags & 0x0f == flags % 16) by (bit_vector);
}

/// A response has the bit of one, the opcode of what it answers, the rcode
/// and no other flag; and the id and the questions of what it answers and no
/// record.
pub proof fn law_a_response_is_made_of(message: MessageModel, rcode: u16)
    ensures
        message.response(rcode).flags == 0x8000 + (message.flags / 0x800 % 16) * 0x800 + rcode % 16,
        message.response(rcode).id == message.id,
        message.response(rcode).questions == message.questions,
        message.response(rcode).answers.len() == 0,
        message.response(rcode).authority.len() == 0,
        message.response(rcode).additional.len() == 0,
{
    let flags = message.flags;
    assert(0x8000u16 | (flags & 0x7800) | (rcode & 0x0f) == 0x8000 + (flags / 0x800 % 16) * 0x800
        + rcode % 16) by (bit_vector);
}

/// The flags of an authoritative response, and of an update.
pub proof fn law_flags_of_what_is_made()
    ensures
        message::FLAG_RESPONSE | message::FLAG_AUTHORITATIVE == 0x8400,
        message::OPCODE_UPDATE << 11 == 0x2800,
{
    assert(0x8000u16 | 0x0400u16 == 0x8400) by (bit_vector);
    assert(5u16 << 11 == 0x2800) by (bit_vector);
}

/// An update is a question for the SOA of its zone in class IN, and one TXT
/// record of its name in class IN, ttl 0, in the update section.
pub proof fn law_an_update_is_made_of(id: u16, zone: Seq<char>, name: Seq<char>, payload: Seq<u8>)
    ensures
        ({
            let update = MessageModel::update(id, zone, name, payload);
            &&& update.id == id
            &&& update.flags == 0x2800
            &&& update.questions.len() == 1
            &&& update.questions[0].name == zone
            &&& update.questions[0].kind == 6
            &&& update.questions[0].class == 1
            &&& update.answers.len() == 0
            &&& update.authority.len() == 1
            &&& update.authority[0].name == name
            &&& update.authority[0].kind == 16
            &&& update.authority[0].class == 1
            &&& update.authority[0].ttl == 0
            &&& update.authority[0].data == DataModel::Txt(message::split(payload))
            &&& update.additional.len() == 0
        }),
{
    law_flags_of_what_is_made();
}

/// A payload is split into strings that are the payload again: all of 255
/// bytes but the last, which has what is left, and at least one.
pub proof fn law_a_payload_is_split_at_255_bytes(payload: Seq<u8>)
    ensures
        message::split(payload).flatten() == payload,
        message::split(payload).len() == message::string_count(payload.len()),
        forall|i: int|
            0 <= i < message::split(payload).len() - 1 ==> (#[trigger] message::split(
                payload,
            )[i]).len() == 255,
        payload.len() > 0 ==> 1 <= message::split(payload).last().len() <= 255,
        payload.len() == 0 ==> message::split(payload).len() == 1 && message::split(
            payload,
        )[0].len() == 0,
{
    lengths::law_split_strings_are_the_payload(payload);
}

/// As many strings as are filled by a number of bytes, the last perhaps in
/// part, and one where there is no byte.
pub proof fn law_strings_are_counted_by_255_bytes(length: nat)
    ensures
        length == 0 ==> message::string_count(length) == 1,
        length > 0 ==> 255 * (message::string_count(length) - 1) < length <= 255
            * message::string_count(length),
{
}

/// With EDNS a message has one record more behind its additional section:
/// the OPT at the root whose class says 4096 bytes.
pub proof fn law_edns_is_one_record_more(message: MessageModel)
    ensures
        ({
            let edns = message.with_edns();
            &&& edns.id == message.id
            &&& edns.flags == message.flags
            &&& edns.questions == message.questions
            &&& edns.answers == message.answers
            &&& edns.authority == message.authority
            &&& edns.additional.len() == message.additional.len() + 1
            &&& edns.additional.drop_last() == message.additional
            &&& edns.additional.last().name.len() == 0
            &&& edns.additional.last().kind == 41
            &&& edns.additional.last().class == 4096
            &&& edns.additional.last().ttl == 0
            &&& edns.additional.last().data == DataModel::Other(Seq::empty())
        }),
{
    assert(message.with_edns().additional.drop_last() =~= message.additional);
}

/// The records of a message are those of its answers, its authority and its
/// additional section, in this order.
pub proof fn law_records_are_in_the_order_of_sections(message: MessageModel)
    ensures
        message.records() == message.answers + message.authority + message.additional,
{
}

/// What records carry behind what others do; the strings of TXT in order,
/// and nothing in any other record.
pub proof fn law_txt_records_carry_their_strings(
    first: Seq<RecordModel>,
    second: Seq<RecordModel>,
    record: RecordModel,
)
    ensures
        message::carried(first + second) == message::carried(first) + message::carried(second),
        message::carried(Seq::empty()).len() == 0,
        record.data matches DataModel::Txt(strings) ==> message::carried(seq![record])
            == strings.flatten(),
        !(record.data is Txt) ==> message::carried(seq![record]).len() == 0,
    decreases second.len(),
{
    lengths::lemma_carried_alone(record);
    if second.len() == 0 {
        assert(first + second =~= first);
        assert(message::carried(first) + message::carried(second) =~= message::carried(first));
    } else {
        law_txt_records_carry_their_strings(first, second.drop_last(), record);
        assert((first + second).drop_last() =~= first + second.drop_last());
        assert((first + second).last() == second.last());
        assert(message::carried(first + second) =~= message::carried(first) + message::carried(
            second,
        ));
    }
}

/// The payload of a message is what its update section carries.
pub proof fn law_the_payload_is_in_the_update_section(message: MessageModel)
    ensures
        message.payload() == message::carried(message.authority),
{
}

/// A record is modelled by all its fields.
pub proof fn law_a_record_is_modelled_whole(record: Record)
    ensures
        record@.name == record.name@,
        record@.kind == record.kind,
        record@.class == record.class,
        record@.ttl == record.ttl,
        match record.data {
            RecordData::Ptr(target) => record@.data == DataModel::Ptr(target@),
            RecordData::Srv { priority, weight, port, target } => record@.data == (DataModel::Srv {
                priority,
                weight,
                port,
                target: target@,
            }),
            RecordData::Txt(strings) => {
                &&& record@.data matches DataModel::Txt(views)
                &&& views.len() == strings@.len()
                &&& forall|i: int| 0 <= i < views.len() ==> #[trigger] views[i] == strings@[i]@
            },
            RecordData::A(octets) => record@.data == DataModel::A(octets@),
            RecordData::Aaaa(octets) => record@.data == DataModel::Aaaa(octets@),
            RecordData::Other(bytes) => record@.data == DataModel::Other(bytes@),
        },
{
}

/// A question is modelled by all its fields.
pub proof fn law_a_question_is_modelled_whole(question: Question)
    ensures
        question@.name == question.name@,
        question@.kind == question.kind,
        question@.class == question.class,
{
}

/// A message is modelled by all its fields and every entry of them.
pub proof fn law_a_message_is_modelled_whole(message: Message)
    ensures
        message@.id == message.id,
        message@.flags == message.flags,
        message@.questions.len() == message.questions@.len(),
        message@.answers.len() == message.answers@.len(),
        message@.authority.len() == message.authority@.len(),
        message@.additional.len() == message.additional@.len(),
        forall|i: int|
            0 <= i < message.questions@.len() ==> #[trigger] message@.questions[i]
                == message.questions@[i]@,
        forall|i: int|
            0 <= i < message.answers@.len() ==> #[trigger] message@.answers[i]
                == message.answers@[i]@,
        forall|i: int|
            0 <= i < message.authority@.len() ==> #[trigger] message@.authority[i]
                == message.authority@[i]@,
        forall|i: int|
            0 <= i < message.additional@.len() ==> #[trigger] message@.additional[i]
                == message.additional@[i]@,
{
}

/// References to records, and records, are modelled one by one in order.
pub proof fn law_records_are_modelled_in_order(records: Seq<Record>, references: Seq<&Record>)
    ensures
        message::record_views(records).len() == records.len(),
        forall|i: int|
            0 <= i < records.len() ==> #[trigger] message::record_views(records)[i] == records[i]@,
        message::reference_views(references).len() == references.len(),
        forall|i: int|
            0 <= i < references.len() ==> #[trigger] message::reference_views(references)[i]
                == references[i]@,
{
}

} // verus!
