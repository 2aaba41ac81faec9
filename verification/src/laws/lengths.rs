//! How many bytes an update takes.

use vstd::prelude::*;

use crate::error::DnsError;
use crate::label;
use crate::message;
use crate::message::{MessageModel, QuestionModel, MAX_MESSAGE};
use crate::record;
use crate::record::{DataModel, RecordModel, MAX_STRING};

verus! {

/// Strings of a length that can be written are, in a byte each more than
/// they have.
pub proof fn lemma_strings_wire_length(strings: Seq<Seq<u8>>)
    requires
        forall|i: int| 0 <= i < strings.len() ==> (#[trigger] strings[i]).len() <= MAX_STRING,
    ensures
        record::strings_wire(strings) is Ok,
        record::strings_wire(strings)->Ok_0.len() == strings.len() + strings.flatten().len(),
    decreases strings.len(),
{
    if strings.len() > 0 {
        let most = strings.drop_last();
        assert forall|i: int| 0 <= i < most.len() implies (#[trigger] most[i]).len()
            <= MAX_STRING by {
            assert(most[i] == strings[i]);
        }
        lemma_strings_wire_length(most);
        most.lemma_flatten_push(strings.last());
        assert(most.push(strings.last()) =~= strings);
    }
}

/// Every string a payload is split into can be written.
pub proof fn lemma_split_strings_fit(payload: Seq<u8>)
    ensures
        forall|i: int|
            0 <= i < message::split(payload).len() ==> (#[trigger] message::split(payload)[i]).len()
                <= MAX_STRING,
{
    assert forall|i: int| 0 <= i < message::split(payload).len() implies (
    #[trigger] message::split(payload)[i]).len() <= MAX_STRING by {
        assert(message::split(payload)[i] == message::string_of(payload, i));
    }
}

/// The first of the strings a payload is split into hold its first bytes.
proof fn lemma_split_flattens(payload: Seq<u8>, upto: int)
    requires
        0 <= upto <= message::split(payload).len(),
    ensures
        message::split(payload).take(upto).flatten() == payload.take(
            if MAX_STRING * upto < payload.len() {
                MAX_STRING * upto
            } else {
                payload.len() as int
            },
        ),
    decreases upto,
{
    let strings = message::split(payload);
    if upto == 0 {
        assert(strings.take(0) =~= Seq::empty());
        assert(payload.take(0) =~= Seq::empty());
    } else {
        lemma_split_flattens(payload, upto - 1);
        let before = strings.take(upto - 1);
        assert(strings.take(upto) =~= before.push(strings[upto - 1]));
        before.lemma_flatten_push(strings[upto - 1]);
        assert(strings[upto - 1] == message::string_of(payload, upto - 1));
        assert(before.flatten() + strings[upto - 1] =~= payload.take(
            if MAX_STRING * upto < payload.len() {
                MAX_STRING * upto
            } else {
                payload.len() as int
            },
        ));
    }
}

/// The strings a payload is split into are the payload again.
pub proof fn law_split_strings_are_the_payload(payload: Seq<u8>)
    ensures
        message::split(payload).flatten() == payload,
        message::split(payload).len() > 0,
{
    let strings = message::split(payload);
    lemma_split_flattens(payload, strings.len() as int);
    assert(strings.take(strings.len() as int) =~= strings);
    assert(payload.take(payload.len() as int) =~= payload);
}

/// An update carries the payload it was made with, EDNS or not.
pub proof fn law_update_carries_its_payload(
    id: u16,
    zone: Seq<char>,
    name: Seq<char>,
    payload: Seq<u8>,
)
    ensures
        MessageModel::update(id, zone, name, payload).payload() == payload,
        MessageModel::update(id, zone, name, payload).with_edns().payload() == payload,
{
    let update = MessageModel::update(id, zone, name, payload);
    law_split_strings_are_the_payload(payload);
    lemma_carried_alone(update.authority[0]);
    assert(update.authority =~= seq![update.authority[0]]);
}

/// What one record carries.
pub proof fn lemma_carried_alone(record: RecordModel)
    ensures
        message::carried(seq![record]) == message::string_bytes(record),
{
    assert(seq![record].drop_last() =~= Seq::empty());
    assert(message::carried(Seq::empty()) + message::string_bytes(record)
        =~= message::string_bytes(record));
}

/// The bytes an update takes: the header, the zone question, the TXT record
/// with a length before each string, and the OPT record where there is one.
pub open spec fn update_length(zone: Seq<char>, name: Seq<char>, length: nat, edns: bool) -> int {
    12 + label::name_wire(zone)->Ok_0.len() + 4 + label::name_wire(name)->Ok_0.len() + 10 + length
        + message::string_count(length) + if edns {
        11int
    } else {
        0
    }
}

/// The update of `payload`, with EDNS or without.
pub open spec fn update_with(
    id: u16,
    zone: Seq<char>,
    name: Seq<char>,
    payload: Seq<u8>,
    edns: bool,
) -> MessageModel {
    let update = MessageModel::update(id, zone, name, payload);
    if edns {
        update.with_edns()
    } else {
        update
    }
}

/// One record is written as it is alone.
pub proof fn lemma_records_wire_alone(record: RecordModel)
    ensures
        message::records_wire(seq![record]) == record::record_wire(record),
{
    assert(seq![record].drop_last() =~= Seq::empty());
    assert(message::records_wire(Seq::empty()) == Ok::<Seq<u8>, DnsError>(Seq::empty()));
    if let Ok(bytes) = record::record_wire(record) {
        assert(Seq::<u8>::empty() + bytes =~= bytes);
    }
}

/// One question is written as it is alone.
pub proof fn lemma_questions_wire_alone(question: QuestionModel)
    ensures
        message::questions_wire(seq![question]) == message::question_wire(question),
{
    assert(seq![question].drop_last() =~= Seq::empty());
    assert(message::questions_wire(Seq::empty()) == Ok::<Seq<u8>, DnsError>(Seq::empty()));
    if let Ok(bytes) = message::question_wire(question) {
        assert(Seq::<u8>::empty() + bytes =~= bytes);
    }
}

/// The OPT record is written in eleven bytes.
proof fn lemma_edns_record_length()
    ensures
        record::record_wire(message::edns_record()) is Ok,
        record::record_wire(message::edns_record())->Ok_0.len() == 11,
{
    let record = message::edns_record();
    assert(label::labels(record.name) =~= Seq::empty());
    assert(label::name_wire(record.name) == Ok::<Seq<u8>, DnsError>(seq![0u8])) by {
        assert(Seq::<u8>::empty().push(0) =~= seq![0u8]);
    }
}

/// An update whose names can be written is encoded exactly where its bytes
/// fit a message, in exactly that many bytes.
pub proof fn law_update_length(
    id: u16,
    zone: Seq<char>,
    name: Seq<char>,
    payload: Seq<u8>,
    edns: bool,
)
    requires
        label::name_wire(zone) is Ok,
        label::name_wire(name) is Ok,
    ensures
        message::message_wire(update_with(id, zone, name, payload, edns)) is Ok <==> update_length(
            zone,
            name,
            payload.len(),
            edns,
        ) <= MAX_MESSAGE,
        message::message_wire(update_with(id, zone, name, payload, edns)) matches Ok(bytes)
            ==> bytes.len() == update_length(zone, name, payload.len(), edns),
{
    let update = update_with(id, zone, name, payload, edns);
    let strings = message::split(payload);
    let question = QuestionModel { name: zone, kind: record::TYPE_SOA, class: record::CLASS_IN };
    let txt = RecordModel {
        name,
        kind: record::TYPE_TXT,
        class: record::CLASS_IN,
        ttl: 0,
        data: DataModel::Txt(strings),
    };
    let opt = message::edns_record();
    lemma_split_strings_fit(payload);
    lemma_strings_wire_length(strings);
    law_split_strings_are_the_payload(payload);
    assert(update.questions =~= seq![question]);
    lemma_questions_wire_alone(question);
    lemma_records_wire_alone(txt);
    lemma_edns_record_length();
    if edns {
        assert(update.records() =~= seq![txt].push(opt));
        assert(seq![txt].push(opt).drop_last() =~= seq![txt]);
    } else {
        assert(update.records() =~= seq![txt]);
    }
    assert(message::header_wire(update).len() == 12);
}

} // verus!
