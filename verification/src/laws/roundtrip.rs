//! A message that is encoded decodes to itself, its names in full.

use vstd::prelude::*;

use crate::error::DnsError;
use crate::label;
use crate::laws::names;
use crate::message;
use crate::message::{MessageModel, QuestionModel, HEADER};
use crate::record;
use crate::record::{DataModel, RecordModel, TYPE_A, TYPE_AAAA, TYPE_PTR, TYPE_SRV, TYPE_TXT};
use crate::wire;

verus! {

/// Whether `data` is what `kind` carries in class IN.
pub open spec fn is_data_of(kind: u16, data: DataModel) -> bool {
    if kind == TYPE_PTR {
        data is Ptr
    } else if kind == TYPE_SRV {
        data is Srv
    } else if kind == TYPE_TXT {
        data is Txt
    } else if kind == TYPE_A {
        data matches DataModel::A(octets) && octets.len() == 4
    } else if kind == TYPE_AAAA {
        data matches DataModel::Aaaa(octets) && octets.len() == 16
    } else {
        data is Other
    }
}

/// Whether a record carries what its type and class say it does.
pub open spec fn is_shaped(record: RecordModel) -> bool {
    if record::is_class_in(record.class) {
        is_data_of(record.kind, record.data)
    } else {
        record.data is Other
    }
}

/// Whether every record of a message carries what its type and class say.
pub open spec fn all_shaped(message: MessageModel) -> bool {
    forall|i: int|
        0 <= i < message.records().len() ==> is_shaped(#[trigger] message.records()[i])
}

/// What a record carries, names in full.
pub open spec fn full_data(data: DataModel) -> DataModel {
    match data {
        DataModel::Ptr(target) => DataModel::Ptr(names::full_name(target)),
        DataModel::Srv { priority, weight, port, target } => DataModel::Srv {
            priority,
            weight,
            port,
            target: names::full_name(target),
        },
        _ => data,
    }
}

/// A record, names in full.
pub open spec fn full_record(record: RecordModel) -> RecordModel {
    RecordModel { name: names::full_name(record.name), data: full_data(record.data), ..record }
}

/// A question, its name in full.
pub open spec fn full_question(question: QuestionModel) -> QuestionModel {
    QuestionModel { name: names::full_name(question.name), ..question }
}

/// Questions, names in full.
pub open spec fn full_questions(questions: Seq<QuestionModel>) -> Seq<QuestionModel> {
    Seq::new(questions.len(), |i: int| full_question(questions[i]))
}

/// Records, names in full.
pub open spec fn full_records(records: Seq<RecordModel>) -> Seq<RecordModel> {
    Seq::new(records.len(), |i: int| full_record(records[i]))
}

/// A message, names in full.
pub open spec fn full_message(message: MessageModel) -> MessageModel {
    MessageModel {
        questions: full_questions(message.questions),
        answers: full_records(message.answers),
        authority: full_records(message.authority),
        additional: full_records(message.additional),
        ..message
    }
}

/// Whether the name in what a record carries is in full, where there is one.
pub open spec fn data_name_is_full(data: DataModel) -> bool {
    match data {
        DataModel::Ptr(target) => names::is_full(target),
        DataModel::Srv { target, .. } => names::is_full(target),
        _ => true,
    }
}

/// Whether every name a record holds is in full.
pub open spec fn names_are_full(record: RecordModel) -> bool {
    names::is_full(record.name) && data_name_is_full(record.data)
}

/// Whether every name a message holds is in full.
pub open spec fn all_names_are_full(message: MessageModel) -> bool {
    &&& forall|i: int|
        0 <= i < message.questions.len() ==> names::is_full(#[trigger] message.questions[i].name)
    &&& forall|i: int|
        0 <= i < message.records().len() ==> names_are_full(#[trigger] message.records()[i])
}

/// Sixteen bits that stand in `bytes` read back.
pub proof fn lemma_word_reads_back(bytes: Seq<u8>, at: int, value: u16)
    requires
        names::stands_at(bytes, at, wire::be16(value)),
    ensures
        wire::word(bytes, at) == value,
        0 <= at,
        at + 2 <= bytes.len(),
{
    names::lemma_stands_at_byte(bytes, at, wire::be16(value), 0);
    names::lemma_stands_at_byte(bytes, at, wire::be16(value), 1);
}

/// Thirty-two bits that stand in `bytes` read back.
proof fn lemma_long_reads_back(bytes: Seq<u8>, at: int, value: u32)
    requires
        names::stands_at(bytes, at, wire::be32(value)),
    ensures
        wire::long(bytes, at) == value,
{
    let high = (value / 65536) as u16;
    let low = (value % 65536) as u16;
    names::lemma_stands_at_parts(bytes, at, wire::be16(high), wire::be16(low));
    lemma_word_reads_back(bytes, at, high);
    lemma_word_reads_back(bytes, at + 2, low);
}

/// Where written strings stand, they are what is read first.
pub proof fn lemma_strings_read_back(raw: Seq<u8>, at: int, strings: Seq<Seq<u8>>)
    requires
        record::strings_wire(strings) is Ok,
        names::stands_at(raw, at, record::strings_wire(strings)->Ok_0),
    ensures
        record::strings_from(raw, at) == match record::strings_from(
            raw,
            at + record::strings_wire(strings)->Ok_0.len(),
        ) {
            Ok(rest) => Ok::<Seq<Seq<u8>>, DnsError>(strings + rest),
            Err(error) => Err(error),
        },
    decreases strings.len(),
{
    if strings.len() == 0 {
        if let Ok(rest) = record::strings_from(raw, at) {
            assert(strings + rest =~= rest);
        }
    } else {
        let most = strings.drop_last();
        let last = strings.last();
        let before = record::strings_wire(most)->Ok_0;
        let here = at + before.len();
        assert(before.push(last.len() as u8) + last =~= before + (seq![last.len() as u8] + last));
        names::lemma_stands_at_parts(raw, at, before, seq![last.len() as u8] + last);
        names::lemma_stands_at_parts(raw, here, seq![last.len() as u8], last);
        names::lemma_stands_at_byte(raw, here, seq![last.len() as u8], 0);
        lemma_strings_read_back(raw, at, most);
        assert(raw.subrange(here + 1, here + 1 + last.len()) == last);
        match record::strings_from(raw, here + 1 + last.len()) {
            Ok(rest) => {
                assert(most + (seq![last] + rest) =~= strings + rest);
            },
            Err(_) => {},
        }
    }
}

/// Rdata that stands in a message as it is written reads back by its type,
/// its name in full.
pub proof fn law_written_rdata_reads_back(bytes: Seq<u8>, start: int, kind: u16, data: DataModel)
    requires
        is_data_of(kind, data),
        record::rdata_wire(data) is Ok,
        names::stands_at(bytes, start, record::rdata_wire(data)->Ok_0),
    ensures
        record::data_at(bytes, start, record::rdata_wire(data)->Ok_0.len() as int, kind) == Ok::<
            DataModel,
            DnsError,
        >(full_data(data)),
{
    let rdata = record::rdata_wire(data)->Ok_0;
    let raw = bytes.subrange(start, start + rdata.len());
    assert(raw == rdata);
    match data {
        DataModel::Ptr(target) => {
            names::law_written_name_reads_back(bytes, start, target);
        },
        DataModel::Srv { priority, weight, port, target } => {
            let name = label::name_wire(target)->Ok_0;
            let p = wire::be16(priority);
            let w = wire::be16(weight);
            let q = wire::be16(port);
            assert(names::stands_at(raw, 0, raw)) by {
                assert(raw.subrange(0, raw.len() as int) =~= raw);
            }
            names::lemma_stands_at_parts(raw, 0, p + w + q, name);
            names::lemma_stands_at_parts(raw, 0, p + w, q);
            names::lemma_stands_at_parts(raw, 0, p, w);
            lemma_word_reads_back(raw, 0, priority);
            lemma_word_reads_back(raw, 2, weight);
            lemma_word_reads_back(raw, 4, port);
            names::lemma_stands_at_parts(bytes, start, p + w + q, name);
            names::law_written_name_reads_back(bytes, start + 6, target);
        },
        DataModel::Txt(strings) => {
            assert(names::stands_at(raw, 0, rdata)) by {
                assert(raw.subrange(0, raw.len() as int) =~= raw);
            }
            lemma_strings_read_back(raw, 0, strings);
            assert(strings + Seq::<Seq<u8>>::empty() =~= strings);
        },
        _ => {},
    }
}

/// A name in full is its own full name in what a record carries too.
proof fn lemma_full_data_is_itself(data: DataModel)
    requires
        data_name_is_full(data),
    ensures
        full_data(data) == data,
{
    match data {
        DataModel::Ptr(target) => names::law_full_names_read_back_unchanged(target),
        DataModel::Srv { target, .. } => names::law_full_names_read_back_unchanged(target),
        _ => {},
    }
}

/// Rdata whose name is in full reads back from its own bytes to itself.
pub proof fn law_full_rdata_round_trips(kind: u16, data: DataModel)
    requires
        is_data_of(kind, data),
        data_name_is_full(data),
        record::rdata_wire(data) is Ok,
    ensures
        record::data_at(
            record::rdata_wire(data)->Ok_0,
            0,
            record::rdata_wire(data)->Ok_0.len() as int,
            kind,
        ) == Ok::<DataModel, DnsError>(data),
{
    let raw = record::rdata_wire(data)->Ok_0;
    assert(raw.subrange(0, raw.len() as int) =~= raw);
    law_written_rdata_reads_back(raw, 0, kind, data);
    lemma_full_data_is_itself(data);
}

/// A record that stands in a message as it is written reads back, and the
/// next begins behind it.
pub proof fn law_written_record_reads_back(bytes: Seq<u8>, at: int, record: RecordModel)
    requires
        is_shaped(record),
        record::record_wire(record) is Ok,
        names::stands_at(bytes, at, record::record_wire(record)->Ok_0),
    ensures
        record::record_at(bytes, at) == Ok::<(RecordModel, int), DnsError>(
            (full_record(record), at + record::record_wire(record)->Ok_0.len()),
        ),
{
    let name = label::name_wire(record.name)->Ok_0;
    let rdata = record::rdata_wire(record.data)->Ok_0;
    let kind = wire::be16(record.kind);
    let class = wire::be16(record.class);
    let ttl = wire::be32(record.ttl);
    let length = wire::be16(rdata.len() as u16);
    let next = at + name.len();
    names::lemma_stands_at_parts(bytes, at, name + kind + class + ttl + length, rdata);
    names::lemma_stands_at_parts(bytes, at, name + kind + class + ttl, length);
    names::lemma_stands_at_parts(bytes, at, name + kind + class, ttl);
    names::lemma_stands_at_parts(bytes, at, name + kind, class);
    names::lemma_stands_at_parts(bytes, at, name, kind);
    names::law_written_name_reads_back(bytes, at, record.name);
    lemma_word_reads_back(bytes, next, record.kind);
    lemma_word_reads_back(bytes, next + 2, record.class);
    lemma_long_reads_back(bytes, next + 4, record.ttl);
    lemma_word_reads_back(bytes, next + 8, rdata.len() as u16);
    if record::is_class_in(record.class) {
        law_written_rdata_reads_back(bytes, next + 10, record.kind, record.data);
    }
}

/// A question that stands in a message as it is written reads back, and
/// what follows begins behind it.
pub proof fn law_written_question_reads_back(bytes: Seq<u8>, at: int, question: QuestionModel)
    requires
        message::question_wire(question) is Ok,
        names::stands_at(bytes, at, message::question_wire(question)->Ok_0),
    ensures
        message::question_at(bytes, at) == Ok::<(QuestionModel, int), DnsError>(
            (full_question(question), at + message::question_wire(question)->Ok_0.len()),
        ),
{
    let name = label::name_wire(question.name)->Ok_0;
    let kind = wire::be16(question.kind);
    let class = wire::be16(question.class);
    let next = at + name.len();
    names::lemma_stands_at_parts(bytes, at, name + kind, class);
    names::lemma_stands_at_parts(bytes, at, name, kind);
    names::law_written_name_reads_back(bytes, at, question.name);
    lemma_word_reads_back(bytes, next, question.kind);
    lemma_word_reads_back(bytes, next + 2, question.class);
}

/// Questions that stand in a message as they are written read back.
proof fn lemma_questions_read_back(bytes: Seq<u8>, at: int, questions: Seq<QuestionModel>)
    requires
        message::questions_wire(questions) is Ok,
        names::stands_at(bytes, at, message::questions_wire(questions)->Ok_0),
    ensures
        message::questions_at(bytes, at, questions.len()) == Ok::<
            (Seq<QuestionModel>, int),
            DnsError,
        >((full_questions(questions), at + message::questions_wire(questions)->Ok_0.len())),
    decreases questions.len(),
{
    if questions.len() == 0 {
        assert(full_questions(questions) =~= Seq::empty());
    } else {
        let most = questions.drop_last();
        let last = questions.last();
        let before = message::questions_wire(most)->Ok_0;
        names::lemma_stands_at_parts(bytes, at, before, message::question_wire(last)->Ok_0);
        lemma_questions_read_back(bytes, at, most);
        law_written_question_reads_back(bytes, at + before.len(), last);
        assert(full_questions(most).push(full_question(last)) =~= full_questions(questions));
    }
}

/// Records that stand in a message as they are written read back.
proof fn lemma_records_read_back(bytes: Seq<u8>, at: int, records: Seq<RecordModel>)
    requires
        forall|i: int| 0 <= i < records.len() ==> is_shaped(#[trigger] records[i]),
        message::records_wire(records) is Ok,
        names::stands_at(bytes, at, message::records_wire(records)->Ok_0),
    ensures
        message::records_at(bytes, at, records.len()) == Ok::<(Seq<RecordModel>, int), DnsError>(
            (full_records(records), at + message::records_wire(records)->Ok_0.len()),
        ),
    decreases records.len(),
{
    if records.len() == 0 {
        assert(full_records(records) =~= Seq::empty());
    } else {
        let most = records.drop_last();
        let last = records.last();
        let before = message::records_wire(most)->Ok_0;
        assert forall|i: int| 0 <= i < most.len() implies is_shaped(#[trigger] most[i]) by {
            assert(most[i] == records[i]);
        }
        names::lemma_stands_at_parts(bytes, at, before, record::record_wire(last)->Ok_0);
        lemma_records_read_back(bytes, at, most);
        law_written_record_reads_back(bytes, at + before.len(), last);
        assert(full_records(most).push(full_record(last)) =~= full_records(records));
    }
}

/// Records behind records are written as the ones and then the others.
pub proof fn lemma_records_wire_concat(first: Seq<RecordModel>, second: Seq<RecordModel>)
    requires
        message::records_wire(first + second) is Ok,
    ensures
        message::records_wire(first) is Ok,
        message::records_wire(second) is Ok,
        message::records_wire(first + second)->Ok_0 == message::records_wire(first)->Ok_0
            + message::records_wire(second)->Ok_0,
    decreases second.len(),
{
    if second.len() == 0 {
        assert(first + second =~= first);
        assert(message::records_wire(first)->Ok_0 + message::records_wire(second)->Ok_0
            =~= message::records_wire(first)->Ok_0);
    } else {
        assert((first + second).drop_last() =~= first + second.drop_last());
        assert((first + second).last() == second.last());
        lemma_records_wire_concat(first, second.drop_last());
        assert(message::records_wire(first + second)->Ok_0 =~= message::records_wire(first)->Ok_0
            + message::records_wire(second)->Ok_0);
    }
}

/// A message decodes from what it is encoded as, names in full, where each
/// of its records carries what its type and class say. What follows the
/// message makes no difference.
pub proof fn law_decode_undoes_encode(message: MessageModel, behind: Seq<u8>)
    requires
        message::message_wire(message) is Ok,
        all_shaped(message),
    ensures
        message::message_at(message::message_wire(message)->Ok_0 + behind) == Ok::<
            MessageModel,
            DnsError,
        >(full_message(message)),
{
    let wire = message::message_wire(message)->Ok_0;
    let bytes = wire + behind;
    let header = message::header_wire(message);
    let questions = message::questions_wire(message.questions)->Ok_0;
    let records = message::records_wire(message.records())->Ok_0;
    assert(names::stands_at(bytes, 0, wire)) by {
        assert(bytes.subrange(0, wire.len() as int) =~= wire);
    }
    names::lemma_stands_at_parts(bytes, 0, header + questions, records);
    names::lemma_stands_at_parts(bytes, 0, header, questions);
    lemma_header_reads_back(bytes, message);
    lemma_questions_read_back(bytes, HEADER as int, message.questions);
    lemma_sections_read_back(bytes, HEADER + questions.len(), message);
}

/// The three sections of records of a message read back, each from where
/// the one before ends.
proof fn lemma_sections_read_back(bytes: Seq<u8>, at: int, message: MessageModel)
    requires
        all_shaped(message),
        message::records_wire(message.records()) is Ok,
        names::stands_at(bytes, at, message::records_wire(message.records())->Ok_0),
    ensures
        ({
            let second = at + message::records_wire(message.answers)->Ok_0.len();
            let third = second + message::records_wire(message.authority)->Ok_0.len();
            let end = third + message::records_wire(message.additional)->Ok_0.len();
            &&& message::records_at(bytes, at, message.answers.len()) == Ok::<
                (Seq<RecordModel>, int),
                DnsError,
            >((full_records(message.answers), second))
            &&& message::records_at(bytes, second, message.authority.len()) == Ok::<
                (Seq<RecordModel>, int),
                DnsError,
            >((full_records(message.authority), third))
            &&& message::records_at(bytes, third, message.additional.len()) == Ok::<
                (Seq<RecordModel>, int),
                DnsError,
            >((full_records(message.additional), end))
        }),
{
    let (a, b, c) = (message.answers, message.authority, message.additional);
    lemma_records_wire_concat(a + b, c);
    lemma_records_wire_concat(a, b);
    let (wa, wb, wc) = (
        message::records_wire(a)->Ok_0,
        message::records_wire(b)->Ok_0,
        message::records_wire(c)->Ok_0,
    );
    names::lemma_stands_at_parts(bytes, at, wa + wb, wc);
    names::lemma_stands_at_parts(bytes, at, wa, wb);
    assert forall|i: int| 0 <= i < a.len() implies is_shaped(#[trigger] a[i]) by {
        assert(a[i] == message.records()[i]);
    }
    assert forall|i: int| 0 <= i < b.len() implies is_shaped(#[trigger] b[i]) by {
        assert(b[i] == message.records()[a.len() + i]);
    }
    assert forall|i: int| 0 <= i < c.len() implies is_shaped(#[trigger] c[i]) by {
        assert(c[i] == message.records()[a.len() + b.len() + i]);
    }
    lemma_records_read_back(bytes, at, a);
    lemma_records_read_back(bytes, at + wa.len(), b);
    lemma_records_read_back(bytes, at + wa.len() + wb.len(), c);
}

/// The header of a message reads back.
proof fn lemma_header_reads_back(bytes: Seq<u8>, message: MessageModel)
    requires
        message.questions.len() <= message::MAX_SECTION,
        message.answers.len() <= message::MAX_SECTION,
        message.authority.len() <= message::MAX_SECTION,
        message.additional.len() <= message::MAX_SECTION,
        names::stands_at(bytes, 0, message::header_wire(message)),
    ensures
        message::header_wire(message).len() == HEADER,
        wire::word(bytes, 0) == message.id,
        wire::word(bytes, 2) == message.flags,
        wire::word(bytes, 4) == message.questions.len(),
        wire::word(bytes, 6) == message.answers.len(),
        wire::word(bytes, 8) == message.authority.len(),
        wire::word(bytes, 10) == message.additional.len(),
{
    let id = wire::be16(message.id);
    let flags = wire::be16(message.flags);
    let q = wire::be16(message.questions.len() as u16);
    let a = wire::be16(message.answers.len() as u16);
    let b = wire::be16(message.authority.len() as u16);
    let c = wire::be16(message.additional.len() as u16);
    names::lemma_stands_at_parts(bytes, 0, id + flags + q + a + b, c);
    names::lemma_stands_at_parts(bytes, 0, id + flags + q + a, b);
    names::lemma_stands_at_parts(bytes, 0, id + flags + q, a);
    names::lemma_stands_at_parts(bytes, 0, id + flags, q);
    names::lemma_stands_at_parts(bytes, 0, id, flags);
    lemma_word_reads_back(bytes, 0, message.id);
    lemma_word_reads_back(bytes, 2, message.flags);
    lemma_word_reads_back(bytes, 4, message.questions.len() as u16);
    lemma_word_reads_back(bytes, 6, message.answers.len() as u16);
    lemma_word_reads_back(bytes, 8, message.authority.len() as u16);
    lemma_word_reads_back(bytes, 10, message.additional.len() as u16);
}

/// A message whose names are in full is its own full message.
proof fn lemma_full_message_is_itself(message: MessageModel)
    requires
        all_names_are_full(message),
    ensures
        full_message(message) == message,
{
    assert forall|i: int| 0 <= i < message.records().len() implies full_record(
        #[trigger] message.records()[i],
    ) == message.records()[i] by {
        let record = message.records()[i];
        assert(names_are_full(record));
        names::law_full_names_read_back_unchanged(record.name);
        lemma_full_data_is_itself(record.data);
    }
    assert forall|i: int| 0 <= i < message.questions.len() implies full_question(
        #[trigger] message.questions[i],
    ) == message.questions[i] by {
        assert(names::is_full(message.questions[i].name));
        names::law_full_names_read_back_unchanged(message.questions[i].name);
    }
    let (a, b, c) = (message.answers, message.authority, message.additional);
    assert forall|i: int| 0 <= i < a.len() implies full_record(#[trigger] a[i]) == a[i] by {
        assert(a[i] == message.records()[i]);
    }
    assert forall|i: int| 0 <= i < b.len() implies full_record(#[trigger] b[i]) == b[i] by {
        assert(b[i] == message.records()[a.len() + i]);
    }
    assert forall|i: int| 0 <= i < c.len() implies full_record(#[trigger] c[i]) == c[i] by {
        assert(c[i] == message.records()[a.len() + b.len() + i]);
    }
    assert(full_message(message) =~= message);
}

/// A message whose names are in full, and whose records carry what their
/// type and class say, decodes from what it is encoded as to itself.
pub proof fn law_full_message_round_trips(message: MessageModel)
    requires
        message::message_wire(message) is Ok,
        all_shaped(message),
        all_names_are_full(message),
    ensures
        message::message_at(message::message_wire(message)->Ok_0) == Ok::<MessageModel, DnsError>(
            message,
        ),
{
    let wire = message::message_wire(message)->Ok_0;
    law_decode_undoes_encode(message, Seq::empty());
    assert(wire + Seq::<u8>::empty() =~= wire);
    lemma_full_message_is_itself(message);
}

} // verus!
