//! What is written where in a message, said of its bytes.

use vstd::prelude::*;

use crate::error::DnsError;
use crate::label;
use crate::laws::fields;
use crate::laws::strings;
use crate::message;
use crate::message::{MessageModel, QuestionModel};
use crate::record;
use crate::record::{DataModel, RecordModel};

verus! {

/// What a record carries is written as the octets of an address in order, as
/// strings behind their lengths, as a name, for SRV with two bytes each of
/// priority, weight and port before it, and anything else as it is.
pub proof fn law_rdata_is_written_by_type(data: DataModel)
    ensures
        match data {
            DataModel::A(bytes) => record::rdata_wire(data) == Ok::<Seq<u8>, DnsError>(bytes),
            DataModel::Aaaa(bytes) => record::rdata_wire(data) == Ok::<Seq<u8>, DnsError>(bytes),
            DataModel::Other(bytes) => record::rdata_wire(data) == Ok::<Seq<u8>, DnsError>(bytes),
            DataModel::Txt(parts) => record::rdata_wire(data) == if strings::are_short(parts) {
                Ok::<Seq<u8>, DnsError>(strings::string_pieces(parts).flatten())
            } else {
                Err(DnsError::LongString)
            },
            DataModel::Ptr(target) => record::rdata_wire(data) == label::name_wire(target),
            DataModel::Srv { priority, weight, port, target } => match label::name_wire(target) {
                Err(error) => record::rdata_wire(data) == Err::<Seq<u8>, DnsError>(error),
                Ok(name) => {
                    &&& record::rdata_wire(data) matches Ok(bytes)
                    &&& bytes.len() == 6 + name.len()
                    &&& fields::two(bytes, 0) == priority
                    &&& fields::two(bytes, 2) == weight
                    &&& fields::two(bytes, 4) == port
                    &&& bytes.skip(6) == name
                },
            },
        },
{
    if let DataModel::Txt(parts) = data {
        strings::law_strings_are_written_behind_their_lengths(parts);
    }
    if let DataModel::Srv { target, .. } = data {
        if let Ok(name) = label::name_wire(target) {
            assert(record::rdata_wire(data)->Ok_0.skip(6) =~= name);
        }
    }
}

/// A question is written as its name, two bytes of type and two of class.
pub proof fn law_a_question_is_written_field_by_field(question: QuestionModel)
    ensures
        match label::name_wire(question.name) {
            Err(error) => message::question_wire(question) == Err::<Seq<u8>, DnsError>(error),
            Ok(name) => {
                &&& message::question_wire(question) matches Ok(bytes)
                &&& bytes.len() == name.len() + 4
                &&& bytes.take(name.len() as int) == name
                &&& fields::two(bytes, name.len() as int) == question.kind
                &&& fields::two(bytes, (name.len() + 2) as int) == question.class
            },
        },
{
    if let Ok(name) = label::name_wire(question.name) {
        assert(message::question_wire(question)->Ok_0.take(name.len() as int) =~= name);
    }
}

/// A record is written as its name, two bytes of type, two of class, four of
/// ttl, two that say how long its rdata is, and the rdata.
pub proof fn law_a_record_is_written_field_by_field(record: RecordModel)
    ensures
        match label::name_wire(record.name) {
            Err(error) => record::record_wire(record) == Err::<Seq<u8>, DnsError>(error),
            Ok(name) => match record::rdata_wire(record.data) {
                Err(error) => record::record_wire(record) == Err::<Seq<u8>, DnsError>(error),
                Ok(rdata) => if rdata.len() > 65535 {
                    record::record_wire(record) == Err::<Seq<u8>, DnsError>(DnsError::LongRdata)
                } else {
                    let n = name.len() as int;
                    &&& record::record_wire(record) matches Ok(bytes)
                    &&& bytes.len() == n + 10 + rdata.len()
                    &&& bytes.take(n) == name
                    &&& fields::two(bytes, n) == record.kind
                    &&& fields::two(bytes, n + 2) == record.class
                    &&& fields::four(bytes, n + 4) == record.ttl
                    &&& fields::two(bytes, n + 8) == rdata.len()
                    &&& bytes.skip(n + 10) == rdata
                },
            },
        },
{
    if let Ok(name) = label::name_wire(record.name) {
        if let Ok(rdata) = record::rdata_wire(record.data) {
            if rdata.len() <= 65535 {
                let bytes = record::record_wire(record)->Ok_0;
                assert(bytes.take(name.len() as int) =~= name);
                assert(bytes.skip((name.len() + 10) as int) =~= rdata);
            }
        }
    }
}

/// Questions, each as it is written.
pub open spec fn question_pieces(questions: Seq<QuestionModel>) -> Seq<Seq<u8>> {
    Seq::new(questions.len(), |i: int| message::question_wire(questions[i])->Ok_0)
}

/// Records, each as it is written.
pub open spec fn record_pieces(records: Seq<RecordModel>) -> Seq<Seq<u8>> {
    Seq::new(records.len(), |i: int| record::record_wire(records[i])->Ok_0)
}

/// Whether the questions before the one at `k` can be written, and it cannot.
pub open spec fn question_breaks_at(
    questions: Seq<QuestionModel>,
    k: int,
    error: DnsError,
) -> bool {
    &&& 0 <= k < questions.len()
    &&& forall|i: int| 0 <= i < k ==> message::question_wire(#[trigger] questions[i]) is Ok
    &&& message::question_wire(questions[k]) == Err::<Seq<u8>, DnsError>(error)
}

/// Whether the records before the one at `k` can be written, and it cannot.
pub open spec fn record_breaks_at(records: Seq<RecordModel>, k: int, error: DnsError) -> bool {
    &&& 0 <= k < records.len()
    &&& forall|i: int| 0 <= i < k ==> record::record_wire(#[trigger] records[i]) is Ok
    &&& record::record_wire(records[k]) == Err::<Seq<u8>, DnsError>(error)
}

/// Questions are written one behind the other, or refused for the first that
/// cannot be.
pub proof fn law_questions_are_written_in_order(questions: Seq<QuestionModel>)
    ensures
        match message::questions_wire(questions) {
            Ok(bytes) => {
                &&& forall|i: int|
                    0 <= i < questions.len() ==> message::question_wire(
                        #[trigger] questions[i],
                    ) is Ok
                &&& bytes == question_pieces(questions).flatten()
            },
            Err(error) => exists|k: int| question_breaks_at(questions, k, error),
        },
    decreases questions.len(),
{
    if questions.len() == 0 {
        assert(question_pieces(questions) =~= Seq::empty());
        assert(question_pieces(questions).flatten() =~= Seq::empty());
    } else {
        let most = questions.drop_last();
        let last = questions.last();
        law_questions_are_written_in_order(most);
        match message::questions_wire(most) {
            Err(error) => {
                let k = choose|k: int| question_breaks_at(most, k, error);
                assert forall|i: int| 0 <= i < k implies message::question_wire(
                    #[trigger] questions[i],
                ) is Ok by {
                    assert(most[i] == questions[i]);
                }
                assert(question_breaks_at(questions, k, error));
            },
            Ok(wire) => {
                assert forall|i: int| 0 <= i < most.len() implies message::question_wire(
                    #[trigger] questions[i],
                ) is Ok by {
                    assert(most[i] == questions[i]);
                }
                match message::question_wire(last) {
                    Err(error) => {
                        assert(question_breaks_at(questions, questions.len() - 1, error));
                    },
                    Ok(piece) => {
                        assert(question_pieces(questions) =~= question_pieces(most).push(piece));
                        question_pieces(most).lemma_flatten_push(piece);
                    },
                }
            },
        }
    }
}

/// Records are written one behind the other, or refused for the first that
/// cannot be.
pub proof fn law_records_are_written_in_order(records: Seq<RecordModel>)
    ensures
        match message::records_wire(records) {
            Ok(bytes) => {
                &&& forall|i: int|
                    0 <= i < records.len() ==> record::record_wire(#[trigger] records[i]) is Ok
                &&& bytes == record_pieces(records).flatten()
            },
            Err(error) => exists|k: int| record_breaks_at(records, k, error),
        },
    decreases records.len(),
{
    if records.len() == 0 {
        assert(record_pieces(records) =~= Seq::empty());
        assert(record_pieces(records).flatten() =~= Seq::empty());
    } else {
        let most = records.drop_last();
        let last = records.last();
        law_records_are_written_in_order(most);
        match message::records_wire(most) {
            Err(error) => {
                let k = choose|k: int| record_breaks_at(most, k, error);
                assert forall|i: int| 0 <= i < k implies record::record_wire(
                    #[trigger] records[i],
                ) is Ok by {
                    assert(most[i] == records[i]);
                }
                assert(record_breaks_at(records, k, error));
            },
            Ok(wire) => {
                assert forall|i: int| 0 <= i < most.len() implies record::record_wire(
                    #[trigger] records[i],
                ) is Ok by {
                    assert(most[i] == records[i]);
                }
                match record::record_wire(last) {
                    Err(error) => {
                        assert(record_breaks_at(records, records.len() - 1, error));
                    },
                    Ok(piece) => {
                        assert(record_pieces(records) =~= record_pieces(most).push(piece));
                        record_pieces(most).lemma_flatten_push(piece);
                    },
                }
            },
        }
    }
}

/// Whether a section has more entries than two bytes can count.
pub open spec fn has_a_long_section(message: MessageModel) -> bool {
    message.questions.len() > 65535 || message.answers.len() > 65535 || message.authority.len()
        > 65535 || message.additional.len() > 65535
}

/// A message is written as twelve bytes of header, two each for the id, the
/// flags and the counts of its four sections, and then its questions and the
/// records of answers, authority and additional, one behind the other and
/// nothing behind them. It is refused where a section is too long to count,
/// else for the first entry that cannot be written, else where it has more
/// than 65535 bytes.
pub proof fn law_a_message_is_written_entry_by_entry(message: MessageModel)
    ensures
        ({
            let records = message.answers + message.authority + message.additional;
            match message::message_wire(message) {
                Ok(bytes) => {
                    &&& !has_a_long_section(message)
                    &&& message::questions_wire(message.questions) matches Ok(first)
                    &&& message::records_wire(records) matches Ok(second)
                    &&& bytes.len() == 12 + first.len() + second.len()
                    &&& bytes.len() <= 65535
                    &&& fields::two(bytes, 0) == message.id
                    &&& fields::two(bytes, 2) == message.flags
                    &&& fields::two(bytes, 4) == message.questions.len()
                    &&& fields::two(bytes, 6) == message.answers.len()
                    &&& fields::two(bytes, 8) == message.authority.len()
                    &&& fields::two(bytes, 10) == message.additional.len()
                    &&& bytes.skip(12) == first + second
                },
                Err(error) => if has_a_long_section(message) {
                    error == DnsError::LongSection
                } else {
                    match message::questions_wire(message.questions) {
                        Err(cause) => error == cause,
                        Ok(first) => match message::records_wire(records) {
                            Err(cause) => error == cause,
                            Ok(second) => error == DnsError::LongMessage && 12 + first.len()
                                + second.len() > 65535,
                        },
                    }
                },
            }
        }),
{
    let records = message.answers + message.authority + message.additional;
    assert(message.records() =~= records);
    assert(message::header_wire(message).len() == 12);
    if let Ok(bytes) = message::message_wire(message) {
        let first = message::questions_wire(message.questions)->Ok_0;
        let second = message::records_wire(records)->Ok_0;
        assert(bytes.skip(12) =~= first + second);
    }
}

} // verus!
