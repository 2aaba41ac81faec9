//! What is read where in a message, said of its bytes.

use vstd::prelude::*;

use crate::error::DnsError;
use crate::label;
use crate::laws::strings;
use crate::message;
use crate::message::{MessageModel, QuestionModel};
use crate::record;
use crate::record::{DataModel, RecordModel};
use crate::wire;

verus! {

/// What two bytes say, the first the higher.
pub open spec fn two(bytes: Seq<u8>, at: int) -> int {
    bytes[at] * 0x100 + bytes[at + 1]
}

/// What four bytes say, the first the highest.
pub open spec fn four(bytes: Seq<u8>, at: int) -> int {
    bytes[at] * 0x100_0000 + bytes[at + 1] * 0x1_0000 + bytes[at + 2] * 0x100 + bytes[at + 3]
}

/// A question is a name, then two bytes of type and two of class.
pub proof fn law_a_question_is_read_field_by_field(bytes: Seq<u8>, at: int)
    ensures
        match label::name_at(bytes, at) {
            Err(error) => message::question_at(bytes, at) == Err::<(QuestionModel, int), DnsError>(
                error,
            ),
            Ok((name, next)) => match message::question_at(bytes, at) {
                Err(error) => next + 4 > bytes.len() && error == DnsError::ShortSection,
                Ok((question, end)) => {
                    &&& next + 4 <= bytes.len()
                    &&& question.name == name
                    &&& question.kind == two(bytes, next)
                    &&& question.class == two(bytes, next + 2)
                    &&& end == next + 4
                },
            },
        },
{
}

/// A record is a name, then two bytes of type, two of class, four of ttl, two
/// that say how many bytes of rdata follow, and those. In class IN, whatever
/// the top bit of the class, the rdata is read by type; in any other class
/// it is kept as it came.
pub proof fn law_a_record_is_read_field_by_field(bytes: Seq<u8>, at: int)
    ensures
        match label::name_at(bytes, at) {
            Err(error) => record::record_at(bytes, at) == Err::<(RecordModel, int), DnsError>(
                error,
            ),
            Ok((name, next)) => if next + 10 > bytes.len() || next + 10 + two(bytes, next + 8)
                > bytes.len() {
                record::record_at(bytes, at) == Err::<(RecordModel, int), DnsError>(
                    DnsError::ShortSection,
                )
            } else {
                let start = next + 10;
                let length = two(bytes, next + 8);
                let kind = two(bytes, next) as u16;
                let by_type = two(bytes, next + 2) % 0x8000 == 1;
                match record::record_at(bytes, at) {
                    Ok((record, end)) => {
                        &&& record.name == name
                        &&& record.kind == two(bytes, next)
                        &&& record.class == two(bytes, next + 2)
                        &&& record.ttl == four(bytes, next + 4)
                        &&& end == start + length
                        &&& by_type ==> record::data_at(bytes, start, length, kind) == Ok::<
                            DataModel,
                            DnsError,
                        >(record.data)
                        &&& !by_type ==> record.data == DataModel::Other(
                            bytes.subrange(start, start + length),
                        )
                    },
                    Err(error) => by_type && record::data_at(bytes, start, length, kind) == Err::<
                        DataModel,
                        DnsError,
                    >(error),
                }
            },
        },
{
    if let Ok((_, next)) = label::name_at(bytes, at) {
        label::lemma_name_end(bytes, at, bytes.len());
    }
}

/// Rdata of type A is the four octets of an address in order, and of AAAA
/// the sixteen.
pub proof fn law_an_address_is_its_rdata(bytes: Seq<u8>, start: int, length: int)
    requires
        0 <= start,
        0 <= length,
        start + length <= bytes.len(),
    ensures
        match record::data_at(bytes, start, length, 1) {
            Ok(data) => length == 4 && data == DataModel::A(
                seq![bytes[start], bytes[start + 1], bytes[start + 2], bytes[start + 3]],
            ),
            Err(error) => length != 4 && error == DnsError::AddressLength,
        },
        match record::data_at(bytes, start, length, 28) {
            Ok(DataModel::Aaaa(octets)) => {
                &&& length == 16
                &&& octets.len() == 16
                &&& forall|i: int| 0 <= i < 16 ==> #[trigger] octets[i] == bytes[start + i]
            },
            Ok(_) => false,
            Err(error) => length != 16 && error == DnsError::LongAddressLength,
        },
{
    if length == 4 {
        assert(bytes.subrange(start, start + 4) =~= seq![
            bytes[start],
            bytes[start + 1],
            bytes[start + 2],
            bytes[start + 3],
        ]);
    }
}

/// A record of an address in class IN has the octets of its rdata in order,
/// however its owner is written.
pub proof fn law_an_address_record_has_its_octets_in_order(bytes: Seq<u8>, at: int, next: int)
    requires
        label::name_at(bytes, at) is Ok,
        label::name_at(bytes, at)->Ok_0.1 == next,
        next + 10 <= bytes.len(),
        next + 10 + two(bytes, next + 8) <= bytes.len(),
        two(bytes, next + 2) % 0x8000 == 1,
    ensures
        two(bytes, next) == 1 && two(bytes, next + 8) == 4 ==> {
            &&& record::record_at(bytes, at) matches Ok((record, _))
            &&& record.data == DataModel::A(
                seq![bytes[next + 10], bytes[next + 11], bytes[next + 12], bytes[next + 13]],
            )
        },
        two(bytes, next) == 28 && two(bytes, next + 8) == 16 ==> {
            &&& record::record_at(bytes, at) matches Ok((record, _))
            &&& record.data matches DataModel::Aaaa(octets)
            &&& octets.len() == 16
            &&& forall|i: int| 0 <= i < 16 ==> #[trigger] octets[i] == bytes[next + 10 + i]
        },
{
    label::lemma_name_end(bytes, at, bytes.len());
    law_a_record_is_read_field_by_field(bytes, at);
    law_an_address_is_its_rdata(bytes, next + 10, two(bytes, next + 8));
}

/// Rdata of type PTR is one name, and of SRV three times two bytes and one
/// name, which may point back into the message and ends where the rdata does.
pub proof fn law_a_target_is_the_name_in_its_rdata(bytes: Seq<u8>, start: int, length: int)
    requires
        0 <= start,
        0 <= length,
        start + length <= bytes.len(),
    ensures
        match record::data_at(bytes, start, length, 12) {
            Ok(DataModel::Ptr(target)) => label::name_at(bytes, start) == Ok::<
                (Seq<char>, int),
                DnsError,
            >((target, start + length)),
            Ok(_) => false,
            Err(error) => match label::name_at(bytes, start) {
                Err(cause) => error == cause,
                Ok((_, end)) => end != start + length && error == DnsError::NameLength,
            },
        },
        match record::data_at(bytes, start, length, 33) {
            Ok(DataModel::Srv { priority, weight, port, target }) => {
                &&& length >= 6
                &&& priority == two(bytes, start)
                &&& weight == two(bytes, start + 2)
                &&& port == two(bytes, start + 4)
                &&& label::name_at(bytes, start + 6) == Ok::<(Seq<char>, int), DnsError>(
                    (target, start + length),
                )
            },
            Ok(_) => false,
            Err(error) => if length < 6 {
                error == DnsError::ShortSection
            } else {
                match label::name_at(bytes, start + 6) {
                    Err(cause) => error == cause,
                    Ok((_, end)) => end != start + length && error == DnsError::NameLength,
                }
            },
        },
{
}

/// Rdata of type TXT is character strings, each behind its length, and
/// nothing else.
pub proof fn law_txt_rdata_is_strings(bytes: Seq<u8>, start: int, length: int)
    requires
        0 <= start,
        0 <= length,
        start + length <= bytes.len(),
    ensures
        match record::data_at(bytes, start, length, 16) {
            Ok(DataModel::Txt(read)) => strings::are_short(read) && strings::string_pieces(
                read,
            ).flatten() == bytes.subrange(start, start + length),
            Ok(_) => false,
            Err(error) => error == DnsError::ShortString && forall|other: Seq<Seq<u8>>|
                strings::are_short(other) ==> #[trigger] strings::string_pieces(other).flatten()
                    != bytes.subrange(start, start + length),
        },
{
    strings::law_strings_are_read_behind_their_lengths(bytes.subrange(start, start + length));
}

/// Rdata of any other type is kept as it came.
pub proof fn law_other_rdata_is_kept(bytes: Seq<u8>, start: int, length: int, kind: u16)
    requires
        0 <= start,
        0 <= length,
        start + length <= bytes.len(),
        kind != 1 && kind != 12 && kind != 16 && kind != 28 && kind != 33,
    ensures
        record::data_at(bytes, start, length, kind) == Ok::<DataModel, DnsError>(
            DataModel::Other(bytes.subrange(start, start + length)),
        ),
{
}

/// What stands behind its owner's name is all a record is but that name: two
/// records with the same there, written whole or with a pointer, in one
/// message or two, have one type, class, ttl and data. Where the rdata holds
/// a name, that name must read the same too.
pub proof fn law_a_record_is_the_same_behind_any_owner(
    bytes: Seq<u8>,
    at: int,
    others: Seq<u8>,
    other: int,
)
    requires
        record::record_at(bytes, at) is Ok,
        label::name_at(others, other) is Ok,
        ({
            let next = label::name_at(bytes, at)->Ok_0.1;
            let behind = label::name_at(others, other)->Ok_0.1;
            let length = record::record_at(bytes, at)->Ok_0.1 - next;
            let kind = record::record_at(bytes, at)->Ok_0.0.kind;
            let shift = if kind == 33 {
                16int
            } else {
                10
            };
            &&& behind + length <= others.len()
            &&& others.subrange(behind, behind + length) == bytes.subrange(next, next + length)
            &&& kind == 12 || kind == 33 ==> {
                &&& label::name_at(bytes, next + shift) is Ok
                &&& label::name_at(others, behind + shift) == Ok::<(Seq<char>, int), DnsError>(
                    (
                        label::name_at(bytes, next + shift)->Ok_0.0,
                        label::name_at(bytes, next + shift)->Ok_0.1 + behind - next,
                    ),
                )
            }
        }),
    ensures
        ({
            let (first, end) = record::record_at(bytes, at)->Ok_0;
            &&& record::record_at(others, other) matches Ok((second, _))
            &&& second.kind == first.kind
            &&& second.class == first.class
            &&& second.ttl == first.ttl
            &&& second.data == first.data
            &&& second.name == label::name_at(others, other)->Ok_0.0
        }),
{
    label::lemma_name_end(bytes, at, bytes.len());
    label::lemma_name_end(others, other, others.len());
    let next = label::name_at(bytes, at)->Ok_0.1;
    let behind = label::name_at(others, other)->Ok_0.1;
    let (first, end) = record::record_at(bytes, at)->Ok_0;
    let length = end - next;
    let here = bytes.subrange(next, next + length);
    let there = others.subrange(behind, behind + length);
    assert forall|i: int| 0 <= i < length implies #[trigger] others[behind + i] == bytes[next
        + i] by {
        assert(there[i] == here[i]);
    }
    assert(others[behind + 0] == bytes[next + 0]);
    assert(others[behind + 1] == bytes[next + 1]);
    assert(others[behind + 2] == bytes[next + 2]);
    assert(others[behind + 3] == bytes[next + 3]);
    assert(others[behind + 4] == bytes[next + 4]);
    assert(others[behind + 5] == bytes[next + 5]);
    assert(others[behind + 6] == bytes[next + 6]);
    assert(others[behind + 7] == bytes[next + 7]);
    assert(others[behind + 8] == bytes[next + 8]);
    assert(others[behind + 9] == bytes[next + 9]);
    let raw = bytes.subrange(next + 10, next + length);
    assert(raw =~= here.skip(10));
    assert(others.subrange(behind + 10, behind + length) =~= there.skip(10));
}

/// Where questions stand, one behind the other from `at` on: as far as they
/// can be read.
proof fn lemma_places_of_questions(bytes: Seq<u8>, at: int, count: nat) -> (places: Seq<int>)
    ensures
        places.len() > 0,
        places[0] == at,
        match message::questions_at(bytes, at, count) {
            Ok((questions, end)) => {
                &&& questions.len() == count
                &&& places.len() == count + 1
                &&& places.last() == end
                &&& forall|i: int|
                    0 <= i < count ==> message::question_at(bytes, #[trigger] places[i]) == Ok::<
                        (QuestionModel, int),
                        DnsError,
                    >((questions[i], places[i + 1]))
            },
            Err(error) => {
                &&& places.len() <= count
                &&& forall|i: int|
                    0 <= i < places.len() - 1 ==> (message::question_at(
                        bytes,
                        #[trigger] places[i],
                    ) matches Ok((_, end)) && end == places[i + 1])
                &&& message::question_at(bytes, places.last()) == Err::<
                    (QuestionModel, int),
                    DnsError,
                >(error)
            },
        },
    decreases count,
{
    if count == 0 {
        seq![at]
    } else {
        let fewer = (count - 1) as nat;
        let most = lemma_places_of_questions(bytes, at, fewer);
        match message::questions_at(bytes, at, fewer) {
            Err(_) => most,
            Ok((questions, here)) => match message::question_at(bytes, here) {
                Err(_) => most,
                Ok((question, end)) => {
                    let all = message::questions_at(bytes, at, count)->Ok_0.0;
                    assert forall|i: int| 0 <= i < count implies message::question_at(
                        bytes,
                        #[trigger] most.push(end)[i],
                    ) == Ok::<(QuestionModel, int), DnsError>((all[i], most.push(end)[i + 1])) by {
                        if i < fewer {
                            assert(most.push(end)[i] == most[i]);
                        }
                    }
                    most.push(end)
                },
            },
        }
    }
}

/// Where records stand, one behind the other from `at` on: as far as they can
/// be read.
proof fn lemma_places_of_records(bytes: Seq<u8>, at: int, count: nat) -> (places: Seq<int>)
    ensures
        places.len() > 0,
        places[0] == at,
        match message::records_at(bytes, at, count) {
            Ok((records, end)) => {
                &&& records.len() == count
                &&& places.len() == count + 1
                &&& places.last() == end
                &&& forall|i: int|
                    0 <= i < count ==> record::record_at(bytes, #[trigger] places[i]) == Ok::<
                        (RecordModel, int),
                        DnsError,
                    >((records[i], places[i + 1]))
            },
            Err(error) => {
                &&& places.len() <= count
                &&& forall|i: int|
                    0 <= i < places.len() - 1 ==> (record::record_at(
                        bytes,
                        #[trigger] places[i],
                    ) matches Ok((_, end)) && end == places[i + 1])
                &&& record::record_at(bytes, places.last()) == Err::<(RecordModel, int), DnsError>(
                    error,
                )
            },
        },
    decreases count,
{
    if count == 0 {
        seq![at]
    } else {
        let fewer = (count - 1) as nat;
        let most = lemma_places_of_records(bytes, at, fewer);
        match message::records_at(bytes, at, fewer) {
            Err(_) => most,
            Ok((records, here)) => match record::record_at(bytes, here) {
                Err(_) => most,
                Ok((record, end)) => {
                    let all = message::records_at(bytes, at, count)->Ok_0.0;
                    assert forall|i: int| 0 <= i < count implies record::record_at(
                        bytes,
                        #[trigger] most.push(end)[i],
                    ) == Ok::<(RecordModel, int), DnsError>((all[i], most.push(end)[i + 1])) by {
                        if i < fewer {
                            assert(most.push(end)[i] == most[i]);
                        }
                    }
                    most.push(end)
                },
            },
        }
    }
}

/// Whether an entry of a message is read at `places[i]`, a question for the
/// first `questions` of them and a record behind, and the next place is
/// where it ends.
pub open spec fn entry_is_read(bytes: Seq<u8>, places: Seq<int>, questions: int, i: int) -> bool {
    if i < questions {
        message::question_at(bytes, places[i]) matches Ok((_, end)) && end == places[i + 1]
    } else {
        record::record_at(bytes, places[i]) matches Ok((_, end)) && end == places[i + 1]
    }
}

/// [`message::question_at`], taken as it is.
#[verifier::opaque]
spec fn question_here(bytes: Seq<u8>, at: int) -> Result<(QuestionModel, int), DnsError> {
    message::question_at(bytes, at)
}

/// [`record::record_at`], taken as it is.
#[verifier::opaque]
spec fn record_here(bytes: Seq<u8>, at: int) -> Result<(RecordModel, int), DnsError> {
    record::record_at(bytes, at)
}

/// [`message::questions_at`], taken as it is.
#[verifier::opaque]
spec fn questions_here(bytes: Seq<u8>, at: int, count: nat) -> Result<
    (Seq<QuestionModel>, int),
    DnsError,
> {
    message::questions_at(bytes, at, count)
}

/// [`message::records_at`], taken as it is.
#[verifier::opaque]
spec fn records_here(bytes: Seq<u8>, at: int, count: nat) -> Result<
    (Seq<RecordModel>, int),
    DnsError,
> {
    message::records_at(bytes, at, count)
}

/// Whether an entry is read from one place to the next.
spec fn leads_on(bytes: Seq<u8>, places: Seq<int>, questions: int, i: int) -> bool {
    if i < questions {
        question_here(bytes, places[i]) matches Ok((_, end)) && end == places[i + 1]
    } else {
        record_here(bytes, places[i]) matches Ok((_, end)) && end == places[i + 1]
    }
}

/// Whether all entries but the last are read from their place to the next.
spec fn all_lead_on(bytes: Seq<u8>, places: Seq<int>, questions: int) -> bool {
    forall|i: int| 0 <= i < places.len() - 1 ==> #[trigger] leads_on(bytes, places, questions, i)
}

/// The places of the questions of a message.
proof fn lemma_question_section(bytes: Seq<u8>, at: int, count: nat) -> (places: Seq<int>)
    ensures
        places.len() > 0,
        places[0] == at,
        all_lead_on(bytes, places, count as int),
        match questions_here(bytes, at, count) {
            Ok((questions, end)) => {
                &&& questions.len() == count
                &&& places.len() == count + 1
                &&& places.last() == end
                &&& forall|i: int|
                    0 <= i < count ==> #[trigger] questions[i] == question_here(
                        bytes,
                        places[i],
                    )->Ok_0.0
            },
            Err(error) => {
                &&& places.len() <= count
                &&& question_here(bytes, places.last()) == Err::<(QuestionModel, int), DnsError>(
                    error,
                )
            },
        },
{
    reveal(question_here);
    reveal(questions_here);
    let places = lemma_places_of_questions(bytes, at, count);
    assert forall|i: int| 0 <= i < places.len() - 1 implies #[trigger] leads_on(
        bytes,
        places,
        count as int,
        i,
    ) by {
        assert(message::question_at(bytes, places[i]) is Ok);
    }
    if let Ok((questions, _)) = message::questions_at(bytes, at, count) {
        assert forall|i: int| 0 <= i < count implies #[trigger] questions[i] == question_here(
            bytes,
            places[i],
        )->Ok_0.0 by {
            assert(message::question_at(bytes, places[i]) is Ok);
        }
    }
    places
}

/// The places of one section more behind entries that are read.
proof fn lemma_next_section(bytes: Seq<u8>, before: Seq<int>, questions: int, count: nat) -> (all:
    Seq<int>)
    requires
        0 <= questions < before.len(),
        all_lead_on(bytes, before, questions),
    ensures
        all.len() >= before.len(),
        forall|i: int| 0 <= i < before.len() ==> #[trigger] all[i] == before[i],
        all_lead_on(bytes, all, questions),
        match records_here(bytes, before.last(), count) {
            Ok((records, end)) => {
                &&& records.len() == count
                &&& all.len() == before.len() + count
                &&& all.last() == end
                &&& forall|i: int|
                    0 <= i < count ==> #[trigger] records[i] == record_here(
                        bytes,
                        all[before.len() - 1 + i],
                    )->Ok_0.0
            },
            Err(error) => {
                &&& all.len() < before.len() + count
                &&& record_here(bytes, all.last()) == Err::<(RecordModel, int), DnsError>(error)
            },
        },
{
    let more = lemma_record_section(bytes, before.last(), count);
    let all = before.drop_last() + more;
    let join = before.len() - 1;
    assert(all.last() == more.last());
    assert forall|i: int| 0 <= i < before.len() implies #[trigger] all[i] == before[i] by {
        if i == join {
            assert(all[i] == more[0]);
        }
    }
    assert forall|i: int| 0 <= i < all.len() - 1 implies #[trigger] leads_on(
        bytes,
        all,
        questions,
        i,
    ) by {
        if i < join {
            assert(leads_on(bytes, before, questions, i));
            assert(all[i] == before[i]);
            assert(all[i + 1] == before[i + 1]);
        } else {
            assert(leads_on(bytes, more, 0, i - join));
            assert(all[i] == more[i - join]);
            assert(all[i + 1] == more[i - join + 1]);
        }
    }
    if let Ok((records, _)) = records_here(bytes, before.last(), count) {
        assert forall|i: int| 0 <= i < count implies #[trigger] records[i] == record_here(
            bytes,
            all[before.len() - 1 + i],
        )->Ok_0.0 by {
            assert(all[before.len() - 1 + i] == more[i]);
        }
    }
    all
}

/// The places of a section of records.
proof fn lemma_record_section(bytes: Seq<u8>, at: int, count: nat) -> (places: Seq<int>)
    ensures
        places.len() > 0,
        places[0] == at,
        all_lead_on(bytes, places, 0),
        match records_here(bytes, at, count) {
            Ok((records, end)) => {
                &&& records.len() == count
                &&& places.len() == count + 1
                &&& places.last() == end
                &&& forall|i: int|
                    0 <= i < count ==> #[trigger] records[i] == record_here(
                        bytes,
                        places[i],
                    )->Ok_0.0
            },
            Err(error) => {
                &&& places.len() <= count
                &&& record_here(bytes, places.last()) == Err::<(RecordModel, int), DnsError>(error)
            },
        },
{
    reveal(record_here);
    reveal(records_here);
    let places = lemma_places_of_records(bytes, at, count);
    assert forall|i: int| 0 <= i < places.len() - 1 implies #[trigger] leads_on(
        bytes,
        places,
        0,
        i,
    ) by {
        assert(record::record_at(bytes, places[i]) is Ok);
    }
    if let Ok((records, _)) = message::records_at(bytes, at, count) {
        assert forall|i: int| 0 <= i < count implies #[trigger] records[i] == record_here(
            bytes,
            places[i],
        )->Ok_0.0 by {
            assert(record::record_at(bytes, places[i]) is Ok);
        }
    }
    places
}

/// Whether a message is read from the entries at `places`, with so many in
/// each section.
spec fn is_read_from(
    read: Result<MessageModel, DnsError>,
    bytes: Seq<u8>,
    places: Seq<int>,
    q: int,
    a: int,
    u: int,
    d: int,
) -> bool {
    match read {
        Ok(message) => {
            &&& places.len() == q + a + u + d + 1
            &&& message.questions.len() == q
            &&& message.answers.len() == a
            &&& message.authority.len() == u
            &&& message.additional.len() == d
            &&& forall|i: int|
                0 <= i < q ==> #[trigger] message.questions[i] == question_here(
                    bytes,
                    places[i],
                )->Ok_0.0
            &&& forall|i: int|
                0 <= i < a ==> #[trigger] message.answers[i] == record_here(
                    bytes,
                    places[q + i],
                )->Ok_0.0
            &&& forall|i: int|
                0 <= i < u ==> #[trigger] message.authority[i] == record_here(
                    bytes,
                    places[q + a + i],
                )->Ok_0.0
            &&& forall|i: int|
                0 <= i < d ==> #[trigger] message.additional[i] == record_here(
                    bytes,
                    places[q + a + u + i],
                )->Ok_0.0
        },
        Err(error) => {
            &&& places.len() <= q + a + u + d
            &&& places.len() <= q ==> question_here(bytes, places.last()) == Err::<
                (QuestionModel, int),
                DnsError,
            >(error)
            &&& places.len() > q ==> record_here(bytes, places.last()) == Err::<
                (RecordModel, int),
                DnsError,
            >(error)
        },
    }
}

/// The message that the sections from behind the header on make up.
spec fn sections_here(bytes: Seq<u8>, q: nat, a: nat, u: nat, d: nat) -> Result<
    MessageModel,
    DnsError,
> {
    match questions_here(bytes, 12, q) {
        Err(error) => Err(error),
        Ok((questions, first)) => match records_here(bytes, first, a) {
            Err(error) => Err(error),
            Ok((answers, second)) => match records_here(bytes, second, u) {
                Err(error) => Err(error),
                Ok((authority, third)) => match records_here(bytes, third, d) {
                    Err(error) => Err(error),
                    Ok((additional, _)) => Ok(
                        MessageModel {
                            id: wire::word(bytes, 0),
                            flags: wire::word(bytes, 2),
                            questions,
                            answers,
                            authority,
                            additional,
                        },
                    ),
                },
            },
        },
    }
}

/// A message is what its sections make up.
proof fn lemma_message_is_its_sections(bytes: Seq<u8>)
    requires
        bytes.len() >= 12,
    ensures
        message::message_at(bytes) == sections_here(
            bytes,
            two(bytes, 4) as nat,
            two(bytes, 6) as nat,
            two(bytes, 8) as nat,
            two(bytes, 10) as nat,
        ),
{
    reveal(questions_here);
    reveal(records_here);
}

/// The places of the entries of a message.
proof fn lemma_sections(bytes: Seq<u8>, q: nat, a: nat, u: nat, d: nat) -> (places: Seq<int>)
    ensures
        places.len() > 0,
        places[0] == 12,
        all_lead_on(bytes, places, q as int),
        is_read_from(
            sections_here(bytes, q, a, u, d),
            bytes,
            places,
            q as int,
            a as int,
            u as int,
            d as int,
        ),
{
    let p = lemma_question_section(bytes, 12, q);
    if let Ok((_, first)) = questions_here(bytes, 12, q) {
        let r = lemma_next_section(bytes, p, q as int, a);
        if let Ok((_, second)) = records_here(bytes, first, a) {
            let s = lemma_next_section(bytes, r, q as int, u);
            if let Ok((_, third)) = records_here(bytes, second, u) {
                let t = lemma_next_section(bytes, s, q as int, d);
                if let Ok(message) = sections_here(bytes, q, a, u, d) {
                    assert forall|i: int| 0 <= i < q implies #[trigger] message.questions[i]
                        == question_here(bytes, t[i])->Ok_0.0 by {
                        assert(t[i] == s[i] && s[i] == r[i] && r[i] == p[i]);
                    }
                    assert forall|i: int| 0 <= i < a implies #[trigger] message.answers[i]
                        == record_here(bytes, t[q + i])->Ok_0.0 by {
                        assert(t[q + i] == s[q + i] && s[q + i] == r[q + i]);
                    }
                    assert forall|i: int| 0 <= i < u implies #[trigger] message.authority[i]
                        == record_here(bytes, t[q + a + i])->Ok_0.0 by {
                        assert(t[q + a + i] == s[q + a + i]);
                    }
                }
                assert(t[0] == s[0] && s[0] == r[0] && r[0] == p[0]);
                t
            } else {
                assert(s[0] == r[0] && r[0] == p[0]);
                s
            }
        } else {
            assert(r[0] == p[0]);
            r
        }
    } else {
        p
    }
}

/// A message is its header of twelve bytes, two each for the id, the flags
/// and the counts of its four sections, and from there the entries of its
/// sections, each where the one before ends. It is refused for the first
/// entry that cannot be read. The result is where the entries stand.
pub proof fn law_a_message_is_read_entry_by_entry(bytes: Seq<u8>) -> (places: Seq<int>)
    ensures
        bytes.len() < 12 ==> message::message_at(bytes) == Err::<MessageModel, DnsError>(
            DnsError::ShortHeader,
        ),
        bytes.len() >= 12 ==> {
            let questions = two(bytes, 4);
            let entries = questions + two(bytes, 6) + two(bytes, 8) + two(bytes, 10);
            &&& places.len() > 0
            &&& places[0] == 12
            &&& forall|i: int|
                0 <= i < places.len() - 1 ==> #[trigger] entry_is_read(bytes, places, questions, i)
            &&& match message::message_at(bytes) {
                Ok(message) => {
                    &&& places.len() == entries + 1
                    &&& message.id == two(bytes, 0)
                    &&& message.flags == two(bytes, 2)
                    &&& message.questions.len() == questions
                    &&& message.answers.len() == two(bytes, 6)
                    &&& message.authority.len() == two(bytes, 8)
                    &&& message.additional.len() == two(bytes, 10)
                    &&& forall|i: int|
                        0 <= i < questions ==> #[trigger] message.questions[i]
                            == message::question_at(bytes, places[i])->Ok_0.0
                    &&& forall|i: int|
                        0 <= i < message.answers.len() ==> #[trigger] message.answers[i]
                            == record::record_at(bytes, places[questions + i])->Ok_0.0
                    &&& forall|i: int|
                        0 <= i < message.authority.len() ==> #[trigger] message.authority[i]
                            == record::record_at(
                            bytes,
                            places[questions + message.answers.len() + i],
                        )->Ok_0.0
                    &&& forall|i: int|
                        0 <= i < message.additional.len() ==> #[trigger] message.additional[i]
                            == record::record_at(
                            bytes,
                            places[questions + message.answers.len() + message.authority.len() + i],
                        )->Ok_0.0
                },
                Err(error) => {
                    &&& places.len() <= entries
                    &&& places.len() <= questions ==> message::question_at(bytes, places.last())
                        == Err::<(QuestionModel, int), DnsError>(error)
                    &&& places.len() > questions ==> record::record_at(bytes, places.last())
                        == Err::<(RecordModel, int), DnsError>(error)
                },
            }
        },
{
    if bytes.len() < 12 {
        Seq::empty()
    } else {
        let q = two(bytes, 4);
        let places = lemma_sections(
            bytes,
            q as nat,
            two(bytes, 6) as nat,
            two(bytes, 8) as nat,
            two(bytes, 10) as nat,
        );
        lemma_message_is_its_sections(bytes);
        lemma_entries_are_read(bytes, places, q);
        reveal(question_here);
        reveal(record_here);
        places
    }
}

/// Entries that lead on are read.
proof fn lemma_entries_are_read(bytes: Seq<u8>, places: Seq<int>, questions: int)
    requires
        all_lead_on(bytes, places, questions),
    ensures
        forall|i: int|
            0 <= i < places.len() - 1 ==> #[trigger] entry_is_read(bytes, places, questions, i),
{
    reveal(question_here);
    reveal(record_here);
    assert forall|i: int| 0 <= i < places.len() - 1 implies #[trigger] entry_is_read(
        bytes,
        places,
        questions,
        i,
    ) by {
        assert(leads_on(bytes, places, questions, i));
    }
}

} // verus!
