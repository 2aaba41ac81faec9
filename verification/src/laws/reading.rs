//! What holds of any bytes that decode.

use vstd::prelude::*;

use crate::label;
use crate::label::MAX_LABEL;
use crate::laws::loops;
use crate::laws::roundtrip;
use crate::message;
use crate::record;
use crate::wire;

verus! {

/// A record that is read carries what its type and class say.
proof fn lemma_record_read_is_shaped(bytes: Seq<u8>, at: int)
    requires
        record::record_at(bytes, at) is Ok,
    ensures
        roundtrip::is_shaped(record::record_at(bytes, at)->Ok_0.0),
{
    label::lemma_name_end(bytes, at, bytes.len());
}

/// Records that are read carry what their type and class say.
proof fn lemma_records_read_are_shaped(bytes: Seq<u8>, at: int, count: nat)
    requires
        message::records_at(bytes, at, count) is Ok,
    ensures
        message::records_at(bytes, at, count)->Ok_0.0.len() == count,
        forall|i: int|
            0 <= i < count ==> roundtrip::is_shaped(
                #[trigger] message::records_at(bytes, at, count)->Ok_0.0[i],
            ),
    decreases count,
{
    if count > 0 {
        lemma_records_read_are_shaped(bytes, at, (count - 1) as nat);
        let (most, next) = message::records_at(bytes, at, (count - 1) as nat)->Ok_0;
        lemma_record_read_is_shaped(bytes, next);
        let all = message::records_at(bytes, at, count)->Ok_0.0;
        assert forall|i: int| 0 <= i < count implies roundtrip::is_shaped(#[trigger] all[i]) by {
            if i < count - 1 {
                assert(all[i] == most[i]);
            }
        }
    }
}

/// Every record of a message that decodes carries what its type and class
/// say it does.
pub proof fn law_decoded_records_are_shaped(bytes: Seq<u8>)
    requires
        message::message_at(bytes) is Ok,
    ensures
        roundtrip::all_shaped(message::message_at(bytes)->Ok_0),
{
    let (_, first) = message::questions_at(
        bytes,
        message::HEADER as int,
        wire::word(bytes, 4) as nat,
    )->Ok_0;
    let (_, second) = message::records_at(bytes, first, wire::word(bytes, 6) as nat)->Ok_0;
    let (_, third) = message::records_at(bytes, second, wire::word(bytes, 8) as nat)->Ok_0;
    lemma_records_read_are_shaped(bytes, first, wire::word(bytes, 6) as nat);
    lemma_records_read_are_shaped(bytes, second, wire::word(bytes, 8) as nat);
    lemma_records_read_are_shaped(bytes, third, wire::word(bytes, 10) as nat);
    let read = message::message_at(bytes)->Ok_0;
    let (a, b, c) = (read.answers, read.authority, read.additional);
    assert forall|i: int| 0 <= i < read.records().len() implies roundtrip::is_shaped(
        #[trigger] read.records()[i],
    ) by {
        if i < a.len() {
            assert(read.records()[i] == a[i]);
        } else if i < a.len() + b.len() {
            assert(read.records()[i] == b[i - a.len()]);
        } else {
            assert(read.records()[i] == c[i - a.len() - b.len()]);
        }
    }
}

/// Rdata that is read as a name, or ends in one, is used whole: the name ends
/// where the rdata does.
pub proof fn law_a_name_ends_with_its_rdata(bytes: Seq<u8>, start: int, length: int, kind: u16)
    requires
        record::data_at(bytes, start, length, kind) is Ok,
    ensures
        kind == record::TYPE_PTR ==> label::name_end(bytes, start) == start + length,
        kind == record::TYPE_SRV ==> label::name_end(bytes, start + 6) == start + length,
{
}

/// A walk that ends meets the same labels whatever follows the bytes.
proof fn lemma_walk_with_more(bytes: Seq<u8>, behind: Seq<u8>, at: int, steps: nat)
    requires
        label::walk(bytes, at, steps) is Ok,
    ensures
        label::walk(bytes + behind, at, steps) == label::walk(bytes, at, steps),
        label::name_end(bytes + behind, at) == label::name_end(bytes, at),
    decreases steps,
{
    let all = bytes + behind;
    let length = bytes[at];
    assert(all[at] == length);
    if length == 0 {
    } else if length <= MAX_LABEL {
        lemma_walk_with_more(bytes, behind, at + 1 + length, (steps - 1) as nat);
        assert(all.subrange(at + 1, at + 1 + length) =~= bytes.subrange(at + 1, at + 1 + length));
    } else {
        assert(all[at + 1] == bytes[at + 1]);
        lemma_walk_with_more(
            bytes,
            behind,
            label::pointer(length, bytes[at + 1]),
            (steps - 1) as nat,
        );
    }
}

/// A name that is read is the same whatever follows the bytes.
proof fn lemma_name_with_more(bytes: Seq<u8>, behind: Seq<u8>, at: int)
    requires
        label::name_at(bytes, at) is Ok,
    ensures
        label::name_at(bytes + behind, at) == label::name_at(bytes, at),
        0 <= at < label::name_at(bytes, at)->Ok_0.1 <= bytes.len(),
{
    lemma_walk_with_more(bytes, behind, at, bytes.len());
    loops::law_further_steps_change_nothing(
        bytes + behind,
        at,
        bytes.len(),
        (bytes + behind).len(),
    );
    label::lemma_name_end(bytes, at, bytes.len());
}

/// Sixteen bits are the same whatever follows the bytes.
proof fn lemma_word_with_more(bytes: Seq<u8>, behind: Seq<u8>, at: int)
    requires
        0 <= at,
        at + 2 <= bytes.len(),
    ensures
        wire::word(bytes + behind, at) == wire::word(bytes, at),
{
}

/// A record that is read is the same whatever follows the bytes.
proof fn lemma_record_with_more(bytes: Seq<u8>, behind: Seq<u8>, at: int)
    requires
        record::record_at(bytes, at) is Ok,
    ensures
        record::record_at(bytes + behind, at) == record::record_at(bytes, at),
{
    let all = bytes + behind;
    lemma_name_with_more(bytes, behind, at);
    let next = label::name_at(bytes, at)->Ok_0.1;
    lemma_word_with_more(bytes, behind, next);
    lemma_word_with_more(bytes, behind, next + 2);
    lemma_word_with_more(bytes, behind, next + 4);
    lemma_word_with_more(bytes, behind, next + 6);
    lemma_word_with_more(bytes, behind, next + 8);
    let kind = wire::word(bytes, next);
    let class = wire::word(bytes, next + 2);
    let length = wire::word(bytes, next + 8) as int;
    let start = next + 10;
    assert(all.subrange(start, start + length) =~= bytes.subrange(start, start + length));
    if record::is_class_in(class) {
        if kind == record::TYPE_PTR {
            lemma_name_with_more(bytes, behind, start);
        } else if kind == record::TYPE_SRV {
            lemma_name_with_more(bytes, behind, start + 6);
        }
    }
}

/// Records that are read are the same whatever follows the bytes.
proof fn lemma_records_with_more(bytes: Seq<u8>, behind: Seq<u8>, at: int, count: nat)
    requires
        message::records_at(bytes, at, count) is Ok,
    ensures
        message::records_at(bytes + behind, at, count) == message::records_at(bytes, at, count),
    decreases count,
{
    if count > 0 {
        lemma_records_with_more(bytes, behind, at, (count - 1) as nat);
        lemma_record_with_more(
            bytes,
            behind,
            message::records_at(bytes, at, (count - 1) as nat)->Ok_0.1,
        );
    }
}

/// Questions that are read are the same whatever follows the bytes.
proof fn lemma_questions_with_more(bytes: Seq<u8>, behind: Seq<u8>, at: int, count: nat)
    requires
        message::questions_at(bytes, at, count) is Ok,
    ensures
        message::questions_at(bytes + behind, at, count) == message::questions_at(
            bytes,
            at,
            count,
        ),
    decreases count,
{
    if count > 0 {
        lemma_questions_with_more(bytes, behind, at, (count - 1) as nat);
        let here = message::questions_at(bytes, at, (count - 1) as nat)->Ok_0.1;
        lemma_name_with_more(bytes, behind, here);
        let next = label::name_at(bytes, here)->Ok_0.1;
        lemma_word_with_more(bytes, behind, next);
        lemma_word_with_more(bytes, behind, next + 2);
    }
}

/// Bytes behind a message that decodes make no difference to it.
pub proof fn law_what_follows_a_message_is_ignored(bytes: Seq<u8>, behind: Seq<u8>)
    requires
        message::message_at(bytes) is Ok,
    ensures
        message::message_at(bytes + behind) == message::message_at(bytes),
{
    lemma_word_with_more(bytes, behind, 0);
    lemma_word_with_more(bytes, behind, 2);
    lemma_word_with_more(bytes, behind, 4);
    lemma_word_with_more(bytes, behind, 6);
    lemma_word_with_more(bytes, behind, 8);
    lemma_word_with_more(bytes, behind, 10);
    let count = wire::word(bytes, 4) as nat;
    lemma_questions_with_more(bytes, behind, message::HEADER as int, count);
    let first = message::questions_at(bytes, message::HEADER as int, count)->Ok_0.1;
    lemma_records_with_more(bytes, behind, first, wire::word(bytes, 6) as nat);
    let second = message::records_at(bytes, first, wire::word(bytes, 6) as nat)->Ok_0.1;
    lemma_records_with_more(bytes, behind, second, wire::word(bytes, 8) as nat);
    let third = message::records_at(bytes, second, wire::word(bytes, 8) as nat)->Ok_0.1;
    lemma_records_with_more(bytes, behind, third, wire::word(bytes, 10) as nat);
}

} // verus!
