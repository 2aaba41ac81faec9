//! The rdata of TXT: what is read from it is written as it, and the other way
//! round.

use vstd::prelude::*;

use crate::error::DnsError;
use crate::laws::names;
use crate::laws::roundtrip;
use crate::record;
use crate::record::MAX_STRING;

verus! {

/// Strings, each behind the byte that says how long it is.
pub open spec fn string_pieces(strings: Seq<Seq<u8>>) -> Seq<Seq<u8>> {
    Seq::new(strings.len(), |i: int| seq![strings[i].len() as u8] + strings[i])
}

/// Whether no string has more than 255 bytes.
pub open spec fn are_short(strings: Seq<Seq<u8>>) -> bool {
    forall|i: int| 0 <= i < strings.len() ==> (#[trigger] strings[i]).len() <= 255
}

/// Strings are written as themselves, each behind its length, exactly where
/// none has more than 255 bytes.
pub proof fn law_strings_are_written_behind_their_lengths(strings: Seq<Seq<u8>>)
    ensures
        record::strings_wire(strings) == if are_short(strings) {
            Ok::<Seq<u8>, DnsError>(string_pieces(strings).flatten())
        } else {
            Err(DnsError::LongString)
        },
    decreases strings.len(),
{
    if strings.len() == 0 {
        assert(string_pieces(strings) =~= Seq::empty());
        assert(string_pieces(strings).flatten() =~= Seq::empty());
    } else {
        let most = strings.drop_last();
        let last = strings.last();
        let piece = seq![last.len() as u8] + last;
        law_strings_are_written_behind_their_lengths(most);
        assert(string_pieces(strings) =~= string_pieces(most).push(piece));
        string_pieces(most).lemma_flatten_push(piece);
        if are_short(strings) {
            assert forall|i: int| 0 <= i < most.len() implies (#[trigger] most[i]).len()
                <= 255 by {
                assert(most[i] == strings[i]);
            }
            assert(strings[strings.len() - 1].len() <= 255);
            assert(record::strings_wire(strings)->Ok_0 =~= string_pieces(strings).flatten());
        } else if are_short(most) {
            assert forall|i: int| last.len() <= 255 && 0 <= i < strings.len() implies (
            #[trigger] strings[i]).len() <= 255 by {
                if i < most.len() {
                    assert(most[i] == strings[i]);
                }
            }
        }
    }
}

/// Strings behind strings are written as the ones and then the others.
proof fn lemma_strings_wire_concat(first: Seq<Seq<u8>>, second: Seq<Seq<u8>>)
    requires
        record::strings_wire(first) is Ok,
        record::strings_wire(second) is Ok,
    ensures
        record::strings_wire(first + second) == Ok::<Seq<u8>, DnsError>(
            record::strings_wire(first)->Ok_0 + record::strings_wire(second)->Ok_0,
        ),
    decreases second.len(),
{
    let before = record::strings_wire(first)->Ok_0;
    if second.len() == 0 {
        assert(first + second =~= first);
        assert(before + record::strings_wire(second)->Ok_0 =~= before);
    } else {
        let most = second.drop_last();
        let last = second.last();
        assert((first + second).drop_last() =~= first + most);
        assert((first + second).last() == last);
        lemma_strings_wire_concat(first, most);
        let wire = record::strings_wire(most)->Ok_0;
        assert((before + wire).push(last.len() as u8) + last =~= before + (wire.push(
            last.len() as u8,
        ) + last));
    }
}

/// One string is written as its length and itself.
proof fn lemma_string_wire_alone(string: Seq<u8>)
    requires
        string.len() <= MAX_STRING,
    ensures
        record::strings_wire(seq![string]) == Ok::<Seq<u8>, DnsError>(
            seq![string.len() as u8] + string,
        ),
{
    assert(seq![string].drop_last() =~= Seq::empty());
    assert(record::strings_wire(Seq::empty()) == Ok::<Seq<u8>, DnsError>(Seq::empty()));
    assert(Seq::<u8>::empty().push(string.len() as u8) + string =~= seq![string.len() as u8]
        + string);
}

/// The string at `at`, where the bytes reach that far, is written as its
/// bytes there.
proof fn lemma_string_at_is_written(raw: Seq<u8>, at: int)
    requires
        0 <= at < raw.len(),
        at + 1 + raw[at] <= raw.len(),
    ensures
        record::strings_wire(seq![raw.subrange(at + 1, at + 1 + raw[at])]) == Ok::<
            Seq<u8>,
            DnsError,
        >(raw.subrange(at, at + 1 + raw[at])),
{
    let string = raw.subrange(at + 1, at + 1 + raw[at]);
    lemma_string_wire_alone(string);
    assert(seq![string.len() as u8] + string =~= raw.subrange(at, at + 1 + raw[at]));
}

/// Strings that are read are written as what they were read from.
proof fn lemma_read_strings_are_written(raw: Seq<u8>, at: int)
    requires
        0 <= at <= raw.len(),
        record::strings_from(raw, at) is Ok,
    ensures
        record::strings_wire(record::strings_from(raw, at)->Ok_0) == Ok::<Seq<u8>, DnsError>(
            raw.skip(at),
        ),
    decreases raw.len() - at,
{
    if at == raw.len() {
        assert(raw.skip(at) =~= Seq::empty());
    } else {
        let next = at + 1 + raw[at];
        lemma_read_strings_are_written(raw, next);
        lemma_string_at_is_written(raw, at);
        lemma_strings_wire_concat(
            seq![raw.subrange(at + 1, next)],
            record::strings_from(raw, next)->Ok_0,
        );
        assert(raw.subrange(at, next) + raw.skip(next) =~= raw.skip(at));
    }
}

/// Rdata reads as exactly the strings that are written as it: all of it is
/// used, and every string is kept, the empty ones too.
pub proof fn law_strings_are_read_exactly_as_written(raw: Seq<u8>, strings: Seq<Seq<u8>>)
    ensures
        record::strings_from(raw, 0) == Ok::<Seq<Seq<u8>>, DnsError>(strings)
            <==> record::strings_wire(strings) == Ok::<Seq<u8>, DnsError>(raw),
{
    if record::strings_from(raw, 0) == Ok::<Seq<Seq<u8>>, DnsError>(strings) {
        lemma_read_strings_are_written(raw, 0);
        assert(raw.skip(0) =~= raw);
    }
    if record::strings_wire(strings) == Ok::<Seq<u8>, DnsError>(raw) {
        assert(raw.subrange(0, raw.len() as int) =~= raw);
        assert(names::stands_at(raw, 0, raw));
        roundtrip::lemma_strings_read_back(raw, 0, strings);
        assert(strings + Seq::<Seq<u8>>::empty() =~= strings);
    }
}

/// Rdata reads as the strings that stand in it, each behind its length, and
/// is refused where it is no such strings.
pub proof fn law_strings_are_read_behind_their_lengths(raw: Seq<u8>)
    ensures
        record::strings_from(raw, 0) matches Ok(strings) ==> are_short(strings) && string_pieces(
            strings,
        ).flatten() == raw,
        record::strings_from(raw, 0) matches Err(error) ==> error == DnsError::ShortString
            && forall|strings: Seq<Seq<u8>>|
            are_short(strings) ==> #[trigger] string_pieces(strings).flatten() != raw,
{
    lemma_strings_error(raw, 0);
    if let Ok(strings) = record::strings_from(raw, 0) {
        law_strings_are_read_exactly_as_written(raw, strings);
        law_strings_are_written_behind_their_lengths(strings);
    } else {
        assert forall|strings: Seq<Seq<u8>>| are_short(strings) implies #[trigger] string_pieces(
            strings,
        ).flatten() != raw by {
            law_strings_are_written_behind_their_lengths(strings);
            law_strings_are_read_exactly_as_written(raw, strings);
        }
    }
}

/// Whether `raw` is whole strings up to `at`, and the length there runs past
/// its end.
pub open spec fn is_cut_at(raw: Seq<u8>, at: int) -> bool {
    &&& 0 <= at < raw.len()
    &&& record::strings_from(raw.take(at), 0) is Ok
    &&& at + 1 + raw[at] > raw.len()
}

/// Where the strings from `at` on cannot be read, the rdata is cut in one of
/// them.
proof fn lemma_unread_is_cut(raw: Seq<u8>, at: int, done: Seq<Seq<u8>>) -> (place: int)
    requires
        0 <= at <= raw.len(),
        record::strings_wire(done) == Ok::<Seq<u8>, DnsError>(raw.take(at)),
        record::strings_from(raw, at) is Err,
    ensures
        is_cut_at(raw, place),
    decreases raw.len() - at,
{
    if at + 1 + raw[at] > raw.len() {
        law_strings_are_read_exactly_as_written(raw.take(at), done);
        at
    } else {
        let next = at + 1 + raw[at];
        let string = raw.subrange(at + 1, next);
        lemma_string_at_is_written(raw, at);
        lemma_strings_wire_concat(done, seq![string]);
        assert(raw.take(at) + raw.subrange(at, next) =~= raw.take(next));
        lemma_unread_is_cut(raw, next, done + seq![string])
    }
}

/// Rdata does not read as strings exactly where it is cut: whole strings,
/// and then a length that runs past its end.
pub proof fn law_strings_are_refused_exactly_where_cut(raw: Seq<u8>)
    ensures
        record::strings_from(raw, 0) is Err <==> exists|at: int| is_cut_at(raw, at),
        record::strings_from(raw, 0) matches Err(error) ==> error == DnsError::ShortString,
{
    lemma_strings_error(raw, 0);
    if record::strings_from(raw, 0) is Err {
        assert(raw.take(0) =~= Seq::empty());
        let at = lemma_unread_is_cut(raw, 0, Seq::empty());
        assert(is_cut_at(raw, at));
    }
    if exists|at: int| is_cut_at(raw, at) {
        let at = choose|at: int| is_cut_at(raw, at);
        let done = record::strings_from(raw.take(at), 0)->Ok_0;
        law_strings_are_read_exactly_as_written(raw.take(at), done);
        assert(raw.subrange(0, at) =~= raw.take(at));
        assert(names::stands_at(raw, 0, raw.take(at)));
        roundtrip::lemma_strings_read_back(raw, 0, done);
        assert(record::strings_from(raw, at) is Err);
    }
}

/// Strings that cannot be read are cut short.
proof fn lemma_strings_error(raw: Seq<u8>, at: int)
    ensures
        record::strings_from(raw, at) matches Err(error) ==> error == DnsError::ShortString,
    decreases raw.len() - at,
{
    if 0 <= at < raw.len() && at + 1 + raw[at] <= raw.len() {
        lemma_strings_error(raw, at + 1 + raw[at]);
    }
}

} // verus!
