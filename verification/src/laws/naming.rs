//! What a name is in text and in bytes, said of its characters and bytes.

use vstd::prelude::*;
use vstd::utf8::*;

use crate::error::DnsError;
use crate::label;
use crate::laws::loops;
use crate::laws::names;
use crate::laws::texts;
use crate::text;

verus! {

/// The labels of a name are what stands between its dots, but for what is
/// empty.
pub proof fn law_labels_stand_between_dots(first: Seq<char>, rest: Seq<char>)
    requires
        !first.contains('.'),
    ensures
        label::labels(Seq::empty()).len() == 0,
        first.len() > 0 ==> label::labels(first) == seq![first],
        first.len() > 0 ==> label::labels(first.push('.') + rest) == seq![first] + label::labels(
            rest,
        ),
        first.len() == 0 ==> label::labels(first.push('.') + rest) == label::labels(rest),
{
    texts::law_text_is_cut_at_the_first(first, '.', rest);
    assert(text::after(first, '.') =~= Seq::empty());
    assert(seq![first] + label::labels(Seq::empty()) =~= seq![first]);
}

/// A name in full is its labels, each with one dot behind it.
pub proof fn law_full_names_have_a_dot_behind_each_label(first: Seq<char>, rest: Seq<char>)
    requires
        !first.contains('.'),
    ensures
        names::full_name(Seq::empty()).len() == 0,
        first.len() > 0 ==> names::full_name(first) == first.push('.'),
        first.len() > 0 ==> names::full_name(first.push('.') + rest) == first.push('.')
            + names::full_name(rest),
        first.len() == 0 ==> names::full_name(first.push('.') + rest) == names::full_name(rest),
{
    law_labels_stand_between_dots(first, rest);
    if first.len() > 0 {
        let all = seq![first] + label::labels(rest);
        names::lemma_label_text_first(all);
        assert(all.drop_first() =~= label::labels(rest));
        names::lemma_label_text_first(seq![first]);
        assert(seq![first].drop_first() =~= Seq::empty());
        assert(first.push('.') + Seq::<char>::empty() =~= first.push('.'));
    }
}

/// Labels in UTF-8, each behind the byte that says how long it is.
pub open spec fn label_pieces(labels: Seq<Seq<char>>) -> Seq<Seq<u8>> {
    Seq::new(
        labels.len(),
        |i: int| seq![encode_utf8(labels[i]).len() as u8] + encode_utf8(labels[i]),
    )
}

/// Whether labels make a name: 63 bytes each at most, and 255 with their
/// lengths and the closing zero.
pub open spec fn make_a_name(labels: Seq<Seq<char>>) -> bool {
    &&& forall|i: int| 0 <= i < labels.len() ==> encode_utf8(#[trigger] labels[i]).len() <= 63
    &&& label_pieces(labels).flatten().len() + 1 <= 255
}

/// The pieces of one label more.
proof fn lemma_label_pieces_push(labels: Seq<Seq<char>>, last: Seq<char>)
    ensures
        label_pieces(labels.push(last)).flatten() == label_pieces(labels).flatten() + (
        seq![encode_utf8(last).len() as u8] + encode_utf8(last)),
{
    let piece = seq![encode_utf8(last).len() as u8] + encode_utf8(last);
    assert(label_pieces(labels.push(last)) =~= label_pieces(labels).push(piece));
    label_pieces(labels).lemma_flatten_push(piece);
}

/// Labels are written exactly where they make a name, as their pieces.
proof fn lemma_labels_are_written(labels: Seq<Seq<char>>)
    ensures
        label::label_wire(labels) is Ok <==> make_a_name(labels),
        label::label_wire(labels) matches Ok(wire) ==> wire == label_pieces(labels).flatten(),
    decreases labels.len(),
{
    if labels.len() == 0 {
        assert(label_pieces(labels) =~= Seq::empty());
        assert(label_pieces(labels).flatten() =~= Seq::empty());
    } else {
        let most = labels.drop_last();
        let last = labels.last();
        assert(labels =~= most.push(last));
        lemma_labels_are_written(most);
        lemma_label_pieces_push(most, last);
        if make_a_name(labels) {
            assert(encode_utf8(labels[labels.len() - 1]).len() <= 63);
            assert forall|i: int| 0 <= i < most.len() implies encode_utf8(
                #[trigger] most[i],
            ).len() <= 63 by {
                assert(most[i] == labels[i]);
            }
        }
        if let Ok(wire) = label::label_wire(labels) {
            assert forall|i: int| 0 <= i < labels.len() implies encode_utf8(
                #[trigger] labels[i],
            ).len() <= 63 by {
                if i < most.len() {
                    assert(most[i] == labels[i]);
                }
            }
            assert(wire =~= label_pieces(labels).flatten());
        }
    }
}

/// The first labels of a name that cannot be written, and the one behind
/// them that is the reason.
proof fn lemma_first_label_unwritten(labels: Seq<Seq<char>>) -> (k: int)
    requires
        label::label_wire(labels) is Err,
    ensures
        0 <= k < labels.len(),
        make_a_name(labels.take(k)),
        !make_a_name(labels.take(k + 1)),
        label::label_wire(labels) == Err::<Seq<u8>, DnsError>(
            if encode_utf8(labels[k]).len() > 63 {
                DnsError::LongLabel
            } else {
                DnsError::LongName
            },
        ),
    decreases labels.len(),
{
    let most = labels.drop_last();
    lemma_labels_are_written(labels);
    lemma_labels_are_written(most);
    if label::label_wire(most) is Err {
        let k = lemma_first_label_unwritten(most);
        assert(most.take(k) =~= labels.take(k));
        assert(most.take(k + 1) =~= labels.take(k + 1));
        k
    } else {
        assert(labels.take(labels.len() - 1) =~= most);
        assert(labels.take(labels.len() as int) =~= labels);
        labels.len() - 1
    }
}

/// Whether the labels up to the one at `k` make a name, and with it do not.
pub open spec fn breaks_at(labels: Seq<Seq<char>>, k: int) -> bool {
    &&& 0 <= k < labels.len()
    &&& make_a_name(labels.take(k))
    &&& !make_a_name(labels.take(k + 1))
}

/// Fewer labels of a name make one too.
proof fn lemma_fewer_labels_make_a_name(labels: Seq<Seq<char>>, k: int)
    requires
        make_a_name(labels),
        0 <= k <= labels.len(),
    ensures
        make_a_name(labels.take(k)),
    decreases labels.len(),
{
    if k == labels.len() {
        assert(labels.take(k) =~= labels);
    } else {
        lemma_labels_are_written(labels);
        lemma_labels_are_written(labels.drop_last());
        lemma_fewer_labels_make_a_name(labels.drop_last(), k);
        assert(labels.drop_last().take(k) =~= labels.take(k));
    }
}

/// A name is written as its labels in UTF-8, each behind its length, and a
/// zero; and it is written exactly where no label has more than 63 bytes and
/// the whole no more than 255. Otherwise the first label with which it is no
/// longer so is the error: `LongLabel` where it is too long itself,
/// `LongName` where it makes the name so.
pub proof fn law_a_name_is_written_as_its_labels(name: Seq<char>)
    ensures
        label::name_wire(name) is Ok <==> make_a_name(label::labels(name)),
        label::name_wire(name) matches Ok(wire) ==> wire == label_pieces(
            label::labels(name),
        ).flatten().push(0),
        label::name_wire(name) matches Err(error) ==> exists|k: int|
            breaks_at(label::labels(name), k),
        forall|k: int| #[trigger]
            breaks_at(label::labels(name), k) ==> label::name_wire(name) == Err::<
                Seq<u8>,
                DnsError,
            >(
                if encode_utf8(label::labels(name)[k]).len() > 63 {
                    DnsError::LongLabel
                } else {
                    DnsError::LongName
                },
            ),
{
    let labels = label::labels(name);
    lemma_labels_are_written(labels);
    if label::label_wire(labels) is Err {
        let first = lemma_first_label_unwritten(labels);
        assert(breaks_at(labels, first));
        assert forall|k: int| #[trigger] breaks_at(labels, k) implies k == first by {
            if k < first {
                lemma_fewer_labels_make_a_name(labels.take(first), k + 1);
                assert(labels.take(first).take(k + 1) =~= labels.take(k + 1));
            } else if first < k {
                lemma_fewer_labels_make_a_name(labels.take(k), first + 1);
                assert(labels.take(k).take(first + 1) =~= labels.take(first + 1));
            }
        }
    } else {
        assert forall|k: int| !(#[trigger] breaks_at(labels, k)) by {
            if breaks_at(labels, k) {
                lemma_fewer_labels_make_a_name(labels, k + 1);
            }
        }
    }
}

/// The bytes of text that the name at `at` spells.
pub open spec fn spelled(bytes: Seq<u8>, at: int) -> Seq<u8> {
    label::dotted(label::walk(bytes, at, bytes.len())->Ok_0)
}

/// Labels with dots behind them begin with the first.
proof fn lemma_dotted_first(first: Seq<u8>, rest: Seq<Seq<u8>>)
    ensures
        label::dotted(seq![first] + rest) == first.push(0x2e) + label::dotted(rest),
    decreases rest.len(),
{
    let all = seq![first] + rest;
    if rest.len() == 0 {
        assert(all.drop_last() =~= Seq::empty());
        assert(all.last() == first);
        assert(label::dotted(Seq::empty()) =~= Seq::empty());
        assert(label::dotted(all) =~= first.push(0x2e) + label::dotted(rest));
    } else {
        lemma_dotted_first(first, rest.drop_last());
        assert(all.drop_last() =~= seq![first] + rest.drop_last());
        assert(all.last() == rest.last());
        assert(label::dotted(all) =~= first.push(0x2e) + label::dotted(rest));
    }
}

/// One step fewer is enough for a walk that is not the whole way.
proof fn lemma_walk_without_the_first_step(bytes: Seq<u8>, at: int, next: int)
    requires
        0 <= at < bytes.len(),
        label::walk(bytes, at, bytes.len()) is Ok == (label::walk(
            bytes,
            next,
            (bytes.len() - 1) as nat,
        ) is Ok),
        label::walk(bytes, at, bytes.len()) matches Err(error) ==> label::walk(
            bytes,
            next,
            (bytes.len() - 1) as nat,
        ) == Err::<Seq<Seq<u8>>, DnsError>(error),
        label::walk(bytes, at, bytes.len() + 1) matches Err(error) ==> label::walk(
            bytes,
            next,
            bytes.len(),
        ) == Err::<Seq<Seq<u8>>, DnsError>(error),
    ensures
        label::walk(bytes, next, bytes.len()) == label::walk(
            bytes,
            next,
            (bytes.len() - 1) as nat,
        ),
{
    let fewer = (bytes.len() - 1) as nat;
    if label::walk(bytes, next, fewer) == Err::<Seq<Seq<u8>>, DnsError>(DnsError::PointerLoop) {
        assert(label::walk(bytes, at, bytes.len()) is Err);
        loops::law_a_looping_name_has_no_end(bytes, at, bytes.len() + 1);
    } else {
        loops::law_further_steps_change_nothing(bytes, next, fewer, bytes.len());
    }
}

/// A name is read by its bytes. A zero ends it. One to 63 is the length of a
/// label, which is spelled with a dot behind it before what is read next.
/// 192 and more begin a pointer, whose other bits say where before itself
/// the name goes on; whatever is read there, the name ends behind the first
/// pointer. Anything else is refused. What is spelled is read as UTF-8.
pub proof fn law_a_name_is_read_label_by_label(bytes: Seq<u8>, at: int)
    ensures
        label::name_at(bytes, at) matches Ok((name, _)) ==> name == text::text_of(
            spelled(bytes, at),
        ),
        !(0 <= at < bytes.len()) ==> label::name_at(bytes, at) == Err::<(Seq<char>, int), DnsError>(
            DnsError::ShortName,
        ),
        0 <= at < bytes.len() && bytes[at] == 0 ==> label::name_at(bytes, at) == Ok::<
            (Seq<char>, int),
            DnsError,
        >((Seq::empty(), at + 1)) && spelled(bytes, at).len() == 0,
        0 <= at < bytes.len() && 1 <= bytes[at] <= 63 && at + 1 + bytes[at] > bytes.len()
            ==> label::name_at(bytes, at) == Err::<(Seq<char>, int), DnsError>(
            DnsError::ShortName,
        ),
        0 <= at < bytes.len() && 1 <= bytes[at] <= 63 && at + 1 + bytes[at] <= bytes.len()
            ==> match label::name_at(bytes, at + 1 + bytes[at]) {
            Err(error) => label::name_at(bytes, at) == Err::<(Seq<char>, int), DnsError>(error),
            Ok((_, end)) => {
                &&& label::name_at(bytes, at) is Ok
                &&& label::name_at(bytes, at)->Ok_0.1 == end
                &&& spelled(bytes, at) == bytes.subrange(at + 1, at + 1 + bytes[at]).push(0x2e)
                    + spelled(bytes, at + 1 + bytes[at])
            },
        },
        0 <= at < bytes.len() && 64 <= bytes[at] <= 191 ==> label::name_at(bytes, at) == Err::<
            (Seq<char>, int),
            DnsError,
        >(DnsError::LongLabel),
        0 <= at && at + 1 == bytes.len() && bytes[at] >= 192 ==> label::name_at(bytes, at) == Err::<
            (Seq<char>, int),
            DnsError,
        >(DnsError::ShortName),
        0 <= at && at + 1 < bytes.len() && bytes[at] >= 192 && (bytes[at] - 192) * 256 + bytes[at
            + 1] >= at ==> label::name_at(bytes, at) == Err::<(Seq<char>, int), DnsError>(
            DnsError::PointerForward,
        ),
        0 <= at && at + 1 < bytes.len() && bytes[at] >= 192 && (bytes[at] - 192) * 256 + bytes[at
            + 1] < at ==> match label::name_at(bytes, (bytes[at] - 192) * 256 + bytes[at + 1]) {
            Err(error) => label::name_at(bytes, at) == Err::<(Seq<char>, int), DnsError>(error),
            Ok((name, _)) => {
                &&& label::name_at(bytes, at) == Ok::<(Seq<char>, int), DnsError>((name, at + 2))
                &&& spelled(bytes, at) == spelled(bytes, (bytes[at] - 192) * 256 + bytes[at + 1])
            },
        },
{
    if 0 <= at < bytes.len() {
        let b = bytes[at];
        if b == 0 {
            texts::law_utf8_reads_back(Seq::empty());
            assert(encode_utf8(Seq::<char>::empty()) =~= Seq::empty());
        } else if b <= 63 && at + 1 + b <= bytes.len() {
            let next = at + 1 + b;
            lemma_walk_without_the_first_step(bytes, at, next);
            if let Ok(rest) = label::walk(bytes, next, bytes.len()) {
                lemma_dotted_first(bytes.subrange(at + 1, next), rest);
            }
        } else if b >= 192 && at + 1 < bytes.len() && label::pointer(b, bytes[at + 1]) < at {
            lemma_walk_without_the_first_step(bytes, at, label::pointer(b, bytes[at + 1]));
        }
    }
}

/// Whether a name that is at `from` is at `to` one label or pointer on.
pub open spec fn goes_on_at(bytes: Seq<u8>, from: int, to: int) -> bool {
    &&& 0 <= from < bytes.len()
    &&& {
        ||| 1 <= bytes[from] <= 63 && to == from + 1 + bytes[from] && to <= bytes.len()
        ||| bytes[from] >= 192 && from + 1 < bytes.len() && to == (bytes[from] - 192) * 256
            + bytes[from + 1] && to < from
    }
}

/// Where a name goes on, it ends only if it does from there, and with a step
/// less to go.
proof fn lemma_walk_goes_on(bytes: Seq<u8>, from: int, to: int, steps: nat)
    requires
        goes_on_at(bytes, from, to),
        steps > 0,
    ensures
        label::walk(bytes, from, steps) is Ok <==> label::walk(bytes, to, (steps - 1) as nat) is Ok,
        label::walk(bytes, from, steps) matches Err(error) ==> label::walk(
            bytes,
            to,
            (steps - 1) as nat,
        ) == Err::<Seq<Seq<u8>>, DnsError>(error),
{
}

/// A way round is walked for any number of steps.
proof fn lemma_way_round(bytes: Seq<u8>, places: Seq<int>, i: int, steps: nat)
    requires
        places.len() > 1,
        places[0] == places.last(),
        forall|k: int|
            0 <= k < places.len() - 1 ==> goes_on_at(bytes, #[trigger] places[k], places[k + 1]),
        0 <= i < places.len() - 1,
    ensures
        label::walk(bytes, places[i], steps) == Err::<Seq<Seq<u8>>, DnsError>(
            DnsError::PointerLoop,
        ),
    decreases steps,
{
    assert(goes_on_at(bytes, places[i], places[i + 1]));
    if steps > 0 {
        let j = if i + 1 == places.len() - 1 {
            0
        } else {
            i + 1
        };
        lemma_way_round(bytes, places, j, (steps - 1) as nat);
        lemma_walk_goes_on(bytes, places[i], places[i + 1], steps);
    }
}

/// A name that comes round to where it was is refused as looping.
pub proof fn law_a_name_that_comes_round_is_refused(bytes: Seq<u8>, places: Seq<int>)
    requires
        places.len() > 1,
        places[0] == places.last(),
        forall|k: int|
            0 <= k < places.len() - 1 ==> goes_on_at(bytes, #[trigger] places[k], places[k + 1]),
    ensures
        label::name_at(bytes, places[0]) == Err::<(Seq<char>, int), DnsError>(
            DnsError::PointerLoop,
        ),
{
    lemma_way_round(bytes, places, 0, bytes.len());
}

} // verus!
