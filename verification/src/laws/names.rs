//! A name that is written reads back.

use vstd::prelude::*;
use vstd::utf8::*;

use crate::error::DnsError;
use crate::label;
use crate::text;

verus! {

/// Whether `part` stands in `bytes` at `at`.
pub open spec fn stands_at(bytes: Seq<u8>, at: int, part: Seq<u8>) -> bool {
    &&& 0 <= at
    &&& at + part.len() <= bytes.len()
    &&& bytes.subrange(at, at + part.len()) == part
}

/// Labels as text: a dot behind each.
pub open spec fn label_text(labels: Seq<Seq<char>>) -> Seq<char>
    decreases labels.len(),
{
    if labels.len() == 0 {
        Seq::empty()
    } else {
        label_text(labels.drop_last()) + labels.last().push('.')
    }
}

/// The text a name is read back as: its labels, each with a dot behind it.
pub open spec fn full_name(name: Seq<char>) -> Seq<char> {
    label_text(label::labels(name))
}

/// Whether a name is written as names are read: empty, or labels that are
/// not empty, each with a dot behind it.
pub open spec fn is_full(name: Seq<char>) -> bool {
    name.len() > 0 ==> {
        &&& name[0] != '.'
        &&& name.last() == '.'
        &&& forall|i: int| 0 <= i < name.len() - 1 && name[i] == '.' ==> #[trigger] name[i + 1] != '.'
    }
}

/// Two parts that stand in `bytes` behind each other.
pub proof fn lemma_stands_at_parts(bytes: Seq<u8>, at: int, first: Seq<u8>, second: Seq<u8>)
    requires
        stands_at(bytes, at, first + second),
    ensures
        stands_at(bytes, at, first),
        stands_at(bytes, at + first.len(), second),
{
    let whole = bytes.subrange(at, at + (first + second).len());
    assert(bytes.subrange(at, at + first.len()) =~= whole.subrange(0, first.len() as int));
    assert((first + second).subrange(0, first.len() as int) =~= first);
    assert(bytes.subrange(at + first.len(), at + first.len() + second.len()) =~= whole.subrange(
        first.len() as int,
        (first.len() + second.len()) as int,
    ));
    assert((first + second).subrange(
        first.len() as int,
        (first.len() + second.len()) as int,
    ) =~= second);
}

/// A byte of a part that stands in `bytes`.
pub proof fn lemma_stands_at_byte(bytes: Seq<u8>, at: int, part: Seq<u8>, i: int)
    requires
        stands_at(bytes, at, part),
        0 <= i < part.len(),
    ensures
        bytes[at + i] == part[i],
{
    assert(bytes.subrange(at, at + part.len())[i] == bytes[at + i]);
}

/// UTF-8 of two texts is the UTF-8 of the one behind the other's.
pub proof fn lemma_encode_concat(a: Seq<char>, b: Seq<char>)
    ensures
        encode_utf8(a + b) == encode_utf8(a) + encode_utf8(b),
    decreases a.len(),
{
    if a.len() == 0 {
        assert(a + b =~= b);
        assert(encode_utf8(a) + encode_utf8(b) =~= encode_utf8(b));
    } else {
        assert((a + b).drop_first() =~= a.drop_first() + b);
        lemma_encode_concat(a.drop_first(), b);
        assert(encode_utf8(a + b) =~= encode_utf8(a) + encode_utf8(b));
    }
}

/// A dot in UTF-8.
proof fn lemma_encode_dot()
    ensures
        encode_utf8(seq!['.']) == seq![0x2eu8],
{
    let dot = seq!['.'];
    assert(is_ascii_chars(dot));
    is_ascii_chars_encode_utf8(dot);
    assert(dot[0] as u8 == 0x2e);
    assert(encode_utf8(dot) =~= seq![0x2eu8]);
}

/// The labels of a name are not empty and have no dot in them.
pub proof fn lemma_labels_are_plain(name: Seq<char>)
    ensures
        forall|i: int|
            0 <= i < label::labels(name).len() ==> (#[trigger] label::labels(name)[i]).len() > 0
                && !label::labels(name)[i].contains('.'),
    decreases name.len(),
{
    if name.len() > 0 {
        text::lemma_position(name, '.');
        let rest = text::after(name, '.');
        lemma_labels_are_plain(rest);
        let all = label::labels(name);
        let first = text::before(name, '.');
        assert forall|i: int| 0 <= i < all.len() implies (#[trigger] all[i]).len() > 0
            && !all[i].contains('.') by {
            if first.len() == 0 {
                assert(all[i] == label::labels(rest)[i]);
            } else if i > 0 {
                assert(all[i] == label::labels(rest)[i - 1]);
            } else {
                assert(all[0] == first);
            }
        }
    }
}

/// Text that begins with a label and its dot.
pub proof fn lemma_labels_of_dotted(first: Seq<char>, rest: Seq<char>)
    requires
        first.len() > 0,
        !first.contains('.'),
    ensures
        label::labels(first.push('.') + rest) == seq![first] + label::labels(rest),
{
    let name = first.push('.') + rest;
    assert forall|i: int| 0 <= i < first.len() implies name[i] != '.' by {
        assert(name[i] == first[i]);
        assert(first.contains(first[i]));
    }
    text::lemma_position_is(name, '.', first.len() as int);
    assert(text::before(name, '.') =~= first);
    assert(text::after(name, '.') =~= rest);
}

/// The text of labels begins with the first.
pub proof fn lemma_label_text_first(labels: Seq<Seq<char>>)
    requires
        labels.len() > 0,
    ensures
        label_text(labels) == labels[0].push('.') + label_text(labels.drop_first()),
    decreases labels.len(),
{
    if labels.len() == 1 {
        assert(labels.drop_last() =~= Seq::empty());
        assert(labels.drop_first() =~= Seq::empty());
        assert(label_text(labels) =~= labels[0].push('.') + label_text(labels.drop_first()));
    } else {
        lemma_label_text_first(labels.drop_last());
        assert(labels.drop_last().drop_first() =~= labels.drop_first().drop_last());
        assert(label_text(labels) =~= labels[0].push('.') + label_text(labels.drop_first()));
    }
}

/// Plain labels are the labels of their text.
proof fn lemma_labels_of_label_text(labels: Seq<Seq<char>>)
    requires
        forall|i: int|
            0 <= i < labels.len() ==> (#[trigger] labels[i]).len() > 0 && !labels[i].contains('.'),
    ensures
        label::labels(label_text(labels)) == labels,
    decreases labels.len(),
{
    if labels.len() == 0 {
        assert(label::labels(label_text(labels)) =~= labels);
    } else {
        let rest = labels.drop_first();
        lemma_label_text_first(labels);
        assert forall|i: int| 0 <= i < rest.len() implies (#[trigger] rest[i]).len() > 0
            && !rest[i].contains('.') by {
            assert(rest[i] == labels[i + 1]);
        }
        lemma_labels_of_label_text(rest);
        lemma_labels_of_dotted(labels[0], label_text(rest));
        assert(seq![labels[0]] + rest =~= labels);
    }
}

/// A name in full has the labels of the name, and is written the same.
pub proof fn law_full_name_is_the_same_name(name: Seq<char>)
    ensures
        label::labels(full_name(name)) == label::labels(name),
        label::name_wire(full_name(name)) == label::name_wire(name),
        full_name(full_name(name)) == full_name(name),
{
    lemma_labels_are_plain(name);
    lemma_labels_of_label_text(label::labels(name));
}

/// A name is in full exactly where it is its own full name.
pub proof fn law_full_names_read_back_unchanged(name: Seq<char>)
    ensures
        is_full(name) <==> full_name(name) == name,
    decreases name.len(),
{
    if name.len() > 0 {
        text::lemma_position(name, '.');
        let at = text::position(name, '.');
        let first = text::before(name, '.');
        let rest = text::after(name, '.');
        law_full_names_read_back_unchanged(rest);
        let all = label::labels(name);
        if first.len() > 0 {
            assert(all[0] == first);
            assert(all.drop_first() =~= label::labels(rest));
            lemma_label_text_first(all);
            assert(full_name(name) == first.push('.') + full_name(rest));
        }
        if is_full(name) {
            assert(at < name.len()) by {
                assert(name[name.len() - 1] == '.');
            }
            assert(at > 0);
            assert(first.len() > 0);
            assert(is_full(rest)) by {
                if rest.len() > 0 {
                    assert(rest[0] == name[at + 1]);
                    assert forall|i: int| 0 <= i < rest.len() - 1 && rest[i] == '.' implies #[trigger] rest[i
                        + 1] != '.' by {
                        assert(rest[i] == name[at + 1 + i]);
                        assert(rest[i + 1] == name[(at + 1 + i) + 1]);
                    }
                }
            }
            assert(first.push('.') + rest =~= name);
        }
        if full_name(name) == name {
            if first.len() == 0 {
                lemma_label_text_starts_plain(name);
                assert(name[0] == '.');
            } else {
                let whole = first.push('.') + full_name(rest);
                assert(whole[at] == '.');
                assert(rest =~= whole.skip(at + 1));
                assert(whole.skip(at + 1) =~= full_name(rest));
                assert(is_full(rest));
                assert(name[0] == first[0]);
                assert(name.last() == '.') by {
                    if rest.len() > 0 {
                        assert(name.last() == rest.last());
                    }
                }
                assert forall|i: int| 0 <= i < name.len() - 1 && name[i] == '.' implies #[trigger] name[i
                    + 1] != '.' by {
                    if i == at {
                        assert(name[i + 1] == rest[0]);
                    } else if i > at {
                        assert(name[i] == rest[i - at - 1]);
                        assert(name[i + 1] == rest[(i - at - 1) + 1]);
                    }
                }
            }
        }
    } else {
        assert(full_name(name) =~= name);
    }
}

/// The full text of a name does not begin with a dot.
proof fn lemma_label_text_starts_plain(name: Seq<char>)
    ensures
        full_name(name).len() > 0 ==> full_name(name)[0] != '.',
{
    let all = label::labels(name);
    lemma_labels_are_plain(name);
    if all.len() > 0 {
        lemma_label_text_first(all);
        assert(full_name(name)[0] == all[0][0]);
        assert(all[0].contains(all[0][0]));
    }
}

/// The UTF-8 of labels.
pub open spec fn encoded(labels: Seq<Seq<char>>) -> Seq<Seq<u8>> {
    Seq::new(labels.len(), |i: int| encode_utf8(labels[i]))
}

/// Labels with dots behind them are the UTF-8 of their text.
proof fn lemma_dotted_encoded(labels: Seq<Seq<char>>)
    ensures
        label::dotted(encoded(labels)) == encode_utf8(label_text(labels)),
    decreases labels.len(),
{
    if labels.len() == 0 {
        assert(encoded(labels) =~= Seq::empty());
    } else {
        let most = labels.drop_last();
        let last = labels.last();
        lemma_dotted_encoded(most);
        assert(encoded(labels).drop_last() =~= encoded(most));
        assert(encoded(labels).last() == encode_utf8(last));
        lemma_encode_concat(label_text(most), last.push('.'));
        assert(last.push('.') =~= last + seq!['.']);
        lemma_encode_concat(last, seq!['.']);
        lemma_encode_dot();
        assert(label::dotted(encoded(labels)) =~= encode_utf8(label_text(labels)));
    }
}

/// Labels are written in at least a byte each.
pub proof fn lemma_label_wire_length(labels: Seq<Seq<char>>)
    requires
        label::label_wire(labels) is Ok,
    ensures
        label::label_wire(labels)->Ok_0.len() >= labels.len(),
    decreases labels.len(),
{
    if labels.len() > 0 {
        lemma_label_wire_length(labels.drop_last());
    }
}

/// Where written labels stand, they are what is met first.
pub proof fn lemma_walk_labels(bytes: Seq<u8>, at: int, labels: Seq<Seq<char>>, steps: nat)
    requires
        forall|i: int| 0 <= i < labels.len() ==> (#[trigger] labels[i]).len() > 0,
        label::label_wire(labels) is Ok,
        stands_at(bytes, at, label::label_wire(labels)->Ok_0),
        at + label::label_wire(labels)->Ok_0.len() < bytes.len(),
    ensures
        ({
            let end = at + label::label_wire(labels)->Ok_0.len();
            &&& label::name_end(bytes, at) == label::name_end(bytes, end)
            &&& label::walk(bytes, at, steps + labels.len()) == match label::walk(
                bytes,
                end,
                steps,
            ) {
                Ok(rest) => Ok::<Seq<Seq<u8>>, DnsError>(encoded(labels) + rest),
                Err(error) => Err(error),
            }
        }),
    decreases labels.len(),
{
    if labels.len() == 0 {
        if let Ok(rest) = label::walk(bytes, at, steps) {
            assert(encoded(labels) + rest =~= rest);
        }
    } else {
        let most = labels.drop_last();
        let label = encode_utf8(labels.last());
        let before = label::label_wire(most)->Ok_0;
        let here = at + before.len();
        let end = here + 1 + label.len();
        assert(before.push(label.len() as u8) + label =~= before + (seq![label.len() as u8]
            + label));
        lemma_stands_at_parts(bytes, at, before, seq![label.len() as u8] + label);
        lemma_stands_at_parts(bytes, here, seq![label.len() as u8], label);
        lemma_stands_at_byte(bytes, here, seq![label.len() as u8], 0);
        assert forall|i: int| 0 <= i < most.len() implies (#[trigger] most[i]).len() > 0 by {
            assert(most[i] == labels[i]);
        }
        lemma_walk_labels(bytes, at, most, steps + 1);
        assert(label.len() > 0) by {
            assert(labels.last().len() > 0);
            encode_utf8_first_scalar(labels.last());
        }
        assert(bytes[here] == label.len());
        assert(bytes.subrange(here + 1, here + 1 + label.len()) == label);
        assert(steps + 1 + most.len() == steps + labels.len());
        match label::walk(bytes, end, steps) {
            Ok(rest) => {
                assert(encoded(most) + (seq![label] + rest) =~= encoded(labels) + rest);
            },
            Err(_) => {},
        }
    }
}

/// The walk over a name that stands in a message as it is written meets its
/// labels, and ends behind it.
pub proof fn lemma_written_name_is_walked(bytes: Seq<u8>, at: int, name: Seq<char>)
    requires
        label::name_wire(name) is Ok,
        stands_at(bytes, at, label::name_wire(name)->Ok_0),
    ensures
        label::walk(bytes, at, bytes.len()) == Ok::<Seq<Seq<u8>>, DnsError>(
            encoded(label::labels(name)),
        ),
        label::name_end(bytes, at) == at + label::name_wire(name)->Ok_0.len(),
{
    let labels = label::labels(name);
    let wire = label::label_wire(labels)->Ok_0;
    let end = at + wire.len();
    lemma_labels_are_plain(name);
    assert(wire.push(0) =~= wire + seq![0u8]);
    lemma_stands_at_parts(bytes, at, wire, seq![0u8]);
    lemma_stands_at_byte(bytes, end, seq![0u8], 0);
    lemma_label_wire_length(labels);
    let steps = (bytes.len() - labels.len()) as nat;
    lemma_walk_labels(bytes, at, labels, steps);
    assert(encoded(labels) + Seq::<Seq<u8>>::empty() =~= encoded(labels));
}

/// Labels that are met read as their text.
pub proof fn lemma_encoded_reads_as_text(labels: Seq<Seq<char>>)
    ensures
        text::text_of(label::dotted(encoded(labels))) == label_text(labels),
{
    lemma_dotted_encoded(labels);
    encode_utf8_valid_utf8(label_text(labels));
    encode_utf8_decode_utf8(label_text(labels));
}

/// A name that stands in a message as it is written reads back in full, and
/// what follows it begins behind it.
pub proof fn law_written_name_reads_back(bytes: Seq<u8>, at: int, name: Seq<char>)
    requires
        label::name_wire(name) is Ok,
        stands_at(bytes, at, label::name_wire(name)->Ok_0),
    ensures
        label::name_at(bytes, at) == Ok::<(Seq<char>, int), DnsError>(
            (full_name(name), at + label::name_wire(name)->Ok_0.len()),
        ),
{
    lemma_written_name_is_walked(bytes, at, name);
    lemma_encoded_reads_as_text(label::labels(name));
}

} // verus!
