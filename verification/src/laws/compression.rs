//! A name that ends in a pointer reads as the name written whole.

use vstd::prelude::*;

use crate::error::DnsError;
use crate::label;
use crate::laws::loops;
use crate::laws::names;

verus! {

/// The two bytes of a pointer to `target`.
pub open spec fn pointer_wire(target: int) -> Seq<u8> {
    seq![(0xc0 + target / 256) as u8, (target % 256) as u8]
}

/// The text of labels behind labels.
proof fn lemma_label_text_concat(first: Seq<Seq<char>>, second: Seq<Seq<char>>)
    ensures
        names::label_text(first + second) == names::label_text(first) + names::label_text(second),
    decreases second.len(),
{
    if second.len() == 0 {
        assert(first + second =~= first);
        assert(names::label_text(first) + names::label_text(second) =~= names::label_text(first));
    } else {
        assert((first + second).drop_last() =~= first + second.drop_last());
        lemma_label_text_concat(first, second.drop_last());
        assert(names::label_text(first + second) =~= names::label_text(first)
            + names::label_text(second));
    }
}

/// The labels of `first`, and a pointer to before itself where `rest` is
/// written, read as the one name behind the other; what follows begins
/// behind the pointer.
pub proof fn law_compressed_name_reads_back(
    bytes: Seq<u8>,
    at: int,
    first: Seq<char>,
    target: int,
    rest: Seq<char>,
)
    requires
        label::label_wire(label::labels(first)) is Ok,
        names::stands_at(
            bytes,
            at,
            label::label_wire(label::labels(first))->Ok_0 + pointer_wire(target),
        ),
        0 <= target < 0x4000,
        target < at + label::label_wire(label::labels(first))->Ok_0.len(),
        label::name_wire(rest) is Ok,
        names::stands_at(bytes, target, label::name_wire(rest)->Ok_0),
    ensures
        label::name_at(bytes, at) == Ok::<(Seq<char>, int), DnsError>(
            (
                names::full_name(first) + names::full_name(rest),
                at + label::label_wire(label::labels(first))->Ok_0.len() + 2,
            ),
        ),
{
    let a = label::labels(first);
    let b = label::labels(rest);
    let wire = label::label_wire(a)->Ok_0;
    let end = at + wire.len();
    names::lemma_labels_are_plain(first);
    names::lemma_stands_at_parts(bytes, at, wire, pointer_wire(target));
    names::lemma_stands_at_byte(bytes, end, pointer_wire(target), 0);
    names::lemma_stands_at_byte(bytes, end, pointer_wire(target), 1);
    assert(label::pointer(bytes[end], bytes[end + 1]) == target);
    names::lemma_written_name_is_walked(bytes, target, rest);
    assert(label::walk(bytes, end, bytes.len() + 1) == label::walk(bytes, target, bytes.len()));
    names::lemma_walk_labels(bytes, at, a, bytes.len() + 1);
    let steps = bytes.len() + 1 + a.len();
    assert(names::encoded(a) + names::encoded(b) =~= names::encoded(a + b));
    assert(label::walk(bytes, at, steps) == Ok::<Seq<Seq<u8>>, DnsError>(names::encoded(a + b)));
    if label::walk(bytes, at, bytes.len()) == Err::<Seq<Seq<u8>>, DnsError>(
        DnsError::PointerLoop,
    ) {
        loops::law_a_looping_name_has_no_end(bytes, at, steps);
    } else {
        loops::law_further_steps_change_nothing(bytes, at, bytes.len(), steps);
    }
    names::lemma_encoded_reads_as_text(a + b);
    lemma_label_text_concat(a, b);
}

} // verus!
