//! A name is refused as looping exactly where it has no end.

use vstd::prelude::*;

use crate::error::DnsError;
use crate::label;
use crate::label::MAX_LABEL;

verus! {

/// Whether the walk from `at` is still under way after `steps` steps.
spec fn goes_on(bytes: Seq<u8>, at: int, steps: nat) -> bool {
    label::walk(bytes, at, steps) == Err::<Seq<Seq<u8>>, DnsError>(DnsError::PointerLoop)
}

/// The offset one step on from `at`, in a walk that goes on.
spec fn step(bytes: Seq<u8>, at: int) -> int {
    if bytes[at] <= MAX_LABEL {
        at + 1 + bytes[at]
    } else {
        label::pointer(bytes[at], bytes[at + 1])
    }
}

/// The offset `steps` steps on from `at`.
spec fn place(bytes: Seq<u8>, at: int, steps: nat) -> int
    decreases steps,
{
    if steps == 0 {
        at
    } else {
        place(bytes, step(bytes, at), (steps - 1) as nat)
    }
}

/// A walk that goes on goes on from its next offset.
proof fn lemma_step(bytes: Seq<u8>, at: int, steps: nat)
    requires
        goes_on(bytes, at, steps),
        steps > 0,
    ensures
        goes_on(bytes, step(bytes, at), (steps - 1) as nat),
{
}

/// A walk that goes on did so after fewer steps.
proof fn lemma_fewer_steps(bytes: Seq<u8>, at: int, steps: nat, fewer: nat)
    requires
        goes_on(bytes, at, steps),
        fewer <= steps,
    ensures
        goes_on(bytes, at, fewer),
    decreases fewer,
{
    if fewer > 0 {
        lemma_step(bytes, at, steps);
        lemma_fewer_steps(bytes, step(bytes, at), (steps - 1) as nat, (fewer - 1) as nat);
    }
}

/// A walk that goes on is inside the bytes, and goes on from there.
proof fn lemma_place(bytes: Seq<u8>, at: int, steps: nat, some: nat)
    requires
        goes_on(bytes, at, steps),
        some <= steps,
    ensures
        0 <= place(bytes, at, some) < bytes.len(),
        goes_on(bytes, place(bytes, at, some), (steps - some) as nat),
    decreases some,
{
    if some > 0 {
        lemma_step(bytes, at, steps);
        lemma_place(bytes, step(bytes, at), (steps - 1) as nat, (some - 1) as nat);
    }
}

/// A walk that goes on for a while, and from where it is, goes on.
proof fn lemma_go_on(bytes: Seq<u8>, at: int, some: nat, more: nat)
    requires
        goes_on(bytes, at, some),
        goes_on(bytes, place(bytes, at, some), more),
    ensures
        goes_on(bytes, at, some + more),
    decreases some,
{
    if some > 0 {
        lemma_step(bytes, at, some);
        lemma_go_on(bytes, step(bytes, at), (some - 1) as nat, more);
    }
}

/// A walk that comes back to where it was goes on for ever.
proof fn lemma_round(bytes: Seq<u8>, at: int, round: nat, steps: nat)
    requires
        round > 0,
        goes_on(bytes, at, round),
        place(bytes, at, round) == at,
    ensures
        goes_on(bytes, at, steps),
    decreases steps,
{
    if steps <= round {
        lemma_fewer_steps(bytes, at, round, steps);
    } else {
        lemma_round(bytes, at, round, (steps - round) as nat);
        lemma_go_on(bytes, at, round, (steps - round) as nat);
    }
}

/// The offset some steps on, and more on from there.
proof fn lemma_place_sum(bytes: Seq<u8>, at: int, some: nat, more: nat)
    ensures
        place(bytes, at, some + more) == place(bytes, place(bytes, at, some), more),
    decreases some,
{
    if some > 0 {
        lemma_place_sum(bytes, step(bytes, at), (some - 1) as nat, more);
    }
}

/// A name that is refused as looping has no end, however far it is followed.
pub proof fn law_a_looping_name_has_no_end(bytes: Seq<u8>, at: int, steps: nat)
    requires
        label::name_at(bytes, at) == Err::<(Seq<char>, int), DnsError>(DnsError::PointerLoop),
    ensures
        label::walk(bytes, at, steps) == Err::<Seq<Seq<u8>>, DnsError>(DnsError::PointerLoop),
{
    let total = bytes.len();
    assert(goes_on(bytes, at, total));
    let places = Seq::new(total + 1, |k: int| place(bytes, at, k as nat));
    assert forall|k: int| 0 <= k < places.len() implies 0 <= #[trigger] places[k] < total by {
        lemma_place(bytes, at, total, k as nat);
    }
    if places.no_duplicates() {
        places.unique_seq_to_set();
        let range = vstd::set_lib::set_int_range(0, total as int);
        vstd::set_lib::lemma_int_range(0, total as int);
        assert(places.to_set().subset_of(range));
        vstd::set_lib::lemma_len_subset(places.to_set(), range);
        assert(false);
    }
    let (i, j) = choose|i: int, j: int|
        0 <= i < places.len() && 0 <= j < places.len() && i != j && places[i] == places[j];
    let first = (if i < j {
        i
    } else {
        j
    }) as nat;
    let second = (if i < j {
        j
    } else {
        i
    }) as nat;
    let here = place(bytes, at, first);
    let round = (second - first) as nat;
    assert(places[first as int] == places[second as int]);
    lemma_place(bytes, at, total, first);
    lemma_fewer_steps(bytes, here, (total - first) as nat, round);
    lemma_place_sum(bytes, at, first, round);
    lemma_round(bytes, here, round, steps);
    lemma_fewer_steps(bytes, at, total, first);
    lemma_go_on(bytes, at, first, steps);
    lemma_fewer_steps(bytes, at, first + steps, steps);
}

/// A name that is not refused as looping reads the same however many more
/// steps it is followed for.
pub proof fn law_further_steps_change_nothing(bytes: Seq<u8>, at: int, some: nat, more: nat)
    requires
        label::walk(bytes, at, some) != Err::<Seq<Seq<u8>>, DnsError>(DnsError::PointerLoop),
        some <= more,
    ensures
        label::walk(bytes, at, more) == label::walk(bytes, at, some),
    decreases some,
{
    if 0 <= at < bytes.len() && some > 0 {
        let length = bytes[at];
        if 0 < length <= MAX_LABEL && at + 1 + length <= bytes.len() {
            law_further_steps_change_nothing(
                bytes,
                at + 1 + length,
                (some - 1) as nat,
                (more - 1) as nat,
            );
        } else if length >= 0xc0 && at + 1 < bytes.len() && label::pointer(length, bytes[at + 1])
            < at {
            law_further_steps_change_nothing(
                bytes,
                label::pointer(length, bytes[at + 1]),
                (some - 1) as nat,
                (more - 1) as nat,
            );
        }
    }
}

} // verus!
