//! What cutting and comparing text comes to, said of its characters.

use vstd::prelude::*;
use vstd::utf8::*;

use crate::text;

verus! {

/// Text is cut at the first of a character: what has none of it before it
/// comes off, and all behind it is left. Where there is none, all comes off.
pub proof fn law_text_is_cut_at_the_first(head: Seq<char>, c: char, tail: Seq<char>)
    requires
        !head.contains(c),
    ensures
        text::position(head.push(c) + tail, c) == head.len(),
        text::before(head.push(c) + tail, c) == head,
        text::after(head.push(c) + tail, c) == tail,
        text::position(head, c) == head.len(),
        text::before(head, c) == head,
        text::after(head, c).len() == 0,
{
    let whole = head.push(c) + tail;
    assert forall|i: int| 0 <= i < head.len() implies head[i] != c && whole[i] != c by {
        assert(head.contains(head[i]));
        assert(whole[i] == head[i]);
    }
    text::lemma_position_is(whole, c, head.len() as int);
    text::lemma_position_is(head, c, head.len() as int);
    assert(text::before(whole, c) =~= head);
    assert(text::after(whole, c) =~= tail);
    assert(text::before(head, c) =~= head);
}

/// Whether `a` is an ASCII capital and `b` the same letter small.
pub open spec fn is_capital_of(a: char, b: char) -> bool {
    'A' <= a <= 'Z' && b as int == a as int + 32
}

/// Two texts are the same but for case exactly where they are as long, and
/// in each place have one character, or an ASCII letter once as a capital
/// and once small.
pub proof fn law_only_ascii_letters_have_case(a: Seq<char>, b: Seq<char>)
    ensures
        text::same_but_for_case(a, b) <==> a.len() == b.len() && forall|i: int|
            0 <= i < a.len() ==> a[i] == b[i] || is_capital_of(#[trigger] a[i], b[i])
                || is_capital_of(b[i], a[i]),
{
    assert forall|x: char, y: char| #[trigger]
        text::lower(x) == #[trigger] text::lower(y) <==> x == y || is_capital_of(x, y)
            || is_capital_of(y, x) by {
    }
}

/// Text that was written as UTF-8 reads back.
pub proof fn law_utf8_reads_back(t: Seq<char>)
    ensures
        text::text_of(encode_utf8(t)) == t,
{
    encode_utf8_valid_utf8(t);
    encode_utf8_decode_utf8(t);
}

/// Bytes that are not UTF-8 read as `String::from_utf8_lossy` has them.
pub proof fn law_other_bytes_read_lossily(bytes: Seq<u8>)
    requires
        !valid_utf8(bytes),
    ensures
        text::text_of(bytes) == text::lossy_text(bytes),
{
}

} // verus!
