//! The little this crate does with text: numbers in decimal, cutting at a
//! character, comparing without regard to ASCII case, and reading bytes as
//! UTF-8.

use vstd::prelude::*;
use vstd::utf8::*;

verus! {

/// The decimal digit of a number below ten.
pub open spec fn digit(n: nat) -> char
    recommends
        n < 10,
{
    (n + 48) as char
}

/// `n` in decimal, without leading zeros.
pub open spec fn decimal(n: nat) -> Seq<char>
    decreases n,
{
    if n < 10 {
        seq![digit(n)]
    } else {
        decimal(n / 10).push(digit(n % 10))
    }
}

/// The digit `n` as text.
fn digit_text(n: u64) -> (text: &'static str)
    requires
        n < 10,
    ensures
        text@ == seq![digit(n as nat)],
{
    proof {
        reveal_strlit("0");
        reveal_strlit("1");
        reveal_strlit("2");
        reveal_strlit("3");
        reveal_strlit("4");
        reveal_strlit("5");
        reveal_strlit("6");
        reveal_strlit("7");
        reveal_strlit("8");
        reveal_strlit("9");
    }
    match n {
        0 => "0",
        1 => "1",
        2 => "2",
        3 => "3",
        4 => "4",
        5 => "5",
        6 => "6",
        7 => "7",
        8 => "8",
        _ => "9",
    }
}

/// Write `n` in decimal behind `out`.
pub fn push_decimal(out: &mut String, n: u64)
    ensures
        final(out)@ == old(out)@ + decimal(n as nat),
    decreases n,
{
    if n >= 10 {
        push_decimal(out, n / 10);
    }
    out.append(digit_text(n % 10));
    assert(out@ =~= old(out)@ + decimal(n as nat));
}

/// Where `c` first stands in `s`: the length of `s` where it does not.
pub open spec fn position(s: Seq<char>, c: char) -> int
    decreases s.len(),
{
    if s.len() == 0 || s[0] == c {
        0
    } else {
        1 + position(s.drop_first(), c)
    }
}

/// `position` finds the first `c` or the end.
pub proof fn lemma_position(s: Seq<char>, c: char)
    ensures
        0 <= position(s, c) <= s.len(),
        position(s, c) < s.len() ==> s[position(s, c)] == c,
        forall|i: int| 0 <= i < position(s, c) ==> s[i] != c,
    decreases s.len(),
{
    if s.len() > 0 && s[0] != c {
        let rest = s.drop_first();
        lemma_position(rest, c);
        assert forall|i: int| 0 <= i < position(s, c) implies s[i] != c by {
            if i > 0 {
                assert(rest[i - 1] == s[i]);
            }
        }
    }
}

/// A place with no `c` before it that holds `c`, or is the end, is where
/// `position` points.
pub proof fn lemma_position_is(s: Seq<char>, c: char, at: int)
    requires
        0 <= at <= s.len(),
        at < s.len() ==> s[at] == c,
        forall|i: int| 0 <= i < at ==> s[i] != c,
    ensures
        position(s, c) == at,
{
    lemma_position(s, c);
    let found = position(s, c);
    if found < at {
        assert(s[found] != c);
    } else if at < found {
        assert(s[at] != c);
    }
}

/// The index of the first `c` in `s`, or how many characters `s` has.
pub fn find(s: &str, c: char) -> (at: usize)
    ensures
        at == position(s@, c),
{
    let total: usize = s.unicode_len();
    let mut at: usize = 0;
    for x in it: s.chars()
        invariant
            total == s@.len(),
            at == it.index(),
            it.seq() == s@,
            forall|i: int| 0 <= i < at ==> s@[i] != c,
    {
        if x == c {
            proof {
                lemma_position_is(s@, c, at as int);
            }
            return at;
        }
        at = at + 1;
    }
    proof {
        lemma_position_is(s@, c, at as int);
    }
    at
}

/// What stands before the first `c`: all of `s` where there is none.
pub open spec fn before(s: Seq<char>, c: char) -> Seq<char> {
    s.take(position(s, c))
}

/// What stands behind the first `c`: nothing where there is none.
pub open spec fn after(s: Seq<char>, c: char) -> Seq<char> {
    if position(s, c) < s.len() {
        s.skip(position(s, c) + 1)
    } else {
        Seq::empty()
    }
}

/// Cut `s` at the first `c`.
pub fn cut<'a>(s: &'a str, c: char) -> (parts: (&'a str, &'a str))
    ensures
        parts.0@ == before(s@, c),
        parts.1@ == after(s@, c),
{
    let at: usize = find(s, c);
    let total: usize = s.unicode_len();
    proof {
        lemma_position(s@, c);
    }
    let head = s.substring_char(0, at);
    let tail = if at < total {
        s.substring_char(at + 1, total)
    } else {
        s.substring_char(total, total)
    };
    assert(head@ =~= before(s@, c));
    assert(tail@ =~= after(s@, c));
    (head, tail)
}

/// What `s` goes on with behind `prefix`, where it begins with it.
pub fn strip_prefix<'a>(s: &'a str, prefix: &str) -> (rest: Option<&'a str>)
    ensures
        rest is Some <==> prefix@.is_prefix_of(s@),
        rest matches Some(rest) ==> rest@ == s@.skip(prefix@.len() as int),
{
    let total: usize = s.unicode_len();
    let length: usize = prefix.unicode_len();
    if total < length {
        return None;
    }
    let head = s.substring_char(0, length);
    let mut i: usize = 0;
    while i < length
        invariant
            i <= length,
            length == prefix@.len(),
            length <= s@.len(),
            head@ == s@.subrange(0, length as int),
            forall|j: int| 0 <= j < i ==> head@[j] == prefix@[j],
        decreases length - i,
    {
        if head.get_char(i) != prefix.get_char(i) {
            assert(s@.take(length as int)[i as int] == head@[i as int]);
            return None;
        }
        i = i + 1;
    }
    let rest = s.substring_char(length, total);
    assert(prefix@ =~= s@.subrange(0, length as int));
    assert(rest@ =~= s@.skip(length as int));
    Some(rest)
}

/// `c` in lower case where it is an ASCII letter, and as it is where not.
pub open spec fn lower(c: char) -> char {
    if 'A' <= c <= 'Z' {
        (c as u32 + 32) as char
    } else {
        c
    }
}

/// Whether two texts differ in nothing but the case of ASCII letters.
pub open spec fn same_but_for_case(a: Seq<char>, b: Seq<char>) -> bool {
    &&& a.len() == b.len()
    &&& forall|i: int| 0 <= i < a.len() ==> lower(#[trigger] a[i]) == lower(b[i])
}

/// Whether `a` and `b` are one character but for ASCII case.
fn same_char_but_for_case(a: char, b: char) -> (same: bool)
    ensures
        same == (lower(a) == lower(b)),
{
    let x: u32 = if 'A' <= a && a <= 'Z' {
        a as u32 + 32
    } else {
        a as u32
    };
    let y: u32 = if 'A' <= b && b <= 'Z' {
        b as u32 + 32
    } else {
        b as u32
    };
    x == y
}

/// Whether two texts differ in nothing but the case of ASCII letters.
pub fn eq_ignore_ascii_case(a: &str, b: &str) -> (same: bool)
    ensures
        same == same_but_for_case(a@, b@),
{
    let mut others = b.chars();
    let mut i: usize = 0;
    let total: usize = a.unicode_len();
    if total != b.unicode_len() {
        return false;
    }
    for x in it: a.chars()
        invariant
            total == a@.len(),
            total == b@.len(),
            it.seq() == a@,
            i == it.index(),
            vstd::std_specs::iter::IteratorSpec::remaining(&others) == b@.skip(i as int),
            forall|j: int| 0 <= j < i ==> lower(#[trigger] a@[j]) == lower(b@[j]),
    {
        match others.next() {
            Some(y) => {
                assert(y == b@[i as int]);
                if !same_char_but_for_case(x, y) {
                    assert(lower(a@[i as int]) != lower(b@[i as int]));
                    return false;
                }
            },
            None => {
                return false;
            },
        }
        assert(b@.skip(i as int).drop_first() =~= b@.skip(i + 1));
        i = i + 1;
    }
    true
}

/// What `bytes` read as: as UTF-8 where they are, with replacement
/// characters where they are not.
pub open spec fn text_of(bytes: Seq<u8>) -> Seq<char> {
    if valid_utf8(bytes) {
        decode_utf8(bytes)
    } else {
        lossy_text(bytes)
    }
}

/// What `String::from_utf8_lossy` makes of bytes that are not UTF-8.
pub uninterp spec fn lossy_text(bytes: Seq<u8>) -> Seq<char>;

/// `String::from_utf8_lossy`: bytes that are UTF-8 are decoded as they are;
/// of others the result is [`lossy_text`], a function of the bytes alone.
#[verifier::external_body]
pub(crate) fn from_utf8_lossy(bytes: &[u8]) -> (text: String)
    ensures
        valid_utf8(bytes@) ==> text@ == decode_utf8(bytes@),
        !valid_utf8(bytes@) ==> text@ == lossy_text(bytes@),
{
    String::from_utf8_lossy(bytes).into_owned()
}

} // verus!
