//! A domain name in a message, RFC 1035 sections 3.1 and 4.1.4: its labels,
//! each behind its length, closed by the empty label or by a pointer to
//! where the rest of the name already stands. As text a name is its labels,
//! each with a dot behind it; the root, which has none, is the empty text.

use vstd::prelude::*;
use vstd::utf8::*;

use crate::error::DnsError;
use crate::text;

verus! {

/// The most bytes a label has.
pub const MAX_LABEL: usize = 63;

/// The most bytes a name is written in, lengths and closing zero counted.
pub const MAX_NAME: usize = 255;

/// The labels of a name given as text: what stands between its dots, where
/// anything does.
pub open spec fn labels(name: Seq<char>) -> Seq<Seq<char>>
    decreases name.len(),
{
    if name.len() == 0 {
        Seq::empty()
    } else {
        proof {
            text::lemma_position(name, '.');
        }
        let first = text::before(name, '.');
        let rest = labels(text::after(name, '.'));
        if first.len() == 0 {
            rest
        } else {
            seq![first] + rest
        }
    }
}

/// Labels as they are written, without the closing zero: the first one that
/// is too long, or makes the name too long, is the error.
pub open spec fn label_wire(labels: Seq<Seq<char>>) -> Result<Seq<u8>, DnsError>
    decreases labels.len(),
{
    if labels.len() == 0 {
        Ok(Seq::empty())
    } else {
        match label_wire(labels.drop_last()) {
            Err(error) => Err(error),
            Ok(wire) => {
                let label = encode_utf8(labels.last());
                if label.len() > MAX_LABEL {
                    Err(DnsError::LongLabel)
                } else if wire.len() + 1 + label.len() + 1 > MAX_NAME {
                    Err(DnsError::LongName)
                } else {
                    Ok(wire.push(label.len() as u8) + label)
                }
            },
        }
    }
}

/// A name as it is written.
pub open spec fn name_wire(name: Seq<char>) -> Result<Seq<u8>, DnsError> {
    match label_wire(labels(name)) {
        Ok(wire) => Ok(wire.push(0)),
        Err(error) => Err(error),
    }
}

/// Labels that cannot be written cannot be with more behind them.
pub proof fn lemma_label_wire_error(done: Seq<Seq<char>>, more: Seq<Seq<char>>)
    requires
        label_wire(done) is Err,
    ensures
        label_wire(done + more) == label_wire(done),
    decreases more.len(),
{
    if more.len() == 0 {
        assert(done + more =~= done);
    } else {
        assert((done + more).drop_last() =~= done + more.drop_last());
        lemma_label_wire_error(done, more.drop_last());
    }
}

/// Write `name` behind `out`. On an error `out` is as it was.
pub fn write_name(out: &mut Vec<u8>, name: &str) -> (written: Result<(), DnsError>)
    ensures
        written is Ok <==> name_wire(name@) is Ok,
        written is Ok ==> final(out)@ == old(out)@ + name_wire(name@)->Ok_0,
        written matches Err(error) ==> name_wire(name@) == Err::<Seq<u8>, DnsError>(error)
            && final(out)@ == old(out)@,
{
    let mut wire: Vec<u8> = Vec::new();
    let mut rest = name;
    let ghost mut done: Seq<Seq<char>> = Seq::empty();
    assert(done + labels(name@) =~= labels(name@));
    while !rest.is_empty()
        invariant
            done + labels(rest@) == labels(name@),
            label_wire(done) == Ok::<Seq<u8>, DnsError>(wire@),
            wire@.len() + 1 <= MAX_NAME,
        decreases rest@.len(),
    {
        let ghost whole = rest@;
        proof {
            text::lemma_position(whole, '.');
        }
        let (label, tail) = text::cut(rest, '.');
        rest = tail;
        if !label.is_empty() {
            let bytes = label.as_bytes();
            let length: usize = bytes.len();
            let ghost next = done.push(label@);
            assert(next.drop_last() =~= done);
            assert(done + (seq![label@] + labels(rest@)) =~= next + labels(rest@));
            if length > MAX_LABEL {
                proof {
                    lemma_label_wire_error(next, labels(rest@));
                }
                return Err(DnsError::LongLabel);
            }
            if wire.len() + 1 + length + 1 > MAX_NAME {
                proof {
                    lemma_label_wire_error(next, labels(rest@));
                }
                return Err(DnsError::LongName);
            }
            let ghost before = wire@;
            wire.push(length as u8);
            wire.extend_from_slice(bytes);
            assert(wire@ =~= before.push(length as u8) + bytes@);
            proof {
                done = next;
            }
        }
    }
    assert(done =~= labels(name@));
    wire.push(0);
    let ghost all = wire@;
    out.extend_from_slice(wire.as_slice());
    assert(out@ =~= old(out)@ + all);
    Ok(())
}

/// The offset a pointer of these two bytes points at.
pub open spec fn pointer(high: u8, low: u8) -> int {
    (high - 0xc0) * 256 + low
}

/// The labels met on the way from offset `at` to the end of a name, in at
/// most `steps` labels and pointers and the closing zero.
pub open spec fn walk(bytes: Seq<u8>, at: int, steps: nat) -> Result<Seq<Seq<u8>>, DnsError>
    decreases steps,
{
    if at < 0 || at >= bytes.len() {
        Err(DnsError::ShortName)
    } else if steps == 0 {
        Err(DnsError::PointerLoop)
    } else {
        let length = bytes[at];
        if length == 0 {
            Ok(Seq::empty())
        } else if length <= MAX_LABEL {
            if at + 1 + length > bytes.len() {
                Err(DnsError::ShortName)
            } else {
                match walk(bytes, at + 1 + length, (steps - 1) as nat) {
                    Ok(rest) => Ok(seq![bytes.subrange(at + 1, at + 1 + length)] + rest),
                    Err(error) => Err(error),
                }
            }
        } else if length < 0xc0 {
            Err(DnsError::LongLabel)
        } else if at + 1 >= bytes.len() {
            Err(DnsError::ShortName)
        } else if pointer(length, bytes[at + 1]) >= at {
            Err(DnsError::PointerForward)
        } else {
            walk(bytes, pointer(length, bytes[at + 1]), (steps - 1) as nat)
        }
    }
}

/// Where what follows the name at `at` begins: behind its closing zero, or
/// behind the first pointer in it.
pub open spec fn name_end(bytes: Seq<u8>, at: int) -> int
    decreases bytes.len() + MAX_LABEL + 1 - at,
{
    if at < 0 || at >= bytes.len() || bytes[at] == 0 {
        at + 1
    } else if bytes[at] <= MAX_LABEL {
        name_end(bytes, at + 1 + bytes[at])
    } else {
        at + 2
    }
}

/// Labels as the bytes of text: a dot behind each.
pub open spec fn dotted(labels: Seq<Seq<u8>>) -> Seq<u8>
    decreases labels.len(),
{
    if labels.len() == 0 {
        Seq::empty()
    } else {
        (dotted(labels.drop_last()) + labels.last()).push(0x2e)
    }
}

/// The name at `at` as text, and where what follows it begins. As many steps
/// as there are bytes lead to the end of any name that has one.
pub open spec fn name_at(bytes: Seq<u8>, at: int) -> Result<(Seq<char>, int), DnsError> {
    match walk(bytes, at, bytes.len()) {
        Ok(labels) => Ok((text::text_of(dotted(labels)), name_end(bytes, at))),
        Err(error) => Err(error),
    }
}

/// A name that is read ends inside the message, past where it began.
pub proof fn lemma_name_end(bytes: Seq<u8>, at: int, steps: nat)
    requires
        walk(bytes, at, steps) is Ok,
    ensures
        at < name_end(bytes, at) <= bytes.len(),
    decreases steps,
{
    let length = bytes[at];
    if 0 < length <= MAX_LABEL {
        lemma_name_end(bytes, at + 1 + length, (steps - 1) as nat);
    }
}

/// The name at `at` in `bytes`, and where what follows it begins.
pub fn read_name(bytes: &[u8], at: usize) -> (read: Result<(String, usize), DnsError>)
    ensures
        read matches Ok((name, next)) ==> name_at(bytes@, at as int) == Ok::<
            (Seq<char>, int),
            DnsError,
        >((name@, next as int)) && at < next <= bytes@.len(),
        read matches Err(error) ==> name_at(bytes@, at as int) == Err::<
            (Seq<char>, int),
            DnsError,
        >(error),
{
    let total: usize = bytes.len();
    let mut here: usize = at;
    let mut steps: usize = total;
    let mut end: Option<usize> = None;
    let mut name: Vec<u8> = Vec::new();
    let ghost mut done: Seq<Seq<u8>> = Seq::empty();
    let ghost goal = walk(bytes@, at as int, bytes@.len());
    proof {
        if goal is Ok {
            lemma_name_end(bytes@, at as int, bytes@.len());
            assert(done + goal->Ok_0 =~= goal->Ok_0);
        }
    }
    loop
        invariant
            total == bytes@.len(),
            goal == walk(bytes@, at as int, bytes@.len()),
            goal is Ok ==> at < name_end(bytes@, at as int) <= total,
            name@ == dotted(done),
            match walk(bytes@, here as int, steps as nat) {
                Ok(rest) => goal == Ok::<Seq<Seq<u8>>, DnsError>(done + rest),
                Err(error) => goal == Err::<Seq<Seq<u8>>, DnsError>(error),
            },
            end matches Some(next) ==> next == name_end(bytes@, at as int),
            end is None ==> name_end(bytes@, here as int) == name_end(bytes@, at as int),
        decreases steps,
    {
        if here >= total {
            return Err(DnsError::ShortName);
        }
        if steps == 0 {
            return Err(DnsError::PointerLoop);
        }
        steps = steps - 1;
        let length: usize = bytes[here] as usize;
        if length == 0 {
            assert(done + Seq::<Seq<u8>>::empty() =~= done);
            let next: usize = match end {
                Some(next) => next,
                None => here + 1,
            };
            return Ok((text::from_utf8_lossy(name.as_slice()), next));
        }
        if length <= MAX_LABEL {
            if total - here - 1 < length {
                return Err(DnsError::ShortName);
            }
            let label = vstd::slice::slice_subrange(bytes, here + 1, here + 1 + length);
            let ghost next = done.push(label@);
            name.extend_from_slice(label);
            name.push(0x2e);
            proof {
                assert(next.drop_last() =~= done);
                assert(name@ =~= dotted(next));
                match walk(bytes@, here + 1 + length, steps as nat) {
                    Ok(rest) => {
                        assert(done + (seq![label@] + rest) =~= next + rest);
                    },
                    Err(_) => {},
                }
                done = next;
            }
            here = here + 1 + length;
        } else if length < 0xc0 {
            return Err(DnsError::LongLabel);
        } else {
            if total - here < 2 {
                return Err(DnsError::ShortName);
            }
            let target: usize = (length - 0xc0) * 256 + bytes[here + 1] as usize;
            if target >= here {
                return Err(DnsError::PointerForward);
            }
            if end.is_none() {
                end = Some(here + 2);
            }
            here = target;
        }
    }
}

} // verus!
