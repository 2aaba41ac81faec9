//! What a target comes to, said of the parts it is put together from.

use vstd::prelude::*;

use crate::laws::texts;
use crate::text;
use crate::transport;
use crate::transport::TransportModel;

verus! {

/// Pairs of a query string, each with an ampersand behind it.
pub open spec fn pairs_before(pairs: Seq<Seq<char>>) -> Seq<char> {
    Seq::new(pairs.len(), |i: int| pairs[i].push('&')).flatten()
}

/// Whether a text is one pair of a query string that names no zone.
pub open spec fn is_another_pair(pair: Seq<char>) -> bool {
    !pair.contains('&') && !"zone="@.is_prefix_of(pair)
}

/// Text put behind a prefix begins with it and goes on with the text.
proof fn lemma_prefixed(prefix: Seq<char>, rest: Seq<char>)
    ensures
        prefix.is_prefix_of(prefix + rest),
        (prefix + rest).skip(prefix.len() as int) == rest,
{
    assert((prefix + rest).subrange(0, prefix.len() as int) =~= prefix);
    assert((prefix + rest).skip(prefix.len() as int) =~= rest);
}

/// A pair that names no zone is passed over.
proof fn lemma_another_pair(pair: Seq<char>, rest: Seq<char>, otherwise: Seq<char>)
    requires
        is_another_pair(pair),
    ensures
        transport::zone_in(pair, otherwise) == otherwise,
        transport::zone_in(pair.push('&') + rest, otherwise) == transport::zone_in(rest, otherwise),
{
    texts::law_text_is_cut_at_the_first(pair, '&', rest);
}

/// The first of the pairs of a query string, and the others.
proof fn lemma_pairs_before_first(pairs: Seq<Seq<char>>)
    requires
        pairs.len() > 0,
    ensures
        pairs_before(pairs) == pairs[0].push('&') + pairs_before(pairs.drop_first()),
{
    let pieces = Seq::new(pairs.len(), |i: int| pairs[i].push('&'));
    let rest = pairs.drop_first();
    assert(pieces.drop_first() =~= Seq::new(rest.len(), |i: int| rest[i].push('&')));
}

/// Pairs that name no zone are passed over.
proof fn lemma_pairs_are_passed_over(
    pairs: Seq<Seq<char>>,
    rest: Seq<char>,
    otherwise: Seq<char>,
)
    requires
        forall|i: int| 0 <= i < pairs.len() ==> is_another_pair(#[trigger] pairs[i]),
    ensures
        transport::zone_in(pairs_before(pairs) + rest, otherwise) == transport::zone_in(
            rest,
            otherwise,
        ),
    decreases pairs.len(),
{
    if pairs.len() == 0 {
        assert(pairs_before(pairs) =~= Seq::empty());
        assert(pairs_before(pairs) + rest =~= rest);
    } else {
        let others = pairs.drop_first();
        assert forall|i: int| 0 <= i < others.len() implies is_another_pair(
            #[trigger] others[i],
        ) by {
            assert(others[i] == pairs[i + 1]);
        }
        lemma_pairs_before_first(pairs);
        lemma_pairs_are_passed_over(others, rest, otherwise);
        lemma_another_pair(pairs[0], pairs_before(others) + rest, otherwise);
        assert(pairs_before(pairs) + rest =~= pairs[0].push('&') + (pairs_before(others) + rest));
    }
}

/// The zone a query string names is that of the first of its pairs that
/// names one, whatever stands behind it; where none does, it is the one
/// given for that.
pub proof fn law_the_first_zone_named_counts(
    pairs: Seq<Seq<char>>,
    zone: Seq<char>,
    more: Seq<char>,
    last: Seq<char>,
    otherwise: Seq<char>,
)
    requires
        forall|i: int| 0 <= i < pairs.len() ==> is_another_pair(#[trigger] pairs[i]),
        !zone.contains('&'),
        is_another_pair(last),
    ensures
        transport::zone_in(pairs_before(pairs) + ("zone="@ + zone), otherwise) == zone,
        transport::zone_in(pairs_before(pairs) + (("zone="@ + zone).push('&') + more), otherwise)
            == zone,
        transport::zone_in(pairs_before(pairs) + last, otherwise) == otherwise,
{
    reveal_strlit("zone=");
    let pair = "zone="@ + zone;
    assert(!pair.contains('&')) by {
        assert forall|i: int| 0 <= i < pair.len() implies pair[i] != '&' by {
            if i >= 5 {
                assert(pair[i] == zone[i - 5]);
                assert(zone.contains(zone[i - 5]));
            }
        }
    }
    lemma_prefixed("zone="@, zone);
    texts::law_text_is_cut_at_the_first(pair, '&', more);
    lemma_pairs_are_passed_over(pairs, pair, otherwise);
    lemma_pairs_are_passed_over(pairs, pair.push('&') + more, otherwise);
    lemma_pairs_are_passed_over(pairs, last, otherwise);
    lemma_another_pair(last, Seq::empty(), otherwise);
}

/// A target without `dns://` before it is an address, with the name and the
/// zone of the end that resolves it.
pub proof fn law_an_address_alone_is_the_address(end: TransportModel, target: Seq<char>)
    requires
        !"dns://"@.is_prefix_of(target),
    ensures
        end.resolved(target) == (target, end.name, end.zone),
{
}

/// A target with `dns://` before it is an address up to the first slash, a
/// name up to the first question mark behind it, and a query string. A name
/// that is empty, and a zone that is not named, are those of the end that
/// resolves it.
pub proof fn law_a_target_is_resolved_by_its_parts(
    end: TransportModel,
    address: Seq<char>,
    name: Seq<char>,
    query: Seq<char>,
)
    requires
        !address.contains('/'),
        !name.contains('?'),
    ensures
        end.resolved("dns://"@ + address) == (address, end.name, end.zone),
        end.resolved("dns://"@ + (address.push('/') + name)) == (
            address,
            if name.len() > 0 {
                name
            } else {
                end.name
            },
            end.zone,
        ),
        end.resolved("dns://"@ + (address.push('/') + (name.push('?') + query))) == (
            address,
            if name.len() > 0 {
                name
            } else {
                end.name
            },
            transport::zone_in(query, end.zone),
        ),
{
    let none = Seq::<char>::empty();
    reveal_strlit("zone=");
    assert(is_another_pair(none));
    lemma_another_pair(none, none, end.zone);
    lemma_prefixed("dns://"@, address);
    lemma_prefixed("dns://"@, address.push('/') + name);
    lemma_prefixed("dns://"@, address.push('/') + (name.push('?') + query));
    texts::law_text_is_cut_at_the_first(address, '/', name);
    texts::law_text_is_cut_at_the_first(address, '/', name.push('?') + query);
    texts::law_text_is_cut_at_the_first(name, '?', query);
    texts::law_text_is_cut_at_the_first(none, '?', query);
    assert(text::after(address, '/') =~= none);
    assert(text::after(name, '?') =~= none);
    assert(text::after(none, '?') =~= none);
}

/// A target that names an address, a name and a zone is resolved to these,
/// wherever among the pairs of its query string the zone is named first: so
/// is `dns://address/name?zone=zone`, and the same with anything behind an
/// ampersand, as origins have it.
#[verifier::rlimit(40)]
pub proof fn law_a_target_names_its_zone(
    end: TransportModel,
    address: Seq<char>,
    name: Seq<char>,
    pairs: Seq<Seq<char>>,
    zone: Seq<char>,
    more: Seq<char>,
)
    requires
        !address.contains('/'),
        !name.contains('?'),
        name.len() > 0,
        forall|i: int| 0 <= i < pairs.len() ==> is_another_pair(#[trigger] pairs[i]),
        !zone.contains('&'),
    ensures
        end.resolved(
            "dns://"@ + address + "/"@ + name + "?"@ + pairs_before(pairs) + "zone="@ + zone,
        ) == (address, name, zone),
        end.resolved(
            "dns://"@ + address + "/"@ + name + "?"@ + pairs_before(pairs) + "zone="@ + zone + "&"@
                + more,
        ) == (address, name, zone),
        end.resolved("dns://"@ + address + "/"@ + name + "?zone="@ + zone) == (address, name, zone),
        end.resolved("dns://"@ + address + "/"@ + name + "?zone="@ + zone + "&"@ + more) == (
            address,
            name,
            zone,
        ),
{
    reveal_strlit("/");
    reveal_strlit("?");
    reveal_strlit("&");
    reveal_strlit("zone=");
    reveal_strlit("?zone=");
    let none = Seq::<char>::empty();
    let no_pairs = Seq::<Seq<char>>::empty();
    assert(is_another_pair(none));
    assert(pairs_before(no_pairs) =~= none);
    let query = "zone="@ + zone;
    let longer = query.push('&') + more;
    law_the_first_zone_named_counts(pairs, zone, more, none, end.zone);
    law_the_first_zone_named_counts(no_pairs, zone, more, none, end.zone);
    law_a_target_is_resolved_by_its_parts(end, address, name, pairs_before(pairs) + query);
    law_a_target_is_resolved_by_its_parts(end, address, name, pairs_before(pairs) + longer);
    law_a_target_is_resolved_by_its_parts(end, address, name, pairs_before(no_pairs) + query);
    law_a_target_is_resolved_by_its_parts(end, address, name, pairs_before(no_pairs) + longer);
    let short = "dns://"@ + address + "/"@ + name + "?"@ + pairs_before(pairs) + "zone="@ + zone;
    let first = "dns://"@ + address + "/"@ + name + "?zone="@ + zone;
    assert(short =~= "dns://"@ + (address.push('/') + (name.push('?') + (pairs_before(pairs)
        + query))));
    assert(short + "&"@ + more =~= "dns://"@ + (address.push('/') + (name.push('?') + (
    pairs_before(pairs) + longer))));
    assert(first =~= "dns://"@ + (address.push('/') + (name.push('?') + (pairs_before(no_pairs)
        + query))));
    assert(first + "&"@ + more =~= "dns://"@ + (address.push('/') + (name.push('?') + (
    pairs_before(no_pairs) + longer))));
}

} // verus!
