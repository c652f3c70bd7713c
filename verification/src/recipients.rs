//! Recipient resolution: from what the caller asked for, the configured
//! defaults and two policy switches to one canonical list of addresses.

use crate::text::{
    compare, lemma_precedes_irreflexive, lemma_precedes_total, lemma_precedes_transitive,
    placement, precedes, trim, trimmed, Placement,
};
use crate::types::RequestPayload;
use vstd::prelude::*;

verus! {

/// The two switches that decide whose addresses count.
#[derive(Clone, Copy, Debug, PartialEq, Eq, Structural)]
pub struct RecipientPolicy {
    /// Callers may name recipients of their own.
    pub allow_dynamic: bool,
    /// The default recipients get a copy of every message.
    pub always_duplicate: bool,
}

/// Resolution left no address to send to.
#[derive(Clone, Copy, Debug, PartialEq, Eq, Structural)]
pub struct NoRecipientError;

/// The candidate addresses, in the order they are gathered.
///
/// The caller's list counts only where the policy allows it. The defaults
/// follow when they are always copied, or when nothing else was gathered.
pub open spec fn candidates(
    supplied: Option<Seq<Seq<char>>>,
    policy: RecipientPolicy,
    defaults: Seq<Seq<char>>,
) -> Seq<Seq<char>> {
    let dynamic = match supplied {
        Some(list) if policy.allow_dynamic => list,
        _ => Seq::empty(),
    };
    if policy.always_duplicate || dynamic.len() == 0 {
        dynamic + defaults
    } else {
        dynamic
    }
}

/// The addresses that a list of candidates stands for: each candidate
/// trimmed, blank ones left out.
pub open spec fn addresses(list: Seq<Seq<char>>) -> Set<Seq<char>> {
    Set::new(
        |a: Seq<char>|
            a.len() > 0 && exists|i: int| 0 <= i < list.len() && #[trigger] trimmed(list[i]) == a,
    )
}

/// Strictly ascending in lexicographic order, so free of duplicates.
pub open spec fn ascending(list: Seq<Seq<char>>) -> bool {
    forall|i: int, j: int| 0 <= i < j < list.len() ==> precedes(list[i], list[j])
}

/// `list` is the canonical listing of `set`: ascending, and holding exactly
/// the members of `set`.
pub open spec fn canonical(list: Seq<Seq<char>>, set: Set<Seq<char>>) -> bool {
    &&& ascending(list)
    &&& forall|a: Seq<char>| list.contains(a) <==> set.contains(a)
}

/// A canonical, non-empty list of destination addresses.
#[derive(Debug)]
pub struct ResolvedRecipients {
    list: Vec<String>,
}

impl View for ResolvedRecipients {
    type V = Seq<Seq<char>>;

    closed spec fn view(&self) -> Seq<Seq<char>> {
        self.list.deep_view()
    }
}

impl ResolvedRecipients {
    #[verifier::type_invariant]
    closed spec fn settled(&self) -> bool {
        ascending(self.list.deep_view()) && self.list.len() > 0
    }

    /// The addresses, ascending and without duplicates; there is at least
    /// one.
    pub fn as_vec(&self) -> (list: &Vec<String>)
        ensures
            list.deep_view() == self@,
            ascending(self@),
            self@.len() > 0,
    {
        proof {
            use_type_invariant(self);
        }
        &self.list
    }

    /// The number of addresses, never zero.
    pub fn len(&self) -> (n: usize)
        ensures
            n == self@.len(),
            n > 0,
    {
        proof {
            use_type_invariant(self);
        }
        self.list.len()
    }
}

/// Puts `address` at its place in the ascending `list`, unless it is there
/// already.
fn insert_address(list: &mut Vec<String>, address: &str)
    requires
        ascending(old(list).deep_view()),
    ensures
        ascending(final(list).deep_view()),
        forall|a: Seq<char>|
            final(list).deep_view().contains(a) <==> (old(list).deep_view().contains(a) || a
                == address@),
{
    let ghost before = list.deep_view();
    let mut p: usize = 0;
    let mut found: bool = false;
    let mut placed: bool = false;
    while p < list.len() && !placed
        invariant
            *list == *old(list),
            before == list.deep_view(),
            p <= list.len(),
            forall|k: int| 0 <= k < p ==> precedes(before[k], address@),
            placed ==> p < list.len() && placement(before[p as int], address@)
                != Placement::Before,
            found <==> placed && before[p as int] == address@,
        decreases list.len() - p + (if placed { 0int } else { 1int }),
    {
        match compare(list[p].as_str(), address) {
            Placement::Before => {
                p += 1;
            },
            Placement::Same => {
                found = true;
                placed = true;
            },
            Placement::After => {
                placed = true;
            },
        }
    }
    if found {
        assert(before.contains(address@));
        return ;
    }
    list.insert(p, address.to_owned());
    let ghost after = list.deep_view();
    assert(after =~= before.insert(p as int, address@));
    assert forall|i: int, j: int| 0 <= i < j < after.len() implies precedes(after[i], after[j]) by {
        if j == p {
        } else if i == p {
            lemma_precedes_total(before[p as int], address@);
            if j - 1 > p {
                lemma_precedes_transitive(address@, before[p as int], before[j - 1]);
            }
        } else if i < p && p < j {
            assert(precedes(before[i], before[j - 1]));
        } else {
        }
    }
    assert forall|a: Seq<char>| after.contains(a) <==> (before.contains(a) || a
        == address@) by {
        if after.contains(a) {
            let k = choose|k: int| 0 <= k < after.len() && after[k] == a;
            if k < p {
                assert(before[k] == a);
            } else if k > p {
                assert(before[k - 1] == a);
            }
        }
        if before.contains(a) {
            let k = choose|k: int| 0 <= k < before.len() && before[k] == a;
            if k < p {
                assert(after[k] == a);
            } else {
                assert(after[k + 1] == a);
            }
        }
        if a == address@ {
            assert(after[p as int] == a);
        }
    }
}

/// The addresses of a list are those of its parts.
proof fn lemma_addresses_concat(a: Seq<Seq<char>>, b: Seq<Seq<char>>)
    ensures
        addresses(a + b) == addresses(a).union(addresses(b)),
{
    assert forall|x: Seq<char>| addresses(a + b).contains(x) <==> (addresses(a).contains(x)
        || addresses(b).contains(x)) by {
        if addresses(a + b).contains(x) {
            let i = choose|i: int| 0 <= i < (a + b).len() && #[trigger] trimmed((a + b)[i]) == x;
            if i < a.len() {
                assert(trimmed(a[i]) == x);
            } else {
                assert(trimmed(b[i - a.len()]) == x);
            }
        }
        if addresses(a).contains(x) {
            let i = choose|i: int| 0 <= i < a.len() && #[trigger] trimmed(a[i]) == x;
            assert(trimmed((a + b)[i]) == x);
        }
        if addresses(b).contains(x) {
            let i = choose|i: int| 0 <= i < b.len() && #[trigger] trimmed(b[i]) == x;
            assert(trimmed((a + b)[i + a.len()]) == x);
        }
    }
    assert(addresses(a + b) =~= addresses(a).union(addresses(b)));
}

/// Adds the addresses that `source` stands for to the ascending `list`.
fn absorb(list: &mut Vec<String>, source: &Vec<String>)
    requires
        ascending(old(list).deep_view()),
    ensures
        ascending(final(list).deep_view()),
        forall|a: Seq<char>|
            final(list).deep_view().contains(a) <==> (old(list).deep_view().contains(a)
                || addresses(source.deep_view()).contains(a)),
{
    let ghost before = list.deep_view();
    let ghost all = source.deep_view();
    let mut i: usize = 0;
    assert(addresses(all.take(0)) =~= Set::<Seq<char>>::empty());
    while i < source.len()
        invariant
            i <= source.len(),
            all == source.deep_view(),
            ascending(list.deep_view()),
            forall|a: Seq<char>|
                list.deep_view().contains(a) <==> (before.contains(a) || addresses(
                    all.take(i as int),
                ).contains(a)),
        decreases source.len() - i,
    {
        let t = trim(source[i].as_str());
        let ghost held = list.deep_view();
        let ghost single = seq![all[i as int]];
        proof {
            assert(all.take(i as int + 1) =~= all.take(i as int) + single);
            lemma_addresses_concat(all.take(i as int), single);
            assert(t@ == trimmed(single[0]));
            assert forall|a: Seq<char>| addresses(single).contains(a) <==> (a.len() > 0 && a
                == t@) by {
                if addresses(single).contains(a) {
                    let k = choose|k: int|
                        0 <= k < single.len() && #[trigger] trimmed(single[k]) == a;
                    assert(k == 0);
                }
            }
            assert(forall|a: Seq<char>|
                held.contains(a) <==> (before.contains(a) || addresses(
                    all.take(i as int),
                ).contains(a)));
        }
        if !t.is_empty() {
            insert_address(list, t);
        }
        i += 1;
    }
    assert(all.take(i as int) =~= all);
}

/// Derives the final recipients of a request.
///
/// The caller's recipients count only if the policy allows dynamic
/// recipients. The defaults are added if they are always copied, or if
/// nothing has been gathered by then. Every candidate is trimmed, blank ones
/// are dropped, and what remains is listed once each in ascending order.
/// Resolution fails exactly when nothing remains.
pub fn resolve(payload: &RequestPayload, policy: RecipientPolicy, defaults: &Vec<String>) -> (r:
    Result<ResolvedRecipients, NoRecipientError>)
    ensures
        match r {
            Ok(resolved) => resolved@.len() > 0 && canonical(
                resolved@,
                addresses(candidates(payload.supplied(), policy, defaults.deep_view())),
            ),
            Err(_) => addresses(candidates(payload.supplied(), policy, defaults.deep_view()))
                == Set::<Seq<char>>::empty(),
        },
{
    let mut list: Vec<String> = Vec::new();
    let mut gathered: usize = 0;
    let ghost dynamic: Seq<Seq<char>> = Seq::empty();
    assert(addresses(dynamic) =~= Set::<Seq<char>>::empty());
    if policy.allow_dynamic {
        if let Some(supplied) = &payload.recipients {
            absorb(&mut list, supplied);
            gathered = supplied.len();
            proof {
                dynamic = supplied.deep_view();
            }
        }
    }
    assert(forall|a: Seq<char>| list.deep_view().contains(a) <==> addresses(dynamic).contains(a));
    if policy.always_duplicate || gathered == 0 {
        absorb(&mut list, defaults);
        proof {
            lemma_addresses_concat(dynamic, defaults.deep_view());
        }
    }
    let ghost wanted = addresses(candidates(payload.supplied(), policy, defaults.deep_view()));
    assert(forall|a: Seq<char>| list.deep_view().contains(a) <==> wanted.contains(a));
    if list.len() == 0 {
        assert(wanted =~= Set::<Seq<char>>::empty()) by {
            assert forall|a: Seq<char>| !wanted.contains(a) by {
                if wanted.contains(a) {
                    let k = choose|k: int|
                        0 <= k < list.deep_view().len() && list.deep_view()[k] == a;
                }
            }
        }
        Err(NoRecipientError)
    } else {
        Ok(ResolvedRecipients { list })
    }
}

/// A set has at most one canonical listing.
pub proof fn law_canonical_unique(a: Seq<Seq<char>>, b: Seq<Seq<char>>, set: Set<Seq<char>>)
    requires
        canonical(a, set),
        canonical(b, set),
    ensures
        a == b,
    decreases a.len(),
{
    if a.len() == 0 {
        if b.len() > 0 {
            assert(b.contains(b[0]));
        }
        assert(a =~= b);
    } else {
        assert(a.contains(a[0]));
        let k = choose|k: int| 0 <= k < b.len() && b[k] == a[0];
        assert(b.contains(b[0]));
        let m = choose|m: int| 0 <= m < a.len() && a[m] == b[0];
        if k > 0 {
            lemma_precedes_irreflexive(a[0]);
            if m > 0 {
                lemma_precedes_total(a[0], a[m]);
            }
        }
        assert(a[0] == b[0]);
        let rest = set.remove(a[0]);
        assert forall|x: Seq<char>| a.drop_first().contains(x) <==> rest.contains(x) by {
            if a.drop_first().contains(x) {
                let i = choose|i: int| 0 <= i < a.drop_first().len() && a.drop_first()[i] == x;
                assert(a[i + 1] == x);
                assert(a.contains(x));
                lemma_precedes_irreflexive(a[0]);
            }
            if rest.contains(x) {
                let i = choose|i: int| 0 <= i < a.len() && a[i] == x;
                assert(a.drop_first()[i - 1] == x);
            }
        }
        assert forall|x: Seq<char>| b.drop_first().contains(x) <==> rest.contains(x) by {
            if b.drop_first().contains(x) {
                let i = choose|i: int| 0 <= i < b.drop_first().len() && b.drop_first()[i] == x;
                assert(b[i + 1] == x);
                assert(b.contains(x));
                lemma_precedes_irreflexive(b[0]);
            }
            if rest.contains(x) {
                assert(b.contains(x));
                let i = choose|i: int| 0 <= i < b.len() && b[i] == x;
                assert(b.drop_first()[i - 1] == x);
            }
        }
        assert(ascending(a.drop_first())) by {
            assert forall|i: int, j: int| 0 <= i < j < a.drop_first().len() implies precedes(
                a.drop_first()[i],
                a.drop_first()[j],
            ) by {
                assert(precedes(a[i + 1], a[j + 1]));
            }
        }
        assert(ascending(b.drop_first())) by {
            assert forall|i: int, j: int| 0 <= i < j < b.drop_first().len() implies precedes(
                b.drop_first()[i],
                b.drop_first()[j],
            ) by {
                assert(precedes(b[i + 1], b[j + 1]));
            }
        }
        law_canonical_unique(a.drop_first(), b.drop_first(), rest);
        assert(a =~= seq![a[0]] + a.drop_first());
        assert(b =~= seq![b[0]] + b.drop_first());
    }
}

/// Resolution does not see order or repetition. Two caller lists with the
/// same members, under the same policy and defaults, stand for the same
/// addresses, so their resolutions are the same list.
pub proof fn law_order_and_duplicates_ignored(
    first: Seq<Seq<char>>,
    second: Seq<Seq<char>>,
    policy: RecipientPolicy,
    defaults: Seq<Seq<char>>,
    resolved_first: Seq<Seq<char>>,
    resolved_second: Seq<Seq<char>>,
)
    requires
        forall|a: Seq<char>| first.contains(a) <==> second.contains(a),
        canonical(resolved_first, addresses(candidates(Some(first), policy, defaults))),
        canonical(resolved_second, addresses(candidates(Some(second), policy, defaults))),
    ensures
        addresses(candidates(Some(first), policy, defaults)) == addresses(
            candidates(Some(second), policy, defaults),
        ),
        resolved_first == resolved_second,
{
    lemma_same_members_same_addresses(first, second);
    if first.len() == 0 {
        if second.len() > 0 {
            assert(second.contains(second[0]));
        }
    } else {
        assert(first.contains(first[0]));
    }
    lemma_addresses_concat(first, defaults);
    lemma_addresses_concat(second, defaults);
    assert(Seq::<Seq<char>>::empty() + defaults =~= defaults);
    law_canonical_unique(
        resolved_first,
        resolved_second,
        addresses(candidates(Some(first), policy, defaults)),
    );
}

proof fn lemma_same_members_same_addresses(first: Seq<Seq<char>>, second: Seq<Seq<char>>)
    requires
        forall|a: Seq<char>| first.contains(a) <==> second.contains(a),
    ensures
        addresses(first) == addresses(second),
{
    assert forall|x: Seq<char>| addresses(first).contains(x) <==> addresses(second).contains(
        x,
    ) by {
        if addresses(first).contains(x) {
            let i = choose|i: int| 0 <= i < first.len() && #[trigger] trimmed(first[i]) == x;
            assert(first.contains(first[i]));
            let j = choose|j: int| 0 <= j < second.len() && second[j] == first[i];
            assert(trimmed(second[j]) == x);
        }
        if addresses(second).contains(x) {
            let i = choose|i: int| 0 <= i < second.len() && #[trigger] trimmed(second[i]) == x;
            assert(second.contains(second[i]));
            let j = choose|j: int| 0 <= j < first.len() && first[j] == second[i];
            assert(trimmed(first[j]) == x);
        }
    }
    assert(addresses(first) =~= addresses(second));
}

/// Where dynamic recipients are not allowed, what the caller supplied makes
/// no difference: the candidates are the defaults.
pub proof fn law_dynamic_recipients_ignored(
    supplied: Option<Seq<Seq<char>>>,
    always_duplicate: bool,
    defaults: Seq<Seq<char>>,
)
    ensures
        candidates(
            supplied,
            RecipientPolicy { allow_dynamic: false, always_duplicate },
            defaults,
        ) == defaults,
        defaults.len() == 0 ==> addresses(
            candidates(
                supplied,
                RecipientPolicy { allow_dynamic: false, always_duplicate },
                defaults,
            ),
        ) == Set::<Seq<char>>::empty(),
{
    assert(Seq::<Seq<char>>::empty() + defaults =~= defaults);
    assert(addresses(Seq::<Seq<char>>::empty()) =~= Set::<Seq<char>>::empty());
}

/// Where callers may name recipients and the defaults are always copied,
/// the addresses are those of the caller together with those of the
/// defaults.
pub proof fn law_defaults_always_copied(supplied: Seq<Seq<char>>, defaults: Seq<Seq<char>>)
    ensures
        addresses(
            candidates(
                Some(supplied),
                RecipientPolicy { allow_dynamic: true, always_duplicate: true },
                defaults,
            ),
        ) == addresses(supplied).union(addresses(defaults)),
{
    lemma_addresses_concat(supplied, defaults);
}

} // verus!
