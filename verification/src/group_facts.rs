//! What holds of the groups that `group::key_groups` describes.

use vstd::prelude::*;
use vstd::relations::{sorted_by, total_ordering};
use crate::group::{
    by_rank, census, cut, group_at, group_key, key_at, key_groups, pick, pick_groups,
    place_groups, places, prefix_of, ranked, stands_before, lemma_census_empty,
    lemma_census_push, lemma_rank_total,
};
use crate::order::{
    lemma_lex_asymmetric, lemma_lex_irreflexive, lemma_lex_le_order, lemma_lex_total,
    lemma_lex_transitive, lex_le, lex_lt,
};

verus! {

/// What a cut of a sorted `order` looks like: no run is empty, the runs put
/// end to end are `order`, a run lies under one prefix, the prefixes of the
/// runs rise strictly, and within a run the places keep their order.
pub open spec fn is_cut(keys: Seq<Seq<char>>, order: Seq<int>, runs: Seq<Seq<int>>) -> bool {
    &&& runs.flatten() == order
    &&& forall|g: int| 0 <= g < runs.len() ==> (#[trigger] runs[g]).len() > 0
    &&& order.len() > 0 ==> runs.len() > 0 && runs.last().last() == order.last()
    &&& forall|g: int, i: int|
        0 <= g < runs.len() && 0 <= i < runs[g].len() ==> order.contains(#[trigger] runs[g][i])
    &&& forall|g: int, i: int|
        0 <= g < runs.len() && 0 <= i < runs[g].len() ==> group_at(keys, #[trigger] runs[g][i])
            == group_at(keys, runs[g][0])
    &&& forall|g: int, h: int|
        #![trigger runs[g], runs[h]]
        0 <= g < h < runs.len() ==> lex_lt(group_at(keys, runs[g][0]), group_at(keys, runs[h][0]))
    &&& forall|g: int, i: int, j: int|
        #![trigger runs[g][i], runs[g][j]]
        0 <= g < runs.len() && 0 <= i < j < runs[g].len() ==> stands_before(
            keys,
            runs[g][i],
            runs[g][j],
        )
}

/// Of two places of which the first stands before the second, the group of
/// the first is the group of the second or comes before it.
pub proof fn lemma_group_rises(keys: Seq<Seq<char>>, a: int, b: int)
    requires
        stands_before(keys, a, b),
    ensures
        lex_le(group_at(keys, a), group_at(keys, b)),
{
}

/// The cut of a sorted order is as `is_cut` says.
pub proof fn lemma_cut_sorted(keys: Seq<Seq<char>>, order: Seq<int>)
    requires
        sorted_by(order, by_rank(keys)),
    ensures
        is_cut(keys, order, cut(keys, order)),
    decreases order.len(),
{
    let runs = cut(keys, order);
    if order.len() == 0 {
        assert(runs.flatten() =~= order);
    } else {
        let shorter = order.drop_last();
        let before = cut(keys, shorter);
        let p = order.last();
        assert forall|i: int, j: int| 0 <= i < j < shorter.len() implies #[trigger] by_rank(keys)(
            shorter[i],
            shorter[j],
        ) by {
            assert(by_rank(keys)(order[i], order[j]));
        }
        lemma_cut_sorted(keys, shorter);
        assert forall|x: int| shorter.contains(x) implies order.contains(x) && stands_before(
            keys,
            x,
            p,
        ) by {
            let k = choose|k: int| 0 <= k < shorter.len() && shorter[k] == x;
            assert(order[k] == x);
            assert(by_rank(keys)(order[k], order[order.len() - 1]));
        }
        assert(order[order.len() - 1] == p);
        if order.len() >= 2 && group_at(keys, order[order.len() - 2]) == group_at(keys, p) {
            let last = before.last();
            let head = before.drop_last();
            assert(shorter.last() == order[order.len() - 2]);
            assert(runs == head.push(last.push(p)));
            assert(runs.flatten() =~= order) by {
                head.lemma_flatten_push(last);
                head.lemma_flatten_push(last.push(p));
                assert(head.push(last) =~= before);
                assert(order =~= shorter.push(p));
            }
            assert forall|g: int, i: int| 0 <= g < runs.len() && 0 <= i < runs[g].len() implies (
            order.contains(#[trigger] runs[g][i]) && group_at(keys, runs[g][i]) == group_at(
                keys,
                runs[g][0],
            )) by {
                if g < head.len() {
                    assert(runs[g] == before[g]);
                    assert(shorter.contains(before[g][i]));
                } else if i < last.len() {
                    assert(runs[g][i] == before[g][i]);
                    assert(shorter.contains(before[g][i]));
                } else {
                    assert(group_at(keys, last.last()) == group_at(keys, last[0]));
                }
            }
            assert forall|g: int, h: int|
                #![trigger runs[g], runs[h]]
                0 <= g < h < runs.len() implies lex_lt(
                group_at(keys, runs[g][0]),
                group_at(keys, runs[h][0]),
            ) by {
                assert(runs[g] == before[g]);
                assert(runs[h][0] == before[h][0]);
            }
            assert forall|g: int, i: int, j: int|
                #![trigger runs[g][i], runs[g][j]]
                0 <= g < runs.len() && 0 <= i < j < runs[g].len() implies stands_before(
                keys,
                runs[g][i],
                runs[g][j],
            ) by {
                if g < head.len() {
                    assert(runs[g] == before[g]);
                } else if j < last.len() {
                    assert(runs[g][i] == before[g][i]);
                    assert(runs[g][j] == before[g][j]);
                } else {
                    assert(runs[g][i] == before[g][i]);
                    assert(shorter.contains(before[g][i]));
                }
            }
        } else {
            assert(runs == before.push(seq![p]));
            assert(runs.flatten() =~= order) by {
                before.lemma_flatten_push(seq![p]);
                assert(order =~= shorter.push(p));
            }
            assert forall|g: int, i: int| 0 <= g < runs.len() && 0 <= i < runs[g].len() implies (
            order.contains(#[trigger] runs[g][i]) && group_at(keys, runs[g][i]) == group_at(
                keys,
                runs[g][0],
            )) by {
                if g < before.len() {
                    assert(runs[g] == before[g]);
                    assert(shorter.contains(before[g][i]));
                }
            }
            assert forall|g: int, h: int|
                #![trigger runs[g], runs[h]]
                0 <= g < h < runs.len() implies lex_lt(
                group_at(keys, runs[g][0]),
                group_at(keys, runs[h][0]),
            ) by {
                assert(runs[g] == before[g]);
                if h < before.len() {
                    assert(runs[h] == before[h]);
                } else {
                    let first = before[g][0];
                    let prev = before.last().last();
                    assert(shorter.contains(first));
                    assert(prev == order[order.len() - 2]);
                    assert(group_at(keys, prev) != group_at(keys, p));
                    lemma_group_rises(keys, first, p);
                    if g == before.len() - 1 {
                        assert(group_at(keys, prev) == group_at(keys, first));
                    } else {
                        assert(lex_lt(group_at(keys, first), group_at(keys, before.last()[0])));
                        assert(group_at(keys, prev) == group_at(keys, before.last()[0]));
                        assert(shorter.contains(prev));
                        lemma_group_rises(keys, prev, p);
                        if group_at(keys, first) == group_at(keys, p) {
                            lemma_lex_asymmetric(group_at(keys, first), group_at(keys, prev));
                        }
                    }
                }
            }
            assert forall|g: int, i: int, j: int|
                #![trigger runs[g][i], runs[g][j]]
                0 <= g < runs.len() && 0 <= i < j < runs[g].len() implies stands_before(
                keys,
                runs[g][i],
                runs[g][j],
            ) by {
                assert(runs[g] == before[g]);
            }
        }
    }
}

/// The order in which places are written is sorted, and each place of `keys`
/// occurs in it once and no other.
pub proof fn lemma_ranked(keys: Seq<Seq<char>>)
    ensures
        sorted_by(ranked(keys), by_rank(keys)),
        ranked(keys).to_multiset() == places(keys.len()).to_multiset(),
        ranked(keys).len() == keys.len(),
        forall|i: int| 0 <= i < keys.len() ==> 0 <= #[trigger] ranked(keys)[i] < keys.len(),
        forall|p: int| 0 <= p < keys.len() ==> ranked(keys).contains(p),
{
    let from = places(keys.len());
    let to = ranked(keys);
    lemma_rank_total(keys);
    from.lemma_sort_by_ensures(by_rank(keys));
    vstd::seq_lib::to_multiset_len(from);
    vstd::seq_lib::to_multiset_len(to);
    assert forall|i: int| 0 <= i < keys.len() implies 0 <= #[trigger] to[i] < keys.len() by {
        let x = to[i];
        assert(to.contains(x));
        if !from.contains(x) {
            assert(!to.contains(x));
        }
        let k = choose|k: int| 0 <= k < from.len() && from[k] == x;
        assert(from[k] == k);
    }
    assert forall|p: int| 0 <= p < keys.len() implies to.contains(p) by {
        assert(from[p] == p);
        assert(from.contains(p));
        vstd::seq_lib::to_multiset_contains(from, p);
        vstd::seq_lib::to_multiset_contains(to, p);
    }
}

/// Two sequences of places that hold the same places equally often pick the
/// same items equally often.
pub proof fn lemma_pick_same_items<T>(items: Seq<T>, a: Seq<int>, b: Seq<int>)
    requires
        a.to_multiset() == b.to_multiset(),
    ensures
        pick(items, a).to_multiset() == pick(items, b).to_multiset(),
    decreases a.len(),
{
    broadcast use vstd::multiset::group_multiset_axioms;

    vstd::seq_lib::to_multiset_len(a);
    vstd::seq_lib::to_multiset_len(b);
    if a.len() == 0 {
        assert(pick(items, a) =~= pick(items, b));
    } else {
        let x = a.last();
        let a1 = a.drop_last();
        assert(a =~= a1.push(x));
        vstd::seq_lib::to_multiset_build(a1, x);
        vstd::seq_lib::to_multiset_contains(b, x);
        assert(a.to_multiset().count(x) > 0);
        let j = choose|j: int| 0 <= j < b.len() && b[j] == x;
        let b1 = b.remove(j);
        vstd::seq_lib::to_multiset_remove(b, j);
        assert(a1.to_multiset() =~= b1.to_multiset());
        lemma_pick_same_items(items, a1, b1);
        assert(pick(items, a) =~= pick(items, a1).push(items[x]));
        vstd::seq_lib::to_multiset_build(pick(items, a1), items[x]);
        assert(pick(items, b) =~= pick(items, b1).insert(j, items[x]));
        vstd::seq_lib::to_multiset_insert(pick(items, b1), j, items[x]);
    }
}

/// Picking group by group and putting the groups end to end is picking at
/// the places put end to end.
pub proof fn lemma_pick_flatten<T>(items: Seq<T>, groups: Seq<Seq<int>>)
    ensures
        pick_groups(items, groups).flatten() == pick(items, groups.flatten()),
    decreases groups.len(),
{
    if groups.len() == 0 {
        assert(pick_groups(items, groups).flatten() =~= pick(items, groups.flatten()));
    } else {
        let head = groups.drop_last();
        let last = groups.last();
        lemma_pick_flatten(items, head);
        assert(groups =~= head.push(last));
        head.lemma_flatten_push(last);
        assert(pick_groups(items, groups) =~= pick_groups(items, head).push(pick(items, last)));
        pick_groups(items, head).lemma_flatten_push(pick(items, last));
        assert(pick(items, head.flatten() + last) =~= pick(items, head.flatten()) + pick(
            items,
            last,
        ));
    }
}

/// The keys of `keys`, written out in order, are `keys` rearranged.
pub proof fn lemma_ranked_keys(keys: Seq<Seq<char>>)
    ensures
        pick(keys, ranked(keys)).to_multiset() == keys.to_multiset(),
{
    lemma_ranked(keys);
    lemma_pick_same_items(keys, ranked(keys), places(keys.len()));
    assert(pick(keys, places(keys.len())) =~= keys);
}

/// `groups` are `keys` grouped and sorted: no group is empty, the keys of a
/// group are grouped under one prefix, these prefixes rise strictly from
/// group to group, the keys of a group rise, and the groups together hold
/// each key as often as `keys` does.
pub open spec fn is_grouping(keys: Seq<Seq<char>>, groups: Seq<Seq<Seq<char>>>) -> bool {
    &&& forall|g: int| 0 <= g < groups.len() ==> (#[trigger] groups[g]).len() > 0
    &&& forall|g: int, i: int|
        0 <= g < groups.len() && 0 <= i < groups[g].len() ==> group_key(
            keys,
            #[trigger] groups[g][i],
        ) == group_key(keys, groups[g][0])
    &&& forall|g: int, h: int|
        #![trigger groups[g], groups[h]]
        0 <= g < h < groups.len() ==> lex_lt(
            group_key(keys, groups[g][0]),
            group_key(keys, groups[h][0]),
        )
    &&& forall|g: int, i: int, j: int|
        #![trigger groups[g][i], groups[g][j]]
        0 <= g < groups.len() && 0 <= i <= j < groups[g].len() ==> lex_le(
            groups[g][i],
            groups[g][j],
        )
    &&& groups.flatten().to_multiset() == keys.to_multiset()
}

/// The places of each group lie within `keys`.
pub proof fn lemma_place_groups_within(keys: Seq<Seq<char>>)
    ensures
        is_cut(keys, ranked(keys), place_groups(keys)),
        forall|g: int, i: int|
            0 <= g < place_groups(keys).len() && 0 <= i < place_groups(keys)[g].len() ==> 0
                <= #[trigger] place_groups(keys)[g][i] < keys.len(),
{
    let runs = place_groups(keys);
    lemma_ranked(keys);
    lemma_cut_sorted(keys, ranked(keys));
    assert forall|g: int, i: int| 0 <= g < runs.len() && 0 <= i < runs[g].len() implies 0
        <= #[trigger] runs[g][i] < keys.len() by {
        assert(ranked(keys).contains(runs[g][i]));
        let k = choose|k: int| 0 <= k < ranked(keys).len() && ranked(keys)[k] == runs[g][i];
        assert(0 <= ranked(keys)[k] < keys.len());
    }
}

/// The groups of `keys` are `keys` grouped and sorted.
pub proof fn lemma_key_groups(keys: Seq<Seq<char>>)
    ensures
        is_grouping(keys, key_groups(keys)),
{
    let runs = place_groups(keys);
    let groups = key_groups(keys);
    lemma_place_groups_within(keys);
    assert forall|g: int, i: int| 0 <= g < groups.len() && 0 <= i < groups[g].len() implies (
    #[trigger] groups[g][i]) == key_at(keys, runs[g][i]) by {
        assert(0 <= runs[g][i] < keys.len());
    }
    assert forall|g: int, i: int|
        0 <= g < groups.len() && 0 <= i < groups[g].len() implies group_key(
        keys,
        #[trigger] groups[g][i],
    ) == group_key(keys, groups[g][0]) by {
        assert(group_at(keys, runs[g][i]) == group_at(keys, runs[g][0]));
        assert(groups[g][0] == key_at(keys, runs[g][0]));
    }
    assert forall|g: int, h: int|
        #![trigger groups[g], groups[h]]
        0 <= g < h < groups.len() implies lex_lt(
        group_key(keys, groups[g][0]),
        group_key(keys, groups[h][0]),
    ) by {
        assert(lex_lt(group_at(keys, runs[g][0]), group_at(keys, runs[h][0])));
        assert(groups[g][0] == key_at(keys, runs[g][0]));
        assert(groups[h][0] == key_at(keys, runs[h][0]));
    }
    assert forall|g: int, i: int, j: int|
        #![trigger groups[g][i], groups[g][j]]
        0 <= g < groups.len() && 0 <= i <= j < groups[g].len() implies lex_le(
        groups[g][i],
        groups[g][j],
    ) by {
        if i < j {
            assert(stands_before(keys, runs[g][i], runs[g][j]));
            assert(group_at(keys, runs[g][i]) == group_at(keys, runs[g][0]));
            assert(group_at(keys, runs[g][j]) == group_at(keys, runs[g][0]));
        }
    }
    lemma_pick_flatten(keys, runs);
    lemma_ranked_keys(keys);
}

/// The prefixes that keep a group of their own: those that are not empty and
/// that at least two keys share.
pub open spec fn kept_prefixes(keys: Seq<Seq<char>>) -> Set<Seq<char>> {
    Set::new(|p: Seq<char>| p.len() > 0 && census(keys, p) >= 2)
}

/// Some key is grouped under the empty prefix.
pub open spec fn has_loose_key(keys: Seq<Seq<char>>) -> bool {
    exists|i: int| 0 <= i < keys.len() && (#[trigger] group_at(keys, i)).len() == 0
}

/// The number of groups that `keys` fall into: one for each kept prefix, and
/// one more where some key is grouped under the empty prefix.
pub open spec fn group_count(keys: Seq<Seq<char>>) -> nat {
    kept_prefixes(keys).len() + if has_loose_key(keys) {
        1nat
    } else {
        0nat
    }
}

/// What occurs in sequences put end to end occurs in one of them.
pub proof fn lemma_flatten_contains<T>(parts: Seq<Seq<T>>, x: T)
    requires
        parts.flatten().contains(x),
    ensures
        exists|g: int, i: int| 0 <= g < parts.len() && 0 <= i < parts[g].len() && parts[g][i] == x,
    decreases parts.len(),
{
    if parts.len() == 0 {
    } else {
        let head = parts.drop_last();
        let last = parts.last();
        assert(parts =~= head.push(last));
        head.lemma_flatten_push(last);
        let k = choose|k: int| 0 <= k < parts.flatten().len() && parts.flatten()[k] == x;
        if k < head.flatten().len() {
            assert(head.flatten()[k] == x);
            lemma_flatten_contains(head, x);
            let (g, i) = choose|g: int, i: int|
                0 <= g < head.len() && 0 <= i < head[g].len() && head[g][i] == x;
            assert(parts[g][i] == x);
        } else {
            let i = k - head.flatten().len();
            assert(parts[parts.len() - 1][i] == x);
        }
    }
}

/// A prefix with a census above zero is the prefix of some key.
pub proof fn lemma_census_witness(keys: Seq<Seq<char>>, p: Seq<char>)
    requires
        census(keys, p) > 0,
    ensures
        exists|i: int| 0 <= i < keys.len() && prefix_of(#[trigger] keys[i]) == p,
    decreases keys.len(),
{
    if keys.len() == 0 {
        assert(keys =~= Seq::<Seq<char>>::empty());
        lemma_census_empty(p);
    } else {
        let head = keys.drop_last();
        assert(keys =~= head.push(keys.last()));
        lemma_census_push(head, keys.last(), p);
        if prefix_of(keys.last()) == p {
            assert(prefix_of(keys[keys.len() - 1]) == p);
        } else {
            lemma_census_witness(head, p);
            let i = choose|i: int| 0 <= i < head.len() && prefix_of(#[trigger] head[i]) == p;
            assert(prefix_of(keys[i]) == p);
        }
    }
}

/// The keys fall into as many groups as `group_count` says.
pub proof fn lemma_group_count(keys: Seq<Seq<char>>)
    ensures
        kept_prefixes(keys).finite(),
        key_groups(keys).len() == group_count(keys),
{
    broadcast use vstd::set::group_set_axioms;

    let runs = place_groups(keys);
    let groups = key_groups(keys);
    let heads = Seq::new(groups.len(), |g: int| group_at(keys, runs[g][0]));
    let kept = kept_prefixes(keys);
    let none = Seq::<char>::empty();
    lemma_place_groups_within(keys);
    lemma_ranked(keys);
    assert forall|g: int, h: int|
        0 <= g < heads.len() && 0 <= h < heads.len() && g != h implies heads[g] != heads[h] by {
        if g < h {
            assert(lex_lt(group_at(keys, runs[g][0]), group_at(keys, runs[h][0])));
        } else {
            assert(lex_lt(group_at(keys, runs[h][0]), group_at(keys, runs[g][0])));
        }
        lemma_lex_irreflexive(heads[g]);
    }
    heads.unique_seq_to_set();
    vstd::seq_lib::seq_to_set_is_finite(heads);
    let found = heads.to_set();
    // Every place lies in some run, so the group of every key is a head.
    assert forall|p: int| 0 <= p < keys.len() implies found.contains(group_at(keys, p)) by {
        assert(ranked(keys).contains(p));
        lemma_flatten_contains(runs, p);
        let (g, i) = choose|g: int, i: int|
            0 <= g < runs.len() && 0 <= i < runs[g].len() && runs[g][i] == p;
        assert(group_at(keys, runs[g][i]) == group_at(keys, runs[g][0]));
        assert(heads[g] == group_at(keys, p));
    }
    assert forall|x: Seq<char>| kept.contains(x) implies found.contains(x) by {
        lemma_census_witness(keys, x);
        let i = choose|i: int| 0 <= i < keys.len() && prefix_of(#[trigger] keys[i]) == x;
        assert(group_at(keys, i) == x);
    }
    assert(kept.subset_of(found));
    vstd::set_lib::lemma_len_subset(kept, found);
    assert forall|x: Seq<char>| found.contains(x) implies kept.contains(x) || (x == none
        && has_loose_key(keys)) by {
        let g = choose|g: int| 0 <= g < heads.len() && heads[g] == x;
        let p = runs[g][0];
        assert(0 <= p < keys.len());
        assert(x == group_at(keys, p));
        if x.len() == 0 {
            assert(x =~= none);
        }
    }
    if has_loose_key(keys) {
        let i = choose|i: int| 0 <= i < keys.len() && (#[trigger] group_at(keys, i)).len() == 0;
        assert(group_at(keys, i) =~= none);
        assert(found =~= kept.insert(none));
    } else {
        assert(found =~= kept);
    }
}

/// Keys written out in order are in order already: their places need no
/// rearranging.
pub proof fn lemma_ranked_again(keys: Seq<Seq<char>>)
    ensures
        ranked(pick(keys, ranked(keys))) == places(keys.len()),
{
    let order = ranked(keys);
    let again = pick(keys, order);
    let n = keys.len();
    lemma_ranked(keys);
    lemma_ranked(again);
    lemma_ranked_keys(keys);
    lemma_rank_total(again);
    assert forall|i: int, j: int| 0 <= i < j < n implies #[trigger] by_rank(again)(
        places(n)[i],
        places(n)[j],
    ) by {
        assert(by_rank(keys)(order[i], order[j]));
        assert(key_at(again, i) == key_at(keys, order[i]));
        assert(key_at(again, j) == key_at(keys, order[j]));
    }
    vstd::seq_lib::lemma_sorted_unique(places(n), ranked(again), by_rank(again));
}

/// Cutting the places of keys that were written out in order gives the
/// groups in which they were written.
proof fn lemma_cut_again(keys: Seq<Seq<char>>, m: int)
    requires
        0 <= m <= keys.len(),
    ensures
        ({
            let order = ranked(keys);
            let again = pick(keys, order);
            let a = cut(again, places(m as nat));
            let b = cut(keys, order.take(m));
            &&& a.len() == b.len()
            &&& forall|g: int| 0 <= g < a.len() ==> (#[trigger] a[g]).len() == b[g].len()
            &&& forall|g: int, i: int|
                0 <= g < a.len() && 0 <= i < a[g].len() ==> 0 <= #[trigger] a[g][i] < m && b[g][i]
                    == order[a[g][i]]
        }),
    decreases m,
{
    let order = ranked(keys);
    let again = pick(keys, order);
    lemma_ranked(keys);
    lemma_ranked_keys(keys);
    if m > 0 {
        lemma_cut_again(keys, m - 1);
        let here = places(m as nat);
        let there = order.take(m);
        assert(here.drop_last() =~= places((m - 1) as nat));
        assert(there.drop_last() =~= order.take(m - 1));
        assert(here.last() == m - 1);
        assert(there.last() == order[m - 1]);
        assert(key_at(again, m - 1) == key_at(keys, order[m - 1]));
        if m >= 2 {
            assert(here[m - 2] == m - 2);
            assert(there[m - 2] == order[m - 2]);
            assert(key_at(again, m - 2) == key_at(keys, order[m - 2]));
        }
        let a0 = cut(again, places((m - 1) as nat));
        let b0 = cut(keys, order.take(m - 1));
        let a = cut(again, here);
        let b = cut(keys, there);
        if m >= 2 && group_at(again, m - 2) == group_at(again, m - 1) {
            assert(a == a0.drop_last().push(a0.last().push(m - 1)));
            assert(b == b0.drop_last().push(b0.last().push(order[m - 1])));
            lemma_cut_never_empty(again, places((m - 1) as nat));
            assert forall|g: int, i: int| 0 <= g < a.len() && 0 <= i < a[g].len() implies 0
                <= #[trigger] a[g][i] < m && b[g][i] == order[a[g][i]] && a[g].len()
                == b[g].len() by {
                if g < a0.len() - 1 {
                    assert(a[g] == a0[g]);
                    assert(b[g] == b0[g]);
                    assert(0 <= a0[g][i] < m - 1);
                } else if i < a0[g].len() {
                    assert(a[g][i] == a0[g][i]);
                    assert(b[g][i] == b0[g][i]);
                    assert(0 <= a0[g][i] < m - 1);
                }
            }
            assert forall|g: int| 0 <= g < a.len() implies (#[trigger] a[g]).len()
                == b[g].len() by {
                if g < a0.len() - 1 {
                    assert(a[g] == a0[g]);
                    assert(b[g] == b0[g]);
                }
            }
        } else {
            assert(a == a0.push(seq![m - 1]));
            assert(b == b0.push(seq![order[m - 1]]));
            assert forall|g: int, i: int| 0 <= g < a.len() && 0 <= i < a[g].len() implies 0
                <= #[trigger] a[g][i] < m && b[g][i] == order[a[g][i]] by {
                if g < a0.len() {
                    assert(a[g] == a0[g]);
                    assert(b[g] == b0[g]);
                    assert(0 <= a0[g][i] < m - 1);
                }
            }
            assert forall|g: int| 0 <= g < a.len() implies (#[trigger] a[g]).len()
                == b[g].len() by {
                if g < a0.len() {
                    assert(a[g] == a0[g]);
                    assert(b[g] == b0[g]);
                }
            }
        }
    }
}

/// A cut of places that are not none has a run, and no run of a cut is
/// empty.
proof fn lemma_cut_never_empty(keys: Seq<Seq<char>>, order: Seq<int>)
    ensures
        order.len() > 0 ==> cut(keys, order).len() > 0,
        forall|g: int|
            0 <= g < cut(keys, order).len() ==> (#[trigger] cut(keys, order)[g]).len() > 0,
    decreases order.len(),
{
    if order.len() > 0 {
        let before = cut(keys, order.drop_last());
        let runs = cut(keys, order);
        let p = order.last();
        lemma_cut_never_empty(keys, order.drop_last());
        if order.len() >= 2 && group_at(keys, order[order.len() - 2]) == group_at(keys, p) {
            assert(runs == before.drop_last().push(before.last().push(p)));
            assert forall|g: int| 0 <= g < runs.len() implies (#[trigger] runs[g]).len() > 0 by {
                if g < before.len() - 1 {
                    assert(runs[g] == before[g]);
                }
            }
        } else {
            assert(runs == before.push(seq![p]));
            assert forall|g: int| 0 <= g < runs.len() implies (#[trigger] runs[g]).len() > 0 by {
                if g < before.len() {
                    assert(runs[g] == before[g]);
                }
            }
        }
    }
}

/// Items that were written out in groups fall into those same groups when
/// they are grouped again.
pub proof fn lemma_groups_again<T>(keys: Seq<Seq<char>>, items: Seq<T>)
    requires
        items.len() == keys.len(),
    ensures
        pick_groups(pick(items, ranked(keys)), place_groups(pick(keys, ranked(keys))))
            == pick_groups(items, place_groups(keys)),
{
    let order = ranked(keys);
    let n = keys.len() as int;
    lemma_ranked(keys);
    lemma_ranked_again(keys);
    lemma_cut_again(keys, n);
    assert(order.take(n) =~= order);
    let a = place_groups(pick(keys, order));
    let b = place_groups(keys);
    assert(pick_groups(pick(items, order), a) =~~= pick_groups(items, b)) by {
        assert forall|g: int, i: int| 0 <= g < a.len() && 0 <= i < a[g].len() implies pick(
            items,
            order,
        )[#[trigger] a[g][i]] == items[b[g][i]] by {}
    }
}

/// The prefixes that at least two keys share.
pub open spec fn shared_prefixes(keys: Seq<Seq<char>>) -> Set<Seq<char>> {
    Set::new(|p: Seq<char>| census(keys, p) >= 2)
}

/// Where some key is grouped under the empty prefix and at most one key has
/// the empty prefix itself, there is one group for each prefix that at least
/// two keys share, and one more.
pub proof fn lemma_group_count_plain(keys: Seq<Seq<char>>)
    requires
        has_loose_key(keys),
        census(keys, Seq::empty()) <= 1,
    ensures
        shared_prefixes(keys).finite(),
        key_groups(keys).len() == shared_prefixes(keys).len() + 1,
{
    lemma_group_count(keys);
    assert forall|p: Seq<char>| shared_prefixes(keys).contains(p) implies kept_prefixes(
        keys,
    ).contains(p) by {
        if p.len() == 0 {
            assert(p =~= Seq::<char>::empty());
        }
    }
    assert(shared_prefixes(keys) =~= kept_prefixes(keys));
}

/// Keys that are equal are written in the order in which they were given:
/// within a group, of two places with one key the earlier comes first.
pub proof fn lemma_equal_keys_keep_order(keys: Seq<Seq<char>>, g: int, i: int, j: int)
    requires
        0 <= g < place_groups(keys).len(),
        0 <= i < j < place_groups(keys)[g].len(),
        key_at(keys, place_groups(keys)[g][i]) == key_at(keys, place_groups(keys)[g][j]),
    ensures
        place_groups(keys)[g][i] < place_groups(keys)[g][j],
{
    let runs = place_groups(keys);
    lemma_place_groups_within(keys);
    lemma_ranked(keys);
    assert(stands_before(keys, runs[g][i], runs[g][j]));
    if runs[g][i] == runs[g][j] {
        // One place cannot stand in the order twice.
        let order = ranked(keys);
        lemma_rank_total(keys);
        places(keys.len()).lemma_multiset_has_no_duplicates();
        order.lemma_multiset_has_no_duplicates_conv();
        lemma_run_places_differ(runs, g, i, j);
    }
}

/// Where the runs put end to end hold no place twice, neither does a run.
proof fn lemma_run_places_differ(runs: Seq<Seq<int>>, g: int, i: int, j: int)
    requires
        runs.flatten().no_duplicates(),
        0 <= g < runs.len(),
        0 <= i < j < runs[g].len(),
    ensures
        runs[g][i] != runs[g][j],
    decreases runs.len(),
{
    let head = runs.drop_last();
    let last = runs.last();
    assert(runs =~= head.push(last));
    head.lemma_flatten_push(last);
    let flat = runs.flatten();
    let n = head.flatten().len() as int;
    if g == runs.len() - 1 {
        assert(flat[n + i] == last[i]);
        assert(flat[n + j] == last[j]);
    } else {
        assert(head.flatten().no_duplicates()) by {
            assert forall|a: int, b: int|
                0 <= a < n && 0 <= b < n && a != b implies head.flatten()[a]
                != head.flatten()[b] by {
                assert(flat[a] == head.flatten()[a]);
                assert(flat[b] == head.flatten()[b]);
            }
        }
        lemma_run_places_differ(head, g, i, j);
    }
}

/// `groups` are in the order of `is_grouping`, whatever keys they hold: no
/// group is empty, the keys of a group are grouped under one prefix, these
/// prefixes rise strictly from group to group, and the keys of a group rise.
pub open spec fn is_ordered(keys: Seq<Seq<char>>, groups: Seq<Seq<Seq<char>>>) -> bool {
    &&& forall|g: int| 0 <= g < groups.len() ==> (#[trigger] groups[g]).len() > 0
    &&& forall|g: int, i: int|
        0 <= g < groups.len() && 0 <= i < groups[g].len() ==> group_key(
            keys,
            #[trigger] groups[g][i],
        ) == group_key(keys, groups[g][0])
    &&& forall|g: int, h: int|
        #![trigger groups[g], groups[h]]
        0 <= g < h < groups.len() ==> lex_lt(
            group_key(keys, groups[g][0]),
            group_key(keys, groups[h][0]),
        )
    &&& forall|g: int, i: int, j: int|
        #![trigger groups[g][i], groups[g][j]]
        0 <= g < groups.len() && 0 <= i <= j < groups[g].len() ==> lex_le(
            groups[g][i],
            groups[g][j],
        )
}

/// Key `a` is written no later than key `b`: its group comes first, or
/// within one group it comes first or is `b`.
pub open spec fn key_before(keys: Seq<Seq<char>>, a: Seq<char>, b: Seq<char>) -> bool {
    if group_key(keys, a) != group_key(keys, b) {
        lex_lt(group_key(keys, a), group_key(keys, b))
    } else {
        lex_le(a, b)
    }
}

/// `key_before` as a relation on keys.
pub open spec fn by_key_rank(keys: Seq<Seq<char>>) -> spec_fn(Seq<char>, Seq<char>) -> bool {
    |a: Seq<char>, b: Seq<char>| key_before(keys, a, b)
}

/// `key_before` orders all keys.
pub proof fn lemma_key_rank_total(keys: Seq<Seq<char>>)
    ensures
        total_ordering(by_key_rank(keys)),
{
    let r = by_key_rank(keys);
    assert forall|a: Seq<char>| #[trigger] r(a, a) by {}
    assert forall|a: Seq<char>, b: Seq<char>| #[trigger] r(a, b) && #[trigger] r(b, a) implies a
        == b by {
        lemma_lex_asymmetric(group_key(keys, a), group_key(keys, b));
        lemma_lex_asymmetric(a, b);
    }
    assert forall|a: Seq<char>, b: Seq<char>| #[trigger] r(a, b) || #[trigger] r(b, a) by {
        lemma_lex_total(group_key(keys, a), group_key(keys, b));
        lemma_lex_total(a, b);
    }
    assert forall|a: Seq<char>, b: Seq<char>, c: Seq<char>| #[trigger]
        r(a, b) && #[trigger] r(b, c) implies r(a, c) by {
        let (ga, gb, gc) = (group_key(keys, a), group_key(keys, b), group_key(keys, c));
        lemma_lex_asymmetric(ga, gb);
        lemma_lex_irreflexive(ga);
        if ga != gb && gb != gc {
            lemma_lex_transitive(ga, gb, gc);
            lemma_lex_asymmetric(ga, gc);
        } else if ga == gb && gb == gc {
            lemma_lex_le_order(a, b, c);
        }
    }
}

/// What is ordered stays ordered without its last group.
proof fn lemma_ordered_head(keys: Seq<Seq<char>>, groups: Seq<Seq<Seq<char>>>)
    requires
        is_ordered(keys, groups),
        groups.len() > 0,
    ensures
        is_ordered(keys, groups.drop_last()),
{
    let head = groups.drop_last();
    assert forall|g: int| 0 <= g < head.len() implies (#[trigger] head[g]) == groups[g] by {}
    assert forall|g: int, h: int|
        #![trigger head[g], head[h]]
        0 <= g < h < head.len() implies lex_lt(
        group_key(keys, head[g][0]),
        group_key(keys, head[h][0]),
    ) by {
        assert(head[g] == groups[g]);
        assert(head[h] == groups[h]);
    }
    assert forall|g: int, i: int, j: int|
        #![trigger head[g][i], head[g][j]]
        0 <= g < head.len() && 0 <= i <= j < head[g].len() implies lex_le(
        head[g][i],
        head[g][j],
    ) by {
        assert(lex_le(groups[g][i], groups[g][j]));
    }
}

/// Every key of the earlier groups is grouped under a prefix that comes
/// before the prefix of the last group.
proof fn lemma_head_below_last(keys: Seq<Seq<char>>, groups: Seq<Seq<Seq<char>>>, x: int)
    requires
        is_ordered(keys, groups),
        groups.len() > 0,
        0 <= x < groups.drop_last().flatten().len(),
    ensures
        lex_lt(
            group_key(keys, groups.drop_last().flatten()[x]),
            group_key(keys, groups.last()[0]),
        ),
{
    let head = groups.drop_last();
    let a = head.flatten()[x];
    assert(head.flatten().contains(a));
    lemma_flatten_contains(head, a);
    let (g, i) = choose|g: int, i: int|
        0 <= g < head.len() && 0 <= i < head[g].len() && head[g][i] == a;
    assert(head[g] == groups[g]);
    assert(group_key(keys, groups[g][i]) == group_key(keys, groups[g][0]));
    assert(groups.last() == groups[groups.len() - 1]);
}

/// Ordered groups put end to end are sorted.
proof fn lemma_ordered_flat(keys: Seq<Seq<char>>, groups: Seq<Seq<Seq<char>>>)
    requires
        is_ordered(keys, groups),
    ensures
        sorted_by(groups.flatten(), by_key_rank(keys)),
    decreases groups.len(),
{
    if groups.len() > 0 {
        let head = groups.drop_last();
        let last = groups.last();
        lemma_ordered_head(keys, groups);
        lemma_ordered_flat(keys, head);
        assert(groups =~= head.push(last));
        head.lemma_flatten_push(last);
        let flat = groups.flatten();
        let n = head.flatten().len() as int;
        assert(last == groups[groups.len() - 1]);
        assert forall|x: int, y: int| 0 <= x < y < flat.len() implies #[trigger] by_key_rank(
            keys,
        )(flat[x], flat[y]) by {
            if y < n {
                assert(by_key_rank(keys)(head.flatten()[x], head.flatten()[y]));
            } else if x >= n {
                assert(lex_le(last[x - n], last[y - n]));
                assert(group_key(keys, last[x - n]) == group_key(keys, last[0]));
                assert(group_key(keys, last[y - n]) == group_key(keys, last[0]));
            } else {
                lemma_head_below_last(keys, groups, x);
                assert(group_key(keys, last[y - n]) == group_key(keys, last[0]));
                lemma_lex_irreflexive(group_key(keys, last[0]));
            }
        }
    } else {
        assert(groups.flatten() =~= Seq::<Seq<char>>::empty());
    }
}

/// Ordered groups that are the same when put end to end are the same.
proof fn lemma_same_flat(keys: Seq<Seq<char>>, a: Seq<Seq<Seq<char>>>, b: Seq<Seq<Seq<char>>>)
    requires
        is_ordered(keys, a),
        is_ordered(keys, b),
        a.flatten() == b.flatten(),
    ensures
        a == b,
    decreases a.len(),
{
    if a.len() == 0 || b.len() == 0 {
        if a.len() > 0 {
            assert(a =~= a.drop_last().push(a.last()));
            a.drop_last().lemma_flatten_push(a.last());
            assert(a[a.len() - 1].len() > 0);
        }
        if b.len() > 0 {
            assert(b =~= b.drop_last().push(b.last()));
            b.drop_last().lemma_flatten_push(b.last());
            assert(b[b.len() - 1].len() > 0);
        }
        assert(a.flatten().len() == 0 || b.flatten().len() == 0);
        assert(a =~= b);
    } else {
        let (ah, al) = (a.drop_last(), a.last());
        let (bh, bl) = (b.drop_last(), b.last());
        assert(a =~= ah.push(al));
        assert(b =~= bh.push(bl));
        ah.lemma_flatten_push(al);
        bh.lemma_flatten_push(bl);
        let flat = a.flatten();
        let na = ah.flatten().len() as int;
        let nb = bh.flatten().len() as int;
        assert(al == a[a.len() - 1] && bl == b[b.len() - 1]);
        assert(al.len() > 0 && bl.len() > 0);
        let top = group_key(keys, flat.last());
        assert(flat.last() == al[al.len() - 1] && flat.last() == bl[bl.len() - 1]);
        assert(top == group_key(keys, al[0]) && top == group_key(keys, bl[0]));
        lemma_lex_irreflexive(top);
        if na < nb {
            assert(flat[na] == al[0]);
            lemma_head_below_last(keys, b, na);
            assert(bh.flatten()[na] == flat[na]);
        } else if nb < na {
            assert(flat[nb] == bl[0]);
            lemma_head_below_last(keys, a, nb);
            assert(ah.flatten()[nb] == flat[nb]);
        }
        assert(al =~= bl) by {
            assert forall|i: int| 0 <= i < al.len() implies al[i] == bl[i] by {
                assert(flat[na + i] == al[i]);
                assert(flat[nb + i] == bl[i]);
            }
        }
        assert(ah.flatten() =~= bh.flatten()) by {
            assert forall|i: int| 0 <= i < na implies ah.flatten()[i] == bh.flatten()[i] by {
                assert(flat[i] == ah.flatten()[i]);
                assert(flat[i] == bh.flatten()[i]);
            }
        }
        lemma_ordered_head(keys, a);
        lemma_ordered_head(keys, b);
        lemma_same_flat(keys, ah, bh);
    }
}

/// There is one way only to group and sort `keys`: groups that are as
/// `is_grouping` says are the groups of `keys`.
pub proof fn lemma_grouping_unique(keys: Seq<Seq<char>>, groups: Seq<Seq<Seq<char>>>)
    requires
        is_grouping(keys, groups),
    ensures
        groups == key_groups(keys),
{
    let ours = key_groups(keys);
    lemma_key_groups(keys);
    lemma_ordered_flat(keys, groups);
    lemma_ordered_flat(keys, ours);
    lemma_key_rank_total(keys);
    vstd::seq_lib::lemma_sorted_unique(groups.flatten(), ours.flatten(), by_key_rank(keys));
    lemma_same_flat(keys, groups, ours);
}

} // verus!
