//! Grouping keys by prefix.
//!
//! The prefix of a key is what stands before its first underscore. Keys whose
//! prefix is shared by at least one other key form a group under that prefix;
//! all other keys fall into the group of the empty prefix. Groups come out in
//! dictionary order of their prefix, and the keys of a group in dictionary
//! order, keys that are equal in the order in which they were given.

use vstd::prelude::*;
use vstd::multiset::Multiset;
use vstd::relations::{sorted_by, total_ordering};
use crate::order::{
    lemma_lex_asymmetric, lemma_lex_irreflexive, lemma_lex_total, lemma_lex_transitive,
    lex_compare, lex_lt, Rank,
};
use crate::text::{chars_of, find_char, position};
use crate::group_facts::{group_count, is_grouping, lemma_group_count, lemma_key_groups};
use vstd::slice::slice_subrange;

verus! {

/// What stands before the first underscore of `key`; empty where `key` has
/// no underscore.
pub open spec fn prefix_of(key: Seq<char>) -> Seq<char> {
    let i = position(key, '_');
    if i < key.len() {
        key.take(i)
    } else {
        Seq::empty()
    }
}

/// The test "has prefix `p`".
pub open spec fn with_prefix(p: Seq<char>) -> spec_fn(Seq<char>) -> bool {
    |k: Seq<char>| prefix_of(k) == p
}

/// How many of `keys` have the prefix `p`, a key counted as often as it occurs.
pub open spec fn census(keys: Seq<Seq<char>>, p: Seq<char>) -> nat {
    keys.to_multiset().filter(with_prefix(p)).len()
}

/// The prefix under which `key` is grouped among `keys`: its own prefix where
/// at least two of `keys` have it, the empty prefix otherwise.
pub open spec fn group_key(keys: Seq<Seq<char>>, key: Seq<char>) -> Seq<char> {
    if census(keys, prefix_of(key)) <= 1 {
        Seq::empty()
    } else {
        prefix_of(key)
    }
}

/// The key at place `p` of `keys`; empty outside of `keys`.
pub open spec fn key_at(keys: Seq<Seq<char>>, p: int) -> Seq<char> {
    if 0 <= p < keys.len() {
        keys[p]
    } else {
        Seq::empty()
    }
}

/// The prefix under which the key at place `p` is grouped.
pub open spec fn group_at(keys: Seq<Seq<char>>, p: int) -> Seq<char> {
    group_key(keys, key_at(keys, p))
}

/// Place `a` is written no later than place `b`: its group comes first, or
/// within one group its key comes first, or with equal keys it is the
/// earlier place.
pub open spec fn stands_before(keys: Seq<Seq<char>>, a: int, b: int) -> bool {
    if group_at(keys, a) != group_at(keys, b) {
        lex_lt(group_at(keys, a), group_at(keys, b))
    } else if key_at(keys, a) != key_at(keys, b) {
        lex_lt(key_at(keys, a), key_at(keys, b))
    } else {
        a <= b
    }
}

/// `stands_before` as a relation on places.
pub open spec fn by_rank(keys: Seq<Seq<char>>) -> spec_fn(int, int) -> bool {
    |a: int, b: int| stands_before(keys, a, b)
}

/// The places `0, 1, ..` below `n`.
pub open spec fn places(n: nat) -> Seq<int> {
    Seq::new(n, |i: int| i)
}

/// The places of `keys` in the order in which they are written.
pub open spec fn ranked(keys: Seq<Seq<char>>) -> Seq<int> {
    places(keys.len()).sort_by(by_rank(keys))
}

/// Cuts `order` into runs of places that are grouped under one prefix.
pub open spec fn cut(keys: Seq<Seq<char>>, order: Seq<int>) -> Seq<Seq<int>>
    decreases order.len(),
{
    if order.len() == 0 {
        Seq::empty()
    } else {
        let before = cut(keys, order.drop_last());
        let p = order.last();
        if order.len() >= 2 && group_at(keys, order[order.len() - 2]) == group_at(keys, p) {
            before.drop_last().push(before.last().push(p))
        } else {
            before.push(seq![p])
        }
    }
}

/// The groups of `keys`, each as the places of its keys.
pub open spec fn place_groups(keys: Seq<Seq<char>>) -> Seq<Seq<int>> {
    cut(keys, ranked(keys))
}

/// The items that stand at `at`, in that order.
pub open spec fn pick<T>(items: Seq<T>, at: Seq<int>) -> Seq<T> {
    Seq::new(at.len(), |i: int| items[at[i]])
}

/// The items that stand at the places of each group.
pub open spec fn pick_groups<T>(items: Seq<T>, groups: Seq<Seq<int>>) -> Seq<Seq<T>> {
    Seq::new(groups.len(), |g: int| pick(items, groups[g]))
}

/// The groups of `keys`.
pub open spec fn key_groups(keys: Seq<Seq<char>>) -> Seq<Seq<Seq<char>>> {
    pick_groups(keys, place_groups(keys))
}

/// One more key raises the census of its own prefix by one and leaves every
/// other census as it was.
pub proof fn lemma_census_push(keys: Seq<Seq<char>>, key: Seq<char>, p: Seq<char>)
    ensures
        census(keys.push(key), p) == census(keys, p) + if prefix_of(key) == p {
            1nat
        } else {
            0nat
        },
{
    broadcast use vstd::multiset::group_multiset_axioms;

    let f = with_prefix(p);
    let m = keys.to_multiset();
    vstd::seq_lib::to_multiset_build(keys, key);
    assert(keys.push(key).to_multiset() == m.insert(key));
    if prefix_of(key) == p {
        assert(m.insert(key).filter(f) =~= m.filter(f).insert(key));
    } else {
        assert(m.insert(key).filter(f) =~= m.filter(f));
    }
}

/// No key, no census.
pub proof fn lemma_census_empty(p: Seq<char>)
    ensures
        census(Seq::<Seq<char>>::empty(), p) == 0,
{
    broadcast use vstd::multiset::group_multiset_axioms;

    let m = Seq::<Seq<char>>::empty().to_multiset();
    vstd::seq_lib::to_multiset_len(Seq::<Seq<char>>::empty());
    assert(m.len() == 0);
    assert(m.filter(with_prefix(p)) =~= Multiset::<Seq<char>>::empty());
}

/// `stands_before` orders all places: any two compare, and two that stand
/// before each other are one place.
pub proof fn lemma_rank_total(keys: Seq<Seq<char>>)
    ensures
        total_ordering(by_rank(keys)),
{
    let r = by_rank(keys);
    assert forall|a: int| #[trigger] r(a, a) by {}
    assert forall|a: int, b: int| #[trigger] r(a, b) && #[trigger] r(b, a) implies a == b by {
        lemma_lex_asymmetric(group_at(keys, a), group_at(keys, b));
        lemma_lex_asymmetric(key_at(keys, a), key_at(keys, b));
    }
    assert forall|a: int, b: int| #[trigger] r(a, b) || #[trigger] r(b, a) by {
        lemma_lex_total(group_at(keys, a), group_at(keys, b));
        lemma_lex_total(key_at(keys, a), key_at(keys, b));
    }
    assert forall|a: int, b: int, c: int| #[trigger] r(a, b) && #[trigger] r(b, c) implies r(
        a,
        c,
    ) by {
        lemma_stands_before_transitive(keys, a, b, c);
    }
}

/// `stands_before` is transitive.
pub proof fn lemma_stands_before_transitive(keys: Seq<Seq<char>>, a: int, b: int, c: int)
    requires
        stands_before(keys, a, b),
        stands_before(keys, b, c),
    ensures
        stands_before(keys, a, c),
{
    let (ga, gb, gc) = (group_at(keys, a), group_at(keys, b), group_at(keys, c));
    let (ka, kb, kc) = (key_at(keys, a), key_at(keys, b), key_at(keys, c));
    lemma_lex_asymmetric(ga, gb);
    lemma_lex_asymmetric(ka, kb);
    if ga != gb && gb != gc {
        lemma_lex_transitive(ga, gb, gc);
        lemma_lex_asymmetric(ga, gc);
        lemma_lex_irreflexive(ga);
    } else if ga == gb && gb == gc {
        if ka != kb && kb != kc {
            lemma_lex_transitive(ka, kb, kc);
            lemma_lex_irreflexive(ka);
        }
    }
}

/// The keys that `keys` holds, each as its characters.
pub open spec fn rows(keys: Seq<Vec<char>>) -> Seq<Seq<char>> {
    keys.map_values(|k: Vec<char>| k@)
}

/// Places as a program counts them, read as numbers.
pub open spec fn as_places(order: Seq<usize>) -> Seq<int> {
    order.map_values(|p: usize| p as int)
}

/// Groups of places as a program holds them, read as numbers.
pub open spec fn as_place_groups(groups: Seq<Vec<usize>>) -> Seq<Seq<int>> {
    Seq::new(groups.len(), |g: int| as_places(groups[g]@))
}

/// `lens` gives for each key the length of the prefix under which it is
/// grouped.
pub open spec fn group_lens_of(keys: Seq<Vec<char>>, lens: Seq<usize>) -> bool {
    &&& lens.len() == keys.len()
    &&& forall|i: int|
        0 <= i < keys.len() ==> (#[trigger] lens[i]) <= keys[i]@.len() && group_at(rows(keys), i)
            == keys[i]@.take(lens[i] as int)
}

/// The length of the prefix of `key`.
pub fn prefix_len(key: &[char]) -> (n: usize)
    ensures
        n <= key@.len(),
        prefix_of(key@) == key@.take(n as int),
{
    let i = find_char(key, '_');
    if i < key.len() {
        i
    } else {
        assert(key@.take(0) =~= Seq::<char>::empty());
        0
    }
}

/// For each key, the length of the prefix under which it is grouped.
pub fn group_lens(keys: &Vec<Vec<char>>) -> (lens: Vec<usize>)
    ensures
        group_lens_of(keys@, lens@),
{
    let ghost all = rows(keys@);
    let n = keys.len();
    let mut own: Vec<usize> = Vec::new();
    let mut i: usize = 0;
    while i < n
        invariant
            n == keys.len(),
            i <= n,
            own.len() == i,
            forall|j: int|
                0 <= j < i ==> (#[trigger] own[j]) <= keys[j]@.len() && prefix_of(keys[j]@)
                    == keys[j]@.take(own[j] as int),
        decreases n - i,
    {
        let len = prefix_len(keys[i].as_slice());
        own.push(len);
        i = i + 1;
    }
    let mut lens: Vec<usize> = Vec::new();
    let mut i: usize = 0;
    while i < n
        invariant
            n == keys.len(),
            all == rows(keys@),
            i <= n,
            own.len() == n,
            lens.len() == i,
            forall|j: int|
                0 <= j < n ==> (#[trigger] own[j]) <= keys[j]@.len() && prefix_of(keys[j]@)
                    == keys[j]@.take(own[j] as int),
            forall|j: int|
                0 <= j < i ==> (#[trigger] lens[j]) <= keys[j]@.len() && group_at(all, j)
                    == keys[j]@.take(lens[j] as int),
        decreases n - i,
    {
        let mine = slice_subrange(keys[i].as_slice(), 0, own[i]);
        let mut count: usize = 0;
        let mut j: usize = 0;
        proof {
            lemma_census_empty(mine@);
            assert(all.take(0) =~= Seq::<Seq<char>>::empty());
        }
        while j < n
            invariant
                n == keys.len(),
                all == rows(keys@),
                i < n,
                j <= n,
                own.len() == n,
                mine@ == prefix_of(keys[i as int]@),
                forall|j: int|
                    0 <= j < n ==> (#[trigger] own[j]) <= keys[j]@.len() && prefix_of(keys[j]@)
                        == keys[j]@.take(own[j] as int),
                count <= j,
                count == census(all.take(j as int), mine@),
            decreases n - j,
        {
            let theirs = slice_subrange(keys[j].as_slice(), 0, own[j]);
            proof {
                lemma_census_push(all.take(j as int), all[j as int], mine@);
                assert(all.take(j as int).push(all[j as int]) =~= all.take(j + 1));
            }
            if lex_compare(theirs, mine) == Rank::Same {
                count = count + 1;
            }
            j = j + 1;
        }
        assert(all.take(n as int) =~= all);
        if count <= 1 {
            assert(keys[i as int]@.take(0) =~= Seq::<char>::empty());
            lens.push(0);
        } else {
            lens.push(own[i]);
        }
        i = i + 1;
    }
    lens
}

/// Place `a` is written strictly before place `b` whatever their places are:
/// its group comes first, or within one group its key comes first.
pub open spec fn outranks(keys: Seq<Seq<char>>, a: int, b: int) -> bool {
    if group_at(keys, a) != group_at(keys, b) {
        lex_lt(group_at(keys, a), group_at(keys, b))
    } else {
        lex_lt(key_at(keys, a), key_at(keys, b))
    }
}

/// Of two places where neither outranks the other, the earlier stands before
/// the later.
pub proof fn lemma_not_outranked(keys: Seq<Seq<char>>, a: int, b: int)
    requires
        !outranks(keys, b, a),
        a <= b,
    ensures
        stands_before(keys, a, b),
{
    lemma_lex_total(group_at(keys, a), group_at(keys, b));
    lemma_lex_total(key_at(keys, a), key_at(keys, b));
}

/// A place that outranks another stands before it.
pub proof fn lemma_outranks(keys: Seq<Seq<char>>, a: int, b: int)
    requires
        outranks(keys, a, b),
    ensures
        stands_before(keys, a, b),
{
    lemma_lex_irreflexive(key_at(keys, a));
}

/// Putting `x` into a sorted sequence, behind all that stand before it and
/// ahead of all that it stands before, leaves the sequence sorted.
pub proof fn lemma_insert_sorted(s: Seq<int>, at: int, x: int, leq: spec_fn(int, int) -> bool)
    requires
        sorted_by(s, leq),
        0 <= at <= s.len(),
        forall|i: int| 0 <= i < at ==> leq(#[trigger] s[i], x),
        forall|i: int| at <= i < s.len() ==> leq(x, #[trigger] s[i]),
    ensures
        sorted_by(s.insert(at, x), leq),
{
    let t = s.insert(at, x);
    s.insert_ensures(at, x);
    assert forall|i: int, j: int| 0 <= i < j < t.len() implies #[trigger] leq(t[i], t[j]) by {
        if j < at {
            assert(leq(s[i], s[j]));
        } else if j == at {
            assert(leq(s[i], x));
        } else if i < at {
            assert(leq(s[i], s[j - 1]));
        } else if i == at {
            assert(leq(x, s[j - 1]));
        } else {
            assert(leq(s[i - 1], s[j - 1]));
        }
    }
}

/// Tells whether the key at place `a` is written strictly before the key at
/// place `b` whatever their places are.
fn place_outranks(keys: &Vec<Vec<char>>, lens: &Vec<usize>, a: usize, b: usize) -> (r: bool)
    requires
        group_lens_of(keys@, lens@),
        a < keys.len(),
        b < keys.len(),
    ensures
        r == outranks(rows(keys@), a as int, b as int),
{
    let ga = slice_subrange(keys[a].as_slice(), 0, lens[a]);
    let gb = slice_subrange(keys[b].as_slice(), 0, lens[b]);
    match lex_compare(ga, gb) {
        Rank::Before => true,
        Rank::After => {
            proof {
                lemma_lex_asymmetric(ga@, gb@);
            }
            false
        },
        Rank::Same => {
            let r = lex_compare(keys[a].as_slice(), keys[b].as_slice());
            proof {
                lemma_lex_irreflexive(keys[a as int]@);
            }
            r == Rank::Before
        },
    }
}

/// Tells whether the keys at places `a` and `b` are grouped under one prefix.
fn same_group(keys: &Vec<Vec<char>>, lens: &Vec<usize>, a: usize, b: usize) -> (r: bool)
    requires
        group_lens_of(keys@, lens@),
        a < keys.len(),
        b < keys.len(),
    ensures
        r == (group_at(rows(keys@), a as int) == group_at(rows(keys@), b as int)),
{
    let ga = slice_subrange(keys[a].as_slice(), 0, lens[a]);
    let gb = slice_subrange(keys[b].as_slice(), 0, lens[b]);
    lex_compare(ga, gb) == Rank::Same
}

/// The places of `keys` in the order in which they are written.
fn rank_places(keys: &Vec<Vec<char>>, lens: &Vec<usize>) -> (order: Vec<usize>)
    requires
        group_lens_of(keys@, lens@),
    ensures
        as_places(order@) == ranked(rows(keys@)),
        forall|i: int| 0 <= i < order.len() ==> (#[trigger] order[i]) < keys.len(),
{
    let ghost all = rows(keys@);
    let n = keys.len();
    let mut order: Vec<usize> = Vec::new();
    let mut next: usize = 0;
    proof {
        assert(as_places(order@) =~= places(0));
    }
    while next < n
        invariant
            n == keys.len(),
            all == rows(keys@),
            group_lens_of(keys@, lens@),
            next <= n,
            order.len() == next,
            forall|i: int| 0 <= i < order.len() ==> (#[trigger] order[i]) < next,
            sorted_by(as_places(order@), by_rank(all)),
            as_places(order@).to_multiset() == places(next as nat).to_multiset(),
        decreases n - next,
    {
        let mut at: usize = 0;
        while at < order.len() && !place_outranks(keys, lens, next, order[at])
            invariant
                n == keys.len(),
                all == rows(keys@),
                group_lens_of(keys@, lens@),
                next < n,
                at <= order.len(),
                forall|i: int| 0 <= i < order.len() ==> (#[trigger] order[i]) < next,
                forall|i: int|
                    0 <= i < at ==> !outranks(all, next as int, #[trigger] order[i] as int),
            decreases order.len() - at,
        {
            at = at + 1;
        }
        proof {
            let s = as_places(order@);
            let leq = by_rank(all);
            assert forall|i: int| 0 <= i < at implies leq(#[trigger] s[i], next as int) by {
                lemma_not_outranked(all, order[i] as int, next as int);
            }
            assert forall|i: int| at <= i < s.len() implies leq(next as int, #[trigger] s[i]) by {
                lemma_outranks(all, next as int, s[at as int]);
                if at < i {
                    assert(leq(s[at as int], s[i]));
                    lemma_stands_before_transitive(all, next as int, s[at as int], s[i]);
                }
            }
            lemma_insert_sorted(s, at as int, next as int, leq);
            vstd::seq_lib::to_multiset_insert(s, at as int, next as int);
            vstd::seq_lib::to_multiset_build(places(next as nat), next as int);
            assert(places(next as nat).push(next as int) =~= places((next + 1) as nat));
            assert(as_places(order@.insert(at as int, next)) =~= s.insert(at as int, next as int));
        }
        order.insert(at, next);
        next = next + 1;
    }
    proof {
        lemma_rank_total(all);
        places(n as nat).lemma_sort_by_ensures(by_rank(all));
        vstd::seq_lib::lemma_sorted_unique(as_places(order@), ranked(all), by_rank(all));
    }
    order
}

/// Cuts `order` into runs of places that are grouped under one prefix.
fn cut_places(keys: &Vec<Vec<char>>, lens: &Vec<usize>, order: &Vec<usize>) -> (groups: Vec<
    Vec<usize>,
>)
    requires
        group_lens_of(keys@, lens@),
        forall|i: int| 0 <= i < order.len() ==> (#[trigger] order[i]) < keys.len(),
    ensures
        as_place_groups(groups@) == cut(rows(keys@), as_places(order@)),
        forall|g: int, i: int|
            0 <= g < groups.len() && 0 <= i < groups[g].len() ==> (#[trigger] groups[g][i])
                < keys.len(),
{
    let ghost all = rows(keys@);
    let ghost full = as_places(order@);
    let mut groups: Vec<Vec<usize>> = Vec::new();
    let mut i: usize = 0;
    proof {
        assert(full.take(0) =~= Seq::<int>::empty());
        assert(as_place_groups(groups@) =~= cut(all, full.take(0)));
    }
    while i < order.len()
        invariant
            all == rows(keys@),
            full == as_places(order@),
            group_lens_of(keys@, lens@),
            forall|j: int| 0 <= j < order.len() ==> (#[trigger] order[j]) < keys.len(),
            i <= order.len(),
            as_place_groups(groups@) == cut(all, full.take(i as int)),
            i > 0 ==> groups.len() > 0,
            forall|g: int, j: int|
                0 <= g < groups.len() && 0 <= j < groups[g].len() ==> (#[trigger] groups[g][j])
                    < keys.len(),
        decreases order.len() - i,
    {
        let p = order[i];
        let ghost seen = full.take(i as int);
        let ghost before = as_place_groups(groups@);
        proof {
            assert(full.take(i + 1).drop_last() =~= seen);
            assert(full.take(i + 1).last() == p as int);
            if i > 0 {
                assert(full.take(i + 1)[i - 1] == order[i - 1] as int);
            }
        }
        if i > 0 && same_group(keys, lens, order[i - 1], p) {
            let mut last = groups.pop().unwrap();
            last.push(p);
            groups.push(last);
            proof {
                assert(as_place_groups(groups@) =~~= before.drop_last().push(
                    before.last().push(p as int),
                ));
            }
        } else {
            let mut fresh: Vec<usize> = Vec::new();
            fresh.push(p);
            groups.push(fresh);
            proof {
                assert(as_place_groups(groups@) =~~= before.push(seq![p as int]));
            }
        }
        i = i + 1;
    }
    proof {
        assert(full.take(order.len() as int) =~= full);
    }
    groups
}

/// The groups of `keys`, each as the places of its keys.
pub fn group_places(keys: &Vec<Vec<char>>) -> (groups: Vec<Vec<usize>>)
    ensures
        as_place_groups(groups@) == place_groups(rows(keys@)),
        forall|g: int, i: int|
            0 <= g < groups.len() && 0 <= i < groups[g].len() ==> (#[trigger] groups[g][i])
                < keys.len(),
{
    let lens = group_lens(keys);
    let order = rank_places(keys, &lens);
    cut_places(keys, &lens, &order)
}

/// The characters of each key.
pub fn key_chars(keys: &Vec<String>) -> (chars: Vec<Vec<char>>)
    ensures
        rows(chars@) == keys.deep_view(),
{
    let mut chars: Vec<Vec<char>> = Vec::new();
    let mut i: usize = 0;
    while i < keys.len()
        invariant
            i <= keys.len(),
            chars.len() == i,
            forall|j: int| 0 <= j < i ==> (#[trigger] chars[j])@ == keys[j]@,
        decreases keys.len() - i,
    {
        chars.push(chars_of(keys[i].as_str()));
        i = i + 1;
    }
    assert(rows(chars@) =~= keys.deep_view());
    chars
}

/// Groups `keys` by prefix and sorts them: the groups in dictionary order of
/// their prefix, the keys of each group in dictionary order.
///
/// A key whose prefix no other key shares belongs to the group of the empty
/// prefix, as do the keys without an underscore. A key that is given twice
/// comes out twice. No group is empty: where no key falls under the empty
/// prefix, that group is left out.
pub fn sort_by_prefix(keys: Vec<String>) -> (groups: Vec<Vec<String>>)
    ensures
        groups.deep_view() == key_groups(keys.deep_view()),
        is_grouping(keys.deep_view(), groups.deep_view()),
        groups.len() == group_count(keys.deep_view()),
{
    let chars = key_chars(&keys);
    let at = group_places(&chars);
    let ghost want = key_groups(keys.deep_view());
    let mut groups: Vec<Vec<String>> = Vec::new();
    let mut g: usize = 0;
    while g < at.len()
        invariant
            rows(chars@) == keys.deep_view(),
            chars.len() == keys.len(),
            as_place_groups(at@) == place_groups(rows(chars@)),
            want == key_groups(keys.deep_view()),
            forall|g: int, i: int|
                0 <= g < at.len() && 0 <= i < at[g].len() ==> (#[trigger] at[g][i]) < keys.len(),
            g <= at.len(),
            groups.len() == g,
            forall|h: int| 0 <= h < g ==> (#[trigger] groups[h]).deep_view() == want[h],
        decreases at.len() - g,
    {
        let mut group: Vec<String> = Vec::new();
        let mut i: usize = 0;
        assert(as_place_groups(at@)[g as int] == as_places(at[g as int]@));
        while i < at[g].len()
            invariant
                g < at.len(),
                forall|g: int, i: int|
                    0 <= g < at.len() && 0 <= i < at[g].len() ==> (#[trigger] at[g][i])
                        < keys.len(),
                i <= at[g as int].len(),
                group.len() == i,
                forall|j: int|
                    0 <= j < i ==> (#[trigger] group[j])@ == keys[at[g as int][j] as int]@,
            decreases at[g as int].len() - i,
        {
            group.push(keys[at[g][i]].clone());
            i = i + 1;
        }
        assert(group.deep_view() =~= want[g as int]);
        groups.push(group);
        g = g + 1;
    }
    assert(groups.deep_view() =~= want);
    proof {
        lemma_key_groups(keys.deep_view());
        lemma_group_count(keys.deep_view());
    }
    groups
}

} // verus!
