//! What a stable sort by key is: the positions of a list ordered by key and, among tied
//! keys, by position.

use crate::order::lawful;
use crate::order::lemma_not_precedes_transitive;
use crate::order::lemma_precedes_asymmetric;
use crate::order::lemma_precedes_transitive;
use crate::order::precedes;
use vstd::prelude::*;
use vstd::relations::sorted_by;
use vstd::relations::total_ordering;
use vstd::seq_lib::lemma_sorted_unique;
use vstd::set_lib::lemma_int_range;
use vstd::set_lib::lemma_subset_equality;
use vstd::set_lib::set_int_range;

verus! {

/// The positions `0, 1, .., n - 1` in order.
pub open spec fn iota(n: nat) -> Seq<int> {
    Seq::new(n, |i: int| i)
}

/// Position `i` may stand before position `j` in a stable sort of a list with these
/// keys: its key is ahead, or the keys are tied and `i` is not the later position.
pub open spec fn rank_le<K: Ord>(keys: Seq<K>, rev: bool) -> spec_fn(int, int) -> bool {
    |i: int, j: int|
        precedes(keys[i], keys[j], rev) || (!precedes(keys[j], keys[i], rev) && i <= j)
}

/// The positions of a list with the given keys, in the order a stable sort visits them.
pub open spec fn stable_order<K: Ord>(keys: Seq<K>, rev: bool) -> Seq<int> {
    iota(keys.len()).sort_by(rank_le(keys, rev))
}

/// The list `items`, whose `i`-th item has key `keys[i]`, stably sorted by key.
pub open spec fn stable_sort<T, K: Ord>(items: Seq<T>, keys: Seq<K>, rev: bool) -> Seq<T> {
    stable_order(keys, rev).map_values(|i: int| items[i])
}

/// `p` lists each of the positions `0 .. n` exactly once.
pub open spec fn is_arrangement(p: Seq<int>, n: nat) -> bool {
    &&& p.len() == n
    &&& forall|a: int| 0 <= a < n ==> 0 <= #[trigger] p[a] < n
    &&& forall|a: int, b: int| 0 <= a < b < n ==> p[a] != p[b]
}

/// Standing before is a total order on positions.
pub proof fn lemma_rank_le_total<K: Ord>(keys: Seq<K>, rev: bool)
    requires
        lawful::<K>(),
    ensures
        total_ordering(rank_le(keys, rev)),
{
    let r = rank_le(keys, rev);
    assert forall|i: int, j: int| #[trigger] r(i, j) && #[trigger] r(j, i) implies i == j by {
        if precedes(keys[i], keys[j], rev) {
            lemma_precedes_asymmetric(keys[i], keys[j], rev);
        }
    }
    assert forall|i: int, j: int, l: int| #[trigger] r(i, j) && #[trigger] r(j, l) implies r(
        i,
        l,
    ) by {
        let (a, b, c) = (keys[i], keys[j], keys[l]);
        if precedes(a, b, rev) && precedes(b, c, rev) {
            lemma_precedes_transitive(a, b, c, rev);
        } else if precedes(a, b, rev) {
            if !precedes(a, c, rev) {
                lemma_not_precedes_transitive(a, c, b, rev);
            }
        } else if precedes(b, c, rev) {
            if !precedes(a, c, rev) {
                lemma_not_precedes_transitive(b, a, c, rev);
            }
        } else {
            lemma_not_precedes_transitive(c, b, a, rev);
        }
    }
}

/// A list with the same items as `0, 1, .., n - 1`, each as often, is an arrangement.
pub proof fn lemma_arrangement_of_multiset(p: Seq<int>, n: nat)
    requires
        p.to_multiset() == iota(n).to_multiset(),
    ensures
        is_arrangement(p, n),
{
    broadcast use vstd::seq_lib::group_to_multiset_ensures;

    let id = iota(n);
    p.to_multiset_ensures();
    assert forall|a: int| 0 <= a < n implies 0 <= #[trigger] p[a] < n by {
        assert(id.to_multiset().count(p[a]) > 0);
    }
    id.lemma_multiset_has_no_duplicates();
    p.lemma_multiset_has_no_duplicates_conv();
}

/// An arrangement misses no position: it has the same items as `0, 1, .., n - 1`.
pub proof fn lemma_arrangement(p: Seq<int>, n: nat)
    requires
        is_arrangement(p, n),
    ensures
        p.to_multiset() == iota(n).to_multiset(),
        forall|i: int| 0 <= i < n ==> p.contains(i),
{
    broadcast use vstd::seq_lib::group_to_multiset_ensures;

    let id = iota(n);
    let range = set_int_range(0, n as int);
    p.unique_seq_to_set();
    lemma_int_range(0, n as int);
    lemma_subset_equality(p.to_set(), range);
    assert forall|i: int| 0 <= i < n implies p.contains(i) by {
        assert(range.contains(i));
    }
    p.lemma_multiset_has_no_duplicates();
    id.lemma_multiset_has_no_duplicates();
    assert forall|v: int| p.to_multiset().count(v) == id.to_multiset().count(v) by {
        if 0 <= v < n {
            assert(id[v] == v);
        }
    }
}

/// Two lists with the same items, each as often, still have the same items after a
/// function is applied to every item.
pub proof fn lemma_map_keeps_multiset<A, B>(s: Seq<A>, t: Seq<A>, f: spec_fn(A) -> B)
    requires
        s.to_multiset() == t.to_multiset(),
    ensures
        s.map_values(f).to_multiset() == t.map_values(f).to_multiset(),
    decreases s.len(),
{
    broadcast use vstd::seq_lib::group_to_multiset_ensures;

    s.to_multiset_ensures();
    if s.len() > 0 {
        let x = s.last();
        assert(s.to_multiset().count(x) > 0);
        let j = choose|j: int| 0 <= j < t.len() && t[j] == x;
        let s1 = s.drop_last();
        let t1 = t.remove(j);
        assert(s1 =~= s.remove(s.len() - 1));
        lemma_map_keeps_multiset(s1, t1, f);
        assert(s.map_values(f) =~= s1.map_values(f).push(f(x)));
        assert(t.map_values(f) =~= t1.map_values(f).insert(j, f(x)));
    }
}

/// The stable order is an arrangement of the positions, and it is sorted.
pub proof fn lemma_stable_order<K: Ord>(keys: Seq<K>, rev: bool)
    requires
        lawful::<K>(),
    ensures
        is_arrangement(stable_order(keys, rev), keys.len()),
        sorted_by(stable_order(keys, rev), rank_le(keys, rev)),
        stable_order(keys, rev).len() == keys.len(),
{

    lemma_rank_le_total(keys, rev);
    iota(keys.len()).lemma_sort_by_ensures(rank_le(keys, rev));
    lemma_arrangement_of_multiset(stable_order(keys, rev), keys.len());
}

/// A list of fewer than two items is its own stable sort.
pub proof fn lemma_stable_sort_short<T, K: Ord>(items: Seq<T>, keys: Seq<K>, rev: bool)
    requires
        lawful::<K>(),
        items.len() == keys.len(),
        items.len() < 2,
    ensures
        stable_sort(items, keys, rev) == items,
{
    lemma_stable_order(keys, rev);
}

/// There is only one sorted arrangement of the positions.
pub proof fn lemma_stable_order_unique<K: Ord>(p: Seq<int>, keys: Seq<K>, rev: bool)
    requires
        lawful::<K>(),
        is_arrangement(p, keys.len()),
        sorted_by(p, rank_le(keys, rev)),
    ensures
        p == stable_order(keys, rev),
{
    lemma_rank_le_total(keys, rev);
    lemma_stable_order(keys, rev);
    lemma_arrangement(p, keys.len());
    lemma_arrangement(stable_order(keys, rev), keys.len());
    lemma_sorted_unique(p, stable_order(keys, rev), rank_le(keys, rev));
}

} // verus!
