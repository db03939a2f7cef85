//! In-place stable sort of a list by a key that is computed once per item.

use crate::order::lawful;
use crate::order::row_ahead;
use crate::order::sort_rows;
use crate::stable::iota;
use crate::stable::lemma_arrangement_of_multiset;
use crate::stable::lemma_map_keeps_multiset;
use crate::stable::lemma_stable_order_unique;
use crate::stable::stable_order;
use crate::stable::stable_sort;
use crate::width::IndexWidth;
use vstd::prelude::*;

verus! {

/// `keys[i]` is a key that `f` computes for `items[i]`, for every item.
pub open spec fn keyed_by<T, K, F: Fn(&T) -> K>(f: F, items: Seq<T>, keys: Seq<K>) -> bool {
    &&& keys.len() == items.len()
    &&& forall|i: int| 0 <= i < items.len() ==> #[trigger] f.ensures((&items[i],), keys[i])
}

/// Exchanges two items of a slice (`<[T]>::swap`).
///
/// Trusted: the standard library documents a panic when either index is out of bounds,
/// and otherwise that the two items trade places.
pub assume_specification<V>[ <[V]>::swap ](slice: &mut [V], a: usize, b: usize)
    requires
        a < old(slice)@.len(),
        b < old(slice)@.len(),
    ensures
        final(slice)@ == old(slice)@.update(a as int, old(slice)@[b as int]).update(
            b as int,
            old(slice)@[a as int],
        ),
;

/// The key column of a key table.
pub open spec fn key_column<K, I: IndexWidth>(rows: Seq<(K, I)>) -> Seq<K> {
    rows.map_values(|r: (K, I)| r.0)
}

/// The index column of a key table.
pub open spec fn index_column<K, I: IndexWidth>(rows: Seq<(K, I)>) -> Seq<int> {
    rows.map_values(|r: (K, I)| r.1.position() as int)
}

/// Where the item that stood at `x` is now, once the positions below `i` have been
/// settled: each settled position forwards to the place its former item was moved to.
pub open spec fn chase(forward: Seq<int>, i: int, x: int) -> int
    decreases
        (if x < i {
            i - x
        } else {
            0
        }),
{
    if 0 <= x < i && x < forward[x] {
        chase(forward, i, forward[x])
    } else {
        x
    }
}

/// Settling position `i` with the item found at `c` changes only where the item that
/// stood at `i` is found: it is at `c` now.
proof fn lemma_chase_step(forward: Seq<int>, i: int, c: int, x: int)
    requires
        0 <= i <= c,
        i < forward.len(),
    ensures
        chase(forward.update(i, c), i + 1, x) == if chase(forward, i, x) == i {
            c
        } else {
            chase(forward, i, x)
        },
    decreases
        (if x < i {
            i - x
        } else {
            0
        }),
{
    let after = forward.update(i, c);
    if 0 <= x < i && x < forward[x] {
        lemma_chase_step(forward, i, c, forward[x]);
    } else if x == i {
        if i < c {
            assert(chase(after, i + 1, c) == c);
        }
    }
}

/// A key table that holds row `(keys[j], j)` for every position `j`, once sorted, lists
/// the positions in stable order.
proof fn lemma_sorted_rows<K: Ord, I: IndexWidth>(
    before: Seq<(K, I)>,
    after: Seq<(K, I)>,
    rev: bool,
)
    requires
        lawful::<K>(),
        forall|j: int| 0 <= j < before.len() ==> (#[trigger] before[j]).1.position() == j,
        after.to_multiset() == before.to_multiset(),
        forall|a: int, b: int|
            0 <= a < b < after.len() ==> !row_ahead(#[trigger] after[b], #[trigger] after[a], rev),
    ensures
        index_column(after) == stable_order(key_column(before), rev),
{
    broadcast use vstd::seq_lib::group_to_multiset_ensures;

    let keys = key_column(before);
    let p = index_column(after);
    let n = before.len();
    lemma_map_keeps_multiset(after, before, |r: (K, I)| r.1.position() as int);
    assert(index_column(before) =~= iota(n));
    lemma_arrangement_of_multiset(p, n);
    assert forall|a: int| 0 <= a < after.len() implies (#[trigger] after[a]).0 == keys[p[a]] by {
        assert(after.to_multiset().count(after[a]) > 0);
    }
    lemma_stable_order_unique(p, keys, rev);
}

/// Sorts `list` as `sort_by_cached_key` does, with a key table whose index column has
/// type `I`.
fn sort_with_index<T, K, F, I>(list: &mut Vec<T>, desc: bool, f: &F) where
    F: Fn(&T) -> K,
    K: Ord,
    I: IndexWidth,

    requires
        lawful::<K>(),
        forall|i: int| 0 <= i < old(list)@.len() ==> #[trigger] f.requires((&old(list)@[i],)),
        old(list)@.len() <= I::ceiling() + 1,
    ensures
        exists|keys: Seq<K>| #[trigger]
            keyed_by(*f, old(list)@, keys) && final(list)@ == stable_sort(old(list)@, keys, desc),
{
    let ghost items = list@;
    let n: usize = list.len();
    let mut rows: Vec<(K, I)> = Vec::with_capacity(n);
    let mut i: usize = 0;
    while i < n
        invariant
            i <= n,
            n == list@.len(),
            list@ == items,
            rows@.len() == i,
            n <= I::ceiling() + 1,
            forall|j: int| 0 <= j < n ==> #[trigger] f.requires((&items[j],)),
            forall|j: int|
                0 <= j < i ==> f.ensures((&items[j],), (#[trigger] rows@[j]).0)
                    && rows@[j].1.position() == j,
        decreases n - i,
    {
        let k = f(&list[i]);
        rows.push((k, I::from_usize(i)));
        i += 1;
    }
    let ghost keys = key_column(rows@);
    let ghost p = stable_order(keys, desc);
    proof {
        assert(keyed_by(*f, items, keys));
    }
    let ghost unsorted = rows@;
    sort_rows(&mut rows, desc);
    proof {
        lemma_sorted_rows(unsorted, rows@, desc);
        crate::stable::lemma_stable_order(keys, desc);
    }
    i = 0;
    while i < n
        invariant
            i <= n,
            list@.len() == n,
            rows@.len() == n,
            p.len() == n,
            n <= I::ceiling() + 1,
            forall|a: int| 0 <= a < n ==> 0 <= #[trigger] p[a] < n,
            forall|a: int, b: int| 0 <= a < b < n ==> p[a] != p[b],
            forall|j: int| 0 <= j < i ==> #[trigger] list@[j] == items[p[j]],
            forall|k: int| i <= k < n ==> (#[trigger] rows@[k]).1.position() == p[k],
            forall|j: int| 0 <= j < i ==> j <= (#[trigger] rows@[j]).1.position() < n,
            forall|k: int|
                i <= k < n ==> {
                    let at = #[trigger] chase(index_column(rows@), i as int, p[k]);
                    i <= at < n && list@[at] == items[p[k]]
                },
            forall|k: int, l: int|
                i <= k < l < n ==> #[trigger] chase(index_column(rows@), i as int, p[k])
                    != #[trigger] chase(index_column(rows@), i as int, p[l]),
        decreases n - i,
    {
        let ghost forward = index_column(rows@);
        let ghost found = chase(forward, i as int, p[i as int]);
        let mut index: usize = rows[i].1.to_usize();
        while index < i
            invariant
                i < n,
                index < n,
                rows@.len() == n,
                forward == index_column(rows@),
                found == chase(forward, i as int, p[i as int]),
                chase(forward, i as int, index as int) == found,
                i <= found,
                forall|j: int| 0 <= j < i ==> j <= (#[trigger] rows@[j]).1.position() < n,
            decreases n - index,
        {
            index = rows[index].1.to_usize();
        }
        rows[i].1 = I::from_usize(index);
        list.swap(i, index);
        proof {
            let after = index_column(rows@);
            assert(after =~= forward.update(i as int, index as int));
            assert forall|k: int| i + 1 <= k < n implies {
                let at = #[trigger] chase(after, i + 1, p[k]);
                i + 1 <= at < n && list@[at] == items[p[k]]
            } by {
                lemma_chase_step(forward, i as int, index as int, p[k]);
            }
            assert forall|k: int, l: int| i + 1 <= k < l < n implies #[trigger] chase(
                after,
                i + 1,
                p[k],
            ) != #[trigger] chase(after, i + 1, p[l]) by {
                lemma_chase_step(forward, i as int, index as int, p[k]);
                lemma_chase_step(forward, i as int, index as int, p[l]);
            }
        }
        i += 1;
    }
}

/// Sorts `list` in place by the keys that `f` computes, ascending, or descending when
/// `desc` is set. Items with tied keys keep the order they had, under both modes, and
/// `f` is called once per item.
///
/// The keys are first paired with their positions in a table that is sorted on its own;
/// the index column gets the narrowest integer type that can hold every position and
/// still makes a row smaller than the next wider type would. The list is then permuted
/// in place by following chains of forwarding indices.
pub fn sort_by_cached_key<T, K, F>(list: &mut Vec<T>, desc: bool, f: F) where
    F: Fn(&T) -> K,
    K: Ord,

    requires
        lawful::<K>(),
        forall|i: int| 0 <= i < old(list)@.len() ==> #[trigger] f.requires((&old(list)@[i],)),
    ensures
        old(list)@.len() < 2 ==> final(list)@ == old(list)@,
        old(list)@.len() >= 2 ==> exists|keys: Seq<K>| #[trigger]
            keyed_by(f, old(list)@, keys) && final(list)@ == stable_sort(old(list)@, keys, desc),
{
    let sz_u8: usize = core::mem::size_of::<(K, u8)>();
    let sz_u16: usize = core::mem::size_of::<(K, u16)>();
    let sz_u32: usize = core::mem::size_of::<(K, u32)>();
    let sz_usize: usize = core::mem::size_of::<(K, usize)>();

    let len: usize = list.len();
    if len < 2 {
        return;
    }
    if sz_u8 < sz_u16 && len <= 0xff {
        return sort_with_index::<T, K, F, u8>(list, desc, &f);
    }
    if sz_u16 < sz_u32 && len <= 0xffff {
        return sort_with_index::<T, K, F, u16>(list, desc, &f);
    }
    if sz_u32 < sz_usize && len <= 0xffff_ffff {
        return sort_with_index::<T, K, F, u32>(list, desc, &f);
    }
    sort_with_index::<T, K, F, usize>(list, desc, &f)
}

} // verus!
