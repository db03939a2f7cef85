//! What the two-way merge and the whole sort compute, as functions on lists of lines.

use crate::chunk::split_index;
use crate::key::key_of;
use crate::key::keys_of;
use crate::key::sorted_lines;
use crate::lines::lines_of;
use crate::order::lawful;
use crate::order::lemma_precedes_asymmetric;
use crate::order::precedes;
use crate::stable::iota;
use crate::stable::is_arrangement;
use crate::stable::lemma_arrangement;
use crate::stable::lemma_arrangement_of_multiset;
use crate::stable::lemma_map_keeps_multiset;
use crate::stable::lemma_rank_le_total;
use crate::stable::lemma_stable_order;
use crate::stable::lemma_stable_order_unique;
use crate::stable::rank_le;
use crate::stable::stable_order;
use vstd::prelude::*;
use vstd::relations::sorted_by;
use vstd::relations::total_ordering;
use vstd::seq_lib::lemma_multiset_commutative;

verus! {

/// Two lists woven into one. The next item is the head of the right list where
/// `right_first` says so of the two heads, and else the head of the left list; when one
/// list runs out, the rest of the other follows.
pub open spec fn woven<T>(a: Seq<T>, b: Seq<T>, right_first: spec_fn(T, T) -> bool) -> Seq<T>
    decreases a.len() + b.len(),
{
    if a.len() == 0 {
        b
    } else if b.len() == 0 {
        a
    } else if right_first(a[0], b[0]) {
        seq![b[0]] + woven(a, b.skip(1), right_first)
    } else {
        seq![a[0]] + woven(a.skip(1), b, right_first)
    }
}

/// The right line goes first only where its key is strictly ahead of the left line's.
pub open spec fn overtakes<F: Fn(&Vec<u8>) -> K, K: Ord>(f: F, rev: bool) -> spec_fn(
    Seq<u8>,
    Seq<u8>,
) -> bool {
    |left: Seq<u8>, right: Seq<u8>| precedes(key_of(f, right), key_of(f, left), rev)
}

/// The lines of two chunks merged by key. Of two lines with tied keys the one from the
/// first chunk goes first.
pub open spec fn merged<F: Fn(&Vec<u8>) -> K, K: Ord>(
    f: F,
    a: Seq<Seq<u8>>,
    b: Seq<Seq<u8>>,
    rev: bool,
) -> Seq<Seq<u8>> {
    woven(a, b, overtakes(f, rev))
}

/// The bytes that the sort makes of a chunk with these lines: a chunk of fewer than two
/// lines is left as it is, one that fits the capacity is sorted in memory, and a larger
/// one is split, its halves are sorted on their own, and what they give is read back and
/// merged. A chunk that the split leaves in one piece is sorted in memory whatever its
/// size.
pub open spec fn sorted_stream<F: Fn(&Vec<u8>) -> K, K: Ord>(
    f: F,
    lines: Seq<Seq<u8>>,
    cap: u64,
    rev: bool,
) -> Seq<u8>
    decreases lines.len(),
{
    if lines.len() < 2 {
        lines.flatten()
    } else if lines.flatten().len() <= cap {
        sorted_lines(f, lines, rev).flatten()
    } else {
        let j = split_index(lines);
        if 1 <= j < lines.len() {
            merged(
                f,
                lines_of(sorted_stream(f, lines.take(j), cap, rev)),
                lines_of(sorted_stream(f, lines.skip(j), cap, rev)),
                rev,
            ).flatten()
        } else {
            sorted_lines(f, lines, rev).flatten()
        }
    }
}

/// Weaving takes the next item from one of the two heads.
pub proof fn lemma_woven_step<T>(a: Seq<T>, b: Seq<T>, right_first: spec_fn(T, T) -> bool)
    ensures
        a.len() > 0 && (b.len() == 0 || !right_first(a[0], b[0])) ==> woven(a, b, right_first)
            == seq![a[0]] + woven(a.skip(1), b, right_first),
        b.len() > 0 && (a.len() == 0 || right_first(a[0], b[0])) ==> woven(a, b, right_first)
            == seq![b[0]] + woven(a, b.skip(1), right_first),
{
}

/// Weaving keeps every item of both lists, each as often as it occurs in them.
pub proof fn lemma_woven_multiset<T>(a: Seq<T>, b: Seq<T>, right_first: spec_fn(T, T) -> bool)
    ensures
        woven(a, b, right_first).to_multiset() == a.to_multiset().add(b.to_multiset()),
    decreases a.len() + b.len(),
{
    broadcast use vstd::seq_lib::group_to_multiset_ensures;

    if a.len() == 0 || b.len() == 0 {
        // The woven list is the list that is not empty.
    } else if right_first(a[0], b[0]) {
        let rest = woven(a, b.skip(1), right_first);
        lemma_woven_multiset(a, b.skip(1), right_first);
        lemma_multiset_commutative(seq![b[0]], rest);
        lemma_multiset_commutative(seq![b[0]], b.skip(1));
        assert(b =~= seq![b[0]] + b.skip(1));
    } else {
        let rest = woven(a.skip(1), b, right_first);
        lemma_woven_multiset(a.skip(1), b, right_first);
        lemma_multiset_commutative(seq![a[0]], rest);
        lemma_multiset_commutative(seq![a[0]], a.skip(1));
        assert(a =~= seq![a[0]] + a.skip(1));
    }
}

/// Two sorted lists, woven so that the right head goes first exactly where the left
/// head may not stand before it, give a sorted list.
pub proof fn lemma_woven_sorted<T>(
    a: Seq<T>,
    b: Seq<T>,
    leq: spec_fn(T, T) -> bool,
    right_first: spec_fn(T, T) -> bool,
)
    requires
        total_ordering(leq),
        sorted_by(a, leq),
        sorted_by(b, leq),
        forall|i: int, j: int|
            0 <= i < a.len() && 0 <= j < b.len() ==> #[trigger] right_first(a[i], b[j]) == !leq(
                a[i],
                b[j],
            ),
    ensures
        sorted_by(woven(a, b, right_first), leq),
    decreases a.len() + b.len(),
{
    broadcast use vstd::seq_lib::group_to_multiset_ensures;

    let w = woven(a, b, right_first);
    if a.len() > 0 && b.len() > 0 {
        let take_right = right_first(a[0], b[0]);
        let (a1, b1) = if take_right {
            (a, b.skip(1))
        } else {
            (a.skip(1), b)
        };
        let rest = woven(a1, b1, right_first);
        lemma_woven_sorted(a1, b1, leq, right_first);
        lemma_woven_multiset(a1, b1, right_first);
        assert forall|i: int, j: int| 0 <= i < j < w.len() implies #[trigger] leq(w[i], w[j]) by {
            if i == 0 {
                let e = rest[j - 1];
                assert(rest.to_multiset().count(e) > 0);
                if a1.contains(e) {
                    let x = choose|x: int| 0 <= x < a1.len() && a1[x] == e;
                    if take_right {
                        assert(leq(b[0], a[0]));
                        if x > 0 {
                            assert(leq(a[0], a[x]));
                        }
                    }
                } else {
                    let y = choose|y: int| 0 <= y < b1.len() && b1[y] == e;
                    if !take_right && y > 0 {
                        assert(leq(b[0], b[y]));
                    }
                }
            }
        }
    }
}

/// Weaving commutes with a function applied to every item, where the function carries
/// the choice of the next item along.
pub proof fn lemma_woven_map<A, B>(
    a: Seq<A>,
    b: Seq<A>,
    g: spec_fn(A) -> B,
    first_a: spec_fn(A, A) -> bool,
    first_b: spec_fn(B, B) -> bool,
)
    requires
        forall|i: int, j: int|
            0 <= i < a.len() && 0 <= j < b.len() ==> #[trigger] first_a(a[i], b[j]) == first_b(
                g(a[i]),
                g(b[j]),
            ),
    ensures
        woven(a.map_values(g), b.map_values(g), first_b) == woven(a, b, first_a).map_values(g),
    decreases a.len() + b.len(),
{
    let (ga, gb) = (a.map_values(g), b.map_values(g));
    if a.len() > 0 && b.len() > 0 {
        if first_a(a[0], b[0]) {
            let b1 = b.skip(1);
            lemma_woven_map(a, b1, g, first_a, first_b);
            assert(gb.skip(1) =~= b1.map_values(g));
        } else {
            let a1 = a.skip(1);
            lemma_woven_map(a1, b, g, first_a, first_b);
            assert(ga.skip(1) =~= a1.map_values(g));
        }
    }
}

/// Merging the stable sorts of two lists of lines gives the stable sort of the two
/// lists joined.
pub proof fn lemma_merged_sorted<F: Fn(&Vec<u8>) -> K, K: Ord>(
    f: F,
    x: Seq<Seq<u8>>,
    y: Seq<Seq<u8>>,
    rev: bool,
)
    requires
        lawful::<K>(),
    ensures
        merged(f, sorted_lines(f, x, rev), sorted_lines(f, y, rev), rev) == sorted_lines(
            f,
            x + y,
            rev,
        ),
{
    let z = x + y;
    let (kx, ky, kz) = (keys_of(f, x), keys_of(f, y), keys_of(f, z));
    let (n, m) = (x.len() as int, y.len() as int);
    let px = stable_order(kx, rev);
    let py = stable_order(ky, rev);
    let shift = |i: int| i + n;
    let qy = py.map_values(shift);
    let leq = rank_le(kz, rev);
    let by_position = |i: int, j: int| precedes(kz[j], kz[i], rev);
    let fetch = |i: int| z[i];
    lemma_stable_order(kx, rev);
    lemma_stable_order(ky, rev);
    lemma_arrangement(px, n as nat);
    lemma_arrangement(py, m as nat);
    lemma_rank_le_total(kz, rev);

    assert(sorted_by(px, leq)) by {
        assert forall|a: int, b: int| 0 <= a < b < px.len() implies #[trigger] leq(
            px[a],
            px[b],
        ) by {
            assert(rank_le(kx, rev)(px[a], px[b]));
        }
    }
    assert(sorted_by(qy, leq)) by {
        assert forall|a: int, b: int| 0 <= a < b < qy.len() implies #[trigger] leq(
            qy[a],
            qy[b],
        ) by {
            assert(rank_le(ky, rev)(py[a], py[b]));
        }
    }
    assert forall|i: int, j: int| 0 <= i < px.len() && 0 <= j < qy.len() implies #[trigger]
        by_position(px[i], qy[j]) == !leq(px[i], qy[j]) by {
        if precedes(kz[px[i]], kz[qy[j]], rev) {
            lemma_precedes_asymmetric(kz[px[i]], kz[qy[j]], rev);
        }
    }
    let pm = woven(px, qy, by_position);
    lemma_woven_sorted(px, qy, leq, by_position);
    lemma_woven_multiset(px, qy, by_position);
    assert(is_arrangement(pm, z.len())) by {
        lemma_map_keeps_multiset(py, iota(m as nat), shift);
        lemma_multiset_commutative(iota(n as nat), iota(m as nat).map_values(shift));
        assert(iota(n as nat) + iota(m as nat).map_values(shift) =~= iota(z.len()));
        lemma_arrangement_of_multiset(pm, z.len());
    }
    lemma_stable_order_unique(pm, kz, rev);

    lemma_woven_map(px, qy, fetch, by_position, overtakes(f, rev));
    assert(px.map_values(fetch) =~= sorted_lines(f, x, rev));
    assert(qy.map_values(fetch) =~= sorted_lines(f, y, rev));
}

} // verus!
