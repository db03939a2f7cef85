//! The caller's key function, seen as a function from a line's bytes to its key.

use crate::order::precedes;
use crate::order::tied;
use crate::stable::is_arrangement;
use crate::stable::stable_sort;
use vstd::prelude::*;

verus! {

/// `f` may return `k` for a line with these bytes.
pub open spec fn yields<F: Fn(&Vec<u8>) -> K, K>(f: F, line: Seq<u8>, k: K) -> bool {
    exists|v: Vec<u8>| v@ == line && #[trigger] f.ensures((&v,), k)
}

/// The key of a line under `f`.
pub open spec fn key_of<F: Fn(&Vec<u8>) -> K, K>(f: F, line: Seq<u8>) -> K {
    choose|k: K| yields(f, line, k)
}

/// `f` can be called on every line, and the key it returns depends on nothing but the
/// line's bytes.
pub open spec fn pure_key<F: Fn(&Vec<u8>) -> K, K>(f: F) -> bool {
    &&& forall|v: Vec<u8>| #[trigger] f.requires((&v,))
    &&& forall|v: Vec<u8>, w: Vec<u8>, a: K, b: K|
        v@ == w@ && #[trigger] f.ensures((&v,), a) && #[trigger] f.ensures((&w,), b) ==> a == b
}

/// The keys of a list of lines, in the same order.
pub open spec fn keys_of<F: Fn(&Vec<u8>) -> K, K>(f: F, lines: Seq<Seq<u8>>) -> Seq<K> {
    lines.map_values(|l: Seq<u8>| key_of(f, l))
}

/// The lines stably sorted by their keys under `f`.
pub open spec fn sorted_lines<F: Fn(&Vec<u8>) -> K, K: Ord>(
    f: F,
    lines: Seq<Seq<u8>>,
    rev: bool,
) -> Seq<Seq<u8>> {
    stable_sort(lines, keys_of(f, lines), rev)
}

/// The keys of the lines are in order: no line's key is ahead of the key of a line
/// that stands before it.
pub open spec fn in_key_order<F: Fn(&Vec<u8>) -> K, K: Ord>(
    f: F,
    lines: Seq<Seq<u8>>,
    rev: bool,
) -> bool {
    forall|a: int, b: int|
        0 <= a < b < lines.len() ==> !precedes(
            key_of(f, #[trigger] lines[b]),
            key_of(f, #[trigger] lines[a]),
            rev,
        )
}

/// `after` holds at each position `a` the line at position `p[a]` of `before`, where `p`
/// lists every position of `before` once; and of two lines of `before` with tied keys,
/// the one that stands first in `before` stands first in `after`.
pub open spec fn ties_kept_by<F: Fn(&Vec<u8>) -> K, K: Ord>(
    f: F,
    before: Seq<Seq<u8>>,
    after: Seq<Seq<u8>>,
    p: Seq<int>,
) -> bool {
    &&& is_arrangement(p, before.len())
    &&& after == p.map_values(|i: int| before[i])
    &&& forall|a: int, b: int|
        0 <= a < p.len() && 0 <= b < p.len() && p[a] < p[b] && tied(
            key_of(f, before[#[trigger] p[a]]),
            key_of(f, before[#[trigger] p[b]]),
        ) ==> a < b
}

/// `after` holds the lines of `before`, and those with tied keys in the order they have
/// in `before`.
pub open spec fn ties_kept<F: Fn(&Vec<u8>) -> K, K: Ord>(
    f: F,
    before: Seq<Seq<u8>>,
    after: Seq<Seq<u8>>,
) -> bool {
    exists|p: Seq<int>| ties_kept_by(f, before, after, p)
}

/// Whatever a pure key function returns for a line is that line's key.
pub proof fn lemma_key_of<F: Fn(&Vec<u8>) -> K, K>(f: F, v: Vec<u8>, k: K)
    requires
        pure_key(f),
        f.ensures((&v,), k),
    ensures
        k == key_of(f, v@),
{
    assert(yields(f, v@, k));
}

/// Computes the key of `line`.
pub fn key_for<F: Fn(&Vec<u8>) -> K, K>(key: &F, line: &Vec<u8>) -> (k: K)
    requires
        pure_key(*key),
    ensures
        k == key_of(*key, line@),
{
    let k = key(line);
    proof {
        lemma_key_of(*key, *line, k);
    }
    k
}

} // verus!
