//! What holds of the stable sort of lines, of the merge, and of the sort as a whole.

use crate::chunk::split_index;
use crate::key::in_key_order;
use crate::key::key_of;
use crate::key::keys_of;
use crate::key::sorted_lines;
use crate::key::ties_kept;
use crate::key::ties_kept_by;
use crate::lines::DELIMITER;
use crate::lines::delimited;
use crate::lines::is_ended;
use crate::lines::is_line;
use crate::lines::lemma_delimited_parts;
use crate::lines::lemma_first_group;
use crate::lines::lemma_flatten_lines_of;
use crate::lines::lemma_lines_of_delimited;
use crate::lines::lemma_lines_of_flatten;
use crate::lines::lines_of;
use crate::merging::lemma_merged_sorted;
use crate::merging::merged;
use crate::merging::overtakes;
use crate::merging::sorted_stream;
use crate::merging::woven;
use crate::order::lawful;
use crate::order::lemma_precedes_asymmetric;
use crate::order::lemma_precedes_irreflexive;
use crate::order::precedes;
use crate::order::tied;
use crate::stable::iota;
use crate::stable::is_arrangement;
use crate::stable::lemma_arrangement;
use crate::stable::lemma_map_keeps_multiset;
use crate::stable::lemma_stable_order;
use crate::stable::lemma_stable_order_unique;
use crate::stable::lemma_stable_sort_short;
use crate::stable::rank_le;
use crate::stable::stable_order;
use vstd::prelude::*;
use vstd::relations::sorted_by;
use vstd::seq_lib::lemma_flatten_concat;
use vstd::seq_lib::lemma_multiset_commutative;

verus! {

/// Sorting these lines leaves a line without delimiter, if there is one, in last place,
/// so that the sorted lines read back as they were written.
pub open spec fn regular<F: Fn(&Vec<u8>) -> K, K: Ord>(
    f: F,
    lines: Seq<Seq<u8>>,
    rev: bool,
) -> bool {
    delimited(sorted_lines(f, lines, rev))
}

/// The stable sort of a list of lines holds the line at position `p[a]` of the list at
/// its own position `a`, where `p` is the stable order of the keys.
pub proof fn lemma_sorted_lines<F: Fn(&Vec<u8>) -> K, K: Ord>(
    f: F,
    lines: Seq<Seq<u8>>,
    rev: bool,
)
    requires
        lawful::<K>(),
    ensures
        sorted_lines(f, lines, rev).len() == lines.len(),
        is_arrangement(stable_order(keys_of(f, lines), rev), lines.len()),
        sorted_by(stable_order(keys_of(f, lines), rev), rank_le(keys_of(f, lines), rev)),
        forall|a: int|
            0 <= a < lines.len() ==> {
                let at = #[trigger] stable_order(keys_of(f, lines), rev)[a];
                0 <= at < lines.len() && sorted_lines(f, lines, rev)[a] == lines[at]
            },
{
    let keys = keys_of(f, lines);
    lemma_stable_order(keys, rev);
}

/// The stable sort of a list of lines holds the lines of the list, each as often.
pub proof fn lemma_sorted_lines_multiset<F: Fn(&Vec<u8>) -> K, K: Ord>(
    f: F,
    lines: Seq<Seq<u8>>,
    rev: bool,
)
    requires
        lawful::<K>(),
    ensures
        sorted_lines(f, lines, rev).to_multiset() == lines.to_multiset(),
{
    let p = stable_order(keys_of(f, lines), rev);
    lemma_sorted_lines(f, lines, rev);
    lemma_arrangement(p, lines.len());
    let fetch = |i: int| lines[i];
    lemma_map_keeps_multiset(p, iota(lines.len()), fetch);
    assert(iota(lines.len()).map_values(fetch) =~= lines);
}

/// The stable sort of a list of lines is in key order.
pub proof fn lemma_sorted_lines_in_order<F: Fn(&Vec<u8>) -> K, K: Ord>(
    f: F,
    lines: Seq<Seq<u8>>,
    rev: bool,
)
    requires
        lawful::<K>(),
    ensures
        in_key_order(f, sorted_lines(f, lines, rev), rev),
{
    let keys = keys_of(f, lines);
    let p = stable_order(keys, rev);
    let sorted = sorted_lines(f, lines, rev);
    lemma_sorted_lines(f, lines, rev);
    assert forall|a: int, b: int| 0 <= a < b < sorted.len() implies !precedes(
        key_of(f, #[trigger] sorted[b]),
        key_of(f, #[trigger] sorted[a]),
        rev,
    ) by {
        assert(rank_le(keys, rev)(p[a], p[b]));
        if precedes(keys[p[a]], keys[p[b]], rev) {
            lemma_precedes_asymmetric(keys[p[a]], keys[p[b]], rev);
        }
    }
}

/// The stable sort of a list of lines keeps lines with tied keys in the order they
/// have in the list, under both order modes.
pub proof fn lemma_sorted_lines_ties_kept<F: Fn(&Vec<u8>) -> K, K: Ord>(
    f: F,
    lines: Seq<Seq<u8>>,
    rev: bool,
)
    requires
        lawful::<K>(),
    ensures
        ties_kept(f, lines, sorted_lines(f, lines, rev)),
{
    let keys = keys_of(f, lines);
    let p = stable_order(keys, rev);
    lemma_sorted_lines(f, lines, rev);
    assert forall|a: int, b: int|
        0 <= a < p.len() && 0 <= b < p.len() && p[a] < p[b] && tied(
            key_of(f, lines[#[trigger] p[a]]),
            key_of(f, lines[#[trigger] p[b]]),
        ) implies a < b by {
        if b < a {
            assert(rank_le(keys, rev)(p[b], p[a]));
        }
    }
    assert(ties_kept_by(f, lines, sorted_lines(f, lines, rev), p));
}

/// A list of lines in key order is its own stable sort.
pub proof fn lemma_sorted_lines_fixed<F: Fn(&Vec<u8>) -> K, K: Ord>(
    f: F,
    lines: Seq<Seq<u8>>,
    rev: bool,
)
    requires
        lawful::<K>(),
        in_key_order(f, lines, rev),
    ensures
        sorted_lines(f, lines, rev) == lines,
{
    let keys = keys_of(f, lines);
    let id = iota(lines.len());
    lemma_stable_order_unique(id, keys, rev);
}

/// Merging two lists of lines, each in key order, gives the stable sort of the first
/// list followed by the second: the lines of both in key order, and of lines with tied
/// keys those of the first list before those of the second.
pub proof fn law_merge<F: Fn(&Vec<u8>) -> K, K: Ord>(
    f: F,
    a: Seq<Seq<u8>>,
    b: Seq<Seq<u8>>,
    rev: bool,
)
    requires
        lawful::<K>(),
        in_key_order(f, a, rev),
        in_key_order(f, b, rev),
    ensures
        merged(f, a, b, rev) == sorted_lines(f, a + b, rev),
{
    lemma_sorted_lines_fixed(f, a, rev);
    lemma_sorted_lines_fixed(f, b, rev);
    lemma_merged_sorted(f, a, b, rev);
}

/// Which lists of lines are regular: those whose last line ends with the delimiter,
/// and those whose last line has a key that is ahead of no other line's key.
pub proof fn lemma_regular<F: Fn(&Vec<u8>) -> K, K: Ord>(f: F, lines: Seq<Seq<u8>>, rev: bool)
    requires
        lawful::<K>(),
        delimited(lines),
        lines.len() > 0,
    ensures
        regular(f, lines, rev) <==> is_ended(lines.last()) || forall|i: int|
            0 <= i < lines.len() ==> !precedes(
                key_of(f, lines.last()),
                key_of(f, #[trigger] lines[i]),
                rev,
            ),
{
    let n = lines.len() as int;
    let keys = keys_of(f, lines);
    let p = stable_order(keys, rev);
    let sorted = sorted_lines(f, lines, rev);
    lemma_sorted_lines(f, lines, rev);
    if regular(f, lines, rev) && !is_ended(lines.last()) {
        lemma_last_is_behind(f, lines, rev);
    }
    if !is_ended(lines.last()) && (forall|i: int|
        0 <= i < lines.len() ==> !precedes(
            key_of(f, lines.last()),
            key_of(f, #[trigger] lines[i]),
            rev,
        )) {
        assert forall|a: int| 0 <= a < n implies is_line(#[trigger] sorted[a]) && (a < n - 1
            ==> is_ended(sorted[a])) by {
            if a < n - 1 && p[a] == n - 1 {
                assert(rank_le(keys, rev)(p[a], p[n - 1]));
            }
        }
    }
}

/// A stream that is empty or ends with the delimiter has regular lines.
pub proof fn lemma_regular_when_ended<F: Fn(&Vec<u8>) -> K, K: Ord>(
    f: F,
    input: Seq<u8>,
    rev: bool,
)
    requires
        lawful::<K>(),
        input.len() == 0 || input.last() == DELIMITER,
    ensures
        regular(f, lines_of(input), rev),
{
    let lines = lines_of(input);
    lemma_lines_of_delimited(input);
    lemma_lines_of_flatten(input);
    lemma_sorted_lines(f, lines, rev);
    if lines.len() > 0 {
        let n = lines.len() as int;
        lemma_delimited_parts(lines, n - 1);
        assert(lines.skip(n - 1) =~= seq![lines.last()]);
        seq![lines.last()].lemma_flatten_one_element();
    }
}

/// Where sorting leaves a line without delimiter in last place, no other line's key is
/// behind that line's key.
proof fn lemma_last_is_behind<F: Fn(&Vec<u8>) -> K, K: Ord>(f: F, lines: Seq<Seq<u8>>, rev: bool)
    requires
        lawful::<K>(),
        delimited(lines),
        regular(f, lines, rev),
        lines.len() > 0,
        !is_ended(lines.last()),
    ensures
        forall|i: int|
            0 <= i < lines.len() ==> !precedes(
                key_of(f, lines.last()),
                key_of(f, #[trigger] lines[i]),
                rev,
            ),
{
    let n = lines.len() as int;
    let keys = keys_of(f, lines);
    let p = stable_order(keys, rev);
    lemma_sorted_lines(f, lines, rev);
    lemma_arrangement(p, n as nat);
    assert(p.contains(n - 1));
    assert forall|i: int| 0 <= i < n implies !precedes(
        key_of(f, lines.last()),
        key_of(f, #[trigger] lines[i]),
        rev,
    ) by {
        if i < n - 1 {
            assert(p.contains(i));
            let a = choose|a: int| 0 <= a < n && p[a] == i;
            assert(rank_le(keys, rev)(p[a], p[n - 1]));
            if precedes(keys[i], keys[n - 1], rev) {
                lemma_precedes_asymmetric(keys[i], keys[n - 1], rev);
            }
        } else {
            lemma_precedes_irreflexive(keys[i], rev);
        }
    }
}

/// Where sorting a list of lines leaves a line without delimiter in last place, so does
/// sorting either part of the list.
proof fn lemma_regular_parts<F: Fn(&Vec<u8>) -> K, K: Ord>(
    f: F,
    lines: Seq<Seq<u8>>,
    j: int,
    rev: bool,
)
    requires
        lawful::<K>(),
        delimited(lines),
        regular(f, lines, rev),
        1 <= j < lines.len(),
    ensures
        regular(f, lines.take(j), rev),
        regular(f, lines.skip(j), rev),
{
    let n = lines.len() as int;
    let (left, right) = (lines.take(j), lines.skip(j));
    let m = n - j;
    lemma_sorted_lines(f, left, rev);
    lemma_sorted_lines(f, right, rev);
    let sr = sorted_lines(f, right, rev);
    let q = stable_order(keys_of(f, right), rev);
    assert forall|a: int| 0 <= a < sr.len() implies is_line(#[trigger] sr[a]) && (a < sr.len() - 1
        ==> is_ended(sr[a])) by {
        if a < m - 1 && q[a] == m - 1 && !is_ended(lines.last()) {
            assert(rank_le(keys_of(f, right), rev)(q[a], q[m - 1]));
            lemma_last_is_behind(f, lines, rev);
        }
    }
}

/// Where sorting leaves a line without delimiter in last place, the sort gives the
/// stably sorted lines, whatever the capacity.
pub proof fn lemma_sorted_stream_regular<F: Fn(&Vec<u8>) -> K, K: Ord>(
    f: F,
    lines: Seq<Seq<u8>>,
    cap: u64,
    rev: bool,
)
    requires
        lawful::<K>(),
        delimited(lines),
        regular(f, lines, rev),
    ensures
        sorted_stream(f, lines, cap, rev) == sorted_lines(f, lines, rev).flatten(),
    decreases lines.len(),
{
    if lines.len() < 2 {
        lemma_stable_sort_short(lines, keys_of(f, lines), rev);
    } else if lines.flatten().len() > cap && 1 <= split_index(lines) < lines.len() {
        let j = split_index(lines);
        let (left, right) = (lines.take(j), lines.skip(j));
        lemma_regular_parts(f, lines, j, rev);
        lemma_sorted_stream_regular(f, left, cap, rev);
        lemma_sorted_stream_regular(f, right, cap, rev);
        lemma_flatten_lines_of(sorted_lines(f, left, rev));
        lemma_flatten_lines_of(sorted_lines(f, right, rev));
        lemma_merged_sorted(f, left, right, rev);
        assert(left + right =~= lines);
    }
}

/// `out` is the lines of `lines`, each byte for byte and each as often as `lines` holds
/// it, written one after another in some order.
pub open spec fn made_of(out: Seq<u8>, lines: Seq<Seq<u8>>) -> bool {
    exists|s: Seq<Seq<u8>>| #[trigger] s.to_multiset() == lines.to_multiset() && s.flatten() == out
}

/// A list holds only lines if a list with the same items does.
proof fn lemma_same_items_are_lines(s: Seq<Seq<u8>>, lines: Seq<Seq<u8>>)
    requires
        s.to_multiset() == lines.to_multiset(),
        forall|i: int| 0 <= i < lines.len() ==> is_line(#[trigger] lines[i]),
    ensures
        forall|i: int| 0 <= i < s.len() ==> is_line(#[trigger] s[i]),
{
    broadcast use vstd::seq_lib::group_to_multiset_ensures;

    assert forall|i: int| 0 <= i < s.len() implies is_line(#[trigger] s[i]) by {
        assert(s.to_multiset().count(s[i]) > 0);
    }
}

/// What two lists of lines give when each is written out, read back and the two are
/// woven, is made of the lines of both.
proof fn lemma_woven_made_of(
    s: Seq<Seq<u8>>,
    t: Seq<Seq<u8>>,
    right_first: spec_fn(Seq<u8>, Seq<u8>) -> bool,
)
    requires
        forall|i: int| 0 <= i < s.len() ==> is_line(#[trigger] s[i]),
        forall|i: int| 0 <= i < t.len() ==> is_line(#[trigger] t[i]),
    ensures
        made_of(
            woven(lines_of(s.flatten()), lines_of(t.flatten()), right_first).flatten(),
            s + t,
        ),
    decreases s.len() + t.len(),
{
    let a = lines_of(s.flatten());
    let b = lines_of(t.flatten());
    let w = woven(a, b, right_first);
    lemma_lines_of_flatten(s.flatten());
    lemma_lines_of_flatten(t.flatten());
    if s.len() == 0 {
        assert(t.to_multiset() == (s + t).to_multiset() && t.flatten() == w.flatten());
    } else if t.len() == 0 {
        assert(s.to_multiset() == (s + t).to_multiset() && s.flatten() == w.flatten());
    } else {
        let rs = lemma_first_group(s);
        let rt = lemma_first_group(t);
        if right_first(a[0], b[0]) {
            let t1 = t.skip(rt);
            lemma_woven_made_of(s, t1, right_first);
            let rest = woven(a, lines_of(t1.flatten()), right_first);
            let u1 = choose|u: Seq<Seq<u8>>| #[trigger]
                u.to_multiset() == (s + t1).to_multiset() && u.flatten() == rest.flatten();
            let u = t.take(rt) + u1;
            lemma_flatten_concat(t.take(rt), u1);
            lemma_flatten_concat(seq![b[0]], rest);
            seq![b[0]].lemma_flatten_one_element();
            lemma_multiset_commutative(t.take(rt), u1);
            lemma_multiset_commutative(s, t1);
            lemma_multiset_commutative(s, t);
            lemma_multiset_commutative(t.take(rt), t1);
            assert(t.take(rt) + t1 =~= t);
            assert(u.to_multiset() =~= (s + t).to_multiset());
        } else {
            let s1 = s.skip(rs);
            lemma_woven_made_of(s1, t, right_first);
            let rest = woven(lines_of(s1.flatten()), b, right_first);
            let u1 = choose|u: Seq<Seq<u8>>| #[trigger]
                u.to_multiset() == (s1 + t).to_multiset() && u.flatten() == rest.flatten();
            let u = s.take(rs) + u1;
            lemma_flatten_concat(s.take(rs), u1);
            lemma_flatten_concat(seq![a[0]], rest);
            seq![a[0]].lemma_flatten_one_element();
            lemma_multiset_commutative(s.take(rs), u1);
            lemma_multiset_commutative(s1, t);
            lemma_multiset_commutative(s, t);
            lemma_multiset_commutative(s.take(rs), s1);
            assert(s.take(rs) + s1 =~= s);
            assert(u.to_multiset() =~= (s + t).to_multiset());
        }
    }
}

/// Whatever the lines and the capacity, what the sort gives is made of the lines.
pub proof fn lemma_sorted_stream_made_of<F: Fn(&Vec<u8>) -> K, K: Ord>(
    f: F,
    lines: Seq<Seq<u8>>,
    cap: u64,
    rev: bool,
)
    requires
        lawful::<K>(),
        forall|i: int| 0 <= i < lines.len() ==> is_line(#[trigger] lines[i]),
    ensures
        made_of(sorted_stream(f, lines, cap, rev), lines),
    decreases lines.len(),
{
    let out = sorted_stream(f, lines, cap, rev);
    lemma_sorted_lines_multiset(f, lines, rev);
    let j = split_index(lines);
    if lines.len() >= 2 && lines.flatten().len() > cap && 1 <= j < lines.len() {
        let (left, right) = (lines.take(j), lines.skip(j));
        lemma_sorted_stream_made_of(f, left, cap, rev);
        lemma_sorted_stream_made_of(f, right, cap, rev);
        let s = choose|s: Seq<Seq<u8>>| #[trigger]
            s.to_multiset() == left.to_multiset() && s.flatten() == sorted_stream(
                f,
                left,
                cap,
                rev,
            );
        let t = choose|t: Seq<Seq<u8>>| #[trigger]
            t.to_multiset() == right.to_multiset() && t.flatten() == sorted_stream(
                f,
                right,
                cap,
                rev,
            );
        lemma_same_items_are_lines(s, left);
        lemma_same_items_are_lines(t, right);
        lemma_woven_made_of(s, t, overtakes(f, rev));
        let u = choose|u: Seq<Seq<u8>>| #[trigger]
            u.to_multiset() == (s + t).to_multiset() && u.flatten() == out;
        lemma_multiset_commutative(s, t);
        lemma_multiset_commutative(left, right);
        assert(left + right =~= lines);
    }
}

/// The keys of the output's lines never step back: of two lines of the output, the
/// later one's key is not ahead of the earlier one's.
pub proof fn law_ordering<F: Fn(&Vec<u8>) -> K, K: Ord>(f: F, input: Seq<u8>, cap: u64, rev: bool)
    requires
        lawful::<K>(),
        regular(f, lines_of(input), rev),
    ensures
        in_key_order(f, lines_of(sorted_stream(f, lines_of(input), cap, rev)), rev),
{
    let lines = lines_of(input);
    lemma_lines_of_delimited(input);
    lemma_sorted_stream_regular(f, lines, cap, rev);
    lemma_flatten_lines_of(sorted_lines(f, lines, rev));
    lemma_sorted_lines_in_order(f, lines, rev);
}

/// The output holds the lines of the input, each byte for byte and each as often as the
/// input holds it.
pub proof fn law_permutation<F: Fn(&Vec<u8>) -> K, K: Ord>(
    f: F,
    input: Seq<u8>,
    cap: u64,
    rev: bool,
)
    requires
        lawful::<K>(),
        regular(f, lines_of(input), rev),
    ensures
        lines_of(sorted_stream(f, lines_of(input), cap, rev)).to_multiset() == lines_of(
            input,
        ).to_multiset(),
{
    let lines = lines_of(input);
    lemma_lines_of_delimited(input);
    lemma_sorted_stream_regular(f, lines, cap, rev);
    lemma_flatten_lines_of(sorted_lines(f, lines, rev));
    lemma_sorted_lines_multiset(f, lines, rev);
}

/// Of two lines of the input with tied keys, the one that stands first in the input
/// stands first in the output, under both order modes.
pub proof fn law_stability<F: Fn(&Vec<u8>) -> K, K: Ord>(f: F, input: Seq<u8>, cap: u64, rev: bool)
    requires
        lawful::<K>(),
        regular(f, lines_of(input), rev),
    ensures
        ties_kept(f, lines_of(input), lines_of(sorted_stream(f, lines_of(input), cap, rev))),
{
    let lines = lines_of(input);
    lemma_lines_of_delimited(input);
    lemma_sorted_stream_regular(f, lines, cap, rev);
    lemma_flatten_lines_of(sorted_lines(f, lines, rev));
    lemma_sorted_lines_ties_kept(f, lines, rev);
}

/// Sorting the output again, with the same key and order mode and any capacity, gives
/// the output back.
pub proof fn law_idempotence<F: Fn(&Vec<u8>) -> K, K: Ord>(
    f: F,
    input: Seq<u8>,
    cap: u64,
    again: u64,
    rev: bool,
)
    requires
        lawful::<K>(),
        regular(f, lines_of(input), rev),
    ensures
        sorted_stream(f, lines_of(sorted_stream(f, lines_of(input), cap, rev)), again, rev)
            == sorted_stream(f, lines_of(input), cap, rev),
{
    let lines = lines_of(input);
    let sorted = sorted_lines(f, lines, rev);
    lemma_lines_of_delimited(input);
    lemma_sorted_stream_regular(f, lines, cap, rev);
    lemma_flatten_lines_of(sorted);
    lemma_sorted_lines_in_order(f, lines, rev);
    lemma_sorted_lines_fixed(f, sorted, rev);
    lemma_sorted_stream_regular(f, sorted, again, rev);
}

/// The capacity has no bearing on the output.
pub proof fn law_capacity_invariance<F: Fn(&Vec<u8>) -> K, K: Ord>(
    f: F,
    input: Seq<u8>,
    cap: u64,
    other: u64,
    rev: bool,
)
    requires
        lawful::<K>(),
        regular(f, lines_of(input), rev),
    ensures
        sorted_stream(f, lines_of(input), cap, rev) == sorted_stream(
            f,
            lines_of(input),
            other,
            rev,
        ),
{
    lemma_lines_of_delimited(input);
    lemma_sorted_stream_regular(f, lines_of(input), cap, rev);
    lemma_sorted_stream_regular(f, lines_of(input), other, rev);
}

/// Whatever the input and the capacity, the output is the lines of the input written
/// one after another in some order, each byte for byte and each as often as the input
/// holds it: a last line without delimiter is written without one, and every other line
/// with its one delimiter.
pub proof fn law_lines_verbatim<F: Fn(&Vec<u8>) -> K, K: Ord>(
    f: F,
    input: Seq<u8>,
    cap: u64,
    rev: bool,
)
    requires
        lawful::<K>(),
    ensures
        made_of(sorted_stream(f, lines_of(input), cap, rev), lines_of(input)),
{
    lemma_lines_of_delimited(input);
    lemma_sorted_stream_made_of(f, lines_of(input), cap, rev);
}

} // verus!
