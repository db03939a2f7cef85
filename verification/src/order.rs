//! The order that a key type's `Ord` implementation induces, under either order mode.

use core::cmp::Ordering;
use crate::width::IndexWidth;
use vstd::prelude::*;
use vstd::std_specs::cmp::OrdSpec;

verus! {

/// The comparison operators of `K` agree with their specifications, and those
/// specifications describe a total order (up to the equivalence that `Ord` calls `Equal`).
pub open spec fn lawful<K: Ord>() -> bool {
    vstd::laws_cmp::obeys_cmp::<K>()
}

/// `a` sorts strictly before `b` in `K`'s natural order.
pub open spec fn below<K: Ord>(a: K, b: K) -> bool {
    a.cmp_spec(&b) == Ordering::Less
}

/// `a` is strictly ahead of `b` under the order mode: the smaller key is ahead when
/// ascending (`rev == false`), the larger one when descending (`rev == true`).
pub open spec fn precedes<K: Ord>(a: K, b: K, rev: bool) -> bool {
    if rev {
        below(b, a)
    } else {
        below(a, b)
    }
}

/// Neither key is strictly ahead of the other, under either mode.
pub open spec fn tied<K: Ord>(a: K, b: K) -> bool {
    !below(a, b) && !below(b, a)
}

/// A key is never ahead of itself.
pub proof fn lemma_precedes_irreflexive<K: Ord>(a: K, rev: bool)
    requires
        lawful::<K>(),
    ensures
        !precedes(a, a, rev),
{
    reveal(vstd::laws_cmp::obeys_cmp_ord);
    reveal(vstd::laws_cmp::obeys_partial_cmp_spec_properties);
}

/// Two keys are never each ahead of the other.
pub proof fn lemma_precedes_asymmetric<K: Ord>(a: K, b: K, rev: bool)
    requires
        lawful::<K>(),
        precedes(a, b, rev),
    ensures
        !precedes(b, a, rev),
{
    reveal(vstd::laws_cmp::obeys_cmp_ord);
    reveal(vstd::laws_cmp::obeys_partial_cmp_spec_properties);
}

/// Being ahead is transitive.
pub proof fn lemma_precedes_transitive<K: Ord>(a: K, b: K, c: K, rev: bool)
    requires
        lawful::<K>(),
        precedes(a, b, rev),
        precedes(b, c, rev),
    ensures
        precedes(a, c, rev),
{
    reveal(vstd::laws_cmp::obeys_cmp_ord);
    reveal(vstd::laws_cmp::obeys_partial_cmp_spec_properties);
}

/// Not being ahead is transitive too, which makes `precedes` a strict weak order: keys
/// fall into classes of tied keys, and the classes are totally ordered.
pub proof fn lemma_not_precedes_transitive<K: Ord>(a: K, b: K, c: K, rev: bool)
    requires
        lawful::<K>(),
        !precedes(a, b, rev),
        !precedes(b, c, rev),
    ensures
        !precedes(a, c, rev),
{
    reveal(vstd::laws_cmp::obeys_cmp_ord);
    reveal(vstd::laws_cmp::obeys_partial_cmp_spec_properties);
    reveal(vstd::laws_eq::obeys_eq_spec_properties);
}

/// Whether `a` is strictly ahead of `b` under the order mode, decided by `K`'s own
/// comparison operators.
pub fn ahead<K: Ord>(a: &K, b: &K, rev: bool) -> (r: bool)
    requires
        lawful::<K>(),
    ensures
        r == precedes(*a, *b, rev),
{
    proof {
        reveal(vstd::laws_cmp::obeys_cmp_partial_ord);
        reveal(vstd::laws_cmp::obeys_cmp_ord);
        reveal(vstd::laws_cmp::obeys_partial_cmp_spec_properties);
    }
    if rev {
        *a > *b
    } else {
        *a < *b
    }
}

/// The order of the key table's rows: by key under the order mode, and among tied keys
/// by position, lower first under both modes.
pub open spec fn row_ahead<K: Ord, I: IndexWidth>(a: (K, I), b: (K, I), rev: bool) -> bool {
    precedes(a.0, b.0, rev) || (!precedes(b.0, a.0, rev) && a.1.position() < b.1.position())
}

/// Three-way comparison of two rows of the key table, as `row_ahead` orders them.
pub fn row_order<K: Ord, I: IndexWidth>(a: &(K, I), b: &(K, I), rev: bool) -> (o: Ordering)
    requires
        lawful::<K>(),
    ensures
        (o == Ordering::Less) == row_ahead(*a, *b, rev),
        (o == Ordering::Greater) == row_ahead(*b, *a, rev),
{
    proof {
        reveal(vstd::laws_cmp::obeys_cmp_ord);
        reveal(vstd::laws_cmp::obeys_partial_cmp_spec_properties);
    }
    let by_key = a.0.cmp(&b.0);
    let x = a.1.to_usize();
    let y = b.1.to_usize();
    match by_key {
        Ordering::Less => if rev {
            Ordering::Greater
        } else {
            Ordering::Less
        },
        Ordering::Greater => if rev {
            Ordering::Less
        } else {
            Ordering::Greater
        },
        Ordering::Equal => if x < y {
            Ordering::Less
        } else if y < x {
            Ordering::Greater
        } else {
            Ordering::Equal
        },
    }
}

/// Sorts the key table with `slice::sort_unstable_by`, comparing rows with `row_order`.
///
/// Trusted: the standard library documents that the call sorts the slice in place
/// according to the comparison function, and that it may panic or leave the order
/// unspecified only when that function is not a total order. `row_order` is one whenever
/// `K` is lawful. The contract claims that the rows afterwards are the rows before, each
/// as often as before, and that no row stands behind a row it is ahead of.
#[verifier::external_body]
pub(crate) fn sort_rows<K: Ord, I: IndexWidth>(rows: &mut Vec<(K, I)>, rev: bool)
    requires
        lawful::<K>(),
    ensures
        final(rows)@.to_multiset() == old(rows)@.to_multiset(),
        forall|a: int, b: int|
            0 <= a < b < final(rows)@.len() ==> !row_ahead(
                #[trigger] final(rows)@[b],
                #[trigger] final(rows)@[a],
                rev,
            ),
{
    rows.sort_unstable_by(|a, b| row_order(a, b, rev));
}

} // verus!
