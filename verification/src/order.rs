//! The order on elements, and the lexicographic order that it induces on
//! sequences of elements.
use core::cmp::Ordering;
use vstd::laws_cmp::*;
use vstd::laws_eq::*;
use vstd::multiset::Multiset;
use vstd::prelude::*;
use vstd::seq_lib::{to_multiset_build, to_multiset_remove};
use vstd::std_specs::cmp::{OrdSpec, PartialEqSpec, PartialOrdSpec};

verus! {

/// The comparisons of `T` form a total order, and two values compare equal
/// exactly when they are the same value.
pub open spec fn totally_ordered<T: Ord>() -> bool {
    &&& obeys_cmp::<T>()
    &&& obeys_concrete_eq::<T>()
}

/// `a` comes strictly before `b` in the order of `T`.
pub open spec fn precedes<T: Ord>(a: T, b: T) -> bool {
    a.cmp_spec(&b) == Ordering::Less
}

/// No value comes before itself.
pub proof fn lemma_precedes_irreflexive<T: Ord>(a: T)
    requires
        totally_ordered::<T>(),
    ensures
        !precedes(a, a),
{
    reveal(obeys_cmp_partial_ord);
    reveal(obeys_cmp_ord);
    reveal(obeys_concrete_eq);
}

/// Of two values at most one comes before the other.
pub proof fn lemma_precedes_asymmetric<T: Ord>(a: T, b: T)
    requires
        totally_ordered::<T>(),
        precedes(a, b),
    ensures
        !precedes(b, a),
{
    reveal(obeys_cmp_ord);
    reveal(obeys_partial_cmp_spec_properties);
}

/// Coming before is transitive.
pub proof fn lemma_precedes_transitive<T: Ord>(a: T, b: T, c: T)
    requires
        totally_ordered::<T>(),
        precedes(a, b),
        precedes(b, c),
    ensures
        precedes(a, c),
{
    reveal(obeys_cmp_ord);
    reveal(obeys_partial_cmp_spec_properties);
}

/// Of two different values one comes before the other.
pub proof fn lemma_precedes_connected<T: Ord>(a: T, b: T)
    requires
        totally_ordered::<T>(),
        a != b,
    ensures
        precedes(a, b) || precedes(b, a),
{
    reveal(obeys_cmp_partial_ord);
    reveal(obeys_cmp_ord);
    reveal(obeys_concrete_eq);
    reveal(obeys_partial_cmp_spec_properties);
}

/// Decides whether `a` comes before `b`.
pub fn is_before<T: Ord>(a: &T, b: &T) -> (r: bool)
    requires
        totally_ordered::<T>(),
    ensures
        r == precedes(*a, *b),
{
    proof {
        reveal(obeys_cmp_partial_ord);
        reveal(obeys_cmp_ord);
    }
    *a < *b
}

/// No element of `s` comes before an earlier element.
pub open spec fn non_descending<T: Ord>(s: Seq<T>) -> bool {
    forall|i: int, j: int| 0 <= i < j < s.len() ==> !precedes(s[j], s[i])
}

/// Each element of `s` comes before every later element.
pub open spec fn ascending<T: Ord>(s: Seq<T>) -> bool {
    forall|i: int, j: int| 0 <= i < j < s.len() ==> precedes(s[i], s[j])
}

/// Without repeated elements, an order that never descends ascends.
pub proof fn lemma_distinct_non_descending_ascends<T: Ord>(s: Seq<T>)
    requires
        totally_ordered::<T>(),
        non_descending(s),
        s.no_duplicates(),
    ensures
        ascending(s),
{
    assert forall|i: int, j: int| 0 <= i < j < s.len() implies precedes(s[i], s[j]) by {
        lemma_precedes_connected(s[i], s[j]);
    }
}

/// The position of an element of `items` that no other element comes before.
fn index_of_least<T: Ord>(items: &Vec<T>) -> (least: usize)
    requires
        totally_ordered::<T>(),
        items@.len() > 0,
    ensures
        least < items@.len(),
        forall|j: int| 0 <= j < items@.len() ==> !precedes(items@[j], items@[least as int]),
{
    let mut least: usize = 0;
    let mut next: usize = 1;
    proof {
        lemma_precedes_irreflexive(items@[0]);
    }
    while next < items.len()
        invariant
            totally_ordered::<T>(),
            least < next <= items@.len(),
            forall|j: int| 0 <= j < next ==> !precedes(items@[j], items@[least as int]),
        decreases items@.len() - next,
    {
        if is_before(&items[next], &items[least]) {
            proof {
                assert forall|j: int| 0 <= j < next + 1 implies !precedes(
                    items@[j],
                    items@[next as int],
                ) by {
                    if j == next {
                        lemma_precedes_irreflexive(items@[j]);
                    } else if precedes(items@[j], items@[next as int]) {
                        lemma_precedes_transitive(
                            items@[j],
                            items@[next as int],
                            items@[least as int],
                        );
                    }
                }
            }
            least = next;
        }
        next += 1;
    }
    least
}

/// Puts the items in order: the result holds what `items` held, and none of
/// its elements comes before an earlier one.
pub fn sort<T: Ord>(items: Vec<T>) -> (sorted: Vec<T>)
    requires
        totally_ordered::<T>(),
    ensures
        non_descending(sorted@),
        sorted@.to_multiset() == items@.to_multiset(),
{
    let mut rest = items;
    let mut sorted: Vec<T> = Vec::with_capacity(rest.len());
    assert(sorted@.to_multiset().add(rest@.to_multiset()) =~= items@.to_multiset()) by {
        sorted@.to_multiset_ensures();
    }
    while rest.len() > 0
        invariant
            totally_ordered::<T>(),
            non_descending(sorted@),
            forall|i: int, j: int|
                0 <= i < sorted@.len() && 0 <= j < rest@.len() ==> !precedes(rest@[j], sorted@[i]),
            sorted@.to_multiset().add(rest@.to_multiset()) == items@.to_multiset(),
        decreases rest@.len(),
    {
        let ghost before = rest@;
        let ghost done = sorted@;
        let least = index_of_least(&rest);
        let item = rest.remove(least);
        sorted.push(item);
        proof {
            to_multiset_remove(before, least as int);
            to_multiset_build(done, item);
            assert(before.to_multiset().count(item) > 0) by {
                before.to_multiset_ensures();
            }
            assert(sorted@.to_multiset().add(rest@.to_multiset()) =~= done.to_multiset().add(
                before.to_multiset(),
            ));
        }
    }
    assert(rest@.to_multiset() =~= Multiset::empty()) by {
        rest@.to_multiset_ensures();
    }
    sorted
}

/// `s` and `t` hold the same first `k` elements; then `s` ends while `t`
/// goes on, or `s` goes on with an element that comes before that of `t`.
pub open spec fn parts_at<T: Ord>(s: Seq<T>, t: Seq<T>, k: int) -> bool {
    &&& 0 <= k <= s.len()
    &&& k < t.len()
    &&& forall|i: int| 0 <= i < k ==> s[i] == t[i]
    &&& k < s.len() ==> precedes(s[k], t[k])
}

/// `s` comes strictly before `t` in lexicographic order.
pub open spec fn lex_precedes<T: Ord>(s: Seq<T>, t: Seq<T>) -> bool {
    exists|k: int| parts_at(s, t, k)
}

/// Each row comes, in lexicographic order, strictly before every later row.
pub open spec fn rows_ascending<T: Ord>(rows: Seq<Seq<T>>) -> bool {
    forall|i: int, j: int| 0 <= i < j < rows.len() ==> lex_precedes(rows[i], rows[j])
}

/// No sequence comes before itself.
pub proof fn lemma_lex_irreflexive<T: Ord>(s: Seq<T>)
    requires
        totally_ordered::<T>(),
    ensures
        !lex_precedes(s, s),
{
    if lex_precedes(s, s) {
        let k = choose|k: int| parts_at(s, s, k);
        lemma_precedes_irreflexive(s[k]);
    }
}

/// Of two sequences at most one comes before the other.
pub proof fn lemma_lex_asymmetric<T: Ord>(s: Seq<T>, t: Seq<T>)
    requires
        totally_ordered::<T>(),
        lex_precedes(s, t),
    ensures
        !lex_precedes(t, s),
{
    if lex_precedes(t, s) {
        let k1 = choose|k: int| parts_at(s, t, k);
        let k2 = choose|k: int| parts_at(t, s, k);
        if k1 < k2 {
            lemma_precedes_irreflexive(s[k1]);
        } else if k2 < k1 {
            lemma_precedes_irreflexive(t[k2]);
        } else {
            lemma_precedes_asymmetric(s[k1], t[k1]);
        }
    }
}

} // verus!
