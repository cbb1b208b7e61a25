//! The backtracking search that lists the distinct permutations.
use crate::counts::{keyable, tally, Counts};
use crate::laws::{
    lemma_ascending_rows_differ, lemma_completions_count, lemma_permutations_count,
    lemma_permutations_count_distinct,
};
use crate::listing::{
    lemma_lists_all_branches, lemma_lists_next_branch, lemma_lists_nothing,
    lemma_lists_permutations, lemma_lists_single, lists_completions, lists_completions_from,
    lists_permutations,
};
use crate::multinomial::{factorial, repetitions};
use crate::order::{ascending, lemma_distinct_non_descending_ascends, sort, totally_ordered};
use std::hash::Hash;
use vstd::multiset::Multiset;
use vstd::prelude::*;

verus! {

/// The rows of a result, each as the sequence of its elements.
pub open spec fn rows_of<T>(out: Seq<Vec<T>>) -> Seq<Seq<T>> {
    out.map_values(|row: Vec<T>| row@)
}

/// Lists the completions of `head` by the arrangements of what `counts`
/// holds, in ascending lexicographic order; where `counts` holds nothing, it
/// lists nothing. While it runs it extends `head` and takes from `counts`;
/// when it returns both are as they were.
pub fn distinct_permutations_with<T>(
    head: &mut Vec<T>,
    counts: &mut Counts<T>,
) -> (result: Vec<Vec<T>>)
    where
        T: Eq + Hash + Clone + Ord,
    requires
        keyable::<T>(),
        totally_ordered::<T>(),
        old(counts).wf(),
    ensures
        final(head)@ == old(head)@,
        final(counts).wf(),
        final(counts)@ == old(counts)@,
        old(counts)@.len() == 0 ==> result@.len() == 0,
        old(counts)@.len() > 0 ==> lists_completions(
            rows_of(result@),
            old(head)@,
            old(counts)@,
        ),
        old(counts)@.len() > 0 ==> result@.len() * repetitions(old(counts)@) == factorial(
            old(counts)@.len(),
        ),
    decreases old(counts)@.len(),
{
    let ghost start = head@;
    let ghost m = counts@;
    let mut result: Vec<Vec<T>> = Vec::new();
    let unordered = counts.keys();
    let keys = sort(unordered);
    let ghost ks = keys@;
    proof {
        unordered@.to_multiset_ensures();
        ks.to_multiset_ensures();
        unordered@.lemma_multiset_has_no_duplicates();
        ks.lemma_multiset_has_no_duplicates_conv();
        lemma_distinct_non_descending_ascends(ks);
        assert forall|v: T| ks.contains(v) <==> m.count(v) > 0 by {
            assert(unordered@.contains(v) <==> unordered@.to_multiset().count(v) > 0);
            assert(ks.contains(v) <==> ks.to_multiset().count(v) > 0);
        }
        lemma_lists_nothing(start, m);
    }
    for value in it: keys
        invariant
            keyable::<T>(),
            totally_ordered::<T>(),
            it.seq() == ks,
            ascending(ks),
            forall|v: T| ks.contains(v) <==> m.count(v) > 0,
            head@ == start,
            counts.wf(),
            counts@ == m,
            m == old(counts)@,
            lists_completions_from(rows_of(result@), start, m, ks.take(it.index())),
    {
        let ghost j = it.index();
        let ghost listed = result@;
        let ghost branch: Seq<Vec<T>>;
        assert(ks.contains(value));
        proof {
            counts.lemma_count_fits(value);
        }
        let chosen = value.clone();
        assert(cloned::<T>(value, chosen));
        head.push(chosen);
        counts.remove(&value);
        if counts.is_empty() {
            let row = head.clone();
            proof {
                assert(row@ =~= head@) by {
                    assert forall|k: int| 0 <= k < row@.len() implies row@[k] == head@[k] by {
                        assert(cloned::<T>(head@[k], row@[k]));
                    }
                }
                assert(counts@ =~= Multiset::empty());
                lemma_lists_single(head@);
                branch = seq![row];
                assert(rows_of(branch) =~= seq![head@]);
            }
            result.push(row);
        } else {
            let mut deeper = distinct_permutations_with(head, counts);
            proof {
                branch = deeper@;
            }
            result.append(&mut deeper);
        }
        head.pop();
        counts.add(value);
        proof {
            assert(rows_of(result@) =~= rows_of(listed) + rows_of(branch));
            lemma_lists_next_branch(rows_of(listed), rows_of(branch), start, m, ks, j);
        }
    }
    proof {
        assert(ks.take(ks.len() as int) =~= ks);
        if m.len() > 0 {
            lemma_lists_all_branches(rows_of(result@), start, m, ks);
            lemma_completions_count(rows_of(result@), start, m);
        } else if result@.len() > 0 {
            let first = rows_of(result@)[0];
            assert(ks.contains(first[start.len() as int]));
            assert(m.count(first[start.len() as int]) > 0);
        }
    }
    result
}

/// Returns the permutations of `input` that differ as sequences of values,
/// each once, in ascending lexicographic order. Of an empty input it returns
/// nothing.
///
/// A non-empty input of `n` elements, whose distinct values occur `c1, ...,
/// ck` times, has `n! / (c1! * ... * ck!)` such permutations; where no value
/// occurs twice these are all `n!` permutations.
pub fn distinct_permutations<T>(input: Vec<T>) -> (out: Vec<Vec<T>>)
    where
        T: Eq + Hash + Clone + Ord,
    requires
        keyable::<T>(),
        totally_ordered::<T>(),
    ensures
        lists_permutations(rows_of(out@), input@),
        forall|i: int, j: int| 0 <= i < j < out@.len() ==> out@[i]@ != out@[j]@,
        input@.len() > 0 ==> out@.len() * repetitions(input@.to_multiset()) == factorial(
            input@.len(),
        ),
        input@.len() > 0 ==> out@.len() == factorial(input@.len()) / repetitions(
            input@.to_multiset(),
        ),
        input@.len() > 0 && input@.no_duplicates() ==> out@.len() == factorial(input@.len()),
{
    let total_len = input.len();
    let mut counts = Counts::from(tally(input));
    let mut head: Vec<T> = Vec::with_capacity(total_len);
    let out = distinct_permutations_with(&mut head, &mut counts);
    proof {
        let rows = rows_of(out@);
        input@.to_multiset_ensures();
        if input@.len() > 0 {
            lemma_lists_permutations(rows, input@);
            lemma_permutations_count(rows, input@);
            if input@.no_duplicates() {
                lemma_permutations_count_distinct(rows, input@);
            }
            assert forall|i: int, j: int| 0 <= i < j < out@.len() implies out@[i]@ != out@[j]@ by {
                lemma_ascending_rows_differ(rows, i, j);
            }
        }
    }
    out
}

} // verus!
