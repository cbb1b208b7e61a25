//! What holds of every listing: its rows differ, the multiset alone decides
//! it, and it has as many rows as the multinomial coefficient says.
use crate::listing::{
    arranges, completes, lemma_lists_all_branches, lemma_lists_next_branch, lemma_lists_nothing,
    lemma_lists_permutations, lemma_lists_single, lists_completions, lists_completions_from,
    lists_permutations, permutes,
};
use crate::multinomial::{
    count_sum, factorial, lemma_count_sum_covers, lemma_factorial_product_distinct,
    lemma_repetitions_positive, lemma_repetitions_remove, repetitions,
};
use crate::order::{
    ascending, lemma_lex_asymmetric, lemma_lex_irreflexive, lemma_precedes_connected,
    lemma_precedes_irreflexive, lemma_precedes_transitive, precedes, rows_ascending,
    totally_ordered,
};
use vstd::arithmetic::div_mod::lemma_div_by_multiple;
use vstd::multiset::Multiset;
use vstd::prelude::*;

verus! {

/// In ascending rows no row occurs twice.
pub proof fn lemma_ascending_rows_differ<T: Ord>(rows: Seq<Seq<T>>, i: int, j: int)
    requires
        totally_ordered::<T>(),
        rows_ascending(rows),
        0 <= i < rows.len(),
        0 <= j < rows.len(),
        i != j,
    ensures
        rows[i] != rows[j],
{
    lemma_lex_irreflexive(rows[i]);
}

/// Two ascending listings of the same rows agree on their first `n` rows.
proof fn lemma_ascending_rows_agree<T: Ord>(a: Seq<Seq<T>>, b: Seq<Seq<T>>, n: int)
    requires
        totally_ordered::<T>(),
        rows_ascending(a),
        rows_ascending(b),
        forall|r: Seq<T>| a.contains(r) <==> b.contains(r),
        0 <= n <= a.len(),
        n <= b.len(),
    ensures
        forall|i: int| 0 <= i < n ==> a[i] == b[i],
    decreases n,
{
    if n > 0 {
        lemma_ascending_rows_agree(a, b, n - 1);
        let i = n - 1;
        assert(a.contains(a[i]));
        assert(b.contains(b[i]));
        let ja = choose|j: int| 0 <= j < b.len() && b[j] == a[i];
        let jb = choose|j: int| 0 <= j < a.len() && a[j] == b[i];
        if ja < i {
            lemma_ascending_rows_differ(a, ja, i);
        }
        if jb < i {
            lemma_ascending_rows_differ(b, jb, i);
        }
        if ja > i {
            if jb == i {
                lemma_lex_irreflexive(a[i]);
            } else {
                lemma_lex_asymmetric(a[i], b[i]);
            }
        }
    }
}

/// Strictly ascending order leaves no choice: two ascending listings of the
/// same rows are the same listing.
pub proof fn lemma_ascending_rows_unique<T: Ord>(a: Seq<Seq<T>>, b: Seq<Seq<T>>)
    requires
        totally_ordered::<T>(),
        rows_ascending(a),
        rows_ascending(b),
        forall|r: Seq<T>| a.contains(r) <==> b.contains(r),
    ensures
        a == b,
{
    let n = if a.len() <= b.len() { a.len() as int } else { b.len() as int };
    lemma_ascending_rows_agree(a, b, n);
    if a.len() < b.len() {
        assert(b.contains(b[n]));
        let x = choose|x: int| 0 <= x < a.len() && a[x] == b[n];
        lemma_ascending_rows_differ(b, x, n);
    }
    if b.len() < a.len() {
        assert(a.contains(a[n]));
        let x = choose|x: int| 0 <= x < b.len() && b[x] == a[n];
        lemma_ascending_rows_differ(a, x, n);
    }
}

/// Every row of a listing of completions is `head` followed by an
/// arrangement of `m`.
proof fn lemma_row_is_completion<T: Ord>(
    rows: Seq<Seq<T>>,
    head: Seq<T>,
    m: Multiset<T>,
    row: Seq<T>,
) -> (p: Seq<T>)
    requires
        lists_completions(rows, head, m),
        rows.contains(row),
    ensures
        arranges(p, m),
        row == head + p,
{
    let i = choose|i: int| 0 <= i < rows.len() && rows[i] == row;
    assert(completes(rows[i], head, m));
    let p = row.skip(head.len() as int);
    assert(row =~= head + p);
    p
}

/// The completions of `head` by the arrangements of `m` have one listing
/// only.
pub proof fn lemma_completions_unique<T: Ord>(
    a: Seq<Seq<T>>,
    b: Seq<Seq<T>>,
    head: Seq<T>,
    m: Multiset<T>,
)
    requires
        totally_ordered::<T>(),
        lists_completions(a, head, m),
        lists_completions(b, head, m),
    ensures
        a == b,
{
    assert forall|r: Seq<T>| a.contains(r) <==> b.contains(r) by {
        if a.contains(r) {
            lemma_row_is_completion(a, head, m, r);
        }
        if b.contains(r) {
            lemma_row_is_completion(b, head, m, r);
        }
    }
    lemma_ascending_rows_unique(a, b);
}

/// The listing depends on the input only through the multiset of its
/// elements: inputs that are rearrangements of each other have the same
/// listing.
pub proof fn lemma_order_independence<T: Ord>(
    input_a: Seq<T>,
    input_b: Seq<T>,
    rows_a: Seq<Seq<T>>,
    rows_b: Seq<Seq<T>>,
)
    requires
        totally_ordered::<T>(),
        permutes(input_a, input_b),
        lists_permutations(rows_a, input_a),
        lists_permutations(rows_b, input_b),
    ensures
        rows_a == rows_b,
{
    input_a.to_multiset_ensures();
    input_b.to_multiset_ensures();
    if input_a.len() > 0 {
        lemma_lists_permutations(rows_a, input_a);
        lemma_lists_permutations(rows_b, input_b);
        lemma_completions_unique(rows_a, rows_b, Seq::<T>::empty(), input_a.to_multiset());
    } else {
        assert(rows_a =~= rows_b);
    }
}

/// A non-empty finite set has an element that no other element comes before.
proof fn lemma_least_exists<T: Ord>(s: Set<T>) -> (least: T)
    requires
        totally_ordered::<T>(),
        s.finite(),
        s.len() > 0,
    ensures
        s.contains(least),
        forall|x: T| s.contains(x) ==> !precedes(x, least),
    decreases s.len(),
{
    let x = s.choose();
    let rest = s.remove(x);
    lemma_precedes_irreflexive(x);
    if rest.len() == 0 {
        assert forall|y: T| s.contains(y) implies y == x by {
            if y != x {
                assert(rest.contains(y));
            }
        }
        x
    } else {
        let least = lemma_least_exists(rest);
        if precedes(x, least) {
            assert forall|y: T| s.contains(y) implies !precedes(y, x) by {
                if precedes(y, x) {
                    assert(rest.contains(y));
                    lemma_precedes_transitive(y, x, least);
                }
            }
            x
        } else {
            assert forall|y: T| s.contains(y) implies !precedes(y, least) by {
                if y != x {
                    assert(rest.contains(y));
                }
            }
            least
        }
    }
}

/// The elements of a finite set can be listed in ascending order.
proof fn lemma_ascending_keys_exist<T: Ord>(s: Set<T>) -> (keys: Seq<T>)
    requires
        totally_ordered::<T>(),
        s.finite(),
    ensures
        ascending(keys),
        forall|v: T| keys.contains(v) <==> s.contains(v),
    decreases s.len(),
{
    if s.len() == 0 {
        Seq::<T>::empty()
    } else {
        let least = lemma_least_exists(s);
        let rest = lemma_ascending_keys_exist(s.remove(least));
        let keys = seq![least] + rest;
        assert forall|i: int, j: int| 0 <= i < j < keys.len() implies precedes(
            keys[i],
            keys[j],
        ) by {
            assert(rest.contains(rest[j - 1]));
            if i == 0 {
                lemma_precedes_connected(least, keys[j]);
            }
        }
        assert forall|v: T| keys.contains(v) <==> s.contains(v) by {
            if keys.contains(v) {
                let i = choose|i: int| 0 <= i < keys.len() && keys[i] == v;
                if i > 0 {
                    assert(rest.contains(rest[i - 1]));
                }
            }
            if s.contains(v) && v != least {
                assert(rest.contains(v));
                let i = choose|i: int| 0 <= i < rest.len() && rest[i] == v;
                assert(keys[i + 1] == v);
            }
            if v == least {
                assert(keys[0] == v);
            }
        }
        keys
    }
}

/// One more branch keeps the number of rows in step with the number of
/// occurrences of the first elements tried so far: with `listed` rows for
/// `tried` occurrences, and `branch` rows for the `count` occurrences of the
/// next first element.
proof fn lemma_branch_count(
    listed: nat,
    branch: nat,
    reps: nat,
    reps_less: nat,
    per_branch: nat,
    tried: nat,
    count: nat,
)
    requires
        listed * reps == per_branch * tried,
        branch * reps_less == per_branch,
        reps == count * reps_less,
    ensures
        (listed + branch) * reps == per_branch * (tried + count),
{
    assert((listed + branch) * reps == listed * reps + branch * reps) by (nonlinear_arith);
    assert(branch * reps == count * (branch * reps_less)) by (nonlinear_arith)
        requires
            reps == count * reps_less,
    ;
    assert(per_branch * (tried + count) == per_branch * tried + count * per_branch)
        by (nonlinear_arith);
}

/// The completions of `head` whose first element after `head` is one of
/// the first `j` keys have a listing, of as many rows as these keys have
/// occurrences in `m`, times `(n - 1)!`, divided by the repetitions of `m`.
proof fn lemma_branches_exist<T: Ord>(
    head: Seq<T>,
    m: Multiset<T>,
    keys: Seq<T>,
    j: int,
) -> (rows: Seq<Seq<T>>)
    requires
        totally_ordered::<T>(),
        m.len() > 0,
        ascending(keys),
        forall|v: T| keys.contains(v) ==> m.count(v) > 0,
        0 <= j <= keys.len(),
    ensures
        lists_completions_from(rows, head, m, keys.take(j)),
        rows.len() * repetitions(m) == factorial((m.len() - 1) as nat) * count_sum(
            keys.take(j),
            m,
        ),
    decreases m.len(), 0int, j,
{
    let per_branch = factorial((m.len() - 1) as nat);
    if j == 0 {
        lemma_lists_nothing(head, m);
        assert(0 * repetitions(m) == 0) by (nonlinear_arith);
        assert(per_branch * 0 == 0) by (nonlinear_arith);
        Seq::<Seq<T>>::empty()
    } else {
        let v = keys[j - 1];
        assert(keys.contains(v));
        let rows = lemma_branches_exist(head, m, keys, j - 1);
        let branch = lemma_completions_exist(head.push(v), m.remove(v));
        lemma_lists_next_branch(rows, branch, head, m, keys, j - 1);
        lemma_repetitions_remove(m, v);
        assert(keys.take(j).drop_last() =~= keys.take(j - 1));
        lemma_branch_count(
            rows.len(),
            branch.len(),
            repetitions(m),
            repetitions(m.remove(v)),
            per_branch,
            count_sum(keys.take(j - 1), m),
            m.count(v),
        );
        rows + branch
    }
}

/// The completions of `head` by the arrangements of `m` have a listing, of
/// `n! / (c1! * ... * ck!)` rows.
proof fn lemma_completions_exist<T: Ord>(head: Seq<T>, m: Multiset<T>) -> (rows: Seq<Seq<T>>)
    requires
        totally_ordered::<T>(),
    ensures
        lists_completions(rows, head, m),
        rows.len() * repetitions(m) == factorial(m.len()),
    decreases m.len(), 1int, 0int,
{
    if m.len() == 0 {
        assert(m =~= Multiset::empty());
        lemma_lists_single(head);
        assert(repetitions(m) == 1 && factorial(m.len()) == 1);
        seq![head]
    } else {
        let keys = lemma_ascending_keys_exist(m.dom());
        let rows = lemma_branches_exist(head, m, keys, keys.len() as int);
        assert(keys.take(keys.len() as int) =~= keys);
        lemma_lists_all_branches(rows, head, m, keys);
        assert forall|i: int, j: int| 0 <= i < j < keys.len() implies keys[i] != keys[j] by {
            lemma_precedes_irreflexive(keys[i]);
        }
        lemma_count_sum_covers(keys, m);
        let per_branch = factorial((m.len() - 1) as nat);
        assert(per_branch * m.len() == m.len() * per_branch) by (nonlinear_arith);
        rows
    }
}

/// A listing of the completions of `head` by the arrangements of the `n`
/// elements of `m` has `n! / (c1! * ... * ck!)` rows, where `c1, ..., ck`
/// are the multiplicities of the distinct values of `m`.
pub proof fn lemma_completions_count<T: Ord>(rows: Seq<Seq<T>>, head: Seq<T>, m: Multiset<T>)
    requires
        totally_ordered::<T>(),
        lists_completions(rows, head, m),
    ensures
        rows.len() * repetitions(m) == factorial(m.len()),
        rows.len() == factorial(m.len()) / repetitions(m),
{
    let built = lemma_completions_exist(head, m);
    lemma_completions_unique(rows, built, head, m);
    lemma_repetitions_positive(m);
    lemma_div_by_multiple(rows.len() as int, repetitions(m) as int);
}

/// A non-empty input of `n` elements, whose distinct values occur `c1, ...,
/// ck` times, has `n! / (c1! * ... * ck!)` distinct permutations.
pub proof fn lemma_permutations_count<T: Ord>(rows: Seq<Seq<T>>, input: Seq<T>)
    requires
        totally_ordered::<T>(),
        input.len() > 0,
        lists_permutations(rows, input),
    ensures
        rows.len() * repetitions(input.to_multiset()) == factorial(input.len()),
        rows.len() == factorial(input.len()) / repetitions(input.to_multiset()),
{
    input.to_multiset_ensures();
    lemma_lists_permutations(rows, input);
    lemma_completions_count(rows, Seq::<T>::empty(), input.to_multiset());
}

/// A non-empty input of `n` elements of which no two are the same has `n!`
/// distinct permutations: all its permutations.
pub proof fn lemma_permutations_count_distinct<T: Ord>(rows: Seq<Seq<T>>, input: Seq<T>)
    requires
        totally_ordered::<T>(),
        input.len() > 0,
        input.no_duplicates(),
        lists_permutations(rows, input),
    ensures
        rows.len() == factorial(input.len()),
{
    let m = input.to_multiset();
    lemma_permutations_count(rows, input);
    input.lemma_multiset_has_no_duplicates();
    lemma_factorial_product_distinct(m.dom(), m);
    assert(rows.len() * 1 == rows.len());
}

} // verus!
