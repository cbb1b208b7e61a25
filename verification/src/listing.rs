//! What it means for a sequence of rows to list the arrangements of a
//! multiset, and how such a listing grows branch by branch.
use crate::order::{ascending, lex_precedes, parts_at, precedes, rows_ascending, totally_ordered};
use vstd::multiset::Multiset;
use vstd::prelude::*;
use vstd::seq_lib::to_multiset_remove;

verus! {

/// `p` holds the elements of `m`, each as often as `m` does.
pub open spec fn arranges<T>(p: Seq<T>, m: Multiset<T>) -> bool {
    p.to_multiset() == m
}

/// `p` is a rearrangement of `input`.
pub open spec fn permutes<T>(p: Seq<T>, input: Seq<T>) -> bool {
    p.to_multiset() == input.to_multiset()
}

/// `row` begins with `head` and goes on with an arrangement of `m`.
pub open spec fn completes<T>(row: Seq<T>, head: Seq<T>, m: Multiset<T>) -> bool {
    &&& head.len() <= row.len()
    &&& row.take(head.len() as int) == head
    &&& arranges(row.skip(head.len() as int), m)
}

/// `rows` lists, in strictly ascending lexicographic order, the sequences
/// that complete `head` by an arrangement of `m`: all of them, and nothing
/// else.
pub open spec fn lists_completions<T: Ord>(
    rows: Seq<Seq<T>>,
    head: Seq<T>,
    m: Multiset<T>,
) -> bool {
    &&& rows_ascending(rows)
    &&& forall|i: int| 0 <= i < rows.len() ==> completes(#[trigger] rows[i], head, m)
    &&& forall|p: Seq<T>| #[trigger] arranges(p, m) ==> rows.contains(head + p)
}

/// As `lists_completions`, but only of the completions whose first element
/// after `head` is one of `firsts`.
pub(crate) open spec fn lists_completions_from<T: Ord>(
    rows: Seq<Seq<T>>,
    head: Seq<T>,
    m: Multiset<T>,
    firsts: Seq<T>,
) -> bool {
    &&& rows_ascending(rows)
    &&& forall|i: int|
        0 <= i < rows.len() ==> {
            &&& completes(#[trigger] rows[i], head, m)
            &&& head.len() < rows[i].len()
            &&& firsts.contains(rows[i][head.len() as int])
        }
    &&& forall|p: Seq<T>| #[trigger]
        arranges(p, m) && p.len() > 0 && firsts.contains(p[0]) ==> rows.contains(head + p)
}

/// `rows` lists the distinct permutations of `input` in strictly ascending
/// lexicographic order: each row is a rearrangement of `input`, and every
/// rearrangement of `input` is a row. Of an empty `input` nothing is listed.
pub open spec fn lists_permutations<T: Ord>(rows: Seq<Seq<T>>, input: Seq<T>) -> bool {
    if input.len() == 0 {
        rows.len() == 0
    } else {
        &&& rows_ascending(rows)
        &&& forall|i: int| 0 <= i < rows.len() ==> permutes(#[trigger] rows[i], input)
        &&& forall|p: Seq<T>| #[trigger] permutes(p, input) ==> rows.contains(p)
    }
}

/// Before any first element is tried, nothing is to be listed.
pub(crate) proof fn lemma_lists_nothing<T: Ord>(head: Seq<T>, m: Multiset<T>)
    ensures
        lists_completions_from(Seq::<Seq<T>>::empty(), head, m, Seq::<T>::empty()),
{
}

/// With nothing left to arrange, `head` is its own single completion.
pub(crate) proof fn lemma_lists_single<T: Ord>(head: Seq<T>)
    ensures
        lists_completions(seq![head], head, Multiset::<T>::empty()),
{
    let rows = seq![head];
    let none = Multiset::<T>::empty();
    assert(head.take(head.len() as int) =~= head);
    assert(head.skip(head.len() as int) =~= Seq::<T>::empty());
    Seq::<T>::empty().to_multiset_ensures();
    assert(Seq::<T>::empty().to_multiset() =~= none);
    assert forall|p: Seq<T>| #[trigger] arranges(p, none) implies rows.contains(head + p) by {
        p.to_multiset_ensures();
        assert(rows[0] == head);
    }
}

/// A row that completes `head` and `v` by an arrangement of `m` without one
/// `v` completes `head` by an arrangement of `m`, one that begins with `v`.
proof fn lemma_completes_shorter_head<T>(row: Seq<T>, head: Seq<T>, v: T, m: Multiset<T>)
    requires
        m.count(v) > 0,
        completes(row, head.push(v), m.remove(v)),
    ensures
        completes(row, head, m),
        head.len() < row.len(),
        row[head.len() as int] == v,
{
    let h = head.len() as int;
    let tail = row.skip(h + 1);
    assert(row.take(h + 1)[h] == v);
    assert(row.take(h) =~= head) by {
        assert forall|k: int| 0 <= k < h implies row.take(h)[k] == head[k] by {
            assert(row.take(h + 1)[k] == head.push(v)[k]);
        }
    }
    assert(row.skip(h).remove(0) =~= tail);
    to_multiset_remove(row.skip(h), 0);
    row.skip(h).to_multiset_ensures();
    assert(row.skip(h)[0] == v);
    assert(row.skip(h).to_multiset() =~= m.remove(v).insert(v));
    assert(m.remove(v).insert(v) =~= m);
}

/// The rows that complete `head` through the next first element follow the
/// rows listed for the earlier first elements.
pub(crate) proof fn lemma_lists_next_branch<T: Ord>(
    rows: Seq<Seq<T>>,
    branch: Seq<Seq<T>>,
    head: Seq<T>,
    m: Multiset<T>,
    keys: Seq<T>,
    j: int,
)
    requires
        totally_ordered::<T>(),
        0 <= j < keys.len(),
        ascending(keys),
        m.count(keys[j]) > 0,
        lists_completions_from(rows, head, m, keys.take(j)),
        lists_completions(branch, head.push(keys[j]), m.remove(keys[j])),
    ensures
        lists_completions_from(rows + branch, head, m, keys.take(j + 1)),
{
    let v = keys[j];
    let h = head.len() as int;
    let longer = head.push(v);
    let less = m.remove(v);
    let all = rows + branch;
    let firsts = keys.take(j + 1);
    assert(firsts[j] == v);
    assert forall|x: T| keys.take(j).contains(x) implies firsts.contains(x) && precedes(x, v) by {
        let i = choose|i: int| 0 <= i < j && keys.take(j)[i] == x;
        assert(firsts[i] == x);
    }
    assert forall|i: int| 0 <= i < branch.len() implies {
        &&& completes(#[trigger] branch[i], head, m)
        &&& h < branch[i].len()
        &&& branch[i][h] == v
    } by {
        lemma_completes_shorter_head(branch[i], head, v, m);
    }
    assert forall|a: int, b: int| 0 <= a < b < all.len() implies lex_precedes(all[a], all[b]) by {
        if a < rows.len() <= b {
            let r = rows[a];
            let t = branch[b - rows.len()];
            assert forall|k: int| 0 <= k < h implies r[k] == t[k] by {
                assert(r.take(h)[k] == head[k]);
                assert(t.take(h)[k] == head[k]);
            }
            assert(parts_at(r, t, h));
        }
    }
    assert forall|i: int| 0 <= i < all.len() implies {
        &&& completes(#[trigger] all[i], head, m)
        &&& h < all[i].len()
        &&& firsts.contains(all[i][h])
    } by {
        if i >= rows.len() {
            assert(all[i] == branch[i - rows.len()]);
        }
    }
    assert forall|p: Seq<T>| #[trigger]
        arranges(p, m) && p.len() > 0 && firsts.contains(p[0]) implies all.contains(head + p) by {
        if keys.take(j).contains(p[0]) {
            let i = choose|i: int| 0 <= i < rows.len() && rows[i] == head + p;
            assert(all[i] == head + p);
        } else {
            let i = choose|i: int| 0 <= i < firsts.len() && firsts[i] == p[0];
            if i < j {
                assert(keys.take(j)[i] == p[0]);
            }
            let q = p.remove(0);
            to_multiset_remove(p, 0);
            assert(arranges(q, less));
            assert(longer + q =~= head + p);
            let i = choose|i: int| 0 <= i < branch.len() && branch[i] == head + p;
            assert(all[rows.len() + i] == head + p);
        }
    }
}

/// Once every value of a non-empty `m` has been tried as the first element,
/// every completion is listed.
pub(crate) proof fn lemma_lists_all_branches<T: Ord>(
    rows: Seq<Seq<T>>,
    head: Seq<T>,
    m: Multiset<T>,
    keys: Seq<T>,
)
    requires
        m.len() > 0,
        forall|v: T| m.count(v) > 0 ==> keys.contains(v),
        lists_completions_from(rows, head, m, keys),
    ensures
        lists_completions(rows, head, m),
{
    assert forall|p: Seq<T>| #[trigger] arranges(p, m) implies rows.contains(head + p) by {
        p.to_multiset_ensures();
    }
}

/// The permutations of a non-empty `input` are the completions of an empty
/// head by the arrangements of the elements of `input`.
pub(crate) proof fn lemma_lists_permutations<T: Ord>(rows: Seq<Seq<T>>, input: Seq<T>)
    requires
        input.len() > 0,
    ensures
        lists_permutations(rows, input) <==> lists_completions(
            rows,
            Seq::<T>::empty(),
            input.to_multiset(),
        ),
{
    let none = Seq::<T>::empty();
    let m = input.to_multiset();
    if lists_completions(rows, none, m) {
        assert forall|i: int| 0 <= i < rows.len() implies permutes(#[trigger] rows[i], input) by {
            assert(rows[i].skip(0) =~= rows[i]);
        }
        assert forall|p: Seq<T>| #[trigger] permutes(p, input) implies rows.contains(p) by {
            assert(arranges(p, m));
            assert(none + p =~= p);
        }
    }
    if lists_permutations(rows, input) {
        assert forall|i: int| 0 <= i < rows.len() implies completes(
            #[trigger] rows[i],
            none,
            m,
        ) by {
            assert(rows[i].skip(0) =~= rows[i]);
            assert(rows[i].take(0) =~= none);
        }
        assert forall|p: Seq<T>| #[trigger] arranges(p, m) implies rows.contains(none + p) by {
            assert(permutes(p, input));
            assert(none + p =~= p);
        }
    }
}

} // verus!
