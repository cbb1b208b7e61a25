//! The arithmetic behind the number of arrangements of a multiset:
//! factorials, and the product of the factorials of the multiplicities.
use vstd::multiset::*;
use vstd::prelude::*;

verus! {

/// `n! = 1 * 2 * ... * n`.
pub open spec fn factorial(n: nat) -> nat
    decreases n,
{
    if n == 0 {
        1
    } else {
        n * factorial((n - 1) as nat)
    }
}

/// The product, over the values `k` in `keys`, of the factorial of the number
/// of times that `k` occurs in `m`.
pub open spec fn factorial_product<T>(keys: Set<T>, m: Multiset<T>) -> nat
    decreases keys.len(),
    when keys.finite()
{
    if keys.len() == 0 {
        1
    } else {
        let k = keys.choose();
        factorial(m.count(k)) * factorial_product(keys.remove(k), m)
    }
}

/// `c1! * c2! * ... * ck!`, where `c1, ..., ck` are the multiplicities of the
/// distinct values of `m`: the number of ways to reorder an arrangement of `m`
/// without changing it.
pub open spec fn repetitions<T>(m: Multiset<T>) -> nat {
    factorial_product(m.dom(), m)
}

/// The sum of the multiplicities in `m` of the values listed in `keys`.
pub(crate) open spec fn count_sum<T>(keys: Seq<T>, m: Multiset<T>) -> nat
    decreases keys.len(),
{
    if keys.len() == 0 {
        0
    } else {
        count_sum(keys.drop_last(), m) + m.count(keys.last())
    }
}

/// A factorial is never zero.
pub proof fn lemma_factorial_positive(n: nat)
    ensures
        factorial(n) > 0,
    decreases n,
{
    if n > 0 {
        lemma_factorial_positive((n - 1) as nat);
        assert(n * factorial((n - 1) as nat) > 0) by (nonlinear_arith)
            requires
                n > 0,
                factorial((n - 1) as nat) > 0,
        ;
    }
}

/// Any value of `keys` can be taken out of the product first.
pub proof fn lemma_factorial_product_extract<T>(keys: Set<T>, m: Multiset<T>, v: T)
    requires
        keys.finite(),
        keys.contains(v),
    ensures
        factorial_product(keys, m) == factorial(m.count(v)) * factorial_product(keys.remove(v), m),
    decreases keys.len(),
{
    let k = keys.choose();
    if k != v {
        let rest = keys.remove(k).remove(v);
        assert(keys.remove(v).remove(k) =~= rest);
        lemma_factorial_product_extract(keys.remove(k), m, v);
        lemma_factorial_product_extract(keys.remove(v), m, k);
        let fk = factorial(m.count(k));
        let fv = factorial(m.count(v));
        let r = factorial_product(rest, m);
        assert(fk * (fv * r) == fv * (fk * r)) by (nonlinear_arith);
    }
}

/// The product depends only on the multiplicities of the values in `keys`.
pub proof fn lemma_factorial_product_agrees<T>(keys: Set<T>, m1: Multiset<T>, m2: Multiset<T>)
    requires
        keys.finite(),
        forall|k: T| keys.contains(k) ==> m1.count(k) == m2.count(k),
    ensures
        factorial_product(keys, m1) == factorial_product(keys, m2),
    decreases keys.len(),
{
    if keys.len() > 0 {
        let k = keys.choose();
        lemma_factorial_product_agrees(keys.remove(k), m1, m2);
    }
}

/// A product of factorials is never zero.
pub proof fn lemma_factorial_product_positive<T>(keys: Set<T>, m: Multiset<T>)
    requires
        keys.finite(),
    ensures
        factorial_product(keys, m) > 0,
    decreases keys.len(),
{
    if keys.len() > 0 {
        let k = keys.choose();
        lemma_factorial_product_positive(keys.remove(k), m);
        lemma_factorial_positive(m.count(k));
        assert(factorial(m.count(k)) * factorial_product(keys.remove(k), m) > 0)
            by (nonlinear_arith)
            requires
                factorial(m.count(k)) > 0,
                factorial_product(keys.remove(k), m) > 0,
        ;
    }
}

/// Where no value of `keys` occurs in `m` more than once, the product is 1.
pub proof fn lemma_factorial_product_distinct<T>(keys: Set<T>, m: Multiset<T>)
    requires
        keys.finite(),
        forall|k: T| keys.contains(k) ==> m.count(k) <= 1,
    ensures
        factorial_product(keys, m) == 1,
    decreases keys.len(),
{
    if keys.len() > 0 {
        let k = keys.choose();
        lemma_factorial_product_distinct(keys.remove(k), m);
        assert(factorial(m.count(k)) == 1) by {
            reveal_with_fuel(factorial, 2);
        }
    }
}

/// The repetitions of a multiset are never zero.
pub proof fn lemma_repetitions_positive<T>(m: Multiset<T>)
    ensures
        repetitions(m) > 0,
{
    lemma_factorial_product_positive(m.dom(), m);
}

/// Taking one occurrence of `v` out of `m` divides the repetitions by the
/// multiplicity that `v` had.
pub proof fn lemma_repetitions_remove<T>(m: Multiset<T>, v: T)
    requires
        m.count(v) >= 1,
    ensures
        repetitions(m) == m.count(v) * repetitions(m.remove(v)),
{
    let less = m.remove(v);
    let c = m.count(v);
    let others = m.dom().remove(v);
    lemma_factorial_product_extract(m.dom(), m, v);
    lemma_factorial_product_agrees(others, m, less);
    let r = factorial_product(others, less);
    if c == 1 {
        assert(less.dom() =~= others);
        assert(factorial(0) == 1);
        assert(factorial(c) * r == c * r) by (nonlinear_arith)
            requires
                factorial(c) == c * 1,
        ;
    } else {
        assert(less.dom() =~= m.dom());
        lemma_factorial_product_extract(less.dom(), less, v);
        let f = factorial((c - 1) as nat);
        assert((c * f) * r == c * (f * r)) by (nonlinear_arith);
    }
}

/// Taking one occurrence of `v` out of `m` lowers the sum by one if `v` is
/// listed, and leaves it unchanged if not.
pub(crate) proof fn lemma_count_sum_remove<T>(keys: Seq<T>, m: Multiset<T>, v: T)
    requires
        keys.no_duplicates(),
        m.count(v) >= 1,
    ensures
        count_sum(keys, m) == count_sum(keys, m.remove(v)) + if keys.contains(v) {
            1nat
        } else {
            0nat
        },
    decreases keys.len(),
{
    if keys.len() > 0 {
        let front = keys.drop_last();
        lemma_count_sum_remove(front, m, v);
        if keys.last() != v && keys.contains(v) {
            let i = choose|i: int| 0 <= i < keys.len() && keys[i] == v;
            assert(front[i] == v);
        }
    }
}

/// A list of distinct values that holds every value of `m` sums up to the
/// size of `m`.
pub(crate) proof fn lemma_count_sum_covers<T>(keys: Seq<T>, m: Multiset<T>)
    requires
        keys.no_duplicates(),
        forall|v: T| m.count(v) > 0 ==> keys.contains(v),
    ensures
        count_sum(keys, m) == m.len(),
    decreases m.len(), keys.len(),
{
    if m.len() == 0 {
        if keys.len() > 0 {
            lemma_count_sum_covers(keys.drop_last(), m);
        }
    } else {
        let v = m.choose();
        lemma_count_sum_remove(keys, m, v);
        lemma_count_sum_covers(keys, m.remove(v));
    }
}

} // verus!
