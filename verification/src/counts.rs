//! A counter of how often each value is still available: the multiset of
//! the elements that a search has not placed yet.
use itertools::Itertools;
use std::collections::HashMap;
use std::hash::Hash;
use vstd::multiset::Multiset;
use vstd::prelude::*;
use vstd::std_specs::hash::obeys_key_model;

verus! {

/// `T` can key a hash map: it hashes deterministically, `==` holds of two
/// values exactly when they are the same value, and cloning a value gives
/// that value again.
pub open spec fn keyable<T: Eq + Hash + Clone>() -> bool {
    &&& obeys_key_model::<T>()
    &&& forall|a: T, b: T| #[trigger] cloned::<T>(a, b) ==> a == b
}

/// Every count that the map holds is positive.
pub open spec fn all_positive<T>(counts: Map<T, usize>) -> bool {
    forall|k: T| counts.contains_key(k) ==> #[trigger] counts[k] > 0
}

/// The multiset in which each key of `counts` occurs as often as its count
/// says, and no other value occurs.
pub open spec fn multiset_of<T>(counts: Map<T, usize>) -> Multiset<T> {
    Multiset::from_map(counts.map_values(|c: usize| c as nat))
}

/// How often `k` occurs in `multiset_of(counts)`.
pub proof fn lemma_multiset_of_count<T>(counts: Map<T, usize>, k: T)
    requires
        counts.dom().finite(),
    ensures
        multiset_of(counts).count(k) == if counts.contains_key(k) {
            counts[k] as nat
        } else {
            0
        },
{
    let m = counts.map_values(|c: usize| c as nat);
    assert(m.dom() =~= counts.dom());
}

/// The remaining occurrences of each distinct value. Its view is the multiset
/// of what remains; a value that does not remain is not stored at all.
pub struct Counts<T> where T: Eq + Hash + Clone {
    counts: HashMap<T, usize>,
}

impl<T> View for Counts<T> where T: Eq + Hash + Clone {
    type V = Multiset<T>;

    closed spec fn view(&self) -> Multiset<T> {
        multiset_of(self.counts@)
    }
}

impl<T> Counts<T> where T: Eq + Hash + Clone {
    /// No value is stored with the count zero.
    pub closed spec fn wf(&self) -> bool {
        all_positive(self.counts@)
    }

    /// Every multiplicity is one that a `usize` holds.
    pub proof fn lemma_count_fits(&self, v: T)
        ensures
            self@.count(v) <= usize::MAX,
    {
        lemma_multiset_of_count(self.counts@, v);
    }

    /// Takes over a map from values to their counts, all of them positive.
    pub fn from(counts: HashMap<T, usize>) -> (this: Self)
        requires
            all_positive(counts@),
        ensures
            this.wf(),
            this@ == multiset_of(counts@),
    {
        Self { counts }
    }

    /// The distinct values that remain, each once, in no particular order.
    pub fn keys(&self) -> (keys: Vec<T>)
        requires
            self.wf(),
            keyable::<T>(),
        ensures
            keys@.no_duplicates(),
            forall|v: T| keys@.contains(v) <==> self@.count(v) > 0,
    {
        let keys = collect_keys(&self.counts);
        proof {
            assert forall|v: T| keys@.contains(v) <==> self@.count(v) > 0 by {
                lemma_multiset_of_count(self.counts@, v);
            }
        }
        keys
    }

    /// Makes one more occurrence of `k` available.
    pub fn add(&mut self, k: T)
        requires
            old(self).wf(),
            obeys_key_model::<T>(),
            old(self)@.count(k) < usize::MAX,
        ensures
            final(self).wf(),
            final(self)@ == old(self)@.insert(k),
    {
        proof {
            lemma_multiset_of_count(self.counts@, k);
        }
        let entry = self.counts.entry(k).or_insert(0);
        *entry += 1;
        proof {
            assert forall|v: T| self@.count(v) == old(self)@.insert(k).count(v) by {
                lemma_multiset_of_count(self.counts@, v);
                lemma_multiset_of_count(old(self).counts@, v);
            }
        }
    }

    /// Takes one occurrence of `k` away; a value whose last occurrence goes
    /// is no longer among the keys.
    pub fn remove(&mut self, k: &T)
        requires
            old(self).wf(),
            keyable::<T>(),
            old(self)@.count(*k) >= 1,
        ensures
            final(self).wf(),
            final(self)@ == old(self)@.remove(*k),
    {
        proof {
            lemma_multiset_of_count(self.counts@, *k);
        }
        let key = k.clone();
        assert(cloned::<T>(*k, key));
        let remove = {
            let entry = self.counts.entry(key).or_insert(0);
            *entry -= 1;
            *entry == 0
        };
        if remove {
            self.counts.remove(k);
        }
        proof {
            assert forall|v: T| self@.count(v) == old(self)@.remove(*k).count(v) by {
                lemma_multiset_of_count(self.counts@, v);
                lemma_multiset_of_count(old(self).counts@, v);
            }
        }
    }

    /// Whether nothing remains.
    pub fn is_empty(&self) -> (empty: bool)
        requires
            self.wf(),
        ensures
            empty == (self@.len() == 0),
    {
        let empty = self.counts.is_empty();
        proof {
            if empty {
                assert forall|v: T| self@.count(v) == 0 by {
                    lemma_multiset_of_count(self.counts@, v);
                }
                assert(self@ =~= Multiset::empty());
            } else {
                let k = choose|k: T| self.counts@.contains_key(k);
                lemma_multiset_of_count(self.counts@, k);
            }
        }
        empty
    }
}

/// Calls itertools' `counts` on the items of a vector. The map that comes back
/// holds each distinct item with the number of times it occurs, a positive
/// number, and nothing else.
#[verifier::external_body]
pub(crate) fn tally<T>(items: Vec<T>) -> (counts: HashMap<T, usize>)
    where
        T: Eq + Hash,
    requires
        obeys_key_model::<T>(),
    ensures
        all_positive(counts@),
        multiset_of(counts@) == items@.to_multiset(),
{
    items.into_iter().counts()
}

/// Calls itertools' `collect_vec` on the cloned keys of a map. The vector that
/// comes back holds each key of the map once, in the order in which the map
/// happened to yield them.
#[verifier::external_body]
pub(crate) fn collect_keys<T>(counts: &HashMap<T, usize>) -> (keys: Vec<T>)
    where
        T: Eq + Hash + Clone,
    requires
        keyable::<T>(),
    ensures
        keys@.no_duplicates(),
        forall|k: T| keys@.contains(k) <==> counts@.contains_key(k),
{
    counts.keys().cloned().collect_vec()
}

} // verus!
