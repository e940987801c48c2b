//! Building a map from pairs, and looking a key up by indexing.

use crate::key::Key;
use crate::map::MediocreMap;
use crate::model::{capacity_after_all, insert_all};
use crate::table::{empty_table, filled, lemma_empty_table, lemma_filled};
use std::ops::Index;
use vstd::prelude::*;
use vstd::std_specs::iter::IteratorSpec;

verus! {

/// `<Vec<T> as From<[T; N]>>::from`. Taken on trust: the vector holds the array's items, in
/// their order.
pub assume_specification<T, const N: usize>[ <Vec<T> as From<[T; N]>>::from ](s: [T; N]) -> (v:
    Vec<T>)
    ensures
        v@ == s@,
;

impl<K: Key, V> MediocreMap<K, V> {
    /// A map of `capacity` buckets, with the pairs of `iter` inserted one after the other.
    fn collect<I: Iterator<Item = (K, V)>>(capacity: usize, iter: I) -> (map: Self)
        requires
            capacity > 0,
            iter.obeys_prophetic_iter_laws(),
            iter.decrease() is Some,
            iter.remaining().len() <= usize::MAX,
        ensures
            map.wf(),
            map.chains() == filled(empty_table(capacity as nat), iter.remaining()),
            map@ == insert_all(Map::<K::V, V>::empty(), iter.remaining()),
            map.spec_capacity() == capacity_after_all(
                Map::<K::V, V>::empty(),
                capacity as nat,
                iter.remaining(),
            ),
    {
        let ghost pairs = iter.remaining();
        let ghost start = empty_table::<K, V>(capacity as nat);
        let mut map = Self::with_capacity(capacity);
        let mut iter = iter;
        let ghost mut n: int = 0;
        proof {
            map.lemma_finite();
            lemma_empty_table::<K, V>(capacity as nat);
            lemma_filled(start, pairs);
            assert(pairs.take(0) =~= Seq::<(K, V)>::empty());
            assert(pairs.skip(0) =~= pairs);
        }
        loop
            invariant_except_break
                iter.obeys_prophetic_iter_laws(),
                iter.decrease() is Some,
                pairs.len() <= usize::MAX,
                0 <= n <= pairs.len(),
                iter.remaining() == pairs.skip(n),
                map.wf(),
                map@.dom().finite(),
                map@.len() <= n,
                map.chains() == filled(start, pairs.take(n)),
            ensures
                map.wf(),
                map.chains() == filled(start, pairs),
            decreases iter.decrease()->0,
        {
            match iter.next() {
                Some((key, value)) => {
                    proof {
                        assert(pairs.take(n + 1).drop_last() =~= pairs.take(n));
                        assert(pairs.skip(n).drop_first() =~= pairs.skip(n + 1));
                    }
                    map.insert(key, value);
                    proof {
                        map.lemma_finite();
                        n = n + 1;
                    }
                },
                None => {
                    proof {
                        assert(pairs.take(n) =~= pairs);
                    }
                    break ;
                },
            }
        }
        map
    }

    /// A map of the pairs of `iter`, inserted one after the other into a map of the default
    /// capacity: of two pairs with the same key, the later one stays.
    pub fn from_iter<I: Iterator<Item = (K, V)>>(iter: I) -> (map: Self)
        requires
            iter.obeys_prophetic_iter_laws(),
            iter.decrease() is Some,
            iter.remaining().len() <= usize::MAX,
        ensures
            map.wf(),
            map.chains() == filled(empty_table(100), iter.remaining()),
            map@ == insert_all(Map::<K::V, V>::empty(), iter.remaining()),
            map.spec_capacity() == capacity_after_all(
                Map::<K::V, V>::empty(),
                100,
                iter.remaining(),
            ),
    {
        Self::collect(100, iter)
    }
}

impl<K: Key, V, const N: usize> From<[(K, V); N]> for MediocreMap<K, V> {
    /// A map of the pairs of `value`, inserted one after the other into a map with one bucket
    /// for each pair (one bucket, where there is no pair).
    fn from(value: [(K, V); N]) -> (map: Self)
        ensures
            map.wf(),
            map.chains() == filled(
                empty_table(
                    if N == 0 {
                        1nat
                    } else {
                        N as nat
                    },
                ),
                value@,
            ),
            map@ == insert_all(Map::<K::V, V>::empty(), value@),
            map.spec_capacity() == capacity_after_all(
                Map::<K::V, V>::empty(),
                if N == 0 {
                    1nat
                } else {
                    N as nat
                },
                value@,
            ),
    {
        let capacity: usize = if N == 0 {
            1
        } else {
            N
        };
        let pairs = Vec::from(value);
        Self::collect(capacity, pairs.into_iter())
    }
}

/// The conversion is specified by what `from` ensures: no value is named for its result.
impl<K: Key, V, const N: usize> vstd::std_specs::convert::FromSpecImpl<[(K, V); N]> for MediocreMap<K, V> {
    open spec fn obeys_from_spec() -> bool {
        false
    }

    open spec fn from_spec(v: [(K, V); N]) -> Self {
        arbitrary()
    }
}

impl<K: Key, V> Index<K> for MediocreMap<K, V> {
    type Output = V;

    /// The value at `index`, which the map must hold.
    fn index(&self, index: K) -> (value: &V)
        ensures
            *value == self@[index@],
    {
        self.get(&index).unwrap()
    }
}

impl<K: Key, V> vstd::std_specs::core::IndexSpecImpl<K> for MediocreMap<K, V> {
    /// Indexing asks for a well-formed map that holds the key.
    open spec fn index_req(&self, index: &K) -> bool {
        self.wf() && self@.contains_key(index@)
    }
}

} // verus!
