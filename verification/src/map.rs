//! The map itself: a table of chains that grows as it fills.

use crate::chain::{distinct_keys, holds, lemma_place, lemma_same_keys, map_of, same_keys};
use crate::key::Key;
use crate::laws::law_load_bound;
use crate::model::{
    capacity_after_insert, load_bounded, load_reached, value_at, LOAD_DENOMINATOR,
    LOAD_NUMERATOR,
};
use crate::table::{
    empty_table, entries, grows, hash_of, inserted, lemma_empty_table, lemma_entries_distinct,
    lemma_entries_take, lemma_inserted, lemma_lookup, lemma_put, lemma_rehash,
    lemma_table_is_entries, lemma_table_len, lemma_without, put, rehash, slot, table_map,
    table_wf, without,
};
use std::collections::hash_map::DefaultHasher;
use std::hash::Hasher;
use vstd::prelude::*;

verus! {

/// A map from keys to values, kept in buckets by the keys' hashes.
///
/// A bucket holds a chain of entries, or nothing as long as no entry was put into it.
#[derive(Debug, Clone)]
pub struct MediocreMap<K, V> {
    lookup: Vec<Option<Vec<(K, V)>>>,
    count: usize,
}

/// The entries of a bucket: none where the bucket was never filled.
pub open spec fn chain_of<K, V>(bucket: Option<Vec<(K, V)>>) -> Seq<(K, V)> {
    match bucket {
        Some(chain) => chain@,
        None => Seq::empty(),
    }
}

/// The position of the first entry for `key` in `chain`, if there is one.
fn find<K: Key, V>(chain: &Vec<(K, V)>, key: &K) -> (found: Option<usize>)
    ensures
        match found {
            Some(j) => {
                &&& j < chain@.len()
                &&& chain@[j as int].0@ == key@
                &&& forall|i: int| 0 <= i < j ==> (#[trigger] chain@[i]).0@ != key@
            },
            None => !holds(chain@, key@),
        },
{
    let mut j: usize = 0;
    while j < chain.len()
        invariant
            j <= chain@.len(),
            forall|i: int| 0 <= i < j ==> (#[trigger] chain@[i]).0@ != key@,
        decreases chain@.len() - j,
    {
        if chain[j].0.same(key) {
            return Some(j);
        }
        j += 1;
    }
    None
}

/// All entries of one chain, each with its key borrowed and its value borrowed mutably.
fn chain_iter_mut<'a, K, V>(chain: &'a mut Vec<(K, V)>) -> (items: Vec<(&'a K, &'a mut V)>)
    ensures
        items@.len() == old(chain)@.len(),
        final(chain)@.len() == old(chain)@.len(),
        forall|j: int|
            0 <= j < items@.len() ==> *(#[trigger] items@[j]).0 == old(chain)@[j].0 && *items@[j].1
                == old(chain)@[j].1,
        forall|j: int|
            0 <= j < items@.len() ==> #[trigger] final(chain)@[j] == (
                old(chain)@[j].0,
                *final(items@[j].1),
            ),
{
    let ghost orig = chain@;
    let ghost goal = final(chain)@;
    let mut items: Vec<(&'a K, &'a mut V)> = Vec::new();
    let mut rest: &mut [(K, V)] = chain.as_mut_slice();
    while rest.len() > 0
        invariant
            items@.len() + rest@.len() == orig.len(),
            rest@ == orig.subrange(items@.len() as int, orig.len() as int),
            forall|j: int|
                0 <= j < items@.len() ==> *(#[trigger] items@[j]).0 == orig[j].0 && *items@[j].1
                    == orig[j].1,
            goal.len() == items@.len() + final(rest)@.len(),
            forall|j: int|
                0 <= j < items@.len() ==> #[trigger] goal[j] == (orig[j].0, *final(items@[j].1)),
            forall|k: int|
                0 <= k < final(rest)@.len() ==> goal[items@.len() + k] == #[trigger] final(rest)@[k],
        decreases rest@.len(),
    {
        let ghost rest_final = final(rest)@;
        let ghost done = items@;
        let (head, tail) = rest.split_at_mut(1);
        let ghost tail_final = final(tail)@;
        rest = tail;
        let entry = &mut head[0];
        items.push((&entry.0, &mut entry.1));
        proof {
            assert(rest_final[0] == (
                orig[done.len() as int].0,
                *final(items@[done.len() as int].1),
            ));
            assert forall|j: int| 0 <= j < items@.len() implies #[trigger] goal[j] == (
                orig[j].0,
                *final(items@[j].1),
            ) by {
                if j < done.len() {
                    assert(items@[j] == done[j]);
                }
            }
            assert forall|k: int| 0 <= k < tail_final.len() implies goal[items@.len() + k]
                == #[trigger] tail_final[k] by {
                assert(rest_final[k + 1] == tail_final[k]);
            }
        }
    }
    items
}

impl<K: Key, V> View for MediocreMap<K, V> {
    type V = Map<K::V, V>;

    /// The keys that the map holds, each with its value.
    open spec fn view(&self) -> Map<K::V, V> {
        table_map(self.chains())
    }
}

impl<K: Key, V> MediocreMap<K, V> {
    /// The chains of the table, one for each bucket.
    pub closed spec fn chains(&self) -> Seq<Seq<(K, V)>> {
        self.lookup@.map_values(|bucket: Option<Vec<(K, V)>>| chain_of(bucket))
    }

    /// The entries in the order in which a traversal meets them: bucket by bucket, and
    /// within a bucket in the order in which the chain holds them.
    pub open spec fn entries(&self) -> Seq<(K, V)> {
        entries(self.chains())
    }

    /// The number of buckets.
    pub open spec fn spec_capacity(&self) -> nat {
        self.chains().len()
    }

    /// The map's invariant: the table is well formed, and the map counts its entries.
    pub closed spec fn wf(&self) -> bool {
        &&& table_wf(self.chains())
        &&& self.count == entries(self.chains()).len()
    }

    /// The table of a well-formed map is well formed.
    pub proof fn lemma_wf(&self)
        requires
            self.wf(),
        ensures
            table_wf(self.chains()),
    {
    }

    /// A well-formed map has finitely many keys.
    pub proof fn lemma_finite(&self)
        requires
            self.wf(),
        ensures
            self@.dom().finite(),
    {
        lemma_table_len(self.chains());
    }

    /// The entries of a well-formed map list the map: no key comes twice, each entry is a
    /// key of the map with its value, and each key of the map has its entry.
    pub proof fn lemma_entries(&self)
        requires
            self.wf(),
        ensures
            distinct_keys(self.entries()),
            map_of(self.entries()) == self@,
            self.entries().len() == self@.len(),
    {
        lemma_table_is_entries(self.chains());
        lemma_table_len(self.chains());
    }

    /// A well-formed map counts one entry for each of its keys.
    proof fn lemma_len(&self)
        requires
            self.wf(),
        ensures
            self@.dom().finite(),
            self@.len() == self.count,
            self.chains().len() == self.lookup@.len(),
    {
        lemma_table_len(self.chains());
    }

    /// The hash of a key: what a fresh hasher makes of what the key feeds it.
    fn hash(input: &K) -> (h: u64)
        ensures
            h == hash_of::<K>(input@),
    {
        let mut hasher = DefaultHasher::new();
        input.feed(&mut hasher);
        hasher.finish()
    }

    /// The bucket of a key: its hash, reduced to the number of buckets.
    fn index(&self, input: &K) -> (i: usize)
        requires
            self.lookup@.len() > 0,
        ensures
            i == slot::<K>(input@, self.lookup@.len() as int),
            i < self.lookup@.len(),
    {
        (Self::hash(input) % self.lookup.len() as u64) as usize
    }

    /// All entries of the map, borrowed, in the order of a traversal.
    pub fn iter(&self) -> (items: Vec<(&K, &V)>)
        requires
            self.wf(),
        ensures
            items@.len() == self.entries().len(),
            forall|n: int|
                0 <= n < items@.len() ==> *(#[trigger] items@[n]).0 == self.entries()[n].0
                    && *items@[n].1 == self.entries()[n].1,
            distinct_keys(self.entries()),
            map_of(self.entries()) == self@,
            items@.len() == self@.len(),
    {
        let ghost chains = self.chains();
        let mut items: Vec<(&K, &V)> = Vec::new();
        proof {
            self.lemma_entries();
            assert(chains.take(0) =~= Seq::<Seq<(K, V)>>::empty());
        }
        let mut i: usize = 0;
        while i < self.lookup.len()
            invariant
                i <= self.lookup@.len(),
                chains == self.chains(),
                items@.len() == entries(chains.take(i as int)).len(),
                forall|n: int|
                    0 <= n < items@.len() ==> *(#[trigger] items@[n]).0 == entries(
                        chains.take(i as int),
                    )[n].0 && *items@[n].1 == entries(chains.take(i as int))[n].1,
            decreases self.lookup@.len() - i,
        {
            let ghost done = entries(chains.take(i as int));
            proof {
                lemma_entries_take(chains, i as int);
                assert(chains[i as int] == chain_of(self.lookup@[i as int]));
            }
            if let Some(chain) = &self.lookup[i] {
                let mut j: usize = 0;
                while j < chain.len()
                    invariant
                        j <= chain@.len(),
                        items@.len() == done.len() + j,
                        forall|n: int|
                            0 <= n < items@.len() ==> *(#[trigger] items@[n]).0 == (done
                                + chain@)[n].0 && *items@[n].1 == (done + chain@)[n].1,
                    decreases chain@.len() - j,
                {
                    let entry = &chain[j];
                    items.push((&entry.0, &entry.1));
                    j += 1;
                }
            }
            i += 1;
        }
        proof {
            assert(chains.take(self.lookup@.len() as int) =~= chains);
        }
        items
    }

    /// All entries of the map, in the order of a traversal, each with its key borrowed and
    /// its value borrowed mutably.
    ///
    /// What is written through the borrowed values is what the map holds afterwards; the
    /// keys, their buckets and their order stay as they are.
    pub fn iter_mut(&mut self) -> (items: Vec<(&K, &mut V)>)
        requires
            old(self).wf(),
        ensures
            items@.len() == old(self).entries().len(),
            forall|n: int|
                0 <= n < items@.len() ==> *(#[trigger] items@[n]).0 == old(self).entries()[n].0
                    && *items@[n].1 == old(self).entries()[n].1,
            distinct_keys(old(self).entries()),
            map_of(old(self).entries()) == old(self)@,
            items@.len() == old(self)@.len(),
            final(self).wf(),
            final(self).chains().len() == old(self).chains().len(),
            forall|b: int|
                0 <= b < old(self).chains().len() ==> same_keys(
                    #[trigger] final(self).chains()[b],
                    old(self).chains()[b],
                ),
            final(self).entries().len() == old(self).entries().len(),
            forall|n: int|
                0 <= n < items@.len() ==> #[trigger] final(self).entries()[n] == (
                    old(self).entries()[n].0,
                    *final(items@[n].1),
                ),
            map_of(final(self).entries()) == final(self)@,
            final(self)@.dom() == old(self)@.dom(),
    {
        let ghost chains = self.chains();
        let ghost lookup_orig = self.lookup@;
        let ghost capacity = self.lookup@.len() as int;
        let ghost goal_lookup = final(self).lookup@;
        let ghost goal_chains = final(self).chains();
        let ghost goal_count = final(self).count;
        let ghost count = self.count;
        proof {
            self.lemma_entries();
            assert(chains.take(0) =~= Seq::<Seq<(K, V)>>::empty());
            assert(goal_chains.take(0) =~= Seq::<Seq<(K, V)>>::empty());
        }
        let mut items: Vec<(&K, &mut V)> = Vec::new();
        let mut rest: &mut [Option<Vec<(K, V)>>] = self.lookup.as_mut_slice();
        let ghost mut i: int = 0;
        while rest.len() > 0
            invariant
                0 <= i,
                i + rest@.len() == capacity,
                lookup_orig.len() == capacity,
                chains == lookup_orig.map_values(|bucket: Option<Vec<(K, V)>>| chain_of(bucket)),
                goal_chains == goal_lookup.map_values(
                    |bucket: Option<Vec<(K, V)>>| chain_of(bucket),
                ),
                rest@ == lookup_orig.subrange(i, capacity),
                goal_lookup.len() == i + final(rest)@.len(),
                forall|k: int|
                    0 <= k < final(rest)@.len() ==> goal_lookup[i + k] == #[trigger] final(rest)@[k],
                forall|b: int| 0 <= b < i ==> same_keys(#[trigger] goal_chains[b], chains[b]),
                items@.len() == entries(chains.take(i)).len(),
                forall|n: int|
                    0 <= n < items@.len() ==> *(#[trigger] items@[n]).0 == entries(
                        chains.take(i),
                    )[n].0 && *items@[n].1 == entries(chains.take(i))[n].1,
                entries(goal_chains.take(i)).len() == items@.len(),
                forall|n: int|
                    0 <= n < items@.len() ==> #[trigger] entries(goal_chains.take(i))[n] == (
                        entries(chains.take(i))[n].0,
                        *final(items@[n].1),
                    ),
            decreases rest@.len(),
        {
            let ghost rest_final = final(rest)@;
            let ghost done = items@;
            let ghost done_entries = entries(chains.take(i));
            let ghost done_goal = entries(goal_chains.take(i));
            let (head, tail) = rest.split_at_mut(1);
            let ghost tail_final = final(tail)@;
            rest = tail;
            let bucket = &mut head[0];
            let ghost bucket_final = *final(bucket);
            assert(rest_final[0] == bucket_final);
            assert(goal_lookup[i] == bucket_final);
            assert(*bucket == lookup_orig[i]);
            proof {
                lemma_entries_take(chains, i);
                lemma_entries_take(goal_chains, i);
            }
            if let Some(chain) = bucket {
                let ghost chain_goal = final(chain)@;
                assert(chain_of(bucket_final) == chain_goal);
                let mut part = chain_iter_mut(chain);
                items.append(&mut part);
                proof {
                    assert(same_keys(goal_chains[i], chains[i]));
                    assert forall|n: int| 0 <= n < items@.len() implies #[trigger] entries(
                        goal_chains.take(i + 1),
                    )[n] == (entries(chains.take(i + 1))[n].0, *final(items@[n].1)) by {
                        if n < done.len() {
                            assert(items@[n] == done[n]);
                            assert(done_goal[n] == (done_entries[n].0, *final(done[n].1)));
                        } else {
                            assert(chain_goal[n - done.len()] == goal_chains[i][n - done.len()]);
                        }
                    }
                }
            } else {
                proof {
                    assert(goal_chains[i] =~= Seq::<(K, V)>::empty());
                    assert(chains[i] =~= Seq::<(K, V)>::empty());
                    assert(entries(chains.take(i + 1)) =~= done_entries);
                    assert(entries(goal_chains.take(i + 1)) =~= done_goal);
                }
            }
            proof {
                assert forall|k: int| 0 <= k < tail_final.len() implies goal_lookup[i + 1 + k]
                    == #[trigger] tail_final[k] by {
                    assert(rest_final[k + 1] == tail_final[k]);
                }
                i = i + 1;
            }
        }
        proof {
            assert(chains.take(capacity) =~= chains);
            assert(goal_chains.take(capacity) =~= goal_chains);
            assert forall|a: int, b: int|
                0 <= a < goal_chains.len() && 0 <= b < goal_chains[a].len() implies slot::<K>(
                (#[trigger] goal_chains[a][b]).0@,
                capacity,
            ) == a by {
                assert(same_keys(goal_chains[a], chains[a]));
                assert(goal_chains[a][b].0 == chains[a][b].0);
            }
            assert forall|a: int| 0 <= a < goal_chains.len() implies distinct_keys(
                #[trigger] goal_chains[a],
            ) by {
                assert(same_keys(goal_chains[a], chains[a]));
                assert(distinct_keys(chains[a]));
                lemma_same_keys(goal_chains[a], chains[a]);
            }
            assert(goal_count == count);
            lemma_table_is_entries(goal_chains);
            assert(same_keys(entries(goal_chains), entries(chains)));
            lemma_same_keys(entries(goal_chains), entries(chains));
        }
        items
    }

    /// All entries of the map, in the order of a traversal. This consumes the map.
    pub fn into_iter(self) -> (items: Vec<(K, V)>)
        requires
            self.wf(),
        ensures
            items@ == self.entries(),
            distinct_keys(self.entries()),
            map_of(self.entries()) == self@,
            items@.len() == self@.len(),
    {
        let ghost chains = self.chains();
        let mut items: Vec<(K, V)> = Vec::new();
        proof {
            self.lemma_entries();
            assert(chains.take(0) =~= Seq::<Seq<(K, V)>>::empty());
        }
        for bucket in buckets: self.lookup
            invariant
                buckets.seq().map_values(|b: Option<Vec<(K, V)>>| chain_of(b)) == chains,
                items@ == entries(chains.take(buckets.index())),
        {
            let ghost i = buckets.index();
            let ghost done = entries(chains.take(i));
            proof {
                lemma_entries_take(chains, i);
                assert(chains[i] == chain_of(bucket));
            }
            if let Some(chain) = bucket {
                let ghost chain_seq = chain@;
                for entry in rest: chain
                    invariant
                        rest.seq() == chain_seq,
                        items@ == done + chain_seq.take(rest.index()),
                {
                    assert(chain_seq.take(rest.index() + 1) =~= chain_seq.take(rest.index()).push(
                        entry,
                    ));
                    items.push(entry);
                }
                assert(chain_seq.take(chain_seq.len() as int) =~= chain_seq);
            } else {
                assert(done + chains[i] =~= done);
            }
        }
        proof {
            assert(chains.take(chains.len() as int) =~= chains);
        }
        items
    }

    /// Create a new map with the given number of buckets.
    pub fn with_capacity(capacity: usize) -> (map: Self)
        requires
            capacity > 0,
        ensures
            map.wf(),
            map.chains() == empty_table::<K, V>(capacity as nat),
            map@ == Map::<K::V, V>::empty(),
            map.spec_capacity() == capacity,
    {
        let mut lookup: Vec<Option<Vec<(K, V)>>> = Vec::new();
        let mut i: usize = 0;
        while i < capacity
            invariant
                i <= capacity,
                lookup@.len() == i,
                forall|j: int| 0 <= j < i ==> (#[trigger] lookup@[j]) is None,
            decreases capacity - i,
        {
            lookup.push(None);
            i += 1;
        }
        let map = Self { lookup, count: 0 };
        proof {
            assert forall|j: int| 0 <= j < map.chains().len() implies (#[trigger] map.chains()[j])
                == Seq::<(K, V)>::empty() by {
                assert(map.lookup@[j] is None);
            }
            assert(map.chains() =~= empty_table::<K, V>(capacity as nat));
            lemma_empty_table::<K, V>(capacity as nat);
        }
        map
    }

    /// Create a new map with a default capacity.
    pub fn new() -> (map: Self)
        ensures
            map.wf(),
            map.chains() == empty_table::<K, V>(100),
            map@ == Map::<K::V, V>::empty(),
            map.spec_capacity() == 100,
    {
        Self::with_capacity(100)
    }

    /// Resizes the underlying store to `new_size` buckets: the entries are moved, in the
    /// order of a traversal, each to the end of the chain of the bucket that its key hashes
    /// to there.
    pub fn resize(&mut self, new_size: usize)
        requires
            old(self).wf(),
            new_size > 0,
        ensures
            final(self).wf(),
            final(self).chains() == rehash(old(self).entries(), new_size as nat),
            final(self)@ == old(self)@,
            final(self).spec_capacity() == new_size,
    {
        let mut new_self = Self::with_capacity(new_size);
        let ghost before = self.chains();
        let ghost capacity = self.lookup@.len() as int;
        proof {
            self.lemma_len();
            lemma_table_is_entries(before);
            assert(before.take(0) =~= Seq::<Seq<(K, V)>>::empty());
        }
        let mut i: usize = 0;
        while i < self.lookup.len()
            invariant
                i <= capacity,
                new_size > 0,
                self.lookup@.len() == capacity,
                before.len() == capacity,
                table_wf(before),
                entries(before).len() <= usize::MAX,
                forall|b: int| i <= b < capacity ==> chain_of(#[trigger] self.lookup@[b]) == before[b],
                new_self.wf(),
                new_self.chains() == rehash(entries(before.take(i as int)), new_size as nat),
                distinct_keys(entries(before.take(i as int))),
            decreases capacity - i,
        {
            let ghost done = entries(before.take(i as int));
            let ghost chain_seq = before[i as int];
            proof {
                lemma_entries_take(before, i as int);
                assert forall|a: int, b: int|
                    0 <= a < before.take(i + 1).len() && 0 <= b < before.take(
                        i + 1,
                    )[a].len() implies slot::<K>(
                    (#[trigger] before.take(i + 1)[a][b]).0@,
                    capacity,
                ) == a by {
                    assert(before.take(i + 1)[a][b] == before[a][b]);
                }
                assert forall|a: int| 0 <= a < before.take(i + 1).len() implies distinct_keys(
                    #[trigger] before.take(i + 1)[a],
                ) by {
                    assert(before.take(i + 1)[a] == before[a]);
                }
                lemma_entries_distinct(before.take(i + 1), capacity);
            }
            let bucket = self.lookup[i].take();
            if let Some(chain) = bucket {
                assert(chain@ == chain_seq);
                assert(chain_seq.take(0) =~= Seq::<(K, V)>::empty());
                assert(done + chain_seq.take(0) =~= done);
                for entry in it: chain
                    invariant
                        new_size > 0,
                        it.seq() == chain_seq,
                        distinct_keys(done + chain_seq),
                        (done + chain_seq).len() <= usize::MAX,
                        new_self.wf(),
                        new_self.chains() == rehash(
                            done + chain_seq.take(it.index()),
                            new_size as nat,
                        ),
                {
                    let ghost j = it.index();
                    let ghost part = done + chain_seq.take(j);
                    proof {
                        assert(entry == chain_seq[j]);
                        assert(part.push(entry) =~= done + chain_seq.take(j + 1));
                        assert(part.push(entry).drop_last() =~= part);
                        assert forall|a: int, b: int| 0 <= a < b < part.len() implies (
                        #[trigger] part[a]).0@ != (#[trigger] part[b]).0@ by {
                            assert(part[a] == (done + chain_seq)[a]);
                            assert(part[b] == (done + chain_seq)[b]);
                        }
                        lemma_rehash(part, new_size as nat);
                        lemma_table_len(new_self.chains());
                    }
                    let (key, value) = entry;
                    new_self.insert_static(key, value);
                }
                assert(chain_seq.take(chain_seq.len() as int) =~= chain_seq);
            } else {
                assert(done + chain_seq =~= done);
            }
            i += 1;
        }
        proof {
            assert(before.take(capacity) =~= before);
            lemma_rehash(entries(before), new_size as nat);
        }
        *self = new_self;
    }

    /// Whether the entries have reached the target load factor.
    fn load_factor_reached(&self) -> (reached: bool)
        requires
            self.wf(),
        ensures
            reached == load_reached(self@.len(), self.spec_capacity()),
            reached == load_reached(self.entries().len(), self.spec_capacity()),
    {
        proof {
            self.lemma_len();
        }
        (self.count as u128) * (LOAD_DENOMINATOR as u128) >= (self.lookup.len() as u128) * (
        LOAD_NUMERATOR as u128)
    }

    /// Inserts a `key` and `value` into the map.
    ///
    /// Where the map holds the key, the key's entry is overwritten in place. Else a new
    /// entry is appended to the chain of the key's bucket; and where the entries have
    /// reached the target load factor, the table grows before that to twice its number of
    /// buckets, if that number fits a `usize`.
    pub fn insert(&mut self, key: K, value: V)
        requires
            old(self).wf(),
            old(self)@.len() < usize::MAX,
        ensures
            final(self).wf(),
            final(self).chains() == inserted(old(self).chains(), key, value),
            final(self)@ == old(self)@.insert(key@, value),
            final(self).spec_capacity() == capacity_after_insert(
                old(self)@,
                old(self).spec_capacity(),
                key@,
            ),
            final(self)@.len() == old(self)@.len() + (if old(self)@.contains_key(key@) {
                0nat
            } else {
                1nat
            }),
            load_bounded(old(self)@.len(), old(self).spec_capacity())
                && 2 * old(self).spec_capacity() <= usize::MAX
                ==> load_bounded(final(self)@.len(), final(self).spec_capacity()),
    {
        proof {
            self.lemma_len();
            lemma_inserted(self.chains(), key, value);
            if load_bounded(self@.len(), self.spec_capacity()) && 2 * self.spec_capacity()
                <= usize::MAX {
                law_load_bound::<K, V>(self@, self.spec_capacity(), key, value);
            }
            if self@.contains_key(key@) {
                assert(self@.insert(key@, value).dom() =~= self@.dom());
            }
        }
        if self.get(&key).is_none() && self.load_factor_reached() {
            let capacity: usize = self.capacity();
            if capacity <= usize::MAX / 2 {
                assert(grows(self.chains(), key@));
                self.resize(capacity * 2);
            }
        }
        self.insert_static(key, value);
    }

    /// Inserts a key and a value without growing the table.
    fn insert_static(&mut self, key: K, value: V)
        requires
            old(self).wf(),
            old(self)@.len() < usize::MAX,
        ensures
            final(self).wf(),
            final(self).chains() == put(old(self).chains(), key, value),
            final(self)@ == old(self)@.insert(key@, value),
            final(self).spec_capacity() == old(self).spec_capacity(),
    {
        proof {
            self.lemma_len();
        }
        let index: usize = self.index(&key);
        let ghost before = self.chains();
        let ghost chain_before = before[index as int];
        assert(chain_before == chain_of(self.lookup@[index as int]));
        assert(distinct_keys(chain_before));
        let bucket = &mut self.lookup[index];
        let newly_inserted = match bucket {
            Some(chain) => {
                match find(chain, &key) {
                    Some(j) => {
                        proof {
                            lemma_place(chain_before, j as int);
                        }
                        chain[j] = (key, value);
                        false
                    },
                    None => {
                        chain.push((key, value));
                        true
                    },
                }
            },
            None => {
                let mut chain = Vec::new();
                chain.push((key, value));
                *bucket = Some(chain);
                true
            },
        };
        proof {
            let chain_after = chain_of(self.lookup@[index as int]);
            assert(self.chains() =~= before.update(index as int, chain_after));
            assert(chain_after =~= put(before, key, value)[index as int]);
            assert(self.chains() =~= put(before, key, value));
            lemma_put(before, key, value);
        }
        if newly_inserted {
            self.count += 1;
        }
    }

    /// Remove a given key. Returns `None` when the key was not present, and its value when
    /// it was.
    ///
    /// The entry leaves its chain; the number of buckets stays as it is.
    pub fn remove(&mut self, key: &K) -> (removed: Option<V>)
        requires
            old(self).wf(),
        ensures
            final(self).wf(),
            removed == value_at(old(self)@, key@),
            final(self).chains() == without(old(self).chains(), key@),
            final(self)@ == old(self)@.remove(key@),
            final(self).spec_capacity() == old(self).spec_capacity(),
            final(self)@.len() == old(self)@.len() - (if old(self)@.contains_key(key@) {
                1nat
            } else {
                0nat
            }),
    {
        proof {
            self.lemma_len();
        }
        let index: usize = self.index(key);
        let ghost before = self.chains();
        let ghost chain_before = before[index as int];
        assert(chain_before == chain_of(self.lookup@[index as int]));
        assert(distinct_keys(chain_before));
        let bucket = &mut self.lookup[index];
        let removed = match bucket {
            Some(chain) => {
                match find(chain, key) {
                    Some(j) => {
                        proof {
                            lemma_place(chain_before, j as int);
                        }
                        let (_, removed_value) = chain.remove(j);
                        Some(removed_value)
                    },
                    None => None,
                }
            },
            None => None,
        };
        proof {
            let chain_after = chain_of(self.lookup@[index as int]);
            assert(self.chains() =~= before.update(index as int, chain_after));
            assert(self.chains() =~= without(before, key@));
            lemma_without(before, key@);
            lemma_lookup(before, key@);
        }
        if removed.is_some() {
            self.count -= 1;
        }
        removed
    }

    /// Get the value at the given key.
    pub fn get(&self, key: &K) -> (value: Option<&V>)
        requires
            self.wf(),
        ensures
            match value {
                Some(v) => value_at(self@, key@) == Some(*v),
                None => value_at(self@, key@) is None,
            },
    {
        let index: usize = self.index(key);
        assert(self.chains()[index as int] == chain_of(self.lookup@[index as int]));
        match &self.lookup[index] {
            Some(chain) => {
                match find(chain, key) {
                    Some(j) => {
                        proof {
                            lemma_place(chain@, j as int);
                        }
                        Some(&chain[j].1)
                    },
                    None => None,
                }
            },
            None => None,
        }
    }

    /// Gets the number of items currently stored in the map.
    pub fn len(&self) -> (n: usize)
        requires
            self.wf(),
        ensures
            n == self@.len(),
            n == self.entries().len(),
    {
        proof {
            self.lemma_len();
        }
        self.count
    }

    /// Gets the number of buckets.
    pub fn capacity(&self) -> (n: usize)
        ensures
            n == self.spec_capacity(),
    {
        self.lookup.len()
    }
}

} // verus!
