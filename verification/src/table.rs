//! Tables: one chain for each bucket, and what the operations make of a table.

use crate::chain::{
    distinct_keys, holds, lemma_chain_push, lemma_chain_remove, lemma_chain_replace,
    lemma_map_of_len, lemma_place, map_of, place,
};
use crate::key::Key;
use crate::model::{capacity_after_all, capacity_after_insert, insert_all, load_reached, value_at};
use std::collections::hash_map::DefaultHasher;
use vstd::prelude::*;
use vstd::std_specs::hash::DefaultHasherAdditionalSpecFns;

verus! {

/// The hash of a key, by its view.
pub open spec fn hash_of<K: Key>(k: K::V) -> u64 {
    DefaultHasher::spec_finish(K::hash_input(k))
}

/// The bucket that a key belongs to in a table of `capacity` buckets.
pub open spec fn slot<K: Key>(k: K::V, capacity: int) -> int {
    (hash_of::<K>(k) as int) % capacity
}

/// Every entry of every chain sits in the bucket that its key hashes to,
/// for a table of `capacity` buckets.
pub open spec fn placed<K: Key, V>(chains: Seq<Seq<(K, V)>>, capacity: int) -> bool {
    forall|i: int, j: int|
        0 <= i < chains.len() && 0 <= j < chains[i].len() ==> slot::<K>(
            (#[trigger] chains[i][j]).0@,
            capacity,
        ) == i
}

/// No chain holds a key twice.
pub open spec fn all_distinct<K: Key, V>(chains: Seq<Seq<(K, V)>>) -> bool {
    forall|i: int| 0 <= i < chains.len() ==> distinct_keys(#[trigger] chains[i])
}

/// A table is well formed: it has a bucket, every entry sits in the bucket of its key, and
/// no chain holds a key twice.
pub open spec fn table_wf<K: Key, V>(chains: Seq<Seq<(K, V)>>) -> bool {
    &&& chains.len() > 0
    &&& placed(chains, chains.len() as int)
    &&& all_distinct(chains)
}

/// The entries of all chains, bucket by bucket.
pub open spec fn entries<K, V>(chains: Seq<Seq<(K, V)>>) -> Seq<(K, V)>
    decreases chains.len(),
{
    if chains.len() == 0 {
        Seq::empty()
    } else {
        entries(chains.drop_last()) + chains.last()
    }
}

/// The map that a table of chains stands for: a key is looked up in its own bucket only.
pub open spec fn table_map<K: Key, V>(chains: Seq<Seq<(K, V)>>) -> Map<K::V, V> {
    Map::new(
        |k: K::V| map_of(chains[slot::<K>(k, chains.len() as int)]).contains_key(k),
        |k: K::V| map_of(chains[slot::<K>(k, chains.len() as int)])[k],
    )
}

/// A table of `capacity` buckets without entries.
pub open spec fn empty_table<K, V>(capacity: nat) -> Seq<Seq<(K, V)>> {
    Seq::new(capacity, |i: int| Seq::<(K, V)>::empty())
}

/// The table after `key` was put in with `value`: in the bucket of the key, the entry for
/// the key is overwritten in place, or where there is none, a new entry is appended.
pub open spec fn put<K: Key, V>(chains: Seq<Seq<(K, V)>>, key: K, value: V) -> Seq<Seq<(K, V)>> {
    let at = slot::<K>(key@, chains.len() as int);
    let chain = chains[at];
    chains.update(
        at,
        if holds(chain, key@) {
            chain.update(place(chain, key@), (key, value))
        } else {
            chain.push((key, value))
        },
    )
}

/// The table after `key` was taken out: the entry for the key leaves its chain, and the
/// entries behind it move up.
pub open spec fn without<K: Key, V>(chains: Seq<Seq<(K, V)>>, key: K::V) -> Seq<Seq<(K, V)>> {
    let at = slot::<K>(key, chains.len() as int);
    let chain = chains[at];
    if holds(chain, key) {
        chains.update(at, chain.remove(place(chain, key)))
    } else {
        chains
    }
}

/// A table of `capacity` buckets with the `entries` put in one after the other.
pub open spec fn rehash<K: Key, V>(entries: Seq<(K, V)>, capacity: nat) -> Seq<Seq<(K, V)>>
    decreases entries.len(),
{
    if entries.len() == 0 {
        empty_table(capacity)
    } else {
        put(rehash(entries.drop_last(), capacity), entries.last().0, entries.last().1)
    }
}

/// Whether the table grows before `key` is inserted: the key is new, the entries have
/// reached the target load factor, and twice the number of buckets fits a `usize`.
pub open spec fn grows<K: Key, V>(chains: Seq<Seq<(K, V)>>, key: K::V) -> bool {
    &&& !table_map(chains).contains_key(key)
    &&& load_reached(entries(chains).len(), chains.len())
    &&& 2 * chains.len() <= usize::MAX
}

/// The table after `key` was inserted with `value`: where the table grows, its entries are
/// first moved to a table of twice the number of buckets.
pub open spec fn inserted<K: Key, V>(chains: Seq<Seq<(K, V)>>, key: K, value: V) -> Seq<
    Seq<(K, V)>,
> {
    put(
        if grows(chains, key@) {
            rehash(entries(chains), 2 * chains.len())
        } else {
            chains
        },
        key,
        value,
    )
}

/// The table after the `pairs` were inserted one after the other.
pub open spec fn filled<K: Key, V>(chains: Seq<Seq<(K, V)>>, pairs: Seq<(K, V)>) -> Seq<
    Seq<(K, V)>,
>
    decreases pairs.len(),
{
    if pairs.len() == 0 {
        chains
    } else {
        inserted(filled(chains, pairs.drop_last()), pairs.last().0, pairs.last().1)
    }
}

/// Changing one chain of a table changes the table's entry count by the change of the chain's
/// length.
pub proof fn lemma_entries_update<K, V>(chains: Seq<Seq<(K, V)>>, i: int, chain: Seq<(K, V)>)
    requires
        0 <= i < chains.len(),
    ensures
        entries(chains.update(i, chain)).len() == entries(chains).len() - chains[i].len()
            + chain.len(),
    decreases chains.len(),
{
    let after = chains.update(i, chain);
    if i == chains.len() - 1 {
        assert(after.drop_last() =~= chains.drop_last());
    } else {
        assert(after.drop_last() =~= chains.drop_last().update(i, chain));
        lemma_entries_update(chains.drop_last(), i, chain);
    }
}

/// Putting a key into its own bucket puts it into the table's map.
pub proof fn lemma_table_insert<K: Key, V>(
    chains: Seq<Seq<(K, V)>>,
    chain: Seq<(K, V)>,
    key: K::V,
    value: V,
)
    requires
        chains.len() > 0,
        map_of(chain) == map_of(chains[slot::<K>(key, chains.len() as int)]).insert(
            key,
            value,
        ),
    ensures
        table_map(chains.update(slot::<K>(key, chains.len() as int), chain)) == table_map(
            chains,
        ).insert(key, value),
{
    let i = slot::<K>(key, chains.len() as int);
    let after = chains.update(i, chain);
    assert forall|k: K::V| #[trigger]
        table_map(after).contains_key(k) <==> table_map(chains).insert(key, value).contains_key(
            k,
        ) by {
        let s = slot::<K>(k, chains.len() as int);
        if s != i {
            assert(after[s] == chains[s]);
        }
    }
    assert forall|k: K::V| table_map(after).contains_key(k) implies #[trigger] table_map(after)[k]
        == table_map(chains).insert(key, value)[k] by {
        let s = slot::<K>(k, chains.len() as int);
        if s != i {
            assert(after[s] == chains[s]);
        }
    }
    assert(table_map(after) =~= table_map(chains).insert(key, value));
}

/// Taking a key out of its own bucket takes it out of the table's map.
pub proof fn lemma_table_remove<K: Key, V>(chains: Seq<Seq<(K, V)>>, chain: Seq<(K, V)>, key: K::V)
    requires
        chains.len() > 0,
        map_of(chain) == map_of(chains[slot::<K>(key, chains.len() as int)]).remove(key),
    ensures
        table_map(chains.update(slot::<K>(key, chains.len() as int), chain)) == table_map(
            chains,
        ).remove(key),
{
    let i = slot::<K>(key, chains.len() as int);
    let after = chains.update(i, chain);
    assert forall|k: K::V| #[trigger]
        table_map(after).contains_key(k) <==> table_map(chains).remove(key).contains_key(k) by {
        let s = slot::<K>(k, chains.len() as int);
        if s != i {
            assert(after[s] == chains[s]);
        }
    }
    assert forall|k: K::V| table_map(after).contains_key(k) implies #[trigger] table_map(after)[k]
        == table_map(chains).remove(key)[k] by {
        let s = slot::<K>(k, chains.len() as int);
        if s != i {
            assert(after[s] == chains[s]);
        }
    }
    assert(table_map(after) =~= table_map(chains).remove(key));
}

/// A table of empty chains has no entries.
pub proof fn lemma_entries_of_empty<K, V>(chains: Seq<Seq<(K, V)>>)
    requires
        forall|i: int| 0 <= i < chains.len() ==> (#[trigger] chains[i]).len() == 0,
    ensures
        entries(chains).len() == 0,
    decreases chains.len(),
{
    if chains.len() > 0 {
        lemma_entries_of_empty(chains.drop_last());
    }
}

/// Every entry of every chain is among the table's entries.
pub proof fn lemma_entries_contain<K, V>(chains: Seq<Seq<(K, V)>>, i: int, j: int)
    requires
        0 <= i < chains.len(),
        0 <= j < chains[i].len(),
    ensures
        entries(chains).contains(chains[i][j]),
    decreases chains.len(),
{
    let front = entries(chains.drop_last());
    if i == chains.len() - 1 {
        assert(entries(chains)[front.len() + j] == chains[i][j]);
    } else {
        lemma_entries_contain(chains.drop_last(), i, j);
        let at = choose|at: int| 0 <= at < front.len() && front[at] == chains[i][j];
        assert(entries(chains)[at] == chains[i][j]);
    }
}

/// Every one of the table's entries is an entry of one of the chains.
pub proof fn lemma_entries_source<K, V>(chains: Seq<Seq<(K, V)>>, at: int) -> (r: (int, int))
    requires
        0 <= at < entries(chains).len(),
    ensures
        0 <= r.0 < chains.len(),
        0 <= r.1 < chains[r.0].len(),
        chains[r.0][r.1] == entries(chains)[at],
    decreases chains.len(),
{
    let front = entries(chains.drop_last());
    if at < front.len() {
        lemma_entries_source(chains.drop_last(), at)
    } else {
        (chains.len() - 1, at - front.len())
    }
}

/// In a table whose entries sit in their own buckets, with no key twice in a chain, no key
/// occurs twice at all.
pub proof fn lemma_entries_distinct<K: Key, V>(chains: Seq<Seq<(K, V)>>, capacity: int)
    requires
        placed(chains, capacity),
        all_distinct(chains),
    ensures
        distinct_keys(entries(chains)),
    decreases chains.len(),
{
    if chains.len() > 0 {
        let init = chains.drop_last();
        let front = entries(init);
        let all = entries(chains);
        let last = chains.len() - 1;
        assert forall|i: int, j: int| 0 <= i < init.len() && 0 <= j < init[i].len() implies slot::<
            K,
        >((#[trigger] init[i][j]).0@, capacity) == i by {
            assert(init[i][j] == chains[i][j]);
        }
        assert forall|i: int| 0 <= i < init.len() implies distinct_keys(#[trigger] init[i]) by {
            assert(init[i] == chains[i]);
        }
        lemma_entries_distinct(init, capacity);
        assert(distinct_keys(chains[last]));
        assert forall|a: int, b: int| 0 <= a < b < all.len() implies (#[trigger] all[a]).0@ != (
        #[trigger] all[b]).0@ by {
            if b < front.len() {
                assert(front[a].0@ != front[b].0@);
            } else if a >= front.len() {
                assert(chains[last][a - front.len()].0@ != chains[last][b - front.len()].0@);
            } else {
                let (i, j) = lemma_entries_source(init, a);
                assert(init[i][j] == chains[i][j]);
                assert(slot::<K>(chains[i][j].0@, capacity) == i);
                assert(slot::<K>(chains[last][b - front.len()].0@, capacity) == last);
            }
        }
    }
}

/// The map of a table is the map of all its entries taken as one chain.
pub proof fn lemma_table_is_entries<K: Key, V>(chains: Seq<Seq<(K, V)>>)
    requires
        chains.len() > 0,
        placed(chains, chains.len() as int),
        all_distinct(chains),
    ensures
        distinct_keys(entries(chains)),
        map_of(entries(chains)) == table_map(chains),
{
    let all = entries(chains);
    let n = chains.len() as int;
    lemma_entries_distinct(chains, n);
    assert forall|k: K::V| holds(all, k) <==> #[trigger] table_map(chains).contains_key(k) by {
        if holds(all, k) {
            let at = place(all, k);
            let (i, j) = lemma_entries_source(chains, at);
            assert(slot::<K>(chains[i][j].0@, n) == i);
        }
        if table_map(chains).contains_key(k) {
            let i = slot::<K>(k, n);
            let j = place(chains[i], k);
            lemma_entries_contain(chains, i, j);
            let at = choose|at: int| 0 <= at < all.len() && all[at] == chains[i][j];
            assert(all[at].0@ == k);
        }
    }
    assert forall|k: K::V| holds(all, k) implies #[trigger] map_of(all)[k] == table_map(
        chains,
    )[k] by {
        let at = place(all, k);
        let (i, j) = lemma_entries_source(chains, at);
        assert(slot::<K>(chains[i][j].0@, n) == i);
        assert(distinct_keys(chains[i]));
        lemma_place(chains[i], j);
    }
    assert(map_of(all) =~= table_map(chains));
}

/// The entries of the first `i + 1` chains are those of the first `i`, then those of chain `i`;
/// and they are no more than the entries of the whole table.
pub proof fn lemma_entries_take<K, V>(chains: Seq<Seq<(K, V)>>, i: int)
    requires
        0 <= i < chains.len(),
    ensures
        entries(chains.take(i + 1)) == entries(chains.take(i)) + chains[i],
        entries(chains.take(i + 1)).len() <= entries(chains).len(),
    decreases chains.len(),
{
    assert(chains.take(i + 1).drop_last() =~= chains.take(i));
    if i == chains.len() - 1 {
        assert(chains.take(i + 1) =~= chains);
    } else {
        lemma_entries_take(chains.drop_last(), i);
        assert(chains.drop_last().take(i + 1) =~= chains.take(i + 1));
    }
}

/// A well-formed table stands for a finite map with one key for each entry.
pub proof fn lemma_table_len<K: Key, V>(chains: Seq<Seq<(K, V)>>)
    requires
        table_wf(chains),
    ensures
        table_map(chains).dom().finite(),
        table_map(chains).len() == entries(chains).len(),
{
    lemma_table_is_entries(chains);
    lemma_map_of_len(entries(chains));
}

/// An empty table is well formed and stands for the empty map.
pub proof fn lemma_empty_table<K: Key, V>(capacity: nat)
    requires
        capacity > 0,
    ensures
        table_wf(empty_table::<K, V>(capacity)),
        table_map(empty_table::<K, V>(capacity)) == Map::<K::V, V>::empty(),
        entries(empty_table::<K, V>(capacity)).len() == 0,
{
    let chains = empty_table::<K, V>(capacity);
    lemma_entries_of_empty(chains);
    assert(table_map(chains) =~= Map::<K::V, V>::empty());
}

/// Putting a key into a well-formed table gives a well-formed table of the same number of
/// buckets, which stands for the map with the key inserted, and has one entry more where
/// the key is new.
pub proof fn lemma_put<K: Key, V>(chains: Seq<Seq<(K, V)>>, key: K, value: V)
    requires
        table_wf(chains),
    ensures
        table_wf(put(chains, key, value)),
        put(chains, key, value).len() == chains.len(),
        table_map(put(chains, key, value)) == table_map(chains).insert(key@, value),
        entries(put(chains, key, value)).len() == entries(chains).len() + (if table_map(
            chains,
        ).contains_key(key@) {
            0int
        } else {
            1int
        }),
{
    let n = chains.len() as int;
    let at = slot::<K>(key@, n);
    let chain = chains[at];
    let after = put(chains, key, value);
    assert(distinct_keys(chain));
    if holds(chain, key@) {
        lemma_chain_replace(chain, place(chain, key@), key, value);
    } else {
        lemma_chain_push(chain, key, value);
    }
    lemma_entries_update(chains, at, after[at]);
    lemma_table_insert(chains, after[at], key@, value);
    assert forall|i: int, j: int| 0 <= i < after.len() && 0 <= j < after[i].len() implies slot::<
        K,
    >((#[trigger] after[i][j]).0@, n) == i by {
        if i != at {
            assert(after[i][j] == chains[i][j]);
        } else if holds(chain, key@) {
            if j != place(chain, key@) {
                assert(after[i][j] == chains[i][j]);
            }
        } else {
            if j < chain.len() {
                assert(after[i][j] == chains[i][j]);
            }
        }
    }
    assert forall|i: int| 0 <= i < after.len() implies distinct_keys(#[trigger] after[i]) by {
        if i != at {
            assert(after[i] == chains[i]);
        }
    }
}

/// Taking a key out of a well-formed table gives a well-formed table of the same number of
/// buckets, which stands for the map with the key removed, and has one entry less where
/// the key was there.
pub proof fn lemma_without<K: Key, V>(chains: Seq<Seq<(K, V)>>, key: K::V)
    requires
        table_wf(chains),
    ensures
        table_wf(without(chains, key)),
        without(chains, key).len() == chains.len(),
        table_map(without(chains, key)) == table_map(chains).remove(key),
        entries(without(chains, key)).len() == entries(chains).len() - (if table_map(
            chains,
        ).contains_key(key) {
            1int
        } else {
            0int
        }),
{
    let n = chains.len() as int;
    let at = slot::<K>(key, n);
    let chain = chains[at];
    let after = without(chains, key);
    assert(distinct_keys(chain));
    if holds(chain, key) {
        let p = place(chain, key);
        lemma_chain_remove(chain, p);
        lemma_entries_update(chains, at, after[at]);
        lemma_table_remove(chains, after[at], key);
        assert forall|i: int, j: int|
            0 <= i < after.len() && 0 <= j < after[i].len() implies slot::<K>(
            (#[trigger] after[i][j]).0@,
            n,
        ) == i by {
            if i != at {
                assert(after[i][j] == chains[i][j]);
            } else {
                let origin = if j < p {
                    j
                } else {
                    j + 1
                };
                assert(after[i][j] == chains[i][origin]);
            }
        }
        assert forall|i: int| 0 <= i < after.len() implies distinct_keys(#[trigger] after[i]) by {
            if i != at {
                assert(after[i] == chains[i]);
            }
        }
    } else {
        assert(table_map(chains).remove(key) =~= table_map(chains));
    }
}

/// Moving entries of distinct keys into a new table gives a well-formed table of the asked
/// number of buckets, which holds as many entries and stands for the same map.
pub proof fn lemma_rehash<K: Key, V>(entries: Seq<(K, V)>, capacity: nat)
    requires
        distinct_keys(entries),
        capacity > 0,
    ensures
        table_wf(rehash(entries, capacity)),
        rehash(entries, capacity).len() == capacity,
        table_map(rehash(entries, capacity)) == map_of(entries),
        self::entries(rehash(entries, capacity)).len() == entries.len(),
    decreases entries.len(),
{
    if entries.len() == 0 {
        lemma_empty_table::<K, V>(capacity);
        assert(map_of(entries) =~= Map::<K::V, V>::empty());
    } else {
        let front = entries.drop_last();
        let last = entries.last();
        assert forall|i: int, j: int| 0 <= i < j < front.len() implies (#[trigger] front[i]).0@ != (
        #[trigger] front[j]).0@ by {
            assert(entries[i].0@ != entries[j].0@);
        }
        lemma_rehash(front, capacity);
        if holds(front, last.0@) {
            let p = place(front, last.0@);
            assert(entries[p].0@ != entries[entries.len() - 1].0@);
        }
        assert(front.push(last) =~= entries);
        lemma_chain_push(front, last.0, last.1);
        lemma_put(rehash(front, capacity), last.0, last.1);
    }
}

/// Inserting a key into a well-formed table gives a well-formed table, which stands for
/// the map with the key inserted and has as many buckets as the growth rule says.
pub proof fn lemma_inserted<K: Key, V>(chains: Seq<Seq<(K, V)>>, key: K, value: V)
    requires
        table_wf(chains),
    ensures
        table_wf(inserted(chains, key, value)),
        table_map(inserted(chains, key, value)) == table_map(chains).insert(key@, value),
        inserted(chains, key, value).len() == capacity_after_insert(
            table_map(chains),
            chains.len(),
            key@,
        ),
{
    lemma_table_len(chains);
    if grows(chains, key@) {
        lemma_table_is_entries(chains);
        lemma_rehash(entries(chains), 2 * chains.len());
        lemma_put(rehash(entries(chains), 2 * chains.len()), key, value);
    } else {
        lemma_put(chains, key, value);
    }
}

/// Inserting pairs into a well-formed table gives a well-formed table, which stands for
/// the map with the pairs inserted and has as many buckets as the growth rule says.
pub proof fn lemma_filled<K: Key, V>(chains: Seq<Seq<(K, V)>>, pairs: Seq<(K, V)>)
    requires
        table_wf(chains),
    ensures
        table_wf(filled(chains, pairs)),
        table_map(filled(chains, pairs)) == insert_all(table_map(chains), pairs),
        filled(chains, pairs).len() == capacity_after_all(table_map(chains), chains.len(), pairs),
    decreases pairs.len(),
{
    if pairs.len() > 0 {
        lemma_filled(chains, pairs.drop_last());
        lemma_inserted(filled(chains, pairs.drop_last()), pairs.last().0, pairs.last().1);
    }
}

/// What a lookup finds in a well-formed table is what the bucket of the key holds for it.
pub proof fn lemma_lookup<K: Key, V>(chains: Seq<Seq<(K, V)>>, key: K::V)
    requires
        table_wf(chains),
    ensures
        value_at(table_map(chains), key) == value_at(
            map_of(chains[slot::<K>(key, chains.len() as int)]),
            key,
        ),
{
}

} // verus!
