//! Chains: the entries of one bucket, in the order in which they were added.

use crate::key::Key;
use vstd::prelude::*;

verus! {

/// Whether `chain` has an entry for `k`.
pub open spec fn holds<K: Key, V>(chain: Seq<(K, V)>, k: K::V) -> bool {
    exists|j: int| 0 <= j < chain.len() && (#[trigger] chain[j]).0@ == k
}

/// A position in `chain` of an entry for `k`, where there is one.
pub open spec fn place<K: Key, V>(chain: Seq<(K, V)>, k: K::V) -> int {
    choose|j: int| 0 <= j < chain.len() && (#[trigger] chain[j]).0@ == k
}

/// No two entries of `chain` have the same key.
pub open spec fn distinct_keys<K: Key, V>(chain: Seq<(K, V)>) -> bool {
    forall|i: int, j: int|
        0 <= i < j < chain.len() ==> (#[trigger] chain[i]).0@ != (#[trigger] chain[j]).0@
}

/// Two chains hold the same keys at the same positions.
pub open spec fn same_keys<K, V>(a: Seq<(K, V)>, b: Seq<(K, V)>) -> bool {
    &&& a.len() == b.len()
    &&& forall|j: int| 0 <= j < a.len() ==> (#[trigger] a[j]).0 == b[j].0
}

/// The map that a sequence of entries stands for.
pub open spec fn map_of<K: Key, V>(chain: Seq<(K, V)>) -> Map<K::V, V> {
    Map::new(|k: K::V| holds(chain, k), |k: K::V| chain[place(chain, k)].1)
}

/// In a chain of distinct keys, an entry is found at its own position.
pub proof fn lemma_place<K: Key, V>(chain: Seq<(K, V)>, j: int)
    requires
        distinct_keys(chain),
        0 <= j < chain.len(),
    ensures
        holds(chain, chain[j].0@),
        place(chain, chain[j].0@) == j,
        map_of(chain).contains_key(chain[j].0@),
        map_of(chain)[chain[j].0@] == chain[j].1,
{
    let k = chain[j].0@;
    assert(holds(chain, k));
    let p = place(chain, k);
    assert(0 <= p < chain.len() && chain[p].0@ == k);
    if p < j {
        assert(chain[p].0@ != chain[j].0@);
    } else if j < p {
        assert(chain[j].0@ != chain[p].0@);
    }
}

/// Overwriting the entry for a key keeps the keys distinct and sets the key's value.
pub proof fn lemma_chain_replace<K: Key, V>(chain: Seq<(K, V)>, j: int, key: K, value: V)
    requires
        distinct_keys(chain),
        0 <= j < chain.len(),
        chain[j].0@ == key@,
    ensures
        distinct_keys(chain.update(j, (key, value))),
        map_of(chain.update(j, (key, value))) == map_of(chain).insert(key@, value),
{
    let after = chain.update(j, (key, value));
    assert forall|a: int, b: int| 0 <= a < b < after.len() implies (#[trigger] after[a]).0@ != (
    #[trigger] after[b]).0@ by {
        assert(chain[a].0@ != chain[b].0@);
    }
    assert forall|k: K::V| holds(after, k) <==> (k == key@ || holds(chain, k)) by {
        if holds(after, k) {
            let p = place(after, k);
            assert(after[p].0@ == chain[p].0@);
        }
        if holds(chain, k) {
            let p = place(chain, k);
            assert(after[p].0@ == chain[p].0@);
        }
        if k == key@ {
            assert(after[j].0@ == k);
        }
    }
    assert forall|k: K::V| holds(after, k) implies #[trigger] map_of(after)[k] == map_of(
        chain,
    ).insert(key@, value)[k] by {
        let p = place(after, k);
        lemma_place(after, p);
        if k != key@ {
            lemma_place(chain, p);
        } else {
            lemma_place(after, j);
        }
    }
    assert(map_of(after) =~= map_of(chain).insert(key@, value));
}

/// Appending an entry for a key that the chain lacks keeps the keys distinct and adds the key.
pub proof fn lemma_chain_push<K: Key, V>(chain: Seq<(K, V)>, key: K, value: V)
    requires
        distinct_keys(chain),
        !holds(chain, key@),
    ensures
        distinct_keys(chain.push((key, value))),
        map_of(chain.push((key, value))) == map_of(chain).insert(key@, value),
{
    let after = chain.push((key, value));
    let n = chain.len() as int;
    assert forall|a: int, b: int| 0 <= a < b < after.len() implies (#[trigger] after[a]).0@ != (
    #[trigger] after[b]).0@ by {
        if b < n {
            assert(chain[a].0@ != chain[b].0@);
        } else {
            assert(chain[a].0@ != key@);
        }
    }
    assert forall|k: K::V| holds(after, k) <==> (k == key@ || holds(chain, k)) by {
        if holds(after, k) {
            let p = place(after, k);
            if p < n {
                assert(chain[p].0@ == k);
            }
        }
        if holds(chain, k) {
            let p = place(chain, k);
            assert(after[p].0@ == k);
        }
        if k == key@ {
            assert(after[n].0@ == k);
        }
    }
    assert forall|k: K::V| holds(after, k) implies #[trigger] map_of(after)[k] == map_of(
        chain,
    ).insert(key@, value)[k] by {
        let p = place(after, k);
        lemma_place(after, p);
        if k != key@ {
            assert(p < n);
            lemma_place(chain, p);
        } else {
            lemma_place(after, n);
        }
    }
    assert(map_of(after) =~= map_of(chain).insert(key@, value));
}

/// Taking an entry out of a chain keeps the keys distinct and removes its key.
pub proof fn lemma_chain_remove<K: Key, V>(chain: Seq<(K, V)>, j: int)
    requires
        distinct_keys(chain),
        0 <= j < chain.len(),
    ensures
        distinct_keys(chain.remove(j)),
        map_of(chain.remove(j)) == map_of(chain).remove(chain[j].0@),
{
    let after = chain.remove(j);
    let key = chain[j].0@;
    assert forall|a: int| 0 <= a < after.len() implies #[trigger] after[a] == chain[if a < j {
        a
    } else {
        a + 1
    }] by {}
    assert forall|a: int, b: int| 0 <= a < b < after.len() implies (#[trigger] after[a]).0@ != (
    #[trigger] after[b]).0@ by {
        let first = if a < j { a } else { a + 1 };
        let second = if b < j { b } else { b + 1 };
        assert(chain[first].0@ != chain[second].0@);
    }
    assert forall|k: K::V| holds(after, k) <==> (k != key && holds(chain, k)) by {
        if holds(after, k) {
            let p = place(after, k);
            let origin = if p < j { p } else { p + 1 };
            assert(chain[origin].0@ == k);
            if origin < j {
                assert(chain[origin].0@ != chain[j].0@);
            } else {
                assert(chain[j].0@ != chain[origin].0@);
            }
        }
        if k != key && holds(chain, k) {
            let p = place(chain, k);
            let q = if p < j { p } else { p - 1 };
            assert(after[q].0@ == k);
        }
    }
    assert forall|k: K::V| holds(after, k) implies #[trigger] map_of(after)[k] == map_of(
        chain,
    ).remove(key)[k] by {
        let p = place(after, k);
        lemma_place(after, p);
        let origin = if p < j { p } else { p + 1 };
        lemma_place(chain, origin);
    }
    assert(map_of(after) =~= map_of(chain).remove(key));
}

/// A chain of distinct keys stands for a finite map with one key for each entry.
pub proof fn lemma_map_of_len<K: Key, V>(chain: Seq<(K, V)>)
    requires
        distinct_keys(chain),
    ensures
        map_of(chain).dom().finite(),
        map_of(chain).len() == chain.len(),
{
    let keys = chain.map_values(|e: (K, V)| e.0@);
    assert forall|a: int, b: int| 0 <= a < keys.len() && 0 <= b < keys.len() && a != b implies keys[a]
        != keys[b] by {
        if a < b {
            assert(chain[a].0@ != chain[b].0@);
        } else {
            assert(chain[b].0@ != chain[a].0@);
        }
    }
    assert forall|k: K::V| keys.to_set().contains(k) <==> map_of(chain).dom().contains(k) by {
        if keys.to_set().contains(k) {
            let a = choose|a: int| 0 <= a < keys.len() && keys[a] == k;
            assert(chain[a].0@ == k);
        }
        if holds(chain, k) {
            let a = place(chain, k);
            assert(keys[a] == k);
        }
    }
    assert(keys.to_set() =~= map_of(chain).dom());
    keys.unique_seq_to_set();
    vstd::seq_lib::seq_to_set_is_finite(keys);
}

/// Chains with the same keys stand for maps with the same keys.
pub proof fn lemma_same_keys<K: Key, V>(a: Seq<(K, V)>, b: Seq<(K, V)>)
    requires
        same_keys(a, b),
    ensures
        distinct_keys(a) == distinct_keys(b),
        map_of(a).dom() == map_of(b).dom(),
{
    if distinct_keys(a) {
        assert forall|i: int, j: int| 0 <= i < j < b.len() implies (#[trigger] b[i]).0@ != (
        #[trigger] b[j]).0@ by {
            assert(a[i].0@ != a[j].0@);
        }
    }
    if distinct_keys(b) {
        assert forall|i: int, j: int| 0 <= i < j < a.len() implies (#[trigger] a[i]).0@ != (
        #[trigger] a[j]).0@ by {
            assert(b[i].0@ != b[j].0@);
        }
    }
    assert forall|k: K::V| holds(a, k) <==> holds(b, k) by {
        if holds(a, k) {
            let j = place(a, k);
            assert(b[j].0@ == k);
        }
        if holds(b, k) {
            let j = place(b, k);
            assert(a[j].0@ == k);
        }
    }
    assert(map_of(a).dom() =~= map_of(b).dom());
}

} // verus!
