//! What holds of every map, stated over the model that the operations are specified with.

use crate::key::Key;
use crate::model::{
    capacity_after_all, capacity_after_insert, insert_all, load_bounded, load_reached, value_at,
    LOAD_DENOMINATOR, LOAD_NUMERATOR,
};
use vstd::prelude::*;

verus! {

/// After a key was inserted with a value, a lookup of the key gives that value.
pub proof fn law_insert_then_get<K: Key, V>(m: Map<K::V, V>, key: K, value: V)
    ensures
        value_at(m.insert(key@, value), key@) == Some(value),
{
}

/// An insertion leaves every other key as it was.
pub proof fn law_insert_keeps_others<K: Key, V>(m: Map<K::V, V>, key: K, value: V, other: K)
    requires
        other@ != key@,
    ensures
        value_at(m.insert(key@, value), other@) == value_at(m, other@),
{
}

/// After a key was inserted twice, a lookup gives the second value; and the second
/// insertion changes neither the number of entries nor the number of buckets.
pub proof fn law_overwrite<K: Key, V>(
    m: Map<K::V, V>,
    capacity: nat,
    key: K,
    first: V,
    second: V,
)
    requires
        m.dom().finite(),
    ensures
        value_at(m.insert(key@, first).insert(key@, second), key@) == Some(second),
        m.insert(key@, first).insert(key@, second).len() == m.insert(key@, first).len(),
        capacity_after_insert(m.insert(key@, first), capacity, key@) == capacity,
{
    assert(m.insert(key@, first).insert(key@, second).dom() =~= m.insert(key@, first).dom());
}

/// After a key was inserted and then removed, a lookup finds nothing, and a second removal
/// finds nothing and changes nothing.
pub proof fn law_remove<K: Key, V>(m: Map<K::V, V>, key: K, value: V)
    ensures
        value_at(m.insert(key@, value).remove(key@), key@) is None,
        m.insert(key@, value).remove(key@).remove(key@) == m.insert(key@, value).remove(key@),
{
    assert(m.insert(key@, value).remove(key@).remove(key@) =~= m.insert(key@, value).remove(
        key@,
    ));
}

/// A removal leaves every other key as it was.
pub proof fn law_remove_keeps_others<K: Key, V>(m: Map<K::V, V>, key: K, other: K)
    requires
        other@ != key@,
    ensures
        value_at(m.remove(key@), other@) == value_at(m, other@),
{
}

/// After a run of insertions, a lookup of an inserted key gives the value that it was last
/// inserted with.
pub proof fn law_last_insert_stays<K: Key, V>(m: Map<K::V, V>, pairs: Seq<(K, V)>, i: int)
    requires
        0 <= i < pairs.len(),
        forall|j: int| i < j < pairs.len() ==> (#[trigger] pairs[j]).0@ != pairs[i].0@,
    ensures
        value_at(insert_all(m, pairs), pairs[i].0@) == Some(pairs[i].1),
    decreases pairs.len(),
{
    if i < pairs.len() - 1 {
        assert(pairs.last().0@ != pairs[i].0@);
        law_last_insert_stays(m, pairs.drop_last(), i);
    }
}

/// A key that was in the map before a run of insertions, and is not among the keys
/// inserted, keeps its value.
pub proof fn law_untouched_key_stays<K: Key, V>(m: Map<K::V, V>, pairs: Seq<(K, V)>, key: K)
    requires
        forall|j: int| 0 <= j < pairs.len() ==> (#[trigger] pairs[j]).0@ != key@,
    ensures
        value_at(insert_all(m, pairs), key@) == value_at(m, key@),
    decreases pairs.len(),
{
    if pairs.len() > 0 {
        assert(pairs.last().0@ != key@);
        law_untouched_key_stays(m, pairs.drop_last(), key);
    }
}

/// A run of insertions keeps a finite map finite, adds at most one entry for each pair, and
/// never takes a bucket away.
pub proof fn law_insert_all_bounds<K: Key, V>(m: Map<K::V, V>, capacity: nat, pairs: Seq<(K, V)>)
    requires
        m.dom().finite(),
    ensures
        insert_all(m, pairs).dom().finite(),
        m.len() <= insert_all(m, pairs).len() <= m.len() + pairs.len(),
        capacity <= capacity_after_all(m, capacity, pairs),
    decreases pairs.len(),
{
    if pairs.len() > 0 {
        law_insert_all_bounds(m, capacity, pairs.drop_last());
    }
}

/// The insertion of a new key into a table that has reached the target load factor doubles
/// the number of buckets, where twice the number fits a `usize`, and every key that was
/// inserted before is still found with the value that it was last inserted with.
pub proof fn law_growth_keeps_entries<K: Key, V>(
    m: Map<K::V, V>,
    capacity: nat,
    pairs: Seq<(K, V)>,
    key: K,
    value: V,
    i: int,
)
    requires
        m.dom().finite(),
        0 <= i < pairs.len(),
        forall|j: int| i < j < pairs.len() ==> (#[trigger] pairs[j]).0@ != pairs[i].0@,
        !insert_all(m, pairs).contains_key(key@),
        load_reached(insert_all(m, pairs).len(), capacity_after_all(m, capacity, pairs)),
        2 * capacity_after_all(m, capacity, pairs) <= usize::MAX,
    ensures
        capacity_after_insert(
            insert_all(m, pairs),
            capacity_after_all(m, capacity, pairs),
            key@,
        ) == 2 * capacity_after_all(m, capacity, pairs),
        value_at(insert_all(m, pairs).insert(key@, value), pairs[i].0@) == Some(pairs[i].1),
{
    law_last_insert_stays(m, pairs, i);
}

/// No other insertion changes the number of buckets: not that of a key which the map
/// holds, and not one into a table below the target load factor.
pub proof fn law_no_growth<K: Key, V>(m: Map<K::V, V>, capacity: nat, key: K)
    requires
        m.contains_key(key@) || !load_reached(m.len(), capacity),
    ensures
        capacity_after_insert(m, capacity, key@) == capacity,
{
}

/// A table that is at most one entry over the target load factor is so after an insertion
/// too; and right after the insertion of a new key, it has fewer than one entry over the
/// target load factor.
pub proof fn law_load_bound<K: Key, V>(m: Map<K::V, V>, capacity: nat, key: K, value: V)
    requires
        m.dom().finite(),
        capacity > 0,
        2 * capacity <= usize::MAX,
        load_bounded(m.len(), capacity),
    ensures
        load_bounded(m.insert(key@, value).len(), capacity_after_insert(m, capacity, key@)),
        !m.contains_key(key@) ==> LOAD_DENOMINATOR * m.insert(key@, value).len() < LOAD_NUMERATOR
            * capacity_after_insert(m, capacity, key@) + LOAD_DENOMINATOR,
{
    if m.contains_key(key@) {
        assert(m.insert(key@, value).dom() =~= m.dom());
    }
}

/// An empty table is within the load bound, and a removal keeps a table within it.
pub proof fn law_load_bound_kept<K: Key, V>(m: Map<K::V, V>, capacity: nat, key: K)
    requires
        m.dom().finite(),
        load_bounded(m.len(), capacity),
    ensures
        load_bounded(0, capacity),
        load_bounded(m.remove(key@).len(), capacity),
{
}

} // verus!
