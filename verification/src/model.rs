//! The map as its users see it: a lookup, the growth rule, and a run of insertions.

use crate::key::Key;
use vstd::prelude::*;

verus! {

/// What a lookup of `key` in `m` gives.
pub open spec fn value_at<KV, V>(m: Map<KV, V>, key: KV) -> Option<V> {
    if m.contains_key(key) {
        Some(m[key])
    } else {
        None
    }
}

/// The load factor at which the table grows, as a fraction: its numerator.
pub const LOAD_NUMERATOR: usize = 7;

/// The load factor at which the table grows, as a fraction: its denominator.
pub const LOAD_DENOMINATOR: usize = 10;

/// Whether `len` entries in `capacity` buckets reach the target load factor.
pub open spec fn load_reached(len: nat, capacity: nat) -> bool {
    LOAD_DENOMINATOR * len >= LOAD_NUMERATOR * capacity
}

/// Whether `len` entries in `capacity` buckets are at most one entry over the target load
/// factor.
pub open spec fn load_bounded(len: nat, capacity: nat) -> bool {
    LOAD_DENOMINATOR * len <= LOAD_NUMERATOR * capacity + LOAD_DENOMINATOR
}

/// The number of buckets after growing: twice as many, unless that number does not fit a
/// `usize`.
pub open spec fn grown(capacity: nat) -> nat {
    if 2 * capacity <= usize::MAX {
        2 * capacity
    } else {
        capacity
    }
}

/// The number of buckets after `key` was inserted into a map `m` that had `capacity` buckets:
/// the table grows before a new key is added to a table that has reached the target load
/// factor, and at no other time.
pub open spec fn capacity_after_insert<KV, V>(m: Map<KV, V>, capacity: nat, key: KV) -> nat {
    if !m.contains_key(key) && load_reached(m.len(), capacity) {
        grown(capacity)
    } else {
        capacity
    }
}

/// The map after the `pairs` were inserted into `m`, one after the other: of two pairs with
/// the same key, the later one stays.
pub open spec fn insert_all<K: Key, V>(m: Map<K::V, V>, pairs: Seq<(K, V)>) -> Map<K::V, V>
    decreases pairs.len(),
{
    if pairs.len() == 0 {
        m
    } else {
        insert_all(m, pairs.drop_last()).insert(pairs.last().0@, pairs.last().1)
    }
}

/// The number of buckets after the `pairs` were inserted, one after the other, into a map `m`
/// that had `capacity` buckets.
pub open spec fn capacity_after_all<K: Key, V>(
    m: Map<K::V, V>,
    capacity: nat,
    pairs: Seq<(K, V)>,
) -> nat
    decreases pairs.len(),
{
    if pairs.len() == 0 {
        capacity
    } else {
        capacity_after_insert(
            insert_all(m, pairs.drop_last()),
            capacity_after_all(m, capacity, pairs.drop_last()),
            pairs.last().0@,
        )
    }
}

} // verus!
