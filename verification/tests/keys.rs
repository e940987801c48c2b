use mediocremap::{Key, MediocreMap};
use std::collections::hash_map::DefaultHasher;
use std::hash::Hasher;

fn digest<K: Key>(key: &K) -> u64 {
    let mut state = DefaultHasher::new();
    key.feed(&mut state);
    state.finish()
}

fn untouched() -> u64 {
    DefaultHasher::new().finish()
}

#[test]
fn u32_keys() {
    assert_ne!(digest(&1u32), untouched());
    assert_ne!(digest(&1u32), digest(&2u32));
    assert_eq!(digest(&7u32), digest(&7u32));
    assert!(1u32.same(&1));
    assert!(!1u32.same(&2));
    let mut map: MediocreMap<u32, u32> = MediocreMap::with_capacity(8);
    for k in 0..100 {
        map.insert(k, k + 1);
    }
    for k in 0..100 {
        assert_eq!(map.get(&k), Some(&(k + 1)));
    }
    assert_eq!(map.get(&100), None);
}

#[test]
fn u64_keys() {
    assert_ne!(digest(&1u64), untouched());
    assert_ne!(digest(&1u64), digest(&2u64));
    assert_eq!(digest(&7u64), digest(&7u64));
    assert!(1u64.same(&1));
    assert!(!1u64.same(&2));
    let mut map: MediocreMap<u64, u64> = MediocreMap::with_capacity(8);
    for k in 0..100 {
        map.insert(k, k + 1);
    }
    for k in 0..100 {
        assert_eq!(map.get(&k), Some(&(k + 1)));
    }
    assert_eq!(map.get(&100), None);
}

#[test]
fn i32_keys() {
    assert_ne!(digest(&1i32), untouched());
    assert_ne!(digest(&1i32), digest(&-1i32));
    assert_eq!(digest(&-7i32), digest(&-7i32));
    assert!((-1i32).same(&-1));
    assert!(!1i32.same(&-1));
    let mut map: MediocreMap<i32, i32> = MediocreMap::with_capacity(8);
    for k in -50..50 {
        map.insert(k, k + 1);
    }
    for k in -50..50 {
        assert_eq!(map.get(&k), Some(&(k + 1)));
    }
}

#[test]
fn i64_keys() {
    assert_ne!(digest(&1i64), untouched());
    assert_ne!(digest(&1i64), digest(&-1i64));
    assert_eq!(digest(&-7i64), digest(&-7i64));
    assert!((-1i64).same(&-1));
    assert!(!1i64.same(&-1));
    let mut map: MediocreMap<i64, i64> = MediocreMap::with_capacity(8);
    for k in -50..50 {
        map.insert(k, k + 1);
    }
    for k in -50..50 {
        assert_eq!(map.get(&k), Some(&(k + 1)));
    }
}

#[test]
fn str_keys() {
    assert_ne!(digest(&"a"), untouched());
    assert_ne!(digest(&"a"), digest(&"b"));
    let owned = String::from("same");
    assert_eq!(digest(&owned.as_str()), digest(&"same"));
    assert!("same".same(&owned.as_str()));
    assert!(!"same".same(&"other"));
    assert!(!"same".same(&"sam"));
    let mut map: MediocreMap<&str, u64> = MediocreMap::with_capacity(2);
    map.insert("one", 1);
    map.insert("two", 2);
    map.insert(owned.as_str(), 3);
    assert_eq!(map.get(&"same"), Some(&3));
    assert_eq!(map.get(&"one"), Some(&1));
    assert_eq!(map.get(&"on"), None);
    assert_eq!(map.get(&""), None);
}

#[test]
fn string_keys() {
    assert_ne!(digest(&String::from("a")), untouched());
    assert_ne!(digest(&String::from("a")), digest(&String::from("b")));
    assert_eq!(digest(&String::from("a")), digest(&String::from("a")));
    assert!(String::from("a").same(&String::from("a")));
    assert!(!String::from("a").same(&String::from("b")));
    let mut map: MediocreMap<String, u64> = MediocreMap::with_capacity(2);
    for k in 0..50u64 {
        map.insert(format!("key{}", k), k);
    }
    for k in 0..50u64 {
        assert_eq!(map.get(&format!("key{}", k)), Some(&k));
    }
    assert_eq!(map.remove(&String::from("key7")), Some(7));
    assert_eq!(map.get(&String::from("key7")), None);
    assert_eq!(map.len(), 49);
}

#[test]
fn keys_spread_over_the_buckets() {
    let mut map: MediocreMap<u64, u64> = MediocreMap::with_capacity(64);
    for k in 0..40 {
        map.insert(k, k);
    }
    assert_eq!(map.capacity(), 64);
    let order: Vec<u64> = map.iter().into_iter().map(|(k, _)| *k).collect();
    assert_ne!(order, (0..40).collect::<Vec<u64>>());
}
