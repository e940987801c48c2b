use mediocremap::MediocreMap;

#[test]
fn new_map_is_empty_with_default_capacity() {
    let map: MediocreMap<u64, u64> = MediocreMap::new();
    assert_eq!(map.len(), 0);
    assert_eq!(map.capacity(), 100);
    assert_eq!(map.get(&0), None);
    assert!(map.iter().is_empty());
}

#[test]
fn with_capacity_sets_the_number_of_buckets() {
    let map: MediocreMap<u64, u64> = MediocreMap::with_capacity(7);
    assert_eq!(map.capacity(), 7);
    assert_eq!(map.len(), 0);
}

#[test]
fn round_trip() {
    let mut map: MediocreMap<u64, String> = MediocreMap::with_capacity(4);
    for k in 0..50u64 {
        map.insert(k, format!("v{}", k));
        assert_eq!(map.get(&k), Some(&format!("v{}", k)));
    }
    for k in 0..50u64 {
        assert_eq!(map.get(&k), Some(&format!("v{}", k)));
    }
}

#[test]
fn overwrite_keeps_the_count() {
    let mut map: MediocreMap<u64, u64> = MediocreMap::new();
    map.insert(5, 1);
    let len = map.len();
    let capacity = map.capacity();
    map.insert(5, 2);
    assert_eq!(map.get(&5), Some(&2));
    assert_eq!(map.len(), len);
    assert_eq!(map.len(), 1);
    assert_eq!(map.capacity(), capacity);
}

#[test]
fn remove_twice() {
    let mut map: MediocreMap<u64, u64> = MediocreMap::new();
    map.insert(5, 1);
    assert_eq!(map.remove(&5), Some(1));
    assert_eq!(map.get(&5), None);
    assert_eq!(map.remove(&5), None);
    assert_eq!(map.len(), 0);
}

#[test]
fn remove_of_a_missing_key_changes_nothing() {
    let mut map: MediocreMap<u64, u64> = MediocreMap::with_capacity(3);
    map.insert(1, 10);
    map.insert(2, 20);
    assert_eq!(map.remove(&3), None);
    assert_eq!(map.len(), 2);
    assert_eq!(map.capacity(), 3);
    assert_eq!(map.get(&1), Some(&10));
    assert_eq!(map.get(&2), Some(&20));
}

#[test]
fn remove_from_a_bucket_that_was_never_filled() {
    let mut map: MediocreMap<u64, u64> = MediocreMap::with_capacity(8);
    assert_eq!(map.remove(&1), None);
    assert_eq!(map.get(&1), None);
    assert_eq!(map.len(), 0);
}

#[test]
fn remove_never_shrinks() {
    let mut map: MediocreMap<u64, u64> = MediocreMap::with_capacity(2);
    for k in 0..20 {
        map.insert(k, k);
    }
    let capacity = map.capacity();
    for k in 0..20 {
        assert_eq!(map.remove(&k), Some(k));
    }
    assert_eq!(map.len(), 0);
    assert_eq!(map.capacity(), capacity);
}

#[test]
fn insert_after_remove_into_an_emptied_chain() {
    let mut map: MediocreMap<u64, u64> = MediocreMap::with_capacity(1);
    map.insert(1, 10);
    assert_eq!(map.remove(&1), Some(10));
    map.insert(1, 11);
    assert_eq!(map.get(&1), Some(&11));
    assert_eq!(map.len(), 1);
}

#[test]
fn colliding_keys_share_a_chain() {
    let mut map: MediocreMap<u64, u64> = MediocreMap::with_capacity(1);
    map.insert(1, 10);
    assert_eq!(map.capacity(), 1);
    map.resize(1);
    map.insert(2, 20);
    map.resize(1);
    map.insert(3, 30);
    map.resize(1);
    assert_eq!(map.capacity(), 1);
    assert_eq!(map.len(), 3);
    assert_eq!(map.get(&1), Some(&10));
    assert_eq!(map.get(&2), Some(&20));
    assert_eq!(map.get(&3), Some(&30));
    assert_eq!(map.remove(&2), Some(20));
    assert_eq!(map.get(&1), Some(&10));
    assert_eq!(map.get(&2), None);
    assert_eq!(map.get(&3), Some(&30));
    map.insert(3, 31);
    assert_eq!(map.get(&3), Some(&31));
    assert_eq!(map.len(), 2);
}

#[test]
fn count_matches_iteration() {
    let mut map: MediocreMap<u64, u64> = MediocreMap::with_capacity(3);
    for k in 0..40 {
        map.insert(k % 25, k);
        assert_eq!(map.len(), map.iter().len());
    }
    assert_eq!(map.len(), 25);
    for k in 0..8 {
        assert_eq!(map.remove(&(k * 3)), Some(if k * 3 < 15 { k * 3 + 25 } else { k * 3 }));
        assert_eq!(map.len(), map.iter().len());
    }
    assert_eq!(map.len(), 17);
}

#[test]
fn index_gives_the_value() {
    let mut map: MediocreMap<u64, u64> = MediocreMap::new();
    map.insert(1, 10);
    map.insert(2, 20);
    assert_eq!(map[1], 10);
    assert_eq!(map[2], 20);
}

#[test]
fn clone_is_a_map_of_its_own() {
    let mut map: MediocreMap<u64, u64> = MediocreMap::with_capacity(4);
    map.insert(1, 10);
    map.insert(2, 20);
    let mut copy = map.clone();
    copy.insert(1, 11);
    copy.remove(&2);
    assert_eq!(map.get(&1), Some(&10));
    assert_eq!(map.get(&2), Some(&20));
    assert_eq!(map.len(), 2);
    assert_eq!(copy.get(&1), Some(&11));
    assert_eq!(copy.get(&2), None);
    assert_eq!(copy.len(), 1);
}
