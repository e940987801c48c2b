use mediocremap::MediocreMap;

#[test]
fn grows_before_the_new_key_that_meets_a_full_table() {
    let mut map: MediocreMap<u64, u64> = MediocreMap::with_capacity(10);
    for k in 0..7 {
        map.insert(k, k);
        assert_eq!(map.capacity(), 10);
    }
    // seven entries in ten buckets: the target load factor is reached
    map.insert(7, 7);
    assert_eq!(map.capacity(), 20);
    assert_eq!(map.len(), 8);
    for k in 8..14 {
        map.insert(k, k);
        assert_eq!(map.capacity(), 20);
    }
    map.insert(14, 14);
    assert_eq!(map.capacity(), 40);
    for k in 0..15 {
        assert_eq!(map.get(&k), Some(&k));
    }
}

#[test]
fn overwrite_at_the_threshold_does_not_grow() {
    let mut map: MediocreMap<u64, u64> = MediocreMap::with_capacity(10);
    for k in 0..7 {
        map.insert(k, k);
    }
    for k in 0..7 {
        map.insert(k, k + 100);
        assert_eq!(map.capacity(), 10);
        assert_eq!(map.len(), 7);
    }
    for k in 0..7 {
        assert_eq!(map.get(&k), Some(&(k + 100)));
    }
}

#[test]
fn single_bucket_grows_at_the_second_key() {
    let mut map: MediocreMap<u64, u64> = MediocreMap::with_capacity(1);
    map.insert(1, 1);
    assert_eq!(map.capacity(), 1);
    map.insert(2, 2);
    assert_eq!(map.capacity(), 2);
    map.insert(3, 3);
    assert_eq!(map.capacity(), 4);
    map.insert(4, 4);
    assert_eq!(map.capacity(), 8);
    map.insert(5, 5);
    assert_eq!(map.capacity(), 8);
    assert_eq!(map.len(), 5);
}

#[test]
fn growth_keeps_every_entry_with_its_last_value() {
    let mut map: MediocreMap<u64, u64> = MediocreMap::with_capacity(2);
    let mut last_capacity = map.capacity();
    for round in 0..3u64 {
        for k in 0..200u64 {
            let before = map.capacity();
            map.insert(k, k * 10 + round);
            let after = map.capacity();
            assert!(after == before || after == 2 * before);
            assert!(after >= last_capacity);
            last_capacity = after;
            for j in 0..=k {
                assert_eq!(map.get(&j), Some(&(j * 10 + round)));
            }
        }
    }
    assert_eq!(map.len(), 200);
}

#[test]
fn load_stays_within_one_entry_of_the_target() {
    let mut map: MediocreMap<u64, u64> = MediocreMap::with_capacity(1);
    for k in 0..500u64 {
        map.insert(k, k);
        assert!(10 * map.len() < 7 * map.capacity() + 10);
    }
    let mut map: MediocreMap<u64, u64> = MediocreMap::new();
    for k in 0..500u64 {
        map.insert(k, k);
        assert!(10 * map.len() < 7 * map.capacity() + 10);
    }
}

#[test]
fn resize_keeps_the_mapping() {
    let mut map: MediocreMap<u64, u64> = MediocreMap::with_capacity(50);
    for k in 0..30 {
        map.insert(k, k + 1);
    }
    map.resize(3);
    assert_eq!(map.capacity(), 3);
    assert_eq!(map.len(), 30);
    for k in 0..30 {
        assert_eq!(map.get(&k), Some(&(k + 1)));
    }
    assert_eq!(map.get(&30), None);
    map.resize(1000);
    assert_eq!(map.capacity(), 1000);
    assert_eq!(map.len(), 30);
    for k in 0..30 {
        assert_eq!(map.get(&k), Some(&(k + 1)));
    }
}

#[test]
fn resize_of_an_empty_map() {
    let mut map: MediocreMap<u64, u64> = MediocreMap::new();
    map.resize(5);
    assert_eq!(map.capacity(), 5);
    assert_eq!(map.len(), 0);
    map.insert(1, 2);
    assert_eq!(map.get(&1), Some(&2));
}
