use mediocremap::MediocreMap;

fn sample() -> MediocreMap<&'static str, &'static str> {
    let mut map = MediocreMap::new();
    map.insert("tk1", "tv1");
    map.insert("tk2", "tv2");
    map.insert("tk2", "tv2");
    map.insert("tk3", "tv3");
    map.insert("tk4", "tv4");
    map
}

#[test]
fn inserted_pairs_are_found_and_counted_once() {
    let map = sample();
    assert_eq!(map.len(), 4);
    assert_eq!(map.get(&"tk1"), Some(&"tv1"));
    assert_eq!(map.get(&"tk2"), Some(&"tv2"));
    assert_eq!(map.get(&"tk3"), Some(&"tv3"));
    assert_eq!(map.get(&"tk4"), Some(&"tv4"));
    assert_eq!(map.get(&"tk5"), None);
}

#[test]
fn removed_pair_is_returned_and_gone() {
    let mut map = sample();
    assert_eq!(map.remove(&"tk1"), Some("tv1"));
    assert_eq!(map.get(&"tk1"), None);
    assert_eq!(map.len(), 3);
    assert_eq!(map.get(&"tk2"), Some(&"tv2"));
    assert_eq!(map.get(&"tk3"), Some(&"tv3"));
    assert_eq!(map.get(&"tk4"), Some(&"tv4"));
}

#[test]
fn later_duplicate_in_an_array_wins() {
    let map = MediocreMap::from([("a", 1), ("a", 2)]);
    assert_eq!(map.len(), 1);
    assert_eq!(map.get(&"a"), Some(&2));
}

#[test]
fn array_of_distinct_pairs() {
    let map = MediocreMap::from([("tk1", "tv1"), ("tk2", "tv2")]);
    assert_eq!(map.get(&"tk1"), Some(&"tv1"));
    assert_eq!(map.get(&"tk2"), Some(&"tv2"));
    assert_eq!(map.len(), 2);
    assert_eq!(map.capacity(), 2);
}

#[test]
fn remove_then_get_as_documented() {
    let mut map = MediocreMap::new();
    map.insert("tk1", "tv1");
    map.insert("tk2", "tv2");
    map.remove(&"tk1");
    assert_eq!(map.get(&"tk1"), None);
    assert_eq!(map.get(&"tk2"), Some(&"tv2"));
}
