use mediocremap::MediocreMap;

fn filled() -> MediocreMap<u64, u64> {
    let mut map = MediocreMap::with_capacity(5);
    for k in 0..30 {
        map.insert(k, k * 2);
    }
    map
}

#[test]
fn iter_meets_each_entry_once() {
    let map = filled();
    let items = map.iter();
    assert_eq!(items.len(), 30);
    let mut keys: Vec<u64> = items.iter().map(|(k, _)| **k).collect();
    keys.sort();
    assert_eq!(keys, (0..30).collect::<Vec<u64>>());
    for (k, v) in items {
        assert_eq!(*v, *k * 2);
        assert_eq!(map.get(k), Some(v));
    }
}

#[test]
fn iter_can_start_again() {
    let map = filled();
    let first: Vec<(u64, u64)> = map.iter().into_iter().map(|(k, v)| (*k, *v)).collect();
    let second: Vec<(u64, u64)> = map.iter().into_iter().map(|(k, v)| (*k, *v)).collect();
    assert_eq!(first, second);
}

#[test]
fn iter_mut_changes_values_only() {
    let mut map = filled();
    let order: Vec<u64> = map.iter().into_iter().map(|(k, _)| *k).collect();
    let capacity = map.capacity();
    {
        let items = map.iter_mut();
        assert_eq!(items.len(), 30);
        for (n, (k, v)) in items.into_iter().enumerate() {
            assert_eq!(*k, order[n]);
            assert_eq!(*v, *k * 2);
            *v = *k + 1000;
        }
    }
    assert_eq!(map.len(), 30);
    assert_eq!(map.capacity(), capacity);
    for k in 0..30 {
        assert_eq!(map.get(&k), Some(&(k + 1000)));
    }
    let after: Vec<u64> = map.iter().into_iter().map(|(k, _)| *k).collect();
    assert_eq!(after, order);
}

#[test]
fn into_iter_hands_out_each_entry_once() {
    let map = filled();
    let order: Vec<(u64, u64)> = map.iter().into_iter().map(|(k, v)| (*k, *v)).collect();
    let items = map.into_iter();
    assert_eq!(items, order);
    let mut keys: Vec<u64> = items.iter().map(|(k, _)| *k).collect();
    keys.sort();
    assert_eq!(keys, (0..30).collect::<Vec<u64>>());
}

#[test]
fn traversals_of_an_empty_map() {
    let mut map: MediocreMap<u64, u64> = MediocreMap::with_capacity(4);
    assert!(map.iter().is_empty());
    assert!(map.iter_mut().is_empty());
    assert!(map.into_iter().is_empty());
}

#[test]
fn traversal_skips_emptied_chains() {
    let mut map: MediocreMap<u64, u64> = MediocreMap::with_capacity(4);
    for k in 0..10 {
        map.insert(k, k);
    }
    for k in 0..9 {
        map.remove(&k);
    }
    assert_eq!(map.iter(), vec![(&9, &9)]);
    assert_eq!(map.into_iter(), vec![(9, 9)]);
}

#[test]
fn overwrite_keeps_the_order_of_a_traversal() {
    let mut map = filled();
    let order: Vec<u64> = map.iter().into_iter().map(|(k, _)| *k).collect();
    let capacity = map.capacity();
    for k in 0..30 {
        map.insert(k, k + 7);
    }
    assert_eq!(map.capacity(), capacity);
    let after: Vec<(u64, u64)> = map.iter().into_iter().map(|(k, v)| (*k, *v)).collect();
    let expected: Vec<(u64, u64)> = order.iter().map(|k| (*k, *k + 7)).collect();
    assert_eq!(after, expected);
}

#[test]
fn remove_keeps_the_order_of_the_others() {
    let mut map = filled();
    let order: Vec<u64> = map.iter().into_iter().map(|(k, _)| *k).collect();
    assert_eq!(map.remove(&order[3]), Some(order[3] * 2));
    assert_eq!(map.remove(&order[17]), Some(order[17] * 2));
    let after: Vec<u64> = map.iter().into_iter().map(|(k, _)| *k).collect();
    let expected: Vec<u64> =
        order.iter().copied().filter(|k| *k != order[3] && *k != order[17]).collect();
    assert_eq!(after, expected);
}

#[test]
fn new_key_goes_to_the_end_of_its_chain() {
    let mut map: MediocreMap<u64, u64> = MediocreMap::with_capacity(1);
    map.insert(5, 50);
    map.resize(1);
    map.insert(3, 30);
    map.resize(1);
    map.insert(9, 90);
    map.resize(1);
    assert_eq!(map.into_iter(), vec![(5, 50), (3, 30), (9, 90)]);
}
