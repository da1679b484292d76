use ov6::lru::{Lru, LruMap};

#[test]
fn test_lru_new() {
    let lru: Lru<i32, i32> = Lru::new(3);
    assert_eq!(lru.map.list.len(), 3);
}

#[test]
fn test_lru_get_and_evict() {
    let mut lru: Lru<i32, i32> = Lru::new(2);
    for key in [1, 2, 3] {
        let value = lru.get(key);
        assert!(value.is_some());
        lru.map.release(value.unwrap());
    }
}

#[test]
fn test_lru_get_never_evict_referenced() {
    let mut lru: Lru<i32, i32> = Lru::new(2);

    let _c1 = lru.get(1).unwrap();
    let c2 = lru.get(2).unwrap();
    assert!(lru.get(3).is_none());

    // after the reference is released, a new entry can be obtained
    lru.map.release(c2);
    assert!(lru.get(3).is_some());
}

#[test]
fn test_lru_get_same_cache() {
    let mut lru: Lru<i32, i32> = Lru::new(2);
    let _c1 = lru.get(1).unwrap();
    let _c2 = lru.get(2).unwrap();
    assert!(lru.get(1).is_some());
    assert!(lru.get(2).is_some());
    assert!(lru.get(3).is_none());
}

#[test]
fn test_lru_promote() {
    let mut lru: Lru<i32, i32> = Lru::new(3);
    let value1 = lru.get(1).unwrap();
    let value2 = lru.get(2).unwrap();
    let value3 = lru.get(3).unwrap();
    lru.map.release(value1);
    assert_eq!(lru.map.list.first().as_ref().unwrap().key, Some(1));
    lru.map.release(value2);
    assert_eq!(lru.map.list.first().as_ref().unwrap().key, Some(2));
    lru.map.release(value3);
    assert_eq!(lru.map.list.first().as_ref().unwrap().key, Some(3));
}

#[test]
fn the_least_recently_used_value_is_recycled() {
    let mut map: LruMap<u32, u32> = LruMap::new(2);
    for key in [1, 2] {
        let value = map.get(key).unwrap();
        map.release(value);
    }
    // 1 was released first, so it makes place for 3
    let value = map.get(3).unwrap();
    map.release(value);
    let mut keys: Vec<Option<u32>> = map.list.iter().map(|s| s.key).collect();
    keys.sort();
    assert_eq!(keys, [Some(2), Some(3)]);
}

#[test]
fn a_cached_value_is_found_again() {
    let mut map: LruMap<u32, u32> = LruMap::new(2);
    let value = map.get(7).unwrap();
    assert_eq!(*value.key(), 7);
    assert_eq!(*value.value(&map), 0);
    let i = map.list.iter().position(|s| s.key == Some(7)).unwrap();
    map.list[i].value = 42;
    map.release(value);
    let again = map.get(7).unwrap();
    assert_eq!(*again.value(&map), 42);
}

#[test]
fn a_second_reference_keeps_the_value() {
    let mut map: LruMap<u32, u32> = LruMap::new(1);
    let a = map.get(1).unwrap();
    let b = a.clone_ref(&mut map);
    assert_eq!(*b.key(), 1);
    map.release(a);
    assert!(map.get(2).is_none());
    map.release(b);
    assert!(map.get(2).is_some());
}

#[test]
fn a_new_map_holds_as_many_keys_as_it_has_slots() {
    let mut map: LruMap<u32, u32> = LruMap::new(4);
    for key in [3, 1, 4, 5] {
        let value = map.get(key).unwrap();
        assert_eq!(*value.value(&map), 0);
    }
    assert!(map.get(9).is_none());
    assert!(map.get(4).is_some());
}

#[test]
fn a_default_map_holds_nothing() {
    let mut map: LruMap<u32, u32> = LruMap::default();
    assert!(map.get(1).is_none());
}
