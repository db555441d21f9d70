use immutable_avl::ImmutableMap;
use immutable_avl::ImmutableSet;

#[test]
fn test() {
    let set = ImmutableSet::new();
    let new_set = set.insert(1);
    assert_eq!(new_set.size(), 1);

    let map = ImmutableMap::new();
    let new_map = map.insert(1, "abc");
    assert_eq!(new_map.size(), 1);
    let new_map = new_map.insert(2, "def");
    assert_eq!(new_map.get_val_as_ref(2), Some(&"def"));
    let new_map = new_map.delete(1);
    assert_eq!(new_map.size(), 1);
}

#[test]
fn map_scenario_insert_lookup_delete() {
    let map = ImmutableMap::new();
    let map = map.insert(1i32, "abc");
    assert_eq!(map.size(), 1);
    let map = map.insert(2, "def");
    assert_eq!(map.size(), 2);
    assert_eq!(map.get_val_as_ref(2), Some(&"def"));
    let map = map.delete(1);
    assert_eq!(map.size(), 1);
    assert_eq!(map.get_val_as_ref(1), None);
    assert_eq!(map.get_val_as_ref(2), Some(&"def"));
}

#[test]
fn replace_keeps_one_entry_with_latest_value() {
    let map = ImmutableMap::new().insert(7u64, "first");
    let map2 = map.insert(7, "second");
    assert_eq!(map2.size(), 1);
    assert_eq!(map2.get_val_as_ref(7), Some(&"second"));
    // the older version still sees the older value
    assert_eq!(map.get_val_as_ref(7), Some(&"first"));
}

#[test]
fn contains_goes_by_key_alone() {
    let map = ImmutableMap::new().insert(3i32, "abc");
    // entries compare by key only, so any probe value matches a stored key
    assert!(map.contains(3, "abc"));
    assert!(map.contains(3, "zzz"));
    assert!(!map.contains(4, "abc"));
}

#[test]
fn delete_by_key_ignores_stored_value() {
    let map = ImmutableMap::new().insert(9usize, 123i64).insert(10, 456);
    let map2 = map.delete(9);
    assert_eq!(map2.size(), 1);
    assert_eq!(map2.get_val_as_ref(9), None);
    assert_eq!(map2.get_val_as_ref(10), Some(&456));
}

#[test]
fn map_size_over_interleavings() {
    let mut map = ImmutableMap::new();
    for i in 0u32..20 {
        map = map.insert(i, i as u64);
    }
    assert_eq!(map.size(), 20);
    map = map.insert(5, 999);
    assert_eq!(map.size(), 20);
    for i in 0u32..10 {
        map = map.delete(i);
    }
    assert_eq!(map.size(), 10);
    map = map.delete(999);
    assert_eq!(map.size(), 10);
    assert_eq!(map.get_val_as_ref(15), Some(&15));
    assert_eq!(map.get_val_as_ref(5), None);
}

#[test]
fn operations_on_the_empty_map() {
    let map: ImmutableMap<i64, u32> = ImmutableMap::new();
    assert_eq!(map.size(), 0);
    assert!(!map.contains(1, 0));
    assert_eq!(map.get_val_as_ref(1), None);
    let map2 = map.delete(1);
    assert_eq!(map2.size(), 0);
}
