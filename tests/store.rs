use near_tree_map::lookup_map::LookupMap;

#[test]
fn lookup_map_insert_get_remove() {
    let mut m: LookupMap<u64, &str> = LookupMap::new(b"p".to_vec());
    assert_eq!(m.prefix(), &b"p".to_vec());
    assert_eq!(m.insert(1, "a"), None);
    assert_eq!(m.insert(1, "b"), Some("a"));
    assert_eq!(m.get(&1), Some(&"b"));
    assert!(m.contains_key(&1));
    *m.get_mut(&1).unwrap() = "c";
    assert_eq!(m.get(&1), Some(&"c"));
    assert!(m.get_mut(&2).is_none());
    assert_eq!(m.remove(&1), Some("c"));
    assert_eq!(m.remove(&1), None);
    assert!(!m.contains_key(&1));
}
