use near_tree_map::bound::Bound;
use near_tree_map::tree_map::TreeMap;

fn map_of(keys: &[u64]) -> TreeMap<u64> {
    let mut map = TreeMap::new(b"m".to_vec());
    for &k in keys {
        assert_eq!(map.insert(k, k * 10), None);
    }
    map
}

fn all_keys(map: &TreeMap<u64>) -> Vec<u64> {
    let mut out = Vec::new();
    let mut it = map.keys();
    while let Some(k) = it.next() {
        out.push(k);
    }
    out
}

#[test]
fn insert_then_get_returns_value() {
    let mut map: TreeMap<String> = TreeMap::new(b"m".to_vec());
    assert_eq!(map.insert(5, "five".to_string()), None);
    assert_eq!(map.get(5), Some(&"five".to_string()));
    assert_eq!(map.get(6), None);
    assert!(map.contains_key(5));
    assert!(!map.contains_key(6));
}

#[test]
fn second_insert_replaces_value_and_keeps_len() {
    let mut map: TreeMap<u32> = TreeMap::new(b"m".to_vec());
    assert_eq!(map.insert(7, 1), None);
    assert_eq!(map.len(), 1);
    assert_eq!(map.insert(7, 2), Some(1));
    assert_eq!(map.get(7), Some(&2));
    assert_eq!(map.len(), 1);
}

#[test]
fn range_included_excluded_forward() {
    let map = map_of(&[1, 3, 5, 7, 9]);
    let mut it = map.range(Bound::Included(3), Bound::Excluded(9));
    let mut got = Vec::new();
    while let Some((k, v)) = it.next() {
        got.push((k, *v));
    }
    assert_eq!(got, vec![(3, 30), (5, 50), (7, 70)]);
    assert!(it.next().is_none());
}

#[test]
fn range_alternating_front_and_back() {
    let map = map_of(&[1, 3, 5, 7, 9]);
    let mut it = map.range(Bound::Included(3), Bound::Excluded(9));
    assert_eq!(it.next().map(|e| e.0), Some(3));
    assert_eq!(it.next_back().map(|e| e.0), Some(7));
    assert_eq!(it.next().map(|e| e.0), Some(5));
    assert_eq!(it.next_back().map(|e| e.0), None);
    assert_eq!(it.next().map(|e| e.0), None);
    assert_eq!(it.len(), 0);
}

#[test]
fn range_len_before_any_step() {
    let map = map_of(&[1, 3, 5, 7, 9]);
    let it = map.range(Bound::Included(3), Bound::Excluded(9));
    assert_eq!(it.len(), 3);
    assert_eq!(it.size_hint(), (3, Some(3)));
    assert_eq!(it.count(), 3);
}

#[test]
fn range_bounds_of_every_kind() {
    let map = map_of(&[1, 3, 5, 7, 9]);
    let collect = |min: Bound, max: Bound| {
        let mut it = map.range(min, max);
        let mut got = Vec::new();
        while let Some((k, _)) = it.next() {
            got.push(k);
        }
        got
    };
    assert_eq!(collect(Bound::Excluded(3), Bound::Included(9)), vec![5, 7, 9]);
    assert_eq!(collect(Bound::Unbounded, Bound::Excluded(5)), vec![1, 3]);
    assert_eq!(collect(Bound::Included(4), Bound::Unbounded), vec![5, 7, 9]);
    assert_eq!(collect(Bound::Unbounded, Bound::Unbounded), vec![1, 3, 5, 7, 9]);
    assert_eq!(collect(Bound::Included(6), Bound::Included(6)), Vec::<u64>::new());
    assert_eq!(collect(Bound::Included(9), Bound::Included(1)), Vec::<u64>::new());
    assert_eq!(map.range(Bound::Excluded(1), Bound::Excluded(9)).len(), 3);
}

#[test]
fn navigation_queries() {
    let map = map_of(&[2, 4, 6]);
    assert_eq!(map.floor_key(5), Some(4));
    assert_eq!(map.ceil_key(5), Some(6));
    assert_eq!(map.lower(4), Some(2));
    assert_eq!(map.higher(4), Some(6));
    assert_eq!(map.floor_key(1), None);
    assert_eq!(map.floor_key(4), Some(4));
    assert_eq!(map.ceil_key(4), Some(4));
    assert_eq!(map.ceil_key(7), None);
    assert_eq!(map.lower(2), None);
    assert_eq!(map.higher(6), None);
    assert_eq!(map.min_key(), Some(2));
    assert_eq!(map.max_key(), Some(6));
}

#[test]
fn navigation_at_the_ends_of_the_key_space() {
    let map = map_of(&[0, u64::MAX]);
    assert_eq!(map.lower(0), None);
    assert_eq!(map.higher(u64::MAX), None);
    assert_eq!(map.higher(0), Some(u64::MAX));
    assert_eq!(map.lower(u64::MAX), Some(0));
    assert_eq!(map.floor_key(u64::MAX), Some(u64::MAX));
    assert_eq!(map.ceil_key(0), Some(0));
    assert_eq!(all_keys(&map), vec![0, u64::MAX]);
}

#[test]
fn removal_after_ascending_inserts_keeps_balance() {
    let mut map = map_of(&[1, 2, 3, 4, 5, 6, 7]);
    assert_eq!(map.tree().height(), 3);
    assert_eq!(map.remove(1), Some(10));
    assert_eq!(all_keys(&map), vec![2, 3, 4, 5, 6, 7]);
    assert_eq!(map.tree().height(), 3);
    assert_eq!(map.len(), 6);
}

#[test]
fn removing_absent_key_changes_nothing() {
    let mut map = map_of(&[2, 4, 6]);
    let height = map.tree().height();
    assert_eq!(map.remove(5), None);
    assert_eq!(map.len(), 3);
    assert_eq!(map.tree().height(), height);
    assert_eq!(all_keys(&map), vec![2, 4, 6]);
    assert_eq!(map.floor_key(5), Some(4));
    assert_eq!(map.get(4), Some(&40));
    assert_eq!(map.remove(5), None);
    assert_eq!(map.len(), 3);
}

#[test]
fn in_order_traversal_is_strictly_increasing() {
    let mut map: TreeMap<u64> = TreeMap::new(b"m".to_vec());
    let mut x: u64 = 7;
    for _ in 0..300 {
        x = (x * 48271) % 2147483647;
        map.insert(x % 1000, x);
        if x % 3 == 0 {
            map.remove((x / 7) % 1000);
        }
    }
    let keys = all_keys(&map);
    assert_eq!(keys.len() as u32, map.len());
    for w in keys.windows(2) {
        assert!(w[0] < w[1]);
    }
}

#[test]
fn height_stays_logarithmic() {
    let mut map: TreeMap<u64> = TreeMap::new(b"m".to_vec());
    for k in 1..=1000u64 {
        map.insert(k, k);
        let n = map.len() as u128;
        let h = map.tree().height() as u32;
        assert!(2u128.pow(h) <= (n + 1) * (n + 1));
    }
    for k in (1..=1000u64).step_by(3) {
        map.remove(k);
        let n = map.len() as u128;
        let h = map.tree().height() as u32;
        assert!(2u128.pow(h) <= (n + 1) * (n + 1));
    }
    assert!(map.tree().height() <= 14);
}

#[test]
fn index_and_values_agree() {
    let mut map: TreeMap<u64> = TreeMap::new(b"m".to_vec());
    for k in 0..50u64 {
        map.insert(k * 3 % 41, k);
    }
    for k in 0..20u64 {
        map.remove(k * 5 % 41);
    }
    for k in 0..45u64 {
        assert_eq!(map.tree().contains(k), map.contains_key(k));
        assert_eq!(map.contains_key(k), map.get(k).is_some());
    }
}

#[test]
fn empty_map() {
    let mut map: TreeMap<u8> = TreeMap::new(Vec::new());
    assert!(map.is_empty());
    assert_eq!(map.len(), 0);
    assert_eq!(map.min_key(), None);
    assert_eq!(map.max_key(), None);
    assert_eq!(map.floor_key(3), None);
    assert!(map.iter().next().is_none());
    assert!(map.iter().next_back().is_none());
    assert_eq!(map.keys().len(), 0);
    assert_eq!(map.remove(1), None);
    assert!(map.is_empty());
}

#[test]
fn emptied_map_is_empty_again() {
    let mut map = map_of(&[4, 8, 15, 16, 23, 42]);
    for k in [16, 4, 42, 8, 23, 15] {
        assert_eq!(map.remove(k), Some(k * 10));
    }
    assert!(map.is_empty());
    assert_eq!(map.tree().height(), 0);
    assert_eq!(map.insert(1, 2), None);
    assert_eq!(all_keys(&map), vec![1]);
}

#[test]
fn get_mut_changes_only_that_value() {
    let mut map = map_of(&[1, 2, 3]);
    *map.get_mut(2).unwrap() = 99;
    assert!(map.get_mut(4).is_none());
    assert_eq!(map.get(1), Some(&10));
    assert_eq!(map.get(2), Some(&99));
    assert_eq!(map.get(3), Some(&30));
}

#[test]
fn values_in_key_order() {
    let map = map_of(&[9, 1, 5]);
    let mut it = map.values();
    assert_eq!(it.len(), 3);
    assert_eq!(it.next(), Some(&10));
    assert_eq!(it.next_back(), Some(&90));
    assert_eq!(it.next(), Some(&50));
    assert_eq!(it.next(), None);
    assert_eq!(it.next_back(), None);
}

#[test]
fn iter_mut_changes_every_value() {
    let mut map = map_of(&[3, 1, 2]);
    let mut it = map.iter_mut();
    assert_eq!(it.len(), 3);
    let mut seen = Vec::new();
    while let Some((k, v)) = it.next(&mut map) {
        seen.push(k);
        *v += k;
    }
    assert_eq!(seen, vec![1, 2, 3]);
    assert_eq!(map.get(1), Some(&11));
    assert_eq!(map.get(2), Some(&22));
    assert_eq!(map.get(3), Some(&33));
    assert!(it.next(&mut map).is_none());
}

#[test]
fn iter_mut_from_both_ends() {
    let mut map = map_of(&[1, 2, 3, 4]);
    let mut it = map.iter_mut();
    assert_eq!(it.next_back(&mut map).map(|e| e.0), Some(4));
    assert_eq!(it.next(&mut map).map(|e| e.0), Some(1));
    assert_eq!(it.next_back(&mut map).map(|e| e.0), Some(3));
    assert_eq!(it.next(&mut map).map(|e| e.0), Some(2));
    assert!(it.next(&mut map).is_none());
    assert!(it.next_back(&mut map).is_none());
}

#[test]
fn values_mut_changes_values_in_order() {
    let mut map = map_of(&[5, 6]);
    let mut it = map.values_mut();
    *it.next(&mut map).unwrap() = 1;
    *it.next_back(&mut map).unwrap() = 2;
    assert!(it.next(&mut map).is_none());
    assert_eq!(map.get(5), Some(&1));
    assert_eq!(map.get(6), Some(&2));
}

#[test]
fn iter_yields_entries_with_values() {
    let map = map_of(&[20, 10, 30]);
    let mut it = map.iter();
    assert_eq!(it.size_hint(), (3, Some(3)));
    assert_eq!(it.next(), Some((10, &100)));
    assert_eq!(it.next(), Some((20, &200)));
    assert_eq!(it.next_back(), Some((30, &300)));
    assert_eq!(it.next_back(), None);
    assert_eq!(it.count(), 0);
}

#[test]
fn nth_skips_from_either_end() {
    let map = map_of(&[1, 3, 5, 7, 9]);
    let mut keys = map.keys();
    assert_eq!(keys.nth(2), Some(5));
    assert_eq!(keys.len(), 2);
    assert_eq!(keys.next(), Some(7));
    let mut keys = map.keys();
    assert_eq!(keys.nth_back(1), Some(7));
    assert_eq!(keys.next_back(), Some(5));
    assert_eq!(keys.nth(0), Some(1));
    assert_eq!(keys.nth(5), None);
    assert_eq!(keys.next(), None);
    let mut it = map.iter();
    assert_eq!(it.nth(1), Some((3, &30)));
    assert_eq!(it.nth_back(0), Some((9, &90)));
    let mut values = map.values();
    assert_eq!(values.nth_back(1), Some(&70));
    assert_eq!(values.nth(1), Some(&30));
    assert_eq!(values.nth(1), None);
}
