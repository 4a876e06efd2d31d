use near_tree_map::bound::Bound;
use near_tree_map::iter::Keys;
use near_tree_map::tree::Tree;

#[test]
fn tree_insert_reports_new_keys() {
    let mut tree = Tree::new(b"t".to_vec());
    assert!(tree.insert(3));
    assert!(tree.insert(1));
    assert!(!tree.insert(3));
    assert_eq!(tree.len(), 2);
    assert!(tree.contains(1));
    assert!(!tree.contains(2));
}

#[test]
fn tree_remove_reports_present_keys() {
    let mut tree = Tree::new(b"t".to_vec());
    for k in [5, 2, 8, 1, 9] {
        tree.insert(k);
    }
    assert!(tree.remove(5));
    assert!(!tree.remove(5));
    assert!(!tree.remove(100));
    assert_eq!(tree.len(), 4);
    assert_eq!(tree.min(), Some(1));
    assert_eq!(tree.max(), Some(9));
    assert_eq!(tree.floor_key(5), Some(2));
    assert_eq!(tree.ceil_key(5), Some(8));
}

#[test]
fn tree_removal_of_node_with_two_children() {
    let mut tree = Tree::new(b"t".to_vec());
    for k in [50, 30, 70, 20, 40, 60, 80, 65] {
        tree.insert(k);
    }
    assert!(tree.remove(50));
    assert!(tree.remove(30));
    let mut keys = Keys::new_unbounded(&tree);
    let mut got = Vec::new();
    while let Some(k) = keys.next() {
        got.push(k);
    }
    assert_eq!(got, vec![20, 40, 60, 65, 70, 80]);
}

#[test]
fn tree_heights_after_ascending_inserts() {
    let mut tree = Tree::new(b"t".to_vec());
    assert_eq!(tree.height(), 0);
    tree.insert(1);
    assert_eq!(tree.height(), 1);
    tree.insert(2);
    tree.insert(3);
    assert_eq!(tree.height(), 2);
    for k in 4..=15 {
        tree.insert(k);
    }
    assert_eq!(tree.height(), 4);
}

#[test]
fn tree_counts_keys_in_range() {
    let mut tree = Tree::new(b"t".to_vec());
    for k in 0..100u64 {
        tree.insert(k * 2);
    }
    assert_eq!(tree.count_range(Bound::Included(10), Bound::Excluded(20)), 5);
    assert_eq!(tree.count_range(Bound::Excluded(10), Bound::Included(20)), 5);
    assert_eq!(tree.count_range(Bound::Unbounded, Bound::Unbounded), 100);
    assert_eq!(tree.count_range(Bound::Included(199), Bound::Unbounded), 0);
    assert_eq!(tree.count_range(Bound::Unbounded, Bound::Excluded(0)), 0);
}

#[test]
fn keys_cursor_from_the_back() {
    let mut tree = Tree::new(b"t".to_vec());
    for k in [4, 2, 6] {
        tree.insert(k);
    }
    let mut keys = Keys::new(&tree, Bound::Unbounded, Bound::Included(5));
    assert_eq!(keys.len(), 2);
    assert_eq!(keys.next_back(), Some(4));
    assert_eq!(keys.next_back(), Some(2));
    assert_eq!(keys.next_back(), None);
    assert_eq!(keys.next(), None);
    assert_eq!(keys.size_hint(), (0, Some(0)));
}
