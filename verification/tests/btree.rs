use lib::tree::btree::BTree;

#[test]
fn test_build_btree() {
    let btree: BTree<i32> = BTree::new();
    assert!(btree.is_empty());
    assert!(!btree.contains(&0));
}

#[test]
fn test_insert() {
    let mut btree: BTree<i32> = BTree::new();
    let _ = btree.insert(1);
    assert!(btree.contains(&1));
    assert!(!btree.is_empty());

    let nums = vec![
        10, 2, 5, 12, 14, 16, 3, 90, 124, 156, 180, 123, 124, 345, 456,
    ];
    for i in nums {
        let _ = btree.insert(i);
        assert!(btree.contains(&i));
    }
}

#[test]
fn test_insert_big_dataset() {
    let mut btree: BTree<i32> = BTree::new();
    let big_dataset: Vec<i32> = (0..10000).collect();
    let mut iter = big_dataset.split(|n| *n == 5000);

    let first = iter.next().unwrap();
    let second = iter.next().unwrap();

    let scrambled: Vec<i32> = first
        .iter()
        .rev()
        .copied()
        .chain(second.iter().copied())
        .collect();

    for i in scrambled {
        let _ = btree.insert(i);
        assert!(btree.contains(&i));
    }
}

#[test]
fn test_insert_bad() {
    let mut btree: BTree<i32> = BTree::new();
    let _ = btree.insert(1);
    assert!(!btree.insert(1));
}

#[test]
fn test_remove_leaf() {
    let mut tree = BTree::new();
    tree.insert(10);
    tree.insert(5);
    tree.insert(15);

    assert!(tree.remove(&5).is_some());
    assert!(!tree.contains(&5));
}

#[test]
fn test_remove_one_child() {
    let mut tree = BTree::new();
    tree.insert(10);
    tree.insert(5);
    tree.insert(3);

    assert!(tree.remove(&5).is_some());
    assert!(!tree.contains(&5));
    assert!(tree.contains(&3));
}

#[test]
fn test_remove_two_children() {
    let mut tree = BTree::new();
    tree.insert(10);
    tree.insert(5);
    tree.insert(15);
    tree.insert(12);
    tree.insert(18);

    assert!(tree.remove(&15).is_some());
    assert!(!tree.contains(&15));
    assert!(tree.contains(&12));
    assert!(tree.contains(&18));
}

#[test]
fn test_remove_root() {
    let mut tree = BTree::new();
    tree.insert(10);
    tree.insert(5);
    tree.insert(15);

    assert!(tree.remove(&10).is_some());
    assert!(!tree.contains(&10));
    assert!(tree.contains(&5));
    assert!(tree.contains(&15));
}

#[test]
fn test_remove_from_scrambled_dataset() {
    let nums = vec![
        10, 2, 5, 12, 14, 16, 3, 90, 124, 156, 180, 123, 124, 345, 456,
    ];
    let mut tree = BTree::new();
    for &n in &nums {
        tree.insert(n);
    }

    let mut unique_nums: Vec<i32> = nums
        .into_iter()
        .collect::<std::collections::HashSet<_>>()
        .into_iter()
        .collect();
    unique_nums.sort();

    for &n in &unique_nums {
        assert!(tree.remove(&n).is_some(), "Failed to remove {}", n);
        assert!(!tree.contains(&n));
    }

    assert!(tree.is_empty());
}

#[test]
fn remove_missing_value_is_none() {
    let mut tree = BTree::new();
    assert_eq!(tree.remove(&3), None);
    tree.insert(3);
    assert_eq!(tree.remove(&4), None);
    assert_eq!(tree.remove(&3), Some(3));
    assert_eq!(tree.remove(&3), None);
    assert!(tree.is_empty());
}

#[test]
fn remove_undoes_insert_on_tree() {
    let mut tree = BTree::new();
    for v in [50, 30, 70, 20, 40, 60, 80] {
        assert!(tree.insert(v));
    }
    assert!(tree.insert(45));
    assert_eq!(tree.remove(&45), Some(45));
    for v in [50, 30, 70, 20, 40, 60, 80] {
        assert!(tree.contains(&v));
    }
    assert!(!tree.contains(&45));
}

#[test]
fn remove_node_with_both_children_keeps_order() {
    let mut tree = BTree::new();
    for v in [50, 30, 70, 20, 40, 60, 80, 65] {
        tree.insert(v);
    }
    assert_eq!(tree.remove(&50), Some(50));
    for v in [30, 70, 20, 40, 60, 80, 65] {
        assert!(tree.contains(&v));
        assert!(!tree.insert(v));
    }
    assert!(!tree.contains(&50));
    assert_eq!(tree.remove(&70), Some(70));
    assert!(tree.contains(&65));
    assert!(tree.contains(&80));
}

#[test]
fn default_trees_and_lists_are_empty() {
    let tree: BTree<i32> = BTree::default();
    assert!(tree.is_empty());
    let dll: lib::linked_list::doubly::DoublyLinkedList<u32> = Default::default();
    assert!(dll.is_empty());
    let sll: lib::linked_list::singly::SinglyLinkedList<u32> = Default::default();
    assert!(sll.is_empty());
}

#[test]
fn duplicate_insert_and_missing_remove_change_nothing() {
    let mut tree = BTree::new();
    for v in [5, 3, 8] {
        tree.insert(v);
    }
    assert!(!tree.insert(3));
    assert_eq!(tree.remove(&4), None);
    for v in [5, 3, 8] {
        assert!(tree.contains(&v));
    }
    assert!(!tree.contains(&4));
}
