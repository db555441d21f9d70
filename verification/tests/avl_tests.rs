use immutable_avl::avl::ImmutAvlTree;
use immutable_avl::avl::TreeNode;

#[test]
fn test_tree_node() {
    let node = TreeNode::new(1, None, None);
    assert_eq!(TreeNode::get_height(&node), 1);
    let node2 = node.as_ref().unwrap().do_insert(2);
    let node3 = node2.as_ref().unwrap().do_insert(3);
    for i in 1..4 {
        assert!(node3.as_ref().unwrap().as_ref().contains(i));
    }
    assert!(!node3.as_ref().unwrap().as_ref().contains(0));
    let node4 = node3.unwrap().as_ref().do_delete(1);
    assert!(!node4.as_ref().unwrap().as_ref().contains(1));
}

#[test]
fn test_avl_tree() {
    let mut tree = ImmutAvlTree::new();
    for i in 1..100 {
        tree = tree.insert(i);
    }
    assert_eq!(TreeNode::get_height(&tree.root), 8);
    assert!(tree.contains(1));
    assert!(tree.contains(99));
    assert!(!tree.contains(100));
    assert_eq!(tree.size(), 99);
}

#[test]
fn insert_then_contains_round_trip() {
    let empty = ImmutAvlTree::new();
    for x in [0i64, 7, -3, 1000] {
        let t = empty.insert(x);
        assert!(t.contains(x));
        let t2 = t.delete(x);
        assert!(!t2.contains(x));
        assert_eq!(t2.size(), 0);
    }
}

#[test]
fn delete_absent_keeps_contents() {
    let mut t = ImmutAvlTree::new();
    for i in [5i32, 2, 8, 1, 3, 7, 9] {
        t = t.insert(i);
    }
    let t2 = t.delete(42);
    assert_eq!(t2.size(), 7);
    for i in [5, 2, 8, 1, 3, 7, 9] {
        assert!(t2.contains(i));
    }
}

#[test]
fn delete_node_with_two_children() {
    let mut t = ImmutAvlTree::new();
    for i in [2i32, 1, 3] {
        t = t.insert(i);
    }
    let t2 = t.delete(2);
    assert!(!t2.contains(2));
    assert!(t2.contains(1));
    assert!(t2.contains(3));
    assert_eq!(t2.size(), 2);
    // the old version still holds everything
    assert!(t.contains(2));
    assert_eq!(t.size(), 3);
}

#[test]
fn persistence_of_old_versions() {
    let t1 = ImmutAvlTree::new().insert(10i32).insert(20);
    assert!(!t1.contains(15));
    let t2 = t1.insert(15);
    // the insert left t1 untouched
    assert!(!t1.contains(15));
    assert_eq!(t1.size(), 2);
    // and everything t1 held is in both versions
    for i in [10, 20] {
        assert!(t1.contains(i));
        assert!(t2.contains(i));
    }
    assert!(t2.contains(15));
    assert_eq!(t2.size(), 3);
}

#[test]
fn replace_equal_key_keeps_size() {
    let t = ImmutAvlTree::new().insert(4u64).insert(4).insert(4);
    assert_eq!(t.size(), 1);
    assert!(t.contains(4));
}

#[test]
fn get_as_ref_finds_stored_value() {
    let mut t = ImmutAvlTree::new();
    for i in [6u32, 4, 11] {
        t = t.insert(i);
    }
    assert_eq!(t.get_as_ref(4), Some(&4));
    assert_eq!(t.get_as_ref(5), None);
    assert_eq!(t.get_as_ref(11), Some(&11));
}

#[test]
fn size_tracks_interleaved_inserts_and_deletes() {
    let mut t = ImmutAvlTree::new();
    for i in 0i32..50 {
        t = t.insert(i);
    }
    assert_eq!(t.size(), 50);
    for i in 0i32..25 {
        t = t.delete(i * 2);
    }
    assert_eq!(t.size(), 25);
    for i in 0i32..25 {
        assert!(!t.contains(i * 2));
        assert!(t.contains(i * 2 + 1));
    }
    t = t.insert(1).insert(100).delete(3);
    assert_eq!(t.size(), 25);
    assert!(t.contains(100));
    assert!(!t.contains(3));
}

#[test]
fn descending_inserts_stay_searchable() {
    let mut t = ImmutAvlTree::new();
    for i in (1i64..=64).rev() {
        t = t.insert(i);
    }
    assert_eq!(t.size(), 64);
    for i in 1i64..=64 {
        assert!(t.contains(i));
    }
    let h = TreeNode::get_height(&t.root);
    // 64 values in a balanced tree: height stays well below the value count
    assert!(h >= 7 && h <= 18);
}

#[test]
fn operations_on_the_empty_tree() {
    let t: ImmutAvlTree<i32> = ImmutAvlTree::new();
    assert_eq!(t.size(), 0);
    assert!(!t.contains(0));
    assert_eq!(t.get_as_ref(0), None);
    let t2 = t.delete(5);
    assert_eq!(t2.size(), 0);
}
