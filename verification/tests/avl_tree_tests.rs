use balanced_trees::avl_tree::{AVLTree, DumpLine, Position, TreeNode};
use balanced_trees::key::{FloatKey, OrderedKey};

/// Walks the subtree at `slot`, checks stored heights, balance factors, key
/// order and parent links, and returns the height.
fn checked_height(tree: &AVLTree<i32>, slot: Option<usize>, parent: Option<usize>) -> i32 {
    match slot {
        None => 0,
        Some(s) => {
            let node = tree.node(s).expect("a linked slot holds a node");
            assert_eq!(node.parent, parent);
            let hl = checked_height(tree, node.left, Some(s));
            let hr = checked_height(tree, node.right, Some(s));
            assert!((hl - hr).abs() <= 1, "balance factor out of range at key {}", node.key);
            assert_eq!(node.height, 1 + hl.max(hr));
            if let Some(l) = node.left {
                assert!(tree.node(l).unwrap().key <= node.key);
            }
            if let Some(r) = node.right {
                assert!(tree.node(r).unwrap().key >= node.key);
            }
            node.height
        }
    }
}

fn assert_balanced(tree: &AVLTree<i32>) {
    let h = checked_height(tree, tree.root(), None);
    assert_eq!(h, tree.tree_height());
}

fn build(keys: &[i32]) -> AVLTree<i32> {
    let mut tree = AVLTree::new();
    for &k in keys {
        tree.insert(k);
    }
    tree
}

#[test]
fn avl_new_node_is_an_unlinked_leaf() {
    let node = TreeNode::new(7);
    assert_eq!(node.key, 7);
    assert_eq!(node.height, 1);
    assert_eq!(node.parent, None);
    assert_eq!(node.left, None);
    assert_eq!(node.right, None);
}

#[test]
fn avl_empty_tree_boundaries() {
    let tree: AVLTree<i32> = AVLTree::new();
    assert!(tree.check_empty());
    assert_eq!(tree.tree_height(), 0);
    assert_eq!(tree.count_leaves(), 0);
    assert_eq!(tree.size(), 0);
    assert_eq!(tree.root(), None);
    assert_eq!(tree.in_order(), Vec::<i32>::new());
    assert!(tree.debug_format().is_empty());
}

#[test]
fn avl_single_node_has_one_leaf() {
    let tree = build(&[11]);
    assert_eq!(tree.count_leaves(), 1);
    assert_eq!(tree.tree_height(), 1);
    assert!(!tree.check_empty());
}

#[test]
fn avl_search_in_empty_tree_finds_nothing() {
    let tree: AVLTree<i32> = AVLTree::new();
    assert_eq!(tree.search(42), None);
    assert!(tree.check_empty());
    assert_eq!(tree.tree_height(), 0);
}

#[test]
fn avl_ascending_inserts_give_a_perfect_tree() {
    let tree = build(&[1, 2, 3, 4, 5, 6, 7]);
    assert_eq!(tree.in_order(), vec![1, 2, 3, 4, 5, 6, 7]);
    assert_eq!(tree.tree_height(), 3);
    let root = tree.root().unwrap();
    assert_eq!(tree.node(root).unwrap().key, 4);
    assert_eq!(tree.count_leaves(), 4);
    assert_eq!(tree.pre_order(), vec![4, 2, 1, 3, 6, 5, 7]);
    assert_eq!(tree.post_order(), vec![1, 3, 2, 5, 7, 6, 4]);
    assert_balanced(&tree);
}

#[test]
fn avl_descending_inserts_rotate_right() {
    let tree = build(&[3, 2, 1]);
    let root = tree.node(tree.root().unwrap()).unwrap();
    assert_eq!(root.key, 2);
    assert_eq!(tree.node(root.left.unwrap()).unwrap().key, 1);
    assert_eq!(tree.node(root.right.unwrap()).unwrap().key, 3);
    assert_balanced(&tree);
}

#[test]
fn avl_left_heavy_with_right_heavy_child_rotates_twice() {
    let tree = build(&[3, 1, 2]);
    let root = tree.node(tree.root().unwrap()).unwrap();
    assert_eq!(root.key, 2);
    assert_eq!(tree.pre_order(), vec![2, 1, 3]);
    assert_balanced(&tree);
}

#[test]
fn avl_right_heavy_with_left_heavy_child_rotates_twice() {
    let tree = build(&[1, 3, 2]);
    assert_eq!(tree.pre_order(), vec![2, 1, 3]);
    assert_balanced(&tree);
}

#[test]
fn avl_delete_two_keys_keeps_order_and_balance() {
    let mut tree = build(&[5, 3, 8, 1, 4, 7, 9]);
    assert!(tree.delete(3));
    assert_balanced(&tree);
    assert!(tree.delete(8));
    assert_balanced(&tree);
    assert_eq!(tree.in_order(), vec![1, 4, 5, 7, 9]);
    assert_eq!(tree.size(), 5);
}

#[test]
fn avl_delete_of_absent_key_changes_nothing() {
    let mut tree = build(&[5, 3, 8, 1, 4, 7, 9]);
    let before_dump: Vec<(usize, i32, i32)> =
        tree.debug_format().iter().map(|l| (l.depth, l.key, l.height)).collect();
    assert!(!tree.delete(42));
    let after_dump: Vec<(usize, i32, i32)> =
        tree.debug_format().iter().map(|l| (l.depth, l.key, l.height)).collect();
    assert_eq!(before_dump, after_dump);
    assert_eq!(tree.in_order(), vec![1, 3, 4, 5, 7, 8, 9]);
    assert_eq!(tree.size(), 7);
}

#[test]
fn avl_delete_from_empty_tree() {
    let mut tree: AVLTree<i32> = AVLTree::new();
    assert!(!tree.delete(1));
    assert!(tree.check_empty());
}

#[test]
fn avl_insert_then_search_then_delete() {
    let mut tree = build(&[10, 20, 30, 40]);
    tree.insert(25);
    let slot = tree.search(25).expect("inserted key is found");
    assert_eq!(tree.node(slot).unwrap().key, 25);
    assert!(tree.delete(25));
    assert_eq!(tree.search(25), None);
}

#[test]
fn avl_equal_keys_are_kept() {
    let mut tree = build(&[5, 5, 5]);
    assert_eq!(tree.in_order(), vec![5, 5, 5]);
    assert_eq!(tree.size(), 3);
    assert_balanced(&tree);
    assert!(tree.delete(5));
    assert_eq!(tree.in_order(), vec![5, 5]);
    assert!(tree.search(5).is_some());
    assert!(tree.delete(5));
    assert!(tree.delete(5));
    assert!(!tree.delete(5));
    assert!(tree.check_empty());
}

#[test]
fn avl_is_empty_again_after_last_delete() {
    let mut tree: AVLTree<i32> = AVLTree::new();
    assert!(tree.check_empty());
    tree.insert(1);
    assert!(!tree.check_empty());
    tree.insert(2);
    assert!(tree.delete(1));
    assert!(!tree.check_empty());
    assert!(tree.delete(2));
    assert!(tree.check_empty());
    assert_eq!(tree.root(), None);
    assert_eq!(tree.tree_height(), 0);
}

#[test]
fn avl_delete_node_with_two_children_takes_successor() {
    let mut tree = build(&[4, 2, 6, 1, 3, 5, 7]);
    assert!(tree.delete(4));
    let root = tree.node(tree.root().unwrap()).unwrap();
    assert_eq!(root.key, 5);
    assert_eq!(tree.in_order(), vec![1, 2, 3, 5, 6, 7]);
    assert_balanced(&tree);
}

#[test]
fn avl_delete_rebalances_with_a_rotation() {
    let mut tree = build(&[2, 1, 3, 4]);
    assert!(tree.delete(1));
    let root = tree.node(tree.root().unwrap()).unwrap();
    assert_eq!(root.key, 3);
    assert_eq!(tree.pre_order(), vec![3, 2, 4]);
    assert_eq!(tree.tree_height(), 2);
    assert_balanced(&tree);
}

#[test]
fn avl_freed_slot_is_used_again() {
    let mut tree = build(&[1, 2, 3]);
    let slot = tree.search(3).unwrap();
    assert!(tree.delete(3));
    assert_eq!(tree.node(slot).map(|n| n.key), None);
    tree.insert(9);
    assert_eq!(tree.search(9), Some(slot));
    assert_eq!(tree.node(slot).unwrap().key, 9);
}

#[test]
fn avl_node_of_unused_slot_is_none() {
    let tree = build(&[1, 2, 3]);
    assert!(tree.node(3).is_none());
    assert!(tree.node(usize::MAX).is_none());
}

#[test]
fn avl_debug_format_lists_nodes_root_first() {
    let tree = build(&[2, 1, 3]);
    let lines: Vec<DumpLine<i32>> = tree.debug_format();
    let got: Vec<(usize, Position, i32, i32)> =
        lines.iter().map(|l| (l.depth, l.position, l.key, l.height)).collect();
    assert_eq!(
        got,
        vec![(0, Position::Root, 2, 2), (1, Position::Left, 1, 1), (1, Position::Right, 3, 1)]
    );
}

#[test]
fn avl_height_stays_logarithmic() {
    let mut tree: AVLTree<i32> = AVLTree::new();
    for k in 0..1000 {
        tree.insert(k);
    }
    assert_balanced(&tree);
    let n = 1000f64;
    let bound = 1.44 * (n + 2.0).log2();
    assert!((tree.tree_height() as f64) <= bound);
    assert_eq!(tree.tree_height(), 10);
}

#[test]
fn avl_mixed_workload_matches_a_sorted_vector() {
    let mut tree: AVLTree<i32> = AVLTree::new();
    let mut model: Vec<i32> = Vec::new();
    let mut state: u64 = 0x2545F4914F6CDD1D;
    for step in 0..2000 {
        state ^= state << 13;
        state ^= state >> 7;
        state ^= state << 17;
        let key = (state % 200) as i32;
        if step % 3 == 2 {
            let found = tree.delete(key);
            let pos = model.iter().position(|&k| k == key);
            assert_eq!(found, pos.is_some());
            if let Some(p) = pos {
                model.remove(p);
            }
        } else {
            tree.insert(key);
            let at = model.partition_point(|&k| k <= key);
            model.insert(at, key);
        }
        assert_eq!(tree.size() as usize, model.len());
        if step % 50 == 0 {
            assert_eq!(tree.in_order(), model);
            assert_balanced(&tree);
        }
    }
    assert_eq!(tree.in_order(), model);
    assert_balanced(&tree);
    for key in 0..200 {
        assert_eq!(tree.search(key).is_some(), model.contains(&key));
    }
}

#[test]
fn avl_works_with_unsigned_keys() {
    let mut tree: AVLTree<u64> = AVLTree::new();
    for k in [u64::MAX, 0, 17, 1 << 40] {
        tree.insert(k);
    }
    assert_eq!(tree.in_order(), vec![0, 17, 1 << 40, u64::MAX]);
}

#[test]
fn float_patterns_order_like_the_numbers() {
    let values = [-1.0e30f32, -2.5, -1.0, -0.0, 0.0, 1.0e-20, 1.5, 3.2, 4.4, f32::MAX];
    for i in 0..values.len() {
        for j in 0..values.len() {
            let a = FloatKey::from_bits(values[i].to_bits());
            let b = FloatKey::from_bits(values[j].to_bits());
            assert_eq!(a.less_than(&b), i < j);
            assert_eq!(a.same_as(&b), i == j);
        }
    }
    assert_eq!(FloatKey::from_bits(0).order_index(), 0);
    assert_eq!(FloatKey::from_bits(0x8000_0000).order_index(), -1);
    assert_eq!(FloatKey::from_bits(0x8000_0001).order_index(), -2);
    assert_eq!(FloatKey::from_bits(0x7FFF_FFFF).order_index(), 0x7FFF_FFFF);
    let mut tree: AVLTree<FloatKey> = AVLTree::new();
    for v in [1.0f32, 2.0, 3.2, 4.4, 1.5] {
        tree.insert(FloatKey::from_bits(v.to_bits()));
    }
    let got: Vec<f32> = tree.in_order().iter().map(|k| f32::from_bits(k.bits)).collect();
    assert_eq!(got, vec![1.0, 1.5, 2.0, 3.2, 4.4]);
}

#[test]
fn integer_keys_compare_by_value() {
    assert!((-3i32).less_than(&2));
    assert!(!2i32.less_than(&2));
    assert!(2i32.same_as(&2));
    assert!(5u64.less_than(&u64::MAX));
    assert!(!(u32::MAX).less_than(&0));
    assert!((i64::MIN).less_than(&i64::MAX));
    assert!(7usize.same_as(&7));
}

#[test]
fn avl_equal_key_goes_to_the_right() {
    let tree = build(&[5, 5]);
    let root = tree.node(tree.root().unwrap()).unwrap();
    assert_eq!(root.key, 5);
    assert_eq!(root.left, None);
    let right = tree.node(root.right.unwrap()).unwrap();
    assert_eq!(right.key, 5);
    assert_eq!(right.parent, tree.root());
    assert_eq!(tree.search(5), tree.root());
}

#[test]
fn avl_slots_are_reused_last_freed_first() {
    let mut tree = build(&[10, 20, 30, 40, 50]);
    let slot_of_10 = tree.search(10).unwrap();
    let slot_of_50 = tree.search(50).unwrap();
    assert!(tree.delete(10));
    assert!(tree.delete(50));
    tree.insert(60);
    tree.insert(70);
    tree.insert(80);
    assert_eq!(tree.search(60), Some(slot_of_50));
    assert_eq!(tree.search(70), Some(slot_of_10));
    assert_eq!(tree.search(80), Some(5));
    assert_balanced(&tree);
}

#[test]
fn avl_delete_node_with_two_children_frees_the_successor_slot() {
    let mut tree = build(&[4, 2, 6, 1, 3, 5, 7]);
    let slot_of_4 = tree.search(4).unwrap();
    let slot_of_5 = tree.search(5).unwrap();
    assert!(tree.delete(4));
    assert_eq!(tree.search(5), Some(slot_of_4));
    assert!(tree.node(slot_of_5).is_none());
}
