use balanced_trees::key::FloatKey;
use balanced_trees::redblack_tree::{NodeColor, RedBlackTree, TreeNode};

/// Walks the subtree at `slot`, checks the colour rules, key order and
/// parent links, and returns the black height.
fn checked_blacks(tree: &RedBlackTree<i32>, slot: Option<usize>, parent: Option<usize>) -> u32 {
    match slot {
        None => 0,
        Some(s) => {
            let node = tree.node(s).expect("a linked slot holds a node");
            assert_eq!(node.parent, parent);
            if node.color == NodeColor::Red {
                for child in [node.left, node.right].into_iter().flatten() {
                    assert_eq!(tree.node(child).unwrap().color, NodeColor::Black);
                }
            }
            if let Some(l) = node.left {
                assert!(tree.node(l).unwrap().value < node.value);
            }
            if let Some(r) = node.right {
                assert!(tree.node(r).unwrap().value > node.value);
            }
            let bl = checked_blacks(tree, node.left, Some(s));
            let br = checked_blacks(tree, node.right, Some(s));
            assert_eq!(bl, br, "black heights differ at key {}", node.value);
            bl + if node.color == NodeColor::Black { 1 } else { 0 }
        }
    }
}

fn assert_valid(tree: &RedBlackTree<i32>) {
    if let Some(r) = tree.root() {
        assert_eq!(tree.node(r).unwrap().color, NodeColor::Black);
    }
    checked_blacks(tree, tree.root(), None);
    assert!(tree.check_properties());
}

fn build(keys: &[i32]) -> RedBlackTree<i32> {
    let mut tree = RedBlackTree::new();
    for &k in keys {
        assert!(tree.insert(k));
    }
    tree
}

#[test]
fn rb_new_node_is_red_and_unlinked() {
    let node = TreeNode::new(3);
    assert_eq!(node.color, NodeColor::Red);
    assert_eq!(node.value, 3);
    assert_eq!(node.parent, None);
    assert_eq!(node.left, None);
    assert_eq!(node.right, None);
}

#[test]
fn rb_flip_color_swaps_red_and_black() {
    let mut node = TreeNode::new(3);
    node.flip_color();
    assert_eq!(node.color, NodeColor::Black);
    node.flip_color();
    assert_eq!(node.color, NodeColor::Red);
}

#[test]
fn rb_empty_tree_boundaries() {
    let tree: RedBlackTree<i32> = RedBlackTree::new();
    assert!(tree.is_empty());
    assert_eq!(tree.get_height(), 0);
    assert_eq!(tree.get_leaves_number(), 0);
    assert_eq!(tree.size(), 0);
    assert!(tree.check_properties());
    assert_eq!(tree.show_in_order_traversal(), Vec::<i32>::new());
}

#[test]
fn rb_single_node_is_a_black_leaf() {
    let tree = build(&[1]);
    assert_eq!(tree.get_leaves_number(), 1);
    assert_eq!(tree.get_height(), 1);
    let root = tree.node(tree.root().unwrap()).unwrap();
    assert_eq!(root.color, NodeColor::Black);
    assert!(!tree.is_empty());
}

#[test]
fn rb_search_in_empty_tree_finds_nothing() {
    let mut tree: RedBlackTree<i32> = RedBlackTree::new();
    assert!(!tree.search_node(42));
    assert_eq!(tree.try_get_node(42), None);
    assert!(tree.is_empty());
    assert_eq!(tree.get_height(), 0);
}

#[test]
fn rb_three_ascending_inserts() {
    let tree = build(&[10, 20, 30]);
    assert!(tree.check_properties());
    let root = tree.node(tree.root().unwrap()).unwrap();
    assert_eq!(root.value, 20);
    assert_eq!(root.color, NodeColor::Black);
    let left = tree.node(root.left.unwrap()).unwrap();
    let right = tree.node(root.right.unwrap()).unwrap();
    assert_eq!((left.value, left.color), (10, NodeColor::Red));
    assert_eq!((right.value, right.color), (30, NodeColor::Red));
    assert_eq!(left.parent, tree.root());
    assert_eq!(right.parent, tree.root());
    assert_valid(&tree);
}

#[test]
fn rb_red_uncle_flips_colours() {
    let tree = build(&[10, 20, 30, 40]);
    let root = tree.node(tree.root().unwrap()).unwrap();
    assert_eq!(root.value, 20);
    let left = tree.node(root.left.unwrap()).unwrap();
    let right = tree.node(root.right.unwrap()).unwrap();
    assert_eq!((left.value, left.color), (10, NodeColor::Black));
    assert_eq!((right.value, right.color), (30, NodeColor::Black));
    let leaf = tree.node(right.right.unwrap()).unwrap();
    assert_eq!((leaf.value, leaf.color), (40, NodeColor::Red));
    assert_valid(&tree);
}

#[test]
fn rb_inner_grandchild_becomes_the_top() {
    let tree = build(&[10, 30, 20]);
    let root = tree.node(tree.root().unwrap()).unwrap();
    assert_eq!((root.value, root.color), (20, NodeColor::Black));
    assert_eq!(tree.show_in_order_traversal(), vec![10, 20, 30]);
    assert_valid(&tree);
    let tree = build(&[30, 10, 20]);
    let root = tree.node(tree.root().unwrap()).unwrap();
    assert_eq!((root.value, root.color), (20, NodeColor::Black));
    assert_valid(&tree);
}

#[test]
fn rb_descending_inserts() {
    let tree = build(&[30, 20, 10]);
    let root = tree.node(tree.root().unwrap()).unwrap();
    assert_eq!((root.value, root.color), (20, NodeColor::Black));
    assert_valid(&tree);
}

#[test]
fn rb_duplicate_insert_is_rejected() {
    let mut tree = build(&[5, 3, 8, 1, 4, 7, 9]);
    let order = tree.show_in_order_traversal();
    let height = tree.get_height();
    let leaves = tree.get_leaves_number();
    assert!(!tree.insert(4));
    assert_eq!(tree.show_in_order_traversal(), order);
    assert_eq!(tree.get_height(), height);
    assert_eq!(tree.get_leaves_number(), leaves);
    assert_eq!(tree.size(), 7);
}

#[test]
fn rb_delete_two_keys_keeps_order_and_colours() {
    let mut tree = build(&[5, 3, 8, 1, 4, 7, 9]);
    assert!(tree.delete(3));
    assert_valid(&tree);
    assert!(tree.delete(8));
    assert_valid(&tree);
    assert_eq!(tree.show_in_order_traversal(), vec![1, 4, 5, 7, 9]);
}

#[test]
fn rb_delete_of_absent_key_changes_nothing() {
    let mut tree = build(&[5, 3, 8]);
    let root = tree.root();
    assert!(!tree.delete(42));
    assert_eq!(tree.root(), root);
    assert_eq!(tree.show_in_order_traversal(), vec![3, 5, 8]);
    assert_eq!(tree.size(), 3);
    let mut empty: RedBlackTree<i32> = RedBlackTree::new();
    assert!(!empty.delete(1));
    assert!(empty.is_empty());
}

#[test]
fn rb_insert_then_search_then_delete() {
    let mut tree = build(&[10, 20, 30, 40]);
    assert!(tree.insert(25));
    assert!(tree.search_node(25));
    let slot = tree.try_get_node(25).unwrap();
    assert_eq!(tree.node(slot).unwrap().value, 25);
    assert!(tree.delete(25));
    assert!(!tree.search_node(25));
    assert_eq!(tree.try_get_node(25), None);
}

#[test]
fn rb_is_empty_again_after_last_delete() {
    let mut tree: RedBlackTree<i32> = RedBlackTree::new();
    assert!(tree.is_empty());
    assert!(tree.insert(1));
    assert!(!tree.is_empty());
    assert!(!tree.insert(1));
    assert!(tree.delete(1));
    assert!(tree.is_empty());
    assert_eq!(tree.root(), None);
}

#[test]
fn rb_delete_red_leaf() {
    let mut tree = build(&[10, 20, 30]);
    assert!(tree.delete(30));
    let root = tree.node(tree.root().unwrap()).unwrap();
    assert_eq!(root.value, 20);
    assert_eq!(root.right, None);
    assert_valid(&tree);
}

#[test]
fn rb_delete_node_with_one_child_paints_the_child_black() {
    let mut tree = build(&[10, 20, 30, 40]);
    assert!(tree.delete(30));
    let root = tree.node(tree.root().unwrap()).unwrap();
    let right = tree.node(root.right.unwrap()).unwrap();
    assert_eq!((right.value, right.color), (40, NodeColor::Black));
    assert_valid(&tree);
}

#[test]
fn rb_delete_black_leaf_recolours_sibling() {
    // 20 black over 10 black and 30 black, after 40 came and went.
    let mut tree = build(&[10, 20, 30, 40]);
    assert!(tree.delete(40));
    assert!(tree.delete(10));
    let root = tree.node(tree.root().unwrap()).unwrap();
    assert_eq!((root.value, root.color), (20, NodeColor::Black));
    let right = tree.node(root.right.unwrap()).unwrap();
    assert_eq!((right.value, right.color), (30, NodeColor::Red));
    assert_eq!(root.left, None);
    assert_valid(&tree);
}

#[test]
fn rb_delete_black_leaf_with_far_red_nephew_rotates() {
    let mut tree = build(&[10, 20, 30, 40]);
    assert!(tree.delete(10));
    let root = tree.node(tree.root().unwrap()).unwrap();
    assert_eq!((root.value, root.color), (30, NodeColor::Black));
    let left = tree.node(root.left.unwrap()).unwrap();
    let right = tree.node(root.right.unwrap()).unwrap();
    assert_eq!((left.value, left.color), (20, NodeColor::Black));
    assert_eq!((right.value, right.color), (40, NodeColor::Black));
    assert_valid(&tree);
}

#[test]
fn rb_delete_black_leaf_with_near_red_nephew_rotates_twice() {
    let mut tree = build(&[10, 20, 40, 30]);
    assert!(tree.delete(10));
    let root = tree.node(tree.root().unwrap()).unwrap();
    assert_eq!((root.value, root.color), (30, NodeColor::Black));
    let left = tree.node(root.left.unwrap()).unwrap();
    let right = tree.node(root.right.unwrap()).unwrap();
    assert_eq!((left.value, left.color), (20, NodeColor::Black));
    assert_eq!((right.value, right.color), (40, NodeColor::Black));
    assert_valid(&tree);
}

#[test]
fn rb_delete_below_red_sibling() {
    let mut tree = build(&[10, 20, 30, 40, 50, 60]);
    assert_valid(&tree);
    assert!(tree.delete(10));
    assert_valid(&tree);
    assert_eq!(tree.show_in_order_traversal(), vec![20, 30, 40, 50, 60]);
}

#[test]
fn rb_delete_root_with_two_children() {
    let mut tree = build(&[20, 10, 30]);
    assert!(tree.delete(20));
    let root = tree.node(tree.root().unwrap()).unwrap();
    assert_eq!((root.value, root.color), (30, NodeColor::Black));
    assert_eq!(tree.show_in_order_traversal(), vec![10, 30]);
    assert_valid(&tree);
}

#[test]
fn rb_height_and_leaves_of_seven_keys() {
    let tree = build(&[4, 2, 6, 1, 3, 5, 7]);
    assert_eq!(tree.get_height(), 3);
    assert_eq!(tree.get_leaves_number(), 4);
    let tree = build(&[1, 2, 3, 4, 5, 6, 7]);
    assert_eq!(tree.get_height(), 4);
    assert_eq!(tree.get_leaves_number(), 4);
    assert_valid(&tree);
}

#[test]
fn rb_update_node_replaces_a_key() {
    let mut tree = build(&[1, 2, 3]);
    assert!(tree.update_node(2, 5));
    assert_eq!(tree.show_in_order_traversal(), vec![1, 3, 5]);
    assert!(!tree.update_node(9, 7));
    assert_eq!(tree.show_in_order_traversal(), vec![1, 3, 5, 7]);
    assert!(!tree.update_node(1, 3));
    assert_eq!(tree.show_in_order_traversal(), vec![3, 5, 7]);
    assert_valid(&tree);
}

#[test]
fn rb_freed_slot_is_used_again() {
    let mut tree = build(&[1, 2, 3]);
    let slot = tree.try_get_node(3).unwrap();
    assert!(tree.delete(3));
    assert!(tree.node(slot).is_none());
    assert!(tree.insert(9));
    assert_eq!(tree.try_get_node(9), Some(slot));
}

#[test]
fn rb_mixed_workload_matches_a_sorted_vector() {
    let mut tree: RedBlackTree<i32> = RedBlackTree::new();
    let mut model: Vec<i32> = Vec::new();
    let mut state: u64 = 0x9E3779B97F4A7C15;
    for step in 0..3000 {
        state ^= state << 13;
        state ^= state >> 7;
        state ^= state << 17;
        let key = (state % 300) as i32;
        if step % 3 == 1 {
            let found = tree.delete(key);
            let pos = model.binary_search(&key);
            assert_eq!(found, pos.is_ok());
            if let Ok(p) = pos {
                model.remove(p);
            }
        } else {
            let inserted = tree.insert(key);
            let pos = model.binary_search(&key);
            assert_eq!(inserted, pos.is_err());
            if let Err(p) = pos {
                model.insert(p, key);
            }
        }
        assert_eq!(tree.size() as usize, model.len());
        assert!(tree.check_properties());
        if step % 50 == 0 {
            assert_eq!(tree.show_in_order_traversal(), model);
            assert_valid(&tree);
        }
    }
    assert_eq!(tree.show_in_order_traversal(), model);
    assert_valid(&tree);
    for key in 0..300 {
        assert_eq!(tree.search_node(key), model.binary_search(&key).is_ok());
    }
    for key in model.clone() {
        assert!(tree.delete(key));
        assert!(tree.check_properties());
    }
    assert!(tree.is_empty());
}

#[test]
fn rb_delete_every_key_in_every_position() {
    for skip in 0..15 {
        let keys: Vec<i32> = (0..15).collect();
        let mut tree = build(&keys);
        assert!(tree.delete(skip));
        assert_valid(&tree);
        let expected: Vec<i32> = keys.into_iter().filter(|&k| k != skip).collect();
        assert_eq!(tree.show_in_order_traversal(), expected);
    }
}

#[test]
fn rb_slots_are_reused_last_freed_first() {
    let mut tree = build(&[10, 20, 30, 40, 50]);
    let slot_of_10 = tree.try_get_node(10).unwrap();
    let slot_of_50 = tree.try_get_node(50).unwrap();
    assert!(tree.delete(10));
    assert!(tree.delete(50));
    assert!(tree.insert(60));
    assert!(tree.insert(70));
    assert!(tree.insert(80));
    assert_eq!(tree.try_get_node(60), Some(slot_of_50));
    assert_eq!(tree.try_get_node(70), Some(slot_of_10));
    assert_eq!(tree.try_get_node(80), Some(5));
    assert_valid(&tree);
}

#[test]
fn rb_rejected_insert_takes_no_slot() {
    let mut tree = build(&[1, 2, 3]);
    assert!(!tree.insert(2));
    assert!(tree.node(3).is_none());
    assert!(tree.insert(4));
    assert_eq!(tree.try_get_node(4), Some(3));
}

#[test]
fn rb_works_with_float_patterns() {
    let mut tree: RedBlackTree<FloatKey> = RedBlackTree::new();
    for v in [3.2f32, -1.5, 0.0, 4.4, -7.25] {
        assert!(tree.insert(FloatKey::from_bits(v.to_bits())));
    }
    assert!(!tree.insert(FloatKey::from_bits(4.4f32.to_bits())));
    let got: Vec<f32> =
        tree.show_in_order_traversal().iter().map(|k| f32::from_bits(k.bits)).collect();
    assert_eq!(got, vec![-7.25, -1.5, 0.0, 3.2, 4.4]);
    assert!(tree.check_properties());
}
