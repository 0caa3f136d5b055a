//! Laws of the two engines: what holds of every tree and of every sequence
//! of operations, proved from the contracts of the operations alone.
//!
//! An operation appears in a law through its contract: a law about a tree
//! `after` an insertion into a tree `before` asks that `after` is related
//! to `before` as the `ensures` of `insert` says.

use vstd::prelude::*;
use vstd::arithmetic::power2::pow2;
use crate::avl_model::{
    balanced, heights_stored, lemma_balanced_size, lemma_min_size_doubles, lemma_min_size_grows,
    min_size, HeightTree,
};
use crate::arena::{lemma_links_agree, lemma_parent_is_nearer};
use crate::avl_tree::AVLTree;
use crate::key::{increasing, non_decreasing, OrderedKey};
use crate::redblack_tree::RedBlackTree;
use crate::shape::{lemma_in_order_is_bag, lemma_in_order_sorted, Tree};

verus! {

/// Links, height-balanced engine: the root has no parent, and every other
/// node of the tree is named as the left or the right child by the node that
/// it names as its parent.
pub proof fn law_avl_links_agree<K: OrderedKey>(tree: AVLTree<K>, slot: usize)
    requires
        tree.wf(),
        tree.tree().slots().contains(slot),
    ensures
        slot < tree.arena().len(),
        Some(slot) == tree.root_slot() ==> tree.arena()[slot as int].parent is None,
        Some(slot) != tree.root_slot() ==> {
            &&& tree.arena()[slot as int].parent matches Some(p)
            &&& tree.tree().slots().contains(p)
            &&& tree.arena()[p as int].left == Some(slot) || tree.arena()[p as int].right == Some(
                slot,
            )
        },
{
    tree.lemma_well_linked();
    lemma_parent_is_nearer(tree.arena(), tree.tree(), None, slot);
    if Some(slot) != tree.root_slot() {
        lemma_links_agree(tree.arena(), tree.tree(), None, slot);
    }
}

/// Links, colour-balanced engine: the root has no parent, and every other
/// node of the tree is named as the left or the right child by the node that
/// it names as its parent.
pub proof fn law_rb_links_agree<K: OrderedKey>(tree: RedBlackTree<K>, slot: usize)
    requires
        tree.wf(),
        tree.tree().slots().contains(slot),
    ensures
        slot < tree.arena().len(),
        Some(slot) == tree.root_slot() ==> tree.arena()[slot as int].parent is None,
        Some(slot) != tree.root_slot() ==> {
            &&& tree.arena()[slot as int].parent matches Some(p)
            &&& tree.tree().slots().contains(p)
            &&& tree.arena()[p as int].left == Some(slot) || tree.arena()[p as int].right == Some(
                slot,
            )
        },
{
    tree.lemma_well_linked();
    lemma_parent_is_nearer(tree.arena(), tree.tree(), None, slot);
    if Some(slot) != tree.root_slot() {
        lemma_links_agree(tree.arena(), tree.tree(), None, slot);
    }
}

/// Height balance: in a valid height-balanced tree the heights of the two
/// subtrees of every node differ by at most one, and every node stores its
/// height. Every insertion and every deletion leaves a valid tree, so this
/// holds after each of them.
pub proof fn law_avl_balance_everywhere<K: OrderedKey>(tree: AVLTree<K>, sub: HeightTree<K>)
    requires
        tree.wf(),
        is_subtree(sub, tree.tree()),
        sub is Node,
    ensures
        -1 <= sub.l().height() - sub.r().height() <= 1,
        sub->tag == sub.height(),
{
    lemma_subtree_is_avl(sub, tree.tree());
}

/// `sub` is `t` or a subtree of a subtree of `t`.
pub open spec fn is_subtree<K, G>(sub: Tree<K, G>, t: Tree<K, G>) -> bool
    decreases t,
{
    sub == t || match t {
        Tree::Nil => false,
        Tree::Node { left, right, .. } => is_subtree(sub, *left) || is_subtree(sub, *right),
    }
}

/// Every subtree of a balanced tree with correct stored heights is one.
pub proof fn lemma_subtree_is_avl<K: OrderedKey>(sub: HeightTree<K>, t: HeightTree<K>)
    requires
        is_subtree(sub, t),
        balanced(t),
        heights_stored(t),
    ensures
        balanced(sub),
        heights_stored(sub),
    decreases t,
{
    if sub != t {
        if is_subtree(sub, t.l()) {
            lemma_subtree_is_avl(sub, t.l());
        } else {
            lemma_subtree_is_avl(sub, t.r());
        }
    }
}

/// Logarithmic height: a valid height-balanced tree of height `h` holds at
/// least `min_size(h)` keys, the Fibonacci number F(h + 2) less one. This
/// is the exact form of the bound h <= 1.44 * log2(n + 2). In powers of
/// two: a tree of height `h` holds at least 2^(h / 2) - 1 keys.
pub proof fn law_avl_height_is_logarithmic<K: OrderedKey>(tree: AVLTree<K>)
    requires
        tree.wf(),
    ensures
        min_size(tree.tree().height()) <= tree.len(),
        pow2(tree.tree().height() / 2) <= tree.len() + 1,
{
    let h = tree.tree().height();
    lemma_balanced_size(tree.tree());
    lemma_min_size_doubles(h / 2);
    lemma_min_size_grows(2 * (h / 2), h);
}

/// Colour validity: a valid colour-balanced tree passes `check_properties`:
/// its root is black, no red node has a red child, and the black heights
/// agree at every node. Every insertion and every deletion leaves a valid
/// tree, so the check succeeds after each of them.
pub proof fn law_rb_valid_tree_passes_check<K: OrderedKey>(tree: RedBlackTree<K>)
    requires
        tree.wf(),
    ensures
        tree.passes_check(),
{
}

/// Order, height-balanced engine: the in-order traversal never steps down
/// and lists every key as often as the tree holds it.
pub proof fn law_avl_in_order_is_sorted<K: OrderedKey>(tree: AVLTree<K>)
    requires
        tree.wf(),
    ensures
        non_decreasing(tree.tree().in_order()),
        tree.tree().in_order().to_multiset() =~= tree@,
        tree.tree().in_order().len() == tree.len(),
{
    lemma_in_order_sorted(tree.tree(), false);
    lemma_in_order_is_bag(tree.tree());
    crate::shape::lemma_counts_bounded(tree.tree());
}

/// Order, colour-balanced engine: the in-order traversal steps up at every
/// position and lists exactly the keys of the tree.
pub proof fn law_rb_in_order_is_sorted<K: OrderedKey>(tree: RedBlackTree<K>)
    requires
        tree.wf(),
    ensures
        increasing(tree.tree().in_order()),
        tree.tree().in_order().to_set() =~= tree@,
        tree.tree().in_order().len() == tree.len(),
{
    broadcast use vstd::seq_lib::group_to_multiset_ensures;

    lemma_in_order_sorted(tree.tree(), true);
    lemma_in_order_is_bag(tree.tree());
    crate::shape::lemma_counts_bounded(tree.tree());
    let s = tree.tree().in_order();
    assert forall|k: K| s.to_set().contains(k) <==> tree@.contains(k) by {
        assert(s.contains(k) <==> s.to_multiset().count(k) > 0);
    }
}

/// Round trip, height-balanced engine: after `insert(k)` a search for `k`
/// succeeds.
pub proof fn law_avl_insert_then_search<K: OrderedKey>(
    before: AVLTree<K>,
    after: AVLTree<K>,
    k: K,
)
    requires
        before.wf(),
        after@ =~= before@.insert(k),
    ensures
        after.holds(k),
{
}

/// Round trip, height-balanced engine: after `delete(k)` a search for `k`
/// fails, provided that `k` was there at most once. (The engine keeps equal
/// keys; a deletion removes one occurrence.)
pub proof fn law_avl_delete_then_search<K: OrderedKey>(
    before: AVLTree<K>,
    after: AVLTree<K>,
    k: K,
)
    requires
        before.wf(),
        before@.count(k) <= 1,
        after@ =~= before@.remove(k),
    ensures
        !after.holds(k),
{
}

/// Round trip, colour-balanced engine: after `insert(k)` a search for `k`
/// succeeds, and after `delete(k)` it fails.
pub proof fn law_rb_round_trip<K: OrderedKey>(
    before: RedBlackTree<K>,
    inserted: RedBlackTree<K>,
    deleted: RedBlackTree<K>,
    k: K,
)
    requires
        before.wf(),
        inserted@ =~= before@.insert(k),
        deleted@ =~= before@.remove(k),
    ensures
        inserted@.contains(k),
        !deleted@.contains(k),
{
}

/// Rejection: inserting a key that a colour-balanced tree holds reports
/// `false` and leaves the traversal, the height and the number of leaves
/// as they were.
pub proof fn law_rb_duplicate_is_rejected<K: OrderedKey>(
    before: RedBlackTree<K>,
    after: RedBlackTree<K>,
    k: K,
    inserted: bool,
)
    requires
        before.wf(),
        before@.contains(k),
        inserted == !before@.contains(k),
        !inserted ==> after.tree() == before.tree(),
    ensures
        !inserted,
        after.tree().in_order() == before.tree().in_order(),
        after.tree().height() == before.tree().height(),
        after.tree().leaves() == before.tree().leaves(),
        after@ == before@,
{
}

/// Deleting an absent key from a height-balanced tree reports `false` and
/// leaves the tree as it was, in structure and in traversal.
pub proof fn law_avl_absent_delete_changes_nothing<K: OrderedKey>(
    before: AVLTree<K>,
    after: AVLTree<K>,
    k: K,
    found: bool,
)
    requires
        before.wf(),
        !before.holds(k),
        found == before.holds(k),
        !found ==> after.tree() == before.tree() && after.arena() == before.arena(),
    ensures
        !found,
        after.tree() == before.tree(),
        after.arena() == before.arena(),
        after.tree().in_order() == before.tree().in_order(),
        after@ == before@,
{
}

/// Deleting an absent key from a colour-balanced tree reports `false` and
/// leaves the tree as it was, in structure and in traversal.
pub proof fn law_rb_absent_delete_changes_nothing<K: OrderedKey>(
    before: RedBlackTree<K>,
    after: RedBlackTree<K>,
    k: K,
    found: bool,
)
    requires
        before.wf(),
        !before@.contains(k),
        found == before@.contains(k),
        !found ==> after.tree() == before.tree() && after.arena() == before.arena(),
    ensures
        !found,
        after.tree() == before.tree(),
        after.arena() == before.arena(),
        after.tree().in_order() == before.tree().in_order(),
        after@ == before@,
{
}

/// Boundaries: the empty tree has height 0 and no leaves, and a tree with a
/// single node has height 1 and one leaf.
pub proof fn law_small_trees<K, G>(t: Tree<K, G>)
    ensures
        t.size() == 0 ==> t.height() == 0 && t.leaves() == 0,
        t.size() == 1 ==> t.height() == 1 && t.leaves() == 1,
{
    reveal_with_fuel(Tree::size, 2);
    reveal_with_fuel(Tree::height, 2);
    reveal_with_fuel(Tree::leaves, 2);
}

/// Emptiness, height-balanced engine: a tree is empty exactly when it holds
/// no key. An insertion leaves one key more, so the tree is not empty after
/// it; a successful deletion leaves one key fewer, so the tree is empty
/// after it exactly when it held a single key before.
pub proof fn law_avl_empty_means_no_keys<K: OrderedKey>(
    before: AVLTree<K>,
    inserted: AVLTree<K>,
    deleted: AVLTree<K>,
)
    requires
        before.wf(),
        inserted.wf(),
        deleted.wf(),
        inserted.len() == before.len() + 1,
        deleted.len() + 1 == before.len(),
    ensures
        before.holds_nothing() == (before@.len() == 0),
        !inserted.holds_nothing(),
        deleted.holds_nothing() == (before.len() == 1),
{
    lemma_in_order_is_bag(before.tree());
    crate::shape::lemma_counts_bounded(before.tree());
    broadcast use vstd::seq_lib::group_to_multiset_ensures;

}

/// Emptiness, colour-balanced engine: a tree is empty exactly when it holds
/// no key. A successful insertion leaves one key more, so the tree is not
/// empty after it; a successful deletion leaves one key fewer, so the tree
/// is empty after it exactly when it held a single key before.
pub proof fn law_rb_empty_means_no_keys<K: OrderedKey>(
    before: RedBlackTree<K>,
    inserted: RedBlackTree<K>,
    deleted: RedBlackTree<K>,
)
    requires
        before.wf(),
        inserted.wf(),
        deleted.wf(),
        inserted.len() == before.len() + 1,
        deleted.len() + 1 == before.len(),
    ensures
        before.holds_nothing() == (before@ =~= Set::empty()),
        !inserted.holds_nothing(),
        deleted.holds_nothing() == (before.len() == 1),
{
    if before.tree() is Node {
        assert(before.tree().bag().count(before.tree()->key) > 0);
        assert(before@.contains(before.tree()->key));
    } else {
        assert(before.tree().bag() =~= vstd::multiset::Multiset::empty());
    }
}

} // verus!
