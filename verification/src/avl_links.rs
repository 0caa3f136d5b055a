//! How the restructurings of the height-balanced engine change the arena,
//! and why the arena then holds the restructured model.

use vstd::prelude::*;
use vstd::multiset::Multiset;
use crate::avl_model::{
    balanced, heights_stored, is_avl, leaf, lemma_delete_step, lemma_insert_step, lemma_leaf,
    lemma_removed_below, lemma_removed_here, one_side_lower, rebalanced, refreshed,
    rotated_left, rotated_right, with_deleted, with_inserted, HeightTree,
};
use crate::avl_tree::TreeNode;
use crate::key::OrderedKey;
use crate::arena::{lemma_linked_frame, lemma_linked_reparent, lemma_slots_in_arena, linked};
use crate::shape::Tree;

verus! {

/// The stored height of the node in `link`, 0 where there is none.
pub open spec fn stored_height<K>(nodes: Seq<TreeNode<K>>, link: Option<usize>) -> int {
    match link {
        Some(i) => nodes[i as int].height as int,
        None => 0,
    }
}

/// The parent node `n` after the child link that named `from` was set to
/// `to`: the left link if it named `from`, the right link otherwise.
pub open spec fn relinked<K>(n: TreeNode<K>, from: usize, to: Option<usize>) -> TreeNode<K> {
    if n.left == Some(from) {
        TreeNode { left: to, ..n }
    } else {
        TreeNode { right: to, ..n }
    }
}

/// What a restructuring at `node` asks of the arena: it holds `t` below the
/// parent that `node` names, and that parent is a slot outside `t` with a
/// child link to `node`.
pub open spec fn can_rotate<K>(nodes: Seq<TreeNode<K>>, node: usize, t: HeightTree<K>) -> bool {
    &&& t.top() == Some(node)
    &&& node < nodes.len()
    &&& linked(nodes, t, nodes[node as int].parent)
    &&& nodes[node as int].parent matches Some(p) ==> {
        &&& p < nodes.len()
        &&& !t.slots().contains(p)
        &&& nodes[p as int].left == Some(node) || nodes[p as int].right == Some(node)
    }
    &&& t.height() < i32::MAX
}

/// What a restructuring of the subtree at `node` into `result` leaves in
/// the arena: `result` linked below the old parent, that parent's child link
/// set to the new top, and every slot outside `touched` as it was.
pub open spec fn replaced_in_place<K>(
    before: Seq<TreeNode<K>>,
    after: Seq<TreeNode<K>>,
    node: usize,
    touched: Set<usize>,
    result: HeightTree<K>,
) -> bool {
    let parent = before[node as int].parent;
    &&& after.len() == before.len()
    &&& linked(after, result, parent)
    &&& forall|j: usize|
        j < before.len() && !touched.contains(j) && Some(j) != parent ==> after[j as int]
            == before[j as int]
    &&& parent matches Some(p) ==> after[p as int] == relinked(before[p as int], node, result.top())
}

/// The arena `after` is `before` with the node in slot `x` turned below its
/// child in slot `y`: `x` hands its place below the parent to `y` and takes
/// `y`'s inner subtree `inner` in exchange; the two nodes store the heights
/// `hx` and `hy`; no other slot changes.
pub open spec fn turned<K>(
    before: Seq<TreeNode<K>>,
    after: Seq<TreeNode<K>>,
    x: usize,
    y: usize,
    inner: Option<usize>,
    to_left: bool,
    hx: i32,
    hy: i32,
) -> bool {
    let parent = before[x as int].parent;
    &&& after.len() == before.len()
    &&& after[x as int] == if to_left {
        TreeNode { right: inner, parent: Some(y), height: hx, ..before[x as int] }
    } else {
        TreeNode { left: inner, parent: Some(y), height: hx, ..before[x as int] }
    }
    &&& after[y as int] == if to_left {
        TreeNode { left: Some(x), parent, height: hy, ..before[y as int] }
    } else {
        TreeNode { right: Some(x), parent, height: hy, ..before[y as int] }
    }
    &&& inner matches Some(i) ==> after[i as int] == (TreeNode {
        parent: Some(x),
        ..before[i as int]
    })
    &&& parent matches Some(p) ==> after[p as int] == relinked(before[p as int], x, Some(y))
    &&& forall|j: usize|
        j < before.len() && j != x && j != y && Some(j) != inner && Some(j) != parent
            ==> after[j as int] == before[j as int]
}

/// The slots that a rotation to the left touches are four different slots
/// of the arena, and the stored heights next to them are correct.
pub proof fn lemma_left_turn_ready<K>(nodes: Seq<TreeNode<K>>, node: usize, t: HeightTree<K>)
    requires
        can_rotate(nodes, node, t),
        t.r() is Node,
        heights_stored(t.l()),
        heights_stored(t.r().l()),
        heights_stored(t.r().r()),
    ensures
        nodes[node as int].right == t.r().top(),
        nodes[node as int].left == t.l().top(),
        t.r()->slot < nodes.len(),
        t.r()->slot != node,
        nodes[t.r()->slot as int].left == t.r().l().top(),
        nodes[t.r()->slot as int].right == t.r().r().top(),
        nodes[t.r()->slot as int].parent == Some(node),
        nodes[node as int].parent != Some(node),
        nodes[node as int].parent != t.r().top(),
        t.l().top() matches Some(i) ==> i < nodes.len() && i != node && i != t.r()->slot
            && Some(i) != nodes[node as int].parent && Some(i) != t.r().l().top(),
        t.r().r().top() matches Some(i) ==> i < nodes.len() && i != node && i != t.r()->slot
            && Some(i) != nodes[node as int].parent && Some(i) != t.r().l().top(),
        t.r().l().top() matches Some(i) ==> i < nodes.len() && i != node && i != t.r()->slot
            && Some(i) != nodes[node as int].parent,
        stored_height(nodes, t.l().top()) == t.l().height(),
        stored_height(nodes, t.r().l().top()) == t.r().l().height(),
        stored_height(nodes, t.r().r().top()) == t.r().r().height(),
        t.l().height() + 2 <= i32::MAX,
        t.r().l().height() + 2 <= i32::MAX,
        t.r().r().height() + 2 <= i32::MAX,
        rotated_left(t).l()->tag == 1 + vstd::math::max(
            t.l().height() as int,
            t.r().l().height() as int,
        ),
        rotated_left(t)->tag == 1 + vstd::math::max(
            rotated_left(t).l()->tag as int,
            t.r().r().height() as int,
        ),
{
    reveal_with_fuel(Tree::height, 3);
    let r = t.r();
    assert(linked(nodes, r, Some(node)));
    assert(linked(nodes, r.l(), Some(r->slot)));
    assert(linked(nodes, r.r(), Some(r->slot)));
    assert(linked(nodes, t.l(), Some(node)));
    assert(r.slots().contains(r->slot));
    assert(t.slots().contains(r->slot));
    assert(t.slots().contains(node));
    if r.l() is Node {
        assert(r.l().slots().contains(r.l()->slot));
        assert(r.slots().contains(r.l()->slot));
        assert(t.slots().contains(r.l()->slot));
    }
    if r.r() is Node {
        assert(r.r().slots().contains(r.r()->slot));
        assert(r.slots().contains(r.r()->slot));
        assert(t.slots().contains(r.r()->slot));
    }
    if t.l() is Node {
        assert(t.l().slots().contains(t.l()->slot));
        assert(t.slots().contains(t.l()->slot));
    }
}

/// The mirror image of `lemma_left_turn_ready`.
pub proof fn lemma_right_turn_ready<K>(nodes: Seq<TreeNode<K>>, node: usize, t: HeightTree<K>)
    requires
        can_rotate(nodes, node, t),
        t.l() is Node,
        heights_stored(t.l().l()),
        heights_stored(t.l().r()),
        heights_stored(t.r()),
    ensures
        nodes[node as int].left == t.l().top(),
        nodes[node as int].right == t.r().top(),
        t.l()->slot < nodes.len(),
        t.l()->slot != node,
        nodes[t.l()->slot as int].left == t.l().l().top(),
        nodes[t.l()->slot as int].right == t.l().r().top(),
        nodes[t.l()->slot as int].parent == Some(node),
        nodes[node as int].parent != Some(node),
        nodes[node as int].parent != t.l().top(),
        t.r().top() matches Some(i) ==> i < nodes.len() && i != node && i != t.l()->slot
            && Some(i) != nodes[node as int].parent && Some(i) != t.l().r().top(),
        t.l().l().top() matches Some(i) ==> i < nodes.len() && i != node && i != t.l()->slot
            && Some(i) != nodes[node as int].parent && Some(i) != t.l().r().top(),
        t.l().r().top() matches Some(i) ==> i < nodes.len() && i != node && i != t.l()->slot
            && Some(i) != nodes[node as int].parent,
        stored_height(nodes, t.r().top()) == t.r().height(),
        stored_height(nodes, t.l().l().top()) == t.l().l().height(),
        stored_height(nodes, t.l().r().top()) == t.l().r().height(),
        t.r().height() + 2 <= i32::MAX,
        t.l().l().height() + 2 <= i32::MAX,
        t.l().r().height() + 2 <= i32::MAX,
        rotated_right(t).r()->tag == 1 + vstd::math::max(
            t.l().r().height() as int,
            t.r().height() as int,
        ),
        rotated_right(t)->tag == 1 + vstd::math::max(
            t.l().l().height() as int,
            rotated_right(t).r()->tag as int,
        ),
{
    reveal_with_fuel(Tree::height, 3);
    let l = t.l();
    assert(linked(nodes, l, Some(node)));
    assert(linked(nodes, l.l(), Some(l->slot)));
    assert(linked(nodes, l.r(), Some(l->slot)));
    assert(linked(nodes, t.r(), Some(node)));
    assert(l.slots().contains(l->slot));
    assert(t.slots().contains(l->slot));
    assert(t.slots().contains(node));
    if l.r() is Node {
        assert(l.r().slots().contains(l.r()->slot));
        assert(l.slots().contains(l.r()->slot));
        assert(t.slots().contains(l.r()->slot));
    }
    if l.l() is Node {
        assert(l.l().slots().contains(l.l()->slot));
        assert(l.slots().contains(l.l()->slot));
        assert(t.slots().contains(l.l()->slot));
    }
    if t.r() is Node {
        assert(t.r().slots().contains(t.r()->slot));
        assert(t.slots().contains(t.r()->slot));
    }
}

/// An arena turned to the left at `node` holds the rotated tree.
pub proof fn lemma_left_turn_links<K>(
    before: Seq<TreeNode<K>>,
    after: Seq<TreeNode<K>>,
    node: usize,
    t: HeightTree<K>,
)
    requires
        can_rotate(before, node, t),
        t.r() is Node,
        turned(
            before,
            after,
            node,
            t.r()->slot,
            t.r().l().top(),
            true,
            rotated_left(t).l()->tag,
            rotated_left(t)->tag,
        ),
    ensures
        replaced_in_place(before, after, node, t.slots(), rotated_left(t)),
{
    let r = t.r();
    let a = t.l();
    let b = r.l();
    let c = r.r();
    let y = r->slot;
    let parent = before[node as int].parent;
    lemma_slots_in_arena(before, t, parent);
    assert(linked(before, r, Some(node)));
    assert(r.slots().contains(y));
    assert(t.slots().contains(node));
    if b is Node {
        assert(b.slots().contains(b->slot));
        assert(linked(before, b, Some(y)));
    }
    lemma_linked_frame(before, after, a, Some(node));
    lemma_linked_frame(before, after, c, Some(y));
    lemma_linked_reparent(before, after, b, Some(y), Some(node));
    let inner = rotated_left(t).l();
    assert(inner.slots() =~= a.slots().union(b.slots()).insert(node));
    assert(linked(after, inner, Some(y)));
    assert(rotated_left(t).slots() =~= t.slots());
}

/// An arena turned to the right at `node` holds the rotated tree.
pub proof fn lemma_right_turn_links<K>(
    before: Seq<TreeNode<K>>,
    after: Seq<TreeNode<K>>,
    node: usize,
    t: HeightTree<K>,
)
    requires
        can_rotate(before, node, t),
        t.l() is Node,
        turned(
            before,
            after,
            node,
            t.l()->slot,
            t.l().r().top(),
            false,
            rotated_right(t).r()->tag,
            rotated_right(t)->tag,
        ),
    ensures
        replaced_in_place(before, after, node, t.slots(), rotated_right(t)),
{
    let l = t.l();
    let a = l.l();
    let b = l.r();
    let c = t.r();
    let y = l->slot;
    let parent = before[node as int].parent;
    lemma_slots_in_arena(before, t, parent);
    assert(linked(before, l, Some(node)));
    assert(l.slots().contains(y));
    assert(t.slots().contains(node));
    if b is Node {
        assert(b.slots().contains(b->slot));
        assert(linked(before, b, Some(y)));
    }
    lemma_linked_frame(before, after, a, Some(y));
    lemma_linked_frame(before, after, c, Some(node));
    lemma_linked_reparent(before, after, b, Some(y), Some(node));
    let inner = rotated_right(t).r();
    assert(inner.slots() =~= b.slots().union(c.slots()).insert(node));
    assert(linked(after, inner, Some(y)));
    assert(rotated_right(t).slots() =~= t.slots());
}

/// Before the height of `node` is stored afresh: its children are slots of
/// the arena and store their correct heights.
pub proof fn lemma_refresh_ready<K>(nodes: Seq<TreeNode<K>>, node: usize, t: HeightTree<K>)
    requires
        can_rotate(nodes, node, t),
        heights_stored(t.l()),
        heights_stored(t.r()),
    ensures
        nodes[node as int].left == t.l().top(),
        nodes[node as int].right == t.r().top(),
        t.l().top() matches Some(i) ==> i < nodes.len() && i != node,
        t.r().top() matches Some(i) ==> i < nodes.len() && i != node,
        stored_height(nodes, t.l().top()) == t.l().height(),
        stored_height(nodes, t.r().top()) == t.r().height(),
        t.l().height() + 1 <= i32::MAX,
        t.r().height() + 1 <= i32::MAX,
        refreshed(t)->tag == 1 + vstd::math::max(t.l().height() as int, t.r().height() as int),
{
    assert(linked(nodes, t.l(), Some(node)));
    assert(linked(nodes, t.r(), Some(node)));
    if t.l() is Node {
        assert(t.l().slots().contains(t.l()->slot));
    }
    if t.r() is Node {
        assert(t.r().slots().contains(t.r()->slot));
    }
}

/// After the height of `node` has been stored afresh the arena holds the
/// refreshed tree, ready for a rotation at `node` or at a child of it.
pub proof fn lemma_refreshed_links<K>(
    before: Seq<TreeNode<K>>,
    after: Seq<TreeNode<K>>,
    node: usize,
    t: HeightTree<K>,
)
    requires
        can_rotate(before, node, t),
        heights_stored(t.l()),
        heights_stored(t.r()),
        after == before.update(
            node as int,
            (TreeNode { height: refreshed(t)->tag, ..before[node as int] }),
        ),
    ensures
        can_rotate(after, node, refreshed(t)),
        replaced_in_place(before, after, node, t.slots(), refreshed(t)),
        refreshed(t).slots() == t.slots(),
        t.l() matches Tree::Node { slot, .. } ==> can_rotate(after, slot, t.l()),
        t.r() matches Tree::Node { slot, .. } ==> can_rotate(after, slot, t.r()),
        stored_height(after, t.l().top()) == t.l().height(),
        stored_height(after, t.r().top()) == t.r().height(),
        t.l() is Node ==> {
            &&& stored_height(after, t.l().l().top()) == t.l().l().height()
            &&& stored_height(after, t.l().r().top()) == t.l().r().height()
            &&& after[t.l()->slot as int].left == t.l().l().top()
            &&& after[t.l()->slot as int].right == t.l().r().top()
            &&& t.l().l().top() matches Some(i) ==> i < after.len()
            &&& t.l().r().top() matches Some(i) ==> i < after.len()
        },
        t.r() is Node ==> {
            &&& stored_height(after, t.r().l().top()) == t.r().l().height()
            &&& stored_height(after, t.r().r().top()) == t.r().r().height()
            &&& after[t.r()->slot as int].left == t.r().l().top()
            &&& after[t.r()->slot as int].right == t.r().r().top()
            &&& t.r().l().top() matches Some(i) ==> i < after.len()
            &&& t.r().r().top() matches Some(i) ==> i < after.len()
        },
{
    reveal_with_fuel(Tree::height, 2);
    let parent = before[node as int].parent;
    lemma_refresh_ready(before, node, t);
    lemma_slots_in_arena(before, t, parent);
    assert(t.slots().contains(node));
    lemma_linked_frame(before, after, t.l(), Some(node));
    lemma_linked_frame(before, after, t.r(), Some(node));
    assert(refreshed(t).slots() =~= t.slots());
    if t.l() is Node {
        let l = t.l();
        assert(l.slots().contains(l->slot));
        assert(linked(after, l.l(), Some(l->slot)));
        assert(linked(after, l.r(), Some(l->slot)));
        assert(heights_stored(l.l()) && heights_stored(l.r()));
    }
    if t.r() is Node {
        let r = t.r();
        assert(r.slots().contains(r->slot));
        assert(linked(after, r.l(), Some(r->slot)));
        assert(linked(after, r.r(), Some(r->slot)));
        assert(heights_stored(r.l()) && heights_stored(r.r()));
    }
}

/// After the subtree on one side of `node` has been restructured in place
/// into `sub`, the arena holds the tree at `node` with `sub` on that side.
pub proof fn lemma_child_replaced<K>(
    before: Seq<TreeNode<K>>,
    after: Seq<TreeNode<K>>,
    node: usize,
    t: HeightTree<K>,
    sub: HeightTree<K>,
    on_left: bool,
)
    requires
        can_rotate(before, node, t),
        (if on_left {
            t.l()
        } else {
            t.r()
        }) matches Tree::Node { slot, .. } && replaced_in_place(
            before,
            after,
            slot,
            (if on_left {
                t.l()
            } else {
                t.r()
            }).slots(),
            sub,
        ),
        sub.slots() =~= (if on_left {
            t.l()
        } else {
            t.r()
        }).slots(),
        sub.height() <= (if on_left {
            t.l()
        } else {
            t.r()
        }).height(),
    ensures
        can_rotate(
            after,
            node,
            if on_left {
                t.with_left(sub)
            } else {
                t.with_right(sub)
            },
        ),
        replaced_in_place(
            before,
            after,
            node,
            t.slots(),
            if on_left {
                t.with_left(sub)
            } else {
                t.with_right(sub)
            },
        ),
{
    let parent = before[node as int].parent;
    lemma_slots_in_arena(before, t, parent);
    assert(t.slots().contains(node));
    assert(linked(before, t.l(), Some(node)));
    assert(linked(before, t.r(), Some(node)));
    if on_left {
        assert(t.l().slots().contains(t.l()->slot));
        lemma_linked_frame(before, after, t.r(), Some(node));
        assert(t.with_left(sub).slots() =~= t.slots());
    } else {
        assert(t.r().slots().contains(t.r()->slot));
        lemma_linked_frame(before, after, t.l(), Some(node));
        assert(t.with_right(sub).slots() =~= t.slots());
    }
}

/// What the insertion of the node in slot `new_node` below the subtree `t`
/// at `node` leaves: the valid tree `result` in place of `t`, with the keys
/// of `t` and the new key, as high as `t` or one higher.
pub open spec fn inserted_in_place<K: OrderedKey>(
    before: Seq<TreeNode<K>>,
    after: Seq<TreeNode<K>>,
    node: usize,
    new_node: usize,
    t: HeightTree<K>,
    result: HeightTree<K>,
) -> bool {
    &&& replaced_in_place(before, after, node, t.slots().insert(new_node), result)
    &&& result == with_inserted(t, new_node, before[new_node as int].key)
    &&& is_avl(result)
    &&& result is Node
    &&& result.bag() =~= t.bag().insert(before[new_node as int].key)
    &&& result.slots() =~= t.slots().insert(new_node)
    &&& result.height() == t.height() || result.height() == t.height() + 1
}

/// What `insert_recursive` asks of the arena: it holds the valid tree `t`
/// at `node`, and the slot `new_node` outside `t` holds a node of height 1
/// without children.
pub open spec fn can_insert<K: OrderedKey>(
    nodes: Seq<TreeNode<K>>,
    node: usize,
    new_node: usize,
    t: HeightTree<K>,
) -> bool {
    &&& can_rotate(nodes, node, t)
    &&& is_avl(t)
    &&& t.height() + 1 < i32::MAX
    &&& new_node < nodes.len()
    &&& !t.slots().contains(new_node)
    &&& nodes[node as int].parent != Some(new_node)
    &&& nodes[new_node as int].height == 1
    &&& nodes[new_node as int].left is None
    &&& nodes[new_node as int].right is None
}

/// What an insertion below `node` has changed when it comes back: the tree
/// `m`, with the new node somewhere below its top, stands in the arena in
/// place of `t`, ready to be rebalanced into what the insertion owes.
pub open spec fn one_more<K: OrderedKey>(
    before: Seq<TreeNode<K>>,
    after: Seq<TreeNode<K>>,
    node: usize,
    new_node: usize,
    t: HeightTree<K>,
    m: HeightTree<K>,
) -> bool {
    let key = before[new_node as int].key;
    &&& after.len() == before.len()
    &&& can_rotate(after, node, m)
    &&& forall|j: usize|
        j < before.len() && !t.slots().contains(j) && j != new_node ==> after[j as int]
            == before[j as int]
    &&& after[node as int].parent == before[node as int].parent
    &&& m.slots() =~= t.slots().insert(new_node)
    &&& balanced(m.l())
    &&& balanced(m.r())
    &&& heights_stored(m.l())
    &&& heights_stored(m.r())
    &&& -2 <= m.l().height() - m.r().height() <= 2
    &&& is_avl(rebalanced(m))
    &&& rebalanced(m) is Node
    &&& rebalanced(m) == with_inserted(t, new_node, key)
    &&& rebalanced(m).bag() =~= t.bag().insert(key)
    &&& rebalanced(m).slots() =~= m.slots()
    &&& rebalanced(m).height() == t.height() || rebalanced(m).height() == t.height() + 1
}

/// Before an insertion goes down from `node`: the child on the side of the
/// new key, if there is one, is ready for the insertion.
pub proof fn lemma_insert_ready<K: OrderedKey>(
    nodes: Seq<TreeNode<K>>,
    node: usize,
    new_node: usize,
    t: HeightTree<K>,
)
    requires
        can_insert(nodes, node, new_node, t),
    ensures
        nodes[node as int].key == t->key,
        nodes[node as int].left == t.l().top(),
        nodes[node as int].right == t.r().top(),
        node != new_node,
        t.l() matches Tree::Node { slot, .. } ==> can_insert(nodes, slot, new_node, t.l()),
        t.r() matches Tree::Node { slot, .. } ==> can_insert(nodes, slot, new_node, t.r()),
{
    lemma_descent_ready(nodes, node, t, t->key);
    assert(t.slots().contains(node));
    if t.l() is Node {
        assert(t.l().slots().contains(t.l()->slot));
    }
    if t.r() is Node {
        assert(t.r().slots().contains(t.r()->slot));
    }
    assert forall|i: usize| #[trigger] t.l().slots().contains(i) implies t.slots().contains(i) by {}
    assert forall|i: usize| #[trigger] t.r().slots().contains(i) implies t.slots().contains(i) by {}
}

/// The new node hung below `node`, on the side of its key where `node` has
/// no child, leaves the tree at `node` one node larger.
pub proof fn lemma_hung_below<K: OrderedKey>(
    before: Seq<TreeNode<K>>,
    after: Seq<TreeNode<K>>,
    node: usize,
    new_node: usize,
    t: HeightTree<K>,
)
    requires
        can_insert(before, node, new_node, t),
        if before[new_node as int].key.rank() < (t->key).rank() {
            &&& t.l() is Nil
            &&& after == before.update(
                new_node as int,
                (TreeNode { parent: Some(node), ..before[new_node as int] }),
            ).update(node as int, (TreeNode { left: Some(new_node), ..before[node as int] }))
        } else {
            &&& t.r() is Nil
            &&& after == before.update(
                new_node as int,
                (TreeNode { parent: Some(node), ..before[new_node as int] }),
            ).update(node as int, (TreeNode { right: Some(new_node), ..before[node as int] }))
        },
    ensures
        one_more(
            before,
            after,
            node,
            new_node,
            t,
            if before[new_node as int].key.rank() < (t->key).rank() {
                t.with_left(leaf(new_node, before[new_node as int].key))
            } else {
                t.with_right(leaf(new_node, before[new_node as int].key))
            },
        ),
{
    let key = before[new_node as int].key;
    let parent = before[node as int].parent;
    let sub = leaf(new_node, key);
    let m = if key.rank() < (t->key).rank() {
        t.with_left(sub)
    } else {
        t.with_right(sub)
    };
    lemma_insert_ready(before, node, new_node, t);
    lemma_descent_ready(before, node, t, key);
    lemma_slots_in_arena(before, t, parent);
    lemma_leaf(new_node, key);
    assert forall|i: usize| #[trigger] t.l().slots().contains(i) && i < before.len() implies after[i as int]
        == before[i as int] by {
        assert(t.slots().contains(i));
    }
    assert forall|i: usize| #[trigger] t.r().slots().contains(i) && i < before.len() implies after[i as int]
        == before[i as int] by {
        assert(t.slots().contains(i));
    }
    lemma_linked_frame(before, after, t.l(), Some(node));
    lemma_linked_frame(before, after, t.r(), Some(node));
    assert(linked(after, sub, Some(node))) by {
        reveal_with_fuel(linked, 2);
        reveal_with_fuel(Tree::slots, 2);
    }
    assert(m.slots() =~= t.slots().insert(new_node));
    assert(linked(after, m, parent));
    lemma_insert_step(t, sub, key, m);
    assert(with_inserted(Tree::<K, i32>::Nil, new_node, key) == sub);
    assert(rebalanced(m) == with_inserted(t, new_node, key));
}

/// An insertion in the subtree of `node` on the side of the new key leaves
/// the tree at `node` one node larger.
pub proof fn lemma_inserted_below<K: OrderedKey>(
    before: Seq<TreeNode<K>>,
    after: Seq<TreeNode<K>>,
    node: usize,
    new_node: usize,
    t: HeightTree<K>,
    sub: HeightTree<K>,
)
    requires
        can_insert(before, node, new_node, t),
        if before[new_node as int].key.rank() < (t->key).rank() {
            t.l() matches Tree::Node { slot, .. } && inserted_in_place(
                before,
                after,
                slot,
                new_node,
                t.l(),
                sub,
            )
        } else {
            t.r() matches Tree::Node { slot, .. } && inserted_in_place(
                before,
                after,
                slot,
                new_node,
                t.r(),
                sub,
            )
        },
    ensures
        one_more(
            before,
            after,
            node,
            new_node,
            t,
            if before[new_node as int].key.rank() < (t->key).rank() {
                t.with_left(sub)
            } else {
                t.with_right(sub)
            },
        ),
{
    let key = before[new_node as int].key;
    let parent = before[node as int].parent;
    let on_left = key.rank() < (t->key).rank();
    let child = if on_left {
        t.l()
    } else {
        t.r()
    };
    let other = if on_left {
        t.r()
    } else {
        t.l()
    };
    let m = if on_left {
        t.with_left(sub)
    } else {
        t.with_right(sub)
    };
    lemma_insert_ready(before, node, new_node, t);
    lemma_descent_ready(before, node, t, key);
    lemma_slots_in_arena(before, t, parent);
    assert(t.slots().contains(node));
    assert(child.slots().contains(child->slot));
    assert forall|i: usize| #[trigger] other.slots().contains(i) && i < before.len() implies after[i as int]
        == before[i as int] by {
        assert(t.slots().contains(i));
        assert(!child.slots().insert(new_node).contains(i));
    }
    lemma_linked_frame(before, after, other, Some(node));
    assert(m.slots() =~= t.slots().insert(new_node));
    assert(after[node as int] == relinked(before[node as int], child->slot, sub.top()));
    assert(linked(after, m, parent));
    if let Some(p) = parent {
        assert(!child.slots().insert(new_node).contains(p));
        assert(after[p as int] == before[p as int]);
    }
    assert forall|j: usize|
        j < before.len() && !t.slots().contains(j) && j != new_node implies after[j as int]
        == before[j as int] by {
        assert(!child.slots().insert(new_node).contains(j));
    }
    lemma_insert_step(t, sub, key, m);
    assert(rebalanced(m) == with_inserted(t, new_node, key));
}

/// Rebalancing a tree that is one node larger completes the insertion.
pub proof fn lemma_insert_done<K: OrderedKey>(
    before: Seq<TreeNode<K>>,
    mid: Seq<TreeNode<K>>,
    after: Seq<TreeNode<K>>,
    node: usize,
    new_node: usize,
    t: HeightTree<K>,
    m: HeightTree<K>,
)
    requires
        can_insert(before, node, new_node, t),
        one_more(before, mid, node, new_node, t, m),
        replaced_in_place(mid, after, node, m.slots(), rebalanced(m)),
    ensures
        inserted_in_place(before, after, node, new_node, t, rebalanced(m)),
{
    let parent = before[node as int].parent;
    assert forall|j: usize|
        j < before.len() && !t.slots().insert(new_node).contains(j) && Some(j)
            != parent implies after[j as int] == before[j as int] by {
        assert(!m.slots().contains(j));
        assert(mid[j as int] == before[j as int]);
    }
    if let Some(p) = parent {
        assert(mid[p as int] == before[p as int]);
    }
}

/// What the removal of one occurrence of `value` from the subtree `t` at
/// `node` leaves: the valid tree `result` in place of `t`, with the keys of
/// `t` less one `value` and the slots of `t` less `removed`, as high as `t`
/// or one lower.
pub open spec fn deleted_in_place<K: OrderedKey>(
    before: Seq<TreeNode<K>>,
    after: Seq<TreeNode<K>>,
    node: usize,
    t: HeightTree<K>,
    value: K,
    removed: usize,
    result: HeightTree<K>,
) -> bool {
    &&& replaced_in_place(before, after, node, t.slots(), result)
    &&& result == with_deleted(t, value)
    &&& is_avl(result)
    &&& t.bag().count(value) > 0
    &&& result.bag() =~= t.bag().remove(value)
    &&& t.slots().contains(removed)
    &&& t.leaving(value) == Some(removed)
    &&& result.slots() =~= t.slots().remove(removed)
    &&& result.height() == t.height() || result.height() + 1 == t.height()
}

/// The arena `after` is `before` with the node in slot `node`, which has at
/// most one child, taken out: the child, if any, names the parent of `node`
/// as its parent, and that parent names the child in place of `node`.
pub open spec fn spliced<K>(
    before: Seq<TreeNode<K>>,
    after: Seq<TreeNode<K>>,
    node: usize,
    child: Option<usize>,
) -> bool {
    let parent = before[node as int].parent;
    &&& after.len() == before.len()
    &&& child matches Some(c) ==> after[c as int] == (TreeNode { parent, ..before[c as int] })
    &&& parent matches Some(p) ==> after[p as int] == relinked(before[p as int], node, child)
    &&& forall|j: usize|
        j < before.len() && Some(j) != child && Some(j) != parent ==> after[j as int]
            == before[j as int]
}

/// Before a node with at most one child is taken out: that child and the
/// parent are different slots of the arena.
pub proof fn lemma_splice_ready<K: OrderedKey>(nodes: Seq<TreeNode<K>>, node: usize, t: HeightTree<K>)
    requires
        can_rotate(nodes, node, t),
        t.l() is Nil || t.r() is Nil,
    ensures
        nodes[node as int].left == t.l().top(),
        nodes[node as int].right == t.r().top(),
        t.l().top() matches Some(c) ==> c < nodes.len() && c != node && Some(c)
            != nodes[node as int].parent,
        t.r().top() matches Some(c) ==> c < nodes.len() && c != node && Some(c)
            != nodes[node as int].parent,
{
    assert(linked(nodes, t.l(), Some(node)));
    assert(linked(nodes, t.r(), Some(node)));
    if t.l() is Node {
        assert(t.l().slots().contains(t.l()->slot));
        assert(t.slots().contains(t.l()->slot));
    }
    if t.r() is Node {
        assert(t.r().slots().contains(t.r()->slot));
        assert(t.slots().contains(t.r()->slot));
    }
}

/// Taking out a node with at most one child removes its key and leaves the
/// child's subtree in its place.
pub proof fn lemma_spliced<K: OrderedKey>(
    before: Seq<TreeNode<K>>,
    after: Seq<TreeNode<K>>,
    node: usize,
    t: HeightTree<K>,
)
    requires
        can_rotate(before, node, t),
        is_avl(t),
        t.l() is Nil || t.r() is Nil,
        spliced(
            before,
            after,
            node,
            if t.l() is Node {
                t.l().top()
            } else {
                t.r().top()
            },
        ),
    ensures
        deleted_in_place(before, after, node, t, t->key, node, t.only_child()),
{
    let parent = before[node as int].parent;
    let sub = if t.l() is Node {
        t.l()
    } else {
        t.r()
    };
    let other = if t.l() is Node {
        t.r()
    } else {
        t.l()
    };
    lemma_splice_ready(before, node, t);
    lemma_slots_in_arena(before, t, parent);
    assert(t.slots().contains(node));
    assert(other.slots() =~= Set::empty());
    assert(other.bag() =~= Multiset::empty());
    assert(other.height() == 0);
    assert(sub.slots() =~= t.slots().remove(node));
    assert(sub.bag() =~= t.bag().remove(t->key));
    lemma_linked_reparent(before, after, sub, Some(node), parent);
}

/// What a deletion below `node` has changed when it comes back: the tree
/// `m` stands in the arena in place of `t`, one node short, with every slot
/// outside `t` as it was, and one subtree of `m` may be lower by one.
pub open spec fn one_short<K: OrderedKey>(
    before: Seq<TreeNode<K>>,
    after: Seq<TreeNode<K>>,
    node: usize,
    t: HeightTree<K>,
    m: HeightTree<K>,
    value: K,
    removed: usize,
) -> bool {
    let parent = before[node as int].parent;
    &&& after.len() == before.len()
    &&& can_rotate(after, node, m)
    &&& forall|j: usize|
        j < before.len() && !t.slots().contains(j) ==> after[j as int] == before[j as int]
    &&& after[node as int].parent == parent
    &&& t.slots().contains(removed)
    &&& t.leaving(value) == Some(removed)
    &&& t.bag().count(value) > 0
    &&& rebalanced(m) == with_deleted(t, value)
    &&& m.slots() =~= t.slots().remove(removed)
    &&& m.ordered(false)
    &&& m.bag() =~= t.bag().remove(value)
    &&& is_avl(m.l())
    &&& is_avl(m.r())
    &&& one_side_lower(t, m)
}

/// Before a deletion goes down from `node`: the children are ready, and
/// `value` can only be on the side where its rank points.
pub proof fn lemma_descent_ready<K: OrderedKey>(
    nodes: Seq<TreeNode<K>>,
    node: usize,
    t: HeightTree<K>,
    value: K,
)
    requires
        can_rotate(nodes, node, t),
        is_avl(t),
    ensures
        nodes[node as int].key == t->key,
        nodes[node as int].left == t.l().top(),
        nodes[node as int].right == t.r().top(),
        t.l() matches Tree::Node { slot, .. } ==> can_rotate(nodes, slot, t.l())
            && nodes[slot as int].parent == Some(node),
        t.r() matches Tree::Node { slot, .. } ==> can_rotate(nodes, slot, t.r())
            && nodes[slot as int].parent == Some(node),
        linked(nodes, t.l(), Some(node)),
        linked(nodes, t.r(), Some(node)),
        is_avl(t.l()),
        is_avl(t.r()),
        value.rank() < (t->key).rank() ==> t.bag().count(value) == t.l().bag().count(value),
        value.rank() > (t->key).rank() ==> t.bag().count(value) == t.r().bag().count(value),
        value.rank() == (t->key).rank() ==> t.bag().count(value) > 0,
        t.l() is Nil ==> t.l().bag().count(value) == 0,
        t.r() is Nil ==> t.r().bag().count(value) == 0,
{
    reveal_with_fuel(Tree::height, 2);
    let parent = nodes[node as int].parent;
    lemma_slots_in_arena(nodes, t, parent);
    assert(t.slots().contains(node));
    assert(linked(nodes, t.l(), Some(node)));
    assert(linked(nodes, t.r(), Some(node)));
    if t.l() is Node {
        assert(t.l().slots().contains(t.l()->slot));
    }
    if t.r() is Node {
        assert(t.r().slots().contains(t.r()->slot));
    }
    if value.rank() < (t->key).rank() {
        assert(t.r().bag().count(value) == 0);
    }
    if value.rank() > (t->key).rank() {
        assert(t.l().bag().count(value) == 0);
    }
    if value.rank() == (t->key).rank() {
        K::rank_is_injective(value, t->key);
    }
}

/// A deletion in the subtree of `node` on the side of `value` leaves the
/// tree at `node` one node short.
pub proof fn lemma_deleted_below<K: OrderedKey>(
    before: Seq<TreeNode<K>>,
    after: Seq<TreeNode<K>>,
    node: usize,
    t: HeightTree<K>,
    sub: HeightTree<K>,
    removed: usize,
    value: K,
    m: HeightTree<K>,
)
    requires
        can_rotate(before, node, t),
        is_avl(t),
        value.rank() != (t->key).rank(),
        if value.rank() < (t->key).rank() {
            &&& m == t.with_left(sub)
            &&& t.l() matches Tree::Node { slot, .. } && deleted_in_place(
                before,
                after,
                slot,
                t.l(),
                value,
                removed,
                sub,
            )
        } else {
            &&& m == t.with_right(sub)
            &&& t.r() matches Tree::Node { slot, .. } && deleted_in_place(
                before,
                after,
                slot,
                t.r(),
                value,
                removed,
                sub,
            )
        },
    ensures
        one_short(before, after, node, t, m, value, removed),
{
    reveal_with_fuel(Tree::height, 2);
    let parent = before[node as int].parent;
    let on_left = value.rank() < (t->key).rank();
    let child = if on_left {
        t.l()
    } else {
        t.r()
    };
    let other = if on_left {
        t.r()
    } else {
        t.l()
    };
    lemma_descent_ready(before, node, t, value);
    lemma_slots_in_arena(before, t, parent);
    assert(t.slots().contains(node));
    assert(child.slots().contains(child->slot));
    assert forall|i: usize| #[trigger] other.slots().contains(i) && i < before.len() implies after[i as int]
        == before[i as int] by {
        assert(t.slots().contains(i));
        assert(!child.slots().contains(i));
    }
    lemma_linked_frame(before, after, other, Some(node));
    lemma_removed_below(t, sub, value, m);
    assert(m.slots() =~= t.slots().remove(removed));
    assert(after[node as int] == relinked(before[node as int], child->slot, sub.top()));
    assert(linked(after, m, parent));
    if let Some(p) = parent {
        assert(!child.slots().contains(p));
        assert(after[p as int] == before[p as int]);
    }
    assert forall|j: usize| j < before.len() && !t.slots().contains(j) implies after[j as int]
        == before[j as int] by {
        assert(!child.slots().contains(j));
    }
}

/// Putting the least key of the right subtree into `node` leaves both
/// subtrees of `node` as they were.
pub proof fn lemma_key_swapped<K: OrderedKey>(
    before: Seq<TreeNode<K>>,
    after: Seq<TreeNode<K>>,
    node: usize,
    t: HeightTree<K>,
)
    requires
        can_rotate(before, node, t),
        is_avl(t),
        t.r() is Node,
        after == before.update(
            node as int,
            (TreeNode { key: t.r().least(), ..before[node as int] }),
        ),
    ensures
        can_rotate(after, t.r()->slot, t.r()),
        can_rotate(after, node, t.with_key(t.r().least())),
        t.r().bag().count(t.r().least()) > 0,
{
    reveal_with_fuel(Tree::height, 2);
    let parent = before[node as int].parent;
    lemma_descent_ready(before, node, t, t->key);
    lemma_slots_in_arena(before, t, parent);
    assert(t.slots().contains(node));
    lemma_linked_frame(before, after, t.l(), Some(node));
    lemma_linked_frame(before, after, t.r(), Some(node));
    t.r().lemma_least();
    assert(t.r().slots().contains(t.r()->slot));
    assert(t.with_key(t.r().least()).slots() =~= t.slots());
}

/// With the least key of the right subtree in `node` and one occurrence of
/// that key removed from the right subtree, the tree at `node` is one node
/// short, by its old key.
pub proof fn lemma_deleted_successor<K: OrderedKey>(
    before: Seq<TreeNode<K>>,
    swapped: Seq<TreeNode<K>>,
    after: Seq<TreeNode<K>>,
    node: usize,
    t: HeightTree<K>,
    sub: HeightTree<K>,
    removed: usize,
    m: HeightTree<K>,
)
    requires
        can_rotate(before, node, t),
        is_avl(t),
        t.l() is Node,
        t.r() is Node,
        swapped == before.update(
            node as int,
            (TreeNode { key: t.r().least(), ..before[node as int] }),
        ),
        deleted_in_place(swapped, after, t.r()->slot, t.r(), t.r().least(), removed, sub),
        m == t.with_key(t.r().least()).with_right(sub),
    ensures
        one_short(before, after, node, t, m, t->key, removed),
{
    reveal_with_fuel(Tree::height, 2);
    let parent = before[node as int].parent;
    let s = t.r().least();
    let tk = t.with_key(s);
    lemma_key_swapped(before, swapped, node, t);
    lemma_descent_ready(before, node, t, t->key);
    lemma_slots_in_arena(before, t, parent);
    assert(t.slots().contains(node));
    assert(t.r().slots().contains(t.r()->slot));
    assert forall|i: usize| #[trigger] t.l().slots().contains(i) && i < before.len() implies after[i as int]
        == swapped[i as int] by {
        assert(t.slots().contains(i));
        assert(!t.r().slots().contains(i));
    }
    lemma_linked_frame(before, swapped, t.l(), Some(node));
    lemma_linked_frame(swapped, after, t.l(), Some(node));
    lemma_removed_here(t, sub, m);
    assert(t.bag().count(t->key) > 0);
    assert(rebalanced(m) == with_deleted(t, t->key));
    assert(m.slots() =~= t.slots().remove(removed));
    assert(after[node as int] == relinked(swapped[node as int], t.r()->slot, sub.top()));
    assert(linked(after, m, parent));
    if let Some(p) = parent {
        assert(!t.r().slots().contains(p));
        assert(after[p as int] == swapped[p as int]);
    }
    assert forall|j: usize| j < before.len() && !t.slots().contains(j) implies after[j as int]
        == before[j as int] by {
        assert(!t.r().slots().contains(j));
        assert(after[j as int] == swapped[j as int]);
    }
}

/// Rebalancing a tree that is one node short completes the deletion.
pub proof fn lemma_delete_done<K: OrderedKey>(
    before: Seq<TreeNode<K>>,
    mid: Seq<TreeNode<K>>,
    after: Seq<TreeNode<K>>,
    node: usize,
    t: HeightTree<K>,
    m: HeightTree<K>,
    value: K,
    removed: usize,
)
    requires
        can_rotate(before, node, t),
        is_avl(t),
        one_short(before, mid, node, t, m, value, removed),
        replaced_in_place(mid, after, node, m.slots(), rebalanced(m)),
    ensures
        deleted_in_place(before, after, node, t, value, removed, rebalanced(m)),
{
    lemma_delete_step(t, m);
    let parent = before[node as int].parent;
    assert forall|j: usize|
        j < before.len() && !t.slots().contains(j) && Some(j) != parent implies after[j as int]
        == before[j as int] by {
        assert(!m.slots().contains(j));
        assert(mid[j as int] == before[j as int]);
    }
    if let Some(p) = parent {
        assert(mid[p as int] == before[p as int]);
    }
}

/// The tree that an insertion made has one node more than the tree before.
pub proof fn lemma_size_is_slots<K>(
    nodes: Seq<TreeNode<K>>,
    after: HeightTree<K>,
    before: HeightTree<K>,
    new_node: usize,
)
    requires
        linked(nodes, after, None),
        before.slots().finite(),
        before.slots().len() == before.size(),
        !before.slots().contains(new_node),
        after.slots() =~= before.slots().insert(new_node),
    ensures
        after.size() == before.size() + 1,
{
    lemma_slots_in_arena(nodes, after, None);
}

} // verus!
