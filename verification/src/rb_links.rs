//! How the restructurings of the colour-balanced engine change the arena,
//! and why the arena then holds the restructured model.

use vstd::prelude::*;
use crate::key::OrderedKey;
use crate::redblack_tree::{NodeColor, TreeNode};
use crate::rb_delete::{
    fixed, is_short, lemma_delete_mends, lemma_delete_passes, mended, shrunk, still_short,
    with_deleted, with_short,
};
use crate::rb_insert::toward;
use crate::rb_model::{double_left, double_right, is_rb, ColorTree};
use crate::arena::{lemma_linked_frame, lemma_linked_reparent, lemma_slots_in_arena, linked};
use crate::shape::{lemma_less_below, lemma_less_here, Tree};

verus! {

/// The parent node `n` after the child link that named `from` was set to
/// `to`: the left link if it named `from`, the right link otherwise.
pub open spec fn relinked<K>(n: TreeNode<K>, from: usize, to: Option<usize>) -> TreeNode<K> {
    if n.left == Some(from) {
        TreeNode { left: to, ..n }
    } else {
        TreeNode { right: to, ..n }
    }
}

/// What a restructuring at `node` asks of the arena: it holds `t` below the
/// parent that `node` names, and that parent is a slot outside `t` with a
/// child link to `node`.
pub open spec fn can_restructure<K>(nodes: Seq<TreeNode<K>>, node: usize, t: ColorTree<K>) -> bool {
    &&& t.top() == Some(node)
    &&& node < nodes.len()
    &&& linked(nodes, t, nodes[node as int].parent)
    &&& nodes[node as int].parent matches Some(p) ==> {
        &&& p < nodes.len()
        &&& !t.slots().contains(p)
        &&& nodes[p as int].left == Some(node) || nodes[p as int].right == Some(node)
    }
}

/// What a restructuring of the subtree at `node` into `result` leaves in
/// the arena: `result` linked below the old parent, that parent's child link
/// set to the new top, and every slot outside `touched` as it was.
pub open spec fn replaced_in_place<K>(
    before: Seq<TreeNode<K>>,
    after: Seq<TreeNode<K>>,
    node: usize,
    touched: Set<usize>,
    result: ColorTree<K>,
) -> bool {
    let parent = before[node as int].parent;
    &&& before.len() <= after.len()
    &&& linked(after, result, parent)
    &&& forall|j: usize|
        j < before.len() && !touched.contains(j) && Some(j) != parent ==> after[j as int]
            == before[j as int]
    &&& parent matches Some(p) ==> after[p as int] == relinked(before[p as int], node, result.top())
}

/// A subtree that comes to stand at the root of the whole tree gets a black
/// top; below a parent it keeps its colours.
pub open spec fn rooted<K>(parent: Option<usize>, t: ColorTree<K>) -> ColorTree<K> {
    if parent is None {
        t.with_tag(NodeColor::Black)
    } else {
        t
    }
}

/// The colour that a node lifted to the top of a subtree gets there.
pub open spec fn lifted_color(parent: Option<usize>, color: NodeColor) -> NodeColor {
    if parent is None {
        NodeColor::Black
    } else {
        color
    }
}

/// The arena `after` is `before` with the node in slot `x` turned below its
/// child in slot `y`: `x` hands its place below the parent to `y` and takes
/// `y`'s inner subtree `inner` in exchange; no other slot changes.
pub open spec fn turned<K>(
    before: Seq<TreeNode<K>>,
    after: Seq<TreeNode<K>>,
    x: usize,
    y: usize,
    inner: Option<usize>,
    to_left: bool,
) -> bool {
    let parent = before[x as int].parent;
    let color = lifted_color(parent, before[y as int].color);
    &&& after.len() == before.len()
    &&& after[x as int] == if to_left {
        TreeNode { right: inner, parent: Some(y), ..before[x as int] }
    } else {
        TreeNode { left: inner, parent: Some(y), ..before[x as int] }
    }
    &&& after[y as int] == if to_left {
        TreeNode { left: Some(x), parent, color, ..before[y as int] }
    } else {
        TreeNode { right: Some(x), parent, color, ..before[y as int] }
    }
    &&& inner matches Some(i) ==> after[i as int] == (TreeNode {
        parent: Some(x),
        ..before[i as int]
    })
    &&& parent matches Some(p) ==> after[p as int] == relinked(before[p as int], x, Some(y))
    &&& forall|j: usize|
        j < before.len() && j != x && j != y && Some(j) != inner && Some(j) != parent
            ==> after[j as int] == before[j as int]
}

/// The arena `after` is `before` with the node in slot `z`, a grandchild of
/// the node in slot `x` by way of the child in slot `y`, lifted over both:
/// `z` takes the place of `x` below the parent, with the lower of `x` and
/// `y` as its left child and the higher as its right child, and its former
/// subtrees `b` and `c` go to them; no other slot changes.
pub open spec fn double_turned<K>(
    before: Seq<TreeNode<K>>,
    after: Seq<TreeNode<K>>,
    x: usize,
    y: usize,
    z: usize,
    b: Option<usize>,
    c: Option<usize>,
    to_left: bool,
) -> bool {
    let parent = before[x as int].parent;
    let color = lifted_color(parent, before[z as int].color);
    &&& after.len() == before.len()
    &&& after[x as int] == if to_left {
        TreeNode { right: b, parent: Some(z), ..before[x as int] }
    } else {
        TreeNode { left: c, parent: Some(z), ..before[x as int] }
    }
    &&& after[y as int] == if to_left {
        TreeNode { left: c, parent: Some(z), ..before[y as int] }
    } else {
        TreeNode { right: b, parent: Some(z), ..before[y as int] }
    }
    &&& after[z as int] == if to_left {
        TreeNode { left: Some(x), right: Some(y), parent, color, ..before[z as int] }
    } else {
        TreeNode { left: Some(y), right: Some(x), parent, color, ..before[z as int] }
    }
    &&& b matches Some(i) ==> after[i as int] == (TreeNode {
        parent: Some(if to_left {
            x
        } else {
            y
        }),
        ..before[i as int]
    })
    &&& c matches Some(i) ==> after[i as int] == (TreeNode {
        parent: Some(if to_left {
            y
        } else {
            x
        }),
        ..before[i as int]
    })
    &&& parent matches Some(p) ==> after[p as int] == relinked(before[p as int], x, Some(z))
    &&& forall|j: usize|
        j < before.len() && j != x && j != y && j != z && Some(j) != b && Some(j) != c && Some(j)
            != parent ==> after[j as int] == before[j as int]
}

/// The slots that a turn to the left touches are different slots of the
/// arena.
pub proof fn lemma_left_turn_ready<K>(nodes: Seq<TreeNode<K>>, node: usize, t: ColorTree<K>)
    requires
        can_restructure(nodes, node, t),
        t.r() is Node,
    ensures
        nodes[node as int].right == t.r().top(),
        t.r()->slot < nodes.len(),
        t.r()->slot != node,
        nodes[t.r()->slot as int].left == t.r().l().top(),
        nodes[t.r()->slot as int].color == t.r()->tag,
        nodes[node as int].parent != Some(node),
        nodes[node as int].parent != t.r().top(),
        t.r().l().top() matches Some(i) ==> i < nodes.len() && i != node && i != t.r()->slot
            && Some(i) != nodes[node as int].parent,
{
    let r = t.r();
    assert(linked(nodes, r, Some(node)));
    assert(linked(nodes, r.l(), Some(r->slot)));
    assert(r.slots().contains(r->slot));
    assert(t.slots().contains(r->slot));
    assert(t.slots().contains(node));
    if r.l() is Node {
        assert(r.l().slots().contains(r.l()->slot));
        assert(r.slots().contains(r.l()->slot));
        assert(t.slots().contains(r.l()->slot));
    }
}

/// An arena turned to the left at `node` holds the turned tree.
pub proof fn lemma_left_turn_links<K>(
    before: Seq<TreeNode<K>>,
    after: Seq<TreeNode<K>>,
    node: usize,
    t: ColorTree<K>,
)
    requires
        can_restructure(before, node, t),
        t.r() is Node,
        turned(before, after, node, t.r()->slot, t.r().l().top(), true),
    ensures
        replaced_in_place(
            before,
            after,
            node,
            t.slots(),
            rooted(before[node as int].parent, t.turned_left()),
        ),
        rooted(before[node as int].parent, t.turned_left()).slots() =~= t.slots(),
{
    let r = t.r();
    let a = t.l();
    let b = r.l();
    let c = r.r();
    let y = r->slot;
    let parent = before[node as int].parent;
    lemma_slots_in_arena(before, t, parent);
    assert(linked(before, r, Some(node)));
    assert(r.slots().contains(y));
    assert(t.slots().contains(node));
    if b is Node {
        assert(b.slots().contains(b->slot));
        assert(linked(before, b, Some(y)));
    }
    lemma_linked_frame(before, after, a, Some(node));
    lemma_linked_frame(before, after, c, Some(y));
    lemma_linked_reparent(before, after, b, Some(y), Some(node));
    let result = rooted(parent, t.turned_left());
    let inner = result.l();
    assert(inner.slots() =~= a.slots().union(b.slots()).insert(node));
    assert(linked(after, inner, Some(y)));
    assert(result.slots() =~= t.slots());
}

/// The slots that a turn to the right touches are different slots of the
/// arena.
pub proof fn lemma_right_turn_ready<K>(nodes: Seq<TreeNode<K>>, node: usize, t: ColorTree<K>)
    requires
        can_restructure(nodes, node, t),
        t.l() is Node,
    ensures
        nodes[node as int].left == t.l().top(),
        t.l()->slot < nodes.len(),
        t.l()->slot != node,
        nodes[t.l()->slot as int].right == t.l().r().top(),
        nodes[t.l()->slot as int].color == t.l()->tag,
        nodes[node as int].parent != Some(node),
        nodes[node as int].parent != t.l().top(),
        t.l().r().top() matches Some(i) ==> i < nodes.len() && i != node && i != t.l()->slot
            && Some(i) != nodes[node as int].parent,
{
    let r = t.l();
    assert(linked(nodes, r, Some(node)));
    assert(linked(nodes, r.r(), Some(r->slot)));
    assert(r.slots().contains(r->slot));
    assert(t.slots().contains(r->slot));
    assert(t.slots().contains(node));
    if r.r() is Node {
        assert(r.r().slots().contains(r.r()->slot));
        assert(r.slots().contains(r.r()->slot));
        assert(t.slots().contains(r.r()->slot));
    }
}

/// An arena turned to the right at `node` holds the turned tree.
pub proof fn lemma_right_turn_links<K>(
    before: Seq<TreeNode<K>>,
    after: Seq<TreeNode<K>>,
    node: usize,
    t: ColorTree<K>,
)
    requires
        can_restructure(before, node, t),
        t.l() is Node,
        turned(before, after, node, t.l()->slot, t.l().r().top(), false),
    ensures
        replaced_in_place(
            before,
            after,
            node,
            t.slots(),
            rooted(before[node as int].parent, t.turned_right()),
        ),
        rooted(before[node as int].parent, t.turned_right()).slots() =~= t.slots(),
{
    let r = t.l();
    let a = t.r();
    let b = r.r();
    let c = r.l();
    let y = r->slot;
    let parent = before[node as int].parent;
    lemma_slots_in_arena(before, t, parent);
    assert(linked(before, r, Some(node)));
    assert(r.slots().contains(y));
    assert(t.slots().contains(node));
    if b is Node {
        assert(b.slots().contains(b->slot));
        assert(linked(before, b, Some(y)));
    }
    lemma_linked_frame(before, after, a, Some(node));
    lemma_linked_frame(before, after, c, Some(y));
    lemma_linked_reparent(before, after, b, Some(y), Some(node));
    let result = rooted(parent, t.turned_right());
    let inner = result.r();
    assert(inner.slots() =~= a.slots().union(b.slots()).insert(node));
    assert(linked(after, inner, Some(y)));
    assert(result.slots() =~= t.slots());
}

/// The slots that a double turn to the left touches are different slots of
/// the arena.
pub proof fn lemma_double_left_ready<K>(nodes: Seq<TreeNode<K>>, node: usize, t: ColorTree<K>)
    requires
        can_restructure(nodes, node, t),
        t.r().l() is Node,
    ensures
        nodes[node as int].right == t.r().top(),
        t.r()->slot < nodes.len(),
        t.r()->slot != node,
        nodes[t.r()->slot as int].left == t.r().l().top(),
        t.r().l()->slot < nodes.len(),
        t.r().l()->slot != node,
        t.r().l()->slot != t.r()->slot,
        nodes[t.r().l()->slot as int].left == t.r().l().l().top(),
        nodes[t.r().l()->slot as int].right == t.r().l().r().top(),
        nodes[t.r().l()->slot as int].color == t.r().l()->tag,
        nodes[node as int].parent != Some(node),
        nodes[node as int].parent != t.r().top(),
        nodes[node as int].parent != t.r().l().top(),
        t.r().l().l().top() matches Some(i) ==> i < nodes.len() && i != node && i != t.r()->slot
            && i != t.r().l()->slot && Some(i) != nodes[node as int].parent && Some(i)
            != t.r().l().r().top(),
        t.r().l().r().top() matches Some(i) ==> i < nodes.len() && i != node && i != t.r()->slot
            && i != t.r().l()->slot && Some(i) != nodes[node as int].parent,
{
    let r = t.r();
    let m = r.l();
    assert(linked(nodes, r, Some(node)));
    assert(linked(nodes, m, Some(r->slot)));
    assert(linked(nodes, m.l(), Some(m->slot)));
    assert(linked(nodes, m.r(), Some(m->slot)));
    assert(m.slots().contains(m->slot));
    assert(r.slots().contains(m->slot));
    assert(r.slots().contains(r->slot));
    assert(t.slots().contains(r->slot));
    assert(t.slots().contains(m->slot));
    assert(t.slots().contains(node));
    if m.l() is Node {
        let i = m.l()->slot;
        assert(m.l().slots().contains(i));
        assert(m.slots().contains(i));
        assert(r.slots().contains(i));
        assert(t.slots().contains(i));
    }
    if m.r() is Node {
        let i = m.r()->slot;
        assert(m.r().slots().contains(i));
        assert(m.slots().contains(i));
        assert(r.slots().contains(i));
        assert(t.slots().contains(i));
    }
}

/// An arena doubly turned to the left at `node` holds the doubly turned
/// tree.
pub proof fn lemma_double_left_links<K>(
    before: Seq<TreeNode<K>>,
    after: Seq<TreeNode<K>>,
    node: usize,
    t: ColorTree<K>,
)
    requires
        can_restructure(before, node, t),
        t.r().l() is Node,
        double_turned(
            before,
            after,
            node,
            t.r()->slot,
            t.r().l()->slot,
            t.r().l().l().top(),
            t.r().l().r().top(),
            true,
        ),
    ensures
        replaced_in_place(
            before,
            after,
            node,
            t.slots(),
            rooted(before[node as int].parent, double_left(t)),
        ),
        rooted(before[node as int].parent, double_left(t)).slots() =~= t.slots(),
{
    let r = t.r();
    let m = r.l();
    let a = t.l();
    let b = m.l();
    let c = m.r();
    let d = r.r();
    let y = r->slot;
    let z = m->slot;
    let parent = before[node as int].parent;
    lemma_double_left_ready(before, node, t);
    lemma_slots_in_arena(before, t, parent);
    assert(linked(before, r, Some(node)));
    assert(linked(before, m, Some(y)));
    assert(linked(before, b, Some(z)));
    assert(linked(before, c, Some(z)));
    assert(r.slots().contains(y));
    assert(m.slots().contains(z));
    assert(r.slots().contains(z));
    assert(t.slots().contains(node));
    assert(t.slots().contains(y));
    assert(t.slots().contains(z));
    if b is Node {
        assert(b.slots().contains(b->slot));
    }
    if c is Node {
        assert(c.slots().contains(c->slot));
    }
    assert forall|i: usize| #[trigger] b.slots().contains(i) implies m.slots().contains(i)
        && r.slots().contains(i) && t.slots().contains(i) && !c.slots().contains(i) by {}
    assert forall|i: usize| #[trigger] c.slots().contains(i) implies m.slots().contains(i)
        && r.slots().contains(i) && t.slots().contains(i) by {}
    assert forall|i: usize| #[trigger] d.slots().contains(i) implies r.slots().contains(i)
        && t.slots().contains(i) && !m.slots().contains(i) by {}
    assert forall|i: usize| #[trigger] a.slots().contains(i) implies t.slots().contains(i)
        && !r.slots().contains(i) by {}
    lemma_linked_frame(before, after, a, Some(node));
    lemma_linked_frame(before, after, d, Some(y));
    lemma_linked_reparent(before, after, b, Some(z), Some(node));
    lemma_linked_reparent(before, after, c, Some(z), Some(y));
    let result = rooted(parent, double_left(t));
    let low = result.l();
    let high = result.r();
    assert(low.slots() =~= a.slots().union(b.slots()).insert(node));
    assert(high.slots() =~= c.slots().union(d.slots()).insert(y));
    assert(linked(after, low, Some(z)));
    assert(linked(after, high, Some(z)));
    assert(result.slots() =~= t.slots());
}

/// The slots that a double turn to the right touches are different slots of
/// the arena.
pub proof fn lemma_double_right_ready<K>(nodes: Seq<TreeNode<K>>, node: usize, t: ColorTree<K>)
    requires
        can_restructure(nodes, node, t),
        t.l().r() is Node,
    ensures
        nodes[node as int].left == t.l().top(),
        t.l()->slot < nodes.len(),
        t.l()->slot != node,
        nodes[t.l()->slot as int].right == t.l().r().top(),
        t.l().r()->slot < nodes.len(),
        t.l().r()->slot != node,
        t.l().r()->slot != t.l()->slot,
        nodes[t.l().r()->slot as int].left == t.l().r().l().top(),
        nodes[t.l().r()->slot as int].right == t.l().r().r().top(),
        nodes[t.l().r()->slot as int].color == t.l().r()->tag,
        nodes[node as int].parent != Some(node),
        nodes[node as int].parent != t.l().top(),
        nodes[node as int].parent != t.l().r().top(),
        t.l().r().l().top() matches Some(i) ==> i < nodes.len() && i != node && i != t.l()->slot
            && i != t.l().r()->slot && Some(i) != nodes[node as int].parent && Some(i)
            != t.l().r().r().top(),
        t.l().r().r().top() matches Some(i) ==> i < nodes.len() && i != node && i != t.l()->slot
            && i != t.l().r()->slot && Some(i) != nodes[node as int].parent,
{
    let r = t.l();
    let m = r.r();
    assert(linked(nodes, r, Some(node)));
    assert(linked(nodes, m, Some(r->slot)));
    assert(linked(nodes, m.l(), Some(m->slot)));
    assert(linked(nodes, m.r(), Some(m->slot)));
    assert(m.slots().contains(m->slot));
    assert(r.slots().contains(m->slot));
    assert(r.slots().contains(r->slot));
    assert(t.slots().contains(r->slot));
    assert(t.slots().contains(m->slot));
    assert(t.slots().contains(node));
    if m.l() is Node {
        let i = m.l()->slot;
        assert(m.l().slots().contains(i));
        assert(m.slots().contains(i));
        assert(r.slots().contains(i));
        assert(t.slots().contains(i));
    }
    if m.r() is Node {
        let i = m.r()->slot;
        assert(m.r().slots().contains(i));
        assert(m.slots().contains(i));
        assert(r.slots().contains(i));
        assert(t.slots().contains(i));
    }
}

/// An arena doubly turned to the right at `node` holds the doubly turned
/// tree.
pub proof fn lemma_double_right_links<K>(
    before: Seq<TreeNode<K>>,
    after: Seq<TreeNode<K>>,
    node: usize,
    t: ColorTree<K>,
)
    requires
        can_restructure(before, node, t),
        t.l().r() is Node,
        double_turned(
            before,
            after,
            node,
            t.l()->slot,
            t.l().r()->slot,
            t.l().r().l().top(),
            t.l().r().r().top(),
            false,
        ),
    ensures
        replaced_in_place(
            before,
            after,
            node,
            t.slots(),
            rooted(before[node as int].parent, double_right(t)),
        ),
        rooted(before[node as int].parent, double_right(t)).slots() =~= t.slots(),
{
    let r = t.l();
    let m = r.r();
    let a = t.r();
    let b = m.r();
    let c = m.l();
    let d = r.l();
    let y = r->slot;
    let z = m->slot;
    let parent = before[node as int].parent;
    lemma_double_right_ready(before, node, t);
    lemma_slots_in_arena(before, t, parent);
    assert(linked(before, r, Some(node)));
    assert(linked(before, m, Some(y)));
    assert(linked(before, b, Some(z)));
    assert(linked(before, c, Some(z)));
    assert(r.slots().contains(y));
    assert(m.slots().contains(z));
    assert(r.slots().contains(z));
    assert(t.slots().contains(node));
    assert(t.slots().contains(y));
    assert(t.slots().contains(z));
    if b is Node {
        assert(b.slots().contains(b->slot));
    }
    if c is Node {
        assert(c.slots().contains(c->slot));
    }
    assert forall|i: usize| #[trigger] b.slots().contains(i) implies m.slots().contains(i)
        && r.slots().contains(i) && t.slots().contains(i) && !c.slots().contains(i) by {}
    assert forall|i: usize| #[trigger] c.slots().contains(i) implies m.slots().contains(i)
        && r.slots().contains(i) && t.slots().contains(i) by {}
    assert forall|i: usize| #[trigger] d.slots().contains(i) implies r.slots().contains(i)
        && t.slots().contains(i) && !m.slots().contains(i) by {}
    assert forall|i: usize| #[trigger] a.slots().contains(i) implies t.slots().contains(i)
        && !r.slots().contains(i) by {}
    lemma_linked_frame(before, after, a, Some(node));
    lemma_linked_frame(before, after, d, Some(y));
    lemma_linked_reparent(before, after, b, Some(z), Some(node));
    lemma_linked_reparent(before, after, c, Some(z), Some(y));
    let result = rooted(parent, double_right(t));
    let low = result.r();
    let high = result.l();
    assert(low.slots() =~= a.slots().union(b.slots()).insert(node));
    assert(high.slots() =~= c.slots().union(d.slots()).insert(y));
    assert(linked(after, low, Some(z)));
    assert(linked(after, high, Some(z)));
    assert(result.slots() =~= t.slots());
}

/// After the subtree on one side of `node` has been restructured in place
/// into `sub`, touching only slots in `touched`, the arena holds the tree at
/// `node` with `sub` on that side.
pub proof fn lemma_child_replaced<K>(
    before: Seq<TreeNode<K>>,
    after: Seq<TreeNode<K>>,
    node: usize,
    t: ColorTree<K>,
    sub: ColorTree<K>,
    touched: Set<usize>,
    on_left: bool,
)
    requires
        can_restructure(before, node, t),
        (if on_left {
            t.l()
        } else {
            t.r()
        }) matches Tree::Node { slot, .. } && replaced_in_place(before, after, slot, touched, sub),
        forall|i: usize| #[trigger] sub.slots().contains(i) ==> touched.contains(i),
        forall|i: usize|
            #[trigger] touched.contains(i) ==> i != node && Some(i) != before[node as int].parent
                && !(if on_left {
                t.r()
            } else {
                t.l()
            }).slots().contains(i),
    ensures
        can_restructure(
            after,
            node,
            if on_left {
                t.with_left(sub)
            } else {
                t.with_right(sub)
            },
        ),
        replaced_in_place(
            before,
            after,
            node,
            t.slots().union(touched),
            if on_left {
                t.with_left(sub)
            } else {
                t.with_right(sub)
            },
        ),
        after[node as int] == relinked(
            before[node as int],
            (if on_left {
                t.l()
            } else {
                t.r()
            })->slot,
            sub.top(),
        ),
{
    let parent = before[node as int].parent;
    lemma_slots_in_arena(before, t, parent);
    assert(t.slots().contains(node));
    assert(linked(before, t.l(), Some(node)));
    assert(linked(before, t.r(), Some(node)));
    if on_left {
        assert(t.l().slots().contains(t.l()->slot));
        assert forall|i: usize| #[trigger]
            t.r().slots().contains(i) && i < before.len() implies after[i as int]
            == before[i as int] by {
            assert(!touched.contains(i));
        }
        lemma_linked_frame(before, after, t.r(), Some(node));
        if t.r() is Node {
            assert(t.r().slots().contains(t.r()->slot));
        }
    } else {
        assert(t.r().slots().contains(t.r()->slot));
        assert forall|i: usize| #[trigger]
            t.l().slots().contains(i) && i < before.len() implies after[i as int]
            == before[i as int] by {
            assert(!touched.contains(i));
        }
        lemma_linked_frame(before, after, t.l(), Some(node));
        if t.l() is Node {
            assert(t.l().slots().contains(t.l()->slot));
        }
    }
    let other = if on_left {
        t.r()
    } else {
        t.l()
    };
    let result = if on_left {
        t.with_left(sub)
    } else {
        t.with_right(sub)
    };
    assert(!sub.slots().contains(node));
    assert forall|i: usize| #[trigger] sub.slots().contains(i) implies !other.slots().contains(i) by {
        assert(touched.contains(i));
    }
    assert(sub.slots().disjoint(other.slots()));
    assert(linked(after, result, parent));
    if let Some(p) = parent {
        assert(!touched.contains(p));
        assert(!sub.slots().contains(p));
        assert(t.slots().contains(node));
        assert(!other.slots().contains(p));
        assert(after[p as int] == before[p as int]);
        assert(!result.slots().contains(p));
    }
}

/// After the top node of `t` has been given the colour `color`, the arena
/// holds `t` with that colour on top.
pub proof fn lemma_painted<K>(
    before: Seq<TreeNode<K>>,
    after: Seq<TreeNode<K>>,
    node: usize,
    t: ColorTree<K>,
    color: NodeColor,
)
    requires
        can_restructure(before, node, t),
        after == before.update(node as int, (TreeNode { color, ..before[node as int] })),
    ensures
        can_restructure(after, node, t.with_tag(color)),
        replaced_in_place(before, after, node, t.slots(), t.with_tag(color)),
        t.with_tag(color).slots() =~= t.slots(),
{
    let parent = before[node as int].parent;
    lemma_slots_in_arena(before, t, parent);
    assert(t.slots().contains(node));
    lemma_linked_frame(before, after, t.l(), Some(node));
    lemma_linked_frame(before, after, t.r(), Some(node));
}

/// The arena `after` is `before` with the node in slot `node`, which has at
/// most one child, taken out: the child, if any, names the parent of `node`
/// as its parent, and that parent names the child in place of `node`.
pub open spec fn spliced<K>(
    before: Seq<TreeNode<K>>,
    after: Seq<TreeNode<K>>,
    node: usize,
    child: Option<usize>,
) -> bool {
    let parent = before[node as int].parent;
    &&& after.len() == before.len()
    &&& child matches Some(c) ==> after[c as int] == (TreeNode { parent, ..before[c as int] })
    &&& parent matches Some(p) ==> after[p as int] == relinked(before[p as int], node, child)
    &&& forall|j: usize|
        j < before.len() && Some(j) != child && Some(j) != parent ==> after[j as int]
            == before[j as int]
}

/// Taking out a node with at most one child leaves the child's subtree in
/// its place, below the same parent.
pub proof fn lemma_spliced<K>(
    before: Seq<TreeNode<K>>,
    after: Seq<TreeNode<K>>,
    node: usize,
    t: ColorTree<K>,
)
    requires
        can_restructure(before, node, t),
        t.l() is Nil || t.r() is Nil,
        spliced(before, after, node, t.only_child().top()),
    ensures
        replaced_in_place(before, after, node, t.slots(), t.only_child()),
        t.only_child().slots() =~= t.slots().remove(node),
        t.only_child() matches Tree::Node { slot, .. } ==> can_restructure(
            after,
            slot,
            t.only_child(),
        ) && after[slot as int].parent == before[node as int].parent,
        forall|j: usize|
            j < before.len() && !t.slots().contains(j) && Some(j) != before[node as int].parent
                ==> after[j as int] == before[j as int],
{
    let parent = before[node as int].parent;
    let sub = t.only_child();
    let other = if t.l() is Node {
        t.r()
    } else {
        t.l()
    };
    lemma_children_ready(before, node, t);
    assert(other.slots() =~= Set::empty());
    assert(sub.slots() =~= t.slots().remove(node));
    lemma_linked_reparent(before, after, sub, Some(node), parent);
    if sub is Node {
        assert(sub.slots().contains(sub->slot));
    }
}

/// Putting the least key of the right subtree into `node` leaves both
/// subtrees of `node` as they were.
pub proof fn lemma_key_swapped<K: OrderedKey>(
    before: Seq<TreeNode<K>>,
    after: Seq<TreeNode<K>>,
    node: usize,
    t: ColorTree<K>,
)
    requires
        can_restructure(before, node, t),
        t.r() is Node,
        after == before.update(
            node as int,
            (TreeNode { value: t.r().least(), ..before[node as int] }),
        ),
    ensures
        can_restructure(after, t.r()->slot, t.r()),
        can_restructure(after, node, t.with_key(t.r().least())),
        after[t.r()->slot as int].parent == Some(node),
        t.with_key(t.r().least()).slots() =~= t.slots(),
{
    lemma_children_ready(before, node, t);
    lemma_linked_frame(before, after, t.l(), Some(node));
    lemma_linked_frame(before, after, t.r(), Some(node));
}

/// What a deletion below `node` has changed when it comes back: the tree
/// `m` stands in the arena in place of `t`, one node short, with every slot
/// outside `t` as it was.
pub open spec fn one_less<K: OrderedKey>(
    before: Seq<TreeNode<K>>,
    after: Seq<TreeNode<K>>,
    node: usize,
    t: ColorTree<K>,
    m: ColorTree<K>,
    removed: usize,
) -> bool {
    &&& after.len() == before.len()
    &&& m is Node
    &&& can_restructure(after, node, m)
    &&& forall|j: usize|
        j < before.len() && !t.slots().contains(j) ==> after[j as int] == before[j as int]
    &&& after[node as int].parent == before[node as int].parent
    &&& t.slots().contains(removed)
    &&& m.slots() =~= t.slots().remove(removed)
}

/// A deletion in one subtree of `node`, restructured in place into `sub`,
/// leaves the tree at `node` one node short.
pub proof fn lemma_one_less<K: OrderedKey>(
    before: Seq<TreeNode<K>>,
    after: Seq<TreeNode<K>>,
    node: usize,
    t: ColorTree<K>,
    sub: ColorTree<K>,
    removed: usize,
    on_left: bool,
)
    requires
        can_restructure(before, node, t),
        after.len() == before.len(),
        (if on_left {
            t.l()
        } else {
            t.r()
        }) matches Tree::Node { slot, .. } && replaced_in_place(
            before,
            after,
            slot,
            (if on_left {
                t.l()
            } else {
                t.r()
            }).slots(),
            sub,
        ),
        (if on_left {
            t.l()
        } else {
            t.r()
        }).slots().contains(removed),
        sub.slots() =~= (if on_left {
            t.l()
        } else {
            t.r()
        }).slots().remove(removed),
    ensures
        one_less(
            before,
            after,
            node,
            t,
            if on_left {
                t.with_left(sub)
            } else {
                t.with_right(sub)
            },
            removed,
        ),
{
    let child = if on_left {
        t.l()
    } else {
        t.r()
    };
    lemma_children_ready(before, node, t);
    lemma_child_replaced(before, after, node, t, sub, child.slots(), on_left);
    assert forall|j: usize| j < before.len() && !t.slots().contains(j) implies after[j as int]
        == before[j as int] by {
        assert(!child.slots().contains(j));
        if Some(j) == before[node as int].parent {
            assert(!t.slots().union(child.slots()).contains(j));
        }
    }
}

/// What `can_restructure` says of the children of the top node: they are
/// slots of the arena, linked below the top node, and ready to be
/// restructured themselves.
pub proof fn lemma_children_ready<K>(nodes: Seq<TreeNode<K>>, node: usize, t: ColorTree<K>)
    requires
        can_restructure(nodes, node, t),
    ensures
        nodes[node as int].value == t->key,
        nodes[node as int].color == t->tag,
        nodes[node as int].left == t.l().top(),
        nodes[node as int].right == t.r().top(),
        t.slots().contains(node),
        t.l() matches Tree::Node { slot, .. } ==> can_restructure(nodes, slot, t.l())
            && nodes[slot as int].parent == Some(node) && slot != node && Some(slot)
            != nodes[node as int].parent && t.l().slots().contains(slot) && Some(slot)
            != t.r().top(),
        t.r() matches Tree::Node { slot, .. } ==> can_restructure(nodes, slot, t.r())
            && nodes[slot as int].parent == Some(node) && slot != node && Some(slot)
            != nodes[node as int].parent && t.r().slots().contains(slot),
        forall|i: usize| #[trigger] t.l().slots().contains(i) ==> t.slots().contains(i) && i != node,
        forall|i: usize| #[trigger] t.r().slots().contains(i) ==> t.slots().contains(i) && i != node,
        forall|i: usize| #[trigger] t.l().slots().contains(i) ==> !t.r().slots().contains(i),
        forall|i: usize| #[trigger] t.slots().contains(i) ==> i < nodes.len(),
{
    let parent = nodes[node as int].parent;
    lemma_slots_in_arena(nodes, t, parent);
    assert(linked(nodes, t.l(), Some(node)));
    assert(linked(nodes, t.r(), Some(node)));
    if t.l() is Node {
        assert(t.l().slots().contains(t.l()->slot));
    }
    if t.r() is Node {
        assert(t.r().slots().contains(t.r()->slot));
    }
}

/// Every slot outside `touched` holds in `after` what it held in `before`.
pub open spec fn same_outside<K>(
    before: Seq<TreeNode<K>>,
    after: Seq<TreeNode<K>>,
    touched: Set<usize>,
) -> bool {
    forall|j: usize| j < before.len() && !touched.contains(j) ==> after[j as int] == before[j as int]
}

/// What the removal of `value` from the subtree `t` at `node` leaves: the
/// tree `result` in place of `t`, with the keys of `t` less `value` and the
/// slots of `t` less `removed`, one black node short where `short` says so;
/// the root of the whole tree follows the top of `result` where `node` was
/// the root.
pub open spec fn removed_in_place<K: OrderedKey>(
    before: Seq<TreeNode<K>>,
    after: Seq<TreeNode<K>>,
    root_before: Option<usize>,
    root_after: Option<usize>,
    node: usize,
    t: ColorTree<K>,
    value: K,
    removed: usize,
    result: ColorTree<K>,
    short: bool,
) -> bool {
    &&& after.len() == before.len()
    &&& replaced_in_place(before, after, node, t.slots(), result)
    &&& t.slots().contains(removed)
    &&& t.leaving(value) == Some(removed)
    &&& result.slots() =~= t.slots().remove(removed)
    &&& shrunk(t, result, value, short)
    &&& (result, short) == with_deleted(t, value)
    &&& root_after == if before[node as int].parent is None {
        result.top()
    } else {
        root_before
    }
}

/// Before a deletion goes down from `node`: `value` can only be on the side
/// where its rank points, and both subtrees are valid.
pub proof fn lemma_descent_ready<K: OrderedKey>(t: ColorTree<K>, value: K)
    requires
        t is Node,
        is_rb(t),
    ensures
        is_rb(t.l()),
        is_rb(t.r()),
        value.rank() < (t->key).rank() ==> t.bag().count(value) == t.l().bag().count(value),
        value.rank() > (t->key).rank() ==> t.bag().count(value) == t.r().bag().count(value),
        value.rank() == (t->key).rank() ==> t.bag().count(value) == 1 && value == t->key,
        t.l() is Nil ==> t.l().bag().count(value) == 0,
        t.r() is Nil ==> t.r().bag().count(value) == 0,
{
    t.lemma_no_key_twice();
    if value.rank() < (t->key).rank() {
        assert(t.r().bag().count(value) == 0);
    }
    if value.rank() > (t->key).rank() {
        assert(t.l().bag().count(value) == 0);
    }
    if value.rank() == (t->key).rank() {
        K::rank_is_injective(value, t->key);
    }
}

/// A deletion in the subtree of `node` on the side of `value` leaves the
/// tree at `node` one node short, ready for the fix-up if the subtree came
/// back short, and finished otherwise.
pub proof fn lemma_removed_below<K: OrderedKey>(
    before: Seq<TreeNode<K>>,
    after: Seq<TreeNode<K>>,
    root_before: Option<usize>,
    root_after: Option<usize>,
    node: usize,
    t: ColorTree<K>,
    sub: ColorTree<K>,
    removed: usize,
    value: K,
    short: bool,
)
    requires
        can_restructure(before, node, t),
        is_rb(t),
        value.rank() != (t->key).rank(),
        toward(t, value) matches Tree::Node { slot, .. } && removed_in_place(
            before,
            after,
            root_before,
            root_after,
            slot,
            toward(t, value),
            value,
            removed,
            sub,
            short,
        ),
    ensures
        root_after == root_before,
        one_less(
            before,
            after,
            node,
            t,
            with_short(t, value.rank() < (t->key).rank(), sub),
            removed,
        ),
        short ==> is_short(with_short(t, value.rank() < (t->key).rank(), sub), value.rank() < (
        t->key).rank()),
        short ==> shrunk(
            t,
            mended(with_short(t, value.rank() < (t->key).rank(), sub), value.rank() < (t->key).rank()),
            value,
            still_short(
                with_short(t, value.rank() < (t->key).rank(), sub),
                value.rank() < (t->key).rank(),
            ),
        ),
        short ==> mended(
            with_short(t, value.rank() < (t->key).rank(), sub),
            value.rank() < (t->key).rank(),
        ).slots() =~= t.slots().remove(removed),
        !short ==> shrunk(t, with_short(t, value.rank() < (t->key).rank(), sub), value, false),
        with_deleted(t, value) == fixed(
            with_short(t, value.rank() < (t->key).rank(), sub),
            value.rank() < (t->key).rank(),
            short,
        ),
{
    let on_left = value.rank() < (t->key).rank();
    let m = with_short(t, on_left, sub);
    lemma_children_ready(before, node, t);
    lemma_descent_ready(t, value);
    lemma_one_less(before, after, node, t, sub, removed, on_left);
    lemma_less_below(t, sub, value, true);
    if short {
        lemma_delete_mends(t, m, value, on_left);
    } else {
        lemma_delete_passes(t, m, value, on_left);
    }
}

/// With the least key of the right subtree in `node` and that key removed
/// from the right subtree, the tree at `node` is one node short, by its old
/// key; ready for the fix-up if the right subtree came back short, and
/// finished otherwise.
pub proof fn lemma_removed_successor<K: OrderedKey>(
    before: Seq<TreeNode<K>>,
    swapped: Seq<TreeNode<K>>,
    after: Seq<TreeNode<K>>,
    root_before: Option<usize>,
    root_after: Option<usize>,
    node: usize,
    t: ColorTree<K>,
    sub: ColorTree<K>,
    removed: usize,
    short: bool,
)
    requires
        can_restructure(before, node, t),
        is_rb(t),
        t.l() is Node,
        t.r() is Node,
        swapped == before.update(
            node as int,
            (TreeNode { value: t.r().least(), ..before[node as int] }),
        ),
        removed_in_place(
            swapped,
            after,
            root_before,
            root_after,
            t.r()->slot,
            t.r(),
            t.r().least(),
            removed,
            sub,
            short,
        ),
    ensures
        root_after == root_before,
        one_less(before, after, node, t, t.with_key(t.r().least()).with_right(sub), removed),
        short ==> is_short(t.with_key(t.r().least()).with_right(sub), false),
        short ==> shrunk(
            t,
            mended(t.with_key(t.r().least()).with_right(sub), false),
            t->key,
            still_short(t.with_key(t.r().least()).with_right(sub), false),
        ),
        short ==> mended(t.with_key(t.r().least()).with_right(sub), false).slots()
            =~= t.slots().remove(removed),
        !short ==> shrunk(t, t.with_key(t.r().least()).with_right(sub), t->key, false),
        with_deleted(t, t->key) == fixed(t.with_key(t.r().least()).with_right(sub), false, short),
{
    let tk = t.with_key(t.r().least());
    let m = tk.with_right(sub);
    lemma_children_ready(before, node, t);
    lemma_descent_ready(t, t->key);
    lemma_key_swapped(before, swapped, node, t);
    lemma_one_less(swapped, after, node, tk, sub, removed, false);
    lemma_less_here(t, sub);
    assert forall|j: usize| j < before.len() && !t.slots().contains(j) implies after[j as int]
        == before[j as int] by {
        assert(!tk.slots().contains(j));
        assert(after[j as int] == swapped[j as int]);
    }
    if short {
        lemma_delete_mends(t, m, t->key, false);
    } else {
        lemma_delete_passes(t, m, t->key, false);
    }
}

/// After a deletion below `node` and the fix-up at `node`, the result
/// stands in place of the old subtree.
pub proof fn lemma_removal_done<K: OrderedKey>(
    before: Seq<TreeNode<K>>,
    mid: Seq<TreeNode<K>>,
    after: Seq<TreeNode<K>>,
    node: usize,
    t: ColorTree<K>,
    m: ColorTree<K>,
    removed: usize,
    result: ColorTree<K>,
)
    requires
        can_restructure(before, node, t),
        one_less(before, mid, node, t, m, removed),
        after.len() == mid.len(),
        replaced_in_place(mid, after, node, m.slots(), result),
    ensures
        replaced_in_place(before, after, node, t.slots(), result),
{
    let parent = before[node as int].parent;
    assert forall|j: usize|
        j < before.len() && !t.slots().contains(j) && Some(j) != parent implies after[j as int]
        == before[j as int] by {
        assert(!m.slots().contains(j));
        assert(mid[j as int] == before[j as int]);
    }
    if let Some(p) = parent {
        assert(mid[p as int] == before[p as int]);
    }
}

/// After a deletion below `node` that needs no fix-up, the tree at `node`
/// stands in place of the old one.
pub proof fn lemma_removal_kept<K: OrderedKey>(
    before: Seq<TreeNode<K>>,
    after: Seq<TreeNode<K>>,
    node: usize,
    t: ColorTree<K>,
    m: ColorTree<K>,
    removed: usize,
)
    requires
        can_restructure(before, node, t),
        one_less(before, after, node, t, m, removed),
    ensures
        replaced_in_place(before, after, node, t.slots(), m),
        m.top() == Some(node),
{
    let parent = before[node as int].parent;
    if let Some(p) = parent {
        assert(after[p as int] == before[p as int]);
    }
}

} // verus!
