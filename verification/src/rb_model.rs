//! The colour-balance discipline, stated on the model: the colour rules, the
//! recolourings and the rotations.

use vstd::prelude::*;
use crate::key::OrderedKey;
use crate::redblack_tree::NodeColor;
use crate::shape::{lemma_turned_left_keeps, lemma_turned_right_keeps, Tree};

verus! {

/// The model of a colour-balanced tree: the tag of a node is its colour.
pub type ColorTree<K> = Tree<K, NodeColor>;

/// The top node is red. An empty tree counts as black.
pub open spec fn is_red<K>(t: ColorTree<K>) -> bool {
    t matches Tree::Node { tag: NodeColor::Red, .. }
}

/// The number of black nodes on the leftmost path from the top down.
pub open spec fn black_height<K>(t: ColorTree<K>) -> nat
    decreases t,
{
    match t {
        Tree::Nil => 0,
        Tree::Node { left, tag, .. } => black_height(*left) + if tag is Black {
            1nat
        } else {
            0nat
        },
    }
}

/// At every node both subtrees have the same black height, so every path
/// from a node down to an empty position passes the same number of black
/// nodes.
pub open spec fn even_blacks<K>(t: ColorTree<K>) -> bool
    decreases t,
{
    match t {
        Tree::Nil => true,
        Tree::Node { left, right, .. } => {
            &&& black_height(*left) == black_height(*right)
            &&& even_blacks(*left)
            &&& even_blacks(*right)
        },
    }
}

/// No red node has a red child.
pub open spec fn no_red_red<K>(t: ColorTree<K>) -> bool
    decreases t,
{
    match t {
        Tree::Nil => true,
        Tree::Node { left, tag, right, .. } => {
            &&& tag is Red ==> !is_red(*left) && !is_red(*right)
            &&& no_red_red(*left)
            &&& no_red_red(*right)
        },
    }
}

/// The colour rules below the top: no red node has a red child and the
/// black heights agree.
pub open spec fn colors_ok<K>(t: ColorTree<K>) -> bool {
    &&& even_blacks(t)
    &&& no_red_red(t)
}

/// A valid subtree of a colour-balanced search tree: strictly ordered, with
/// the colour rules kept. Its top may be red.
pub open spec fn is_rb<K: OrderedKey>(t: ColorTree<K>) -> bool {
    &&& t.ordered(true)
    &&& colors_ok(t)
}

/// A valid colour-balanced search tree: a valid subtree with a black top.
pub open spec fn is_valid<K: OrderedKey>(t: ColorTree<K>) -> bool {
    &&& is_rb(t)
    &&& !is_red(t)
}

/// The other colour.
pub open spec fn opposite(color: NodeColor) -> NodeColor {
    match color {
        NodeColor::Red => NodeColor::Black,
        NodeColor::Black => NodeColor::Red,
    }
}

/// `t` with the given colours in its top node and in its two children.
pub open spec fn tinted<K>(
    t: ColorTree<K>,
    top: NodeColor,
    left: NodeColor,
    right: NodeColor,
) -> ColorTree<K> {
    t.with_tag(top).with_left(t.l().with_tag(left)).with_right(t.r().with_tag(right))
}

/// `m` with its top red and both children black.
pub open spec fn flipped<K>(m: ColorTree<K>) -> ColorTree<K> {
    m.with_tag(NodeColor::Red).with_left(m.l().with_tag(NodeColor::Black)).with_right(
        m.r().with_tag(NodeColor::Black),
    )
}

/// `m` with its top black and both children red.
pub open spec fn capped<K>(m: ColorTree<K>) -> ColorTree<K> {
    m.with_tag(NodeColor::Black).with_left(m.l().with_tag(NodeColor::Red)).with_right(
        m.r().with_tag(NodeColor::Red),
    )
}

/// `t` with the other colour in the child whose slot is `child`.
pub open spec fn flipped_below<K>(t: ColorTree<K>, child: usize) -> ColorTree<K> {
    if t.l().top() == Some(child) {
        t.with_left(t.l().with_tag(opposite(t.l()->tag)))
    } else {
        t.with_right(t.r().with_tag(opposite(t.r()->tag)))
    }
}

/// `t` after the left child of its right child has been lifted to the top,
/// between the former top on the left and the right child on the right.
pub open spec fn double_left<K>(t: ColorTree<K>) -> ColorTree<K> {
    t.with_right(t.r().turned_right()).turned_left()
}

/// `t` after the right child of its left child has been lifted to the top,
/// between the left child on the left and the former top on the right.
pub open spec fn double_right<K>(t: ColorTree<K>) -> ColorTree<K> {
    t.with_left(t.l().turned_left()).turned_right()
}

/// The four restructurings of the fix-up after a deletion: toward the left
/// or the right, lifting the sibling (outer) or the sibling's near child
/// (inner).
#[derive(Clone, Copy, Debug, PartialEq, Eq, Structural)]
pub enum Rotation {
    LeftInner,
    LeftOuter,
    RightInner,
    RightOuter,
}

/// What the rotation makes of `m`.
pub open spec fn rotated<K>(m: ColorTree<K>, rotation: Rotation) -> ColorTree<K> {
    match rotation {
        Rotation::LeftInner => double_left(m),
        Rotation::LeftOuter => m.turned_left(),
        Rotation::RightInner => double_right(m),
        Rotation::RightOuter => m.turned_right(),
    }
}

/// The rotation finds in `m` the nodes that it moves, and leaves a top node
/// with two children.
pub open spec fn fits<K>(m: ColorTree<K>, rotation: Rotation) -> bool {
    match rotation {
        Rotation::LeftInner => m.r().l() is Node,
        Rotation::LeftOuter => m.r().r() is Node,
        Rotation::RightInner => m.l().r() is Node,
        Rotation::RightOuter => m.l().l() is Node,
    }
}

/// Recolouring the top and its children changes neither keys nor slots.
pub proof fn lemma_tinted_keeps<K: OrderedKey>(
    m: ColorTree<K>,
    top: NodeColor,
    left: NodeColor,
    right: NodeColor,
)
    requires
        m is Node,
        m.l() is Node,
        m.r() is Node,
    ensures
        tinted(m, top, left, right).bag() =~= m.bag(),
        tinted(m, top, left, right).slots() =~= m.slots(),
        tinted(m, top, left, right).in_order() =~= m.in_order(),
        m.ordered(true) ==> tinted(m, top, left, right).ordered(true),
{
    reveal_with_fuel(Tree::ordered, 2);
    reveal_with_fuel(Tree::bag, 2);
    reveal_with_fuel(Tree::slots, 2);
    reveal_with_fuel(Tree::in_order, 2);
    assert(tinted(m, top, left, right).l().bag() =~= m.l().bag());
    assert(tinted(m, top, left, right).r().bag() =~= m.r().bag());
}

/// Recolouring changes neither keys nor slots.
pub proof fn lemma_recolored_keeps<K: OrderedKey>(m: ColorTree<K>)
    requires
        m is Node,
        m.l() is Node,
        m.r() is Node,
    ensures
        flipped(m).bag() =~= m.bag(),
        flipped(m).slots() =~= m.slots(),
        flipped(m).in_order() =~= m.in_order(),
        m.ordered(true) ==> flipped(m).ordered(true),
        capped(m).bag() =~= m.bag(),
        capped(m).slots() =~= m.slots(),
        capped(m).in_order() =~= m.in_order(),
        m.ordered(true) ==> capped(m).ordered(true),
{
    reveal_with_fuel(Tree::ordered, 2);
    reveal_with_fuel(Tree::bag, 2);
    reveal_with_fuel(Tree::slots, 2);
    reveal_with_fuel(Tree::in_order, 2);
    assert(flipped(m).l().bag() =~= m.l().bag());
    assert(flipped(m).r().bag() =~= m.r().bag());
    assert(capped(m).l().bag() =~= m.l().bag());
    assert(capped(m).r().bag() =~= m.r().bag());
}

/// The two double rotations keep the keys, their order and the slots.
pub proof fn lemma_double_keeps<K: OrderedKey>(t: ColorTree<K>)
    requires
        t is Node,
    ensures
        t.r().l() is Node ==> {
            &&& double_left(t).bag() =~= t.bag()
            &&& double_left(t).slots() =~= t.slots()
            &&& double_left(t).in_order() =~= t.in_order()
            &&& t.ordered(true) ==> double_left(t).ordered(true)
            &&& double_left(t) is Node
            &&& double_left(t).l() is Node
            &&& double_left(t).r() is Node
        },
        t.l().r() is Node ==> {
            &&& double_right(t).bag() =~= t.bag()
            &&& double_right(t).slots() =~= t.slots()
            &&& double_right(t).in_order() =~= t.in_order()
            &&& t.ordered(true) ==> double_right(t).ordered(true)
            &&& double_right(t) is Node
            &&& double_right(t).l() is Node
            &&& double_right(t).r() is Node
        },
{
    if t.r().l() is Node {
        let r = t.r();
        lemma_turned_right_keeps(r, true);
        let m = t.with_right(r.turned_right());
        assert(m.bag() =~= t.bag());
        assert(m.slots() =~= t.slots());
        assert(m.in_order() =~= t.in_order());
        if t.ordered(true) {
            assert(m.r().all_above(t->key, true));
            assert(m.ordered(true));
        }
        lemma_turned_left_keeps(m, true);
    }
    if t.l().r() is Node {
        let l = t.l();
        lemma_turned_left_keeps(l, true);
        let m = t.with_left(l.turned_left());
        assert(m.bag() =~= t.bag());
        assert(m.slots() =~= t.slots());
        assert(m.in_order() =~= t.in_order());
        if t.ordered(true) {
            assert(m.l().all_below(t->key, true));
            assert(m.ordered(true));
        }
        lemma_turned_right_keeps(m, true);
    }
}

/// A rotation keeps the keys, their order and the slots, and leaves a top
/// node with two children.
pub proof fn lemma_rotated_keeps<K: OrderedKey>(m: ColorTree<K>, rotation: Rotation)
    requires
        m is Node,
        fits(m, rotation),
    ensures
        rotated(m, rotation) is Node,
        rotated(m, rotation).l() is Node,
        rotated(m, rotation).r() is Node,
        rotated(m, rotation).bag() =~= m.bag(),
        rotated(m, rotation).slots() =~= m.slots(),
        rotated(m, rotation).in_order() =~= m.in_order(),
        m.ordered(true) ==> rotated(m, rotation).ordered(true),
{
    match rotation {
        Rotation::LeftInner => {
            lemma_double_keeps(m);
        },
        Rotation::LeftOuter => {
            lemma_turned_left_keeps(m, true);
        },
        Rotation::RightInner => {
            lemma_double_keeps(m);
        },
        Rotation::RightOuter => {
            lemma_turned_right_keeps(m, true);
        },
    }
}

/// The black height is at most the height, and so at most the size.
pub proof fn lemma_black_height_bounded<K>(t: ColorTree<K>)
    ensures
        black_height(t) <= t.height(),
        t.height() <= t.size(),
    decreases t,
{
    match t {
        Tree::Nil => {},
        Tree::Node { left, right, .. } => {
            lemma_black_height_bounded(*left);
            lemma_black_height_bounded(*right);
        },
    }
}

/// A subtree with at least one black node on its paths is not empty.
pub proof fn lemma_blacks_need_nodes<K>(t: ColorTree<K>)
    ensures
        black_height(t) > 0 ==> t is Node,
{
}

} // verus!
