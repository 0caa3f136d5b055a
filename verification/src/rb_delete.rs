//! Deletion from a colour-balanced tree, stated on the model: what the
//! fix-up does, and why it restores the colour rules.

use vstd::prelude::*;
use vstd::multiset::Multiset;
use crate::key::OrderedKey;
use crate::rb_model::{
    black_height, colors_ok, double_left, double_right, even_blacks, is_rb, is_red,
    lemma_blacks_need_nodes, lemma_double_keeps, lemma_tinted_keeps, no_red_red, tinted,
    ColorTree,
};
use crate::redblack_tree::NodeColor;
use crate::shape::{lemma_turned_left_keeps, lemma_turned_right_keeps, Tree};

verus! {

/// The subtree of `m` that lost a black node (the left one when `on_left`).
pub open spec fn short_side<K>(m: ColorTree<K>, on_left: bool) -> ColorTree<K> {
    if on_left {
        m.l()
    } else {
        m.r()
    }
}

/// The sibling of the short side.
pub open spec fn full_side<K>(m: ColorTree<K>, on_left: bool) -> ColorTree<K> {
    if on_left {
        m.r()
    } else {
        m.l()
    }
}

/// The child of the sibling that is nearer to the short side.
pub open spec fn near<K>(m: ColorTree<K>, on_left: bool) -> ColorTree<K> {
    if on_left {
        m.r().l()
    } else {
        m.l().r()
    }
}

/// The child of the sibling that is farther from the short side.
pub open spec fn far<K>(m: ColorTree<K>, on_left: bool) -> ColorTree<K> {
    if on_left {
        m.r().r()
    } else {
        m.l().l()
    }
}

/// The outer rotation: the sibling is lifted over the top of `m`, toward
/// the short side.
pub open spec fn lifted_once<K>(m: ColorTree<K>, on_left: bool) -> ColorTree<K> {
    if on_left {
        m.turned_left()
    } else {
        m.turned_right()
    }
}

/// The inner rotation: the near child of the sibling is lifted over the
/// sibling and the top of `m`.
pub open spec fn lifted_twice<K>(m: ColorTree<K>, on_left: bool) -> ColorTree<K> {
    if on_left {
        double_left(m)
    } else {
        double_right(m)
    }
}

/// `m` with the colour `color` in its sibling on the full side.
pub open spec fn with_sibling<K>(m: ColorTree<K>, on_left: bool, color: NodeColor) -> ColorTree<K> {
    if on_left {
        m.with_right(m.r().with_tag(color))
    } else {
        m.with_left(m.l().with_tag(color))
    }
}

/// `m` with `sub` on the short side.
pub open spec fn with_short<K>(m: ColorTree<K>, on_left: bool, sub: ColorTree<K>) -> ColorTree<K> {
    if on_left {
        m.with_left(sub)
    } else {
        m.with_right(sub)
    }
}

/// What the fix-up after a deletion finds: the subtree of `m` on one side
/// has one black node fewer on its paths than the other and a black top;
/// both subtrees keep the colour rules, and a red top has a black sibling
/// on the full side.
pub open spec fn is_short<K>(m: ColorTree<K>, on_left: bool) -> bool {
    &&& m is Node
    &&& colors_ok(m.l())
    &&& colors_ok(m.r())
    &&& black_height(short_side(m, on_left)) + 1 == black_height(full_side(m, on_left))
    &&& !is_red(short_side(m, on_left))
    &&& is_red(m) ==> !is_red(full_side(m, on_left))
}

/// The black height that `m` had before its short side lost a black node.
pub open spec fn full_height<K>(m: ColorTree<K>, on_left: bool) -> nat {
    black_height(full_side(m, on_left)) + if is_red(m) {
        0nat
    } else {
        1nat
    }
}

/// The fix-up below a black sibling. With two black nephews the sibling
/// turns red, and a red top turns black. With a red near nephew that nephew
/// is lifted to the top by the inner rotation; otherwise, with a red far
/// nephew, the sibling is lifted by the outer rotation. The new top takes
/// the colour of the old one, and its two children are black.
pub open spec fn mended_plain<K>(m: ColorTree<K>, on_left: bool) -> ColorTree<K> {
    if !is_red(near(m, on_left)) && !is_red(far(m, on_left)) {
        with_sibling(m, on_left, NodeColor::Red).with_tag(NodeColor::Black)
    } else if is_red(near(m, on_left)) {
        tinted(lifted_twice(m, on_left), m->tag, NodeColor::Black, NodeColor::Black)
    } else {
        tinted(lifted_once(m, on_left), m->tag, NodeColor::Black, NodeColor::Black)
    }
}

/// The tree after the outer rotation below a black top with a red sibling:
/// the sibling on top, black, and the old top below it on the short side,
/// red.
pub open spec fn sibling_lifted<K>(m: ColorTree<K>, on_left: bool) -> ColorTree<K> {
    if on_left {
        tinted(m.turned_left(), NodeColor::Black, NodeColor::Red, NodeColor::Black)
    } else {
        tinted(m.turned_right(), NodeColor::Black, NodeColor::Black, NodeColor::Red)
    }
}

/// What the fix-up after a deletion makes of `m`. Below a black top with a
/// red sibling, the sibling is lifted first and the fix-up runs again one
/// step lower, where the sibling is black.
pub open spec fn mended<K>(m: ColorTree<K>, on_left: bool) -> ColorTree<K> {
    if !is_red(m) && is_red(full_side(m, on_left)) {
        let lifted = sibling_lifted(m, on_left);
        with_short(lifted, on_left, mended_plain(short_side(lifted, on_left), on_left))
    } else {
        mended_plain(m, on_left)
    }
}

/// Whether the fix-up leaves `m` itself one black node short: below a black
/// top with a black sibling and two black nephews.
pub open spec fn still_short<K>(m: ColorTree<K>, on_left: bool) -> bool {
    &&& !is_red(m)
    &&& !is_red(full_side(m, on_left))
    &&& !is_red(near(m, on_left))
    &&& !is_red(far(m, on_left))
}

/// The subtree `m`, one black node short on one side if `short` says so,
/// after the fix-up has run where it is needed; and whether the result is
/// one black node short itself.
pub open spec fn fixed<K>(m: ColorTree<K>, on_left: bool, short: bool) -> (ColorTree<K>, bool) {
    if short {
        (mended(m, on_left), still_short(m, on_left))
    } else {
        (m, false)
    }
}

/// What a deletion of `value` makes of the subtree `t`, and whether the
/// result is one black node short. Without `value`, `t` stays as it is. The
/// node with `value` hands its place to its only child, which turns black;
/// or, without children, leaves an empty place, one black node short if it
/// was black; or, with two children, takes the least key of its right
/// subtree, and that key is deleted there. The fix-up runs on the way back
/// up wherever the subtree below came back short.
pub open spec fn with_deleted<K: OrderedKey>(t: ColorTree<K>, value: K) -> (ColorTree<K>, bool)
    decreases t,
{
    match t {
        Tree::Nil => (Tree::Nil, false),
        Tree::Node { left, key, right, .. } => if t.bag().count(value) == 0 {
            (t, false)
        } else if value.rank() < key.rank() {
            let below = with_deleted(*left, value);
            fixed(t.with_left(below.0), true, below.1)
        } else if value.rank() > key.rank() {
            let below = with_deleted(*right, value);
            fixed(t.with_right(below.0), false, below.1)
        } else if *left is Node && *right is Node {
            let below = with_deleted(*right, right.least());
            fixed(t.with_key(right.least()).with_right(below.0), false, below.1)
        } else if *left is Node || *right is Node {
            (t.only_child().with_tag(NodeColor::Black), false)
        } else {
            (Tree::Nil, !is_red(t))
        },
    }
}

/// What a deletion of `value` makes of a valid subtree `t`: the tree `g`
/// with one key fewer, which keeps the colour rules and has a black top
/// where `t` had one. Its black height is that of `t`, or one less where
/// `short` says so; then the top of `t` was black.
pub open spec fn shrunk<K: OrderedKey>(
    t: ColorTree<K>,
    g: ColorTree<K>,
    value: K,
    short: bool,
) -> bool {
    &&& g.ordered(true)
    &&& t.bag().count(value) == 1
    &&& g.bag() =~= t.bag().remove(value)
    &&& colors_ok(g)
    &&& !is_red(t) ==> !is_red(g)
    &&& short ==> !is_red(t) && black_height(g) + 1 == black_height(t)
    &&& !short ==> black_height(g) == black_height(t)
}

/// The fix-up below a black sibling with a red near nephew, where the
/// left subtree is short, restores the colour rules and the black height.
proof fn lemma_mended_near_left<K: OrderedKey>(m: ColorTree<K>)
    requires
        is_short(m, true),
        !is_red(full_side(m, true)),
        is_red(near(m, true)),
    ensures
        colors_ok(tinted(double_left(m), m->tag, NodeColor::Black, NodeColor::Black)),
        black_height(tinted(double_left(m), m->tag, NodeColor::Black, NodeColor::Black)) == full_height(m, true),
        !is_red(m) ==> !is_red(tinted(double_left(m), m->tag, NodeColor::Black, NodeColor::Black)),
{
    reveal_with_fuel(black_height, 4);
    reveal_with_fuel(even_blacks, 4);
    reveal_with_fuel(no_red_red, 4);
}

/// The fix-up below a black sibling with a red near nephew, where the
/// right subtree is short, restores the colour rules and the black height.
proof fn lemma_mended_near_right<K: OrderedKey>(m: ColorTree<K>)
    requires
        is_short(m, false),
        !is_red(full_side(m, false)),
        is_red(near(m, false)),
    ensures
        colors_ok(tinted(double_right(m), m->tag, NodeColor::Black, NodeColor::Black)),
        black_height(tinted(double_right(m), m->tag, NodeColor::Black, NodeColor::Black)) == full_height(m, false),
        !is_red(m) ==> !is_red(tinted(double_right(m), m->tag, NodeColor::Black, NodeColor::Black)),
{
    reveal_with_fuel(black_height, 4);
    reveal_with_fuel(even_blacks, 4);
    reveal_with_fuel(no_red_red, 4);
}

/// The fix-up below a black sibling with a red far nephew, where the
/// left subtree is short, restores the colour rules and the black height.
proof fn lemma_mended_far_left<K: OrderedKey>(m: ColorTree<K>)
    requires
        is_short(m, true),
        !is_red(full_side(m, true)),
        !is_red(near(m, true)) && is_red(far(m, true)),
    ensures
        colors_ok(tinted(m.turned_left(), m->tag, NodeColor::Black, NodeColor::Black)),
        black_height(tinted(m.turned_left(), m->tag, NodeColor::Black, NodeColor::Black)) == full_height(m, true),
        !is_red(m) ==> !is_red(tinted(m.turned_left(), m->tag, NodeColor::Black, NodeColor::Black)),
{
    reveal_with_fuel(black_height, 4);
    reveal_with_fuel(even_blacks, 4);
    reveal_with_fuel(no_red_red, 4);
}

/// The fix-up below a black sibling with a red far nephew, where the
/// right subtree is short, restores the colour rules and the black height.
proof fn lemma_mended_far_right<K: OrderedKey>(m: ColorTree<K>)
    requires
        is_short(m, false),
        !is_red(full_side(m, false)),
        !is_red(near(m, false)) && is_red(far(m, false)),
    ensures
        colors_ok(tinted(m.turned_right(), m->tag, NodeColor::Black, NodeColor::Black)),
        black_height(tinted(m.turned_right(), m->tag, NodeColor::Black, NodeColor::Black)) == full_height(m, false),
        !is_red(m) ==> !is_red(tinted(m.turned_right(), m->tag, NodeColor::Black, NodeColor::Black)),
{
    reveal_with_fuel(black_height, 4);
    reveal_with_fuel(even_blacks, 4);
    reveal_with_fuel(no_red_red, 4);
}

/// The fix-up below a black sibling with two black nephews restores the
/// colour rules; below a black top the subtree stays one black node short.
proof fn lemma_mended_recolored<K: OrderedKey>(m: ColorTree<K>, on_left: bool)
    requires
        is_short(m, on_left),
        !is_red(full_side(m, on_left)),
        !is_red(near(m, on_left)),
        !is_red(far(m, on_left)),
    ensures
        colors_ok(with_sibling(m, on_left, NodeColor::Red).with_tag(NodeColor::Black)),
        black_height(with_sibling(m, on_left, NodeColor::Red).with_tag(NodeColor::Black)) + (
        if is_red(m) {
            0nat
        } else {
            1nat
        }) == full_height(m, on_left),
{
    reveal_with_fuel(black_height, 3);
    reveal_with_fuel(even_blacks, 3);
    reveal_with_fuel(no_red_red, 3);
}

/// The fix-up below a black sibling restores the colour rules. It restores
/// the black height too, except below a black top with two black nephews.
pub proof fn lemma_mended_plain_colors<K: OrderedKey>(m: ColorTree<K>, on_left: bool)
    requires
        is_short(m, on_left),
        !is_red(full_side(m, on_left)),
    ensures
        colors_ok(mended_plain(m, on_left)),
        still_short(m, on_left) ==> black_height(mended_plain(m, on_left)) + 1 == full_height(
            m,
            on_left,
        ),
        !still_short(m, on_left) ==> black_height(mended_plain(m, on_left)) == full_height(
            m,
            on_left,
        ),
        !is_red(m) ==> !is_red(mended_plain(m, on_left)),
{
    if !is_red(near(m, on_left)) && !is_red(far(m, on_left)) {
        lemma_mended_recolored(m, on_left);
    } else if is_red(near(m, on_left)) {
        if on_left {
            lemma_mended_near_left(m);
        } else {
            lemma_mended_near_right(m);
        }
    } else {
        if on_left {
            lemma_mended_far_left(m);
        } else {
            lemma_mended_far_right(m);
        }
    }
}

/// After the sibling has been lifted, the old top is red, one step lower,
/// and still one black node short on the same side, now next to a black
/// sibling.
pub proof fn lemma_sibling_lifted<K: OrderedKey>(m: ColorTree<K>, on_left: bool)
    requires
        is_short(m, on_left),
        !is_red(m),
        is_red(full_side(m, on_left)),
    ensures
        sibling_lifted(m, on_left) is Node,
        !is_red(sibling_lifted(m, on_left)),
        is_red(short_side(sibling_lifted(m, on_left), on_left)),
        is_short(short_side(sibling_lifted(m, on_left), on_left), on_left),
        !is_red(full_side(short_side(sibling_lifted(m, on_left), on_left), on_left)),
        !still_short(short_side(sibling_lifted(m, on_left), on_left), on_left),
        colors_ok(full_side(sibling_lifted(m, on_left), on_left)),
        black_height(full_side(sibling_lifted(m, on_left), on_left)) == full_height(
            short_side(sibling_lifted(m, on_left), on_left),
            on_left,
        ),
        black_height(full_side(sibling_lifted(m, on_left), on_left)) + 1 == full_height(m, on_left),
        far(m, on_left) is Node,
        near(m, on_left) is Node,
{
    reveal_with_fuel(black_height, 3);
    reveal_with_fuel(even_blacks, 3);
    reveal_with_fuel(no_red_red, 3);
}

/// The fix-up restores the colour rules. It restores the black height too,
/// except below a black top with a black sibling and two black nephews.
pub proof fn lemma_mended_colors<K: OrderedKey>(m: ColorTree<K>, on_left: bool)
    requires
        is_short(m, on_left),
    ensures
        colors_ok(mended(m, on_left)),
        still_short(m, on_left) ==> black_height(mended(m, on_left)) + 1 == full_height(
            m,
            on_left,
        ),
        !still_short(m, on_left) ==> black_height(mended(m, on_left)) == full_height(m, on_left),
        !is_red(m) ==> !is_red(mended(m, on_left)),
{
    if !is_red(m) && is_red(full_side(m, on_left)) {
        let lifted = sibling_lifted(m, on_left);
        let low = short_side(lifted, on_left);
        lemma_sibling_lifted(m, on_left);
        lemma_mended_plain_colors(low, on_left);
        let fixed = mended_plain(low, on_left);
        let whole = with_short(lifted, on_left, fixed);
        assert(colors_ok(whole) && black_height(whole) == full_height(m, on_left)) by {
            reveal_with_fuel(black_height, 2);
            reveal_with_fuel(even_blacks, 2);
            reveal_with_fuel(no_red_red, 2);
        }
    } else {
        lemma_mended_plain_colors(m, on_left);
    }
}

/// The fix-up below a black sibling keeps the keys, their order and the
/// slots.
pub proof fn lemma_mended_plain_keeps<K: OrderedKey>(m: ColorTree<K>, on_left: bool)
    requires
        m is Node,
        full_side(m, on_left) is Node,
    ensures
        mended_plain(m, on_left) is Node,
        mended_plain(m, on_left).bag() =~= m.bag(),
        mended_plain(m, on_left).slots() =~= m.slots(),
        mended_plain(m, on_left).in_order() =~= m.in_order(),
        m.ordered(true) ==> mended_plain(m, on_left).ordered(true),
{
    if !is_red(near(m, on_left)) && !is_red(far(m, on_left)) {
        reveal_with_fuel(Tree::ordered, 2);
        reveal_with_fuel(Tree::bag, 2);
        reveal_with_fuel(Tree::slots, 2);
        reveal_with_fuel(Tree::in_order, 2);
        let s = full_side(m, on_left);
        assert(s.with_tag(NodeColor::Red).bag() =~= s.bag());
    } else if is_red(near(m, on_left)) {
        lemma_double_keeps(m);
        lemma_tinted_keeps(lifted_twice(m, on_left), m->tag, NodeColor::Black, NodeColor::Black);
    } else {
        if on_left {
            lemma_turned_left_keeps(m, true);
        } else {
            lemma_turned_right_keeps(m, true);
        }
        let r = lifted_once(m, on_left);
        assert(r.l() is Node && r.r() is Node);
        lemma_tinted_keeps(r, m->tag, NodeColor::Black, NodeColor::Black);
    }
}

/// Lifting a red sibling keeps the keys, their order and the slots.
pub proof fn lemma_sibling_lifted_keeps<K: OrderedKey>(m: ColorTree<K>, on_left: bool)
    requires
        m is Node,
        full_side(m, on_left) is Node,
        far(m, on_left) is Node,
    ensures
        sibling_lifted(m, on_left) is Node,
        short_side(sibling_lifted(m, on_left), on_left) is Node,
        sibling_lifted(m, on_left).bag() =~= m.bag(),
        sibling_lifted(m, on_left).slots() =~= m.slots(),
        sibling_lifted(m, on_left).in_order() =~= m.in_order(),
        m.ordered(true) ==> sibling_lifted(m, on_left).ordered(true),
{
    if on_left {
        lemma_turned_left_keeps(m, true);
        lemma_tinted_keeps(m.turned_left(), NodeColor::Black, NodeColor::Red, NodeColor::Black);
    } else {
        lemma_turned_right_keeps(m, true);
        lemma_tinted_keeps(m.turned_right(), NodeColor::Black, NodeColor::Black, NodeColor::Red);
    }
}

/// Replacing the subtree on one side by one with the same keys keeps the
/// keys of the whole tree and their order.
pub proof fn lemma_with_short_keeps<K: OrderedKey>(
    m: ColorTree<K>,
    on_left: bool,
    sub: ColorTree<K>,
)
    requires
        m is Node,
        sub.bag() =~= short_side(m, on_left).bag(),
        sub.slots() =~= short_side(m, on_left).slots(),
        sub.in_order() =~= short_side(m, on_left).in_order(),
        m.ordered(true) ==> sub.ordered(true),
    ensures
        with_short(m, on_left, sub).bag() =~= m.bag(),
        with_short(m, on_left, sub).slots() =~= m.slots(),
        with_short(m, on_left, sub).in_order() =~= m.in_order(),
        m.ordered(true) ==> with_short(m, on_left, sub).ordered(true),
{
}

/// The fix-up keeps the keys, their order and the slots.
pub proof fn lemma_mended_keeps<K: OrderedKey>(m: ColorTree<K>, on_left: bool)
    requires
        is_short(m, on_left),
    ensures
        mended(m, on_left) is Node,
        mended(m, on_left).bag() =~= m.bag(),
        mended(m, on_left).slots() =~= m.slots(),
        mended(m, on_left).in_order() =~= m.in_order(),
        m.ordered(true) ==> mended(m, on_left).ordered(true),
{
    lemma_blacks_need_nodes(full_side(m, on_left));
    if !is_red(m) && is_red(full_side(m, on_left)) {
        let lifted = sibling_lifted(m, on_left);
        let low = short_side(lifted, on_left);
        lemma_sibling_lifted(m, on_left);
        lemma_sibling_lifted_keeps(m, on_left);
        lemma_blacks_need_nodes(full_side(low, on_left));
        lemma_mended_plain_keeps(low, on_left);
        if lifted.ordered(true) {
            assert(low.ordered(true));
        }
        lemma_with_short_keeps(lifted, on_left, mended_plain(low, on_left));
    } else {
        lemma_mended_plain_keeps(m, on_left);
    }
}

/// One step of a deletion on the way back up, where the subtree below came
/// back short: `m` is `t` with that subtree in place of the old one (and
/// perhaps another key on top). The fix-up at `m` gives what a deletion
/// from `t` owes.
pub proof fn lemma_delete_mends<K: OrderedKey>(
    t: ColorTree<K>,
    m: ColorTree<K>,
    value: K,
    on_left: bool,
)
    requires
        t is Node,
        m is Node,
        colors_ok(t),
        m->tag == t->tag,
        full_side(m, on_left) == full_side(t, on_left),
        colors_ok(short_side(m, on_left)),
        !is_red(short_side(m, on_left)),
        black_height(short_side(m, on_left)) + 1 == black_height(short_side(t, on_left)),
        m.ordered(true),
        t.bag().count(value) == 1,
        m.bag() =~= t.bag().remove(value),
    ensures
        is_short(m, on_left),
        shrunk(t, mended(m, on_left), value, still_short(m, on_left)),
        mended(m, on_left).slots() =~= m.slots(),
        mended(m, on_left) is Node,
{
    assert(is_short(m, on_left));
    lemma_mended_colors(m, on_left);
    lemma_mended_keeps(m, on_left);
}

/// One step of a deletion on the way back up, where the subtree below came
/// back with its black height kept.
pub proof fn lemma_delete_passes<K: OrderedKey>(
    t: ColorTree<K>,
    m: ColorTree<K>,
    value: K,
    on_left: bool,
)
    requires
        t is Node,
        m is Node,
        colors_ok(t),
        m->tag == t->tag,
        full_side(m, on_left) == full_side(t, on_left),
        colors_ok(short_side(m, on_left)),
        !is_red(short_side(t, on_left)) ==> !is_red(short_side(m, on_left)),
        black_height(short_side(m, on_left)) == black_height(short_side(t, on_left)),
        m.ordered(true),
        t.bag().count(value) == 1,
        m.bag() =~= t.bag().remove(value),
    ensures
        shrunk(t, m, value, false),
{
}

/// Taking a node with at most one child out of a valid subtree: an only
/// child is a red leaf below a black node and takes its place, black; a
/// node without children leaves nothing, and the subtree is short if the
/// node was black.
pub proof fn lemma_taken_out<K: OrderedKey>(t: ColorTree<K>)
    requires
        t is Node,
        is_rb(t),
        t.l() is Nil || t.r() is Nil,
    ensures
        t.l() is Node || t.r() is Node ==> shrunk(
            t,
            (if t.l() is Node {
                t.l()
            } else {
                t.r()
            }).with_tag(NodeColor::Black),
            t->key,
            false,
        ),
        t.l() is Nil && t.r() is Nil ==> shrunk(t, Tree::Nil, t->key, !is_red(t)),
{
    reveal_with_fuel(black_height, 3);
    reveal_with_fuel(even_blacks, 3);
    reveal_with_fuel(no_red_red, 3);
    reveal_with_fuel(Tree::ordered, 2);
    reveal_with_fuel(Tree::bag, 2);
    t.lemma_no_key_twice();
    let sub = if t.l() is Node {
        t.l()
    } else {
        t.r()
    };
    let other = if t.l() is Node {
        t.r()
    } else {
        t.l()
    };
    assert(other.bag() =~= Multiset::empty());
    assert(t.bag().count(t->key) == 1);
    assert(sub.bag() =~= t.bag().remove(t->key));
    assert(sub.with_tag(NodeColor::Black).bag() =~= sub.bag());
}

} // verus!
