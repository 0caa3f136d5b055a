//! Insertion into a colour-balanced tree, stated on the model: what the
//! fix-up does, and why it restores the colour rules.

use vstd::prelude::*;
use vstd::multiset::Multiset;
use crate::key::OrderedKey;
use crate::rb_model::{
    black_height, capped, colors_ok, double_left, double_right, even_blacks, flipped, is_rb,
    is_red, lemma_double_keeps, lemma_recolored_keeps, no_red_red, ColorTree,
};
use crate::redblack_tree::NodeColor;
use crate::shape::{lemma_turned_left_keeps, lemma_turned_right_keeps, Tree};

verus! {

/// The subtree of `m` into which `value` goes.
pub open spec fn toward<K: OrderedKey>(m: ColorTree<K>, value: K) -> ColorTree<K> {
    if value.rank() < (m->key).rank() {
        m.l()
    } else {
        m.r()
    }
}

/// The subtree of `m` into which `value` does not go.
pub open spec fn away_from<K: OrderedKey>(m: ColorTree<K>, value: K) -> ColorTree<K> {
    if value.rank() < (m->key).rank() {
        m.r()
    } else {
        m.l()
    }
}

/// The tree with a single red node.
pub open spec fn red_leaf<K>(slot: usize, key: K) -> ColorTree<K> {
    Tree::node(Tree::Nil, slot, key, NodeColor::Red, Tree::Nil)
}

/// What the fix-up after an insertion of `value` makes of the subtree `m`,
/// seen from its top as the grandparent. Where the child toward `value` and
/// that child's child toward `value` are both red: with a red child on the
/// other side, the three colours flip; otherwise the three nodes on the
/// path are reordered so that the middle key is on top, black, over two red
/// children. Otherwise `m` stays as it is.
pub open spec fn settled<K: OrderedKey>(m: ColorTree<K>, value: K) -> ColorTree<K> {
    let p = toward(m, value);
    if is_red(p) && is_red(toward(p, value)) {
        if is_red(away_from(m, value)) {
            flipped(m)
        } else if value.rank() < (m->key).rank() {
            if value.rank() < (p->key).rank() {
                capped(m.turned_right())
            } else {
                capped(double_right(m))
            }
        } else {
            if value.rank() < (p->key).rank() {
                capped(double_left(m))
            } else {
                capped(m.turned_left())
            }
        }
    } else {
        m
    }
}

/// What an insertion of `value` in a node in slot `slot` makes of the
/// subtree `t`. With `value`, `t` stays as it is. Otherwise a red node with
/// `value` hangs where the search for `value` ends, and the fix-up runs at
/// every node on the way back up.
pub open spec fn with_inserted<K: OrderedKey>(
    t: ColorTree<K>,
    slot: usize,
    value: K,
) -> ColorTree<K>
    decreases t,
{
    match t {
        Tree::Nil => red_leaf(slot, value),
        Tree::Node { left, key, right, .. } => if t.bag().count(value) > 0 {
            t
        } else if value.rank() < key.rank() {
            settled(t.with_left(with_inserted(*left, slot, value)), value)
        } else {
            settled(t.with_right(with_inserted(*right, slot, value)), value)
        },
    }
}

/// What an insertion of `value` makes of a valid subtree `t`: the tree `g`
/// with one more key and the same black height. Below the top of `g` the
/// colour rules hold. Where the top of `t` was black they hold at the top
/// too; where it was red, the top of `g` is red as well and only its child
/// toward `value` may be red.
pub open spec fn grown<K: OrderedKey>(t: ColorTree<K>, g: ColorTree<K>, value: K) -> bool {
    &&& g is Node
    &&& g.ordered(true)
    &&& g.bag() =~= t.bag().insert(value)
    &&& even_blacks(g)
    &&& black_height(g) == black_height(t)
    &&& no_red_red(g.l())
    &&& no_red_red(g.r())
    &&& !is_red(t) ==> no_red_red(g)
    &&& is_red(t) ==> is_red(g) && g->key == t->key && !is_red(away_from(g, value))
}

/// A single red node is what an insertion makes of the empty tree.
pub proof fn lemma_red_leaf<K: OrderedKey>(slot: usize, key: K)
    ensures
        grown(Tree::Nil, red_leaf(slot, key), key),
        colors_ok(red_leaf(slot, key)),
        red_leaf(slot, key).slots() =~= Set::empty().insert(slot),
        red_leaf(slot, key).bag() =~= Multiset::empty().insert(key),
        red_leaf(slot, key).size() == 1,
        red_leaf(slot, key).ordered(true),
{
    reveal_with_fuel(Tree::slots, 2);
    reveal_with_fuel(Tree::bag, 2);
    reveal_with_fuel(Tree::size, 2);
    reveal_with_fuel(Tree::ordered, 2);
    reveal_with_fuel(black_height, 2);
    reveal_with_fuel(even_blacks, 2);
    reveal_with_fuel(no_red_red, 2);
}

/// The fix-up keeps the keys, their order and the slots.
pub proof fn lemma_settled_keeps<K: OrderedKey>(m: ColorTree<K>, value: K)
    requires
        m is Node,
    ensures
        settled(m, value) is Node,
        settled(m, value).bag() =~= m.bag(),
        settled(m, value).slots() =~= m.slots(),
        settled(m, value).in_order() =~= m.in_order(),
        m.ordered(true) ==> settled(m, value).ordered(true),
{
    let p = toward(m, value);
    if is_red(p) && is_red(toward(p, value)) {
        if is_red(away_from(m, value)) {
            lemma_recolored_keeps(m);
        } else if value.rank() < (m->key).rank() {
            if value.rank() < (p->key).rank() {
                lemma_turned_right_keeps(m, true);
                lemma_recolored_keeps(m.turned_right());
            } else {
                lemma_double_keeps(m);
                lemma_recolored_keeps(double_right(m));
            }
        } else {
            if value.rank() < (p->key).rank() {
                lemma_double_keeps(m);
                lemma_recolored_keeps(double_left(m));
            } else {
                lemma_turned_left_keeps(m, true);
                lemma_recolored_keeps(m.turned_left());
            }
        }
    }
}

/// What the fix-up finds where it acts: a black top `m` over a red child
/// toward `value` with a red child of its own toward `value`; below these
/// the colour rules hold, the other child of the red child is black, and
/// the black heights agree throughout.
pub open spec fn red_pair<K: OrderedKey>(m: ColorTree<K>, value: K) -> bool {
    let p = toward(m, value);
    let x = toward(p, value);
    &&& m is Node
    &&& !is_red(m)
    &&& is_red(p)
    &&& is_red(x)
    &&& !is_red(away_from(p, value))
    &&& even_blacks(m)
    &&& no_red_red(x)
    &&& no_red_red(away_from(p, value))
    &&& no_red_red(away_from(m, value))
}

/// Flipping the colours of a black top and its two red children restores
/// the colour rules below the top and keeps the black height.
pub proof fn lemma_flipped_colors<K: OrderedKey>(m: ColorTree<K>, value: K)
    requires
        red_pair(m, value),
        is_red(away_from(m, value)),
    ensures
        colors_ok(flipped(m)),
        black_height(flipped(m)) == black_height(m),
{
    reveal_with_fuel(black_height, 3);
    reveal_with_fuel(even_blacks, 3);
    reveal_with_fuel(no_red_red, 3);
}

/// Reordering a red pair below a black top with a black child on the other
/// side, by a single rotation, restores the colour rules and keeps the
/// black height.
pub proof fn lemma_capped_single<K: OrderedKey>(m: ColorTree<K>, value: K)
    requires
        red_pair(m, value),
        !is_red(away_from(m, value)),
        (value.rank() < (m->key).rank()) == (value.rank() < (toward(m, value)->key).rank()),
    ensures
        value.rank() < (m->key).rank() ==> colors_ok(capped(m.turned_right())) && black_height(
            capped(m.turned_right()),
        ) == black_height(m),
        value.rank() >= (m->key).rank() ==> colors_ok(capped(m.turned_left())) && black_height(
            capped(m.turned_left()),
        ) == black_height(m),
{
    reveal_with_fuel(black_height, 3);
    reveal_with_fuel(even_blacks, 3);
    reveal_with_fuel(no_red_red, 3);
}

/// Reordering a red pair below a black top with a black child on the other
/// side, by a double rotation, restores the colour rules and keeps the
/// black height.
pub proof fn lemma_capped_double<K: OrderedKey>(m: ColorTree<K>, value: K)
    requires
        red_pair(m, value),
        !is_red(away_from(m, value)),
        (value.rank() < (m->key).rank()) != (value.rank() < (toward(m, value)->key).rank()),
    ensures
        value.rank() < (m->key).rank() ==> colors_ok(capped(double_right(m))) && black_height(
            capped(double_right(m)),
        ) == black_height(m),
        value.rank() >= (m->key).rank() ==> colors_ok(capped(double_left(m))) && black_height(
            capped(double_left(m)),
        ) == black_height(m),
{
    reveal_with_fuel(black_height, 4);
    reveal_with_fuel(even_blacks, 4);
    reveal_with_fuel(no_red_red, 4);
}

/// The fix-up restores the colour rules as far as `grown` asks.
pub proof fn lemma_settled_colors<K: OrderedKey>(t: ColorTree<K>, m: ColorTree<K>, value: K)
    requires
        t is Node,
        m is Node,
        colors_ok(t),
        m->tag == t->tag,
        away_from(m, value) == away_from(t, value),
        toward(m, value) is Node,
        even_blacks(toward(m, value)),
        black_height(toward(m, value)) == black_height(toward(t, value)),
        no_red_red(toward(m, value).l()),
        no_red_red(toward(m, value).r()),
        !is_red(toward(t, value)) ==> no_red_red(toward(m, value)),
        is_red(toward(t, value)) ==> is_red(toward(m, value)) && !is_red(
            away_from(toward(m, value), value),
        ),
    ensures
        even_blacks(settled(m, value)),
        black_height(settled(m, value)) == black_height(t),
        no_red_red(settled(m, value).l()),
        no_red_red(settled(m, value).r()),
        !is_red(t) ==> no_red_red(settled(m, value)),
        is_red(t) ==> settled(m, value) == m && !is_red(away_from(m, value)),
{
    let p = toward(m, value);
    let x = toward(p, value);
    assert(even_blacks(m) && black_height(m) == black_height(t));
    if is_red(p) && is_red(x) {
        assert(!is_red(t));
        assert(red_pair(m, value));
        if is_red(away_from(m, value)) {
            lemma_flipped_colors(m, value);
        } else if (value.rank() < (m->key).rank()) == (value.rank() < (p->key).rank()) {
            lemma_capped_single(m, value);
        } else {
            lemma_capped_double(m, value);
        }
    } else {
        assert(no_red_red(p));
        assert(no_red_red(away_from(m, value)));
        assert(no_red_red(m.l()) && no_red_red(m.r()));
    }
}

/// One step of an insertion on the way back up: `sub` is what the insertion
/// made of the subtree of `t` toward `value`, and `m` is `t` with `sub` on
/// that side. The fix-up at `m` gives what an insertion into `t` owes.
pub proof fn lemma_insert_settles<K: OrderedKey>(
    t: ColorTree<K>,
    sub: ColorTree<K>,
    value: K,
    m: ColorTree<K>,
)
    requires
        t is Node,
        is_rb(t),
        value.rank() != (t->key).rank(),
        grown(toward(t, value), sub, value),
        m == if value.rank() < (t->key).rank() {
            t.with_left(sub)
        } else {
            t.with_right(sub)
        },
    ensures
        grown(t, settled(m, value), value),
        settled(m, value).slots() =~= m.slots(),
        m.ordered(true),
        m.bag() =~= t.bag().insert(value),
{
    assert(m.bag() =~= t.bag().insert(value));
    assert(m.ordered(true));
    lemma_settled_keeps(m, value);
    lemma_settled_colors(t, m, value);
    if is_red(t) {
        assert(settled(m, value)->key == t->key);
    }
}

} // verus!
