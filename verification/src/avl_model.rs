//! The height-balance discipline, stated on the model.

use vstd::prelude::*;
use crate::key::OrderedKey;
use crate::shape::Tree;
use vstd::multiset::Multiset;
use vstd::arithmetic::power2::{lemma2_to64, lemma_pow2_unfold, pow2};

verus! {

/// The model of a height-balanced tree: the tag of a node is its stored height.
pub type HeightTree<K> = Tree<K, i32>;

/// Every node stores the height of the subtree below it.
pub open spec fn heights_stored<K>(t: HeightTree<K>) -> bool
    decreases t,
{
    match t {
        Tree::Nil => true,
        Tree::Node { left, tag, right, .. } => {
            &&& tag == t.height()
            &&& heights_stored(*left)
            &&& heights_stored(*right)
        },
    }
}

/// The heights of the two subtrees of `t` differ by at most one.
pub open spec fn even_here<K>(t: HeightTree<K>) -> bool {
    -1 <= t.l().height() - t.r().height() <= 1
}

/// At every node the heights of the two subtrees differ by at most one.
pub open spec fn balanced<K>(t: HeightTree<K>) -> bool
    decreases t,
{
    match t {
        Tree::Nil => true,
        Tree::Node { left, right, .. } => {
            &&& even_here(t)
            &&& balanced(*left)
            &&& balanced(*right)
        },
    }
}

/// A valid height-balanced search tree: ordered (equal keys allowed),
/// balanced at every node, with every stored height correct.
pub open spec fn is_avl<K: OrderedKey>(t: HeightTree<K>) -> bool {
    &&& t.ordered(false)
    &&& balanced(t)
    &&& heights_stored(t)
}

/// The node over `l` and `r` that stores its own correct height.
pub open spec fn join<K>(l: HeightTree<K>, slot: usize, key: K, r: HeightTree<K>) -> HeightTree<K> {
    Tree::node(
        l,
        slot,
        key,
        (if l.height() >= r.height() {
            1 + l.height()
        } else {
            1 + r.height()
        }) as i32,
        r,
    )
}

/// `t` with the height of its top node stored afresh.
pub open spec fn refreshed<K>(t: HeightTree<K>) -> HeightTree<K> {
    match t {
        Tree::Nil => Tree::Nil,
        Tree::Node { left, slot, key, right, .. } => join(*left, slot, key, *right),
    }
}

/// `t` after its right child has been lifted over it.
pub open spec fn rotated_left<K>(t: HeightTree<K>) -> HeightTree<K> {
    match t {
        Tree::Node { left: a, slot: x, key: kx, right, .. } => match *right {
            Tree::Node { left: b, slot: y, key: ky, right: c, .. } => join(
                join(*a, x, kx, *b),
                y,
                ky,
                *c,
            ),
            Tree::Nil => t,
        },
        Tree::Nil => t,
    }
}

/// `t` after its left child has been lifted over it.
pub open spec fn rotated_right<K>(t: HeightTree<K>) -> HeightTree<K> {
    match t {
        Tree::Node { left, slot: x, key: kx, right: c, .. } => match *left {
            Tree::Node { left: a, slot: y, key: ky, right: b, .. } => join(
                *a,
                y,
                ky,
                join(*b, x, kx, *c),
            ),
            Tree::Nil => t,
        },
        Tree::Nil => t,
    }
}

/// What rebalancing makes of a tree whose subtrees are valid and whose
/// heights differ by at most two: the tree itself with its height stored
/// afresh where the difference is at most one, a single rotation where the
/// heavy child leans the same way or not at all, and a double rotation where
/// the heavy child leans the other way.
pub open spec fn rebalanced<K>(t: HeightTree<K>) -> HeightTree<K> {
    let d = t.l().height() - t.r().height();
    if d > 1 {
        if t.l().l().height() < t.l().r().height() {
            rotated_right(refreshed(t).with_left(rotated_left(t.l())))
        } else {
            rotated_right(refreshed(t))
        }
    } else if d < -1 {
        if t.r().l().height() > t.r().r().height() {
            rotated_left(refreshed(t).with_right(rotated_right(t.r())))
        } else {
            rotated_left(refreshed(t))
        }
    } else {
        refreshed(t)
    }
}

/// A rotation to the left keeps the keys, their order and the slots.
pub proof fn lemma_rotated_left_keeps<K: OrderedKey>(t: HeightTree<K>)
    requires
        t.r() is Node,
    ensures
        t.ordered(false) ==> rotated_left(t).ordered(false),
        rotated_left(t).bag() =~= t.bag(),
        rotated_left(t).slots() =~= t.slots(),
        rotated_left(t).in_order() =~= t.in_order(),
        rotated_left(t).size() == t.size(),
        t.l().height() < t.r().height() ==> rotated_left(t).height() <= t.height(),
{
    reveal_with_fuel(Tree::height, 3);
    reveal_with_fuel(Tree::ordered, 3);
    reveal_with_fuel(Tree::bag, 3);
    reveal_with_fuel(Tree::slots, 3);
    reveal_with_fuel(Tree::in_order, 3);
    reveal_with_fuel(Tree::size, 3);
    let r = t.r();
    let inner = rotated_left(t).l();
    assert(r.bag().count(r->key) > 0);
    assert(inner.bag() =~= t.l().bag().add(r.l().bag()).insert(t->key));
    assert forall|k: K| t.ordered(false) && #[trigger] inner.bag().count(k) > 0 implies k.rank() <= (
    r->key).rank() by {
        if t.l().bag().count(k) > 0 {
        } else if r.l().bag().count(k) > 0 {
            assert(r.bag().count(k) > 0);
        } else {
            assert(k == t->key);
        }
    }
    assert forall|k: K| t.ordered(false) && #[trigger] r.l().bag().count(k) > 0 implies (
    t->key).rank() <= k.rank() by {
        assert(r.bag().count(k) > 0);
    }
}

/// A rotation to the right keeps the keys, their order and the slots.
pub proof fn lemma_rotated_right_keeps<K: OrderedKey>(t: HeightTree<K>)
    requires
        t.l() is Node,
    ensures
        t.ordered(false) ==> rotated_right(t).ordered(false),
        rotated_right(t).bag() =~= t.bag(),
        rotated_right(t).slots() =~= t.slots(),
        rotated_right(t).in_order() =~= t.in_order(),
        rotated_right(t).size() == t.size(),
        t.l().height() > t.r().height() ==> rotated_right(t).height() <= t.height(),
{
    reveal_with_fuel(Tree::height, 3);
    reveal_with_fuel(Tree::ordered, 3);
    reveal_with_fuel(Tree::bag, 3);
    reveal_with_fuel(Tree::slots, 3);
    reveal_with_fuel(Tree::in_order, 3);
    reveal_with_fuel(Tree::size, 3);
    let l = t.l();
    let inner = rotated_right(t).r();
    assert(l.bag().count(l->key) > 0);
    assert(inner.bag() =~= l.r().bag().add(t.r().bag()).insert(t->key));
    assert forall|k: K| t.ordered(false) && #[trigger] inner.bag().count(k) > 0 implies (
    l->key).rank() <= k.rank() by {
        if t.r().bag().count(k) > 0 {
        } else if l.r().bag().count(k) > 0 {
            assert(l.bag().count(k) > 0);
        } else {
            assert(k == t->key);
        }
    }
    assert forall|k: K| t.ordered(false) && #[trigger] l.r().bag().count(k) > 0 implies k.rank() <= (
    t->key).rank() by {
        assert(l.bag().count(k) > 0);
    }
}

/// Joining two valid subtrees whose heights differ by at most one gives a
/// balanced tree with correct stored heights.
pub proof fn lemma_join_valid<K>(l: HeightTree<K>, slot: usize, key: K, r: HeightTree<K>)
    requires
        balanced(l),
        balanced(r),
        heights_stored(l),
        heights_stored(r),
        -1 <= l.height() - r.height() <= 1,
        l.height() < i32::MAX,
        r.height() < i32::MAX,
    ensures
        balanced(join(l, slot, key, r)),
        heights_stored(join(l, slot, key, r)),
        join(l, slot, key, r).height() == if l.height() >= r.height() {
            1 + l.height()
        } else {
            1 + r.height()
        },
{
}

/// Rebalancing keeps the keys, their order and the slots.
pub proof fn lemma_rebalanced_keeps<K: OrderedKey>(t: HeightTree<K>)
    requires
        t is Node,
        t.l().height() - t.r().height() > 1 ==> t.l() is Node,
        t.l().height() - t.r().height() < -1 ==> t.r() is Node,
        t.l().l().height() < t.l().r().height() ==> t.l().r() is Node,
        t.r().l().height() > t.r().r().height() ==> t.r().l() is Node,
    ensures
        rebalanced(t) is Node,
        t.ordered(false) ==> rebalanced(t).ordered(false),
        rebalanced(t).bag() =~= t.bag(),
        rebalanced(t).slots() =~= t.slots(),
        rebalanced(t).in_order() =~= t.in_order(),
        rebalanced(t).size() == t.size(),
{
    let d = t.l().height() - t.r().height();
    let f = refreshed(t);
    if d > 1 {
        let l = t.l();
        if l.l().height() < l.r().height() {
            lemma_rotated_left_keeps(l);
            let m = f.with_left(rotated_left(l));
            lemma_rotated_right_keeps(m);
        } else {
            lemma_rotated_right_keeps(f);
        }
    } else if d < -1 {
        let r = t.r();
        if r.l().height() > r.r().height() {
            lemma_rotated_right_keeps(r);
            let m = f.with_right(rotated_right(r));
            lemma_rotated_left_keeps(m);
        } else {
            lemma_rotated_left_keeps(f);
        }
    } else {
    }
}

/// Rebalancing restores the balance and the stored heights; it lowers the
/// height by at most one, and only where it rotates.
pub proof fn lemma_rebalanced_shape<K>(t: HeightTree<K>)
    requires
        t is Node,
        balanced(t.l()),
        balanced(t.r()),
        heights_stored(t.l()),
        heights_stored(t.r()),
        -2 <= t.l().height() - t.r().height() <= 2,
        t.height() < i32::MAX,
    ensures
        balanced(rebalanced(t)),
        heights_stored(rebalanced(t)),
        rebalanced(t).height() == t.height() || rebalanced(t).height() + 1 == t.height(),
        even_here(t) ==> rebalanced(t) == refreshed(t),
{
    let d = t.l().height() - t.r().height();
    let x = t->slot;
    let kx = t->key;
    if d > 1 {
        let l = t.l();
        let c = t.r();
        let y = l->slot;
        let ky = l->key;
        let a = l.l();
        if a.height() < l.r().height() {
            let m = l.r();
            let z = m->slot;
            let kz = m->key;
            let b1 = m.l();
            let b2 = m.r();
            assert(balanced(m) && heights_stored(m));
            assert(rebalanced(t) == join(join(a, y, ky, b1), z, kz, join(b2, x, kx, c)));
            lemma_join_valid(a, y, ky, b1);
            lemma_join_valid(b2, x, kx, c);
            lemma_join_valid(join(a, y, ky, b1), z, kz, join(b2, x, kx, c));
        } else {
            let b = l.r();
            assert(rebalanced(t) == join(a, y, ky, join(b, x, kx, c)));
            lemma_join_valid(b, x, kx, c);
            lemma_join_valid(a, y, ky, join(b, x, kx, c));
        }
    } else if d < -1 {
        let a = t.l();
        let r = t.r();
        let y = r->slot;
        let ky = r->key;
        let c = r.r();
        if r.l().height() > c.height() {
            let m = r.l();
            let z = m->slot;
            let kz = m->key;
            let b1 = m.l();
            let b2 = m.r();
            assert(balanced(m) && heights_stored(m));
            assert(rebalanced(t) == join(join(a, x, kx, b1), z, kz, join(b2, y, ky, c)));
            lemma_join_valid(a, x, kx, b1);
            lemma_join_valid(b2, y, ky, c);
            lemma_join_valid(join(a, x, kx, b1), z, kz, join(b2, y, ky, c));
        } else {
            let b = r.l();
            assert(rebalanced(t) == join(join(a, x, kx, b), y, ky, c));
            lemma_join_valid(a, x, kx, b);
            lemma_join_valid(join(a, x, kx, b), y, ky, c);
        }
    } else {
        lemma_join_valid(t.l(), x, kx, t.r());
    }
}

/// The tree with a single node.
pub open spec fn leaf<K>(slot: usize, key: K) -> HeightTree<K> {
    Tree::node(Tree::Nil, slot, key, 1, Tree::Nil)
}

/// A single node is a valid tree of height 1 with one key and one slot.
pub proof fn lemma_leaf<K: OrderedKey>(slot: usize, key: K)
    ensures
        is_avl(leaf(slot, key)),
        leaf(slot, key).slots() =~= Set::empty().insert(slot),
        leaf(slot, key).bag() =~= Multiset::empty().insert(key),
        leaf(slot, key).height() == 1,
        leaf(slot, key).size() == 1,
        leaf(slot, key).leaves() == 1,
        leaf(slot, key).in_order() =~= seq![key],
{
    reveal_with_fuel(Tree::slots, 2);
    reveal_with_fuel(Tree::bag, 2);
    reveal_with_fuel(Tree::height, 2);
    reveal_with_fuel(Tree::size, 2);
    reveal_with_fuel(Tree::in_order, 2);
    reveal_with_fuel(Tree::ordered, 2);
    reveal_with_fuel(balanced, 2);
    reveal_with_fuel(heights_stored, 2);
}

/// What an insertion of `key` in a node in slot `slot` makes of `t`: the new
/// node hangs where the search for `key` ends, to the right of equal keys,
/// and every node on the way back up is rebalanced.
pub open spec fn with_inserted<K: OrderedKey>(t: HeightTree<K>, slot: usize, key: K) -> HeightTree<K>
    decreases t,
{
    match t {
        Tree::Nil => leaf(slot, key),
        Tree::Node { left, key: k, right, .. } => rebalanced(
            if key.rank() < k.rank() {
                t.with_left(with_inserted(*left, slot, key))
            } else {
                t.with_right(with_inserted(*right, slot, key))
            },
        ),
    }
}

/// What a deletion of `value` makes of `t`. Without `value`, `t` stays as
/// it is. The search goes left below a greater key and right below a lesser
/// one; the first node with an equal key is the one that goes. With at most
/// one child it hands its place to that child; with two children it takes
/// the least key of its right subtree, and one occurrence of that key is
/// deleted there. Every node on the way back up is rebalanced.
pub open spec fn with_deleted<K: OrderedKey>(t: HeightTree<K>, value: K) -> HeightTree<K>
    decreases t,
{
    match t {
        Tree::Nil => Tree::Nil,
        Tree::Node { left, key, right, .. } => if t.bag().count(value) == 0 {
            t
        } else if value.rank() < key.rank() {
            rebalanced(t.with_left(with_deleted(*left, value)))
        } else if value.rank() > key.rank() {
            rebalanced(t.with_right(with_deleted(*right, value)))
        } else if *left is Nil || *right is Nil {
            t.only_child()
        } else {
            rebalanced(t.with_key(right.least()).with_right(with_deleted(*right, right.least())))
        },
    }
}

/// One step of an insertion on the way back up: `sub` is what the insertion
/// of `k` made of the subtree of `t` on the side where `k` belongs, and `m`
/// is `t` with `sub` on that side. Rebalancing `m` gives a valid tree with
/// the keys of `t` and `k`, as high as `t` or one higher.
pub proof fn lemma_insert_step<K: OrderedKey>(
    t: HeightTree<K>,
    sub: HeightTree<K>,
    k: K,
    m: HeightTree<K>,
)
    requires
        t is Node,
        is_avl(t),
        is_avl(sub),
        t.height() + 1 < i32::MAX,
        if k.rank() < (t->key).rank() {
            &&& m == t.with_left(sub)
            &&& sub.bag() =~= t.l().bag().insert(k)
            &&& sub.height() == t.l().height() || sub.height() == t.l().height() + 1
        } else {
            &&& m == t.with_right(sub)
            &&& sub.bag() =~= t.r().bag().insert(k)
            &&& sub.height() == t.r().height() || sub.height() == t.r().height() + 1
        },
    ensures
        balanced(m.l()),
        balanced(m.r()),
        heights_stored(m.l()),
        heights_stored(m.r()),
        -2 <= m.l().height() - m.r().height() <= 2,
        m.height() < i32::MAX,
        is_avl(rebalanced(m)),
        rebalanced(m) is Node,
        rebalanced(m).bag() =~= t.bag().insert(k),
        rebalanced(m).slots() =~= m.slots(),
        rebalanced(m).height() == t.height() || rebalanced(m).height() == t.height() + 1,
{
    assert(m.bag() =~= t.bag().insert(k));
    assert(m.ordered(false));
    lemma_height_positive(m.l());
    lemma_height_positive(m.r());
    lemma_height_positive(m.l().r());
    lemma_height_positive(m.r().l());
    lemma_rebalanced_keeps(m);
    lemma_rebalanced_shape(m);
}

/// A tree that is not empty has a positive height, and an empty one height 0.
pub proof fn lemma_height_positive<K>(t: HeightTree<K>)
    ensures
        t is Node <==> t.height() > 0,
{
}

/// Removing `v` below a node: where `v` is below the key of `t` and `sub`
/// is the left subtree less one `v`, or `v` is above the key and `sub` is
/// the right subtree less one `v`, the tree `m` with `sub` on that side is
/// ordered and holds the keys of `t` less one `v`.
pub proof fn lemma_removed_below<K: OrderedKey>(
    t: HeightTree<K>,
    sub: HeightTree<K>,
    v: K,
    m: HeightTree<K>,
)
    requires
        t is Node,
        t.ordered(false),
        sub.ordered(false),
        v.rank() != (t->key).rank(),
        if v.rank() < (t->key).rank() {
            &&& m == t.with_left(sub)
            &&& t.l().bag().count(v) > 0
            &&& sub.bag() =~= t.l().bag().remove(v)
        } else {
            &&& m == t.with_right(sub)
            &&& t.r().bag().count(v) > 0
            &&& sub.bag() =~= t.r().bag().remove(v)
        },
    ensures
        m.ordered(false),
        m.bag() =~= t.bag().remove(v),
{
    if v.rank() < (t->key).rank() {
        assert forall|k: K| #[trigger] sub.bag().count(k) > 0 implies k.rank() <= (t->key).rank() by {
            assert(t.l().bag().count(k) > 0);
        }
    } else {
        assert forall|k: K| #[trigger] sub.bag().count(k) > 0 implies (t->key).rank() <= k.rank() by {
            assert(t.r().bag().count(k) > 0);
        }
    }
}

/// Removing the key of a node with two children: with the least key of the
/// right subtree in the node, and `sub` the right subtree less one
/// occurrence of that key, the tree `m` is ordered and holds the keys of
/// `t` less one occurrence of the old key.
pub proof fn lemma_removed_here<K: OrderedKey>(
    t: HeightTree<K>,
    sub: HeightTree<K>,
    m: HeightTree<K>,
)
    requires
        t is Node,
        t.r() is Node,
        t.ordered(false),
        sub.ordered(false),
        sub.bag() =~= t.r().bag().remove(t.r().least()),
        m == t.with_key(t.r().least()).with_right(sub),
    ensures
        m.ordered(false),
        m.bag() =~= t.bag().remove(t->key),
{
    let s = t.r().least();
    t.r().lemma_least();
    assert forall|k: K| #[trigger] sub.bag().count(k) > 0 implies s.rank() <= k.rank() by {
        assert(t.r().bag().count(k) > 0);
    }
    assert forall|k: K| #[trigger] t.l().bag().count(k) > 0 implies k.rank() <= s.rank() by {
    }
}

/// One subtree of `m` is as high as that of `t` on the same side, and the
/// other is as high as its counterpart or one lower.
pub open spec fn one_side_lower<K>(t: HeightTree<K>, m: HeightTree<K>) -> bool {
    ||| {
        &&& m.r().height() == t.r().height()
        &&& m.l().height() == t.l().height() || m.l().height() + 1 == t.l().height()
    }
    ||| {
        &&& m.l().height() == t.l().height()
        &&& m.r().height() == t.r().height() || m.r().height() + 1 == t.r().height()
    }
}

/// One step of a deletion on the way back up: `m` is `t` with one subtree
/// made lower by at most one. Rebalancing `m` gives a valid tree, as high as
/// `t` or one lower.
pub proof fn lemma_delete_step<K: OrderedKey>(t: HeightTree<K>, m: HeightTree<K>)
    requires
        t is Node,
        m is Node,
        balanced(t),
        t.height() < i32::MAX,
        m.ordered(false),
        is_avl(m.l()),
        is_avl(m.r()),
        one_side_lower(t, m),
    ensures
        -2 <= m.l().height() - m.r().height() <= 2,
        m.height() < i32::MAX,
        is_avl(rebalanced(m)),
        rebalanced(m) is Node,
        rebalanced(m).bag() =~= m.bag(),
        rebalanced(m).slots() =~= m.slots(),
        rebalanced(m).height() == t.height() || rebalanced(m).height() + 1 == t.height(),
{
    lemma_height_positive(m.l());
    lemma_height_positive(m.r());
    lemma_height_positive(m.l().r());
    lemma_height_positive(m.r().l());
    lemma_rebalanced_keeps(m);
    lemma_rebalanced_shape(m);
}

/// The least number of nodes in a balanced tree of height `h`: one node
/// over a least tree of height `h - 1` and a least tree of height `h - 2`.
/// This is the Fibonacci number F(h + 2), less one.
pub open spec fn min_size(h: nat) -> nat
    decreases h,
{
    if h == 0 {
        0
    } else if h == 1 {
        1
    } else {
        1 + min_size((h - 1) as nat) + min_size((h - 2) as nat)
    }
}

/// A higher tree needs at least as many nodes.
pub proof fn lemma_min_size_grows(a: nat, b: nat)
    requires
        a <= b,
    ensures
        min_size(a) <= min_size(b),
    decreases b,
{
    if a < b {
        lemma_min_size_grows(a, (b - 1) as nat);
    }
}

/// Two more levels at least double the number of nodes.
pub proof fn lemma_min_size_doubles(k: nat)
    ensures
        min_size(2 * k) + 1 >= pow2(k),
    decreases k,
{
    lemma2_to64();
    if k > 0 {
        lemma_min_size_doubles((k - 1) as nat);
        lemma_min_size_grows((2 * k - 2) as nat, (2 * k - 1) as nat);
        lemma_pow2_unfold(k);
    }
}

/// A balanced tree has at least the least number of nodes for its height.
pub proof fn lemma_balanced_size<K>(t: HeightTree<K>)
    requires
        balanced(t),
    ensures
        t.size() >= min_size(t.height()),
    decreases t,
{
    match t {
        Tree::Nil => {},
        Tree::Node { left, right, .. } => {
            lemma_balanced_size(*left);
            lemma_balanced_size(*right);
            let h = t.height();
            if h >= 2 {
                if left.height() >= right.height() {
                    lemma_min_size_grows((h - 2) as nat, right.height());
                } else {
                    lemma_min_size_grows((h - 2) as nat, left.height());
                }
            }
        },
    }
}

/// A balanced tree with at most `u32::MAX` nodes is lower than 66.
pub proof fn lemma_height_fits<K>(t: HeightTree<K>)
    requires
        balanced(t),
        t.size() <= u32::MAX,
    ensures
        t.height() < 66,
{
    lemma_balanced_size(t);
    if t.height() >= 66 {
        lemma_min_size_grows(66, t.height());
        lemma_min_size_doubles(33);
        lemma2_to64();
        lemma_pow2_unfold(33);
    }
}

} // verus!
