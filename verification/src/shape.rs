//! The mathematical model shared by both engines.
//!
//! The model of a tree is a [`Tree`], an ordinary inductive binary tree that
//! records, for every node, the arena slot it lives in, its key and its
//! balance tag. Order, traversals, counts and the rotations are stated on
//! the model alone.

use vstd::prelude::*;
use vstd::multiset::Multiset;
use crate::key::{increasing, non_decreasing, OrderedKey};

verus! {

/// An inductive binary tree over arena slots. `G` is the balance tag
/// (a height or a colour).
pub ghost enum Tree<K, G> {
    Nil,
    Node { left: Box<Tree<K, G>>, slot: usize, key: K, tag: G, right: Box<Tree<K, G>> },
}

impl<K, G> Tree<K, G> {
    /// Builds an inner node.
    pub open spec fn node(l: Self, slot: usize, key: K, tag: G, r: Self) -> Self {
        Tree::Node { left: Box::new(l), slot, key, tag, right: Box::new(r) }
    }

    /// The left subtree (`Nil` for `Nil`).
    pub open spec fn l(self) -> Self {
        match self {
            Tree::Nil => Tree::Nil,
            Tree::Node { left, .. } => *left,
        }
    }

    /// The right subtree (`Nil` for `Nil`).
    pub open spec fn r(self) -> Self {
        match self {
            Tree::Nil => Tree::Nil,
            Tree::Node { right, .. } => *right,
        }
    }

    /// The slot of the topmost node, if there is one.
    pub open spec fn top(self) -> Option<usize> {
        match self {
            Tree::Nil => None,
            Tree::Node { slot, .. } => Some(slot),
        }
    }

    /// The slots of all nodes.
    pub open spec fn slots(self) -> Set<usize>
        decreases self,
    {
        match self {
            Tree::Nil => Set::empty(),
            Tree::Node { left, slot, right, .. } => left.slots().union(right.slots()).insert(slot),
        }
    }

    /// The number of nodes.
    pub open spec fn size(self) -> nat
        decreases self,
    {
        match self {
            Tree::Nil => 0,
            Tree::Node { left, right, .. } => 1 + left.size() + right.size(),
        }
    }

    /// The number of nodes on the longest path from the top down; 0 for `Nil`.
    pub open spec fn height(self) -> nat
        decreases self,
    {
        match self {
            Tree::Nil => 0,
            Tree::Node { left, right, .. } => if left.height() >= right.height() {
                1 + left.height()
            } else {
                1 + right.height()
            },
        }
    }

    /// The number of nodes without children.
    pub open spec fn leaves(self) -> nat
        decreases self,
    {
        match self {
            Tree::Nil => 0,
            Tree::Node { left, right, .. } => if *left is Nil && *right is Nil {
                1
            } else {
                left.leaves() + right.leaves()
            },
        }
    }

    /// The keys with their multiplicities.
    pub open spec fn bag(self) -> Multiset<K>
        decreases self,
    {
        match self {
            Tree::Nil => Multiset::empty(),
            Tree::Node { left, key, right, .. } => left.bag().add(right.bag()).insert(key),
        }
    }

    /// Keys in the order left subtree, node, right subtree.
    pub open spec fn in_order(self) -> Seq<K>
        decreases self,
    {
        match self {
            Tree::Nil => Seq::empty(),
            Tree::Node { left, key, right, .. } => left.in_order().push(key) + right.in_order(),
        }
    }

    /// Keys in the order node, left subtree, right subtree.
    pub open spec fn pre_order(self) -> Seq<K>
        decreases self,
    {
        match self {
            Tree::Nil => Seq::empty(),
            Tree::Node { left, key, right, .. } => seq![key] + left.pre_order() + right.pre_order(),
        }
    }

    /// Keys in the order left subtree, right subtree, node.
    pub open spec fn post_order(self) -> Seq<K>
        decreases self,
    {
        match self {
            Tree::Nil => Seq::empty(),
            Tree::Node { left, key, right, .. } => (left.post_order() + right.post_order()).push(
                key,
            ),
        }
    }
}

impl<K, G> Tree<K, G> {
    /// The tree with another tag in its top node.
    pub open spec fn with_tag(self, tag: G) -> Self {
        match self {
            Tree::Nil => Tree::Nil,
            Tree::Node { left, slot, key, right, .. } => Tree::node(*left, slot, key, tag, *right),
        }
    }

    /// The tree with another key in its top node.
    pub open spec fn with_key(self, key: K) -> Self {
        match self {
            Tree::Nil => Tree::Nil,
            Tree::Node { left, slot, tag, right, .. } => Tree::node(*left, slot, key, tag, *right),
        }
    }

    /// The tree with another left subtree.
    pub open spec fn with_left(self, l: Self) -> Self {
        match self {
            Tree::Nil => Tree::Nil,
            Tree::Node { slot, key, tag, right, .. } => Tree::node(l, slot, key, tag, *right),
        }
    }

    /// The tree with another right subtree.
    pub open spec fn with_right(self, r: Self) -> Self {
        match self {
            Tree::Nil => Tree::Nil,
            Tree::Node { left, slot, key, tag, .. } => Tree::node(*left, slot, key, tag, r),
        }
    }

    /// The only subtree of a node with at most one child: the left one if
    /// there is one, else the right one.
    pub open spec fn only_child(self) -> Self {
        if self.l() is Node {
            self.l()
        } else {
            self.r()
        }
    }

    /// The tree after its right child has been lifted over its top node;
    /// every node keeps its tag.
    pub open spec fn turned_left(self) -> Self {
        if self is Node && self.r() is Node {
            self.r().with_left(self.with_right(self.r().l()))
        } else {
            self
        }
    }

    /// The tree after its left child has been lifted over its top node;
    /// every node keeps its tag.
    pub open spec fn turned_right(self) -> Self {
        if self is Node && self.l() is Node {
            self.l().with_right(self.with_left(self.l().r()))
        } else {
            self
        }
    }
}

impl<K: OrderedKey, G> Tree<K, G> {
    /// Every key is at most `bound` (or below it, when `strict`).
    pub open spec fn all_below(self, bound: K, strict: bool) -> bool {
        forall|k: K| #[trigger]
            self.bag().count(k) > 0 ==> if strict {
                k.rank() < bound.rank()
            } else {
                k.rank() <= bound.rank()
            }
    }

    /// Every key is at least `bound` (or above it, when `strict`).
    pub open spec fn all_above(self, bound: K, strict: bool) -> bool {
        forall|k: K| #[trigger]
            self.bag().count(k) > 0 ==> if strict {
                bound.rank() < k.rank()
            } else {
                bound.rank() <= k.rank()
            }
    }

    /// The search-tree order: at every node the keys to the left are not
    /// above the node's key and the keys to the right are not below it.
    /// With `strict`, equality is excluded, so no key occurs twice.
    pub open spec fn ordered(self, strict: bool) -> bool
        decreases self,
    {
        match self {
            Tree::Nil => true,
            Tree::Node { left, key, right, .. } => {
                &&& left.all_below(key, strict)
                &&& right.all_above(key, strict)
                &&& left.ordered(strict)
                &&& right.ordered(strict)
            },
        }
    }
}

impl<K: OrderedKey, G> Tree<K, G> {
    /// The slot where a search for `value` ends: that of the first node
    /// with an equal key on the way down from the top, going left below a
    /// greater key and right below a lesser one.
    pub open spec fn find(self, value: K) -> Option<usize>
        decreases self,
    {
        match self {
            Tree::Nil => None,
            Tree::Node { left, slot, key, right, .. } => if value.rank() == key.rank() {
                Some(slot)
            } else if value.rank() < key.rank() {
                left.find(value)
            } else {
                right.find(value)
            },
        }
    }

    /// The slot of the node that leaves the tree when `value` is deleted:
    /// that of the first node with an equal key on the way down, if it has
    /// at most one child; with two children that node takes the least key of
    /// its right subtree, and the node that leaves is the one that leaves
    /// the right subtree when that key is deleted there.
    pub open spec fn leaving(self, value: K) -> Option<usize>
        decreases self,
    {
        match self {
            Tree::Nil => None,
            Tree::Node { left, slot, key, right, .. } => if value.rank() < key.rank() {
                left.leaving(value)
            } else if value.rank() > key.rank() {
                right.leaving(value)
            } else if *left is Node && *right is Node {
                right.leaving(right.least())
            } else {
                Some(slot)
            },
        }
    }

    /// The key of the leftmost node.
    pub open spec fn least(self) -> K
        recommends
            self is Node,
        decreases self,
    {
        match self {
            Tree::Nil => arbitrary(),
            Tree::Node { left, key, .. } => if *left is Nil {
                key
            } else {
                left.least()
            },
        }
    }

    /// In a strictly ordered tree no key occurs twice.
    pub proof fn lemma_no_key_twice(self)
        requires
            self.ordered(true),
        ensures
            forall|k: K| self.bag().count(k) <= 1,
        decreases self,
    {
        match self {
            Tree::Nil => {},
            Tree::Node { left, key, right, .. } => {
                left.lemma_no_key_twice();
                right.lemma_no_key_twice();
                assert forall|k: K| self.bag().count(k) <= 1 by {
                    assert(self.bag().count(k) == left.bag().count(k) + right.bag().count(k) + if k
                        == key {
                        1nat
                    } else {
                        0nat
                    });
                    assert(left.bag().count(k) <= 1);
                    assert(right.bag().count(k) <= 1);
                    if left.bag().count(k) > 0 {
                        assert(k.rank() < key.rank());
                        if right.bag().count(k) > 0 {
                            assert(key.rank() < k.rank());
                        }
                    }
                    if k == key {
                        if left.bag().count(k) > 0 {
                            assert(k.rank() < key.rank());
                        }
                        if right.bag().count(k) > 0 {
                            assert(key.rank() < k.rank());
                        }
                    }
                }
            },
        }
    }

    /// In a strictly ordered tree the leftmost key is a key of the tree,
    /// and every other key is above it.
    pub proof fn lemma_least_strict(self)
        requires
            self is Node,
            self.ordered(true),
        ensures
            self.bag().count(self.least()) == 1,
            forall|k: K| #[trigger]
                self.bag().count(k) > 0 && k != self.least() ==> self.least().rank() < k.rank(),
        decreases self,
    {
        self.lemma_no_key_twice();
        if self.l() is Node {
            self.l().lemma_least_strict();
            let m = self.least();
            assert(self.l().bag().count(m) > 0);
            assert forall|k: K| #[trigger] self.bag().count(k) > 0 && k != m implies m.rank()
                < k.rank() by {
                if self.l().bag().count(k) > 0 {
                } else if self.r().bag().count(k) > 0 {
                }
            }
        } else {
            let m = self.least();
            assert(self.l().bag() =~= Multiset::empty());
            assert forall|k: K| #[trigger] self.bag().count(k) > 0 && k != m implies m.rank()
                < k.rank() by {
                if self.r().bag().count(k) > 0 {
                }
            }
        }
    }

    /// In an ordered tree the leftmost key is a key of the tree, and no key
    /// is below it.
    pub proof fn lemma_least(self)
        requires
            self is Node,
            self.ordered(false),
        ensures
            self.bag().count(self.least()) > 0,
            self.all_above(self.least(), false),
        decreases self,
    {
        if self.l() is Node {
            self.l().lemma_least();
            let m = self.least();
            assert(self.l().bag().count(m) > 0);
            assert forall|k: K| #[trigger] self.bag().count(k) > 0 implies m.rank() <= k.rank() by {
                if self.l().bag().count(k) > 0 {
                } else if self.r().bag().count(k) > 0 {
                }
            }
        } else {
            let m = self.least();
            assert(self.l().bag() =~= Multiset::empty());
            assert forall|k: K| #[trigger] self.bag().count(k) > 0 implies m.rank() <= k.rank() by {
                if self.r().bag().count(k) > 0 {
                } else {
                    assert(k == m);
                }
            }
        }
    }
}

impl<K, G> Tree<K, G> {
    /// The number of steps from the top of the tree down to the node in
    /// `slot`.
    pub open spec fn depth_of(self, slot: usize) -> nat
        decreases self,
    {
        match self {
            Tree::Nil => 0,
            Tree::Node { left, slot: s, right, .. } => if slot == s {
                0
            } else if left.slots().contains(slot) {
                1 + left.depth_of(slot)
            } else {
                1 + right.depth_of(slot)
            },
        }
    }
}

/// Lifting the right child over the top node keeps the keys, their order
/// and the slots.
pub proof fn lemma_turned_left_keeps<K: OrderedKey, G>(t: Tree<K, G>, strict: bool)
    requires
        t.r() is Node,
    ensures
        t.ordered(strict) ==> t.turned_left().ordered(strict),
        t.turned_left().bag() =~= t.bag(),
        t.turned_left().slots() =~= t.slots(),
        t.turned_left().in_order() =~= t.in_order(),
        t.turned_left().size() == t.size(),
{
    reveal_with_fuel(Tree::ordered, 3);
    reveal_with_fuel(Tree::bag, 3);
    reveal_with_fuel(Tree::slots, 3);
    reveal_with_fuel(Tree::in_order, 3);
    reveal_with_fuel(Tree::size, 3);
    let r = t.r();
    let inner = t.turned_left().l();
    assert(r.bag().count(r->key) > 0);
    assert(inner.bag() =~= t.l().bag().add(r.l().bag()).insert(t->key));
    if t.ordered(strict) {
        assert(inner.all_below(r->key, strict)) by {
            assert forall|k: K| #[trigger] inner.bag().count(k) > 0 implies if strict {
                k.rank() < (r->key).rank()
            } else {
                k.rank() <= (r->key).rank()
            } by {
                if t.l().bag().count(k) > 0 {
                } else if r.l().bag().count(k) > 0 {
                    assert(r.bag().count(k) > 0);
                } else {
                    assert(k == t->key);
                }
            }
        }
        assert(r.l().all_above(t->key, strict)) by {
            assert forall|k: K| #[trigger] r.l().bag().count(k) > 0 implies if strict {
                (t->key).rank() < k.rank()
            } else {
                (t->key).rank() <= k.rank()
            } by {
                assert(r.bag().count(k) > 0);
            }
        }
    }
}

/// Lifting the left child over the top node keeps the keys, their order and
/// the slots.
pub proof fn lemma_turned_right_keeps<K: OrderedKey, G>(t: Tree<K, G>, strict: bool)
    requires
        t.l() is Node,
    ensures
        t.ordered(strict) ==> t.turned_right().ordered(strict),
        t.turned_right().bag() =~= t.bag(),
        t.turned_right().slots() =~= t.slots(),
        t.turned_right().in_order() =~= t.in_order(),
        t.turned_right().size() == t.size(),
{
    reveal_with_fuel(Tree::ordered, 3);
    reveal_with_fuel(Tree::bag, 3);
    reveal_with_fuel(Tree::slots, 3);
    reveal_with_fuel(Tree::in_order, 3);
    reveal_with_fuel(Tree::size, 3);
    let l = t.l();
    let inner = t.turned_right().r();
    assert(l.bag().count(l->key) > 0);
    assert(inner.bag() =~= l.r().bag().add(t.r().bag()).insert(t->key));
    if t.ordered(strict) {
        assert(inner.all_above(l->key, strict)) by {
            assert forall|k: K| #[trigger] inner.bag().count(k) > 0 implies if strict {
                (l->key).rank() < k.rank()
            } else {
                (l->key).rank() <= k.rank()
            } by {
                if t.r().bag().count(k) > 0 {
                } else if l.r().bag().count(k) > 0 {
                    assert(l.bag().count(k) > 0);
                } else {
                    assert(k == t->key);
                }
            }
        }
        assert(l.r().all_below(t->key, strict)) by {
            assert forall|k: K| #[trigger] l.r().bag().count(k) > 0 implies if strict {
                k.rank() < (t->key).rank()
            } else {
                k.rank() <= (t->key).rank()
            } by {
                assert(l.bag().count(k) > 0);
            }
        }
    }
}

/// Removing `v` below the top node of an ordered tree: where `v` is below
/// the key of `t` and `sub` is the left subtree less one `v`, or `v` is
/// above the key and `sub` is the right subtree less one `v`, the tree with
/// `sub` on that side is ordered and holds the keys of `t` less one `v`.
pub proof fn lemma_less_below<K: OrderedKey, G>(t: Tree<K, G>, sub: Tree<K, G>, v: K, strict: bool)
    requires
        t is Node,
        t.ordered(strict),
        sub.ordered(strict),
        v.rank() != (t->key).rank(),
        if v.rank() < (t->key).rank() {
            &&& t.l().bag().count(v) > 0
            &&& sub.bag() =~= t.l().bag().remove(v)
        } else {
            &&& t.r().bag().count(v) > 0
            &&& sub.bag() =~= t.r().bag().remove(v)
        },
    ensures
        v.rank() < (t->key).rank() ==> t.with_left(sub).ordered(strict) && t.with_left(sub).bag()
            =~= t.bag().remove(v),
        v.rank() > (t->key).rank() ==> t.with_right(sub).ordered(strict) && t.with_right(
            sub,
        ).bag() =~= t.bag().remove(v),
{
    if v.rank() < (t->key).rank() {
        assert(sub.all_below(t->key, strict)) by {
            assert forall|k: K| #[trigger] sub.bag().count(k) > 0 implies t.l().bag().count(k)
                > 0 by {}
        }
    } else {
        assert(sub.all_above(t->key, strict)) by {
            assert forall|k: K| #[trigger] sub.bag().count(k) > 0 implies t.r().bag().count(k)
                > 0 by {}
        }
    }
}

/// Removing the key of a node with two children from a strictly ordered
/// tree: with the least key of the right subtree in the node, and `sub` the
/// right subtree less that key, the tree is strictly ordered and holds the
/// keys of `t` less the old key.
pub proof fn lemma_less_here<K: OrderedKey, G>(t: Tree<K, G>, sub: Tree<K, G>)
    requires
        t is Node,
        t.r() is Node,
        t.ordered(true),
        sub.ordered(true),
        sub.bag() =~= t.r().bag().remove(t.r().least()),
    ensures
        t.with_key(t.r().least()).with_right(sub).ordered(true),
        t.with_key(t.r().least()).with_right(sub).bag() =~= t.bag().remove(t->key),
        t.r().bag().count(t.r().least()) == 1,
        t.bag().count(t->key) == 1,
{
    let s = t.r().least();
    t.r().lemma_least_strict();
    t.lemma_no_key_twice();
    assert(t.r().bag().count(s) > 0);
    assert(sub.all_above(s, true)) by {
        assert forall|k: K| #[trigger] sub.bag().count(k) > 0 implies s.rank() < k.rank() by {
            assert(t.r().bag().count(k) > 0);
            if k == s {
                assert(sub.bag().count(k) == 0);
            }
        }
    }
    assert(t.l().all_below(s, true)) by {
        assert forall|k: K| #[trigger] t.l().bag().count(k) > 0 implies k.rank() < s.rank() by {}
    }
    assert(t.l().bag().count(t->key) == 0);
    assert(t.r().bag().count(t->key) == 0);
}

/// The in-order traversal lists every key as often as the tree holds it.
pub proof fn lemma_in_order_is_bag<K, G>(t: Tree<K, G>)
    ensures
        t.in_order().to_multiset() =~= t.bag(),
    decreases t,
{
    broadcast use vstd::seq_lib::group_to_multiset_ensures;

    match t {
        Tree::Nil => {
            assert(t.in_order().to_multiset().len() == 0);
        },
        Tree::Node { left, key, right, .. } => {
            lemma_in_order_is_bag(*left);
            lemma_in_order_is_bag(*right);
            vstd::seq_lib::lemma_multiset_commutative(left.in_order().push(key), right.in_order());
        },
    }
}

/// The in-order traversal of an ordered tree never steps down, and steps
/// up at every position if the order is strict.
pub proof fn lemma_in_order_sorted<K: OrderedKey, G>(t: Tree<K, G>, strict: bool)
    requires
        t.ordered(strict),
    ensures
        non_decreasing(t.in_order()),
        strict ==> increasing(t.in_order()),
    decreases t,
{
    match t {
        Tree::Nil => {},
        Tree::Node { left, key, right, .. } => {
            lemma_in_order_sorted(*left, strict);
            lemma_in_order_sorted(*right, strict);
            lemma_in_order_is_bag(*left);
            lemma_in_order_is_bag(*right);
            broadcast use vstd::seq_lib::group_to_multiset_ensures;

            let l = left.in_order();
            let r = right.in_order();
            let s = t.in_order();
            assert forall|i: int| 0 <= i < l.len() implies if strict {
                (#[trigger] l[i]).rank() < key.rank()
            } else {
                l[i].rank() <= key.rank()
            } by {
                assert(l.contains(l[i]));
                assert(left.bag().count(l[i]) > 0);
            }
            assert forall|i: int| 0 <= i < r.len() implies if strict {
                key.rank() < (#[trigger] r[i]).rank()
            } else {
                key.rank() <= r[i].rank()
            } by {
                assert(r.contains(r[i]));
                assert(right.bag().count(r[i]) > 0);
            }
            assert forall|i: int, j: int| 0 <= i < j < s.len() implies (if strict {
                s[i].rank() < s[j].rank()
            } else {
                s[i].rank() <= s[j].rank()
            }) by {
                if j < l.len() {
                    assert(s[i] == l[i] && s[j] == l[j]);
                } else if j == l.len() {
                    assert(s[i] == l[i] && s[j] == key);
                } else if i < l.len() {
                    assert(s[i] == l[i] && s[j] == r[j - l.len() - 1]);
                } else if i == l.len() {
                    assert(s[i] == key && s[j] == r[j - l.len() - 1]);
                } else {
                    assert(s[i] == r[i - l.len() - 1] && s[j] == r[j - l.len() - 1]);
                }
            }
        },
    }
}

/// A tree has at most as many leaves as nodes, and is at most as high.
pub proof fn lemma_counts_bounded<K, G>(t: Tree<K, G>)
    ensures
        t.leaves() <= t.size(),
        t.height() <= t.size(),
        t.in_order().len() == t.size(),
        t.pre_order().len() == t.size(),
        t.post_order().len() == t.size(),
    decreases t,
{
    match t {
        Tree::Nil => {},
        Tree::Node { left, right, .. } => {
            lemma_counts_bounded(*left);
            lemma_counts_bounded(*right);
        },
    }
}

/// The number of nodes in all the trees of `s` together.
pub open spec fn total_size<K, G>(s: Seq<Tree<K, G>>) -> nat
    decreases s.len(),
{
    if s.len() == 0 {
        0
    } else {
        total_size(s.drop_last()) + s.last().size()
    }
}

/// The number of leaves in all the trees of `s` together.
pub open spec fn total_leaves<K, G>(s: Seq<Tree<K, G>>) -> nat
    decreases s.len(),
{
    if s.len() == 0 {
        0
    } else {
        total_leaves(s.drop_last()) + s.last().leaves()
    }
}

/// One more tree at the end adds its nodes and its leaves to the totals.
pub proof fn lemma_total_push<K, G>(s: Seq<Tree<K, G>>, t: Tree<K, G>)
    ensures
        total_size(s.push(t)) == total_size(s) + t.size(),
        total_leaves(s.push(t)) == total_leaves(s) + t.leaves(),
{
    assert(s.push(t).drop_last() =~= s);
}

/// The first tree and the rest make up the total.
pub proof fn lemma_total_first<K, G>(s: Seq<Tree<K, G>>)
    requires
        s.len() > 0,
    ensures
        total_size(s) == s.first().size() + total_size(s.drop_first()),
    decreases s.len(),
{
    if s.len() == 1 {
        assert(s.drop_last() =~= Seq::empty());
        assert(s.drop_first() =~= Seq::empty());
        assert(total_size(s.drop_last()) == 0);
    } else {
        lemma_total_first(s.drop_last());
        assert(s.drop_last().drop_first() =~= s.drop_first().drop_last());
        assert(s.drop_first().last() == s.last());
        assert(s.drop_last().first() == s.first());
    }
}

} // verus!
