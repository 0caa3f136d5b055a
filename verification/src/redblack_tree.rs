//! The colour-balanced engine.
//!
//! Nodes live in an arena and name their children and their parent by slot.
//! No key occurs twice: inserting a key that is present changes nothing.
//! After an insertion or a deletion the fix-up runs on the way back up the
//! search path, at every node whose subtree changed.
//!
//! The validity of a tree is a type invariant: no operation asks its caller
//! for it. The only demand on a caller is room for one more key on
//! insertion, which `size` lets it test.

use vstd::prelude::*;
use vstd::multiset::Multiset;
use std::collections::VecDeque;
use crate::key::{increasing, OrderedKey};
use crate::rb_links::{
    can_restructure, lemma_child_replaced, lemma_children_ready, lemma_descent_ready,
    lemma_double_left_links, lemma_double_left_ready, lemma_double_right_links,
    lemma_double_right_ready, lemma_key_swapped, lemma_left_turn_links, lemma_left_turn_ready,
    lemma_painted, lemma_removal_done, lemma_removal_kept, lemma_removed_below,
    lemma_removed_successor, lemma_right_turn_links, lemma_right_turn_ready, lemma_spliced,
    removed_in_place, replaced_in_place, rooted, same_outside, spliced,
};
use crate::rb_delete::{
    far, full_side, is_short, lemma_mended_keeps, lemma_sibling_lifted, lemma_taken_out, mended,
    mended_plain, near, short_side, sibling_lifted, still_short, with_deleted, with_short,
    with_sibling,
};
use crate::rb_insert::{
    away_from, grown, lemma_insert_settles, lemma_red_leaf, red_leaf, settled, toward,
    with_inserted,
};
use crate::rb_model::{
    black_height, capped, colors_ok, double_left, double_right, even_blacks, fits, flipped,
    flipped_below, is_rb, is_red, is_valid, lemma_black_height_bounded, lemma_blacks_need_nodes,
    lemma_rotated_keeps, no_red_red, opposite, rotated, tinted, ColorTree, Rotation,
};
use crate::arena::{next_slot, 
    give_back, is_spare, lemma_linked_frame, lemma_slots_in_arena, linked, spare_ok, take_slot,
    ArenaNode,
};
use crate::shape::{
    lemma_counts_bounded, lemma_in_order_is_bag, lemma_in_order_sorted, lemma_total_first,
    lemma_total_push, total_leaves, total_size, Tree,
};

verus! {

/// The colour of a node.
#[derive(Clone, Copy, Debug, PartialEq, Eq, Structural)]
pub enum NodeColor {
    Red,
    Black,
}

/// A node of the colour-balanced tree.
#[derive(Clone, Copy, Debug)]
pub struct TreeNode<K> {
    pub color: NodeColor,
    pub value: K,
    /// The slot of the node above, `None` at the root.
    pub parent: Option<usize>,
    /// The slot of the left child.
    pub left: Option<usize>,
    /// The slot of the right child.
    pub right: Option<usize>,
}

impl<K> ArenaNode<K, NodeColor> for TreeNode<K> {
    open spec fn node_key(self) -> K {
        self.value
    }

    open spec fn node_tag(self) -> NodeColor {
        self.color
    }

    open spec fn left_link(self) -> Option<usize> {
        self.left
    }

    open spec fn right_link(self) -> Option<usize> {
        self.right
    }

    open spec fn parent_link(self) -> Option<usize> {
        self.parent
    }
}

impl<K: OrderedKey> TreeNode<K> {
    /// A red node without links.
    pub fn new(value: K) -> (node: Self)
        ensures
            node == (TreeNode { color: NodeColor::Red, value, parent: None, left: None, right: None }),
    {
        TreeNode { color: NodeColor::Red, value, parent: None, left: None, right: None }
    }

    /// Turns a red node black and a black node red.
    pub fn flip_color(&mut self)
        ensures
            *final(self) == (TreeNode {
                color: match old(self).color {
                    NodeColor::Red => NodeColor::Black,
                    NodeColor::Black => NodeColor::Red,
                },
                ..*old(self)
            }),
    {
        match self.color {
            NodeColor::Red => self.color = NodeColor::Black,
            NodeColor::Black => self.color = NodeColor::Red,
        }
    }
}

/// The arena of a tree with its bookkeeping: the spare slots, the slot of
/// the root, the number of keys, and the model that the arena holds.
struct Store<K> {
    nodes: Vec<TreeNode<K>>,
    spare: Vec<usize>,
    root: Option<usize>,
    count: u32,
    shape: Ghost<ColorTree<K>>,
}

impl<K> Store<K> {
    /// The store of the empty tree.
    fn empty() -> (store: Self)
        ensures
            store.nodes@ =~= Seq::empty(),
            store.spare@ =~= Seq::empty(),
            store.root is None,
            store.count == 0,
            store.shape@ is Nil,
    {
        Store { nodes: Vec::new(), spare: Vec::new(), root: None, count: 0, shape: Ghost(Tree::Nil) }
    }
}

/// A colour-balanced search tree. Every tree is valid at all times: it is
/// strictly ordered, it keeps the colour rules, its root is black, and the
/// arena holds it with all links in place.
pub struct RedBlackTree<K: OrderedKey> {
    store: Store<K>,
}

impl<K: OrderedKey> RedBlackTree<K> {
    /// The model of the tree: its shape with the slot, key and colour of
    /// every node.
    pub closed spec fn tree(&self) -> ColorTree<K> {
        self.store.shape@
    }

    /// The node arena.
    pub closed spec fn arena(&self) -> Seq<TreeNode<K>> {
        self.store.nodes@
    }

    /// The slot that the tree names as its root.
    pub closed spec fn root_slot(&self) -> Option<usize> {
        self.store.root
    }

    /// The arena holds exactly the model: every node is linked to its
    /// children and its parent as the model says, the root is the top of the
    /// model, the element count is its size, and every slot of the arena is
    /// either a node of the tree or spare.
    pub closed spec fn well_linked(&self) -> bool {
        &&& linked(self.store.nodes@, self.store.shape@, None)
        &&& self.store.root == self.store.shape@.top()
        &&& self.store.count == self.store.shape@.size()
        &&& spare_ok(self.store.nodes@.len(), self.store.spare@, self.store.shape@.slots())
    }

    /// The tree is a valid colour-balanced search tree held by its arena.
    pub open spec fn wf(&self) -> bool {
        &&& self.well_linked()
        &&& is_valid(self.tree())
    }

    /// Every tree is valid.
    #[verifier::type_invariant]
    spec fn always_valid(self) -> bool {
        self.wf()
    }

    /// The slot that the next new node gets.
    pub closed spec fn next_slot(&self) -> usize {
        next_slot(self.store.nodes@.len(), self.store.spare@)
    }

    /// The number of keys.
    pub open spec fn len(&self) -> nat {
        self.tree().size()
    }

    /// The tree holds no key.
    pub open spec fn holds_nothing(&self) -> bool {
        self.len() == 0
    }

    /// What `check_properties` checks: the root is black, no red node has
    /// a red child, and at every node both subtrees have the same black
    /// height.
    pub open spec fn passes_check(&self) -> bool {
        &&& !is_red(self.tree())
        &&& colors_ok(self.tree())
    }

    /// What `well_linked` says, for callers outside this module.
    pub proof fn lemma_well_linked(&self)
        requires
            self.well_linked(),
        ensures
            linked(self.arena(), self.tree(), None),
            self.root_slot() == self.tree().top(),
            self.len() <= u32::MAX,
    {
    }

    /// An empty tree.
    pub fn new() -> (tree: Self)
        ensures
            tree.wf(),
            tree.tree() is Nil,
            tree@ =~= Set::empty(),
    {
        RedBlackTree { store: Store::empty() }
    }

    /// Inserts `value` unless it is present, and says whether it did. The
    /// root of the tree is black afterwards.
    pub fn insert(&mut self, value: K) -> (inserted: bool)
        requires
            old(self).len() < u32::MAX,
        ensures
            final(self).wf(),
            inserted == !old(self)@.contains(value),
            final(self).tree() == with_inserted(
                old(self).tree(),
                old(self).next_slot(),
                value,
            ).with_tag(NodeColor::Black),
            !old(self).tree().slots().contains(old(self).next_slot()),
            final(self)@ =~= old(self)@.insert(value),
            inserted ==> final(self).len() == old(self).len() + 1,
            !inserted ==> final(self).tree() == old(self).tree() && final(self).arena()
                == old(self).arena() && final(self).next_slot() == old(self).next_slot(),
    {
        proof {
            use_type_invariant(&*self);
        }
        let mut store = Store::empty();
        std::mem::swap(&mut store, &mut self.store);
        let ghost t = store.shape@;
        let ghost before = store.nodes@;
        proof {
            lemma_slots_in_arena(before, t, None);
            let next = next_slot(before.len(), store.spare@);
            if store.spare@.len() > 0 {
                assert(next == store.spare@[store.spare@.len() - 1]);
            } else {
                assert(next == store.nodes.len());
            }
            assert(!t.slots().contains(next));
        }
        let inserted = if let Some(root) = store.root {
            let (below, g) = Self::insert_recursive(
                &mut store.nodes,
                &mut store.spare,
                &mut store.root,
                root,
                value,
                Ghost(t),
                Ghost(t.slots()),
            );
            match below {
                Some(s) => {
                    let top = store.root.unwrap();
                    Self::paint(&mut store.nodes, top, NodeColor::Black, Ghost(g@));
                    store.shape = Ghost(g@.with_tag(NodeColor::Black));
                    proof {
                        let after = g@.with_tag(NodeColor::Black);
                        assert(after.slots() =~= t.slots().insert(s));
                        assert(after.bag() =~= g@.bag());
                        lemma_slots_in_arena(store.nodes@, after, None);
                        assert(after.size() == t.size() + 1);
                        assert(after.ordered(true));
                    }
                    store.count += 1;
                    true
                },
                None => false,
            }
        } else {
            let mut new_node = TreeNode::new(value);
            new_node.color = NodeColor::Black;
            let s = take_slot(&mut store.nodes, &mut store.spare, new_node, Ghost(t.slots()));
            store.root = Some(s);
            store.shape = Ghost(red_leaf(s, value).with_tag(NodeColor::Black));
            proof {
                let after = red_leaf(s, value).with_tag(NodeColor::Black);
                lemma_red_leaf(s, value);
                reveal_with_fuel(linked, 2);
                reveal_with_fuel(Tree::slots, 2);
                reveal_with_fuel(Tree::bag, 2);
                reveal_with_fuel(Tree::size, 2);
                reveal_with_fuel(Tree::ordered, 2);
                reveal_with_fuel(black_height, 2);
                reveal_with_fuel(even_blacks, 2);
                reveal_with_fuel(no_red_red, 2);
                assert(t.slots() =~= Set::empty());
                assert(t.bag() =~= Multiset::empty());
                assert(after.slots() =~= Set::empty().insert(s));
            }
            store.count += 1;
            true
        };
        self.store = store;
        inserted
    }

    /// Inserts `value` below the subtree at `parent` unless it is there
    /// already: goes down by comparison, hangs a new red node where the
    /// path ends, and on the way back up runs the fix-up at every node on
    /// the path. Returns the slot of the new node and the model of the
    /// subtree afterwards, or `None` where `value` was found.
    fn insert_recursive(
        nodes: &mut Vec<TreeNode<K>>,
        spare: &mut Vec<usize>,
        root: &mut Option<usize>,
        parent: usize,
        value: K,
        Ghost(t): Ghost<ColorTree<K>>,
        Ghost(used): Ghost<Set<usize>>,
    ) -> (res: (Option<usize>, Ghost<ColorTree<K>>))
        requires
            can_restructure(old(nodes)@, parent, t),
            is_rb(t),
            spare_ok(old(nodes)@.len(), old(spare)@, used),
            forall|i: usize| used.contains(i) ==> i < old(nodes)@.len(),
            forall|i: usize| t.slots().contains(i) ==> used.contains(i),
            old(nodes)@[parent as int].parent matches Some(p) ==> used.contains(p),
            old(nodes)@[parent as int].parent is None ==> *old(root) == Some(parent),
        ensures
            res.0 is None <==> t.bag().count(value) > 0,
            res.0 is None ==> final(nodes)@ == old(nodes)@ && final(spare)@ == old(spare)@
                && *final(root) == *old(root) && res.1@ == t,
            res.0 matches Some(s) ==> {
                &&& s == next_slot(old(nodes)@.len(), old(spare)@)
                &&& !used.contains(s)
                &&& s < final(nodes)@.len()
                &&& spare_ok(final(nodes)@.len(), final(spare)@, used.insert(s))
                &&& replaced_in_place(
                    old(nodes)@,
                    final(nodes)@,
                    parent,
                    t.slots().insert(s),
                    res.1@,
                )
                &&& res.1@.slots() =~= t.slots().insert(s)
                &&& res.1@ == with_inserted(t, s, value)
                &&& grown(t, res.1@, value)
                &&& *final(root) == if old(nodes)@[parent as int].parent is None {
                    res.1@.top()
                } else {
                    *old(root)
                }
            },
        decreases t,
    {
        let ghost before = nodes@;
        let ghost above = nodes@[parent as int].parent;
        proof {
            lemma_children_ready(before, parent, t);
        }
        if value.same_as(&nodes[parent].value) {
            proof {
                K::rank_is_injective(value, t->key);
            }
            return (None, Ghost(t));
        }
        let go_left = value.less_than(&nodes[parent].value);
        let leaf = if go_left {
            nodes[parent].left
        } else {
            nodes[parent].right
        };
        proof {
            if go_left {
                assert(t.r().bag().count(value) == 0);
            } else {
                assert(t.l().bag().count(value) == 0);
            }
        }
        let ghost sub: ColorTree<K>;
        let inserted: usize;
        match leaf {
            Some(node) => {
                let (below, grown_below) = Self::insert_recursive(
                    nodes,
                    spare,
                    root,
                    node,
                    value,
                    Ghost(toward(t, value)),
                    Ghost(used),
                );
                match below {
                    Some(s) => {
                        inserted = s;
                        proof {
                            sub = grown_below@;
                            lemma_child_replaced(
                                before,
                                nodes@,
                                parent,
                                t,
                                sub,
                                toward(t, value).slots().insert(s),
                                go_left,
                            );
                        }
                    },
                    None => {
                        return (None, Ghost(t));
                    },
                }
            },
            None => {
                let mut new_node = TreeNode::new(value);
                new_node.parent = Some(parent);
                let s = take_slot(nodes, spare, new_node, Ghost(used));
                if go_left {
                    nodes[parent].left = Some(s);
                } else {
                    nodes[parent].right = Some(s);
                }
                inserted = s;
                proof {
                    sub = red_leaf(s, value);
                    lemma_red_leaf(s, value);
                    assert(toward(t, value).bag() =~= Multiset::empty());
                    lemma_linked_frame(before, nodes@, t.l(), Some(parent));
                    lemma_linked_frame(before, nodes@, t.r(), Some(parent));
                    assert(linked(nodes@, sub, Some(parent))) by {
                        reveal_with_fuel(linked, 2);
                        reveal_with_fuel(Tree::slots, 2);
                    }
                }
            },
        }
        let ghost m = if go_left {
            t.with_left(sub)
        } else {
            t.with_right(sub)
        };
        let ghost mid = nodes@;
        proof {
            lemma_insert_settles(t, sub, value, m);
            assert(m.slots() =~= t.slots().insert(inserted));
            assert(linked(mid, m, above));
            assert(can_restructure(mid, parent, m));
            lemma_children_ready(mid, parent, m);
        }
        let child = if go_left {
            nodes[parent].left
        } else {
            nodes[parent].right
        };
        let below = match child {
            Some(c) => {
                proof {
                    lemma_children_ready(mid, c, toward(m, value));
                }
                if value.less_than(&nodes[c].value) {
                    nodes[c].left
                } else {
                    nodes[c].right
                }
            },
            None => None,
        };
        if let Some(x) = below {
            Self::rebalance_insert(nodes, root, x, Ghost(m), Ghost(value));
        }
        proof {
            assert forall|j: usize|
                j < before.len() && !t.slots().insert(inserted).contains(j) && Some(j)
                    != above implies nodes@[j as int] == before[j as int] by {
                assert(nodes@[j as int] == mid[j as int]);
            }
        }
        (Some(inserted), Ghost(settled(m, value)))
    }

    /// The fix-up after an insertion, seen from the node `inserted_node`
    /// two steps below the top of `m`: where it and its parent are both
    /// red, the colours flip if the uncle is red too, and the three nodes
    /// are reordered if not. Otherwise nothing changes.
    fn rebalance_insert(
        nodes: &mut Vec<TreeNode<K>>,
        root: &mut Option<usize>,
        inserted_node: usize,
        Ghost(m): Ghost<ColorTree<K>>,
        Ghost(value): Ghost<K>,
    )
        requires
            m is Node,
            can_restructure(old(nodes)@, m->slot, m),
            toward(toward(m, value), value).top() == Some(inserted_node),
            is_red(toward(m, value)) && is_red(toward(toward(m, value), value)) ==> !is_red(m),
            old(nodes)@[m->slot as int].parent is None ==> *old(root) == m.top(),
        ensures
            final(nodes)@.len() == old(nodes)@.len(),
            replaced_in_place(old(nodes)@, final(nodes)@, m->slot, m.slots(), settled(m, value)),
            *final(root) == if old(nodes)@[m->slot as int].parent is None {
                settled(m, value).top()
            } else {
                *old(root)
            },
    {
        let ghost grand = m->slot;
        let ghost p = toward(m, value);
        proof {
            lemma_children_ready(nodes@, grand, m);
            lemma_children_ready(nodes@, p->slot, p);
        }
        let parent_node = match nodes[inserted_node].parent {
            Some(parent) => parent,
            None => {
                return ;
            },
        };
        if nodes[parent_node].color != NodeColor::Red || nodes[inserted_node].color
            != NodeColor::Red {
            return ;
        }
        let grand_node = match nodes[parent_node].parent {
            Some(grand) => grand,
            None => {
                return ;
            },
        };
        let parent_is_left = match nodes[grand_node].left {
            Some(l) => l == parent_node,
            None => false,
        };
        let uncle = if parent_is_left {
            nodes[grand_node].right
        } else {
            nodes[grand_node].left
        };
        match uncle {
            Some(uncle_node) => {
                if nodes[uncle_node].color == NodeColor::Red {
                    Self::handle_red_uncle(nodes, uncle_node, parent_node, grand_node, Ghost(m));
                } else {
                    Self::handle_other_uncle(
                        nodes,
                        root,
                        inserted_node,
                        parent_node,
                        grand_node,
                        Ghost(m),
                        Ghost(value),
                    );
                }
            },
            None => {
                Self::handle_other_uncle(
                    nodes,
                    root,
                    inserted_node,
                    parent_node,
                    grand_node,
                    Ghost(m),
                    Ghost(value),
                );
            },
        }
    }

    /// The fix-up where the uncle is red: the parent and the uncle turn
    /// black and the grandparent turns red.
    fn handle_red_uncle(
        nodes: &mut Vec<TreeNode<K>>,
        uncle_node: usize,
        parent_node: usize,
        grand_node: usize,
        Ghost(m): Ghost<ColorTree<K>>,
    )
        requires
            can_restructure(old(nodes)@, grand_node, m),
            !is_red(m),
            is_red(m.l()),
            is_red(m.r()),
            uncle_node != parent_node,
            m.l().top() == Some(uncle_node) || m.r().top() == Some(uncle_node),
            m.l().top() == Some(parent_node) || m.r().top() == Some(parent_node),
        ensures
            final(nodes)@.len() == old(nodes)@.len(),
            replaced_in_place(old(nodes)@, final(nodes)@, grand_node, m.slots(), flipped(m)),
    {
        Self::flip_below(nodes, grand_node, uncle_node, Ghost(m));
        let ghost m1 = flipped_below(m, uncle_node);
        Self::flip_below(nodes, grand_node, parent_node, Ghost(m1));
        let ghost m2 = flipped_below(m1, parent_node);
        let ghost mid = nodes@;
        nodes[grand_node].flip_color();
        proof {
            lemma_painted(mid, nodes@, grand_node, m2, NodeColor::Red);
            assert(m2.with_tag(NodeColor::Red) == flipped(m));
            assert(m1.slots() =~= m.slots());
            assert(m2.slots() =~= m.slots());
        }
    }

    /// The fix-up where the uncle is black or absent: the inserted node, its
    /// parent and its grandparent are reordered so that the one with the
    /// middle key stands in the grandparent's place, black, over the other
    /// two, red.
    fn handle_other_uncle(
        nodes: &mut Vec<TreeNode<K>>,
        root: &mut Option<usize>,
        inserted_node: usize,
        parent_node: usize,
        grand_node: usize,
        Ghost(m): Ghost<ColorTree<K>>,
        Ghost(value): Ghost<K>,
    )
        requires
            can_restructure(old(nodes)@, grand_node, m),
            toward(m, value).top() == Some(parent_node),
            toward(toward(m, value), value).top() == Some(inserted_node),
            is_red(toward(m, value)),
            is_red(toward(toward(m, value), value)),
            !is_red(away_from(m, value)),
        ensures
            final(nodes)@.len() == old(nodes)@.len(),
            replaced_in_place(old(nodes)@, final(nodes)@, grand_node, m.slots(), settled(m, value)),
            *final(root) == if old(nodes)@[grand_node as int].parent is None {
                settled(m, value).top()
            } else {
                *old(root)
            },
    {
        let ghost before = nodes@;
        let ghost above = nodes@[grand_node as int].parent;
        let ghost p = toward(m, value);
        proof {
            lemma_children_ready(before, grand_node, m);
            lemma_children_ready(before, parent_node, p);
        }
        let parent_is_left = match nodes[grand_node].left {
            Some(l) => l == parent_node,
            None => false,
        };
        let inserted_is_left = match nodes[parent_node].left {
            Some(l) => l == inserted_node,
            None => false,
        };
        let rotation = if parent_is_left {
            if inserted_is_left {
                Rotation::RightOuter
            } else {
                Rotation::RightInner
            }
        } else {
            if inserted_is_left {
                Rotation::LeftInner
            } else {
                Rotation::LeftOuter
            }
        };
        proof {
            assert(settled(m, value) == capped(rotated(m, rotation)));
            assert(capped(rotated(m, rotation)) == tinted(
                rotated(m, rotation),
                NodeColor::Black,
                NodeColor::Red,
                NodeColor::Red,
            ));
        }
        let _ = Self::rotate_and_paint(
            nodes,
            root,
            grand_node,
            rotation,
            NodeColor::Black,
            NodeColor::Red,
            NodeColor::Red,
            Ghost(m),
        );
    }

    /// Removes `value`, if it is present, and says whether it did.
    pub fn delete(&mut self, value: K) -> (found: bool)
        ensures
            final(self).wf(),
            final(self).tree() == with_deleted(old(self).tree(), value).0,
            found == old(self)@.contains(value),
            found ==> old(self).tree().leaving(value) == Some(final(self).next_slot()),
            final(self)@ =~= old(self)@.remove(value),
            found ==> final(self).len() + 1 == old(self).len(),
            !found ==> final(self).tree() == old(self).tree() && final(self).arena()
                == old(self).arena() && final(self).next_slot() == old(self).next_slot(),
    {
        proof {
            use_type_invariant(&*self);
        }
        let mut store = Store::empty();
        std::mem::swap(&mut store, &mut self.store);
        let ghost t = store.shape@;
        let found = if let Some(root) = store.root {
            proof {
                lemma_slots_in_arena(store.nodes@, t, None);
            }
            let (deleted, _, after) = Self::delete_node(
                &mut store.nodes,
                &mut store.root,
                root,
                value,
                Ghost(t),
            );
            match deleted {
                Some(slot) => {
                    store.shape = after;
                    proof {
                        lemma_slots_in_arena(store.nodes@, after@, None);
                        assert(t.slots() =~= after@.slots().insert(slot));
                    }
                    store.count -= 1;
                    give_back(&mut store.spare, slot, Ghost(store.nodes@.len()), Ghost(t.slots()));
                    true
                },
                None => false,
            }
        } else {
            proof {
                assert(t.bag() =~= Multiset::empty());
            }
            false
        };
        self.store = store;
        found
    }

    /// Removes `value` from the subtree at `node`, if it is there. A node
    /// with two children takes the least key of its right subtree, and that
    /// key is removed there; a node with one child hands its place to the
    /// child, which turns black; a node without children is unlinked. On
    /// the way back up the fix-up runs wherever the subtree below came back
    /// one black node short. Returns the slot of the node that was taken
    /// out, whether the subtree is one black node short, and its model
    /// afterwards.
    fn delete_node(
        nodes: &mut Vec<TreeNode<K>>,
        root: &mut Option<usize>,
        node: usize,
        value: K,
        Ghost(t): Ghost<ColorTree<K>>,
    ) -> (res: (Option<usize>, bool, Ghost<ColorTree<K>>))
        requires
            can_restructure(old(nodes)@, node, t),
            is_rb(t),
            old(nodes)@[node as int].parent is None ==> *old(root) == Some(node),
        ensures
            (res.2@, res.1) == with_deleted(t, value),
            res.0 == t.leaving(value),
            (res.0 is None) == (t.bag().count(value) == 0),
            res.0 is None ==> final(nodes)@ == old(nodes)@ && *final(root) == *old(root) && res.2@
                == t,
            res.0 matches Some(s) ==> removed_in_place(
                old(nodes)@,
                final(nodes)@,
                *old(root),
                *final(root),
                node,
                t,
                value,
                s,
                res.2@,
                res.1,
            ),
        decreases t,
    {
        let ghost before = nodes@;
        let ghost root_before = *root;
        proof {
            lemma_children_ready(before, node, t);
            lemma_descent_ready(t, value);
        }
        let key = nodes[node].value;
        let ghost m: ColorTree<K>;
        let removed: usize;
        let short_below: bool;
        let on_left: bool;
        if value.same_as(&key) {
            let left = nodes[node].left;
            let right = nodes[node].right;
            match (left, right) {
                (Some(_), Some(right_node)) => {
                    let successor_node = Self::find_min_node(
                        nodes,
                        right_node,
                        Ghost(t.r()),
                        Ghost(Some(node)),
                    );
                    let new_value = nodes[successor_node].value;
                    nodes[node].value = new_value;
                    let ghost swapped = nodes@;
                    proof {
                        lemma_key_swapped(before, swapped, node, t);
                    }
                    let (was_deleted, short, sub) = Self::delete_node(
                        nodes,
                        root,
                        right_node,
                        new_value,
                        Ghost(t.r()),
                    );
                    proof {
                        t.r().lemma_least_strict();
                    }
                    removed = was_deleted.unwrap();
                    short_below = short;
                    on_left = false;
                    proof {
                        m = t.with_key(new_value).with_right(sub@);
                        lemma_removed_successor(
                            before,
                            swapped,
                            nodes@,
                            root_before,
                            *root,
                            node,
                            t,
                            sub@,
                            removed,
                            short,
                        );
                    }
                },
                _ => {
                    let node_color = nodes[node].color;
                    let child = Self::take_out(nodes, root, node, Ghost(t));
                    let ghost mid = nodes@;
                    proof {
                        lemma_spliced(before, mid, node, t);
                        lemma_taken_out(t);
                    }
                    match child {
                        Some(c) => {
                            Self::paint(nodes, c, NodeColor::Black, Ghost(t.only_child()));
                            proof {
                                let parent = before[node as int].parent;
                                if let Some(p) = parent {
                                    assert(nodes@[p as int] == mid[p as int]);
                                }
                                assert forall|j: usize|
                                    j < before.len() && !t.slots().contains(j) && Some(j)
                                        != parent implies nodes@[j as int] == before[j as int] by {
                                    assert(nodes@[j as int] == mid[j as int]);
                                }
                                assert(t.only_child().with_tag(NodeColor::Black).slots()
                                    =~= t.only_child().slots());
                            }
                            return (
                                Some(node),
                                false,
                                Ghost(t.only_child().with_tag(NodeColor::Black)),
                            );
                        },
                        None => {
                            return (Some(node), node_color == NodeColor::Black, Ghost(Tree::Nil));
                        },
                    }
                },
            }
        } else {
            on_left = value.less_than(&key);
            let below = if on_left {
                nodes[node].left
            } else {
                nodes[node].right
            };
            match below {
                Some(child) => {
                    let (was_deleted, short, sub) = Self::delete_node(
                        nodes,
                        root,
                        child,
                        value,
                        Ghost(toward(t, value)),
                    );
                    match was_deleted {
                        Some(s) => {
                            removed = s;
                            short_below = short;
                            proof {
                                m = with_short(t, on_left, sub@);
                                lemma_removed_below(
                                    before,
                                    nodes@,
                                    root_before,
                                    *root,
                                    node,
                                    t,
                                    sub@,
                                    s,
                                    value,
                                    short,
                                );
                            }
                        },
                        None => {
                            return (None, false, Ghost(t));
                        },
                    }
                },
                None => {
                    return (None, false, Ghost(t));
                },
            }
        }
        let ghost mid = nodes@;
        if short_below {
            let short = Self::delete_balanced(nodes, root, node, on_left, Ghost(m));
            proof {
                lemma_removal_done(before, mid, nodes@, node, t, m, removed, mended(m, on_left));
            }
            (Some(removed), short, Ghost(mended(m, on_left)))
        } else {
            proof {
                lemma_removal_kept(before, mid, node, t, m, removed);
            }
            (Some(removed), false, Ghost(m))
        }
    }

    /// The fix-up after a deletion, seen from the node `parent` whose
    /// subtree on one side has become one black node short. It acts by the
    /// colours of the parent, of the sibling on the other side and of the
    /// sibling's children, and says whether the subtree at `parent` is now
    /// short itself.
    fn delete_balanced(
        nodes: &mut Vec<TreeNode<K>>,
        root: &mut Option<usize>,
        parent: usize,
        on_left: bool,
        Ghost(m): Ghost<ColorTree<K>>,
    ) -> (short: bool)
        requires
            can_restructure(old(nodes)@, parent, m),
            is_short(m, on_left),
            old(nodes)@[parent as int].parent is None ==> *old(root) == Some(parent),
        ensures
            final(nodes)@.len() == old(nodes)@.len(),
            replaced_in_place(old(nodes)@, final(nodes)@, parent, m.slots(), mended(m, on_left)),
            *final(root) == if old(nodes)@[parent as int].parent is None {
                mended(m, on_left).top()
            } else {
                *old(root)
            },
            short == still_short(m, on_left),
        decreases
                (if !is_red(m) && is_red(full_side(m, on_left)) {
                    1nat
                } else {
                    0nat
                }),
    {
        let ghost before = nodes@;
        let ghost above = nodes@[parent as int].parent;
        proof {
            lemma_children_ready(before, parent, m);
            lemma_blacks_need_nodes(full_side(m, on_left));
            lemma_children_ready(before, full_side(m, on_left)->slot, full_side(m, on_left));
            if near(m, on_left) is Node {
                lemma_children_ready(before, near(m, on_left)->slot, near(m, on_left));
            }
            if far(m, on_left) is Node {
                lemma_children_ready(before, far(m, on_left)->slot, far(m, on_left));
            }
        }
        let parent_color = nodes[parent].color;
        let sibling = if on_left {
            nodes[parent].right
        } else {
            nodes[parent].left
        };
        let sibling = sibling.unwrap();
        let sibling_color = nodes[sibling].color;
        let near_node = if on_left {
            nodes[sibling].left
        } else {
            nodes[sibling].right
        };
        let far_node = if on_left {
            nodes[sibling].right
        } else {
            nodes[sibling].left
        };
        let near_red = match near_node {
            Some(n) => nodes[n].color == NodeColor::Red,
            None => false,
        };
        let far_red = match far_node {
            Some(n) => nodes[n].color == NodeColor::Red,
            None => false,
        };
        let outer = if on_left {
            Rotation::LeftOuter
        } else {
            Rotation::RightOuter
        };
        let inner = if on_left {
            Rotation::LeftInner
        } else {
            Rotation::RightInner
        };
        if sibling_color == NodeColor::Red {
            proof {
                lemma_sibling_lifted(m, on_left);
            }
            let top = Self::rotate_and_paint(
                nodes,
                root,
                parent,
                outer,
                NodeColor::Black,
                if on_left {
                    NodeColor::Red
                } else {
                    NodeColor::Black
                },
                if on_left {
                    NodeColor::Black
                } else {
                    NodeColor::Red
                },
                Ghost(m),
            );
            let ghost mid = nodes@;
            let ghost lifted = sibling_lifted(m, on_left);
            let ghost low = short_side(lifted, on_left);
            proof {
                assert(lifted == tinted(rotated(m, outer), NodeColor::Black, if on_left {
                    NodeColor::Red
                } else {
                    NodeColor::Black
                }, if on_left {
                    NodeColor::Black
                } else {
                    NodeColor::Red
                }));
                assert(can_restructure(mid, top, lifted));
                lemma_children_ready(mid, top, lifted);
                assert(low.top() == Some(parent));
            }
            let _ = Self::delete_balanced(nodes, root, parent, on_left, Ghost(low));
            proof {
                lemma_child_replaced(
                    mid,
                    nodes@,
                    top,
                    lifted,
                    mended(low, on_left),
                    low.slots(),
                    on_left,
                );
                lemma_mended_keeps(low, on_left);
                assert(mended(m, on_left) == with_short(lifted, on_left, mended_plain(low, on_left)));
                assert(mended(low, on_left) == mended_plain(low, on_left));
                assert(lifted.slots().union(low.slots()) =~= m.slots());
                if let Some(a) = above {
                    assert(nodes@[a as int] == mid[a as int]);
                }
                assert forall|j: usize|
                    j < before.len() && !m.slots().contains(j) && Some(j)
                        != above implies nodes@[j as int] == before[j as int] by {
                    assert(nodes@[j as int] == mid[j as int]);
                }
            }
            false
        } else if !near_red && !far_red {
            Self::paint(nodes, sibling, NodeColor::Red, Ghost(full_side(m, on_left)));
            let ghost mid = nodes@;
            let ghost m1 = with_sibling(m, on_left, NodeColor::Red);
            proof {
                lemma_child_replaced(
                    before,
                    mid,
                    parent,
                    m,
                    full_side(m, on_left).with_tag(NodeColor::Red),
                    full_side(m, on_left).slots(),
                    !on_left,
                );
                assert(m.slots().union(full_side(m, on_left).slots()) =~= m.slots());
            }
            Self::paint(nodes, parent, NodeColor::Black, Ghost(m1));
            proof {
                assert(m1.slots() =~= m.slots());
                if let Some(a) = above {
                    assert(nodes@[a as int] == mid[a as int]);
                }
                assert forall|j: usize|
                    j < before.len() && !m.slots().contains(j) && Some(j)
                        != above implies nodes@[j as int] == before[j as int] by {
                    assert(nodes@[j as int] == mid[j as int]);
                }
            }
            parent_color == NodeColor::Black
        } else if near_red {
            let _ = Self::rotate_and_paint(
                nodes,
                root,
                parent,
                inner,
                parent_color,
                NodeColor::Black,
                NodeColor::Black,
                Ghost(m),
            );
            false
        } else {
            let _ = Self::rotate_and_paint(
                nodes,
                root,
                parent,
                outer,
                parent_color,
                NodeColor::Black,
                NodeColor::Black,
                Ghost(m),
            );
            false
        }
    }

    /// The slot of the leftmost node of the subtree at `node`, which holds
    /// its least key.
    fn find_min_node(
        nodes: &Vec<TreeNode<K>>,
        node: usize,
        Ghost(t): Ghost<ColorTree<K>>,
        Ghost(parent): Ghost<Option<usize>>,
    ) -> (res: usize)
        requires
            linked(nodes@, t, parent),
            t.top() == Some(node),
        ensures
            res < nodes@.len(),
            t.slots().contains(res),
            nodes@[res as int].value == t.least(),
    {
        let mut current = node;
        let ghost mut cur_t = t;
        let ghost mut cur_p = parent;
        loop
            invariant
                linked(nodes@, cur_t, cur_p),
                cur_t.top() == Some(current),
                cur_t.least() == t.least(),
                forall|s: usize| cur_t.slots().contains(s) ==> t.slots().contains(s),
            ensures
                current < nodes@.len(),
                t.slots().contains(current),
                nodes@[current as int].value == t.least(),
            decreases cur_t,
        {
            proof {
                assert(cur_t.slots().contains(current));
                assert(linked(nodes@, cur_t.l(), Some(current)));
            }
            match nodes[current].left {
                Some(left) => {
                    proof {
                        cur_p = Some(current);
                        cur_t = cur_t.l();
                    }
                    current = left;
                },
                None => {
                    break ;
                },
            }
        }
        current
    }

    /// Takes the node in slot `node`, which has at most one child, out of
    /// the tree and puts its child, if any, in its place. Returns the slot
    /// of that child.
    fn take_out(
        nodes: &mut Vec<TreeNode<K>>,
        root: &mut Option<usize>,
        node: usize,
        Ghost(t): Ghost<ColorTree<K>>,
    ) -> (child: Option<usize>)
        requires
            can_restructure(old(nodes)@, node, t),
            t.l() is Nil || t.r() is Nil,
        ensures
            final(nodes)@.len() == old(nodes)@.len(),
            child == t.only_child().top(),
            spliced(old(nodes)@, final(nodes)@, node, child),
            *final(root) == if old(nodes)@[node as int].parent is None {
                child
            } else {
                *old(root)
            },
    {
        proof {
            lemma_children_ready(nodes@, node, t);
        }
        let child = match nodes[node].left {
            Some(l) => Some(l),
            None => nodes[node].right,
        };
        let above = nodes[node].parent;
        if let Some(c) = child {
            nodes[c].parent = above;
        }
        match above {
            Some(p) => {
                let is_left = match nodes[p].left {
                    Some(l) => l == node,
                    None => false,
                };
                if is_left {
                    nodes[p].left = child;
                } else {
                    nodes[p].right = child;
                }
            },
            None => {
                *root = child;
            },
        }
        child
    }

    /// Restructures the subtree at `node` by the given rotation and gives
    /// the new top and its two children the given colours. Returns the slot
    /// of the new top.
    fn rotate_and_paint(
        nodes: &mut Vec<TreeNode<K>>,
        root: &mut Option<usize>,
        node: usize,
        rotation: Rotation,
        top: NodeColor,
        left: NodeColor,
        right: NodeColor,
        Ghost(m): Ghost<ColorTree<K>>,
    ) -> (new_top: usize)
        requires
            can_restructure(old(nodes)@, node, m),
            fits(m, rotation),
        ensures
            final(nodes)@.len() == old(nodes)@.len(),
            replaced_in_place(
                old(nodes)@,
                final(nodes)@,
                node,
                m.slots(),
                tinted(rotated(m, rotation), top, left, right),
            ),
            tinted(rotated(m, rotation), top, left, right).top() == Some(new_top),
            tinted(rotated(m, rotation), top, left, right).slots() =~= m.slots(),
            same_outside(
                old(nodes)@,
                final(nodes)@,
                match old(nodes)@[node as int].parent {
                    Some(p) => m.slots().insert(p),
                    None => m.slots(),
                },
            ),
            final(nodes)@[new_top as int].parent == old(nodes)@[node as int].parent,
            *final(root) == if old(nodes)@[node as int].parent is None {
                Some(new_top)
            } else {
                *old(root)
            },
    {
        let ghost before = nodes@;
        let ghost above = nodes@[node as int].parent;
        proof {
            lemma_rotated_keeps(m, rotation);
        }
        match rotation {
            Rotation::LeftInner => Self::rotate_left_left(nodes, root, node, Ghost(m)),
            Rotation::LeftOuter => Self::rotate_left_right(nodes, root, node, Ghost(m)),
            Rotation::RightInner => Self::rotate_right_inner(nodes, root, node, Ghost(m)),
            Rotation::RightOuter => Self::rotate_right_extern(nodes, root, node, Ghost(m)),
        }
        let ghost mid = nodes@;
        let ghost r = rooted(above, rotated(m, rotation));
        proof {
            assert(tinted(r, top, left, right) == tinted(rotated(m, rotation), top, left, right));
            assert(r.slots() =~= m.slots());
            assert(linked(mid, r, above));
            assert(linked(mid, r.l(), r.top()));
            assert(linked(mid, r.r(), r.top()));
            assert(r.l().slots().contains(node) || r.r().slots().contains(node));
        }
        let new_top = nodes[node].parent.unwrap();
        proof {
            assert(r.top() == Some(new_top));
            assert(can_restructure(mid, new_top, r));
        }
        Self::paint_three(nodes, new_top, top, left, right, Ghost(r));
        proof {
            assert(mid[new_top as int].parent == above);
            if let Some(a) = above {
                assert(nodes@[a as int] == mid[a as int]);
            }
            assert forall|j: usize|
                j < before.len() && !m.slots().contains(j) && Some(j) != above implies nodes@[j as int]
                == before[j as int] by {
                assert(nodes@[j as int] == mid[j as int]);
            }
        }
        new_top
    }

    /// Lifts the right child of `node` over it: the child takes the place
    /// of `node` below its parent, `node` becomes the child's left child
    /// and takes over the child's former left subtree as its right one.
    /// A child that comes to stand at the root is made black and named as
    /// the root.
    fn rotate_left_right(
        nodes: &mut Vec<TreeNode<K>>,
        root: &mut Option<usize>,
        node: usize,
        Ghost(t): Ghost<ColorTree<K>>,
    )
        requires
            can_restructure(old(nodes)@, node, t),
            t.r() is Node,
        ensures
            final(nodes)@.len() == old(nodes)@.len(),
            replaced_in_place(
                old(nodes)@,
                final(nodes)@,
                node,
                t.slots(),
                rooted(old(nodes)@[node as int].parent, t.turned_left()),
            ),
            *final(root) == if old(nodes)@[node as int].parent is None {
                t.r().top()
            } else {
                *old(root)
            },
    {
        proof {
            lemma_left_turn_ready(nodes@, node, t);
        }
        let pivot = nodes[node].right.unwrap();
        let inner = nodes[pivot].left;
        let parent = nodes[node].parent;
        if let Some(i) = inner {
            nodes[i].parent = Some(node);
        }
        nodes[node].right = inner;
        nodes[node].parent = Some(pivot);
        nodes[pivot].left = Some(node);
        nodes[pivot].parent = parent;
        match parent {
            Some(p) => {
                let is_left = match nodes[p].left {
                    Some(l) => l == node,
                    None => false,
                };
                if is_left {
                    nodes[p].left = Some(pivot);
                } else {
                    nodes[p].right = Some(pivot);
                }
            },
            None => {
                nodes[pivot].color = NodeColor::Black;
                *root = Some(pivot);
            },
        }
        proof {
            lemma_left_turn_links(old(nodes)@, nodes@, node, t);
        }
    }

    /// Lifts the left child of the right child of `node` over both: it
    /// takes the place of `node` below its parent, with `node` as its
    /// left child and the former right child of `node` as its right
    /// child, and hands its own subtrees to the two. A node that comes to
    /// stand at the root is made black and named as the root.
    fn rotate_left_left(
        nodes: &mut Vec<TreeNode<K>>,
        root: &mut Option<usize>,
        node: usize,
        Ghost(t): Ghost<ColorTree<K>>,
    )
        requires
            can_restructure(old(nodes)@, node, t),
            t.r().l() is Node,
        ensures
            final(nodes)@.len() == old(nodes)@.len(),
            replaced_in_place(
                old(nodes)@,
                final(nodes)@,
                node,
                t.slots(),
                rooted(old(nodes)@[node as int].parent, double_left(t)),
            ),
            *final(root) == if old(nodes)@[node as int].parent is None {
                t.r().l().top()
            } else {
                *old(root)
            },
    {
        proof {
            lemma_double_left_ready(nodes@, node, t);
        }
        let side = nodes[node].right.unwrap();
        let middle = nodes[side].left.unwrap();
        let middle_left = nodes[middle].left;
        let middle_right = nodes[middle].right;
        let parent = nodes[node].parent;
        if let Some(i) = middle_left {
            nodes[i].parent = Some(node);
        }
        if let Some(i) = middle_right {
            nodes[i].parent = Some(side);
        }
        nodes[node].right = middle_left;
        nodes[node].parent = Some(middle);
        nodes[side].left = middle_right;
        nodes[side].parent = Some(middle);
        nodes[middle].left = Some(node);
        nodes[middle].right = Some(side);
        nodes[middle].parent = parent;
        match parent {
            Some(p) => {
                let is_left = match nodes[p].left {
                    Some(l) => l == node,
                    None => false,
                };
                if is_left {
                    nodes[p].left = Some(middle);
                } else {
                    nodes[p].right = Some(middle);
                }
            },
            None => {
                nodes[middle].color = NodeColor::Black;
                *root = Some(middle);
            },
        }
        proof {
            lemma_double_left_links(old(nodes)@, nodes@, node, t);
        }
    }

    /// Lifts the left child of `node` over it: the child takes the place
    /// of `node` below its parent, `node` becomes the child's right child
    /// and takes over the child's former right subtree as its left one.
    /// A child that comes to stand at the root is made black and named as
    /// the root.
    fn rotate_right_extern(
        nodes: &mut Vec<TreeNode<K>>,
        root: &mut Option<usize>,
        node: usize,
        Ghost(t): Ghost<ColorTree<K>>,
    )
        requires
            can_restructure(old(nodes)@, node, t),
            t.l() is Node,
        ensures
            final(nodes)@.len() == old(nodes)@.len(),
            replaced_in_place(
                old(nodes)@,
                final(nodes)@,
                node,
                t.slots(),
                rooted(old(nodes)@[node as int].parent, t.turned_right()),
            ),
            *final(root) == if old(nodes)@[node as int].parent is None {
                t.l().top()
            } else {
                *old(root)
            },
    {
        proof {
            lemma_right_turn_ready(nodes@, node, t);
        }
        let pivot = nodes[node].left.unwrap();
        let inner = nodes[pivot].right;
        let parent = nodes[node].parent;
        if let Some(i) = inner {
            nodes[i].parent = Some(node);
        }
        nodes[node].left = inner;
        nodes[node].parent = Some(pivot);
        nodes[pivot].right = Some(node);
        nodes[pivot].parent = parent;
        match parent {
            Some(p) => {
                let is_left = match nodes[p].left {
                    Some(l) => l == node,
                    None => false,
                };
                if is_left {
                    nodes[p].left = Some(pivot);
                } else {
                    nodes[p].right = Some(pivot);
                }
            },
            None => {
                nodes[pivot].color = NodeColor::Black;
                *root = Some(pivot);
            },
        }
        proof {
            lemma_right_turn_links(old(nodes)@, nodes@, node, t);
        }
    }

    /// Lifts the right child of the left child of `node` over both: it
    /// takes the place of `node` below its parent, with `node` as its
    /// right child and the former left child of `node` as its left
    /// child, and hands its own subtrees to the two. A node that comes to
    /// stand at the root is made black and named as the root.
    fn rotate_right_inner(
        nodes: &mut Vec<TreeNode<K>>,
        root: &mut Option<usize>,
        node: usize,
        Ghost(t): Ghost<ColorTree<K>>,
    )
        requires
            can_restructure(old(nodes)@, node, t),
            t.l().r() is Node,
        ensures
            final(nodes)@.len() == old(nodes)@.len(),
            replaced_in_place(
                old(nodes)@,
                final(nodes)@,
                node,
                t.slots(),
                rooted(old(nodes)@[node as int].parent, double_right(t)),
            ),
            *final(root) == if old(nodes)@[node as int].parent is None {
                t.l().r().top()
            } else {
                *old(root)
            },
    {
        proof {
            lemma_double_right_ready(nodes@, node, t);
        }
        let side = nodes[node].left.unwrap();
        let middle = nodes[side].right.unwrap();
        let middle_left = nodes[middle].left;
        let middle_right = nodes[middle].right;
        let parent = nodes[node].parent;
        if let Some(i) = middle_right {
            nodes[i].parent = Some(node);
        }
        if let Some(i) = middle_left {
            nodes[i].parent = Some(side);
        }
        nodes[node].left = middle_right;
        nodes[node].parent = Some(middle);
        nodes[side].right = middle_left;
        nodes[side].parent = Some(middle);
        nodes[middle].right = Some(node);
        nodes[middle].left = Some(side);
        nodes[middle].parent = parent;
        match parent {
            Some(p) => {
                let is_left = match nodes[p].left {
                    Some(l) => l == node,
                    None => false,
                };
                if is_left {
                    nodes[p].left = Some(middle);
                } else {
                    nodes[p].right = Some(middle);
                }
            },
            None => {
                nodes[middle].color = NodeColor::Black;
                *root = Some(middle);
            },
        }
        proof {
            lemma_double_right_links(old(nodes)@, nodes@, node, t);
        }
    }

    /// Gives the node in slot `node` the colour `color`.
    fn paint(
        nodes: &mut Vec<TreeNode<K>>,
        node: usize,
        color: NodeColor,
        Ghost(t): Ghost<ColorTree<K>>,
    )
        requires
            can_restructure(old(nodes)@, node, t),
        ensures
            final(nodes)@.len() == old(nodes)@.len(),
            final(nodes)@[node as int].parent == old(nodes)@[node as int].parent,
            can_restructure(final(nodes)@, node, t.with_tag(color)),
            replaced_in_place(old(nodes)@, final(nodes)@, node, t.slots(), t.with_tag(color)),
            same_outside(old(nodes)@, final(nodes)@, t.slots()),
    {
        proof {
            lemma_children_ready(nodes@, node, t);
        }
        nodes[node].color = color;
        proof {
            lemma_painted(old(nodes)@, nodes@, node, t, color);
        }
    }

    /// Gives the top node of `t` and its two children the colours `top`,
    /// `left` and `right`.
    fn paint_three(
        nodes: &mut Vec<TreeNode<K>>,
        node: usize,
        top: NodeColor,
        left: NodeColor,
        right: NodeColor,
        Ghost(t): Ghost<ColorTree<K>>,
    )
        requires
            can_restructure(old(nodes)@, node, t),
            t.l() is Node,
            t.r() is Node,
        ensures
            final(nodes)@.len() == old(nodes)@.len(),
            final(nodes)@[node as int].parent == old(nodes)@[node as int].parent,
            replaced_in_place(
                old(nodes)@,
                final(nodes)@,
                node,
                t.slots(),
                t.with_tag(top).with_left(t.l().with_tag(left)).with_right(t.r().with_tag(right)),
            ),
            same_outside(old(nodes)@, final(nodes)@, t.slots()),
    {
        let ghost before = nodes@;
        proof {
            lemma_children_ready(before, node, t);
        }
        Self::paint(nodes, node, top, Ghost(t));
        let ghost t1 = t.with_tag(top);
        let ghost s1 = nodes@;
        proof {
            lemma_children_ready(s1, node, t1);
        }
        let l = nodes[node].left.unwrap();
        Self::paint(nodes, l, left, Ghost(t1.l()));
        let ghost t2 = t1.with_left(t1.l().with_tag(left));
        let ghost s2 = nodes@;
        proof {
            lemma_child_replaced(s1, s2, node, t1, t1.l().with_tag(left), t1.l().slots(), true);
            lemma_children_ready(s2, node, t2);
        }
        let r = nodes[node].right.unwrap();
        Self::paint(nodes, r, right, Ghost(t2.r()));
        proof {
            lemma_child_replaced(s2, nodes@, node, t2, t2.r().with_tag(right), t2.r().slots(), false);
        }
    }

    /// Gives the child of `above` in slot `node` the other colour.
    fn flip_below(
        nodes: &mut Vec<TreeNode<K>>,
        above: usize,
        node: usize,
        Ghost(t): Ghost<ColorTree<K>>,
    )
        requires
            can_restructure(old(nodes)@, above, t),
            t.l().top() == Some(node) || t.r().top() == Some(node),
        ensures
            final(nodes)@.len() == old(nodes)@.len(),
            final(nodes)@[above as int].parent == old(nodes)@[above as int].parent,
            can_restructure(final(nodes)@, above, flipped_below(t, node)),
            replaced_in_place(old(nodes)@, final(nodes)@, above, t.slots(), flipped_below(t, node)),
            same_outside(old(nodes)@, final(nodes)@, t.slots()),
    {
        let ghost on_left = t.l().top() == Some(node);
        let ghost sub = if on_left {
            t.l()
        } else {
            t.r()
        };
        proof {
            lemma_children_ready(nodes@, above, t);
        }
        nodes[node].flip_color();
        proof {
            lemma_painted(old(nodes)@, nodes@, node, sub, opposite(sub->tag));
            lemma_child_replaced(
                old(nodes)@,
                nodes@,
                above,
                t,
                sub.with_tag(opposite(sub->tag)),
                sub.slots(),
                on_left,
            );
            assert(t.slots().union(sub.slots()) =~= t.slots());
        }
    }

    /// The slot of the node that holds `value`, or `None` where no node
    /// does.
    pub fn try_get_node(&self, value: K) -> (res: Option<usize>)
        ensures
            res == self.tree().find(value),
            (res is Some) == self@.contains(value),
            res matches Some(s) ==> self.tree().slots().contains(s) && s < self.arena().len()
                && self.arena()[s as int].value == value,
    {
        proof {
            use_type_invariant(self);
        }
        let ghost t = self.store.shape@;
        let mut current = self.store.root;
        let ghost mut cur_t = t;
        let ghost mut cur_p: Option<usize> = None;
        loop
            invariant
                t == self.store.shape@,
                linked(self.store.nodes@, cur_t, cur_p),
                cur_t.top() == current,
                cur_t.ordered(true),
                cur_t.find(value) == t.find(value),
                cur_t.bag().count(value) == t.bag().count(value),
                forall|s: usize| cur_t.slots().contains(s) ==> t.slots().contains(s),
            ensures
                current is None,
                t.find(value) is None,
                t.bag().count(value) == 0,
            decreases cur_t,
        {
            match current {
                Some(node) => {
                    proof {
                        assert(cur_t.slots().contains(node));
                        assert(linked(self.store.nodes@, cur_t.l(), Some(node)));
                        assert(linked(self.store.nodes@, cur_t.r(), Some(node)));
                    }
                    if self.store.nodes[node].value.same_as(&value) {
                        proof {
                            K::rank_is_injective(value, cur_t->key);
                            assert(cur_t.bag().count(value) > 0);
                        }
                        return Some(node);
                    } else if self.store.nodes[node].value.less_than(&value) {
                        proof {
                            assert(cur_t.l().bag().count(value) == 0);
                            cur_p = Some(node);
                            cur_t = cur_t.r();
                        }
                        current = self.store.nodes[node].right;
                    } else {
                        proof {
                            assert(cur_t.r().bag().count(value) == 0);
                            cur_p = Some(node);
                            cur_t = cur_t.l();
                        }
                        current = self.store.nodes[node].left;
                    }
                },
                None => {
                    proof {
                        assert(cur_t.bag() =~= Multiset::empty());
                    }
                    break ;
                },
            }
        }
        None
    }

    /// Whether `value` is present. The tree stays as it is.
    pub fn search_node(&mut self, value: K) -> (found: bool)
        ensures
            found == old(self)@.contains(value),
            found == (old(self).tree().find(value) is Some),
            *final(self) == *old(self),
    {
        self.try_get_node(value).is_some()
    }

    /// Replaces `old_value` by `new_value`: removes the one, then inserts
    /// the other. Says whether both the removal and the insertion took
    /// place.
    pub fn update_node(&mut self, old_value: K, new_value: K) -> (updated: bool)
        requires
            old(self).len() < u32::MAX,
        ensures
            final(self).wf(),
            final(self)@ =~= old(self)@.remove(old_value).insert(new_value),
            updated == (old(self)@.contains(old_value) && !old(self)@.remove(old_value).contains(
                new_value,
            )),
            old(self)@.remove(old_value).contains(new_value) ==> final(self).tree() == with_deleted(
                old(self).tree(),
                old_value,
            ).0,
            !old(self)@.remove(old_value).contains(new_value) ==> final(self).tree()
                == with_inserted(
                with_deleted(old(self).tree(), old_value).0,
                if old(self)@.contains(old_value) {
                    old(self).tree().leaving(old_value)->0
                } else {
                    old(self).next_slot()
                },
                new_value,
            ).with_tag(NodeColor::Black),
    {
        let delete_result = self.delete(old_value);
        let insert_result = self.insert(new_value);
        delete_result && insert_result
    }

    /// The slot of the root node.
    pub fn root(&self) -> (r: Option<usize>)
        ensures
            r == self.root_slot(),
            self.well_linked() ==> r == self.tree().top(),
    {
        self.store.root
    }

    /// The node in `slot`, where that slot holds a node of the tree.
    pub fn node(&self, slot: usize) -> (r: Option<TreeNode<K>>)
        ensures
            r == if self.tree().slots().contains(slot) {
                Some(self.arena()[slot as int])
            } else {
                None
            },
    {
        proof {
            use_type_invariant(self);
        }
        proof {
            lemma_slots_in_arena(self.store.nodes@, self.store.shape@, None);
        }
        if slot < self.store.nodes.len() && !is_spare(&self.store.spare, slot) {
            Some(self.store.nodes[slot])
        } else {
            proof {
                if slot < self.store.nodes@.len() {
                    let i = choose|i: int| 0 <= i < self.store.spare@.len() && self.store.spare@[i] == slot;
                    assert(!self.store.shape@.slots().contains(self.store.spare@[i]));
                }
            }
            None
        }
    }

    /// The number of keys.
    pub fn size(&self) -> (n: u32)
        ensures
            n == self.len(),
    {
        proof {
            use_type_invariant(self);
        }
        self.store.count
    }

    /// The number of nodes without children.
    pub fn get_leaves_number(&self) -> (n: u32)
        ensures
            n == self.tree().leaves(),
    {
        proof {
            use_type_invariant(self);
        }
        let ghost t = self.store.shape@;
        let mut stack: Vec<usize> = Vec::new();
        let ghost mut trees: Seq<ColorTree<K>> = Seq::empty();
        let ghost mut parents: Seq<Option<usize>> = Seq::empty();
        let mut count: u32 = 0;
        proof {
            lemma_counts_bounded(t);
        }
        if let Some(root) = self.store.root {
            stack.push(root);
            proof {
                trees = trees.push(t);
                parents = parents.push(None);
                lemma_total_push(Seq::<ColorTree<K>>::empty(), t);
            }
        }
        loop
            invariant
                stack@.len() == trees.len(),
                stack@.len() == parents.len(),
                forall|i: int|
                    0 <= i < trees.len() ==> linked(self.store.nodes@, #[trigger] trees[i], parents[i])
                        && trees[i].top() == Some(stack@[i]),
                count + total_leaves(trees) == t.leaves(),
                t.leaves() <= u32::MAX,
            ensures
                count == t.leaves(),
            decreases total_size(trees),
        {
            match stack.pop() {
                Some(node) => {
                    let ghost cur = trees.last();
                    proof {
                        assert(linked(self.store.nodes@, trees[trees.len() - 1], parents[trees.len() - 1]));
                        assert(total_leaves(trees) == total_leaves(trees.drop_last()) + cur.leaves());
                        assert(total_size(trees) == total_size(trees.drop_last()) + cur.size());
                        trees = trees.drop_last();
                        parents = parents.drop_last();
                        assert(linked(self.store.nodes@, cur.l(), Some(node)));
                        assert(linked(self.store.nodes@, cur.r(), Some(node)));
                        assert(cur.leaves() == if cur.l() is Nil && cur.r() is Nil {
                            1
                        } else {
                            cur.l().leaves() + cur.r().leaves()
                        });
                        assert(cur.size() == 1 + cur.l().size() + cur.r().size());
                        assert(cur.l() is Nil ==> cur.l().leaves() == 0 && cur.l().size() == 0);
                        assert(cur.r() is Nil ==> cur.r().leaves() == 0 && cur.r().size() == 0);
                    }
                    match (self.store.nodes[node].left, self.store.nodes[node].right) {
                        (None, None) => {
                            count += 1;
                        },
                        (Some(left), Some(right)) => {
                            stack.push(left);
                            stack.push(right);
                            proof {
                                lemma_total_push(trees, cur.l());
                                lemma_total_push(trees.push(cur.l()), cur.r());
                                trees = trees.push(cur.l()).push(cur.r());
                                parents = parents.push(Some(node)).push(Some(node));
                            }
                        },
                        (Some(left), None) => {
                            stack.push(left);
                            proof {
                                lemma_total_push(trees, cur.l());
                                trees = trees.push(cur.l());
                                parents = parents.push(Some(node));
                            }
                        },
                        (None, Some(right)) => {
                            stack.push(right);
                            proof {
                                lemma_total_push(trees, cur.r());
                                trees = trees.push(cur.r());
                                parents = parents.push(Some(node));
                            }
                        },
                    }
                },
                None => {
                    proof {
                        assert(trees =~= Seq::empty());
                    }
                    break ;
                },
            }
        }
        count
    }

    /// The number of nodes on the longest path from the root down; 0 for
    /// the empty tree. Counted level by level.
    pub fn get_height(&self) -> (height: u32)
        ensures
            height == self.tree().height(),
    {
        proof {
            use_type_invariant(self);
        }
        let ghost t = self.store.shape@;
        let mut queue: VecDeque<(usize, u32)> = VecDeque::new();
        let ghost mut trees: Seq<ColorTree<K>> = Seq::empty();
        let ghost mut parents: Seq<Option<usize>> = Seq::empty();
        let mut height: u32 = 0;
        proof {
            lemma_counts_bounded(t);
        }
        if let Some(root) = self.store.root {
            queue.push_back((root, 1));
            proof {
                trees = trees.push(t);
                parents = parents.push(None);
                assert(queue@[0].1 + trees[0].height() == t.height() + 1);
            }
        }
        loop
            invariant
                queue@.len() == trees.len(),
                queue@.len() == parents.len(),
                forall|i: int|
                    0 <= i < trees.len() ==> linked(self.store.nodes@, #[trigger] trees[i], parents[i])
                        && trees[i].top() == Some(queue@[i].0) && queue@[i].1 >= 1 && queue@[i].1
                        + trees[i].height() <= t.height() + 1,
                height <= t.height(),
                t.height() <= u32::MAX,
                height == t.height() || exists|i: int|
                    0 <= i < trees.len() && queue@[i].1 + (#[trigger] trees[i]).height()
                        == t.height() + 1,
            ensures
                height == t.height(),
            decreases total_size(trees),
        {
            let ghost old_trees = trees;
            let ghost old_queue = queue@;
            let ghost was = height;
            match queue.pop_front() {
                Some((node, level)) => {
                    let ghost cur = trees.first();
                    let ghost mut left_at: int = -1;
                    let ghost mut right_at: int = -1;
                    proof {
                        assert(linked(self.store.nodes@, trees[0], parents[0]));
                        assert(level + cur.height() <= t.height() + 1);
                        lemma_total_first(trees);
                        trees = trees.drop_first();
                        parents = parents.drop_first();
                        assert(linked(self.store.nodes@, cur.l(), Some(node)));
                        assert(linked(self.store.nodes@, cur.r(), Some(node)));
                    }
                    height = if height >= level {
                        height
                    } else {
                        level
                    };
                    if let Some(left) = self.store.nodes[node].left {
                        proof {
                            assert(cur.l() is Node && cur.l().height() >= 1);
                            assert(cur.height() >= 2);
                        }
                        queue.push_back((left, level + 1));
                        proof {
                            lemma_total_push(trees, cur.l());
                            left_at = trees.len() as int;
                            trees = trees.push(cur.l());
                            parents = parents.push(Some(node));
                        }
                    }
                    if let Some(right) = self.store.nodes[node].right {
                        proof {
                            assert(cur.r() is Node && cur.r().height() >= 1);
                            assert(cur.height() >= 2);
                        }
                        queue.push_back((right, level + 1));
                        proof {
                            lemma_total_push(trees, cur.r());
                            right_at = trees.len() as int;
                            trees = trees.push(cur.r());
                            parents = parents.push(Some(node));
                        }
                    }
                    proof {
                        if was != t.height() && height != t.height() {
                            let i = choose|i: int|
                                0 <= i < old_trees.len() && old_queue[i].1 + (
                                #[trigger] old_trees[i]).height() == t.height() + 1;
                            if i == 0 {
                                assert(level + cur.height() == t.height() + 1);
                                assert(cur.height() >= 2);
                                if cur.l().height() >= cur.r().height() {
                                    assert(cur.l() is Node);
                                    assert(trees[left_at] == cur.l());
                                    assert(queue@[left_at].1 + trees[left_at].height() == t.height()
                                        + 1);
                                } else {
                                    assert(cur.r() is Node);
                                    assert(trees[right_at] == cur.r());
                                    assert(queue@[right_at].1 + trees[right_at].height()
                                        == t.height() + 1);
                                }
                            } else {
                                assert(trees[i - 1] == old_trees[i]);
                                assert(queue@[i - 1] == old_queue[i]);
                                assert(queue@[i - 1].1 + trees[i - 1].height() == t.height() + 1);
                            }
                        }
                    }
                },
                None => {
                    proof {
                        assert(trees =~= Seq::empty());
                    }
                    break ;
                },
            }
        }
        height
    }

    /// The keys in ascending order.
    pub fn show_in_order_traversal(&self) -> (keys: Vec<K>)
        ensures
            keys@ =~= self.tree().in_order(),
            increasing(keys@),
            keys@.to_multiset() =~= self.tree().bag(),
    {
        proof {
            use_type_invariant(self);
        }
        let mut keys = Vec::new();
        Self::in_order_traversal_node(&self.store.nodes, self.store.root, &mut keys, Ghost(self.store.shape@), Ghost(None));
        proof {
            if self.wf() {
                lemma_in_order_sorted(self.store.shape@, true);
            }
            lemma_in_order_is_bag(self.store.shape@);
        }
        keys
    }

    /// Appends to `out` the keys of the subtree at `node`: left subtree,
    /// node, right subtree.
    fn in_order_traversal_node(
        nodes: &Vec<TreeNode<K>>,
        node: Option<usize>,
        out: &mut Vec<K>,
        Ghost(t): Ghost<ColorTree<K>>,
        Ghost(parent): Ghost<Option<usize>>,
    )
        requires
            linked(nodes@, t, parent),
            t.top() == node,
        ensures
            final(out)@ =~= old(out)@ + t.in_order(),
        decreases t,
    {
        if let Some(n) = node {
            Self::in_order_traversal_node(nodes, nodes[n].left, out, Ghost(t.l()), Ghost(Some(n)));
            out.push(nodes[n].value);
            Self::in_order_traversal_node(nodes, nodes[n].right, out, Ghost(t.r()), Ghost(Some(n)));
        }
    }

    /// Whether the tree holds no key.
    pub fn is_empty(&self) -> (empty: bool)
        ensures
            empty == self.holds_nothing(),
            empty == (self.tree() is Nil),
            empty == (self@ =~= Set::empty()),
    {
        proof {
            use_type_invariant(self);
        }
        proof {
            if self.store.shape@ is Node {
                assert(self.store.shape@.bag().count(self.store.shape@->key) > 0);
                assert(self@.contains(self.store.shape@->key));
            } else {
                assert(self.store.shape@.bag() =~= Multiset::empty());
            }
        }
        self.store.root.is_none()
    }

    /// Whether the tree keeps the colour rules: the root is black, no red
    /// node has a red child, and every path from the root down to an empty
    /// position passes the same number of black nodes.
    pub fn check_properties(&self) -> (ok: bool)
        ensures
            ok == self.passes_check(),
            ok,
    {
        proof {
            use_type_invariant(self);
        }
        let root_black = match self.store.root {
            Some(root) => self.store.nodes[root].color == NodeColor::Black,
            None => true,
        };
        root_black && Self::check_properties_recursive(
            &self.store.nodes,
            self.store.root,
            Ghost(self.store.shape@),
            Ghost(None),
        ).is_some()
    }

    /// The black height of the subtree at `node` if it keeps the colour
    /// rules, and `None` if it does not.
    fn check_properties_recursive(
        nodes: &Vec<TreeNode<K>>,
        node: Option<usize>,
        Ghost(t): Ghost<ColorTree<K>>,
        Ghost(parent): Ghost<Option<usize>>,
    ) -> (res: Option<u32>)
        requires
            linked(nodes@, t, parent),
            t.top() == node,
            t.size() <= u32::MAX,
        ensures
            res is Some == colors_ok(t),
            res matches Some(h) ==> h == black_height(t),
        decreases t,
    {
        match node {
            None => Some(0),
            Some(n) => {
                proof {
                    lemma_black_height_bounded(t);
                    assert(linked(nodes@, t.l(), Some(n)));
                    assert(linked(nodes@, t.r(), Some(n)));
                }
                let left = nodes[n].left;
                let right = nodes[n].right;
                let left_blacks = Self::check_properties_recursive(
                    nodes,
                    left,
                    Ghost(t.l()),
                    Ghost(Some(n)),
                );
                let right_blacks = Self::check_properties_recursive(
                    nodes,
                    right,
                    Ghost(t.r()),
                    Ghost(Some(n)),
                );
                let left_red = match left {
                    Some(l) => nodes[l].color == NodeColor::Red,
                    None => false,
                };
                let right_red = match right {
                    Some(r) => nodes[r].color == NodeColor::Red,
                    None => false,
                };
                match (left_blacks, right_blacks) {
                    (Some(a), Some(b)) => {
                        if a != b {
                            None
                        } else if nodes[n].color == NodeColor::Red {
                            if left_red || right_red {
                                None
                            } else {
                                Some(a)
                            }
                        } else {
                            Some(a + 1)
                        }
                    },
                    _ => None,
                }
            },
        }
    }
}

impl<K: OrderedKey> View for RedBlackTree<K> {
    type V = Set<K>;

    /// The keys.
    open spec fn view(&self) -> Set<K> {
        self.tree().bag().dom()
    }
}

} // verus!
