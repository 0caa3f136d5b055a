//! The height-balanced engine.
//!
//! Nodes live in an arena and name their children and their parent by slot.
//! Equal keys are allowed: an insertion always adds a node, and a deletion
//! removes one occurrence.
//!
//! The validity of a tree is a type invariant: no operation asks its caller
//! for it. The only demand on a caller is room for one more key on
//! insertion, which `size` lets it test.

use vstd::prelude::*;
use vstd::multiset::Multiset;
use crate::key::{non_decreasing, OrderedKey};
use crate::avl_links::{
    can_insert, can_rotate, deleted_in_place, inserted_in_place, lemma_child_replaced,
    lemma_delete_done, lemma_deleted_below, lemma_deleted_successor, lemma_descent_ready,
    lemma_hung_below, lemma_insert_done, lemma_insert_ready, lemma_inserted_below,
    lemma_key_swapped, lemma_left_turn_links, lemma_left_turn_ready, lemma_refresh_ready,
    lemma_refreshed_links, lemma_right_turn_links, lemma_right_turn_ready, lemma_size_is_slots,
    lemma_splice_ready, lemma_spliced, replaced_in_place, stored_height,
};
use crate::avl_model::{
    balanced, heights_stored, is_avl, leaf, lemma_height_fits, lemma_leaf,
    lemma_rotated_left_keeps, lemma_rotated_right_keeps, rebalanced, refreshed, rotated_left,
    rotated_right, with_deleted, with_inserted, HeightTree,
};
use crate::arena::{next_slot, 
    give_back, is_spare, lemma_linked_frame, lemma_parent_is_nearer, lemma_slots_in_arena,
    linked, spare_ok, take_slot, ArenaNode,
};
use crate::shape::{lemma_counts_bounded, lemma_in_order_is_bag, lemma_in_order_sorted, Tree};

verus! {

/// A node of the height-balanced tree.
#[derive(Clone, Copy, Debug)]
pub struct TreeNode<K> {
    pub key: K,
    /// The number of nodes on the longest path from this node down; at least 1.
    pub height: i32,
    /// The slot of the node above, `None` at the root.
    pub parent: Option<usize>,
    /// The slot of the left child.
    pub left: Option<usize>,
    /// The slot of the right child.
    pub right: Option<usize>,
}

impl<K> ArenaNode<K, i32> for TreeNode<K> {
    open spec fn node_key(self) -> K {
        self.key
    }

    open spec fn node_tag(self) -> i32 {
        self.height
    }

    open spec fn left_link(self) -> Option<usize> {
        self.left
    }

    open spec fn right_link(self) -> Option<usize> {
        self.right
    }

    open spec fn parent_link(self) -> Option<usize> {
        self.parent
    }
}

impl<K: OrderedKey> TreeNode<K> {
    /// A node without links, of height 1.
    pub fn new(key: K) -> (node: Self)
        ensures
            node == (TreeNode { key, height: 1, parent: None, left: None, right: None }),
    {
        TreeNode { key, height: 1, parent: None, left: None, right: None }
    }

    /// The stored height of the node in slot `node`, 0 for no node.
    fn height(nodes: &Vec<TreeNode<K>>, node: Option<usize>) -> (h: i32)
        requires
            node matches Some(i) ==> i < nodes@.len(),
        ensures
            h == stored_height(nodes@, node),
    {
        match node {
            Some(i) => nodes[i].height,
            None => 0,
        }
    }

    /// Stores in the node in slot `node` one more than the greater of its
    /// children's stored heights.
    fn update_height(nodes: &mut Vec<TreeNode<K>>, node: usize)
        requires
            node < old(nodes)@.len(),
            old(nodes)@[node as int].left matches Some(i) ==> i < old(nodes)@.len(),
            old(nodes)@[node as int].right matches Some(i) ==> i < old(nodes)@.len(),
            stored_height(old(nodes)@, old(nodes)@[node as int].left) < i32::MAX,
            stored_height(old(nodes)@, old(nodes)@[node as int].right) < i32::MAX,
        ensures
            final(nodes)@ == old(nodes)@.update(
                node as int,
                (TreeNode {
                    height: (1 + vstd::math::max(
                        stored_height(old(nodes)@, old(nodes)@[node as int].left),
                        stored_height(old(nodes)@, old(nodes)@[node as int].right),
                    )) as i32,
                    ..old(nodes)@[node as int]
                }),
            ),
    {
        let hl = Self::height(nodes, nodes[node].left);
        let hr = Self::height(nodes, nodes[node].right);
        nodes[node].height = 1 + if hl >= hr {
            hl
        } else {
            hr
        };
    }

    /// The stored height of the left child less that of the right child.
    fn balance_factor(nodes: &Vec<TreeNode<K>>, node: usize) -> (d: i32)
        requires
            node < nodes@.len(),
            nodes@[node as int].left matches Some(i) ==> i < nodes@.len(),
            nodes@[node as int].right matches Some(i) ==> i < nodes@.len(),
            0 <= stored_height(nodes@, nodes@[node as int].left),
            0 <= stored_height(nodes@, nodes@[node as int].right),
        ensures
            d == stored_height(nodes@, nodes@[node as int].left) - stored_height(
                nodes@,
                nodes@[node as int].right,
            ),
    {
        Self::height(nodes, nodes[node].left) - Self::height(nodes, nodes[node].right)
    }

    /// Appends to `out` the keys of the subtree at `node`: left subtree,
    /// node, right subtree.
    fn in_order_traverse(
        nodes: &Vec<TreeNode<K>>,
        node: usize,
        out: &mut Vec<K>,
        Ghost(t): Ghost<HeightTree<K>>,
        Ghost(parent): Ghost<Option<usize>>,
    )
        requires
            linked(nodes@, t, parent),
            t.top() == Some(node),
        ensures
            final(out)@ =~= old(out)@ + t.in_order(),
        decreases t,
    {
        proof {
            reveal_with_fuel(Tree::in_order, 2);
        }
        if let Some(left) = nodes[node].left {
            Self::in_order_traverse(nodes, left, out, Ghost(t.l()), Ghost(Some(node)));
        }
        out.push(nodes[node].key);
        if let Some(right) = nodes[node].right {
            Self::in_order_traverse(nodes, right, out, Ghost(t.r()), Ghost(Some(node)));
        }
    }

    /// Appends to `out` the keys of the subtree at `node`: node, left
    /// subtree, right subtree.
    fn pre_order_traverse(
        nodes: &Vec<TreeNode<K>>,
        node: usize,
        out: &mut Vec<K>,
        Ghost(t): Ghost<HeightTree<K>>,
        Ghost(parent): Ghost<Option<usize>>,
    )
        requires
            linked(nodes@, t, parent),
            t.top() == Some(node),
        ensures
            final(out)@ =~= old(out)@ + t.pre_order(),
        decreases t,
    {
        proof {
            reveal_with_fuel(Tree::pre_order, 2);
        }
        out.push(nodes[node].key);
        if let Some(left) = nodes[node].left {
            Self::pre_order_traverse(nodes, left, out, Ghost(t.l()), Ghost(Some(node)));
        }
        if let Some(right) = nodes[node].right {
            Self::pre_order_traverse(nodes, right, out, Ghost(t.r()), Ghost(Some(node)));
        }
    }

    /// Appends to `out` the keys of the subtree at `node`: left subtree,
    /// right subtree, node.
    fn post_order_traverse(
        nodes: &Vec<TreeNode<K>>,
        node: usize,
        out: &mut Vec<K>,
        Ghost(t): Ghost<HeightTree<K>>,
        Ghost(parent): Ghost<Option<usize>>,
    )
        requires
            linked(nodes@, t, parent),
            t.top() == Some(node),
        ensures
            final(out)@ =~= old(out)@ + t.post_order(),
        decreases t,
    {
        proof {
            reveal_with_fuel(Tree::post_order, 2);
        }
        if let Some(left) = nodes[node].left {
            Self::post_order_traverse(nodes, left, out, Ghost(t.l()), Ghost(Some(node)));
        }
        if let Some(right) = nodes[node].right {
            Self::post_order_traverse(nodes, right, out, Ghost(t.r()), Ghost(Some(node)));
        }
        out.push(nodes[node].key);
    }
}

/// Where a node hangs: at the root, or as the left or right child of the
/// node above.
#[derive(Clone, Copy, Debug, PartialEq, Eq, Structural)]
pub enum Position {
    Root,
    Left,
    Right,
}

/// One line of the structure dump.
#[derive(Clone, Copy, Debug)]
pub struct DumpLine<K> {
    /// The number of steps from the root.
    pub depth: usize,
    pub position: Position,
    pub key: K,
    pub height: i32,
}

/// The structure dump of `t` hanging at `position`, `depth` steps below the
/// root: a line for the top node, then the dump of the left subtree, then
/// that of the right subtree.
pub open spec fn dump_of<K>(t: HeightTree<K>, depth: nat, position: Position) -> Seq<DumpLine<K>>
    decreases t,
{
    match t {
        Tree::Nil => Seq::empty(),
        Tree::Node { left, key, tag, right, .. } => seq![
            DumpLine { depth: depth as usize, position, key, height: tag },
        ] + dump_of(*left, depth + 1, Position::Left) + dump_of(*right, depth + 1, Position::Right),
    }
}

/// The arena of a tree with its bookkeeping: the spare slots, the slot of
/// the root, the number of keys, and the model that the arena holds.
struct Store<K> {
    nodes: Vec<TreeNode<K>>,
    spare: Vec<usize>,
    root: Option<usize>,
    count: u32,
    shape: Ghost<HeightTree<K>>,
}

impl<K> Store<K> {
    /// The store of the empty tree.
    fn empty() -> (store: Self)
        ensures
            store.nodes@ =~= Seq::empty(),
            store.spare@ =~= Seq::empty(),
            store.root is None,
            store.count == 0,
            store.shape@ is Nil,
    {
        Store { nodes: Vec::new(), spare: Vec::new(), root: None, count: 0, shape: Ghost(Tree::Nil) }
    }
}

/// A height-balanced search tree. Every tree is valid at all times: it is
/// ordered and balanced, every node stores its height, and the arena holds
/// it with all links in place.
pub struct AVLTree<K: OrderedKey> {
    store: Store<K>,
}

impl<K: OrderedKey> AVLTree<K> {
    /// The model of the tree: its shape with the slot, key and stored
    /// height of every node.
    pub closed spec fn tree(&self) -> HeightTree<K> {
        self.store.shape@
    }

    /// The node arena.
    pub closed spec fn arena(&self) -> Seq<TreeNode<K>> {
        self.store.nodes@
    }

    /// The slot that the tree names as its root.
    pub closed spec fn root_slot(&self) -> Option<usize> {
        self.store.root
    }

    /// The arena holds exactly the model: every node is linked to its
    /// children and its parent as the model says, the root is the top of the
    /// model, the element count is its size, and every slot of the arena is
    /// either a node of the tree or spare.
    pub closed spec fn well_linked(&self) -> bool {
        &&& linked(self.store.nodes@, self.store.shape@, None)
        &&& self.store.root == self.store.shape@.top()
        &&& self.store.count == self.store.shape@.size()
        &&& spare_ok(self.store.nodes@.len(), self.store.spare@, self.store.shape@.slots())
    }

    /// The tree is a valid height-balanced search tree held by its arena.
    pub open spec fn wf(&self) -> bool {
        &&& self.well_linked()
        &&& is_avl(self.tree())
    }

    /// Every tree is valid.
    #[verifier::type_invariant]
    spec fn always_valid(self) -> bool {
        self.wf()
    }

    /// The slot that the next new node gets.
    pub closed spec fn next_slot(&self) -> usize {
        next_slot(self.store.nodes@.len(), self.store.spare@)
    }

    /// The number of keys, each counted as often as it occurs.
    pub open spec fn len(&self) -> nat {
        self.tree().size()
    }

    /// The tree holds `value` at least once.
    pub open spec fn holds(&self, value: K) -> bool {
        self@.count(value) > 0
    }

    /// The tree holds no key.
    pub open spec fn holds_nothing(&self) -> bool {
        self.len() == 0
    }

    /// What `well_linked` says, for callers outside this module.
    pub proof fn lemma_well_linked(&self)
        requires
            self.well_linked(),
        ensures
            linked(self.arena(), self.tree(), None),
            self.root_slot() == self.tree().top(),
            self.len() <= u32::MAX,
    {
    }

    /// An empty tree.
    pub fn new() -> (tree: Self)
        ensures
            tree.wf(),
            tree.tree() is Nil,
            tree@ =~= Multiset::empty(),
    {
        AVLTree { store: Store::empty() }
    }

    /// Adds one occurrence of `value`.
    pub fn insert(&mut self, value: K)
        requires
            old(self).len() < u32::MAX,
        ensures
            final(self).wf(),
            final(self).tree() == with_inserted(old(self).tree(), old(self).next_slot(), value),
            !old(self).tree().slots().contains(old(self).next_slot()),
            final(self)@ =~= old(self)@.insert(value),
            final(self).len() == old(self).len() + 1,
            final(self).tree().height() == old(self).tree().height() || final(self).tree().height()
                == old(self).tree().height() + 1,
    {
        proof {
            use_type_invariant(&*self);
        }
        let mut store = Store::empty();
        std::mem::swap(&mut store, &mut self.store);
        let ghost t = store.shape@;
        let ghost before = store.nodes@;
        proof {
            lemma_slots_in_arena(before, t, None);
            lemma_height_fits(t);
        }
        let new_node = take_slot(
            &mut store.nodes,
            &mut store.spare,
            TreeNode::new(value),
            Ghost(t.slots()),
        );
        proof {
            lemma_linked_frame(before, store.nodes@, t, None);
        }
        if let Some(root) = store.root {
            let res = Self::insert_recursive(&mut store.nodes, root, new_node, Ghost(t));
            store.shape = res;
            proof {
                assert(t.slots().contains(root));
                lemma_size_is_slots(store.nodes@, res@, t, new_node);
            }
            store.root = Self::update_root(&store.nodes, store.root, Ghost(store.shape@));
        } else {
            store.root = Some(new_node);
            store.shape = Ghost(leaf(new_node, value));
            proof {
                lemma_leaf(new_node, value);
                reveal_with_fuel(linked, 2);
                reveal_with_fuel(Tree::slots, 2);
                assert(t.slots() =~= Set::empty());
            }
        }
        store.count += 1;
        self.store = store;
    }

    /// Hangs the fresh node in slot `new_node` below the subtree at
    /// `cur_node`: to the left of every node whose key is above the new key,
    /// to the right of the others, so below equal keys to the right. On the
    /// way back up every node on the path is rebalanced.
    fn insert_recursive(
        nodes: &mut Vec<TreeNode<K>>,
        cur_node: usize,
        new_node: usize,
        Ghost(t): Ghost<HeightTree<K>>,
    ) -> (res: Ghost<HeightTree<K>>)
        requires
            can_insert(old(nodes)@, cur_node, new_node, t),
        ensures
            inserted_in_place(old(nodes)@, final(nodes)@, cur_node, new_node, t, res@),
        decreases t,
    {
        let ghost before = nodes@;
        let ghost m: HeightTree<K>;
        proof {
            lemma_insert_ready(before, cur_node, new_node, t);
        }
        let key = nodes[new_node].key;
        if key.less_than(&nodes[cur_node].key) {
            match nodes[cur_node].left {
                Some(left) => {
                    let below = Self::insert_recursive(nodes, left, new_node, Ghost(t.l()));
                    proof {
                        m = t.with_left(below@);
                        lemma_inserted_below(before, nodes@, cur_node, new_node, t, below@);
                    }
                },
                None => {
                    nodes[new_node].parent = Some(cur_node);
                    nodes[cur_node].left = Some(new_node);
                    proof {
                        m = t.with_left(leaf(new_node, key));
                        lemma_hung_below(before, nodes@, cur_node, new_node, t);
                    }
                },
            }
        } else {
            match nodes[cur_node].right {
                Some(right) => {
                    let below = Self::insert_recursive(nodes, right, new_node, Ghost(t.r()));
                    proof {
                        m = t.with_right(below@);
                        lemma_inserted_below(before, nodes@, cur_node, new_node, t, below@);
                    }
                },
                None => {
                    nodes[new_node].parent = Some(cur_node);
                    nodes[cur_node].right = Some(new_node);
                    proof {
                        m = t.with_right(leaf(new_node, key));
                        lemma_hung_below(before, nodes@, cur_node, new_node, t);
                    }
                },
            }
        }
        let ghost mid = nodes@;
        let _ = Self::rebalance(nodes, cur_node, Ghost(m));
        proof {
            lemma_insert_done(before, mid, nodes@, cur_node, new_node, t, m);
        }
        Ghost(rebalanced(m))
    }

    /// The top of the parent chain that starts at `root`: a rotation at the
    /// root leaves the former root below the new one.
    fn update_root(
        nodes: &Vec<TreeNode<K>>,
        root: Option<usize>,
        Ghost(t): Ghost<HeightTree<K>>,
    ) -> (top: Option<usize>)
        requires
            linked(nodes@, t, None),
            root matches Some(r) ==> t.slots().contains(r),
            root is None ==> t is Nil,
        ensures
            top == t.top(),
    {
        let mut current = root;
        loop
            invariant
                linked(nodes@, t, None),
                current matches Some(c) ==> t.slots().contains(c),
                current is None ==> t is Nil,
            ensures
                current == t.top(),
            decreases
                    (match current {
                        Some(c) => t.depth_of(c),
                        None => 0,
                    }),
        {
            match current {
                Some(node) => {
                    proof {
                        lemma_slots_in_arena(nodes@, t, None);
                        lemma_parent_is_nearer(nodes@, t, None, node);
                    }
                    match nodes[node].parent {
                        Some(parent) => {
                            current = Some(parent);
                        },
                        None => {
                            break ;
                        },
                    }
                },
                None => {
                    break ;
                },
            }
        }
        current
    }

    /// Removes one occurrence of `value`, if there is one, and says whether
    /// it did.
    pub fn delete(&mut self, value: K) -> (found: bool)
        ensures
            final(self).wf(),
            final(self).tree() == with_deleted(old(self).tree(), value),
            found == old(self).holds(value),
            found ==> old(self).tree().leaving(value) == Some(final(self).next_slot()),
            found ==> final(self)@ =~= old(self)@.remove(value) && final(self).len() + 1
                == old(self).len(),
            !found ==> final(self).tree() == old(self).tree() && final(self).arena()
                == old(self).arena() && final(self).next_slot() == old(self).next_slot(),
            final(self).tree().height() == old(self).tree().height() || final(self).tree().height()
                + 1 == old(self).tree().height(),
    {
        proof {
            use_type_invariant(&*self);
        }
        let mut store = Store::empty();
        std::mem::swap(&mut store, &mut self.store);
        let ghost t = store.shape@;
        let mut found = false;
        if let Some(root) = store.root {
            proof {
                lemma_slots_in_arena(store.nodes@, t, None);
                lemma_height_fits(t);
            }
            let (new_root, deleted, after) = Self::delete_recursive(
                &mut store.nodes,
                root,
                value,
                Ghost(t),
            );
            if let Some(slot) = deleted {
                store.root = new_root;
                store.shape = after;
                proof {
                    lemma_slots_in_arena(store.nodes@, after@, None);
                    assert(t.slots() =~= after@.slots().insert(slot));
                }
                store.count -= 1;
                give_back(&mut store.spare, slot, Ghost(store.nodes@.len()), Ghost(t.slots()));
                found = true;
            }
        } else {
            proof {
                assert(t.bag() =~= Multiset::empty());
            }
        }
        store.root = Self::update_root(&store.nodes, store.root, Ghost(store.shape@));
        self.store = store;
        found
    }

    /// Removes one occurrence of `value` from the subtree at `node`, if
    /// there is one: a node with at most one child is taken out and its
    /// child put in its place; a node with two children takes the least key
    /// of its right subtree, and one occurrence of that key is removed
    /// there. On the way back up every node on the path is rebalanced.
    /// Returns the top of the subtree afterwards, the slot of the node that
    /// was taken out, and the model of the subtree afterwards.
    fn delete_recursive(
        nodes: &mut Vec<TreeNode<K>>,
        node: usize,
        value: K,
        Ghost(t): Ghost<HeightTree<K>>,
    ) -> (res: (Option<usize>, Option<usize>, Ghost<HeightTree<K>>))
        requires
            can_rotate(old(nodes)@, node, t),
            is_avl(t),
        ensures
            res.0 == res.2@.top(),
            res.2@ == with_deleted(t, value),
            res.1 == t.leaving(value),
            (res.1 is None) == (t.bag().count(value) == 0),
            res.1 is None ==> final(nodes)@ == old(nodes)@ && res.2@ == t,
            res.1 matches Some(s) ==> deleted_in_place(
                old(nodes)@,
                final(nodes)@,
                node,
                t,
                value,
                s,
                res.2@,
            ),
        decreases t,
    {
        let ghost before = nodes@;
        let key = nodes[node].key;
        let ghost m: HeightTree<K>;
        let ghost swapped = before;
        let removed: usize;
        proof {
            lemma_descent_ready(before, node, t, value);
        }
        if value.less_than(&key) {
            match nodes[node].left {
                Some(left) => {
                    let (_, was_deleted, sub) = Self::delete_recursive(
                        nodes,
                        left,
                        value,
                        Ghost(t.l()),
                    );
                    match was_deleted {
                        Some(s) => {
                            removed = s;
                            proof {
                                m = t.with_left(sub@);
                                lemma_deleted_below(before, nodes@, node, t, sub@, s, value, m);
                            }
                        },
                        None => {
                            return (Some(node), None, Ghost(t));
                        },
                    }
                },
                None => {
                    return (Some(node), None, Ghost(t));
                },
            }
        } else if key.less_than(&value) {
            match nodes[node].right {
                Some(right) => {
                    let (_, was_deleted, sub) = Self::delete_recursive(
                        nodes,
                        right,
                        value,
                        Ghost(t.r()),
                    );
                    match was_deleted {
                        Some(s) => {
                            removed = s;
                            proof {
                                m = t.with_right(sub@);
                                lemma_deleted_below(before, nodes@, node, t, sub@, s, value, m);
                            }
                        },
                        None => {
                            return (Some(node), None, Ghost(t));
                        },
                    }
                },
                None => {
                    return (Some(node), None, Ghost(t));
                },
            }
        } else {
            proof {
                K::rank_is_injective(value, key);
            }
            let left = nodes[node].left;
            let right = nodes[node].right;
            match (left, right) {
                (Some(_), Some(old_right)) => {
                    let in_order_successor = Self::min_value_node(
                        nodes,
                        old_right,
                        Ghost(t.r()),
                        Ghost(Some(node)),
                    );
                    let new_value = nodes[in_order_successor].key;
                    nodes[node].key = new_value;
                    proof {
                        swapped = nodes@;
                        lemma_key_swapped(before, swapped, node, t);
                    }
                    let (_, was_deleted, sub) = Self::delete_recursive(
                        nodes,
                        old_right,
                        new_value,
                        Ghost(t.r()),
                    );
                    removed = was_deleted.unwrap();
                    proof {
                        m = t.with_key(new_value).with_right(sub@);
                        lemma_deleted_successor(before, swapped, nodes@, node, t, sub@, removed, m);
                    }
                },
                _ => {
                    let child = Self::take_out(nodes, node, Ghost(t));
                    return (child, Some(node), Ghost(t.only_child()));
                },
            }
        }
        let ghost mid = nodes@;
        let top = Self::rebalance(nodes, node, Ghost(m));
        proof {
            lemma_delete_done(before, mid, nodes@, node, t, m, value, removed);
        }
        (Some(top), Some(removed), Ghost(rebalanced(m)))
    }

    /// The slot of the leftmost node of the subtree at `node`, which holds
    /// its least key.
    fn min_value_node(
        nodes: &Vec<TreeNode<K>>,
        node: usize,
        Ghost(t): Ghost<HeightTree<K>>,
        Ghost(parent): Ghost<Option<usize>>,
    ) -> (res: usize)
        requires
            linked(nodes@, t, parent),
            t.top() == Some(node),
        ensures
            res < nodes@.len(),
            t.slots().contains(res),
            nodes@[res as int].key == t.least(),
    {
        let mut current = node;
        let ghost mut cur_t = t;
        let ghost mut cur_p = parent;
        loop
            invariant
                linked(nodes@, cur_t, cur_p),
                cur_t.top() == Some(current),
                cur_t.least() == t.least(),
                forall|s: usize| cur_t.slots().contains(s) ==> t.slots().contains(s),
            ensures
                current < nodes@.len(),
                t.slots().contains(current),
                nodes@[current as int].key == t.least(),
            decreases cur_t,
        {
            proof {
                assert(cur_t.slots().contains(current));
                assert(linked(nodes@, cur_t.l(), Some(current)));
            }
            match nodes[current].left {
                Some(left_child) => {
                    proof {
                        cur_p = Some(current);
                        cur_t = cur_t.l();
                    }
                    current = left_child;
                },
                None => {
                    break ;
                },
            }
        }
        current
    }

    /// Takes the node in slot `node`, which has at most one child, out of
    /// the tree and puts its child, if any, in its place. Returns the slot
    /// of that child.
    fn take_out(nodes: &mut Vec<TreeNode<K>>, node: usize, Ghost(t): Ghost<HeightTree<K>>) -> (child:
        Option<usize>)
        requires
            can_rotate(old(nodes)@, node, t),
            is_avl(t),
            t.l() is Nil || t.r() is Nil,
        ensures
            child == t.only_child().top(),
            deleted_in_place(old(nodes)@, final(nodes)@, node, t, t->key, node, t.only_child()),
    {
        proof {
            lemma_splice_ready(nodes@, node, t);
        }
        let child = match nodes[node].left {
            Some(l) => Some(l),
            None => nodes[node].right,
        };
        let above = nodes[node].parent;
        if let Some(c) = child {
            nodes[c].parent = above;
        }
        if let Some(p) = above {
            let is_left = match nodes[p].left {
                Some(l) => l == node,
                None => false,
            };
            if is_left {
                nodes[p].left = child;
            } else {
                nodes[p].right = child;
            }
        }
        proof {
            lemma_spliced(old(nodes)@, nodes@, node, t);
        }
        child
    }

    /// Stores the height of `node` afresh and, where the heights of its
    /// subtrees differ by two, rotates: once where the heavy child leans the
    /// same way or not at all, twice (first at the child, then at `node`)
    /// where the heavy child leans the other way.
    fn rebalance(nodes: &mut Vec<TreeNode<K>>, node: usize, Ghost(t): Ghost<HeightTree<K>>) -> (top:
        usize)
        requires
            can_rotate(old(nodes)@, node, t),
            balanced(t.l()),
            balanced(t.r()),
            heights_stored(t.l()),
            heights_stored(t.r()),
            -2 <= t.l().height() - t.r().height() <= 2,
        ensures
            replaced_in_place(old(nodes)@, final(nodes)@, node, t.slots(), rebalanced(t)),
            rebalanced(t).top() == Some(top),
    {
        proof {
            lemma_refresh_ready(nodes@, node, t);
        }
        TreeNode::update_height(nodes, node);
        let ghost f = refreshed(t);
        let ghost mid = nodes@;
        proof {
            lemma_refreshed_links(old(nodes)@, nodes@, node, t);
        }
        let f_balance = TreeNode::balance_factor(nodes, node);
        if f_balance > 1 {
            let left = nodes[node].left;
            let ghost m = f;
            if let Some(old_left) = left {
                if TreeNode::balance_factor(nodes, old_left) < 0 {
                    proof {
                        reveal_with_fuel(heights_stored, 3);
                        lemma_rotated_left_keeps(t.l());
                    }
                    Self::rotate_left(nodes, old_left, Ghost(t.l()));
                    proof {
                        m = f.with_left(rotated_left(t.l()));
                        lemma_child_replaced(mid, nodes@, node, f, rotated_left(t.l()), true);
                    }
                }
            }
            Self::rotate_right(nodes, node, Ghost(m));
            proof {
                let turned = rotated_right(m);
                assert(linked(nodes@, turned.r(), Some(turned->slot)));
            }
            match nodes[node].parent {
                Some(pivot) => pivot,
                None => node,
            }
        } else if f_balance < -1 {
            let right = nodes[node].right;
            let ghost m = f;
            if let Some(old_right) = right {
                if TreeNode::balance_factor(nodes, old_right) > 0 {
                    proof {
                        reveal_with_fuel(heights_stored, 3);
                        lemma_rotated_right_keeps(t.r());
                    }
                    Self::rotate_right(nodes, old_right, Ghost(t.r()));
                    proof {
                        m = f.with_right(rotated_right(t.r()));
                        lemma_child_replaced(mid, nodes@, node, f, rotated_right(t.r()), false);
                    }
                }
            }
            Self::rotate_left(nodes, node, Ghost(m));
            proof {
                let turned = rotated_left(m);
                assert(linked(nodes@, turned.l(), Some(turned->slot)));
            }
            match nodes[node].parent {
                Some(pivot) => pivot,
                None => node,
            }
        } else {
            node
        }
    }

    /// Lifts the right child of `node` over it: the child takes the place of
    /// `node` below its parent, `node` becomes the child's left child and
    /// takes over the child's former left subtree as its right one.
    fn rotate_left(nodes: &mut Vec<TreeNode<K>>, node: usize, Ghost(t): Ghost<HeightTree<K>>)
        requires
            can_rotate(old(nodes)@, node, t),
            t.r() is Node,
            heights_stored(t.l()),
            heights_stored(t.r().l()),
            heights_stored(t.r().r()),
        ensures
            replaced_in_place(old(nodes)@, final(nodes)@, node, t.slots(), rotated_left(t)),
    {
        proof {
            lemma_left_turn_ready(nodes@, node, t);
        }
        let pivot = nodes[node].right.unwrap();
        let inner = nodes[pivot].left;
        let parent = nodes[node].parent;
        if let Some(i) = inner {
            nodes[i].parent = Some(node);
        }
        if let Some(p) = parent {
            let is_left = match nodes[p].left {
                Some(l) => l == node,
                None => false,
            };
            if is_left {
                nodes[p].left = Some(pivot);
            } else {
                nodes[p].right = Some(pivot);
            }
        }
        nodes[node].right = inner;
        nodes[node].parent = Some(pivot);
        nodes[pivot].left = Some(node);
        nodes[pivot].parent = parent;
        TreeNode::update_height(nodes, node);
        assert(nodes@[node as int].height == rotated_left(t).l()->tag);
        assert(stored_height(nodes@, nodes@[pivot as int].right) == t.r().r().height());
        TreeNode::update_height(nodes, pivot);
        assert(nodes@[pivot as int].height == rotated_left(t)->tag);
        proof {
            lemma_left_turn_links(old(nodes)@, nodes@, node, t);
        }
    }

    /// Lifts the left child of `node` over it: the mirror image of
    /// `rotate_left`.
    fn rotate_right(nodes: &mut Vec<TreeNode<K>>, node: usize, Ghost(t): Ghost<HeightTree<K>>)
        requires
            can_rotate(old(nodes)@, node, t),
            t.l() is Node,
            heights_stored(t.l().l()),
            heights_stored(t.l().r()),
            heights_stored(t.r()),
        ensures
            replaced_in_place(old(nodes)@, final(nodes)@, node, t.slots(), rotated_right(t)),
    {
        proof {
            lemma_right_turn_ready(nodes@, node, t);
        }
        let pivot = nodes[node].left.unwrap();
        let inner = nodes[pivot].right;
        let parent = nodes[node].parent;
        if let Some(i) = inner {
            nodes[i].parent = Some(node);
        }
        if let Some(p) = parent {
            let is_left = match nodes[p].left {
                Some(l) => l == node,
                None => false,
            };
            if is_left {
                nodes[p].left = Some(pivot);
            } else {
                nodes[p].right = Some(pivot);
            }
        }
        nodes[node].left = inner;
        nodes[node].parent = Some(pivot);
        nodes[pivot].right = Some(node);
        nodes[pivot].parent = parent;
        TreeNode::update_height(nodes, node);
        assert(nodes@[node as int].height == rotated_right(t).r()->tag);
        assert(stored_height(nodes@, nodes@[pivot as int].left) == t.l().l().height());
        TreeNode::update_height(nodes, pivot);
        assert(nodes@[pivot as int].height == rotated_right(t)->tag);
        proof {
            lemma_right_turn_links(old(nodes)@, nodes@, node, t);
        }
    }

    /// The slot of a node that holds `value`, or `None` where no node does.
    pub fn search(&self, value: K) -> (res: Option<usize>)
        ensures
            res == self.tree().find(value),
            (res is Some) == self.holds(value),
            res matches Some(s) ==> self.tree().slots().contains(s) && s < self.arena().len()
                && self.arena()[s as int].key == value,
    {
        proof {
            use_type_invariant(self);
        }
        match self.store.root {
            Some(node) => Self::find_node(&self.store.nodes, node, value, Ghost(self.store.shape@), Ghost(None)),
            None => {
                proof {
                    assert(self.store.shape@.bag() =~= Multiset::empty());
                }
                None
            },
        }
    }

    /// Finds a node of the subtree at `node` that holds `value`.
    fn find_node(
        nodes: &Vec<TreeNode<K>>,
        node: usize,
        value: K,
        Ghost(t): Ghost<HeightTree<K>>,
        Ghost(parent): Ghost<Option<usize>>,
    ) -> (res: Option<usize>)
        requires
            linked(nodes@, t, parent),
            t.top() == Some(node),
            t.ordered(false),
        ensures
            res == t.find(value),
            (res is Some) == (t.bag().count(value) > 0),
            res matches Some(s) ==> t.slots().contains(s) && s < nodes@.len() && nodes@[s as int].key
                == value,
        decreases t,
    {
        proof {
            assert(t.slots().contains(node));
            assert(linked(nodes@, t.l(), Some(node)));
            assert(linked(nodes@, t.r(), Some(node)));
        }
        let key = nodes[node].key;
        if key.less_than(&value) {
            proof {
                assert(t.l().bag().count(value) == 0);
            }
            match nodes[node].right {
                Some(right) => Self::find_node(nodes, right, value, Ghost(t.r()), Ghost(Some(node))),
                None => {
                    proof {
                        assert(t.r().bag() =~= Multiset::empty());
                    }
                    None
                },
            }
        } else if value.less_than(&key) {
            proof {
                assert(t.r().bag().count(value) == 0);
            }
            match nodes[node].left {
                Some(left) => Self::find_node(nodes, left, value, Ghost(t.l()), Ghost(Some(node))),
                None => {
                    proof {
                        assert(t.l().bag() =~= Multiset::empty());
                    }
                    None
                },
            }
        } else {
            proof {
                K::rank_is_injective(value, key);
            }
            Some(node)
        }
    }

    /// The slot of the root node.
    pub fn root(&self) -> (r: Option<usize>)
        ensures
            r == self.root_slot(),
            self.well_linked() ==> r == self.tree().top(),
    {
        self.store.root
    }

    /// The node in `slot`, where that slot holds a node of the tree.
    pub fn node(&self, slot: usize) -> (r: Option<TreeNode<K>>)
        ensures
            r == if self.tree().slots().contains(slot) {
                Some(self.arena()[slot as int])
            } else {
                None
            },
    {
        proof {
            use_type_invariant(self);
        }
        proof {
            lemma_slots_in_arena(self.store.nodes@, self.store.shape@, None);
        }
        if slot < self.store.nodes.len() && !is_spare(&self.store.spare, slot) {
            Some(self.store.nodes[slot])
        } else {
            proof {
                if slot < self.store.nodes@.len() {
                    let i = choose|i: int| 0 <= i < self.store.spare@.len() && self.store.spare@[i] == slot;
                    assert(!self.store.shape@.slots().contains(self.store.spare@[i]));
                }
            }
            None
        }
    }

    /// The number of keys.
    pub fn size(&self) -> (n: u32)
        ensures
            n == self.len(),
    {
        proof {
            use_type_invariant(self);
        }
        self.store.count
    }

    /// Whether the tree holds no key.
    pub fn check_empty(&self) -> (empty: bool)
        ensures
            empty == self.holds_nothing(),
            empty == (self.tree() is Nil),
            empty == (self@ =~= Multiset::empty()),
    {
        proof {
            use_type_invariant(self);
        }
        proof {
            if self.store.shape@ is Node {
                assert(self.store.shape@.bag().count(self.store.shape@->key) > 0);
            }
        }
        if self.store.count == 0 {
            return true;
        }
        false
    }

    /// The number of nodes on the longest path from the root down; 0 for
    /// the empty tree.
    pub fn tree_height(&self) -> (h: i32)
        ensures
            h == self.tree().height(),
    {
        proof {
            use_type_invariant(self);
        }
        proof {
            lemma_slots_in_arena(self.store.nodes@, self.store.shape@, None);
            if self.store.shape@ is Node {
                assert(self.store.shape@.slots().contains(self.store.shape@->slot));
            }
        }
        TreeNode::height(&self.store.nodes, self.store.root)
    }

    /// The number of nodes without children.
    pub fn count_leaves(&self) -> (n: usize)
        ensures
            n == self.tree().leaves(),
    {
        proof {
            use_type_invariant(self);
        }
        Self::count_leaves_recursive(&self.store.nodes, self.store.root, Ghost(self.store.shape@), Ghost(None))
    }

    /// The number of nodes without children in the subtree at `node`.
    fn count_leaves_recursive(
        nodes: &Vec<TreeNode<K>>,
        node: Option<usize>,
        Ghost(t): Ghost<HeightTree<K>>,
        Ghost(parent): Ghost<Option<usize>>,
    ) -> (n: usize)
        requires
            linked(nodes@, t, parent),
            t.top() == node,
            t.size() <= usize::MAX,
        ensures
            n == t.leaves(),
        decreases t,
    {
        match node {
            Some(i) => {
                proof {
                    lemma_counts_bounded(t.l());
                    lemma_counts_bounded(t.r());
                }
                let left_leaves = Self::count_leaves_recursive(
                    nodes,
                    nodes[i].left,
                    Ghost(t.l()),
                    Ghost(Some(i)),
                );
                let right_leaves = Self::count_leaves_recursive(
                    nodes,
                    nodes[i].right,
                    Ghost(t.r()),
                    Ghost(Some(i)),
                );
                if nodes[i].left.is_none() && nodes[i].right.is_none() {
                    1
                } else {
                    left_leaves + right_leaves
                }
            },
            None => 0,
        }
    }

    /// The keys in ascending order.
    pub fn in_order(&self) -> (keys: Vec<K>)
        ensures
            keys@ =~= self.tree().in_order(),
            non_decreasing(keys@),
            keys@.to_multiset() =~= self@,
    {
        proof {
            use_type_invariant(self);
        }
        let mut keys = Vec::new();
        if let Some(node) = self.store.root {
            TreeNode::in_order_traverse(&self.store.nodes, node, &mut keys, Ghost(self.store.shape@), Ghost(None));
        }
        proof {
            lemma_in_order_sorted(self.store.shape@, false);
            lemma_in_order_is_bag(self.store.shape@);
        }
        keys
    }

    /// The keys in the order node, left subtree, right subtree.
    pub fn pre_order(&self) -> (keys: Vec<K>)
        ensures
            keys@ =~= self.tree().pre_order(),
    {
        proof {
            use_type_invariant(self);
        }
        let mut keys = Vec::new();
        if let Some(node) = self.store.root {
            TreeNode::pre_order_traverse(&self.store.nodes, node, &mut keys, Ghost(self.store.shape@), Ghost(None));
        }
        keys
    }

    /// The keys in the order left subtree, right subtree, node.
    pub fn post_order(&self) -> (keys: Vec<K>)
        ensures
            keys@ =~= self.tree().post_order(),
    {
        proof {
            use_type_invariant(self);
        }
        let mut keys = Vec::new();
        if let Some(node) = self.store.root {
            TreeNode::post_order_traverse(
                &self.store.nodes,
                node,
                &mut keys,
                Ghost(self.store.shape@),
                Ghost(None),
            );
        }
        keys
    }

    /// The structure of the tree, one line for each node: the root first,
    /// and below each node its left subtree before its right subtree.
    pub fn debug_format(&self) -> (lines: Vec<DumpLine<K>>)
        ensures
            lines@ =~= dump_of(self.tree(), 0, Position::Root),
    {
        proof {
            use_type_invariant(self);
        }
        let mut lines = Vec::new();
        proof {
            lemma_counts_bounded(self.store.shape@);
        }
        Self::print_structure_recursive(
            &self.store.nodes,
            self.store.root,
            0,
            Position::Root,
            &mut lines,
            Ghost(self.store.shape@),
            Ghost(None),
        );
        lines
    }

    /// Appends to `lines` the structure dump of the subtree at `node`.
    fn print_structure_recursive(
        nodes: &Vec<TreeNode<K>>,
        node: Option<usize>,
        depth: usize,
        position: Position,
        lines: &mut Vec<DumpLine<K>>,
        Ghost(t): Ghost<HeightTree<K>>,
        Ghost(parent): Ghost<Option<usize>>,
    )
        requires
            linked(nodes@, t, parent),
            t.top() == node,
            depth + t.height() <= usize::MAX,
        ensures
            final(lines)@ =~= old(lines)@ + dump_of(t, depth as nat, position),
        decreases t,
    {
        proof {
            reveal_with_fuel(dump_of, 2);
        }
        if let Some(i) = node {
            lines.push(DumpLine { depth, position, key: nodes[i].key, height: nodes[i].height });
            Self::print_structure_recursive(
                nodes,
                nodes[i].left,
                depth + 1,
                Position::Left,
                lines,
                Ghost(t.l()),
                Ghost(Some(i)),
            );
            Self::print_structure_recursive(
                nodes,
                nodes[i].right,
                depth + 1,
                Position::Right,
                lines,
                Ghost(t.r()),
                Ghost(Some(i)),
            );
        }
    }
}

impl<K: OrderedKey> View for AVLTree<K> {
    type V = Multiset<K>;

    /// The keys with their multiplicities.
    open spec fn view(&self) -> Multiset<K> {
        self.tree().bag()
    }
}

} // verus!
