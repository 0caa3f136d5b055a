//! The node arena: a vector of nodes that name their children and their
//! parent by slot number.
//!
//! [`linked`] says that an arena holds exactly a given model tree, parent
//! links included. The rest of this module manages the slots: which of them
//! hold nodes of the tree and which are spare.

use vstd::prelude::*;
use crate::shape::Tree;

verus! {

/// What the model reads from a node of an arena.
pub trait ArenaNode<K, G>: Sized {
    spec fn node_key(self) -> K;

    spec fn node_tag(self) -> G;

    spec fn left_link(self) -> Option<usize>;

    spec fn right_link(self) -> Option<usize>;

    spec fn parent_link(self) -> Option<usize>;
}

/// The arena `nodes` holds the tree `t` below the parent `parent`: every node
/// of `t` sits in its slot with its key and tag, its child links name the
/// tops of its subtrees, its parent link names the node above it, and no slot
/// is used twice.
pub open spec fn linked<K, G, N: ArenaNode<K, G>>(
    nodes: Seq<N>,
    t: Tree<K, G>,
    parent: Option<usize>,
) -> bool
    decreases t,
{
    match t {
        Tree::Nil => true,
        Tree::Node { left, slot, key, tag, right } => {
            &&& slot < nodes.len()
            &&& nodes[slot as int].node_key() == key
            &&& nodes[slot as int].node_tag() == tag
            &&& nodes[slot as int].left_link() == left.top()
            &&& nodes[slot as int].right_link() == right.top()
            &&& nodes[slot as int].parent_link() == parent
            &&& !left.slots().contains(slot)
            &&& !right.slots().contains(slot)
            &&& left.slots().disjoint(right.slots())
            &&& linked(nodes, *left, Some(slot))
            &&& linked(nodes, *right, Some(slot))
        },
    }
}

/// The slots of a linked tree are slots of the arena.
pub proof fn lemma_slots_in_arena<K, G, N: ArenaNode<K, G>>(
    nodes: Seq<N>,
    t: Tree<K, G>,
    parent: Option<usize>,
)
    requires
        linked(nodes, t, parent),
    ensures
        forall|i: usize| t.slots().contains(i) ==> i < nodes.len(),
        t.slots().finite(),
        t.slots().len() == t.size(),
    decreases t,
{
    match t {
        Tree::Nil => {},
        Tree::Node { left, slot, right, .. } => {
            lemma_slots_in_arena(nodes, *left, Some(slot));
            lemma_slots_in_arena(nodes, *right, Some(slot));
            vstd::set_lib::lemma_set_disjoint_lens(left.slots(), right.slots());
        },
    }
}

/// A tree stays linked when the arena changes only outside its slots.
pub proof fn lemma_linked_frame<K, G, N: ArenaNode<K, G>>(
    before: Seq<N>,
    after: Seq<N>,
    t: Tree<K, G>,
    parent: Option<usize>,
)
    requires
        linked(before, t, parent),
        before.len() <= after.len(),
        forall|i: usize|
            #[trigger] t.slots().contains(i) && i < before.len() ==> after[i as int]
                == before[i as int],
    ensures
        linked(after, t, parent),
    decreases t,
{
    match t {
        Tree::Nil => {},
        Tree::Node { left, slot, right, .. } => {
            assert(t.slots().contains(slot));
            assert forall|i: usize| #[trigger]
                left.slots().contains(i) && i < before.len() implies after[i as int]
                == before[i as int] by {
                assert(t.slots().contains(i));
            }
            assert forall|i: usize| #[trigger]
                right.slots().contains(i) && i < before.len() implies after[i as int]
                == before[i as int] by {
                assert(t.slots().contains(i));
            }
            lemma_linked_frame(before, after, *left, Some(slot));
            lemma_linked_frame(before, after, *right, Some(slot));
        },
    }
}

/// A linked tree stays linked under another parent once its top node's
/// parent link says so.
pub proof fn lemma_linked_reparent<K, G, N: ArenaNode<K, G>>(
    before: Seq<N>,
    after: Seq<N>,
    t: Tree<K, G>,
    parent: Option<usize>,
    new_parent: Option<usize>,
)
    requires
        linked(before, t, parent),
        before.len() <= after.len(),
        forall|i: usize|
            #[trigger] t.slots().contains(i) && i < before.len() && Some(i) != t.top()
                ==> after[i as int] == before[i as int],
        t.top() matches Some(s) ==> {
            &&& after[s as int].node_key() == before[s as int].node_key()
            &&& after[s as int].node_tag() == before[s as int].node_tag()
            &&& after[s as int].left_link() == before[s as int].left_link()
            &&& after[s as int].right_link() == before[s as int].right_link()
            &&& after[s as int].parent_link() == new_parent
        },
    ensures
        linked(after, t, new_parent),
{
    match t {
        Tree::Nil => {},
        Tree::Node { left, slot, right, .. } => {
            assert forall|i: usize| #[trigger]
                left.slots().contains(i) && i < before.len() implies after[i as int]
                == before[i as int] by {
                assert(t.slots().contains(i));
            }
            assert forall|i: usize| #[trigger]
                right.slots().contains(i) && i < before.len() implies after[i as int]
                == before[i as int] by {
                assert(t.slots().contains(i));
            }
            lemma_linked_frame(before, after, *left, Some(slot));
            lemma_linked_frame(before, after, *right, Some(slot));
        },
    }
}

/// In a linked tree the parent link of the top node names the parent of the
/// tree, and the parent link of every other node names a node of the tree
/// that is one step nearer to the top.
pub proof fn lemma_parent_is_nearer<K, G, N: ArenaNode<K, G>>(
    nodes: Seq<N>,
    t: Tree<K, G>,
    parent: Option<usize>,
    slot: usize,
)
    requires
        linked(nodes, t, parent),
        t.slots().contains(slot),
    ensures
        Some(slot) == t.top() ==> nodes[slot as int].parent_link() == parent,
        slot < nodes.len(),
        Some(slot) != t.top() ==> {
            &&& nodes[slot as int].parent_link() is Some
            &&& t.slots().contains(nodes[slot as int].parent_link()->0)
            &&& t.depth_of(nodes[slot as int].parent_link()->0) + 1 == t.depth_of(slot)
        },
    decreases t,
{
    reveal_with_fuel(Tree::depth_of, 2);
    match t {
        Tree::Nil => {},
        Tree::Node { left, slot: s, right, .. } => {
            if slot == s {
            } else if left.slots().contains(slot) {
                lemma_parent_is_nearer(nodes, *left, Some(s), slot);
                assert(t.slots().contains(s));
                if Some(slot) != left.top() {
                    let p = nodes[slot as int].parent_link()->0;
                    assert(left.slots().contains(p));
                    assert(t.slots().contains(p));
                    assert(p != s);
                }
            } else {
                assert(right.slots().contains(slot));
                lemma_parent_is_nearer(nodes, *right, Some(s), slot);
                assert(t.slots().contains(s));
                if Some(slot) != right.top() {
                    let p = nodes[slot as int].parent_link()->0;
                    assert(right.slots().contains(p));
                    assert(!left.slots().contains(p));
                    assert(t.slots().contains(p));
                    assert(p != s);
                }
            }
        },
    }
}

/// In a linked tree child links and parent links agree: every node but the
/// top is named as a child by the node that it names as its parent.
pub proof fn lemma_links_agree<K, G, N: ArenaNode<K, G>>(
    nodes: Seq<N>,
    t: Tree<K, G>,
    parent: Option<usize>,
    slot: usize,
)
    requires
        linked(nodes, t, parent),
        t.slots().contains(slot),
        Some(slot) != t.top(),
    ensures
        nodes[slot as int].parent_link() is Some,
        t.slots().contains(nodes[slot as int].parent_link()->0),
        nodes[nodes[slot as int].parent_link()->0 as int].left_link() == Some(slot)
            || nodes[nodes[slot as int].parent_link()->0 as int].right_link() == Some(slot),
    decreases t,
{
    match t {
        Tree::Nil => {},
        Tree::Node { left, slot: s, right, .. } => {
            assert(t.slots().contains(s));
            if left.slots().contains(slot) {
                assert(linked(nodes, *left, Some(s)));
                if Some(slot) != left.top() {
                    lemma_links_agree(nodes, *left, Some(s), slot);
                    assert(left.slots().contains(nodes[slot as int].parent_link()->0));
                } else {
                    assert(nodes[slot as int].parent_link() == Some(s));
                    assert(nodes[s as int].left_link() == Some(slot));
                }
            } else {
                assert(right.slots().contains(slot));
                assert(linked(nodes, *right, Some(s)));
                if Some(slot) != right.top() {
                    lemma_links_agree(nodes, *right, Some(s), slot);
                    assert(right.slots().contains(nodes[slot as int].parent_link()->0));
                } else {
                    assert(nodes[slot as int].parent_link() == Some(s));
                    assert(nodes[s as int].right_link() == Some(slot));
                }
            }
        },
    }
}

/// The spare list `spare` and the slots `used` by the tree split the arena
/// of `len` slots between them: every slot is used or spare, none is both,
/// and none is spare twice.
pub open spec fn spare_ok(len: nat, spare: Seq<usize>, used: Set<usize>) -> bool {
    &&& forall|i: int| 0 <= i < spare.len() ==> #[trigger] spare[i] < len && !used.contains(spare[i])
    &&& forall|i: int, j: int| 0 <= i < j < spare.len() ==> spare[i] != spare[j]
    &&& forall|s: usize| s < len ==> used.contains(s) || #[trigger] spare.contains(s)
}

/// The slot that the next new node gets: the one that was handed back last,
/// or the first slot beyond the arena if none is spare.
pub open spec fn next_slot(len: nat, spare: Seq<usize>) -> usize {
    if spare.len() > 0 {
        spare.last()
    } else {
        len as usize
    }
}

/// Puts `node` into the next slot, which the tree does not use, and returns
/// the slot.
pub fn take_slot<N>(
    nodes: &mut Vec<N>,
    spare: &mut Vec<usize>,
    node: N,
    Ghost(used): Ghost<Set<usize>>,
) -> (slot: usize)
    requires
        spare_ok(old(nodes)@.len(), old(spare)@, used),
        forall|s: usize| used.contains(s) ==> s < old(nodes)@.len(),
    ensures
        slot == next_slot(old(nodes)@.len(), old(spare)@),
        slot < final(nodes)@.len(),
        !used.contains(slot),
        old(nodes)@.len() <= final(nodes)@.len(),
        final(nodes)@[slot as int] == node,
        forall|j: int| 0 <= j < old(nodes)@.len() && j != slot ==> final(nodes)@[j] == old(nodes)@[j],
        spare_ok(final(nodes)@.len(), final(spare)@, used.insert(slot)),
{
    match spare.pop() {
        Some(slot) => {
            proof {
                let before = old(spare)@;
                assert(before[before.len() - 1] == slot);
                assert forall|s: usize| s < nodes@.len() implies used.insert(slot).contains(s)
                    || #[trigger] spare@.contains(s) by {
                    if s != slot && !used.contains(s) {
                        assert(before.contains(s));
                        let i = choose|i: int| 0 <= i < before.len() && before[i] == s;
                        assert(spare@[i] == s);
                    }
                }
            }
            nodes[slot] = node;
            slot
        },
        None => {
            let slot = nodes.len();
            nodes.push(node);
            slot
        },
    }
}

/// Hands the slot of a node that left the tree back to the spare list; it
/// is the next slot to be taken.
pub fn give_back(
    spare: &mut Vec<usize>,
    slot: usize,
    Ghost(len): Ghost<nat>,
    Ghost(used): Ghost<Set<usize>>,
)
    requires
        spare_ok(len, old(spare)@, used),
        used.contains(slot),
        slot < len,
    ensures
        spare_ok(len, final(spare)@, used.remove(slot)),
        next_slot(len, final(spare)@) == slot,
{
    spare.push(slot);
    proof {
        let before = old(spare)@;
        assert forall|s: usize| s < len implies used.remove(slot).contains(s)
            || #[trigger] spare@.contains(s) by {
            if s == slot {
                assert(spare@[before.len() as int] == s);
            } else if !used.contains(s) {
                assert(before.contains(s));
                let i = choose|i: int| 0 <= i < before.len() && before[i] == s;
                assert(spare@[i] == s);
            }
        }
    }
}

/// Whether `slot` is on the spare list.
pub fn is_spare(spare: &Vec<usize>, slot: usize) -> (r: bool)
    ensures
        r == spare@.contains(slot),
{
    let mut i: usize = 0;
    while i < spare.len()
        invariant
            i <= spare.len(),
            forall|j: int| 0 <= j < i ==> spare@[j] != slot,
        decreases spare.len() - i,
    {
        if spare[i] == slot {
            return true;
        }
        i += 1;
    }
    false
}

} // verus!
