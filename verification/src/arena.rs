//! The arena store: a flat vector of node records addressed by `NodeId`.
//!
//! A node record holds its value, an optional parent identifier, and the
//! ordered list of its children's identifiers. Records are never reallocated:
//! an identifier stays valid, and keeps resolving to the same value and the
//! same subtree, across any number of reorders.

use vstd::prelude::*;

verus! {

/// A stable handle for a tree node, totally ordered by creation sequence:
/// the node created `n`-th has index `n`.
#[derive(Clone, Copy, PartialEq, Eq, Structural, Debug)]
pub struct NodeId {
    pub idx: usize,
}

impl NodeId {
    /// The creation index of this identifier.
    pub fn to_index(&self) -> (r: usize)
        ensures
            r == self.idx,
    {
        self.idx
    }
}

/// An arena tree over `u64` values.
///
/// The three vectors are indexed by `NodeId::idx`: `vals[i]` is node `i`'s
/// value, `parents[i]` its parent (None for the root), and `kids[i]` the
/// ordered identifiers of its immediate children.
pub struct Tree {
    pub vals: Vec<u64>,
    pub parents: Vec<Option<NodeId>>,
    pub kids: Vec<Vec<NodeId>>,
}

impl Tree {
    /// The number of nodes ever created in this arena.
    pub open spec fn node_count(self) -> int {
        self.vals@.len() as int
    }

    /// `id` resolves to a record of this arena.
    pub open spec fn valid_id(self, id: NodeId) -> bool {
        id.idx < self.node_count()
    }

    /// The child identifiers of node `p`, as a sequence.
    pub open spec fn children_seq(self, p: NodeId) -> Seq<NodeId> {
        self.kids@[p.idx as int]@
    }

    /// The value stored at `id`.
    pub open spec fn value_spec(self, id: NodeId) -> u64 {
        self.vals@[id.idx as int]
    }

    /// Well-formedness of the arena: the three vectors describe the same
    /// nodes, every child identifier resolves, no child is listed twice
    /// under one parent, and each listed child's parent link points back.
    pub open spec fn wf(self) -> bool {
        &&& self.parents@.len() == self.vals@.len()
        &&& self.kids@.len() == self.vals@.len()
        &&& forall|p: int, k: int|
            0 <= p < self.kids@.len() && 0 <= k < self.kids@[p]@.len()
                ==> (#[trigger] self.kids@[p]@[k]).idx < self.vals@.len()
        &&& forall|p: int, k: int|
            0 <= p < self.kids@.len() && 0 <= k < self.kids@[p]@.len()
                ==> self.parents@[(#[trigger] self.kids@[p]@[k]).idx as int] == Some(
                NodeId { idx: p as usize },
            )
        &&& forall|p: int| 0 <= p < self.kids@.len() ==> (#[trigger] self.kids@[p]@).no_duplicates()
    }

    /// Create an arena holding a single root node with the given value.
    pub fn new(root_val: u64) -> (t: Tree)
        ensures
            t.wf(),
            t.node_count() == 1,
            t.value_spec(NodeId { idx: 0 }) == root_val,
            t.children_seq(NodeId { idx: 0 }) == Seq::<NodeId>::empty(),
            t.parents@[0] is None,
    {
        let mut vals: Vec<u64> = Vec::new();
        vals.push(root_val);
        let mut parents: Vec<Option<NodeId>> = Vec::new();
        parents.push(None);
        let mut kids: Vec<Vec<NodeId>> = Vec::new();
        kids.push(Vec::new());
        let t = Tree { vals, parents, kids };
        proof {
            assert(t.children_seq(NodeId { idx: 0 }) =~= Seq::<NodeId>::empty());
        }
        t
    }

    /// The identifier of the root node.
    pub fn root(&self) -> (r: NodeId)
        ensures
            r == (NodeId { idx: 0 }),
    {
        NodeId { idx: 0 }
    }

    /// Append a new child with value `val` at the end of `parent`'s children.
    /// The new node gets the next creation index.
    pub fn append_child(&mut self, parent: NodeId, val: u64) -> (id: NodeId)
        requires
            old(self).wf(),
            old(self).valid_id(parent),
        ensures
            final(self).wf(),
            id.idx == old(self).node_count(),
            final(self).node_count() == old(self).node_count() + 1,
            final(self).vals@ == old(self).vals@.push(val),
            final(self).children_seq(parent) == old(self).children_seq(parent).push(id),
            forall|q: NodeId|
                old(self).valid_id(q) && q != parent ==> #[trigger] final(self).children_seq(q)
                    == old(self).children_seq(q),
            forall|q: NodeId|
                old(self).valid_id(q) ==> #[trigger] final(self).value_spec(q) == old(self).value_spec(q),
    {
        let id = NodeId { idx: self.vals.len() };
        self.vals.push(val);
        self.parents.push(Some(parent));
        self.kids.push(Vec::new());
        let mut chain = self.kids.remove(parent.idx);
        chain.push(id);
        self.kids.insert(parent.idx, chain);
        proof {
            assert forall|p: int, k: int|
                0 <= p < self.kids@.len() && 0 <= k < self.kids@[p]@.len() implies (
            #[trigger] self.kids@[p]@[k]).idx < self.vals@.len() by {
                if p != parent.idx || k < self.kids@[p]@.len() - 1 {
                    assert(old(self).kids@[p]@[k].idx < old(self).vals@.len());
                }
            }
            assert forall|p: int, k: int|
                0 <= p < self.kids@.len() && 0 <= k < self.kids@[p]@.len() implies self.parents@[(
            #[trigger] self.kids@[p]@[k]).idx as int] == Some(NodeId { idx: p as usize }) by {
                if p != parent.idx || k < self.kids@[p]@.len() - 1 {
                    assert(self.kids@[p]@[k] == old(self).kids@[p]@[k]);
                    assert(old(self).kids@[p]@[k].idx < old(self).vals@.len());
                }
            }
            assert forall|p: int| 0 <= p < self.kids@.len() implies (
            #[trigger] self.kids@[p]@).no_duplicates() by {
                if p == parent.idx {
                    let c = old(self).kids@[p]@;
                    assert forall|k: int| 0 <= k < c.len() implies c[k] != id by {
                        assert(c[k].idx < old(self).vals@.len());
                    }
                }
            }
        }
        id
    }

    /// The value stored at `id`.
    pub fn value(&self, id: NodeId) -> (r: u64)
        requires
            self.valid_id(id),
        ensures
            r == self.value_spec(id),
    {
        self.vals[id.idx]
    }

    /// The current children of `id`, front to back, as a fresh vector.
    pub fn children(&self, id: NodeId) -> (r: Vec<NodeId>)
        requires
            self.wf(),
            self.valid_id(id),
        ensures
            r@ == self.children_seq(id),
    {
        let chain = &self.kids[id.idx];
        let mut r: Vec<NodeId> = Vec::new();
        let mut k: usize = 0;
        while k < chain.len()
            invariant
                k <= chain@.len(),
                r@ == chain@.subrange(0, k as int),
            decreases chain@.len() - k,
        {
            r.push(chain[k]);
            proof {
                assert(r@ =~= chain@.subrange(0, k + 1 as int));
            }
            k += 1;
        }
        proof {
            assert(r@ =~= chain@);
        }
        r
    }

    /// Take this tree into a mutable handle positioned on node `id`.
    pub fn node_mut(self, id: NodeId) -> (h: NodeMut)
        requires
            self.wf(),
            self.valid_id(id),
        ensures
            h.tree == self,
            h.id == id,
            h.wf(),
    {
        NodeMut { tree: self, id }
    }
}

/// A mutable handle on one node of an arena tree: the receiver of the sort
/// operations, which reorder that node's immediate children.
pub struct NodeMut {
    pub tree: Tree,
    pub id: NodeId,
}

impl NodeMut {
    /// The handle points into a well-formed arena.
    pub open spec fn wf(self) -> bool {
        &&& self.tree.wf()
        &&& self.tree.valid_id(self.id)
    }

    /// Give the arena back.
    pub fn into_tree(self) -> (t: Tree)
        ensures
            t == self.tree,
    {
        self.tree
    }

    /// Whether this node currently has any children.
    pub fn has_children(&self) -> (r: bool)
        requires
            self.wf(),
        ensures
            r == (self.tree.children_seq(self.id).len() > 0),
    {
        self.tree.kids[self.id.idx].len() > 0
    }
}

} // verus!
