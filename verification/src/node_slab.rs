//! A slab of nodes with a stack of the indices that are free.
use vstd::prelude::*;

verus! {

use crate::allocator::{Node, indices};
use crate::node_index::NodeIndex;

/// A fixed set of node slots, handed out from a stack of free indices.
pub struct NodeSlab<NI: NodeIndex> {
    /// Maintains the mapping from node index to node.
    nodes: Vec<Node<NI>>,
    /// A stack of available node indices; the entries from 1 to
    /// `free_offset` are the ones available.
    free_nodes: Vec<NI>,
    /// An index within `free_nodes` pointing to the top of the stack.
    free_offset: u32,
}

impl<NI: NodeIndex> NodeSlab<NI> {
    /// The nodes, by index.
    pub closed spec fn nodes(self) -> Seq<Node<NI>> {
        self.nodes@
    }

    /// The stack of free indices (only its entries 1 to `top()` count).
    pub closed spec fn free(self) -> Seq<nat> {
        indices(self.free_nodes@)
    }

    /// The top of the stack of free indices.
    pub closed spec fn top(self) -> nat {
        self.free_offset as nat
    }

    /// How many indices have been handed out and not given back: the net
    /// number of inserts since the slab was made.
    pub open spec fn in_use(self) -> int {
        self.free().len() - 1 - self.top()
    }

    /// A working slab: one stack entry per node, and the top within the
    /// stack.
    pub open spec fn wf(self) -> bool {
        &&& self.free().len() == self.nodes().len() <= u32::MAX
        &&& self.top() < self.free().len()
    }

    /// Constructs a new slab of `max_nodes` empty nodes; the free stack holds
    /// the indices in inverse order, so that index 0 is at its top.
    pub fn new(max_nodes: u32) -> (r: Self)
        requires
            1 <= max_nodes <= NI::num_valid_spec(),
        ensures
            r.wf(),
            r.nodes().len() == max_nodes,
            forall|j: int| 0 <= j < max_nodes ==> !(#[trigger] r.nodes()[j]).used,
            r.free() =~= Seq::new(max_nodes as nat, |i: int| (max_nodes - 1 - i) as nat),
            r.top() == max_nodes - 1,
            r.in_use() == 0,
    {
        let mut nodes: Vec<Node<NI>> = Vec::new();
        let mut free_nodes: Vec<NI> = Vec::new();
        let mut i: u32 = 0;
        while i < max_nodes
            invariant
                i <= max_nodes <= NI::num_valid_spec(),
                nodes@.len() == i,
                free_nodes@.len() == i,
                forall|j: int| 0 <= j < i ==> !(#[trigger] nodes@[j]).used,
                forall|j: int| 0 <= j < i ==> (#[trigger] free_nodes@[j]).index() == max_nodes - 1 - j,
            decreases max_nodes - i,
        {
            nodes.push(Node::empty());
            free_nodes.push(NI::from_u32(max_nodes - i - 1));
            i += 1;
        }
        NodeSlab { nodes, free_nodes, free_offset: max_nodes - 1 }
    }

    /// Returns whether there is no more room for more nodes: only
    /// `max_nodes - 1` of the slots can be handed out at once.
    pub fn is_full(&self) -> (r: bool)
        ensures
            r == (self.top() == 0),
            self.wf() ==> (r <==> self.in_use() == self.nodes().len() - 1),
    {
        self.free_offset == 0
    }

    /// Inserts a node into the slab, returning the index associated with it:
    /// the index at the top of the free stack, which is popped (and must name
    /// a node).
    pub fn insert(&mut self, node: Node<NI>) -> (r: NI)
        requires
            old(self).wf(),
            old(self).top() > 0,
            old(self).free()[old(self).top() as int] < old(self).nodes().len(),
        ensures
            final(self).wf(),
            r.index() == old(self).free()[old(self).top() as int],
            final(self).top() == old(self).top() - 1,
            final(self).in_use() == old(self).in_use() + 1,
            final(self).free() == old(self).free(),
            final(self).nodes() == old(self).nodes().update(r.index() as int, node),
    {
        let free_offset = self.free_offset;
        let node_index = self.free_nodes[free_offset as usize];
        self.free_offset -= 1;
        proof {
            assert(indices(self.free_nodes@)[free_offset as int] == node_index.index());
        }
        self.nodes.set(node_index.to_usize(), node);
        node_index
    }

    /// Removes the node associated with the index, pushing the index back on
    /// the free stack.
    pub fn remove(&mut self, index: NI)
        requires
            old(self).wf(),
            old(self).top() + 1 < old(self).free().len(),
        ensures
            final(self).wf(),
            final(self).top() == old(self).top() + 1,
            final(self).in_use() == old(self).in_use() - 1,
            final(self).free() == old(self).free().update(final(self).top() as int, index.index()),
            final(self).nodes() == old(self).nodes(),
    {
        // Insert the removed node to freelist
        self.free_offset += 1;
        self.free_nodes.set(self.free_offset as usize, index);
        proof {
            assert(indices(self.free_nodes@) =~= indices(old(self).free_nodes@).update(
                self.free_offset as int,
                index.index(),
            ));
        }
    }

    /// The node with index `index`.
    pub fn get(&self, index: NI) -> (r: Node<NI>)
        requires
            index.index() < self.nodes().len(),
        ensures
            r == self.nodes()[index.index() as int],
    {
        self.nodes[index.to_usize()]
    }

    /// Replaces the node with index `index`.
    pub fn set(&mut self, index: NI, node: Node<NI>)
        requires
            index.index() < old(self).nodes().len(),
        ensures
            final(self).nodes() == old(self).nodes().update(index.index() as int, node),
            final(self).free() == old(self).free(),
            final(self).top() == old(self).top(),
    {
        self.nodes.set(index.to_usize(), node);
    }

    /// Giving back the index that an insert handed out restores the free
    /// stack and its top, so the next insert hands out the same index again.
    /// `s1` is a slab after an insert into `s0` that returned `index`, and
    /// `s2` is `s1` after removing `index`.
    pub proof fn lemma_insert_remove_restores(s0: Self, s1: Self, s2: Self, index: NI)
        requires
            s0.wf(),
            s0.top() > 0,
            index.index() == s0.free()[s0.top() as int],
            s1.top() == s0.top() - 1,
            s1.free() == s0.free(),
            s2.top() == s1.top() + 1,
            s2.free() == s1.free().update(s2.top() as int, index.index()),
        ensures
            s1.top() + 1 < s1.free().len(),
            s2.top() == s0.top(),
            s2.free() == s0.free(),
            s2.free()[s2.top() as int] == index.index(),
    {
        assert(s2.free() =~= s0.free());
    }
}

} // verus!
