//! The append-only arena that owns one compilation's resolved nodes.
//!
//! Every node produced by the transform stage is allocated here and
//! addressed by integer handle; nothing is ever removed or moved, so a
//! handle stays valid until the whole arena is dropped at the end of the
//! compile call.  A composite node refers to its children by handles
//! that were allocated earlier, so the resolved tree is acyclic.

use vstd::prelude::*;
use crate::value::{ExpressionValue, ValueM};

verus! {

/// Mathematical model of one resolved node.
pub enum NodeM {
    ValueN(ValueM),
    BlockN(Seq<int>),
}

/// A resolved node: a concrete value, or a composite holding the
/// handles of its already-resolved children in order.
pub enum TransformedNode {
    Value(ExpressionValue),
    Block(Vec<usize>),
}

impl View for TransformedNode {
    type V = NodeM;

    open spec fn view(&self) -> NodeM {
        match self {
            TransformedNode::Value(v) => NodeM::ValueN(v@),
            TransformedNode::Block(cs) => NodeM::BlockN(cs@.map_values(|c: usize| c as int)),
        }
    }
}

/// Every child handle of `n` lies below `bound`.
pub open spec fn node_wf(n: NodeM, bound: int) -> bool {
    match n {
        NodeM::ValueN(_) => true,
        NodeM::BlockN(cs) => forall|k: int| 0 <= k < cs.len() ==> 0 <= #[trigger] cs[k] < bound,
    }
}

/// An arena is well-formed when every node only refers to earlier ones.
pub open spec fn arena_wf(nodes: Seq<NodeM>) -> bool {
    forall|i: int| 0 <= i < nodes.len() ==> node_wf(#[trigger] nodes[i], i)
}

/// The arena: an append-only vector of resolved nodes.
pub struct TransformedArena {
    nodes: Vec<TransformedNode>,
}

impl View for TransformedArena {
    type V = Seq<NodeM>;

    closed spec fn view(&self) -> Seq<NodeM> {
        self.nodes@.map_values(|n: TransformedNode| n@)
    }
}

impl TransformedArena {
    /// An empty arena for one compilation.
    pub fn new() -> (r: TransformedArena)
        ensures
            r@ == Seq::<NodeM>::empty(),
            r.wf(),
    {
        let r = TransformedArena { nodes: Vec::new() };
        proof {
            assert(r@ =~= Seq::<NodeM>::empty());
        }
        r
    }

    pub open spec fn wf(&self) -> bool {
        arena_wf(self@) && self@.len() <= usize::MAX
    }

    /// Number of nodes allocated so far.
    pub fn len(&self) -> (r: usize)
        ensures
            r == self@.len(),
    {
        self.nodes.len()
    }

    /// Borrow the node with the given handle.
    pub fn get(&self, id: usize) -> (r: &TransformedNode)
        requires
            id < self@.len(),
        ensures
            r@ == self@[id as int],
    {
        proof {
            assert(self@[id as int] == self.nodes@[id as int]@);
        }
        &self.nodes[id]
    }

    /// Allocate a node whose children are already in the arena and
    /// return its handle.
    pub fn append(&mut self, n: TransformedNode) -> (id: usize)
        requires
            old(self).wf(),
            node_wf(n@, old(self)@.len() as int),
        ensures
            id == old(self)@.len(),
            final(self)@ =~= old(self)@.push(n@),
            final(self).wf(),
    {
        let id = self.nodes.len();
        self.nodes.push(n);
        proof {
            assert(vstd::std_specs::vec::spec_vec_len(&self.nodes) == self.nodes@.len());
            assert(final(self)@ =~= old(self)@.push(n@));
        }
        id
    }
}

} // verus!
