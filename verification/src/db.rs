use vstd::prelude::*;

use crate::error::StoreError;
use crate::node::{
    node_dirty, node_eqv, node_refs_bounded, node_wf, spec_db_wf, Node,
};
use crate::node_ref::NodeRef;

verus! {

/// Content-addressed arena backing the trie: nodes are appended and
/// never change, so a reference stays valid for as long as the arena
/// lives (structural sharing across versions).
#[derive(Debug)]
pub struct TrieDB {
    pub nodes: Vec<Node>,
}

impl TrieDB {
    pub open spec fn wf(self) -> bool {
        spec_db_wf(self.nodes@)
    }

    pub fn new() -> (r: TrieDB)
        ensures
            r.nodes@.len() == 0,
            r.wf(),
    {
        TrieDB { nodes: Vec::new() }
    }

    pub fn len(&self) -> (r: usize)
        ensures
            r == self.nodes@.len(),
    {
        self.nodes.len()
    }

    /// Store a node and hand back its reference.
    pub fn insert_node(&mut self, node: Node) -> (r: Result<NodeRef, StoreError>)
        requires
            old(self).wf(),
            node_wf(node),
            node_dirty(node),
            node_refs_bounded(node, old(self).nodes@.len() as int),
            old(self).nodes@.len() + 1 < usize::MAX,
        ensures
            final(self).wf(),
            r matches Ok(rf) && rf.spec_valid() && rf.index == old(self).nodes@.len()
                && final(self).nodes@ == old(self).nodes@.push(node),
    {
        let index = self.nodes.len();
        self.nodes.push(node);
        proof {
            assert forall|i: int| 0 <= i < self.nodes@.len() implies #[trigger] node_refs_bounded(
                self.nodes@[i],
                i,
            ) && node_wf(self.nodes@[i]) && node_dirty(self.nodes@[i]) by {
                if i < old(self).nodes@.len() {
                    assert(self.nodes@[i] == old(self).nodes@[i]);
                }
            }
        }
        Ok(NodeRef::new(index))
    }

    /// Borrow the node a reference points at.
    pub fn node_at(&self, rf: NodeRef) -> (r: &Node)
        requires
            rf.spec_valid(),
            rf.index < self.nodes@.len(),
        ensures
            *r == self.nodes@[rf.index as int],
    {
        &self.nodes[rf.index]
    }

    /// Fetch a copy of the node a reference points at.
    pub fn get_node(&self, rf: NodeRef) -> (r: Result<Node, StoreError>)
        ensures
            rf.spec_valid() && rf.index < self.nodes@.len() ==> (r matches Ok(n) && node_eqv(
                n,
                self.nodes@[rf.index as int],
            )),
            !(rf.spec_valid() && rf.index < self.nodes@.len()) ==> (r matches Err(e) && e
                == StoreError::NotFound),
    {
        if rf.is_valid() && rf.index < self.nodes.len() {
            Ok(node_duplicate(&self.nodes[rf.index]))
        } else {
            Err(StoreError::NotFound)
        }
    }
}

/// Copy a node; the copy matches the original field view by field view.
pub fn node_duplicate(n: &Node) -> (r: Node)
    ensures
        node_eqv(r, *n),
{
    match n {
        Node::Leaf(l) => Node::Leaf(l.duplicate()),
        Node::Branch(b) => Node::Branch(b.duplicate()),
        Node::Extension(e) => Node::Extension(e.duplicate()),
    }
}

} // verus!
