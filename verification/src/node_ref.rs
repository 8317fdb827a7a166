use vstd::prelude::*;

verus! {

/// Opaque handle to a stored node: an index into the node store's
/// arena, or the sentinel meaning "no child here".
#[derive(Debug, Clone, Copy, PartialEq, Eq, Structural, Hash)]
pub struct NodeRef {
    pub index: usize,
}

impl NodeRef {
    /// The sentinel carries the all-ones index, which the arena never
    /// hands out.
    pub open spec fn spec_valid(self) -> bool {
        self.index != usize::MAX
    }

    pub fn new(index: usize) -> (r: NodeRef)
        requires
            index < usize::MAX,
        ensures
            r.index == index,
            r.spec_valid(),
    {
        NodeRef { index }
    }

    pub fn empty() -> (r: NodeRef)
        ensures
            !r.spec_valid(),
    {
        NodeRef { index: usize::MAX }
    }

    pub fn is_valid(&self) -> (r: bool)
        ensures
            r == self.spec_valid(),
    {
        self.index != usize::MAX
    }
}

impl Default for NodeRef {
    fn default() -> (r: NodeRef)
        ensures
            !r.spec_valid(),
    {
        NodeRef::empty()
    }
}

} // verus!
