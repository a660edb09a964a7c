use vstd::prelude::*;

verus! {

/// Identifier of a node in the semantic graph.
#[derive(Debug, Clone, Copy, PartialEq, Eq, Hash, PartialOrd, Ord, Structural)]
pub struct NodeId(pub u64);

impl NodeId {
    /// The decimal form of the identifier.
    pub fn to_string(&self) -> (s: String)
        ensures
            s@ == crate::text::nat_text(self.0 as nat),
    {
        crate::text::u64_to_text(self.0)
    }
}

} // verus!
