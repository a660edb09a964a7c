use vstd::prelude::*;
use crate::lisp::effect::CapabilityId;

verus! {

/// Capability registry: hands out fresh capability identifiers; identifier 0 is
/// the root capability.
#[derive(Debug)]
pub struct CapabilityRegistry {
    next_id: u64,
}

impl View for CapabilityRegistry {
    type V = u64;

    /// The identifier the next capability will get.
    closed spec fn view(&self) -> u64 {
        self.next_id
    }
}

impl CapabilityRegistry {
    #[verifier::type_invariant]
    spec fn above_root(self) -> bool {
        self.next_id >= 1
    }

    /// A registry whose first capability will be 1.
    pub fn new() -> (r: CapabilityRegistry)
        ensures
            r@ == 1,
    {
        CapabilityRegistry { next_id: 1 }
    }

    /// Creates a new capability: never the root, and larger than every one
    /// created before it.
    pub fn create_capability(&mut self) -> (id: CapabilityId)
        requires
            old(self)@ < u64::MAX,
        ensures
            id.0 == old(self)@,
            id.0 != CapabilityRegistry::root_capability_id(),
            final(self)@ == old(self)@ + 1,
    {
        proof {
            use_type_invariant(&*self);
        }
        let id = CapabilityId(self.next_id);
        self.next_id = self.next_id + 1;
        id
    }

    /// The identifier of the root capability.
    pub open spec fn root_capability_id() -> u64 {
        0
    }

    /// The root capability (identifier 0), always available.
    pub fn root_capability() -> (id: CapabilityId)
        ensures
            id.0 == CapabilityRegistry::root_capability_id(),
    {
        CapabilityId(0)
    }
}

impl Default for CapabilityRegistry {
    fn default() -> (r: Self)
        ensures
            r@ == 1,
    {
        Self::new()
    }
}

} // verus!
