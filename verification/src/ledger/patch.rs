use vstd::prelude::*;
use crate::graph::ids::NodeId;
use crate::graph::table::{copy_ids, ids_view};
use crate::ledger::delta::{SDelta, StructuralDelta, copy_delta};

verus! {

/// Metadata for a patch.
#[derive(Debug, PartialEq, Eq)]
pub struct PatchMetadata {
    pub author: String,
    pub ts: Option<u64>,
}

/// A proposed structural mutation.
#[derive(Debug, PartialEq, Eq)]
pub struct Patch {
    pub id: u64,
    pub parent_hash: crate::ledger::hash::Hash,
    pub region_scope: Vec<NodeId>,
    pub delta: StructuralDelta,
    pub metadata: PatchMetadata,
}

/// The model of a patch.
pub struct SPatch {
    pub id: u64,
    pub parent: Seq<u8>,
    pub scope: Seq<u64>,
    pub delta: SDelta,
    pub author: Seq<char>,
    pub ts: Option<u64>,
}

impl View for Patch {
    type V = SPatch;

    open spec fn view(&self) -> SPatch {
        SPatch {
            id: self.id,
            parent: self.parent_hash@,
            scope: ids_view(self.region_scope@),
            delta: self.delta@,
            author: self.metadata.author@,
            ts: self.metadata.ts,
        }
    }
}

/// The models of a sequence of patches.
pub open spec fn patches_view(ps: Seq<Patch>) -> Seq<SPatch> {
    ps.map_values(|p: Patch| p@)
}

/// A copy of a patch.
pub fn copy_patch(p: &Patch) -> (r: Patch)
    ensures
        r@ == p@,
{
    Patch {
        id: p.id,
        parent_hash: p.parent_hash,
        region_scope: copy_ids(&p.region_scope),
        delta: copy_delta(&p.delta),
        metadata: PatchMetadata { author: p.metadata.author.clone(), ts: p.metadata.ts },
    }
}

impl Clone for Patch {
    fn clone(&self) -> (r: Self)
        ensures
            r@ == self@,
    {
        copy_patch(self)
    }
}

impl Clone for PatchMetadata {
    fn clone(&self) -> (r: Self)
        ensures
            r.author@ == self.author@,
            r.ts == self.ts,
    {
        PatchMetadata { author: self.author.clone(), ts: self.ts }
    }
}

/// A copy of a sequence of patches.
pub fn copy_patches(ps: &Vec<Patch>) -> (r: Vec<Patch>)
    ensures
        patches_view(r@) == patches_view(ps@),
{
    let mut out: Vec<Patch> = Vec::new();
    let mut i: usize = 0;
    while i < ps.len()
        invariant
            i <= ps.len(),
            out@.len() == i,
            forall|k: int| 0 <= k < i ==> #[trigger] out@[k]@ == ps@[k]@,
        decreases ps.len() - i,
    {
        out.push(copy_patch(&ps[i]));
        i += 1;
    }
    assert(patches_view(out@) =~= patches_view(ps@));
    out
}

} // verus!
