use vstd::prelude::*;
use crate::graph::deps::{
    add_dependent, add_dependents, deps_s, drop_dependent, drop_dependents, compute_deps_for_node,
    forward_s, rebuild_all_deps, reverse_s,
};
use crate::graph::ids::NodeId;
use crate::graph::transpose::{dep_wf, law_rebuild_transposes, law_redeps_keeps_transpose, transposed};
use crate::graph::invalidate::{closure_s, invalidation_closure};
use crate::graph::node::{NodeKind, SNode};
use crate::graph::table::{
    DepTable, NameIndex, NodeTable, canon, copy_deps, copy_names, copy_nodes, ids_sorted, ids_view,
    keys_sorted, lemma_tbl_get_sorted, lemma_tbl_sorted, name_del, name_get, name_put, tbl_get, tbl_insert, tbl_remove,
};

verus! {

broadcast use vstd::std_specs::vec::group_vec_axioms;

/// The semantic graph store: nodes by identifier, signature identifiers by
/// name, and dependency edges in both directions.
#[derive(Debug)]
pub struct GraphStore {
    nodes: NodeTable,
    name_index: NameIndex,
    edges: DepEdges,
    next_id: u64,
}

/// The dependency edges in both directions: each node's dependencies, and
/// each node's dependents.
#[derive(Debug)]
struct DepEdges {
    fwd: DepTable,
    rev: DepTable,
}

/// The model of a graph store.
pub struct SGraph {
    pub nodes: Seq<(u64, SNode)>,
    pub names: Seq<(Seq<char>, u64)>,
    pub fwd: Seq<(u64, Seq<u64>)>,
    pub rev: Seq<(u64, Seq<u64>)>,
    pub next_id: u64,
}

impl View for GraphStore {
    type V = SGraph;

    closed spec fn view(&self) -> SGraph {
        SGraph {
            nodes: self.nodes@,
            names: self.name_index@,
            fwd: self.edges.fwd@,
            rev: self.edges.rev@,
            next_id: self.next_id,
        }
    }
}

/// The graph with `node` stored under `id`: a signature is indexed by its
/// name, and the next identifier moves past `id`.
pub open spec fn insert_s(g: SGraph, id: u64, node: SNode) -> SGraph {
    SGraph {
        nodes: tbl_insert(g.nodes, id, node),
        names: match node {
            SNode::Sig { name, .. } => name_put(g.names, name, id),
            _ => g.names,
        },
        next_id: if id >= g.next_id {
            (id + 1) as u64
        } else {
            g.next_id
        },
        ..g
    }
}

/// The graph with the node under `id` replaced by `node`: the old signature's
/// name leaves the index and the new one's enters it.
pub open spec fn replace_s(g: SGraph, id: u64, node: SNode) -> SGraph {
    let names1 = match tbl_get(g.nodes, id) {
        Some(SNode::Sig { name, .. }) => name_del(g.names, name),
        _ => g.names,
    };
    SGraph {
        nodes: tbl_insert(g.nodes, id, node),
        names: match node {
            SNode::Sig { name, .. } => name_put(names1, name, id),
            _ => names1,
        },
        next_id: if id >= g.next_id {
            (id + 1) as u64
        } else {
            g.next_id
        },
        ..g
    }
}

/// The graph with the dependency edges of `nid` recomputed.
pub open spec fn redeps_one(g: SGraph, nid: u64) -> SGraph {
    let fwd1 = match tbl_get(g.fwd, nid) {
        Some(_) => tbl_remove(g.fwd, nid),
        None => g.fwd,
    };
    let rev1 = match tbl_get(g.fwd, nid) {
        Some(old) => drop_dependent(g.rev, nid, old),
        None => g.rev,
    };
    match tbl_get(g.nodes, nid) {
        Some(n) => {
            let ds = canon(deps_s(n, g.names));
            SGraph { fwd: tbl_insert(fwd1, nid, ds), rev: add_dependent(rev1, nid, ds), ..g }
        },
        None => SGraph { fwd: fwd1, rev: rev1, ..g },
    }
}

/// The graph with the dependency edges of each of `ids` recomputed, in order.
pub open spec fn redeps(g: SGraph, ids: Seq<u64>) -> SGraph
    decreases ids.len(),
{
    if ids.len() == 0 {
        g
    } else {
        redeps_one(redeps(g, ids.drop_last()), ids[ids.len() - 1])
    }
}

/// The graph with every dependency edge rebuilt from the nodes and names.
pub open spec fn rebuild_s(g: SGraph) -> SGraph {
    let fwd = forward_s(g.nodes, g.names);
    SGraph { fwd, rev: reverse_s(fwd), ..g }
}

/// Whether the table holds a function body.
pub open spec fn has_body(t: Seq<(u64, SNode)>) -> bool {
    exists|i: int| 0 <= i < t.len() && (#[trigger] t[i]).1 is Body
}

/// Identifiers of the function bodies, in the table's order.
pub open spec fn body_ids_s(t: Seq<(u64, SNode)>) -> Seq<u64>
    decreases t.len(),
{
    if t.len() == 0 {
        Seq::empty()
    } else {
        let rest = body_ids_s(t.drop_last());
        match t[t.len() - 1].1 {
            SNode::Body { .. } => rest.push(t[t.len() - 1].0),
            _ => rest,
        }
    }
}

/// Index of the first body of signature `sig`, or -1.
pub open spec fn body_pos(t: Seq<(u64, SNode)>, sig: u64) -> int
    decreases t.len(),
{
    if t.len() == 0 {
        -1
    } else {
        let j = body_pos(t.drop_last(), sig);
        if j >= 0 {
            j
        } else if (t[t.len() - 1].1 matches SNode::Body { sig: s, .. } && s == sig) {
            t.len() - 1
        } else {
            -1
        }
    }
}

pub proof fn lemma_body_pos(t: Seq<(u64, SNode)>, sig: u64)
    ensures
        -1 <= body_pos(t, sig) < t.len(),
        body_pos(t, sig) >= 0 ==> (t[body_pos(t, sig)].1 matches SNode::Body { sig: s, .. } && s
            == sig),
    decreases t.len(),
{
    if t.len() > 0 {
        lemma_body_pos(t.drop_last(), sig);
    }
}

/// The signature that `name` indexes, with its node.
pub open spec fn lookup_sig_s(g: SGraph, name: Seq<char>) -> Option<(u64, SNode)> {
    match name_get(g.names, name) {
        Some(id) => match tbl_get(g.nodes, id) {
            Some(n) => Some((id, n)),
            None => None,
        },
        None => None,
    }
}

/// The first body (in identifier order) of signature `sig`, with its node.
pub open spec fn find_body_s(g: SGraph, sig: u64) -> Option<(u64, SNode)> {
    let i = body_pos(g.nodes, sig);
    if i >= 0 {
        Some(g.nodes[i])
    } else {
        None
    }
}

/// Every node identifier of the table is below `n`.
pub open spec fn ids_below(t: Seq<(u64, SNode)>, n: u64) -> bool {
    forall|i: int| 0 <= i < t.len() ==> (#[trigger] t[i]).0 < n
}

/// Storing under a key below `n` keeps every key below `n`.
pub proof fn lemma_insert_below(t: Seq<(u64, SNode)>, k: u64, v: SNode, n: u64)
    requires
        ids_below(t, n),
        k < n,
    ensures
        ids_below(tbl_insert(t, k, v), n),
{
    crate::graph::table::lemma_lower_bound(t, k);
    let p = crate::graph::table::lower_bound(t, k);
    let r = tbl_insert(t, k, v);
    assert forall|i: int| 0 <= i < r.len() implies (#[trigger] r[i]).0 < n by {
        if p < t.len() && t[p].0 == k {
            if i != p {
                assert(r[i] == t[i]);
            }
        } else if i < p {
            assert(r[i] == t[i]);
        } else if i > p {
            assert(r[i] == t[i - 1]);
        }
    }
}

/// The node table and the forward table of a graph are in ascending order of
/// identifier.
pub open spec fn tables_sorted(g: SGraph) -> bool {
    keys_sorted(g.nodes) && keys_sorted(g.fwd)
}

impl GraphStore {
    /// Every graph store keeps its node and forward tables in ascending order
    /// of identifier.
    #[verifier::type_invariant]
    spec fn sorted(self) -> bool {
        &&& keys_sorted(self.nodes@)
        &&& keys_sorted(self.edges.fwd@)
        &&& dep_wf(self.edges.rev@)
        &&& transposed(self.edges.fwd@, self.edges.rev@)
        &&& ids_below(self.nodes@, self.next_id)
    }

    /// An empty graph; identifiers are handed out from 1.
    pub fn new() -> (g: GraphStore)
        ensures
            g@ == (SGraph {
                nodes: Seq::empty(),
                names: Seq::empty(),
                fwd: Seq::empty(),
                rev: Seq::empty(),
                next_id: 1,
            }),
    {
        GraphStore {
            nodes: NodeTable::new(),
            name_index: NameIndex::new(),
            edges: DepEdges { fwd: DepTable::new(), rev: DepTable::new() },
            next_id: 1,
        }
    }

    /// Allocates a new unique identifier: above every node's identifier and
    /// every identifier allocated before.
    pub fn alloc_id(&mut self) -> (id: NodeId)
        requires
            old(self)@.next_id < u64::MAX,
        ensures
            id.0 == old(self)@.next_id,
            ids_below(old(self)@.nodes, id.0),
            tbl_get(old(self)@.nodes, id.0) is None,
            final(self)@ == (SGraph { next_id: (old(self)@.next_id + 1) as u64, ..old(self)@ }),
    {
        proof {
            use_type_invariant(&*self);
            crate::graph::table::lemma_lower_bound(self@.nodes, self.next_id);
        }
        let id = NodeId(self.next_id);
        self.next_id = self.next_id + 1;
        id
    }

    /// Inserts a node; a signature is indexed by its name.
    pub fn insert(&mut self, id: NodeId, node: NodeKind)
        requires
            id.0 >= old(self)@.next_id ==> id.0 < u64::MAX,
        ensures
            final(self)@ == insert_s(old(self)@, id.0, node@),
    {
        proof {
            use_type_invariant(&*self);
            lemma_tbl_sorted(self.nodes@, id.0, node@);
        }
        let mut names = NameIndex::new();
        let mut nodes = NodeTable::new();
        std::mem::swap(&mut names, &mut self.name_index);
        std::mem::swap(&mut nodes, &mut self.nodes);
        if let NodeKind::FuncSig { name, .. } = &node {
            names.insert(name.clone(), id);
        }
        let ghost before = nodes@;
        let ghost nv = node@;
        nodes.insert(id, node);
        self.name_index = names;
        if id.0 >= self.next_id {
            self.next_id = id.0 + 1;
        }
        proof {
            lemma_insert_below(before, id.0, nv, self.next_id);
        }
        self.nodes = nodes;
    }

    /// Replaces a node's content; returns the old node if it existed.
    pub fn replace(&mut self, id: NodeId, node: NodeKind) -> (r: Option<NodeKind>)
        requires
            id.0 >= old(self)@.next_id ==> id.0 < u64::MAX,
        ensures
            final(self)@ == replace_s(old(self)@, id.0, node@),
            match tbl_get(old(self)@.nodes, id.0) {
                Some(n) => r matches Some(x) && x@ == n,
                None => r is None,
            },
    {
        proof {
            use_type_invariant(&*self);
            lemma_tbl_sorted(self.nodes@, id.0, node@);
        }
        let mut names = NameIndex::new();
        let mut nodes = NodeTable::new();
        std::mem::swap(&mut names, &mut self.name_index);
        std::mem::swap(&mut nodes, &mut self.nodes);
        match nodes.get(id) {
            Some(NodeKind::FuncSig { name, .. }) => {
                let n = name.clone();
                names.remove(&n);
            },
            _ => {},
        }
        if let NodeKind::FuncSig { name, .. } = &node {
            names.insert(name.clone(), id);
        }
        let ghost before = nodes@;
        let ghost nv = node@;
        let r = nodes.insert(id, node);
        self.name_index = names;
        if id.0 >= self.next_id {
            self.next_id = id.0 + 1;
        }
        proof {
            lemma_insert_below(before, id.0, nv, self.next_id);
        }
        self.nodes = nodes;
        r
    }

    /// Rebuilds the dependency edges of the given nodes, in order.
    pub fn rebuild_deps_for(&mut self, node_ids: &[NodeId])
        ensures
            final(self)@ == redeps(old(self)@, ids_view(node_ids@)),
    {
        proof {
            use_type_invariant(&*self);
        }
        let ghost g_in = self@;
        let mut edges = DepEdges { fwd: DepTable::new(), rev: DepTable::new() };
        std::mem::swap(&mut edges, &mut self.edges);
        let DepEdges { fwd: mut fwd, rev: mut rev } = edges;
        let ghost ids = ids_view(node_ids@);
        let mut i: usize = 0;
        while i < node_ids.len()
            invariant
                i <= node_ids.len(),
                ids == ids_view(node_ids@),
                keys_sorted(fwd@),
                self.nodes@ == g_in.nodes,
                self.name_index@ == g_in.names,
                self.next_id == g_in.next_id,
                (SGraph { fwd: fwd@, rev: rev@, ..g_in }) == redeps(g_in, ids.take(i as int)),
            decreases node_ids.len() - i,
        {
            let nid = node_ids[i];
            let ghost g0 = SGraph { fwd: fwd@, rev: rev@, ..g_in };
            proof {
                assert(ids.take(i + 1).drop_last() == ids.take(i as int));
                assert(ids.take(i + 1)[i as int] == nid.0);
                lemma_tbl_sorted(fwd@, nid.0, Seq::<u64>::empty());
            }
            match fwd.remove(nid) {
                Some(old_deps) => {
                    drop_dependents(&mut rev, nid, &old_deps);
                },
                None => {},
            }
            match self.nodes.get(nid) {
                Some(node) => {
                    let deps = compute_deps_for_node(nid, node, &self.name_index);
                    proof {
                        lemma_tbl_sorted(fwd@, nid.0, ids_view(deps@));
                    }
                    add_dependents(&mut rev, nid, &deps);
                    fwd.insert(nid, deps);
                },
                None => {},
            }
            assert((SGraph { fwd: fwd@, rev: rev@, ..g_in }) == redeps_one(g0, nid.0));
            i += 1;
        }
        assert(ids.take(i as int) == ids);
        proof {
            law_redeps_keeps_transpose(g_in, ids);
        }
        self.edges = DepEdges { fwd, rev };
    }

    /// Rebuilds all dependency edges from scratch.
    pub fn rebuild_all_deps(&mut self)
        ensures
            final(self)@ == rebuild_s(old(self)@),
    {
        proof {
            use_type_invariant(&*self);
        }
        let (fwd, rev) = rebuild_all_deps(&self.nodes, &self.name_index);
        assert(keys_sorted(fwd@));
        proof {
            law_rebuild_transposes(old(self)@);
        }
        self.edges = DepEdges { fwd, rev };
    }

    /// The invalidation closure of the changed nodes: they and all their
    /// transitive dependents, in ascending order.
    pub fn invalidation_closure(&self, changed: &Vec<NodeId>) -> (r: Vec<NodeId>)
        ensures
            ids_sorted(ids_view(r@)),
            ids_view(r@).to_set() == closure_s(self@.rev, ids_view(changed@).to_set()),
    {
        invalidation_closure(changed, &self.edges.rev)
    }

    /// The identifiers of all function bodies, in ascending order: each names
    /// a body, and there is one exactly when the graph holds a body.
    pub fn body_node_ids(&self) -> (r: Vec<NodeId>)
        ensures
            ids_view(r@) == body_ids_s(self@.nodes),
            forall|k: int|
                0 <= k < r@.len() ==> tbl_get(self@.nodes, #[trigger] r@[k].0) matches Some(
                    SNode::Body { .. },
                ),
            r@.len() > 0 <==> has_body(self@.nodes),
    {
        proof {
            use_type_invariant(self);
        }
        let ghost t = self@.nodes;
        let mut out: Vec<NodeId> = Vec::new();
        let mut i: usize = 0;
        while i < self.nodes.entries.len()
            invariant
                i <= self.nodes.entries.len(),
                t == self@.nodes,
                keys_sorted(t),
                t.len() == self.nodes.entries@.len(),
                ids_view(out@) == body_ids_s(t.take(i as int)),
                forall|k: int|
                    0 <= k < out@.len() ==> tbl_get(t, #[trigger] out@[k].0) matches Some(
                        SNode::Body { .. },
                    ),
                out@.len() > 0 <==> exists|j: int| 0 <= j < i && (#[trigger] t[j]).1 is Body,
            decreases self.nodes.entries.len() - i,
        {
            proof {
                assert(t.take(i + 1).drop_last() == t.take(i as int));
                assert(t.take(i + 1)[i as int] == t[i as int]);
            }
            let ghost before = out@;
            match &self.nodes.entries[i].1 {
                NodeKind::FuncBody { .. } => {
                    out.push(self.nodes.entries[i].0);
                    assert(ids_view(out@) =~= ids_view(before).push(self.nodes.entries@[i as int].0.0));
                    proof {
                        lemma_tbl_get_sorted(t, t[i as int].0, i as int);
                        assert(t[i as int].1 is Body);
                    }
                },
                _ => {
                    assert(!(t[i as int].1 is Body));
                },
            }
            i += 1;
        }
        assert(t.take(i as int) == t);
        out
    }

    /// The identifiers of all nodes, in ascending order.
    pub fn all_node_ids(&self) -> (r: Vec<NodeId>)
        ensures
            ids_view(r@) == self@.nodes.map_values(|e: (u64, SNode)| e.0),
    {
        let mut out: Vec<NodeId> = Vec::new();
        let mut i: usize = 0;
        while i < self.nodes.entries.len()
            invariant
                i <= self.nodes.entries.len(),
                out@.len() == i,
                forall|j: int| 0 <= j < i ==> #[trigger] out@[j] == self.nodes.entries@[j].0,
            decreases self.nodes.entries.len() - i,
        {
            out.push(self.nodes.entries[i].0);
            i += 1;
        }
        assert(ids_view(out@) =~= self@.nodes.map_values(|e: (u64, SNode)| e.0));
        out
    }

    /// The node stored under `id`.
    pub fn get(&self, id: NodeId) -> (r: Option<&NodeKind>)
        ensures
            match tbl_get(self@.nodes, id.0) {
                Some(n) => r matches Some(x) && x@ == n,
                None => r is None,
            },
            r is Some ==> id.0 < self@.next_id,
    {
        proof {
            use_type_invariant(self);
            crate::graph::table::lemma_lower_bound(self@.nodes, id.0);
        }
        self.nodes.get(id)
    }

    /// The node table, in ascending order of identifier.
    pub fn nodes(&self) -> (r: &NodeTable)
        ensures
            r@ == self@.nodes,
            keys_sorted(r@),
    {
        proof {
            use_type_invariant(self);
        }
        &self.nodes
    }

    /// The forward dependency table, in ascending order of identifier.
    pub fn forward_deps(&self) -> (r: &DepTable)
        ensures
            r@ == self@.fwd,
            keys_sorted(r@),
    {
        proof {
            use_type_invariant(self);
        }
        &self.edges.fwd
    }

    /// The reverse dependency table: under each node, the nodes that list it
    /// among their dependencies in the forward table, and only those.
    pub fn reverse_deps(&self) -> (r: &DepTable)
        ensures
            r@ == self@.rev,
            dep_wf(r@),
            transposed(self@.fwd, r@),
    {
        proof {
            use_type_invariant(self);
        }
        &self.edges.rev
    }

    /// The name index.
    pub fn name_index(&self) -> (r: &NameIndex)
        ensures
            r@ == self@.names,
    {
        &self.name_index
    }

    /// Moves the next identifier up to `next`; it never moves down.
    pub fn advance_next_id(&mut self, next: u64)
        ensures
            final(self)@ == (SGraph {
                next_id: if next > old(self)@.next_id {
                    next
                } else {
                    old(self)@.next_id
                },
                ..old(self)@
            }),
    {
        proof {
            use_type_invariant(&*self);
        }
        if next > self.next_id {
            self.next_id = next;
        }
    }

    /// The identifier that `alloc_id` hands out next.
    pub fn next_id(&self) -> (n: u64)
        ensures
            n == self@.next_id,
    {
        self.next_id
    }

    /// Number of nodes.
    pub fn node_count(&self) -> (n: usize)
        ensures
            n == self@.nodes.len(),
    {
        self.nodes.len()
    }

    /// Looks up a function signature by name.
    pub fn lookup_sig(&self, name: &str) -> (r: Option<(NodeId, &NodeKind)>)
        ensures
            match lookup_sig_s(self@, name@) {
                Some((id, n)) => r matches Some((i, x)) && i.0 == id && x@ == n,
                None => r is None,
            },
    {
        let key = String::from_str(name);
        match self.name_index.get(&key) {
            Some(id) => match self.nodes.get(id) {
                Some(n) => Some((id, n)),
                None => None,
            },
            None => None,
        }
    }

    /// Finds the body node of a signature: the first in identifier order.
    pub fn find_body_for_sig(&self, sig_id: NodeId) -> (r: Option<(NodeId, &NodeKind)>)
        ensures
            match find_body_s(self@, sig_id.0) {
                Some((id, n)) => r matches Some((i, x)) && i.0 == id && x@ == n,
                None => r is None,
            },
    {
        let ghost t = self@.nodes;
        proof {
            lemma_body_pos(t, sig_id.0);
        }
        let mut i: usize = 0;
        while i < self.nodes.entries.len()
            invariant
                i <= self.nodes.entries.len(),
                t == self@.nodes,
                t.len() == self.nodes.entries@.len(),
                body_pos(t.take(i as int), sig_id.0) == -1,
            decreases self.nodes.entries.len() - i,
        {
            proof {
                assert(t.take(i + 1).drop_last() == t.take(i as int));
                assert(t.take(i + 1)[i as int] == t[i as int]);
            }
            match &self.nodes.entries[i].1 {
                NodeKind::FuncBody { sig_id: s, .. } => {
                    if s.0 == sig_id.0 {
                        proof {
                            assert(body_pos(t.take(i + 1), sig_id.0) == i);
                            lemma_body_pos_prefix(t, sig_id.0, i + 1);
                        }
                        return Some((self.nodes.entries[i].0, &self.nodes.entries[i].1));
                    }
                },
                _ => {},
            }
            i += 1;
        }
        assert(t.take(i as int) == t);
        None
    }
}

/// Once a prefix holds a body of `sig`, the whole table's first one is there.
pub proof fn lemma_body_pos_prefix(t: Seq<(u64, SNode)>, sig: u64, k: int)
    requires
        0 <= k <= t.len(),
        body_pos(t.take(k), sig) >= 0,
    ensures
        body_pos(t, sig) == body_pos(t.take(k), sig),
    decreases t.len() - k,
{
    if k < t.len() {
        assert(t.take(k + 1).drop_last() == t.take(k));
        lemma_body_pos_prefix(t, sig, k + 1);
    } else {
        assert(t.take(k) == t);
    }
}

/// A copy of a graph store.
pub fn copy_graph(g: &GraphStore) -> (r: GraphStore)
    ensures
        r@ == g@,
{
    proof {
        use_type_invariant(g);
    }
    GraphStore {
        nodes: copy_nodes(&g.nodes),
        name_index: copy_names(&g.name_index),
        edges: DepEdges { fwd: copy_deps(&g.edges.fwd), rev: copy_deps(&g.edges.rev) },
        next_id: g.next_id,
    }
}

impl Clone for GraphStore {
    fn clone(&self) -> (r: Self)
        ensures
            r@ == self@,
    {
        copy_graph(self)
    }
}

impl Default for GraphStore {
    fn default() -> (g: Self)
        ensures
            g@ == (SGraph {
                nodes: Seq::empty(),
                names: Seq::empty(),
                fwd: Seq::empty(),
                rev: Seq::empty(),
                next_id: 1,
            }),
    {
        GraphStore::new()
    }
}

} // verus!
