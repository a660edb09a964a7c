use vstd::prelude::*;
use crate::graph::ids::NodeId;
use crate::graph::node::{NodeKind, SNode, copy_node, node_view};

verus! {

broadcast use vstd::std_specs::vec::group_vec_axioms;

// ---------------------------------------------------------------------------
// Tables keyed by node identifier, kept in ascending order of key
// ---------------------------------------------------------------------------

/// Keys strictly ascending.
pub open spec fn keys_sorted<V>(t: Seq<(u64, V)>) -> bool {
    forall|i: int, j: int| 0 <= i < j < t.len() ==> t[i].0 < t[j].0
}

/// Index of the first entry whose key is at least `k` (the table's length if none).
pub open spec fn lower_bound<V>(t: Seq<(u64, V)>, k: u64) -> int
    decreases t.len(),
{
    if t.len() == 0 || t[0].0 >= k {
        0
    } else {
        1 + lower_bound(t.drop_first(), k)
    }
}

/// The value stored under `k`.
pub open spec fn tbl_get<V>(t: Seq<(u64, V)>, k: u64) -> Option<V> {
    let p = lower_bound(t, k);
    if p < t.len() && t[p].0 == k {
        Some(t[p].1)
    } else {
        None
    }
}

/// The table with `k` mapped to `v`, in place of any earlier value.
pub open spec fn tbl_insert<V>(t: Seq<(u64, V)>, k: u64, v: V) -> Seq<(u64, V)> {
    let p = lower_bound(t, k);
    if p < t.len() && t[p].0 == k {
        t.update(p, (k, v))
    } else {
        t.insert(p, (k, v))
    }
}

/// The table without an entry for `k`.
pub open spec fn tbl_remove<V>(t: Seq<(u64, V)>, k: u64) -> Seq<(u64, V)> {
    let p = lower_bound(t, k);
    if p < t.len() && t[p].0 == k {
        t.remove(p)
    } else {
        t
    }
}

pub proof fn lemma_lower_bound<V>(t: Seq<(u64, V)>, k: u64)
    ensures
        0 <= lower_bound(t, k) <= t.len(),
        forall|i: int| 0 <= i < lower_bound(t, k) ==> t[i].0 < k,
        lower_bound(t, k) < t.len() ==> t[lower_bound(t, k)].0 >= k,
    decreases t.len(),
{
    if t.len() > 0 && t[0].0 < k {
        let d = t.drop_first();
        lemma_lower_bound(d, k);
        assert forall|i: int| 0 <= i < lower_bound(t, k) implies t[i].0 < k by {
            if i > 0 {
                assert(t[i] == d[i - 1]);
            }
        }
    }
}

/// In a sorted table, the entry under `k`, if any, is where `lower_bound` points.
pub proof fn lemma_tbl_get_sorted<V>(t: Seq<(u64, V)>, k: u64, i: int)
    requires
        keys_sorted(t),
        0 <= i < t.len(),
        t[i].0 == k,
    ensures
        lower_bound(t, k) == i,
        tbl_get(t, k) == Some(t[i].1),
{
    lemma_lower_bound(t, k);
    let p = lower_bound(t, k);
    if p < i {
        assert(t[p].0 < t[i].0);
    }
    if p > i {
        assert(t[i].0 < k);
    }
}

/// Inserting and removing keep a table sorted.
pub proof fn lemma_tbl_sorted<V>(t: Seq<(u64, V)>, k: u64, v: V)
    requires
        keys_sorted(t),
    ensures
        keys_sorted(tbl_insert(t, k, v)),
        keys_sorted(tbl_remove(t, k)),
{
    lemma_lower_bound(t, k);
    let p = lower_bound(t, k);
    let ins = tbl_insert(t, k, v);
    if !(p < t.len() && t[p].0 == k) {
        assert forall|i: int, j: int| 0 <= i < j < ins.len() implies ins[i].0 < ins[j].0 by {
            if j < p {
            } else if j == p {
                assert(ins[i] == t[i]);
            } else if i < p {
                assert(ins[j] == t[j - 1]);
                assert(t[j - 1].0 >= k);
            } else if i == p {
                assert(ins[j] == t[j - 1]);
                assert(t[p].0 >= k);
                if j - 1 > p {
                    assert(t[p].0 < t[j - 1].0);
                }
            } else {
                assert(ins[i] == t[i - 1]);
                assert(ins[j] == t[j - 1]);
            }
        }
    } else {
        assert forall|i: int, j: int| 0 <= i < j < ins.len() implies ins[i].0 < ins[j].0 by {
            assert(ins[i].0 == t[i].0);
            assert(ins[j].0 == t[j].0);
        }
    }
    let rem = tbl_remove(t, k);
    if p < t.len() && t[p].0 == k {
        assert forall|i: int, j: int| 0 <= i < j < rem.len() implies rem[i].0 < rem[j].0 by {
            if i < p {
                assert(rem[i] == t[i]);
            } else {
                assert(rem[i] == t[i + 1]);
            }
            if j < p {
                assert(rem[j] == t[j]);
            } else {
                assert(rem[j] == t[j + 1]);
            }
        }
    }
}

// ---------------------------------------------------------------------------
// Sets of node identifiers, kept sorted without repetition
// ---------------------------------------------------------------------------

pub open spec fn ids_view(s: Seq<NodeId>) -> Seq<u64> {
    s.map_values(|x: NodeId| x.0)
}

/// Strictly ascending, so without repetition.
pub open spec fn ids_sorted(s: Seq<u64>) -> bool {
    forall|i: int, j: int| 0 <= i < j < s.len() ==> s[i] < s[j]
}

/// Index of the first element at least `x`.
pub open spec fn id_lower_bound(s: Seq<u64>, x: u64) -> int
    decreases s.len(),
{
    if s.len() == 0 || s[0] >= x {
        0
    } else {
        1 + id_lower_bound(s.drop_first(), x)
    }
}

/// The set with `x` added, keeping the order.
pub open spec fn set_add(s: Seq<u64>, x: u64) -> Seq<u64> {
    let p = id_lower_bound(s, x);
    if p < s.len() && s[p] == x {
        s
    } else {
        s.insert(p, x)
    }
}

/// The set without `x`.
pub open spec fn set_del(s: Seq<u64>, x: u64) -> Seq<u64> {
    let p = id_lower_bound(s, x);
    if p < s.len() && s[p] == x {
        s.remove(p)
    } else {
        s
    }
}

pub proof fn lemma_id_lower_bound(s: Seq<u64>, x: u64)
    ensures
        0 <= id_lower_bound(s, x) <= s.len(),
        forall|i: int| 0 <= i < id_lower_bound(s, x) ==> s[i] < x,
        id_lower_bound(s, x) < s.len() ==> s[id_lower_bound(s, x)] >= x,
    decreases s.len(),
{
    if s.len() > 0 && s[0] < x {
        let d = s.drop_first();
        lemma_id_lower_bound(d, x);
        assert forall|i: int| 0 <= i < id_lower_bound(s, x) implies s[i] < x by {
            if i > 0 {
                assert(s[i] == d[i - 1]);
            }
        }
    }
}

/// Adding keeps a set sorted, and its elements are the old ones and `x`;
/// removing keeps it sorted, and its elements are the old ones but `x`.
pub proof fn lemma_set_ops(s: Seq<u64>, x: u64)
    requires
        ids_sorted(s),
    ensures
        ids_sorted(set_add(s, x)),
        set_add(s, x).to_set() == s.to_set().insert(x),
        ids_sorted(set_del(s, x)),
        set_del(s, x).to_set() == s.to_set().remove(x),
{
    lemma_id_lower_bound(s, x);
    let p = id_lower_bound(s, x);
    let a = set_add(s, x);
    if !(p < s.len() && s[p] == x) {
        assert forall|i: int, j: int| 0 <= i < j < a.len() implies a[i] < a[j] by {
            if j < p {
            } else if j == p {
                assert(a[i] == s[i]);
            } else if i < p {
                assert(a[j] == s[j - 1]);
                assert(s[j - 1] >= x);
            } else if i == p {
                assert(a[j] == s[j - 1]);
                if j - 1 > p {
                    assert(s[p] < s[j - 1]);
                }
            } else {
                assert(a[i] == s[i - 1]);
                assert(a[j] == s[j - 1]);
            }
        }
        assert forall|y: u64| a.to_set().contains(y) <==> s.to_set().insert(x).contains(y) by {
            if a.to_set().contains(y) {
                let i = choose|i: int| 0 <= i < a.len() && a[i] == y;
                if i < p {
                    assert(s[i] == y);
                } else if i > p {
                    assert(s[i - 1] == y);
                }
            }
            if s.to_set().contains(y) {
                let i = choose|i: int| 0 <= i < s.len() && s[i] == y;
                if i < p {
                    assert(a[i] == y);
                } else {
                    assert(a[i + 1] == y);
                }
            }
            if y == x {
                assert(a[p] == x);
            }
        }
        assert(a.to_set() =~= s.to_set().insert(x));
    } else {
        assert(s.to_set().contains(x)) by {
            assert(s[p] == x);
        }
        assert(a.to_set() =~= s.to_set().insert(x));
    }
    let r = set_del(s, x);
    if p < s.len() && s[p] == x {
        assert forall|i: int, j: int| 0 <= i < j < r.len() implies r[i] < r[j] by {
            if i < p {
                assert(r[i] == s[i]);
            } else {
                assert(r[i] == s[i + 1]);
            }
            if j < p {
                assert(r[j] == s[j]);
            } else {
                assert(r[j] == s[j + 1]);
            }
        }
        assert forall|y: u64| r.to_set().contains(y) <==> s.to_set().remove(x).contains(y) by {
            if r.to_set().contains(y) {
                let i = choose|i: int| 0 <= i < r.len() && r[i] == y;
                if i < p {
                    assert(s[i] == y);
                    assert(s[i] < s[p]);
                } else {
                    assert(s[i + 1] == y);
                    assert(s[p] < s[i + 1]);
                }
            }
            if s.to_set().remove(x).contains(y) {
                let i = choose|i: int| 0 <= i < s.len() && s[i] == y;
                if i < p {
                    assert(r[i] == y);
                } else if i > p {
                    assert(r[i - 1] == y);
                }
            }
        }
        assert(r.to_set() =~= s.to_set().remove(x));
    } else {
        assert(!s.to_set().contains(x)) by {
            if s.to_set().contains(x) {
                let i = choose|i: int| 0 <= i < s.len() && s[i] == x;
                if i < p {
                } else if i > p {
                    assert(s[p] < s[i]);
                }
            }
        }
        assert(r.to_set() =~= s.to_set().remove(x));
    }
}

/// The sorted sequence of the elements of a set.
pub open spec fn canon(s: Set<u64>) -> Seq<u64> {
    choose|q: Seq<u64>| ids_sorted(q) && q.to_set() == s
}

/// Two sorted sequences with the same elements are equal.
pub proof fn lemma_sorted_unique(a: Seq<u64>, b: Seq<u64>)
    requires
        ids_sorted(a),
        ids_sorted(b),
        a.to_set() == b.to_set(),
    ensures
        a == b,
    decreases a.len(),
{
    if a.len() == 0 {
        if b.len() > 0 {
            assert(b.to_set().contains(b[0]));
        }
    } else if b.len() == 0 {
        assert(a.to_set().contains(a[0]));
    } else {
        assert(a.to_set().contains(b[0]));
        assert(b.to_set().contains(a[0]));
        let i = choose|i: int| 0 <= i < a.len() && a[i] == b[0];
        let j = choose|j: int| 0 <= j < b.len() && b[j] == a[0];
        if i > 0 {
            assert(a[0] < a[i]);
        }
        if j > 0 {
            assert(b[0] < b[j]);
        }
        assert(a[0] == b[0]);
        let a1 = a.drop_first();
        let b1 = b.drop_first();
        assert forall|x: u64| a1.to_set().contains(x) <==> b1.to_set().contains(x) by {
            if a1.to_set().contains(x) {
                let k = choose|k: int| 0 <= k < a1.len() && a1[k] == x;
                assert(a[k + 1] == x);
                assert(a[0] < a[k + 1]);
                assert(b.to_set().contains(x));
                let m = choose|m: int| 0 <= m < b.len() && b[m] == x;
                assert(m != 0);
                assert(b1[m - 1] == x);
            }
            if b1.to_set().contains(x) {
                let k = choose|k: int| 0 <= k < b1.len() && b1[k] == x;
                assert(b[k + 1] == x);
                assert(b[0] < b[k + 1]);
                assert(a.to_set().contains(x));
                let m = choose|m: int| 0 <= m < a.len() && a[m] == x;
                assert(m != 0);
                assert(a1[m - 1] == x);
            }
        }
        assert(a1.to_set() =~= b1.to_set());
        lemma_sorted_unique(a1, b1);
        assert(a =~= b) by {
            assert forall|k: int| 0 <= k < a.len() implies a[k] == b[k] by {
                if k > 0 {
                    assert(a[k] == a1[k - 1]);
                    assert(b[k] == b1[k - 1]);
                }
            }
        }
    }
}

/// A sorted sequence is the sorted sequence of its elements.
pub proof fn lemma_canon(q: Seq<u64>)
    requires
        ids_sorted(q),
    ensures
        canon(q.to_set()) == q,
{
    let c = canon(q.to_set());
    assert(ids_sorted(q) && q.to_set() == q.to_set());
    lemma_sorted_unique(c, q);
}

fn find_id(s: &Vec<NodeId>, x: NodeId) -> (p: usize)
    ensures
        p == id_lower_bound(ids_view(s@), x.0),
{
    let ghost v = ids_view(s@);
    let mut i: usize = 0;
    assert(v.subrange(0, v.len() as int) == v);
    while i < s.len() && s[i].0 < x.0
        invariant
            i <= s.len(),
            v == ids_view(s@),
            id_lower_bound(v, x.0) == i + id_lower_bound(v.subrange(i as int, v.len() as int), x.0),
        decreases s.len() - i,
    {
        proof {
            let d = v.subrange(i as int, v.len() as int);
            assert(d.drop_first() == v.subrange(i + 1, v.len() as int));
        }
        i += 1;
    }
    proof {
        let d = v.subrange(i as int, v.len() as int);
        assert(d.len() == 0 || d[0] >= x.0);
    }
    i
}

/// Adds `x` to a sorted set; returns whether it was new.
pub fn ids_insert(s: &mut Vec<NodeId>, x: NodeId) -> (added: bool)
    ensures
        ids_view(final(s)@) == set_add(ids_view(old(s)@), x.0),
        added == !ids_view(old(s)@).contains(x.0) || !ids_sorted(ids_view(old(s)@)),
{
    let ghost v = ids_view(s@);
    let p = find_id(s, x);
    proof {
        lemma_id_lower_bound(v, x.0);
    }
    if p < s.len() && s[p].0 == x.0 {
        assert(v[p as int] == x.0);
        false
    } else {
        s.insert(p, x);
        assert(ids_view(s@) =~= v.insert(p as int, x.0));
        proof {
            if ids_sorted(v) && v.contains(x.0) {
                let i = choose|i: int| 0 <= i < v.len() && v[i] == x.0;
                if i < p {
                } else if i > p {
                    assert(v[p as int] < v[i]);
                }
            }
        }
        true
    }
}

/// Removes `x` from a sorted set.
pub fn ids_remove(s: &mut Vec<NodeId>, x: NodeId)
    ensures
        ids_view(final(s)@) == set_del(ids_view(old(s)@), x.0),
{
    let ghost v = ids_view(s@);
    let p = find_id(s, x);
    proof {
        lemma_id_lower_bound(v, x.0);
    }
    if p < s.len() && s[p].0 == x.0 {
        s.remove(p);
        assert(ids_view(s@) =~= v.remove(p as int));
    }
}

/// A copy of a set of identifiers.
pub fn copy_ids(s: &Vec<NodeId>) -> (r: Vec<NodeId>)
    ensures
        r@ == s@,
{
    let mut out: Vec<NodeId> = Vec::new();
    let mut i: usize = 0;
    while i < s.len()
        invariant
            i <= s.len(),
            out@ == s@.take(i as int),
        decreases s.len() - i,
    {
        out.push(s[i]);
        assert(s@.take(i + 1) == s@.take(i as int).push(s@[i as int]));
        i += 1;
    }
    assert(s@.take(s.len() as int) == s@);
    out
}

// ---------------------------------------------------------------------------
// The node table
// ---------------------------------------------------------------------------

/// Nodes by identifier, in ascending order of identifier.
#[derive(Debug)]
pub struct NodeTable {
    pub entries: Vec<(NodeId, NodeKind)>,
}

pub open spec fn node_entries_view(es: Seq<(NodeId, NodeKind)>) -> Seq<(u64, SNode)> {
    es.map_values(|e: (NodeId, NodeKind)| (e.0.0, node_view(e.1)))
}

impl View for NodeTable {
    type V = Seq<(u64, SNode)>;

    open spec fn view(&self) -> Seq<(u64, SNode)> {
        node_entries_view(self.entries@)
    }
}

impl NodeTable {
    pub fn new() -> (t: NodeTable)
        ensures
            t@ == Seq::<(u64, SNode)>::empty(),
    {
        let t = NodeTable { entries: Vec::new() };
        assert(t@ =~= Seq::<(u64, SNode)>::empty());
        t
    }

    pub fn len(&self) -> (n: usize)
        ensures
            n == self@.len(),
    {
        self.entries.len()
    }

    fn find(&self, k: NodeId) -> (p: usize)
        ensures
            p == lower_bound(self@, k.0),
            p <= self.entries@.len(),
    {
        let ghost v = self@;
        let mut i: usize = 0;
        assert(v.subrange(0, v.len() as int) == v);
        while i < self.entries.len() && self.entries[i].0.0 < k.0
            invariant
                i <= self.entries.len(),
                v == self@,
                v.len() == self.entries@.len(),
                lower_bound(v, k.0) == i + lower_bound(v.subrange(i as int, v.len() as int), k.0),
            decreases self.entries.len() - i,
        {
            proof {
                let d = v.subrange(i as int, v.len() as int);
                assert(d.drop_first() == v.subrange(i + 1, v.len() as int));
                assert(d[0] == v[i as int]);
            }
            i += 1;
        }
        proof {
            let d = v.subrange(i as int, v.len() as int);
            if i < v.len() {
                assert(d[0] == v[i as int]);
            }
        }
        i
    }

    /// The node stored under `k`.
    pub fn get(&self, k: NodeId) -> (r: Option<&NodeKind>)
        ensures
            match tbl_get(self@, k.0) {
                Some(n) => r matches Some(x) && x@ == n,
                None => r is None,
            },
    {
        let p = self.find(k);
        if p < self.entries.len() && self.entries[p].0.0 == k.0 {
            Some(&self.entries[p].1)
        } else {
            None
        }
    }

    /// Whether a node is stored under `k`.
    pub fn contains_key(&self, k: NodeId) -> (b: bool)
        ensures
            b == tbl_get(self@, k.0) is Some,
    {
        self.get(k).is_some()
    }

    /// Stores `node` under `k`; returns the node it replaces.
    pub fn insert(&mut self, k: NodeId, node: NodeKind) -> (old_node: Option<NodeKind>)
        ensures
            final(self)@ == tbl_insert(old(self)@, k.0, node@),
            match tbl_get(old(self)@, k.0) {
                Some(n) => old_node matches Some(x) && x@ == n,
                None => old_node is None,
            },
    {
        let ghost v = self@;
        let ghost nv = node@;
        let p = self.find(k);
        if p < self.entries.len() && self.entries[p].0.0 == k.0 {
            let (_, prev) = self.entries.remove(p);
            self.entries.insert(p, (k, node));
            assert(self@ =~= v.update(p as int, (k.0, nv)));
            Some(prev)
        } else {
            self.entries.insert(p, (k, node));
            assert(self@ =~= v.insert(p as int, (k.0, nv)));
            None
        }
    }
}

/// A copy of a node table.
pub fn copy_nodes(t: &NodeTable) -> (r: NodeTable)
    ensures
        r@ == t@,
{
    let mut out: Vec<(NodeId, NodeKind)> = Vec::new();
    let mut i: usize = 0;
    while i < t.entries.len()
        invariant
            i <= t.entries.len(),
            out@.len() == i,
            forall|j: int|
                0 <= j < i ==> #[trigger] out@[j].0 == t.entries@[j].0 && out@[j].1@
                    == t.entries@[j].1@,
        decreases t.entries.len() - i,
    {
        out.push((t.entries[i].0, copy_node(&t.entries[i].1)));
        i += 1;
    }
    let r = NodeTable { entries: out };
    assert(r@ =~= t@);
    r
}

// ---------------------------------------------------------------------------
// Dependency tables: a set of identifiers per identifier
// ---------------------------------------------------------------------------

/// Sets of node identifiers by node identifier, in ascending order of key.
#[derive(Debug)]
pub struct DepTable {
    pub entries: Vec<(NodeId, Vec<NodeId>)>,
}

pub open spec fn dep_entries_view(es: Seq<(NodeId, Vec<NodeId>)>) -> Seq<(u64, Seq<u64>)> {
    es.map_values(|e: (NodeId, Vec<NodeId>)| (e.0.0, ids_view(e.1@)))
}

impl View for DepTable {
    type V = Seq<(u64, Seq<u64>)>;

    open spec fn view(&self) -> Seq<(u64, Seq<u64>)> {
        dep_entries_view(self.entries@)
    }
}

/// The table with `x` added to the set under `k` (an empty set if `k` had none).
pub open spec fn dep_add(t: Seq<(u64, Seq<u64>)>, k: u64, x: u64) -> Seq<(u64, Seq<u64>)> {
    match tbl_get(t, k) {
        Some(s) => tbl_insert(t, k, set_add(s, x)),
        None => tbl_insert(t, k, seq![x]),
    }
}

/// The table with `x` removed from the set under `k`, if `k` has one.
pub open spec fn dep_del(t: Seq<(u64, Seq<u64>)>, k: u64, x: u64) -> Seq<(u64, Seq<u64>)> {
    match tbl_get(t, k) {
        Some(s) => tbl_insert(t, k, set_del(s, x)),
        None => t,
    }
}

impl DepTable {
    pub fn new() -> (t: DepTable)
        ensures
            t@ == Seq::<(u64, Seq<u64>)>::empty(),
    {
        let t = DepTable { entries: Vec::new() };
        assert(t@ =~= Seq::<(u64, Seq<u64>)>::empty());
        t
    }

    fn find(&self, k: NodeId) -> (p: usize)
        ensures
            p == lower_bound(self@, k.0),
            p <= self.entries@.len(),
    {
        let ghost v = self@;
        let mut i: usize = 0;
        assert(v.subrange(0, v.len() as int) == v);
        while i < self.entries.len() && self.entries[i].0.0 < k.0
            invariant
                i <= self.entries.len(),
                v == self@,
                v.len() == self.entries@.len(),
                lower_bound(v, k.0) == i + lower_bound(v.subrange(i as int, v.len() as int), k.0),
            decreases self.entries.len() - i,
        {
            proof {
                let d = v.subrange(i as int, v.len() as int);
                assert(d.drop_first() == v.subrange(i + 1, v.len() as int));
                assert(d[0] == v[i as int]);
            }
            i += 1;
        }
        proof {
            let d = v.subrange(i as int, v.len() as int);
            if i < v.len() {
                assert(d[0] == v[i as int]);
            }
        }
        i
    }

    /// The set stored under `k`.
    pub fn get(&self, k: NodeId) -> (r: Option<&Vec<NodeId>>)
        ensures
            match tbl_get(self@, k.0) {
                Some(s) => r matches Some(x) && ids_view(x@) == s,
                None => r is None,
            },
    {
        let p = self.find(k);
        if p < self.entries.len() && self.entries[p].0.0 == k.0 {
            Some(&self.entries[p].1)
        } else {
            None
        }
    }

    /// Stores the set `s` under `k`, replacing any set there.
    pub fn insert(&mut self, k: NodeId, s: Vec<NodeId>)
        ensures
            final(self)@ == tbl_insert(old(self)@, k.0, ids_view(s@)),
    {
        let ghost v = self@;
        let ghost sv = ids_view(s@);
        let p = self.find(k);
        if p < self.entries.len() && self.entries[p].0.0 == k.0 {
            let _ = self.entries.remove(p);
            self.entries.insert(p, (k, s));
            assert(self@ =~= v.update(p as int, (k.0, sv)));
        } else {
            self.entries.insert(p, (k, s));
            assert(self@ =~= v.insert(p as int, (k.0, sv)));
        }
    }

    /// Removes the set under `k`, returning it.
    pub fn remove(&mut self, k: NodeId) -> (r: Option<Vec<NodeId>>)
        ensures
            final(self)@ == tbl_remove(old(self)@, k.0),
            match tbl_get(old(self)@, k.0) {
                Some(s) => r matches Some(x) && ids_view(x@) == s,
                None => r is None,
            },
    {
        let ghost v = self@;
        let p = self.find(k);
        if p < self.entries.len() && self.entries[p].0.0 == k.0 {
            let (_, s) = self.entries.remove(p);
            assert(self@ =~= v.remove(p as int));
            Some(s)
        } else {
            None
        }
    }

    /// Adds `x` to the set under `k`, creating an empty set there first if needed.
    pub fn add(&mut self, k: NodeId, x: NodeId)
        ensures
            final(self)@ == dep_add(old(self)@, k.0, x.0),
    {
        let ghost v = self@;
        let p = self.find(k);
        if p < self.entries.len() && self.entries[p].0.0 == k.0 {
            let (_, mut s) = self.entries.remove(p);
            let ghost sv = ids_view(s@);
            assert(sv == v[p as int].1);
            ids_insert(&mut s, x);
            let ghost nv = ids_view(s@);
            self.entries.insert(p, (k, s));
            assert(self@ =~= v.update(p as int, (k.0, nv)));
        } else {
            let mut s: Vec<NodeId> = Vec::new();
            s.push(x);
            assert(ids_view(s@) =~= seq![x.0]);
            self.entries.insert(p, (k, s));
            assert(self@ =~= v.insert(p as int, (k.0, seq![x.0])));
        }
    }

    /// Removes `x` from the set under `k`, if `k` has one.
    pub fn del(&mut self, k: NodeId, x: NodeId)
        ensures
            final(self)@ == dep_del(old(self)@, k.0, x.0),
    {
        let ghost v = self@;
        let p = self.find(k);
        if p < self.entries.len() && self.entries[p].0.0 == k.0 {
            let (_, mut s) = self.entries.remove(p);
            assert(ids_view(s@) == v[p as int].1);
            ids_remove(&mut s, x);
            let ghost nv = ids_view(s@);
            self.entries.insert(p, (k, s));
            assert(self@ =~= v.update(p as int, (k.0, nv)));
        }
    }
}

/// A copy of a dependency table.
pub fn copy_deps(t: &DepTable) -> (r: DepTable)
    ensures
        r@ == t@,
{
    let mut out: Vec<(NodeId, Vec<NodeId>)> = Vec::new();
    let mut i: usize = 0;
    while i < t.entries.len()
        invariant
            i <= t.entries.len(),
            out@.len() == i,
            forall|j: int|
                0 <= j < i ==> #[trigger] out@[j].0 == t.entries@[j].0 && out@[j].1@
                    == t.entries@[j].1@,
        decreases t.entries.len() - i,
    {
        out.push((t.entries[i].0, copy_ids(&t.entries[i].1)));
        i += 1;
    }
    let r = DepTable { entries: out };
    assert(r@ =~= t@);
    r
}

// ---------------------------------------------------------------------------
// The name index
// ---------------------------------------------------------------------------

/// Signature identifiers by function name.
#[derive(Debug)]
pub struct NameIndex {
    pub entries: Vec<(String, NodeId)>,
}

pub open spec fn name_entries_view(es: Seq<(String, NodeId)>) -> Seq<(Seq<char>, u64)> {
    es.map_values(|e: (String, NodeId)| (e.0@, e.1.0))
}

impl View for NameIndex {
    type V = Seq<(Seq<char>, u64)>;

    open spec fn view(&self) -> Seq<(Seq<char>, u64)> {
        name_entries_view(self.entries@)
    }
}

/// Index of the first entry for `k`, or -1.
pub open spec fn name_pos(t: Seq<(Seq<char>, u64)>, k: Seq<char>) -> int
    decreases t.len(),
{
    if t.len() == 0 {
        -1
    } else {
        let j = name_pos(t.drop_last(), k);
        if j >= 0 {
            j
        } else if t[t.len() - 1].0 == k {
            t.len() - 1
        } else {
            -1
        }
    }
}

/// The identifier indexed under `k`.
pub open spec fn name_get(t: Seq<(Seq<char>, u64)>, k: Seq<char>) -> Option<u64> {
    let i = name_pos(t, k);
    if i >= 0 {
        Some(t[i].1)
    } else {
        None
    }
}

/// The index with `k` mapped to `id`, replacing an earlier entry for `k` in place.
pub open spec fn name_put(t: Seq<(Seq<char>, u64)>, k: Seq<char>, id: u64) -> Seq<(Seq<char>, u64)> {
    let i = name_pos(t, k);
    if i >= 0 {
        t.update(i, (k, id))
    } else {
        t.push((k, id))
    }
}

/// The index without its entry for `k`.
pub open spec fn name_del(t: Seq<(Seq<char>, u64)>, k: Seq<char>) -> Seq<(Seq<char>, u64)> {
    let i = name_pos(t, k);
    if i >= 0 {
        t.remove(i)
    } else {
        t
    }
}

pub proof fn lemma_name_pos(t: Seq<(Seq<char>, u64)>, k: Seq<char>)
    ensures
        -1 <= name_pos(t, k) < t.len(),
        name_pos(t, k) >= 0 ==> t[name_pos(t, k)].0 == k,
        forall|j: int|
            0 <= j < t.len() && (name_pos(t, k) < 0 || j < name_pos(t, k)) ==> t[j].0 != k,
    decreases t.len(),
{
    if t.len() > 0 {
        let d = t.drop_last();
        lemma_name_pos(d, k);
        assert forall|j: int| 0 <= j < d.len() implies #[trigger] d[j] == t[j] by {}
        let r = name_pos(t, k);
        assert forall|j: int| 0 <= j < t.len() && (r < 0 || j < r) implies t[j].0 != k by {
            if j < d.len() {
                assert(d[j] == t[j]);
            }
        }
    }
}

impl NameIndex {
    pub fn new() -> (t: NameIndex)
        ensures
            t@ == Seq::<(Seq<char>, u64)>::empty(),
    {
        let t = NameIndex { entries: Vec::new() };
        assert(t@ =~= Seq::<(Seq<char>, u64)>::empty());
        t
    }

    fn find(&self, k: &String) -> (r: Option<usize>)
        ensures
            match r {
                Some(i) => i == name_pos(self@, k@) && i < self.entries@.len(),
                None => name_pos(self@, k@) < 0,
            },
    {
        proof {
            lemma_name_pos(self@, k@);
        }
        let mut i: usize = 0;
        while i < self.entries.len()
            invariant
                i <= self.entries.len(),
                self@.len() == self.entries.len(),
                forall|j: int| 0 <= j < i ==> self@[j].0 != k@,
                -1 <= name_pos(self@, k@) < self@.len(),
                name_pos(self@, k@) >= 0 ==> self@[name_pos(self@, k@)].0 == k@,
                forall|j: int|
                    0 <= j < self@.len() && (name_pos(self@, k@) < 0 || j < name_pos(self@, k@))
                        ==> self@[j].0 != k@,
            decreases self.entries.len() - i,
        {
            if self.entries[i].0 == *k {
                assert(self@[i as int].0 == k@);
                return Some(i);
            }
            assert(self@[i as int].0 == self.entries@[i as int].0@);
            i += 1;
        }
        None
    }

    /// The identifier indexed under `k`.
    pub fn get(&self, k: &String) -> (r: Option<NodeId>)
        ensures
            match name_get(self@, k@) {
                Some(id) => r == Some(NodeId(id)),
                None => r is None,
            },
    {
        match self.find(k) {
            Some(i) => Some(self.entries[i].1),
            None => None,
        }
    }

    /// Indexes `id` under `k`, replacing an earlier entry for `k`.
    pub fn insert(&mut self, k: String, id: NodeId)
        ensures
            final(self)@ == name_put(old(self)@, k@, id.0),
    {
        let ghost v = self@;
        let ghost kv = k@;
        match self.find(&k) {
            Some(i) => {
                self.entries.set(i, (k, id));
                assert(self@ =~= v.update(i as int, (kv, id.0)));
            },
            None => {
                self.entries.push((k, id));
                assert(self@ =~= v.push((kv, id.0)));
            },
        }
    }

    /// Removes the entry for `k`.
    pub fn remove(&mut self, k: &String)
        ensures
            final(self)@ == name_del(old(self)@, k@),
    {
        let ghost v = self@;
        match self.find(k) {
            Some(i) => {
                let _ = self.entries.remove(i);
                assert(self@ =~= v.remove(i as int));
            },
            None => {},
        }
    }
}

/// A copy of a name index.
pub fn copy_names(t: &NameIndex) -> (r: NameIndex)
    ensures
        r@ == t@,
{
    let mut out: Vec<(String, NodeId)> = Vec::new();
    let mut i: usize = 0;
    while i < t.entries.len()
        invariant
            i <= t.entries.len(),
            out@.len() == i,
            forall|j: int|
                0 <= j < i ==> #[trigger] out@[j].0@ == t.entries@[j].0@ && out@[j].1
                    == t.entries@[j].1,
        decreases t.entries.len() - i,
    {
        out.push((t.entries[i].0.clone(), t.entries[i].1));
        i += 1;
    }
    let r = NameIndex { entries: out };
    assert(r@ =~= t@);
    r
}

} // verus!
