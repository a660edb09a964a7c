use vstd::prelude::*;
use crate::graph::deps::{add_dependent, drop_dependent, forward_s, reverse_s};
use crate::graph::store::{SGraph, rebuild_s, redeps, redeps_one};
use crate::graph::table::{
    dep_add, dep_del, ids_sorted, keys_sorted, lemma_lower_bound, lemma_set_ops,
    lemma_tbl_get_sorted, lemma_tbl_sorted, lower_bound, set_add, set_del, tbl_get, tbl_insert,
    tbl_remove,
};

verus! {

// ---------------------------------------------------------------------------
// The reverse dependency table is the transpose of the forward one
// ---------------------------------------------------------------------------

/// Whether `b` is listed under `a` in `t`.
pub open spec fn edge_in(t: Seq<(u64, Seq<u64>)>, a: u64, b: u64) -> bool {
    tbl_get(t, a) matches Some(s) && s.contains(b)
}

/// Whether `rev` lists under each node exactly the nodes that list it in `fwd`.
pub open spec fn transposed(fwd: Seq<(u64, Seq<u64>)>, rev: Seq<(u64, Seq<u64>)>) -> bool {
    forall|a: u64, b: u64|
        #![trigger edge_in(rev, a, b)]
        #![trigger edge_in(fwd, b, a)]
        edge_in(rev, a, b) <==> edge_in(fwd, b, a)
}

/// A dependency table with ascending keys, each listing an ascending set.
pub open spec fn dep_wf(t: Seq<(u64, Seq<u64>)>) -> bool {
    &&& keys_sorted(t)
    &&& forall|a: u64| (#[trigger] tbl_get(t, a)) is Some ==> ids_sorted(tbl_get(t, a)->Some_0)
}

pub proof fn lemma_get_insert<V>(t: Seq<(u64, V)>, k: u64, v: V, j: u64)
    requires
        keys_sorted(t),
    ensures
        tbl_get(tbl_insert(t, k, v), j) == (if j == k {
            Some(v)
        } else {
            tbl_get(t, j)
        }),
{
    lemma_lower_bound(t, k);
    lemma_tbl_sorted(t, k, v);
    let p = lower_bound(t, k);
    let ins = tbl_insert(t, k, v);
    let found = p < t.len() && t[p].0 == k;
    if j == k {
        assert(ins[p] == (k, v));
        lemma_tbl_get_sorted(ins, k, p);
    } else {
        lemma_lower_bound(t, j);
        match tbl_get(t, j) {
            Some(x) => {
                let q = lower_bound(t, j);
                assert(t[q] == (j, x));
                if found {
                    assert(ins[q] == t[q]);
                    lemma_tbl_get_sorted(ins, j, q);
                } else if q < p {
                    assert(ins[q] == t[q]);
                    lemma_tbl_get_sorted(ins, j, q);
                } else {
                    assert(ins[q + 1] == t[q]);
                    lemma_tbl_get_sorted(ins, j, q + 1);
                }
            },
            None => {
                lemma_lower_bound(ins, j);
                if tbl_get(ins, j) is Some {
                    let q = lower_bound(ins, j);
                    assert(ins[q].0 == j);
                    if found {
                        assert(ins[q] == t[q]);
                        lemma_tbl_get_sorted(t, j, q);
                    } else if q < p {
                        assert(ins[q] == t[q]);
                        lemma_tbl_get_sorted(t, j, q);
                    } else {
                        assert(q != p);
                        assert(ins[q] == t[q - 1]);
                        lemma_tbl_get_sorted(t, j, q - 1);
                    }
                }
            },
        }
    }
}

proof fn lemma_get_remove(t: Seq<(u64, Seq<u64>)>, k: u64, j: u64)
    requires
        keys_sorted(t),
    ensures
        tbl_get(tbl_remove(t, k), j) == (if j == k {
            None
        } else {
            tbl_get(t, j)
        }),
{
    lemma_lower_bound(t, k);
    lemma_tbl_sorted(t, k, Seq::<u64>::empty());
    let p = lower_bound(t, k);
    let rem = tbl_remove(t, k);
    if p < t.len() && t[p].0 == k {
        lemma_lower_bound(rem, j);
        lemma_lower_bound(t, j);
        if tbl_get(rem, j) is Some {
            let q = lower_bound(rem, j);
            if q < p {
                assert(rem[q] == t[q]);
                lemma_tbl_get_sorted(t, j, q);
            } else {
                assert(rem[q] == t[q + 1]);
                assert(t[q + 1].0 > t[p].0);
                lemma_tbl_get_sorted(t, j, q + 1);
            }
        }
        if j != k {
            if let Some(x) = tbl_get(t, j) {
                let q = lower_bound(t, j);
                assert(t[q] == (j, x));
                if q < p {
                    assert(rem[q] == t[q]);
                    lemma_tbl_get_sorted(rem, j, q);
                } else {
                    assert(q != p);
                    assert(rem[q - 1] == t[q]);
                    lemma_tbl_get_sorted(rem, j, q - 1);
                }
            }
        }
    } else {
        if j == k {
            lemma_lower_bound(t, j);
        }
    }
}

proof fn lemma_dep_add(t: Seq<(u64, Seq<u64>)>, k: u64, x: u64)
    requires
        dep_wf(t),
    ensures
        dep_wf(dep_add(t, k, x)),
        forall|a: u64, b: u64|
            #[trigger] edge_in(dep_add(t, k, x), a, b) <==> (edge_in(t, a, b) || (a == k && b
                == x)),
{
    let s = match tbl_get(t, k) {
        Some(s) => set_add(s, x),
        None => seq![x],
    };
    let n = dep_add(t, k, x);
    assert(n == tbl_insert(t, k, s));
    lemma_tbl_sorted(t, k, s);
    if let Some(old) = tbl_get(t, k) {
        lemma_set_ops(old, x);
        assert(s.to_set() == old.to_set().insert(x));
    } else {
        assert(seq![x][0] == x);
    }
    assert forall|a: u64| (#[trigger] tbl_get(n, a)) is Some implies ids_sorted(
        tbl_get(n, a)->Some_0,
    ) by {
        lemma_get_insert(t, k, s, a);
    }
    assert forall|a: u64, b: u64|
        #[trigger] edge_in(n, a, b) <==> (edge_in(t, a, b) || (a == k && b == x)) by {
        lemma_get_insert(t, k, s, a);
        if a == k {
            if let Some(old) = tbl_get(t, k) {
                assert(s.to_set().contains(b) <==> old.to_set().insert(x).contains(b));
            } else {
                assert(s.contains(b) <==> b == x);
            }
        }
    }
}

proof fn lemma_dep_del(t: Seq<(u64, Seq<u64>)>, k: u64, x: u64)
    requires
        dep_wf(t),
    ensures
        dep_wf(dep_del(t, k, x)),
        forall|a: u64, b: u64|
            #[trigger] edge_in(dep_del(t, k, x), a, b) <==> (edge_in(t, a, b) && !(a == k && b
                == x)),
{
    let n = dep_del(t, k, x);
    if let Some(old) = tbl_get(t, k) {
        let s = set_del(old, x);
        lemma_set_ops(old, x);
        lemma_tbl_sorted(t, k, s);
        assert forall|a: u64| (#[trigger] tbl_get(n, a)) is Some implies ids_sorted(
            tbl_get(n, a)->Some_0,
        ) by {
            lemma_get_insert(t, k, s, a);
        }
        assert forall|a: u64, b: u64|
            #[trigger] edge_in(n, a, b) <==> (edge_in(t, a, b) && !(a == k && b == x)) by {
            lemma_get_insert(t, k, s, a);
            if a == k {
                assert(s.to_set().contains(b) <==> old.to_set().remove(x).contains(b));
            }
        }
    }
}

proof fn lemma_contains_last(ds: Seq<u64>, a: u64)
    requires
        ds.len() > 0,
    ensures
        ds.contains(a) <==> (ds.drop_last().contains(a) || ds[ds.len() - 1] == a),
{
    if ds.contains(a) {
        let i = choose|i: int| 0 <= i < ds.len() && ds[i] == a;
        if i < ds.len() - 1 {
            assert(ds.drop_last()[i] == a);
        }
    }
    if ds.drop_last().contains(a) {
        let i = choose|i: int| 0 <= i < ds.drop_last().len() && ds.drop_last()[i] == a;
        assert(ds[i] == a);
    }
    if ds[ds.len() - 1] == a {
        assert(ds.contains(a));
    }
}

proof fn lemma_add_dependent(rev: Seq<(u64, Seq<u64>)>, n: u64, ds: Seq<u64>)
    requires
        dep_wf(rev),
    ensures
        dep_wf(add_dependent(rev, n, ds)),
        forall|a: u64, b: u64|
            #[trigger] edge_in(add_dependent(rev, n, ds), a, b) <==> (edge_in(rev, a, b) || (b
                == n && ds.contains(a))),
    decreases ds.len(),
{
    if ds.len() > 0 {
        let prev = add_dependent(rev, n, ds.drop_last());
        lemma_add_dependent(rev, n, ds.drop_last());
        lemma_dep_add(prev, ds[ds.len() - 1], n);
        assert forall|a: u64, b: u64|
            #[trigger] edge_in(add_dependent(rev, n, ds), a, b) <==> (edge_in(rev, a, b) || (b
                == n && ds.contains(a))) by {
            lemma_contains_last(ds, a);
            assert(edge_in(prev, a, b) <==> (edge_in(rev, a, b) || (b == n
                && ds.drop_last().contains(a))));
        }
    }
}

proof fn lemma_drop_dependent(rev: Seq<(u64, Seq<u64>)>, n: u64, ds: Seq<u64>)
    requires
        dep_wf(rev),
    ensures
        dep_wf(drop_dependent(rev, n, ds)),
        forall|a: u64, b: u64|
            #[trigger] edge_in(drop_dependent(rev, n, ds), a, b) <==> (edge_in(rev, a, b) && !(b
                == n && ds.contains(a))),
    decreases ds.len(),
{
    if ds.len() > 0 {
        let prev = drop_dependent(rev, n, ds.drop_last());
        lemma_drop_dependent(rev, n, ds.drop_last());
        lemma_dep_del(prev, ds[ds.len() - 1], n);
        assert forall|a: u64, b: u64|
            #[trigger] edge_in(drop_dependent(rev, n, ds), a, b) <==> (edge_in(rev, a, b) && !(b
                == n && ds.contains(a))) by {
            lemma_contains_last(ds, a);
            assert(edge_in(prev, a, b) <==> (edge_in(rev, a, b) && !(b == n
                && ds.drop_last().contains(a))));
        }
    }
}

proof fn lemma_redeps_one(g: SGraph, nid: u64)
    requires
        keys_sorted(g.fwd),
        dep_wf(g.rev),
        transposed(g.fwd, g.rev),
    ensures
        keys_sorted(redeps_one(g, nid).fwd),
        dep_wf(redeps_one(g, nid).rev),
        transposed(redeps_one(g, nid).fwd, redeps_one(g, nid).rev),
{
    let fwd1 = match tbl_get(g.fwd, nid) {
        Some(_) => tbl_remove(g.fwd, nid),
        None => g.fwd,
    };
    let rev1 = match tbl_get(g.fwd, nid) {
        Some(old) => drop_dependent(g.rev, nid, old),
        None => g.rev,
    };
    lemma_tbl_sorted(g.fwd, nid, Seq::<u64>::empty());
    assert(keys_sorted(fwd1));
    if let Some(old) = tbl_get(g.fwd, nid) {
        lemma_drop_dependent(g.rev, nid, old);
    }
    assert(dep_wf(rev1));
    assert(tbl_get(fwd1, nid) is None) by {
        if tbl_get(g.fwd, nid) is Some {
            lemma_get_remove(g.fwd, nid, nid);
        }
    }
    assert forall|a: u64, b: u64|
        #![trigger edge_in(rev1, a, b)]
        #![trigger edge_in(fwd1, b, a)]
        edge_in(rev1, a, b) <==> edge_in(fwd1, b, a) by {
        if let Some(old) = tbl_get(g.fwd, nid) {
            lemma_get_remove(g.fwd, nid, b);
            assert(edge_in(g.rev, a, b) <==> edge_in(g.fwd, b, a));
        } else {
            assert(edge_in(g.rev, a, b) <==> edge_in(g.fwd, b, a));
        }
    }
    if let Some(node) = tbl_get(g.nodes, nid) {
        let r = redeps_one(g, nid);
        let deps = crate::graph::table::canon(crate::graph::deps::deps_s(node, g.names));
        assert(r.fwd == tbl_insert(fwd1, nid, deps));
        assert(r.rev == add_dependent(rev1, nid, deps));
        lemma_tbl_sorted(fwd1, nid, deps);
        lemma_add_dependent(rev1, nid, deps);
        assert forall|a: u64, b: u64|
            #![trigger edge_in(r.rev, a, b)]
            #![trigger edge_in(r.fwd, b, a)]
            edge_in(r.rev, a, b) <==> edge_in(r.fwd, b, a) by {
            lemma_get_insert(fwd1, nid, deps, b);
            assert(edge_in(rev1, a, b) <==> edge_in(fwd1, b, a));
        }
    }
}

/// Recomputing the dependency edges of some nodes keeps the reverse table
/// the transpose of the forward one.
pub proof fn law_redeps_keeps_transpose(g: SGraph, ids: Seq<u64>)
    requires
        keys_sorted(g.fwd),
        dep_wf(g.rev),
        transposed(g.fwd, g.rev),
    ensures
        keys_sorted(redeps(g, ids).fwd),
        dep_wf(redeps(g, ids).rev),
        transposed(redeps(g, ids).fwd, redeps(g, ids).rev),
    decreases ids.len(),
{
    if ids.len() > 0 {
        law_redeps_keeps_transpose(g, ids.drop_last());
        lemma_redeps_one(redeps(g, ids.drop_last()), ids[ids.len() - 1]);
    }
}

/// Whether some entry of `fwd` lists `a` under `b`.
pub open spec fn listed(fwd: Seq<(u64, Seq<u64>)>, b: u64, a: u64) -> bool {
    exists|i: int| 0 <= i < fwd.len() && fwd[i].0 == b && (#[trigger] fwd[i].1).contains(a)
}

proof fn lemma_reverse(fwd: Seq<(u64, Seq<u64>)>)
    ensures
        dep_wf(reverse_s(fwd)),
        forall|a: u64, b: u64|
            #[trigger] edge_in(reverse_s(fwd), a, b) <==> listed(fwd, b, a),
    decreases fwd.len(),
{
    if fwd.len() == 0 {
        assert forall|a: u64, b: u64| #[trigger]
            edge_in(reverse_s(fwd), a, b) <==> listed(fwd, b, a) by {
            lemma_lower_bound(reverse_s(fwd), a);
        }
        assert forall|a: u64| (#[trigger] tbl_get(reverse_s(fwd), a)) is Some implies ids_sorted(
            tbl_get(reverse_s(fwd), a)->Some_0,
        ) by {
            lemma_lower_bound(reverse_s(fwd), a);
        }
    } else {
        let d = fwd.drop_last();
        let last = fwd[fwd.len() - 1];
        lemma_reverse(d);
        lemma_add_dependent(reverse_s(d), last.0, last.1);
        assert forall|a: u64, b: u64| #[trigger]
            edge_in(reverse_s(fwd), a, b) <==> listed(fwd, b, a) by {
            assert(edge_in(reverse_s(d), a, b) <==> listed(d, b, a));
            if listed(d, b, a) {
                let i = choose|i: int| 0 <= i < d.len() && d[i].0 == b && (#[trigger] d[i].1).contains(a);
                assert(fwd[i] == d[i]);
            }
            if listed(fwd, b, a) {
                let i = choose|i: int| 0 <= i < fwd.len() && fwd[i].0 == b && (#[trigger] fwd[i].1).contains(a);
                if i < fwd.len() - 1 {
                    assert(d[i] == fwd[i]);
                }
            }
        }
    }
}

/// Rebuilding all dependency edges makes the reverse table the transpose of
/// the forward one.
pub proof fn law_rebuild_transposes(g: SGraph)
    requires
        keys_sorted(g.nodes),
    ensures
        keys_sorted(rebuild_s(g).fwd),
        dep_wf(rebuild_s(g).rev),
        transposed(rebuild_s(g).fwd, rebuild_s(g).rev),
{
    let fwd = forward_s(g.nodes, g.names);
    assert(keys_sorted(fwd)) by {
        assert forall|i: int, j: int| 0 <= i < j < fwd.len() implies fwd[i].0 < fwd[j].0 by {
            assert(fwd[i].0 == g.nodes[i].0);
            assert(fwd[j].0 == g.nodes[j].0);
        }
    }
    lemma_reverse(fwd);
    assert forall|a: u64, b: u64|
        #![trigger edge_in(reverse_s(fwd), a, b)]
        #![trigger edge_in(fwd, b, a)]
        edge_in(reverse_s(fwd), a, b) <==> edge_in(fwd, b, a) by {
        lemma_lower_bound(fwd, b);
        if listed(fwd, b, a) {
            let i = choose|i: int| 0 <= i < fwd.len() && fwd[i].0 == b && (#[trigger] fwd[i].1).contains(a);
            lemma_tbl_get_sorted(fwd, b, i);
        }
        if edge_in(fwd, b, a) {
            let q = lower_bound(fwd, b);
            assert(fwd[q].0 == b && fwd[q].1.contains(a));
        }
    }
}

} // verus!
