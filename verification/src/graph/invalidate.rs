use vstd::prelude::*;
use crate::graph::ids::NodeId;
use crate::graph::table::{
    DepTable, copy_ids, ids_insert, ids_sorted, ids_view, lemma_set_ops, tbl_get,
    lower_bound, lemma_lower_bound,
};

verus! {

broadcast use vstd::std_specs::vec::group_vec_axioms;

/// `b` depends on `a`: the reverse table lists `b` under `a`.
pub open spec fn rev_edge(rev: Seq<(u64, Seq<u64>)>, a: u64, b: u64) -> bool {
    tbl_get(rev, a) matches Some(s) && s.contains(b)
}

/// A walk along reverse edges.
pub open spec fn is_path(rev: Seq<(u64, Seq<u64>)>, p: Seq<u64>) -> bool {
    p.len() > 0 && forall|i: int| 0 <= i < p.len() - 1 ==> #[trigger] rev_edge(rev, p[i], p[i + 1])
}

/// `y` is one of `changed` or depends on one of them, directly or transitively.
pub open spec fn reaches(rev: Seq<(u64, Seq<u64>)>, changed: Set<u64>, y: u64) -> bool {
    exists|p: Seq<u64>| #[trigger] is_path(rev, p) && changed.contains(p[0]) && p[p.len() - 1] == y
}

/// The invalidation closure: the changed nodes and all their transitive dependents.
pub open spec fn closure_s(rev: Seq<(u64, Seq<u64>)>, changed: Set<u64>) -> Set<u64> {
    Set::new(|y: u64| reaches(rev, changed, y))
}

/// Every identifier stored in any set of the table, in order.
pub open spec fn all_targets(t: Seq<(u64, Seq<u64>)>) -> Seq<u64>
    decreases t.len(),
{
    if t.len() == 0 {
        Seq::empty()
    } else {
        all_targets(t.drop_last()) + t[t.len() - 1].1
    }
}

proof fn lemma_all_targets(t: Seq<(u64, Seq<u64>)>, i: int, x: u64)
    requires
        0 <= i < t.len(),
        t[i].1.contains(x),
    ensures
        all_targets(t).contains(x),
    decreases t.len(),
{
    let d = t.drop_last();
    if i < t.len() - 1 {
        assert(d[i] == t[i]);
        lemma_all_targets(d, i, x);
        let k = choose|k: int| 0 <= k < all_targets(d).len() && all_targets(d)[k] == x;
        assert(all_targets(t)[k] == x);
    } else {
        let k = choose|k: int| 0 <= k < t[i].1.len() && t[i].1[k] == x;
        assert(all_targets(t)[all_targets(d).len() + k] == x);
    }
}

proof fn lemma_edge_target(rev: Seq<(u64, Seq<u64>)>, a: u64, b: u64)
    requires
        rev_edge(rev, a, b),
    ensures
        all_targets(rev).contains(b),
{
    lemma_lower_bound(rev, a);
    let p = lower_bound(rev, a);
    lemma_all_targets(rev, p, b);
}

proof fn lemma_closed_contains(rev: Seq<(u64, Seq<u64>)>, s: Set<u64>, changed: Set<u64>, p: Seq<u64>)
    requires
        forall|a: u64, b: u64| s.contains(a) && rev_edge(rev, a, b) ==> s.contains(b),
        changed.subset_of(s),
        is_path(rev, p),
        changed.contains(p[0]),
    ensures
        s.contains(p[p.len() - 1]),
    decreases p.len(),
{
    if p.len() > 1 {
        let q = p.drop_last();
        assert forall|i: int| 0 <= i < q.len() - 1 implies #[trigger] rev_edge(rev, q[i], q[i + 1]) by {
            assert(rev_edge(rev, p[i], p[i + 1]));
        }
        lemma_closed_contains(rev, s, changed, q);
        let i = p.len() - 2;
        assert(rev_edge(rev, p[i], p[i + 1]));
    }
}

proof fn lemma_reaches_step(rev: Seq<(u64, Seq<u64>)>, changed: Set<u64>, a: u64, b: u64)
    requires
        reaches(rev, changed, a),
        rev_edge(rev, a, b),
    ensures
        reaches(rev, changed, b),
{
    let p = choose|p: Seq<u64>| #[trigger] is_path(rev, p) && changed.contains(p[0]) && p[p.len() - 1] == a;
    let q = p.push(b);
    assert forall|i: int| 0 <= i < q.len() - 1 implies #[trigger] rev_edge(rev, q[i], q[i + 1]) by {
        if i < p.len() - 1 {
            assert(rev_edge(rev, p[i], p[i + 1]));
        }
    }
    assert(is_path(rev, q));
}

proof fn lemma_reaches_start(rev: Seq<(u64, Seq<u64>)>, changed: Set<u64>, a: u64)
    requires
        changed.contains(a),
    ensures
        reaches(rev, changed, a),
{
    let p = seq![a];
    assert(is_path(rev, p));
}

proof fn lemma_sorted_no_dup(s: Seq<u64>)
    requires
        ids_sorted(s),
    ensures
        s.no_duplicates(),
{
    assert forall|i: int, j: int| 0 <= i < s.len() && 0 <= j < s.len() && i != j implies s[i]
        != s[j] by {
        if i < j {
            assert(s[i] < s[j]);
        } else {
            assert(s[j] < s[i]);
        }
    }
}

proof fn lemma_queue_bound(q: Seq<u64>, u: Seq<u64>)
    requires
        q.no_duplicates(),
        forall|x: u64| q.contains(x) ==> u.contains(x),
    ensures
        q.len() <= u.len(),
{
    q.unique_seq_to_set();
    u.lemma_cardinality_of_set();
    assert(q.to_set().subset_of(u.to_set()));
    vstd::set_lib::lemma_len_subset(q.to_set(), u.to_set());
}

/// Computes the transitive closure of nodes that need invalidation when the
/// nodes `changed` are modified: `changed` and every node that depends on one
/// of them, directly or transitively, along `reverse_deps`. The result is a
/// set, in ascending order.
pub fn invalidation_closure(changed: &Vec<NodeId>, reverse_deps: &DepTable) -> (r: Vec<NodeId>)
    ensures
        ids_sorted(ids_view(r@)),
        ids_view(r@).to_set() == closure_s(reverse_deps@, ids_view(changed@).to_set()),
{
    let ghost rev = reverse_deps@;
    let ghost c = ids_view(changed@).to_set();
    let ghost u = ids_view(changed@) + all_targets(rev);
    let mut inv: Vec<NodeId> = Vec::new();
    let mut k: usize = 0;
    assert(ids_view(inv@).to_set() =~= Set::<u64>::empty());
    while k < changed.len()
        invariant
            k <= changed.len(),
            c == ids_view(changed@).to_set(),
            u == ids_view(changed@) + all_targets(rev),
            rev == reverse_deps@,
            ids_sorted(ids_view(inv@)),
            ids_view(inv@).to_set() == ids_view(changed@).take(k as int).to_set(),
        decreases changed.len() - k,
    {
        let ghost before = ids_view(inv@);
        ids_insert(&mut inv, changed[k]);
        proof {
            lemma_set_ops(before, changed@[k as int].0);
            let t1 = ids_view(changed@).take(k + 1);
            let t0 = ids_view(changed@).take(k as int);
            assert(t1 == t0.push(changed@[k as int].0));
            assert(t1.to_set() =~= t0.to_set().insert(changed@[k as int].0)) by {
                assert forall|x: u64| t1.to_set().contains(x) <==> t0.to_set().insert(
                    changed@[k as int].0,
                ).contains(x) by {
                    if t1.to_set().contains(x) {
                        let m = choose|m: int| 0 <= m < t1.len() && t1[m] == x;
                        if m < k {
                            assert(t0[m] == x);
                        }
                    }
                    if t0.to_set().contains(x) {
                        let m = choose|m: int| 0 <= m < t0.len() && t0[m] == x;
                        assert(t1[m] == x);
                    }
                    if x == changed@[k as int].0 {
                        assert(t1[k as int] == x);
                    }
                }
            }
        }
        k += 1;
    }
    assert(ids_view(changed@).take(k as int) == ids_view(changed@));
    let mut queue = copy_ids(&inv);
    proof {
        lemma_sorted_no_dup(ids_view(inv@));
        assert forall|x: u64| ids_view(inv@).to_set().contains(x) implies reaches(rev, c, x) by {
            lemma_reaches_start(rev, c, x);
        }
        assert forall|x: u64| ids_view(queue@).contains(x) implies u.contains(x) by {
            assert(ids_view(queue@).to_set().contains(x));
            let m = choose|m: int| 0 <= m < ids_view(changed@).len() && ids_view(changed@)[m] == x;
            assert(u[m] == x);
        }
    }
    let mut head: usize = 0;
    while head < queue.len()
        invariant
            head <= queue.len(),
            rev == reverse_deps@,
            u == ids_view(changed@) + all_targets(rev),
            c == ids_view(changed@).to_set(),
            ids_sorted(ids_view(inv@)),
            ids_view(queue@).no_duplicates(),
            ids_view(queue@).to_set() == ids_view(inv@).to_set(),
            forall|x: u64| ids_view(queue@).contains(x) ==> u.contains(x),
            c.subset_of(ids_view(inv@).to_set()),
            forall|x: u64| ids_view(inv@).to_set().contains(x) ==> reaches(rev, c, x),
            forall|i: int, b: u64|
                0 <= i < head && rev_edge(rev, ids_view(queue@)[i], b) ==> ids_view(
                    inv@,
                ).to_set().contains(b),
        decreases u.len() - head,
    {
        proof {
            lemma_queue_bound(ids_view(queue@), u);
        }
        let nid = queue[head];
        let ghost q0 = ids_view(queue@);
        assert(q0[head as int] == nid.0);
        assert(ids_view(inv@).to_set().contains(nid.0)) by {
            assert(q0.to_set().contains(nid.0));
        }
        match reverse_deps.get(nid) {
            Some(deps) => {
                let ghost dv = ids_view(deps@);
                let mut j: usize = 0;
                while j < deps.len()
                    invariant
                        j <= deps.len(),
                        dv == ids_view(deps@),
                        tbl_get(rev, nid.0) == Some(dv),
                        head < q0.len(),
                        q0[head as int] == nid.0,
                        rev == reverse_deps@,
                        u == ids_view(changed@) + all_targets(rev),
                        c == ids_view(changed@).to_set(),
                        ids_view(queue@).len() >= q0.len(),
                        ids_view(queue@).take(q0.len() as int) == q0,
                        ids_sorted(ids_view(inv@)),
                        ids_view(queue@).no_duplicates(),
                        ids_view(queue@).to_set() == ids_view(inv@).to_set(),
                        forall|x: u64| ids_view(queue@).contains(x) ==> u.contains(x),
                        c.subset_of(ids_view(inv@).to_set()),
                        forall|x: u64| ids_view(inv@).to_set().contains(x) ==> reaches(rev, c, x),
                        forall|i: int, b: u64|
                            0 <= i < head && rev_edge(rev, q0[i], b) ==> ids_view(
                                inv@,
                            ).to_set().contains(b),
                        forall|m: int| 0 <= m < j ==> ids_view(inv@).to_set().contains(#[trigger] dv[m]),
                    decreases deps.len() - j,
                {
                    let d = deps[j];
                    let ghost iv0 = ids_view(inv@);
                    let ghost qv0 = ids_view(queue@);
                    let added = ids_insert(&mut inv, d);
                    proof {
                        lemma_set_ops(iv0, d.0);
                        assert(dv[j as int] == d.0);
                        assert(rev_edge(rev, nid.0, d.0));
                        lemma_reaches_step(rev, c, nid.0, d.0);
                    }
                    if added {
                        queue.push(d);
                        proof {
                            let qv1 = ids_view(queue@);
                            assert(qv1 == qv0.push(d.0));
                            assert(!qv0.contains(d.0)) by {
                                if qv0.contains(d.0) {
                                    assert(qv0.to_set().contains(d.0));
                                }
                            }
                            assert(qv1.no_duplicates()) by {
                                assert forall|a: int, b: int|
                                    0 <= a < qv1.len() && 0 <= b < qv1.len() && a != b implies qv1[a]
                                    != qv1[b] by {
                                    if a < qv0.len() && b < qv0.len() {
                                    } else if a < qv0.len() {
                                        assert(qv0.contains(qv1[a]));
                                    } else if b < qv0.len() {
                                        assert(qv0.contains(qv1[b]));
                                    }
                                }
                            }
                            assert(qv1.to_set() =~= qv0.to_set().insert(d.0)) by {
                                assert forall|x: u64| qv1.to_set().contains(x) <==> qv0.to_set().insert(
                                    d.0,
                                ).contains(x) by {
                                    if qv1.to_set().contains(x) {
                                        let m = choose|m: int| 0 <= m < qv1.len() && qv1[m] == x;
                                        if m < qv0.len() {
                                            assert(qv0[m] == x);
                                        }
                                    }
                                    if qv0.to_set().contains(x) {
                                        let m = choose|m: int| 0 <= m < qv0.len() && qv0[m] == x;
                                        assert(qv1[m] == x);
                                    }
                                    if x == d.0 {
                                        assert(qv1[qv0.len() as int] == x);
                                    }
                                }
                            }
                            assert forall|x: u64| qv1.contains(x) implies u.contains(x) by {
                                if x == d.0 {
                                    lemma_edge_target(rev, nid.0, d.0);
                                    let m = choose|m: int| 0 <= m < all_targets(rev).len() && all_targets(rev)[m] == x;
                                    assert(u[ids_view(changed@).len() + m] == x);
                                } else {
                                    let m = choose|m: int| 0 <= m < qv1.len() && qv1[m] == x;
                                    assert(qv0[m] == x);
                                }
                            }
                            assert(qv1.take(q0.len() as int) == q0) by {
                                assert(qv0.take(q0.len() as int) == q0);
                                assert forall|m: int| 0 <= m < q0.len() implies qv1.take(q0.len() as int)[m] == q0[m] by {
                                    assert(qv0.take(q0.len() as int)[m] == q0[m]);
                                }
                            }
                        }
                    } else {
                        proof {
                            assert(iv0.to_set().contains(d.0));
                            assert(ids_view(inv@) == iv0);
                        }
                    }
                    j += 1;
                }
                proof {
                    let qv = ids_view(queue@);
                    assert forall|i: int, b: u64|
                        0 <= i < head + 1 && rev_edge(rev, qv[i], b) implies ids_view(
                            inv@,
                        ).to_set().contains(b) by {
                        assert(qv.take(q0.len() as int)[i] == q0[i]);
                        if i == head {
                            assert(dv.contains(b));
                            let m = choose|m: int| 0 <= m < dv.len() && dv[m] == b;
                        }
                    }
                }
            },
            None => {
                proof {
                    let qv = ids_view(queue@);
                    assert forall|i: int, b: u64|
                        0 <= i < head + 1 && rev_edge(rev, qv[i], b) implies ids_view(
                            inv@,
                        ).to_set().contains(b) by {
                    }
                }
            },
        }
        proof {
            lemma_queue_bound(ids_view(queue@), u);
        }
        head += 1;
    }
    proof {
        let s = ids_view(inv@).to_set();
        let qv = ids_view(queue@);
        assert forall|a: u64, b: u64| s.contains(a) && rev_edge(rev, a, b) implies s.contains(b) by {
            assert(qv.to_set().contains(a));
            let i = choose|i: int| 0 <= i < qv.len() && qv[i] == a;
        }
        assert forall|y: u64| s.contains(y) <==> closure_s(rev, c).contains(y) by {
            if closure_s(rev, c).contains(y) {
                let p = choose|p: Seq<u64>| #[trigger] is_path(rev, p) && c.contains(p[0]) && p[p.len() - 1] == y;
                lemma_closed_contains(rev, s, c, p);
            }
        }
        assert(s =~= closure_s(rev, c));
    }
    inv
}

} // verus!
