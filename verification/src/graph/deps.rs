use vstd::prelude::*;
use crate::graph::ids::NodeId;
use crate::graph::node::{NodeKind, SNode};
use crate::graph::table::{
    DepTable, NameIndex, NodeTable, canon, dep_add, dep_del, ids_insert, ids_sorted, ids_view,
    lemma_canon, lemma_set_ops, name_get,
};
use crate::lisp::ast::{Expr, SExpr, exprs_view, lemma_exprs_view};
use crate::lisp::eval::head_is;
use crate::lisp::value::strings_view;
use crate::text::is_word;

verus! {

broadcast use vstd::std_specs::vec::group_vec_axioms;

/// The symbols an expression refers to: quoted data refers to nothing, and of
/// `lambda` and `define` forms only the body (the third element) counts.
pub open spec fn symbols_s(e: SExpr) -> Set<Seq<char>>
    decreases e,
{
    match e {
        SExpr::Symbol(s) => set![s],
        SExpr::Number(_) => Set::empty(),
        SExpr::List(es) => if head_is(es, "quote"@) {
            Set::empty()
        } else if head_is(es, "lambda"@) || head_is(es, "define"@) {
            if es.len() == 3 {
                symbols_s(es[2])
            } else {
                Set::empty()
            }
        } else {
            symbols_list(es)
        },
    }
}

pub open spec fn symbols_list(es: Seq<SExpr>) -> Set<Seq<char>>
    decreases es,
{
    if es.len() == 0 {
        Set::empty()
    } else {
        symbols_list(es.drop_last()).union(symbols_s(es[es.len() - 1]))
    }
}

proof fn lemma_symbols_list_has(es: Seq<SExpr>, i: int)
    requires
        0 <= i < es.len(),
    ensures
        symbols_s(es[i]).subset_of(symbols_list(es)),
    decreases es.len(),
{
    if i < es.len() - 1 {
        lemma_symbols_list_has(es.drop_last(), i);
        assert(es.drop_last()[i] == es[i]);
    }
}

/// A symbol refers to itself, and an ordinary list (not a `quote`, `lambda`
/// or `define` form) refers to every symbol that any of its elements refers
/// to, at any depth; so a body depends on the signature of every function it
/// names anywhere outside quoted data, however deeply the call is nested.
pub proof fn law_symbols_of_nested(es: Seq<SExpr>, i: int, s: Seq<char>)
    requires
        0 <= i < es.len(),
        !head_is(es, "quote"@),
        !head_is(es, "lambda"@),
        !head_is(es, "define"@),
    ensures
        symbols_s(SExpr::Symbol(s)) == set![s],
        symbols_s(es[i]).subset_of(symbols_s(SExpr::List(es))),
        forall|names: Seq<(Seq<char>, u64)>, sig: u64, id: u64|
            symbols_s(es[i]).contains(s) && name_get(names, s) == Some(id) && id != sig
                ==> #[trigger] deps_s(SNode::Body { sig, ast: SExpr::List(es) }, names).contains(
                id,
            ),
{
    lemma_symbols_list_has(es, i);
    assert forall|names: Seq<(Seq<char>, u64)>, sig: u64, id: u64|
        symbols_s(es[i]).contains(s) && name_get(names, s) == Some(id) && id != sig
            implies #[trigger] deps_s(SNode::Body { sig, ast: SExpr::List(es) }, names).contains(
            id,
        ) by {
        assert(symbols_s(SExpr::List(es)).contains(s));
        assert(named_sigs(symbols_s(SExpr::List(es)), names, sig).contains(id));
    }
}

/// The signatures that the symbols `syms` name, other than `sig`.
pub open spec fn named_sigs(syms: Set<Seq<char>>, names: Seq<(Seq<char>, u64)>, sig: u64) -> Set<
    u64,
> {
    Set::new(
        |id: u64| exists|s: Seq<char>| syms.contains(s) && name_get(names, s) == Some(id) && id != sig,
    )
}

/// The nodes a node depends on: a body depends on its own signature and on the
/// signatures of the functions it names; a signature depends on nothing.
pub open spec fn deps_s(node: SNode, names: Seq<(Seq<char>, u64)>) -> Set<u64> {
    match node {
        SNode::Body { sig, ast } => set![sig].union(named_sigs(symbols_s(ast), names, sig)),
        SNode::Sig { .. } => Set::empty(),
    }
}

pub open spec fn strs_set(v: Seq<String>) -> Set<Seq<char>> {
    strings_view(v).to_set()
}

fn add_symbol(out: &mut Vec<String>, s: &String)
    ensures
        strs_set(final(out)@) == strs_set(old(out)@).insert(s@),
        strings_view(old(out)@).no_duplicates() ==> strings_view(final(out)@).no_duplicates(),
{
    let ghost o = strings_view(out@);
    let mut i: usize = 0;
    while i < out.len()
        invariant
            i <= out.len(),
            o == strings_view(out@),
            forall|j: int| 0 <= j < i ==> o[j] != s@,
        decreases out.len() - i,
    {
        if out[i] == *s {
            assert(o[i as int] == s@);
            assert(strs_set(out@) =~= strs_set(out@).insert(s@));
            return ;
        }
        i += 1;
    }
    out.push(s.clone());
    assert(strings_view(out@) =~= o.push(s@));
    assert(strs_set(out@) =~= o.to_set().insert(s@)) by {
        assert(o.push(s@).to_set() =~= o.to_set().insert(s@)) by {
            assert forall|x: Seq<char>| o.push(s@).to_set().contains(x) <==> o.to_set().insert(
                s@,
            ).contains(x) by {
                if o.push(s@).to_set().contains(x) {
                    let k = choose|k: int| 0 <= k < o.len() + 1 && o.push(s@)[k] == x;
                    if k < o.len() {
                        assert(o[k] == x);
                    }
                }
                if o.to_set().contains(x) {
                    let k = choose|k: int| 0 <= k < o.len() && o[k] == x;
                    assert(o.push(s@)[k] == x);
                }
                if x == s@ {
                    assert(o.push(s@)[o.len() as int] == x);
                }
            }
        }
    }
}

fn head_word(elems: &Vec<Expr>, w: &str) -> (b: bool)
    ensures
        b == head_is(exprs_view(elems@), w@),
{
    proof {
        lemma_exprs_view(elems@);
    }
    if elems.len() == 0 {
        return false;
    }
    match &elems[0] {
        Expr::Symbol(h) => is_word(h, w),
        _ => false,
    }
}

fn collect_symbols(expr: &Expr, out: &mut Vec<String>)
    ensures
        strs_set(final(out)@) == strs_set(old(out)@).union(symbols_s(expr@)),
        strings_view(old(out)@).no_duplicates() ==> strings_view(final(out)@).no_duplicates(),
    decreases expr,
{
    match expr {
        Expr::Symbol(s) => {
            add_symbol(out, s);
            assert(strs_set(old(out)@).insert(s@) =~= strs_set(old(out)@).union(set![s@]));
        },
        Expr::Number(_) => {
            assert(strs_set(old(out)@).union(Set::empty()) =~= strs_set(old(out)@));
        },
        Expr::List(elems) => {
            proof {
                lemma_exprs_view(elems@);
            }
            if head_word(elems, "quote") {
                assert(strs_set(old(out)@).union(Set::empty()) =~= strs_set(old(out)@));
                return ;
            }
            if head_word(elems, "lambda") || head_word(elems, "define") {
                if elems.len() == 3 {
                    proof {
                        assert(decreases_to!(*elems => elems[2int]));
                        assert(decreases_to!(*expr => (*expr)->List_0));
                    }
                    collect_symbols(&elems[2], out);
                } else {
                    assert(strs_set(old(out)@).union(Set::empty()) =~= strs_set(old(out)@));
                }
                return ;
            }
            let ghost es = exprs_view(elems@);
            let mut i: usize = 0;
            assert(symbols_list(es.take(0)) =~= Set::<Seq<char>>::empty()) by {
                assert(es.take(0).len() == 0);
            }
            assert(strs_set(old(out)@).union(Set::empty()) =~= strs_set(old(out)@));
            while i < elems.len()
                invariant
                    i <= elems.len(),
                    *expr == Expr::List(*elems),
                    es == exprs_view(elems@),
                    es.len() == elems@.len(),
                    forall|j: int| 0 <= j < elems@.len() ==> #[trigger] es[j] == elems@[j]@,
                    strs_set(out@) == strs_set(old(out)@).union(symbols_list(es.take(i as int))),
                    strings_view(old(out)@).no_duplicates() ==> strings_view(out@).no_duplicates(),
                decreases elems.len() - i,
            {
                proof {
                    assert(decreases_to!(*elems => elems[i as int]));
                    assert(decreases_to!(*expr => (*expr)->List_0));
                    assert(es.take(i + 1).drop_last() == es.take(i as int));
                    assert(es.take(i + 1)[i as int] == elems@[i as int]@);
                }
                collect_symbols(&elems[i], out);
                proof {
                    let a = strs_set(old(out)@);
                    let b = symbols_list(es.take(i as int));
                    let c = symbols_s(elems@[i as int]@);
                    assert(a.union(b).union(c) =~= a.union(b.union(c)));
                }
                i += 1;
            }
            assert(es.take(i as int) == es);
        },
    }
}

/// The symbols that an expression refers to, each once.
pub fn extract_symbols(expr: &Expr) -> (r: Vec<String>)
    ensures
        strs_set(r@) == symbols_s(expr@),
        strings_view(r@).no_duplicates(),
{
    let mut symbols: Vec<String> = Vec::new();
    assert(strs_set(symbols@) =~= Set::<Seq<char>>::empty());
    assert(strings_view(symbols@) =~= Seq::<Seq<char>>::empty());
    collect_symbols(expr, &mut symbols);
    assert(Set::<Seq<char>>::empty().union(symbols_s(expr@)) =~= symbols_s(expr@));
    symbols
}

/// The dependencies of a node, given the current name index, as a sorted set.
pub fn compute_deps_for_node(node_id: NodeId, node: &NodeKind, name_index: &NameIndex) -> (r: Vec<
    NodeId,
>)
    ensures
        ids_view(r@) == canon(deps_s(node@, name_index@)),
        ids_sorted(ids_view(r@)),
        ids_view(r@).to_set() == deps_s(node@, name_index@),
{
    let mut deps: Vec<NodeId> = Vec::new();
    match node {
        NodeKind::FuncBody { sig_id, ast } => {
            let sig = *sig_id;
            let ghost names = name_index@;
            deps.push(sig);
            proof {
                assert(ids_view(deps@) =~= seq![sig.0]);
                assert(seq![sig.0].to_set() =~= set![sig.0]) by {
                    assert(seq![sig.0][0] == sig.0);
                }
            }
            let symbols = extract_symbols(ast);
            let ghost sv = strings_view(symbols@);
            let mut i: usize = 0;
            while i < symbols.len()
                invariant
                    i <= symbols.len(),
                    sv == strings_view(symbols@),
                    names == name_index@,
                    ids_sorted(ids_view(deps@)),
                    ids_view(deps@).to_set() == set![sig.0].union(
                        named_sigs(sv.take(i as int).to_set(), names, sig.0),
                    ),
                decreases symbols.len() - i,
            {
                let ghost before = ids_view(deps@);
                let ghost prefix = sv.take(i as int).to_set();
                let ghost next = sv.take(i + 1).to_set();
                proof {
                    assert(sv.take(i + 1) == sv.take(i as int).push(symbols@[i as int]@));
                    assert(next =~= prefix.insert(symbols@[i as int]@)) by {
                        assert forall|x: Seq<char>| next.contains(x) <==> prefix.insert(
                            symbols@[i as int]@,
                        ).contains(x) by {
                            let t = sv.take(i + 1);
                            if next.contains(x) {
                                let k = choose|k: int| 0 <= k < t.len() && t[k] == x;
                                if k < i {
                                    assert(sv.take(i as int)[k] == x);
                                }
                            }
                            if prefix.contains(x) {
                                let k = choose|k: int| 0 <= k < i && sv.take(i as int)[k] == x;
                                assert(t[k] == x);
                            }
                            if x == symbols@[i as int]@ {
                                assert(t[i as int] == x);
                            }
                        }
                    }
                }
                match name_index.get(&symbols[i]) {
                    Some(callee) => {
                        if callee.0 != sig.0 {
                            ids_insert(&mut deps, callee);
                            proof {
                                lemma_set_ops(before, callee.0);
                            }
                        }
                    },
                    None => {},
                }
                proof {
                    let s_i = symbols@[i as int]@;
                    let lhs = ids_view(deps@).to_set();
                    let rhs = set![sig.0].union(named_sigs(next, names, sig.0));
                    assert forall|id: u64| lhs.contains(id) <==> rhs.contains(id) by {
                        if named_sigs(next, names, sig.0).contains(id) {
                            let s = choose|s: Seq<char>|
                                next.contains(s) && name_get(names, s) == Some(id) && id != sig.0;
                            if s != s_i {
                                assert(prefix.contains(s));
                                assert(named_sigs(prefix, names, sig.0).contains(id));
                            }
                        }
                        if named_sigs(prefix, names, sig.0).contains(id) {
                            let s = choose|s: Seq<char>|
                                prefix.contains(s) && name_get(names, s) == Some(id) && id != sig.0;
                            assert(next.contains(s));
                            assert(named_sigs(next, names, sig.0).contains(id));
                        }
                        if name_get(names, s_i) == Some(id) && id != sig.0 {
                            assert(next.contains(s_i));
                            assert(named_sigs(next, names, sig.0).contains(id));
                        }
                    }
                    assert(lhs =~= rhs);
                }
                i += 1;
            }
            proof {
                assert(sv.take(i as int) == sv);
            }
        },
        NodeKind::FuncSig { .. } => {
            assert(ids_view(deps@).to_set() =~= Set::<u64>::empty());
        },
    }
    proof {
        lemma_canon(ids_view(deps@));
    }
    deps
}

/// The forward dependencies of every node, in the nodes' order.
pub open spec fn forward_s(nodes: Seq<(u64, SNode)>, names: Seq<(Seq<char>, u64)>) -> Seq<
    (u64, Seq<u64>),
> {
    nodes.map_values(|e: (u64, SNode)| (e.0, canon(deps_s(e.1, names))))
}

/// `rev` with `n` added as a dependent of each of `ds`, in order.
pub open spec fn add_dependent(rev: Seq<(u64, Seq<u64>)>, n: u64, ds: Seq<u64>) -> Seq<
    (u64, Seq<u64>),
>
    decreases ds.len(),
{
    if ds.len() == 0 {
        rev
    } else {
        dep_add(add_dependent(rev, n, ds.drop_last()), ds[ds.len() - 1], n)
    }
}

/// `rev` with `n` removed as a dependent of each of `ds`, in order.
pub open spec fn drop_dependent(rev: Seq<(u64, Seq<u64>)>, n: u64, ds: Seq<u64>) -> Seq<
    (u64, Seq<u64>),
>
    decreases ds.len(),
{
    if ds.len() == 0 {
        rev
    } else {
        dep_del(drop_dependent(rev, n, ds.drop_last()), ds[ds.len() - 1], n)
    }
}

/// The reverse edges of forward dependencies: each dependency maps to its dependents.
pub open spec fn reverse_s(fwd: Seq<(u64, Seq<u64>)>) -> Seq<(u64, Seq<u64>)>
    decreases fwd.len(),
{
    if fwd.len() == 0 {
        Seq::empty()
    } else {
        add_dependent(reverse_s(fwd.drop_last()), fwd[fwd.len() - 1].0, fwd[fwd.len() - 1].1)
    }
}

/// Adds `n` as a dependent of each of `ds` in the reverse table.
pub fn add_dependents(rev: &mut DepTable, n: NodeId, ds: &Vec<NodeId>)
    ensures
        final(rev)@ == add_dependent(old(rev)@, n.0, ids_view(ds@)),
{
    let ghost dv = ids_view(ds@);
    let mut i: usize = 0;
    while i < ds.len()
        invariant
            i <= ds.len(),
            dv == ids_view(ds@),
            rev@ == add_dependent(old(rev)@, n.0, dv.take(i as int)),
        decreases ds.len() - i,
    {
        proof {
            assert(dv.take(i + 1).drop_last() == dv.take(i as int));
        }
        rev.add(ds[i], n);
        i += 1;
    }
    assert(dv.take(i as int) == dv);
}

/// Removes `n` as a dependent of each of `ds` in the reverse table.
pub fn drop_dependents(rev: &mut DepTable, n: NodeId, ds: &Vec<NodeId>)
    ensures
        final(rev)@ == drop_dependent(old(rev)@, n.0, ids_view(ds@)),
{
    let ghost dv = ids_view(ds@);
    let mut i: usize = 0;
    while i < ds.len()
        invariant
            i <= ds.len(),
            dv == ids_view(ds@),
            rev@ == drop_dependent(old(rev)@, n.0, dv.take(i as int)),
        decreases ds.len() - i,
    {
        proof {
            assert(dv.take(i + 1).drop_last() == dv.take(i as int));
        }
        rev.del(ds[i], n);
        i += 1;
    }
    assert(dv.take(i as int) == dv);
}

/// Rebuilds all dependency edges: the forward dependencies of every node, and
/// the reverse edges from each dependency to its dependents.
pub fn rebuild_all_deps(nodes: &NodeTable, name_index: &NameIndex) -> (r: (DepTable, DepTable))
    ensures
        r.0@ == forward_s(nodes@, name_index@),
        r.1@ == reverse_s(r.0@),
{
    let mut forward = DepTable { entries: Vec::new() };
    let mut reverse = DepTable::new();
    let ghost nv = nodes@;
    let ghost names = name_index@;
    let mut i: usize = 0;
    assert(forward@ =~= forward_s(nv.take(0), names));
    while i < nodes.entries.len()
        invariant
            i <= nodes.entries.len(),
            nv == nodes@,
            nv.len() == nodes.entries@.len(),
            names == name_index@,
            forward@ == forward_s(nv.take(i as int), names),
            reverse@ == reverse_s(forward@),
        decreases nodes.entries.len() - i,
    {
        let nid = nodes.entries[i].0;
        let deps = compute_deps_for_node(nid, &nodes.entries[i].1, name_index);
        add_dependents(&mut reverse, nid, &deps);
        let ghost fprev = forward@;
        let ghost dv = ids_view(deps@);
        forward.entries.push((nid, deps));
        proof {
            assert(forward@ =~= fprev.push((nid.0, dv)));
            assert(forward@.drop_last() == fprev);
            assert(nv.take(i + 1) =~= nv.take(i as int).push(nv[i as int]));
            assert(forward_s(nv.take(i + 1), names) =~= forward_s(nv.take(i as int), names).push(
                (nid.0, dv),
            ));
        }
        i += 1;
    }
    assert(nv.take(i as int) == nv);
    (forward, reverse)
}

} // verus!
