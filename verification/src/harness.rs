use vstd::prelude::*;
use crate::graph::node::{NodeKind, SNode};
use crate::graph::store::{GraphStore, SGraph, has_body, insert_s, rebuild_s, redeps};
use crate::ledger::delta::StructuralDelta;
use crate::ledger::hash::{graph_hash, hash_graph, hex_text};
use crate::ledger::patch::{Patch, PatchMetadata};
use crate::ledger::replay::{ledger_consistent, law_commit_keeps_ledger_consistent, replay_run};
use crate::graph::table::{ids_view, lower_bound, tbl_get};
use crate::ledger::delta::apply_s;
use crate::ledger::tx::{SEngine, invalidated_by, staged};
use crate::ledger::delta::{SDelta, delta_target};
use crate::ledger::patch::SPatch;
use crate::ledger::tx::{
    Engine, TxError, commit_s, empty_graph, law_accepted_commit_appends,
    law_region_conflict_between_commits, law_refused_commit_changes_nothing,
};
use crate::lisp::ast::{Expr, SExpr, copy_expr, exprs_view, lemma_exprs_view};
use crate::lisp::value::strings_view;
use crate::runtime::exec::{EffectExecutor, NoopExecutor};
use crate::text::{nat_text, push_all, u64_to_text};
use rand::Rng;
use rand::SeedableRng;
use rand::rngs::StdRng;

verus! {

broadcast use vstd::std_specs::vec::group_vec_axioms;

// ---------------------------------------------------------------------------
// The genesis graph
// ---------------------------------------------------------------------------

/// A symbol expression.
pub open spec fn sym_s(s: &str) -> SExpr {
    SExpr::Symbol(s@)
}

/// The graph with a function added: a signature with the next identifier
/// (no return type, no effects) and its body with the one after.
pub open spec fn add_function_s(g: SGraph, name: Seq<char>, args: Seq<Seq<char>>, ast: SExpr) -> SGraph {
    let sig = g.next_id;
    let body = (g.next_id + 1) as u64;
    let g1 = SGraph { next_id: (g.next_id + 2) as u64, ..g };
    let g2 = insert_s(g1, sig, SNode::Sig { name, args, ret: None, effects: Seq::empty() });
    insert_s(g2, body, SNode::Body { sig, ast })
}

/// The sample functions of the genesis graph, in order: `add(a, b)`,
/// `double(x)`, `abs(n)`, `square(x)` and `identity(x)`, before the
/// dependency edges are built.
pub open spec fn genesis_functions() -> SGraph {
    let g1 = add_function_s(
        empty_graph(),
        "add"@,
        seq!["a"@, "b"@],
        SExpr::List(seq![sym_s("+"), sym_s("a"), sym_s("b")]),
    );
    let g2 = add_function_s(
        g1,
        "double"@,
        seq!["x"@],
        SExpr::List(seq![sym_s("*"), sym_s("x"), SExpr::Number(2)]),
    );
    let g3 = add_function_s(
        g2,
        "abs"@,
        seq!["n"@],
        SExpr::List(
            seq![
                sym_s("if"),
                SExpr::List(seq![sym_s("<"), sym_s("n"), SExpr::Number(0)]),
                SExpr::List(seq![sym_s("-"), SExpr::Number(0), sym_s("n")]),
                sym_s("n"),
            ],
        ),
    );
    let g4 = add_function_s(
        g3,
        "square"@,
        seq!["x"@],
        SExpr::List(seq![sym_s("*"), sym_s("x"), sym_s("x")]),
    );
    add_function_s(g4, "identity"@, seq!["x"@], sym_s("x"))
}

fn sym(s: &str) -> (e: Expr)
    ensures
        e@ == sym_s(s),
{
    Expr::Symbol(String::from_str(s))
}

fn list3(a: Expr, b: Expr, c: Expr) -> (e: Expr)
    ensures
        e@ == SExpr::List(seq![a@, b@, c@]),
{
    let items = vec![a, b, c];
    proof {
        lemma_exprs_view(items@);
        assert(exprs_view(items@) =~= seq![a@, b@, c@]);
    }
    Expr::List(items)
}

fn list4(a: Expr, b: Expr, c: Expr, d: Expr) -> (e: Expr)
    ensures
        e@ == SExpr::List(seq![a@, b@, c@, d@]),
{
    let items = vec![a, b, c, d];
    proof {
        lemma_exprs_view(items@);
        assert(exprs_view(items@) =~= seq![a@, b@, c@, d@]);
    }
    Expr::List(items)
}

fn params(names: &[&str]) -> (v: Vec<String>)
    ensures
        strings_view(v@) == names@.map_values(|s: &str| s@),
{
    let mut v: Vec<String> = Vec::new();
    let mut i: usize = 0;
    while i < names.len()
        invariant
            i <= names.len(),
            strings_view(v@) == names@.take(i as int).map_values(|s: &str| s@),
        decreases names.len() - i,
    {
        let w = String::from_str(names[i]);
        let ghost before = v@;
        v.push(w);
        assert(names@.take(i + 1) == names@.take(i as int).push(names@[i as int]));
        assert(strings_view(v@) =~= strings_view(before).push(names@[i as int]@));
        assert(strings_view(v@) =~= names@.take(i + 1).map_values(|s: &str| s@));
        i += 1;
    }
    assert(names@.take(names.len() as int) == names@);
    v
}

fn add_function(graph: &mut GraphStore, name: &str, args: Vec<String>, ast: Expr)
    requires
        old(graph)@.next_id < 100,
    ensures
        final(graph)@ == add_function_s(old(graph)@, name@, strings_view(args@), ast@),
{
    let sig_id = graph.alloc_id();
    let body_id = graph.alloc_id();
    let effects: Vec<String> = Vec::new();
    assert(strings_view(effects@) =~= Seq::<Seq<char>>::empty());
    graph.insert(
        sig_id,
        NodeKind::FuncSig { name: String::from_str(name), args, ret: None, effects },
    );
    graph.insert(body_id, NodeKind::FuncBody { sig_id, ast });
}

/// Creates the genesis graph with the sample functions, its dependency edges
/// built.
pub fn create_genesis_graph() -> (g: GraphStore)
    ensures
        g@ == rebuild_s(genesis_functions()),
{
    let mut graph = GraphStore::new();
    // add(a, b) => (+ a b)
    let ps = params(&["a", "b"]);
    assert(strings_view(ps@) =~= seq!["a"@, "b"@]);
    add_function(&mut graph, "add", ps, list3(sym("+"), sym("a"), sym("b")));
    // double(x) => (* x 2)
    let ps = params(&["x"]);
    assert(strings_view(ps@) =~= seq!["x"@]);
    add_function(&mut graph, "double", ps, list3(sym("*"), sym("x"), Expr::Number(2)));
    // abs(n) => (if (< n 0) (- 0 n) n)
    let ps = params(&["n"]);
    assert(strings_view(ps@) =~= seq!["n"@]);
    let test = list3(sym("<"), sym("n"), Expr::Number(0));
    let negated = list3(sym("-"), Expr::Number(0), sym("n"));
    add_function(&mut graph, "abs", ps, list4(sym("if"), test, negated, sym("n")));
    // square(x) => (* x x)
    let ps = params(&["x"]);
    assert(strings_view(ps@) =~= seq!["x"@]);
    add_function(&mut graph, "square", ps, list3(sym("*"), sym("x"), sym("x")));
    // identity(x) => x
    let ps = params(&["x"]);
    assert(strings_view(ps@) =~= seq!["x"@]);
    add_function(&mut graph, "identity", ps, sym("x"));
    assert(graph@ == genesis_functions());
    graph.rebuild_all_deps();
    graph
}

// ---------------------------------------------------------------------------
// Random mutations
// ---------------------------------------------------------------------------

#[verifier::external_type_specification]
#[verifier::external_body]
pub struct ExStdRng(rand::rngs::StdRng);

/// `StdRng::from_seed`: a generator seeded with `seed`. Nothing is claimed of
/// the generator.
#[verifier::external_body]
fn seeded_rng(seed: [u8; 32]) -> StdRng {
    StdRng::from_seed(seed)
}

/// `Rng::gen_range` on `lo..hi` for `i32`: a value in the range (it panics on
/// an empty range, which `requires` leaves out).
#[verifier::external_body]
fn random_i32(rng: &mut StdRng, lo: i32, hi: i32) -> (r: i32)
    requires
        lo < hi,
    ensures
        lo <= r < hi,
{
    rng.gen_range(lo..hi)
}

/// `Rng::gen_range` on `lo..hi` for `i64`: a value in the range.
#[verifier::external_body]
fn random_i64(rng: &mut StdRng, lo: i64, hi: i64) -> (r: i64)
    requires
        lo < hi,
    ensures
        lo <= r < hi,
{
    rng.gen_range(lo..hi)
}

/// `Rng::gen_range` on `lo..hi` for `usize`: a value in the range.
#[verifier::external_body]
fn random_usize(rng: &mut StdRng, lo: usize, hi: usize) -> (r: usize)
    requires
        lo < hi,
    ensures
        lo <= r < hi,
{
    rng.gen_range(lo..hi)
}

/// `e` with the number literal at the end of `path` replaced by `v`: a
/// number is replaced, a symbol and an empty list stay, and in a non-empty
/// list the element that the path's first index names is replaced this way
/// (the list stays when the path is used up or its index is out of range).
pub open spec fn replace_at(e: SExpr, path: Seq<usize>, v: i64) -> SExpr
    decreases e,
{
    match e {
        SExpr::Number(_) => SExpr::Number(v),
        SExpr::Symbol(_) => e,
        SExpr::List(es) => if es.len() == 0 || path.len() == 0 || path[0] >= es.len() {
            e
        } else {
            SExpr::List(es.update(path[0] as int, replace_at(es[path[0] as int], path.drop_first(), v)))
        },
    }
}

/// Whether `path` is a path that the agent can draw in `e`: at a non-empty
/// list, an index in range followed by a path drawn in that element; at
/// anything else, the path ends.
pub open spec fn drawn_path(e: SExpr, path: Seq<usize>) -> bool
    decreases e,
{
    match e {
        SExpr::List(es) => if es.len() == 0 {
            path.len() == 0
        } else {
            path.len() > 0 && path[0] < es.len() && drawn_path(es[path[0] as int], path.drop_first())
        },
        _ => path.len() == 0,
    }
}

/// Whether `path` leads to a number literal of `e`.
pub open spec fn path_ends_at_number(e: SExpr, path: Seq<usize>) -> bool
    decreases e,
{
    match e {
        SExpr::Number(_) => true,
        SExpr::Symbol(_) => false,
        SExpr::List(es) => if es.len() == 0 || path.len() == 0 || path[0] >= es.len() {
            false
        } else {
            path_ends_at_number(es[path[0] as int], path.drop_first())
        },
    }
}

/// One of the arithmetic operators `+`, `-`, `*`.
pub open spec fn arith_op(s: Seq<char>) -> bool {
    s == "+"@ || s == "-"@ || s == "*"@
}

/// The arithmetic operator that draw `op` picks: `+`, `-`, then `*`.
pub open spec fn op_name(op: usize) -> Seq<char> {
    if op == 0 {
        "+"@
    } else if op == 1 {
        "-"@
    } else {
        "*"@
    }
}

/// Whether `e` is a non-empty list headed by an arithmetic operator.
pub open spec fn swappable(e: SExpr) -> bool {
    e matches SExpr::List(es) && es.len() > 0 && (es[0] matches SExpr::Symbol(s) && arith_op(s))
}

/// `e` with its heading arithmetic operator replaced by `op_name(op)`; any
/// other expression stays.
pub open spec fn swap_at(e: SExpr, op: usize) -> SExpr {
    match e {
        SExpr::List(es) => if swappable(e) {
            SExpr::List(es.update(0, SExpr::Symbol(op_name(op))))
        } else {
            e
        },
        _ => e,
    }
}

/// The mutation that draw `kind` picks: 0 replaces the number literal at
/// `path` by `value`; 1 wraps as `(+ e k)`; 2 swaps the operator for
/// `op_name(op)`; 3 wraps as `(if (< e 0) 0 e)`; any other replaces `e` by
/// `(+ a b)`.
pub open spec fn mutation_s(
    e: SExpr,
    kind: i32,
    path: Seq<usize>,
    value: i64,
    op: usize,
    k: i64,
    a: i64,
    b: i64,
) -> SExpr {
    if kind == 0 {
        replace_at(e, path, value)
    } else if kind == 1 {
        SExpr::List(seq![sym_s("+"), e, SExpr::Number(k)])
    } else if kind == 2 {
        swap_at(e, op)
    } else if kind == 3 {
        SExpr::List(
            seq![sym_s("if"), SExpr::List(seq![sym_s("<"), e, SExpr::Number(0)]), SExpr::Number(0), e],
        )
    } else {
        SExpr::List(seq![sym_s("+"), SExpr::Number(a), SExpr::Number(b)])
    }
}

/// The mutations an agent makes: `mutation_s` with draws in the ranges the
/// agent draws them from.
pub open spec fn mutation_of(prev: SExpr, next: SExpr) -> bool {
    exists|kind: i32, path: Seq<usize>, value: i64, op: usize, k: i64, a: i64, b: i64|
        {
            &&& 0 <= kind < 5
            &&& (kind == 0 ==> drawn_path(prev, path))
            &&& -50 <= value < 50
            &&& op < 3
            &&& 1 <= k < 10
            &&& 0 <= a < 100
            &&& 0 <= b < 100
            &&& next == #[trigger] mutation_s(prev, kind, path, value, op, k, a, b)
        }
}

/// Replaces the number literal at the end of `path[from..]` by `value`.
pub fn replace_number(ast: &Expr, path: &Vec<usize>, from: usize, value: i64) -> (r: Expr)
    requires
        from <= path.len(),
    ensures
        r@ == replace_at(ast@, path@.subrange(from as int, path@.len() as int), value),
    decreases ast,
{
    let ghost rest = path@.subrange(from as int, path@.len() as int);
    match ast {
        Expr::Number(_) => Expr::Number(value),
        Expr::Symbol(s) => Expr::Symbol(s.clone()),
        Expr::List(elems) => {
            if elems.len() == 0 || from >= path.len() || path[from] >= elems.len() {
                proof {
                    lemma_exprs_view(elems@);
                    if from < path.len() {
                        assert(rest[0] == path@[from as int]);
                    } else {
                        assert(rest.len() == 0);
                    }
                }
                return copy_expr(ast);
            }
            let idx = path[from];
            proof {
                assert(decreases_to!(*elems => elems[idx as int]));
                assert(decreases_to!(*ast => (*ast)->List_0));
                assert(rest.drop_first() =~= path@.subrange(from + 1, path@.len() as int));
            }
            let replaced = replace_number(&elems[idx], path, from + 1, value);
            let mut new_elems: Vec<Expr> = Vec::new();
            let mut i: usize = 0;
            while i < elems.len()
                invariant
                    i <= elems.len(),
                    idx < elems.len(),
                    new_elems@.len() == i,
                    forall|j: int| 0 <= j < i && j != idx ==> #[trigger] new_elems@[j]@ == elems@[j]@,
                    idx < i ==> new_elems@[idx as int]@ == replaced@,
                decreases elems.len() - i,
            {
                if i == idx {
                    new_elems.push(copy_expr(&replaced));
                } else {
                    new_elems.push(copy_expr(&elems[i]));
                }
                i += 1;
            }
            proof {
                lemma_exprs_view(new_elems@);
                lemma_exprs_view(elems@);
                let es = exprs_view(elems@);
                let fs = exprs_view(new_elems@);
                assert(fs =~= es.update(idx as int, replaced@)) by {
                    assert forall|j: int| 0 <= j < es.len() implies fs[j] == es.update(
                        idx as int,
                        replaced@,
                    )[j] by {
                        assert(fs[j] == new_elems@[j]@);
                        assert(es[j] == elems@[j]@);
                    }
                }
                assert(es[idx as int] == elems@[idx as int]@);
            }
            Expr::List(new_elems)
        },
    }
}

fn is_arith_op(s: &String) -> (b: bool)
    ensures
        b == arith_op(s@),
{
    crate::text::is_word(s, "+") || crate::text::is_word(s, "-") || crate::text::is_word(s, "*")
}

fn is_swappable(ast: &Expr) -> (b: bool)
    ensures
        b == swappable(ast@),
{
    match ast {
        Expr::List(elems) => {
            if elems.len() == 0 {
                return false;
            }
            proof {
                lemma_exprs_view(elems@);
            }
            match &elems[0] {
                Expr::Symbol(s) => is_arith_op(s),
                _ => false,
            }
        },
        _ => false,
    }
}

/// Swaps the operator heading a list for `op_name(op)`.
pub fn swap_operator(ast: &Expr, op: usize) -> (r: Expr)
    ensures
        r@ == swap_at(ast@, op),
{
    if !is_swappable(ast) {
        return copy_expr(ast);
    }
    match ast {
        Expr::List(elems) => {
            proof {
                lemma_exprs_view(elems@);
            }
            let mut new_elems: Vec<Expr> = Vec::new();
            let mut i: usize = 0;
            while i < elems.len()
                invariant
                    i <= elems.len(),
                    new_elems@.len() == i,
                    forall|j: int| 0 <= j < i ==> #[trigger] new_elems@[j]@ == elems@[j]@,
                decreases elems.len() - i,
            {
                new_elems.push(copy_expr(&elems[i]));
                i += 1;
            }
            let ghost copied = new_elems@;
            let new_op = if op == 0 {
                "+"
            } else if op == 1 {
                "-"
            } else {
                "*"
            };
            new_elems.set(0, Expr::Symbol(String::from_str(new_op)));
            proof {
                lemma_exprs_view(new_elems@);
                let es = exprs_view(elems@);
                let fs = exprs_view(new_elems@);
                assert forall|j: int| 0 < j < es.len() implies fs[j] == es[j] by {
                    assert(new_elems@[j] == copied[j]);
                    assert(fs[j] == new_elems@[j]@);
                    assert(es[j] == elems@[j]@);
                }
                assert(fs[0] == SExpr::Symbol(op_name(op)));
                assert(fs =~= es.update(0, SExpr::Symbol(op_name(op))));
            }
            Expr::List(new_elems)
        },
        _ => copy_expr(ast),
    }
}

/// Applies the mutation that the draws pick (see `mutation_s`).
pub fn apply_mutation(
    ast: &Expr,
    kind: i32,
    path: &Vec<usize>,
    value: i64,
    op: usize,
    k: i64,
    a: i64,
    b: i64,
) -> (r: Expr)
    ensures
        r@ == mutation_s(ast@, kind, path@, value, op, k, a, b),
{
    if kind == 0 {
        let r = replace_number(ast, path, 0, value);
        assert(path@.subrange(0, path@.len() as int) =~= path@);
        r
    } else if kind == 1 {
        list3(sym("+"), copy_expr(ast), Expr::Number(k))
    } else if kind == 2 {
        swap_operator(ast, op)
    } else if kind == 3 {
        let test = list3(sym("<"), copy_expr(ast), Expr::Number(0));
        list4(sym("if"), test, Expr::Number(0), copy_expr(ast))
    } else {
        list3(sym("+"), Expr::Number(a), Expr::Number(b))
    }
}

/// Draws the path to a number literal: at each non-empty list, an index in
/// range, appended to `path`; returns whether the path ends at a number.
fn draw_path(ast: &Expr, rng: &mut StdRng, path: &mut Vec<usize>) -> (at_number: bool)
    ensures
        final(path)@.len() >= old(path)@.len(),
        final(path)@.subrange(0, old(path)@.len() as int) == old(path)@,
        drawn_path(ast@, final(path)@.subrange(old(path)@.len() as int, final(path)@.len() as int)),
        at_number == path_ends_at_number(
            ast@,
            final(path)@.subrange(old(path)@.len() as int, final(path)@.len() as int),
        ),
    decreases ast,
{
    let ghost before = path@;
    match ast {
        Expr::Number(_) => true,
        Expr::Symbol(_) => false,
        Expr::List(elems) => {
            if elems.len() == 0 {
                return false;
            }
            let idx = random_usize(rng, 0, elems.len());
            proof {
                assert(decreases_to!(*elems => elems[idx as int]));
                assert(decreases_to!(*ast => (*ast)->List_0));
            }
            path.push(idx);
            let ghost mid = path@;
            let r = draw_path(&elems[idx], rng, path);
            proof {
                lemma_exprs_view(elems@);
                let n = before.len() as int;
                let whole = path@.subrange(n, path@.len() as int);
                let tail = path@.subrange(n + 1, path@.len() as int);
                assert(path@.subrange(0, n + 1) == mid);
                assert(path@[n] == mid[n]);
                assert(whole[0] == idx);
                assert(whole.drop_first() =~= tail);
                assert(path@.subrange(0, n) =~= before) by {
                    assert forall|j: int| 0 <= j < n implies path@[j] == before[j] by {
                        assert(path@.subrange(0, n + 1)[j] == mid[j]);
                    }
                }
                assert(exprs_view(elems@)[idx as int] == elems@[idx as int]@);
            }
            r
        },
    }
}

/// The draws of one mutation: the kind, then the values that kind needs, in
/// the order they are drawn (a number's path and value, the constant added,
/// the new operator, or the two numbers); a value that is not drawn is left
/// at its default.
fn draw_mutation(ast: &Expr, rng: &mut StdRng) -> (d: (i32, Vec<usize>, i64, usize, i64, i64, i64))
    ensures
        0 <= d.0 < 5,
        d.0 == 0 ==> drawn_path(ast@, d.1@),
        -50 <= d.2 < 50,
        d.3 < 3,
        1 <= d.4 < 10,
        0 <= d.5 < 100,
        0 <= d.6 < 100,
{
    let kind = random_i32(rng, 0, 5);
    let mut path: Vec<usize> = Vec::new();
    let mut value: i64 = 0;
    let mut op: usize = 0;
    let mut k: i64 = 1;
    let mut a: i64 = 0;
    let mut b: i64 = 0;
    if kind == 0 {
        // Replace a number literal with a different one.
        if draw_path(ast, rng, &mut path) {
            value = random_i64(rng, -50, 50);
        }
        assert(path@.subrange(0, path@.len() as int) =~= path@);
    } else if kind == 1 {
        // Wrap the expression in (+ expr k).
        k = random_i64(rng, 1, 10);
    } else if kind == 2 {
        // Swap an operator.
        if is_swappable(ast) {
            op = random_usize(rng, 0, 3);
        }
    } else if kind == 4 {
        // Replace with a simple expression.
        a = random_i64(rng, 0, 100);
        b = random_i64(rng, 0, 100);
    }
    (kind, path, value, op, k, a, b)
}

/// Applies a random mutation to an expression: the draws of `draw_mutation`,
/// applied by `apply_mutation`.
pub fn mutate_ast(ast: &Expr, rng: &mut StdRng) -> (r: Expr)
    ensures
        mutation_of(ast@, r@),
{
    let (kind, path, value, op, k, a, b) = draw_mutation(ast, rng);
    let r = apply_mutation(ast, kind, &path, value, op, k, a, b);
    assert(mutation_s(ast@, kind, path@, value, op, k, a, b) == r@);
    r
}

// ---------------------------------------------------------------------------
// The agent harness
// ---------------------------------------------------------------------------

/// What a harness run did.
#[derive(Debug, Clone, Copy, PartialEq, Eq)]
pub struct HarnessStats {
    pub commits: u64,
    pub rejects_conflict: u64,
    pub rejects_stale: u64,
    pub rejects_validation: u64,
    /// The sum of the commits' invalidation sizes (wrapping on overflow).
    pub total_invalidation_size: u64,
}

/// `agent-<id>`
pub open spec fn agent_name(id: nat) -> Seq<char> {
    "agent-"@ + nat_text(id)
}

fn agent_label(id: usize) -> (s: String)
    ensures
        s@ == agent_name(id as nat),
{
    let mut s = String::from_str("agent-");
    push_all(&mut s, &u64_to_text(id as u64));
    s
}

proof fn lemma_attempt_bound(agent: int, per: int, m: int, agents: int, total: int)
    requires
        0 <= agent < agents,
        0 <= m < per,
        per == total / agents,
        agents > 0,
        total >= 0,
    ensures
        agent * per + m + 1 <= agents * per <= total,
{
    assert(agent * per + m + 1 <= (agent + 1) * per) by (nonlinear_arith)
        requires
            0 <= m < per,
    ;
    assert((agent + 1) * per <= agents * per) by (nonlinear_arith)
        requires
            agent + 1 <= agents,
            per >= 0,
    ;
    assert(agents * per <= total) by (nonlinear_arith)
        requires
            per == total / agents,
            agents > 0,
            total >= 0,
    ;
}

/// A patch that a harness agent makes: it replaces the body of its one-node
/// scope, is signed by one of the agents and carries no timestamp.
pub open spec fn harness_patch(p: SPatch, num_agents: nat) -> bool {
    &&& p.delta is ReplaceBody
    &&& p.scope == seq![delta_target(p.delta)]
    &&& exists|k: nat| k < num_agents && p.author == #[trigger] agent_name(k)
    &&& p.ts is None
}

/// Patch `k` of `ps`, replayed from `g0` after the patches before it, replaces
/// a function body by a mutation of that body as it then stood.
pub open spec fn mutates_body_at(g0: SGraph, ps: Seq<SPatch>, k: int) -> bool {
    match replay_run(g0, ps.take(k)) {
        Ok((g, _)) => match ps[k].delta {
            SDelta::ReplaceBody { node, ast } => tbl_get(g.nodes, node) matches Some(
                SNode::Body { ast: prev, .. },
            ) && mutation_of(prev, ast),
            _ => false,
        },
        Err(_) => false,
    }
}

/// The graph after committing each of `ps` in turn from `g`: the delta is
/// applied, the target's edges are recomputed and all edges are rebuilt (a
/// patch whose delta does not apply leaves the graph as it is).
pub open spec fn chain_graph(g: SGraph, ps: Seq<SPatch>) -> SGraph
    decreases ps.len(),
{
    if ps.len() == 0 {
        g
    } else {
        let prev = chain_graph(g, ps.drop_last());
        match staged(prev, ps[ps.len() - 1].delta) {
            Ok(g2) => rebuild_s(g2),
            Err(_) => prev,
        }
    }
}

/// The sum of the invalidation closures' sizes when each of `ps` is committed
/// in turn from `g`.
pub open spec fn chain_invalidated(g: SGraph, ps: Seq<SPatch>) -> nat
    decreases ps.len(),
{
    if ps.len() == 0 {
        0
    } else {
        let prev = chain_graph(g, ps.drop_last());
        chain_invalidated(g, ps.drop_last()) + match staged(prev, ps[ps.len() - 1].delta) {
            Ok(g2) => invalidated_by(g2, ps[ps.len() - 1].delta).len(),
            Err(_) => 0,
        }
    }
}

proof fn lemma_redeps_nodes(g: SGraph, ids: Seq<u64>)
    ensures
        redeps(g, ids).nodes == g.nodes,
    decreases ids.len(),
{
    if ids.len() > 0 {
        lemma_redeps_nodes(g, ids.drop_last());
    }
}

/// An accepted harness commit extends the chain of graphs and of invalidation
/// sizes, and the graph still holds a body.
proof fn lemma_harness_step(g: SGraph, newp: Seq<SPatch>, before: SEngine, p: SPatch)
    requires
        before.graph == chain_graph(g, newp),
        p.delta is ReplaceBody,
        tbl_get(before.graph.nodes, delta_target(p.delta)) matches Some(SNode::Body { .. }),
        commit_s(before, p).1 is Ok,
    ensures
        commit_s(before, p).0.graph == chain_graph(g, newp.push(p)),
        chain_invalidated(g, newp.push(p)) == chain_invalidated(g, newp) + commit_s(
            before,
            p,
        ).1->Ok_0.invalidated.len(),
        has_body(commit_s(before, p).0.graph.nodes),
{
    let ps = newp.push(p);
    assert(ps.drop_last() == newp);
    assert(ps[ps.len() - 1] == p);
    let t = delta_target(p.delta);
    let nodes = before.graph.nodes;
    crate::graph::table::lemma_lower_bound(nodes, t);
    let k = lower_bound(nodes, t);
    assert(0 <= k < nodes.len() && nodes[k].0 == t);
    if let SDelta::ReplaceBody { node, ast } = p.delta {
        if let Some(SNode::Body { sig, .. }) = tbl_get(nodes, t) {
            let g1 = apply_s(before.graph, p.delta)->Ok_0;
            assert(g1.nodes == crate::graph::table::tbl_insert(nodes, t, SNode::Body { sig, ast }));
            assert(g1.nodes == nodes.update(k, (t, SNode::Body { sig, ast })));
            lemma_redeps_nodes(g1, seq![t]);
            assert(g1.nodes[k].1 is Body);
            assert(commit_s(before, p).0.graph.nodes == g1.nodes);
        }
    }
}

proof fn lemma_wrapping_sum(t: int, a: int, b: int, r: int)
    requires
        a >= 0,
        0 <= b < 0x1_0000_0000_0000_0000,
        t == a % 0x1_0000_0000_0000_0000,
        r == (if t + b >= 0x1_0000_0000_0000_0000 {
            t + b - 0x1_0000_0000_0000_0000
        } else {
            t + b
        }),
    ensures
        r == (a + b) % 0x1_0000_0000_0000_0000,
{
    let m: int = 0x1_0000_0000_0000_0000;
    vstd::arithmetic::div_mod::lemma_fundamental_div_mod(a, m);
    let q = a / m;
    assert(a == q * m + t);
    if t + b >= m {
        assert(a + b == (q + 1) * m + r) by (nonlinear_arith)
            requires
                a == q * m + t,
                r == t + b - m,
        ;
        vstd::arithmetic::div_mod::lemma_mod_multiples_vanish(q + 1, r, m);
        vstd::arithmetic::div_mod::lemma_small_mod(r as nat, m as nat);
    } else {
        vstd::arithmetic::div_mod::lemma_mod_multiples_vanish(q, r, m);
        vstd::arithmetic::div_mod::lemma_small_mod(r as nat, m as nat);
    }
}

/// The expression of the body `id` of `g` (a number when `id` is no body).
pub open spec fn body_ast_s(g: SGraph, id: u64) -> SExpr {
    match tbl_get(g.nodes, id) {
        Some(SNode::Body { ast, .. }) => ast,
        _ => SExpr::Number(0),
    }
}

/// The patch with which agent `agent` proposes `ast` as the new body `target`
/// on the head of `e`.
pub open spec fn agent_patch_s(e: SEngine, agent: nat, target: u64, ast: SExpr) -> SPatch {
    SPatch {
        id: e.next_patch_id,
        parent: e.head,
        scope: seq![target],
        delta: SDelta::ReplaceBody { node: target, ast },
        author: agent_name(agent),
        ts: None,
    }
}

/// The patch of one harness attempt with the given draws: the body at
/// `target_idx` among the graph's bodies, mutated by `mutation_s`.
pub open spec fn attempt_patch_s(
    e: SEngine,
    agent: nat,
    target_idx: int,
    kind: i32,
    path: Seq<usize>,
    value: i64,
    op: usize,
    k: i64,
    a: i64,
    b: i64,
) -> SPatch {
    let t = crate::graph::store::body_ids_s(e.graph.nodes)[target_idx];
    agent_patch_s(e, agent, t, mutation_s(body_ast_s(e.graph, t), kind, path, value, op, k, a, b))
}

/// One attempt of agent `agent_id` with its draws: the body at `target_idx`
/// among the graph's bodies is mutated as the draws say and proposed as a
/// patch on the head.
pub fn harness_attempt(
    engine: &mut Engine,
    agent_id: usize,
    target_idx: usize,
    kind: i32,
    path: &Vec<usize>,
    value: i64,
    op: usize,
    k: i64,
    a: i64,
    b: i64,
) -> (r: Result<crate::ledger::tx::CommitResult, TxError>)
    requires
        target_idx < crate::graph::store::body_ids_s(old(engine)@.graph.nodes).len(),
        old(engine)@.next_patch_id < u64::MAX,
    ensures
        final(engine)@ == commit_s(
            old(engine)@,
            attempt_patch_s(old(engine)@, agent_id as nat, target_idx as int, kind, path@, value, op, k, a, b),
        ).0,
        crate::ledger::tx::commit_view(r) == commit_s(
            old(engine)@,
            attempt_patch_s(old(engine)@, agent_id as nat, target_idx as int, kind, path@, value, op, k, a, b),
        ).1,
{
    let body_ids = engine.graph().body_node_ids();
    proof {
        assert(ids_view(body_ids@)[target_idx as int] == body_ids@[target_idx as int].0);
    }
    let target_id = body_ids[target_idx];
    assert(tbl_get(engine@.graph.nodes, target_id.0) matches Some(SNode::Body { .. }));
    let current_ast = match engine.graph().get(target_id) {
        Some(NodeKind::FuncBody { ast, .. }) => copy_expr(ast),
        // Not reached: the identifier came from the graph's bodies.
        _ => Expr::Number(0),
    };
    assert(current_ast@ == body_ast_s(engine@.graph, target_id.0));
    let new_ast = apply_mutation(&current_ast, kind, path, value, op, k, a, b);
    let patch = Patch {
        id: engine.next_patch_id(),
        parent_hash: engine.head_hash(),
        region_scope: vec![target_id],
        delta: StructuralDelta::ReplaceBody { node_id: target_id, new_ast },
        metadata: PatchMetadata { author: agent_label(agent_id), ts: None },
    };
    assert(patch@.scope =~= seq![target_id.0]);
    assert(patch@ == attempt_patch_s(engine@, agent_id as nat, target_idx as int, kind, path@, value, op, k, a, b));
    engine.commit(patch)
}

/// Runs `num_agents` agents, each making `total_mutations / num_agents`
/// attempts: an agent seeded with the BLAKE3 hash of its name draws the index
/// of a function body and a mutation of it (`draw_mutation`), and makes the
/// attempt that these draws determine (`harness_attempt`): the mutated body
/// proposed as a patch on the current head, signed with its name. Every
/// accepted patch's effects go to a no-op executor. Agents always build on
/// the head, so no patch is stale; every attempt keeps the engine consistent
/// with its genesis graph, and every patch it commits replaces a body by a
/// mutation of that body as it stood. When the graph holds a body every attempt
/// is counted as a commit or a rejection; the final graph is that of the
/// committed patches, and the invalidation total is the sum of their closures'
/// sizes, modulo 2^64.
#[verifier::rlimit(40)]
pub fn run_harness(engine: &mut Engine, num_agents: usize, total_mutations: usize) -> (stats:
    HarnessStats)
    requires
        num_agents > 0,
        old(engine)@.next_patch_id + total_mutations < u64::MAX,
    ensures
        stats.rejects_stale == 0,
        old(engine)@.in_flight == Set::<u64>::empty() ==> final(engine)@.in_flight == Set::<
            u64,
        >::empty(),
        has_body(old(engine)@.graph.nodes) ==> stats.commits + stats.rejects_conflict
            + stats.rejects_stale + stats.rejects_validation == num_agents * (total_mutations
            / num_agents),
        !has_body(old(engine)@.graph.nodes) ==> stats.commits + stats.rejects_conflict
            + stats.rejects_stale + stats.rejects_validation == 0,
        final(engine)@.graph == chain_graph(
            old(engine)@.graph,
            final(engine)@.patches.subrange(
                old(engine)@.patches.len() as int,
                final(engine)@.patches.len() as int,
            ),
        ),
        stats.total_invalidation_size == chain_invalidated(
            old(engine)@.graph,
            final(engine)@.patches.subrange(
                old(engine)@.patches.len() as int,
                final(engine)@.patches.len() as int,
            ),
        ) % 0x1_0000_0000_0000_0000,
        final(engine)@.patches.len() == old(engine)@.patches.len() + stats.commits,
        final(engine)@.next_patch_id == old(engine)@.next_patch_id + stats.commits,
        final(engine)@.patches.take(old(engine)@.patches.len() as int) == old(engine)@.patches,
        forall|k: int|
            old(engine)@.patches.len() <= k < final(engine)@.patches.len() ==> {
                &&& harness_patch(#[trigger] final(engine)@.patches[k], num_agents as nat)
                &&& final(engine)@.patches[k].id == old(engine)@.next_patch_id + (k
                    - old(engine)@.patches.len())
            },
        forall|g0: SGraph| #[trigger]
            ledger_consistent(old(engine)@, g0) ==> ledger_consistent(final(engine)@, g0),
        forall|g0: SGraph, k: int|
            ledger_consistent(old(engine)@, g0) && old(engine)@.patches.len() <= k
                && k < final(engine)@.patches.len() ==> #[trigger] mutates_body_at(
                g0,
                final(engine)@.patches,
                k,
            ),
{
    let executor = NoopExecutor;
    let ghost e0 = engine@;
    let mut commits: u64 = 0;
    let mut rejects_conflict: u64 = 0;
    let mut rejects_stale: u64 = 0;
    let mut rejects_validation: u64 = 0;
    let mut total_invalidation_size: u64 = 0;
    let mutations_per_agent = total_mutations / num_agents;
    let ghost per = mutations_per_agent as int;
    let mut agent_id: usize = 0;
    while agent_id < num_agents
        invariant
            0 <= agent_id <= num_agents,
            num_agents > 0,
            per == total_mutations / num_agents,
            mutations_per_agent == per,
            e0.next_patch_id + total_mutations < u64::MAX,
            commits + rejects_conflict + rejects_validation <= agent_id * per,
            has_body(e0.graph.nodes) ==> commits + rejects_conflict + rejects_validation
                == agent_id * per && has_body(engine@.graph.nodes),
            !has_body(e0.graph.nodes) ==> commits + rejects_conflict + rejects_validation == 0
                && engine@.graph == e0.graph,
            engine@.graph == chain_graph(
                e0.graph,
                engine@.patches.subrange(e0.patches.len() as int, engine@.patches.len() as int),
            ),
            total_invalidation_size == chain_invalidated(
                e0.graph,
                engine@.patches.subrange(e0.patches.len() as int, engine@.patches.len() as int),
            ) % 0x1_0000_0000_0000_0000,
            rejects_stale == 0,
            e0.in_flight == Set::<u64>::empty() ==> engine@.in_flight
                == Set::<u64>::empty(),
            engine@.next_patch_id == e0.next_patch_id + commits,
            engine@.patches.len() == e0.patches.len() + commits,
            engine@.patches.take(e0.patches.len() as int) == e0.patches,
            forall|k: int|
                e0.patches.len() <= k < engine@.patches.len() ==> {
                    &&& harness_patch(#[trigger] engine@.patches[k], num_agents as nat)
                    &&& engine@.patches[k].id == e0.next_patch_id + (k - e0.patches.len())
                },
            forall|g0: SGraph| #[trigger]
                ledger_consistent(e0, g0) ==> ledger_consistent(engine@, g0),
            forall|g0: SGraph, k: int|
                ledger_consistent(e0, g0) && e0.patches.len() <= k < engine@.patches.len()
                    ==> #[trigger] mutates_body_at(g0, engine@.patches, k),
        decreases num_agents - agent_id,
    {
        // Deterministic seed per agent.
        let label = agent_label(agent_id);
        let seed = crate::ledger::hash::Hash::of_str(label.as_str());
        let mut rng = seeded_rng(seed.0);
        let mut m: usize = 0;
        while m < mutations_per_agent
            invariant
                0 <= agent_id < num_agents,
                0 <= m <= mutations_per_agent,
                num_agents > 0,
                per == total_mutations / num_agents,
                mutations_per_agent == per,
                e0.next_patch_id + total_mutations < u64::MAX,
                commits + rejects_conflict + rejects_validation <= agent_id * per + m,
                has_body(e0.graph.nodes) ==> commits + rejects_conflict + rejects_validation
                    == agent_id * per + m && has_body(engine@.graph.nodes),
                !has_body(e0.graph.nodes) ==> commits + rejects_conflict + rejects_validation == 0
                    && engine@.graph == e0.graph,
                engine@.graph == chain_graph(
                    e0.graph,
                    engine@.patches.subrange(e0.patches.len() as int, engine@.patches.len() as int),
                ),
                total_invalidation_size == chain_invalidated(
                    e0.graph,
                    engine@.patches.subrange(e0.patches.len() as int, engine@.patches.len() as int),
                ) % 0x1_0000_0000_0000_0000,
                rejects_stale == 0,
                e0.in_flight == Set::<u64>::empty() ==> engine@.in_flight
                    == Set::<u64>::empty(),
                engine@.next_patch_id == e0.next_patch_id + commits,
                engine@.patches.len() == e0.patches.len() + commits,
                engine@.patches.take(e0.patches.len() as int) == e0.patches,
                forall|k: int|
                    e0.patches.len() <= k < engine@.patches.len() ==> {
                        &&& harness_patch(#[trigger] engine@.patches[k], num_agents as nat)
                        &&& engine@.patches[k].id == e0.next_patch_id + (k - e0.patches.len())
                    },
                forall|g0: SGraph| #[trigger]
                    ledger_consistent(e0, g0) ==> ledger_consistent(engine@, g0),
                forall|g0: SGraph, k: int|
                    ledger_consistent(e0, g0) && e0.patches.len() <= k < engine@.patches.len()
                        ==> #[trigger] mutates_body_at(g0, engine@.patches, k),
            ensures
                has_body(e0.graph.nodes) ==> m == mutations_per_agent,
            decreases mutations_per_agent - m,
        {
            proof {
                lemma_attempt_bound(
                    agent_id as int,
                    per,
                    m as int,
                    num_agents as int,
                    total_mutations as int,
                );
            }
            let body_ids = engine.graph().body_node_ids();
            if body_ids.len() == 0 {
                break;
            }
            // Pick a random body node.
            let target_idx = random_usize(&mut rng, 0, body_ids.len());
            proof {
                assert(ids_view(body_ids@)[target_idx as int] == body_ids@[target_idx as int].0);
            }
            let target_id = body_ids[target_idx];
            assert(tbl_get(engine@.graph.nodes, target_id.0) matches Some(SNode::Body { .. }));
            // Get its current expression and draw a mutation of it.
            let current_ast = match engine.graph().get(target_id) {
                Some(NodeKind::FuncBody { ast, .. }) => copy_expr(ast),
                _ => {
                    m += 1;
                    continue;
                },
            };
            let ghost prev_ast = current_ast@;
            assert(tbl_get(engine@.graph.nodes, target_id.0) matches Some(SNode::Body { ast: x, .. })
                && x == prev_ast);
            let (kind, path, value, op, k, a, b) = draw_mutation(&current_ast, &mut rng);
            let ghost before = engine@;
            let ghost p = attempt_patch_s(
                before,
                agent_id as nat,
                target_idx as int,
                kind,
                path@,
                value,
                op,
                k,
                a,
                b,
            );
            let ghost newp = before.patches.subrange(
                e0.patches.len() as int,
                before.patches.len() as int,
            );
            assert(prev_ast == body_ast_s(before.graph, target_id.0));
            assert(p.delta == SDelta::ReplaceBody {
                node: target_id.0,
                ast: mutation_s(prev_ast, kind, path@, value, op, k, a, b),
            });
            assert(mutation_of(prev_ast, mutation_s(prev_ast, kind, path@, value, op, k, a, b)));
            assert(p.parent == before.head);
            assert(p.scope =~= seq![delta_target(p.delta)]);
            assert(p.author == agent_name(agent_id as nat));
            assert(harness_patch(p, num_agents as nat));
            proof {
                if before.in_flight == Set::<u64>::empty() {
                    law_region_conflict_between_commits(before, p);
                }
            }
            let outcome = harness_attempt(engine, agent_id, target_idx, kind, &path, value, op, k, a, b);
            proof {
                assert forall|g0: SGraph| #[trigger]
                    ledger_consistent(e0, g0) implies ledger_consistent(engine@, g0) by {
                    law_commit_keeps_ledger_consistent(before, g0, p);
                }
                if commit_s(before, p).1 is Ok {
                    law_accepted_commit_appends(before, p);
                    lemma_harness_step(e0.graph, newp, before, p);
                    assert(engine@.patches.subrange(
                        e0.patches.len() as int,
                        engine@.patches.len() as int,
                    ) =~= newp.push(p));
                    let n = before.patches.len() as int;
                    assert forall|g0: SGraph, k: int|
                        ledger_consistent(e0, g0) && e0.patches.len() <= k
                            < engine@.patches.len() implies #[trigger] mutates_body_at(
                        g0,
                        engine@.patches,
                        k,
                    ) by {
                        if k < n {
                            assert(engine@.patches.take(k) =~= before.patches.take(k));
                            assert(engine@.patches[k] == before.patches[k]);
                            assert(mutates_body_at(g0, before.patches, k));
                        } else {
                            assert(engine@.patches.take(k) =~= before.patches);
                            assert(ledger_consistent(before, g0));
                            assert(engine@.patches[k] == p);
                        }
                    }
                    assert(engine@.patches.take(e0.patches.len() as int) =~= e0.patches) by {
                        assert(before.patches.take(e0.patches.len() as int) == e0.patches);
                        assert forall|k: int| 0 <= k < e0.patches.len() implies engine@.patches[k]
                            == before.patches[k] by {}
                    }
                } else {
                    law_refused_commit_changes_nothing(before, p);
                    assert(engine@.patches == before.patches);
                }
            }
            match outcome {
                Ok(result) => {
                    commits += 1;
                    let ghost t = total_invalidation_size;
                    let size = result.invalidated_nodes.len() as u64;
                    total_invalidation_size = total_invalidation_size.wrapping_add(size);
                    proof {
                        assert(size == commit_s(before, p).1->Ok_0.invalidated.len());
                        lemma_wrapping_sum(
                            t as int,
                            chain_invalidated(e0.graph, newp) as int,
                            size as int,
                            total_invalidation_size as int,
                        );
                    }
                    let _ = executor.execute(result.effects.as_slice());
                },
                Err(TxError::StaleParent { .. }) => {
                    rejects_stale += 1;
                },
                Err(TxError::RegionConflict) => {
                    rejects_conflict += 1;
                },
                Err(TxError::ValidationFailed(_)) => {
                    rejects_validation += 1;
                },
                Err(_) => {
                    rejects_validation += 1;
                },
            }
            m += 1;
        }
        proof {
            assert(agent_id * per + per == (agent_id + 1) * per) by (nonlinear_arith);
        }
        agent_id += 1;
    }
    HarnessStats {
        commits,
        rejects_conflict,
        rejects_stale,
        rejects_validation,
        total_invalidation_size,
    }
}

// ---------------------------------------------------------------------------
// Checking a replayed ledger
// ---------------------------------------------------------------------------

/// `genesis hash mismatch: computed <hash>, ledger has <hash>`
pub open spec fn genesis_mismatch_msg(computed: Seq<u8>, recorded: Seq<u8>) -> Seq<char> {
    "genesis hash mismatch: computed "@ + hex_text(computed) + ", ledger has "@ + hex_text(recorded)
}

/// Checks that a genesis graph has the hash a ledger records; returns the hash.
pub fn check_genesis(genesis: &GraphStore, recorded: &crate::ledger::hash::Hash) -> (r: Result<
    crate::ledger::hash::Hash,
    String,
>)
    ensures
        graph_hash(genesis@) == recorded@ ==> (r matches Ok(h) && h@ == recorded@),
        graph_hash(genesis@) != recorded@ ==> (r matches Err(m) && m@ == genesis_mismatch_msg(
            graph_hash(genesis@),
            recorded@,
        )),
{
    let h = hash_graph(genesis);
    if h.same(recorded) {
        Ok(h)
    } else {
        let mut m = String::from_str("genesis hash mismatch: computed ");
        push_all(&mut m, &h.to_hex());
        m.append(", ledger has ");
        push_all(&mut m, &recorded.to_hex());
        Err(m)
    }
}

/// `final graph hash mismatch: replay=<hash>, ledger=<hash>`
pub open spec fn final_mismatch_msg(replayed: Seq<u8>, recorded: Seq<u8>) -> Seq<char> {
    "final graph hash mismatch: replay="@ + hex_text(replayed) + ", ledger="@ + hex_text(recorded)
}

/// Checks that a replay ends at the head a ledger records.
pub fn check_final_hash(
    replayed: &crate::ledger::hash::Hash,
    recorded: &crate::ledger::hash::Hash,
) -> (r: Result<(), String>)
    ensures
        replayed@ == recorded@ ==> r is Ok,
        replayed@ != recorded@ ==> (r matches Err(m) && m@ == final_mismatch_msg(
            replayed@,
            recorded@,
        )),
{
    if replayed.same(recorded) {
        Ok(())
    } else {
        let mut m = String::from_str("final graph hash mismatch: replay=");
        push_all(&mut m, &replayed.to_hex());
        m.append(", ledger=");
        push_all(&mut m, &recorded.to_hex());
        Err(m)
    }
}

/// `effect log count mismatch: replay=<n>, ledger=<m>`
pub open spec fn count_mismatch_msg(replayed: nat, recorded: nat) -> Seq<char> {
    "effect log count mismatch: replay="@ + nat_text(replayed) + ", ledger="@ + nat_text(recorded)
}

/// `effect log hash mismatch at patch <i>: replay=<hash>, ledger=<hash>`
pub open spec fn hash_mismatch_msg(i: nat, replayed: Seq<u8>, recorded: Seq<u8>) -> Seq<char> {
    "effect log hash mismatch at patch "@ + nat_text(i) + ": replay="@ + hex_text(replayed)
        + ", ledger="@ + hex_text(recorded)
}

/// The first of the first `n` positions where the two logs differ, reported.
pub open spec fn logs_scan(a: Seq<Seq<u8>>, b: Seq<Seq<u8>>, n: nat) -> Result<(), Seq<char>>
    decreases n,
{
    if n == 0 {
        Ok(())
    } else {
        match logs_scan(a, b, (n - 1) as nat) {
            Err(m) => Err(m),
            Ok(_) => if a[n - 1] != b[n - 1] {
                Err(hash_mismatch_msg((n - 1) as nat, a[n - 1], b[n - 1]))
            } else {
                Ok(())
            },
        }
    }
}

/// Replayed effect-log hashes against recorded ones: the counts must agree,
/// then the first differing position is reported.
pub open spec fn logs_check(a: Seq<Seq<u8>>, b: Seq<Seq<u8>>) -> Result<(), Seq<char>> {
    if a.len() != b.len() {
        Err(count_mismatch_msg(a.len(), b.len()))
    } else {
        logs_scan(a, b, a.len())
    }
}

proof fn lemma_scan_err(a: Seq<Seq<u8>>, b: Seq<Seq<u8>>, k: nat, n: nat)
    requires
        k <= n,
        logs_scan(a, b, k) is Err,
    ensures
        logs_scan(a, b, n) == logs_scan(a, b, k),
    decreases n - k,
{
    if k < n {
        lemma_scan_err(a, b, k, (n - 1) as nat);
    }
}

/// Checks replayed effect-log hashes against those a ledger records.
pub fn check_effect_logs(
    replayed: &Vec<crate::ledger::hash::Hash>,
    recorded: &Vec<crate::ledger::hash::Hash>,
) -> (r: Result<(), String>)
    ensures
        match logs_check(
            crate::ledger::tx::hashes_view(replayed@),
            crate::ledger::tx::hashes_view(recorded@),
        ) {
            Ok(_) => r is Ok,
            Err(m) => r matches Err(e) && e@ == m,
        },
{
    let ghost a = crate::ledger::tx::hashes_view(replayed@);
    let ghost b = crate::ledger::tx::hashes_view(recorded@);
    if replayed.len() != recorded.len() {
        let mut m = String::from_str("effect log count mismatch: replay=");
        push_all(&mut m, &u64_to_text(replayed.len() as u64));
        m.append(", ledger=");
        push_all(&mut m, &u64_to_text(recorded.len() as u64));
        return Err(m);
    }
    let mut i: usize = 0;
    while i < replayed.len()
        invariant
            i <= replayed.len(),
            replayed.len() == recorded.len(),
            a == crate::ledger::tx::hashes_view(replayed@),
            b == crate::ledger::tx::hashes_view(recorded@),
            logs_scan(a, b, i as nat) is Ok,
        decreases replayed.len() - i,
    {
        if !replayed[i].same(&recorded[i]) {
            let mut m = String::from_str("effect log hash mismatch at patch ");
            push_all(&mut m, &u64_to_text(i as u64));
            m.append(": replay=");
            push_all(&mut m, &replayed[i].to_hex());
            m.append(", ledger=");
            push_all(&mut m, &recorded[i].to_hex());
            proof {
                assert(m@ =~= hash_mismatch_msg(i as nat, a[i as int], b[i as int]));
                lemma_scan_err(a, b, (i + 1) as nat, a.len());
            }
            return Err(m);
        }
        i += 1;
    }
    Ok(())
}

} // verus!
