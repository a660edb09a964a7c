use vstd::prelude::*;
use crate::graph::deps::extract_symbols;
use crate::graph::ids::NodeId;
use crate::graph::node::{NodeKind, SNode};
use crate::graph::store::{GraphStore, SGraph, find_body_s, lookup_sig_s};
use crate::graph::table::{ids_view, tbl_get};
use crate::lisp::ast::{Expr, SExpr, copy_expr, exprs_view, lemma_exprs_view};
use crate::lisp::effect::{Effect, SEffect, append_effects, effects_view};
use crate::lisp::eval::{SHalt, eval_global_spec, try_eval_global};
use crate::lisp::value::{
    Env, SEnv, SValue, Value, copy_env, copy_strings, strings_view, env_insert, lemma_entries_view, entries_view,
};
use crate::graph::invalidate::closure_s;
use crate::graph::store::{rebuild_s, redeps};
use crate::graph::table::{canon, lemma_canon};
use crate::ledger::delta::{SDelta, apply_s, delta_target};
use crate::ledger::hash::{effects_hash, graph_hash, hash_effects, hash_graph, hex_text};
use crate::ledger::patch::{Patch, SPatch, patches_view};
use crate::text::{is_word, nat_text, push_all};

verus! {

broadcast use vstd::std_specs::vec::group_vec_axioms;

// ---------------------------------------------------------------------------
// The evaluation environment of a graph
// ---------------------------------------------------------------------------

/// A closure for each signature with a body, in node order: its parameters,
/// its body's expression and an empty environment. A later signature of the
/// same name replaces an earlier one.
pub open spec fn lambdas_s(g: SGraph, t: Seq<(u64, SNode)>) -> SEnv
    decreases t.len(),
{
    if t.len() == 0 {
        Seq::empty()
    } else {
        let env = lambdas_s(g, t.drop_last());
        let e = t[t.len() - 1];
        match e.1 {
            SNode::Sig { name, args, .. } => match find_body_s(g, e.0) {
                Some((_, SNode::Body { ast, .. })) => env_insert(
                    env,
                    name,
                    SValue::Lambda { params: args, body: ast, env: Seq::empty() },
                ),
                _ => env,
            },
            _ => env,
        }
    }
}

/// A closure with its environment replaced by `env`.
pub open spec fn with_env(v: SValue, env: SEnv) -> SValue {
    match v {
        SValue::Lambda { params, body, .. } => SValue::Lambda { params, body, env },
        _ => v,
    }
}

/// Every closure of `env` given `env` itself as its environment, so that the
/// functions can call one another.
pub open spec fn close_env(env: SEnv) -> SEnv {
    env.map_values(|b: (Seq<char>, SValue)| (b.0, with_env(b.1, env)))
}

/// The environment in which a graph's function bodies are evaluated. It is
/// also their global environment: a name that a closure's own environment
/// does not bind is looked up there, so the functions can call themselves and
/// one another at any depth.
pub open spec fn eval_env_s(g: SGraph) -> SEnv {
    close_env(lambdas_s(g, g.nodes))
}

/// Builds the evaluation environment from all function definitions in the
/// graph; `eval_with_env` evaluates in it with it as the global environment.
pub fn build_eval_env(graph: &GraphStore) -> (env: Env)
    ensures
        env@ == eval_env_s(graph@),
{
    let mut env = Env::new();
    let nodes = graph.nodes();
    let ghost t = nodes@;
    let mut i: usize = 0;
    while i < nodes.entries.len()
        invariant
            i <= nodes.entries.len(),
            t == nodes@,
            t == graph@.nodes,
            t.len() == nodes.entries@.len(),
            env@ == lambdas_s(graph@, t.take(i as int)),
        decreases nodes.entries.len() - i,
    {
        proof {
            assert(t.take(i + 1).drop_last() == t.take(i as int));
            assert(t.take(i + 1)[i as int] == t[i as int]);
        }
        match &nodes.entries[i].1 {
            NodeKind::FuncSig { name, args, .. } => {
                match graph.find_body_for_sig(nodes.entries[i].0) {
                    Some((_, NodeKind::FuncBody { ast, .. })) => {
                        let lambda = Value::Lambda {
                            params: copy_strings(args),
                            body: Box::new(copy_expr(ast)),
                            env: Env::new(),
                        };
                        env.insert(name.clone(), lambda);
                    },
                    _ => {},
                }
            },
            _ => {},
        }
        i += 1;
    }
    assert(t.take(t.len() as int) == t);
    let snapshot = env;
    let ghost s = snapshot@;
    let mut out: Vec<(String, Value)> = Vec::new();
    let mut k: usize = 0;
    proof {
        lemma_entries_view(snapshot.entries@);
    }
    while k < snapshot.entries.len()
        invariant
            k <= snapshot.entries.len(),
            s == snapshot@,
            s.len() == snapshot.entries@.len(),
            forall|j: int|
                0 <= j < snapshot.entries@.len() ==> #[trigger] s[j] == (
                snapshot.entries@[j].0@,
                snapshot.entries@[j].1@,
            ),
            entries_view(out@) == close_env(s).take(k as int),
        decreases snapshot.entries.len() - k,
    {
        let key = snapshot.entries[k].0.clone();
        let v = match &snapshot.entries[k].1 {
            Value::Lambda { params, body, .. } => Value::Lambda {
                params: copy_strings(params),
                body: Box::new(copy_expr(body)),
                env: copy_env(&snapshot),
            },
            other => other.clone(),
        };
        let ghost prev = out@;
        let ghost kv = (key@, v@);
        assert(kv == close_env(s)[k as int]) by {
            assert(s[k as int] == (snapshot.entries@[k as int].0@, snapshot.entries@[k as int].1@));
        }
        out.push((key, v));
        proof {
            assert(out@.drop_last() == prev);
            assert(entries_view(out@) == entries_view(prev).push(kv));
            assert(close_env(s).take(k + 1) =~= close_env(s).take(k as int).push(close_env(s)[k as int]));
        }
        k += 1;
    }
    assert(close_env(s).take(s.len() as int) =~= close_env(s));
    Env { entries: out }
}

// ---------------------------------------------------------------------------
// Evaluating the invalidated function bodies
// ---------------------------------------------------------------------------

/// The identifiers of `inv` that name function bodies, in order.
pub open spec fn body_ids_in(g: SGraph, inv: Seq<u64>) -> Seq<u64>
    decreases inv.len(),
{
    if inv.len() == 0 {
        Seq::empty()
    } else {
        let r = body_ids_in(g, inv.drop_last());
        let x = inv[inv.len() - 1];
        if tbl_get(g.nodes, x) matches Some(SNode::Body { .. }) {
            r.push(x)
        } else {
            r
        }
    }
}

/// The bodies to evaluate: that of `main` alone when it is among the
/// invalidated nodes, else every invalidated body, in order.
pub open spec fn eval_targets(g: SGraph, inv: Seq<u64>) -> Seq<u64> {
    match lookup_sig_s(g, "main"@) {
        Some((sid, _)) => match find_body_s(g, sid) {
            Some((bid, _)) => if inv.contains(bid) {
                seq![bid]
            } else {
                body_ids_in(g, inv)
            },
            None => body_ids_in(g, inv),
        },
        None => body_ids_in(g, inv),
    }
}

/// The effect logs of the given bodies evaluated in `env`, which also serves
/// as the global functions, concatenated in
/// order; a body whose evaluation fails contributes nothing. `None` when an
/// evaluation does not complete.
pub open spec fn run_bodies(g: SGraph, ids: Seq<u64>, env: SEnv) -> Option<Seq<SEffect>>
    decreases ids.len(),
{
    if ids.len() == 0 {
        Some(Seq::empty())
    } else {
        match run_bodies(g, ids.drop_last(), env) {
            None => None,
            Some(log) => match tbl_get(g.nodes, ids[ids.len() - 1]) {
                Some(SNode::Body { ast, .. }) => match eval_global_spec(ast, env, env) {
                    Ok(r) => Some(log + r.effects),
                    Err(SHalt::Fail(_)) => Some(log),
                    Err(SHalt::Stuck) => None,
                },
                _ => Some(log),
            },
        }
    }
}

/// The effect log produced by evaluating the invalidated bodies of a graph.
pub open spec fn body_effects(g: SGraph, inv: Seq<u64>) -> Option<Seq<SEffect>> {
    run_bodies(g, eval_targets(g, inv), eval_env_s(g))
}

/// When the graph's `main` has a body among the invalidated nodes, the
/// effect log is that of evaluating `main`'s body alone: the same whichever
/// other nodes are invalidated, and nothing from any other body.
pub proof fn law_main_body_alone(g: SGraph, inv1: Seq<u64>, inv2: Seq<u64>, sid: u64, bid: u64)
    requires
        lookup_sig_s(g, "main"@) matches Some((x, _)) && x == sid,
        find_body_s(g, sid) matches Some((y, _)) && y == bid,
        inv1.contains(bid),
        inv2.contains(bid),
    ensures
        body_effects(g, inv1) == body_effects(g, inv2),
        body_effects(g, inv1) == (match tbl_get(g.nodes, bid) {
            Some(SNode::Body { ast, .. }) => match eval_global_spec(ast, eval_env_s(g), eval_env_s(g)) {
                Ok(r) => Some(r.effects),
                Err(SHalt::Fail(_)) => Some(Seq::<SEffect>::empty()),
                Err(SHalt::Stuck) => None,
            },
            _ => Some(Seq::<SEffect>::empty()),
        }),
{
    let ids = seq![bid];
    assert(eval_targets(g, inv1) == ids);
    assert(eval_targets(g, inv2) == ids);
    assert(ids.drop_last() =~= Seq::<u64>::empty());
    assert(run_bodies(g, ids.drop_last(), eval_env_s(g)) == Some(Seq::<SEffect>::empty()));
    if let Some(SNode::Body { ast, .. }) = tbl_get(g.nodes, bid) {
        if let Ok(r) = eval_global_spec(ast, eval_env_s(g), eval_env_s(g)) {
            assert(Seq::<SEffect>::empty() + r.effects =~= r.effects);
        }
    }
}

fn overlaps(a: &Vec<NodeId>, b: &Vec<NodeId>) -> (r: bool)
    ensures
        r == scopes_overlap(ids_view(a@), ids_view(b@)),
{
    let mut i: usize = 0;
    while i < b.len()
        invariant
            i <= b.len(),
            forall|k: int| 0 <= k < i ==> !ids_view(a@).contains(#[trigger] ids_view(b@)[k]),
        decreases b.len() - i,
    {
        if holds_id(a, b[i]) {
            assert(ids_view(b@)[i as int] == b@[i as int].0);
            return true;
        }
        assert(ids_view(b@)[i as int] == b@[i as int].0);
        i += 1;
    }
    false
}

/// Whether a committed patch conflicts with `p` (see `committed_conflict`).
fn conflicts_with_committed(ps: &Vec<Patch>, p: &Patch) -> (r: bool)
    ensures
        r == committed_conflict(patches_view(ps@), p@),
{
    let ghost qs = patches_view(ps@);
    let mut j: usize = 0;
    while j < ps.len()
        invariant
            j <= ps.len(),
            qs == patches_view(ps@),
            forall|k: int|
                0 <= k < j ==> !((#[trigger] qs[k]).parent == p@.parent && scopes_overlap(
                    qs[k].scope,
                    p@.scope,
                )),
        decreases ps.len() - j,
    {
        assert(qs[j as int] == ps@[j as int]@);
        if ps[j].parent_hash.same(&p.parent_hash) && overlaps(&ps[j].region_scope, &p.region_scope) {
            return true;
        }
        j += 1;
    }
    false
}

fn holds_id(s: &Vec<NodeId>, x: NodeId) -> (b: bool)
    ensures
        b == ids_view(s@).contains(x.0),
{
    let mut i: usize = 0;
    while i < s.len()
        invariant
            i <= s.len(),
            forall|j: int| 0 <= j < i ==> s@[j].0 != x.0,
        decreases s.len() - i,
    {
        if s[i].0 == x.0 {
            assert(ids_view(s@)[i as int] == x.0);
            return true;
        }
        i += 1;
    }
    assert forall|j: int| 0 <= j < ids_view(s@).len() implies ids_view(s@)[j] != x.0 by {
        assert(ids_view(s@)[j] == s@[j].0);
    }
    false
}

/// Evaluates the invalidated function bodies (that of `main` alone when it
/// is among them) and returns their effect logs, concatenated in order.
/// `None` when an evaluation does not complete.
pub(crate) fn evaluate_bodies(graph: &GraphStore, invalidated: &Vec<NodeId>) -> (r: Option<
    Vec<Effect>,
>)
    ensures
        match body_effects(graph@, ids_view(invalidated@)) {
            Some(log) => r matches Some(v) && effects_view(v@) == log,
            None => r is None,
        },
{
    let env = build_eval_env(graph);
    let ghost inv = ids_view(invalidated@);
    let mut body_ids: Vec<NodeId> = Vec::new();
    let mut i: usize = 0;
    while i < invalidated.len()
        invariant
            i <= invalidated.len(),
            inv == ids_view(invalidated@),
            ids_view(body_ids@) == body_ids_in(graph@, inv.take(i as int)),
        decreases invalidated.len() - i,
    {
        proof {
            assert(inv.take(i + 1).drop_last() == inv.take(i as int));
            assert(inv.take(i + 1)[i as int] == inv[i as int]);
        }
        let nid = invalidated[i];
        match graph.get(nid) {
            Some(NodeKind::FuncBody { .. }) => {
                body_ids.push(nid);
                assert(ids_view(body_ids@) =~= body_ids_in(graph@, inv.take(i as int)).push(nid.0));
            },
            _ => {},
        }
        i += 1;
    }
    assert(inv.take(inv.len() as int) == inv);
    match graph.lookup_sig("main") {
        Some((sid, _)) => match graph.find_body_for_sig(sid) {
            Some((bid, _)) => {
                if holds_id(invalidated, bid) {
                    body_ids = vec![bid];
                    assert(ids_view(body_ids@) =~= seq![bid.0]);
                }
            },
            None => {},
        },
        None => {},
    }
    let ghost ids = ids_view(body_ids@);
    assert(ids == eval_targets(graph@, inv));
    let mut all: Vec<Effect> = Vec::new();
    let mut k: usize = 0;
    while k < body_ids.len()
        invariant
            k <= body_ids.len(),
            ids == ids_view(body_ids@),
            ids == eval_targets(graph@, inv),
            inv == ids_view(invalidated@),
            env@ == eval_env_s(graph@),
            run_bodies(graph@, ids.take(k as int), env@) == Some(effects_view(all@)),
        decreases body_ids.len() - k,
    {
        proof {
            assert(ids.take(k + 1).drop_last() == ids.take(k as int));
            assert(ids.take(k + 1)[k as int] == ids[k as int]);
        }
        match graph.get(body_ids[k]) {
            Some(NodeKind::FuncBody { ast, .. }) => {
                match try_eval_global(ast, &env, &env) {
                    None => {
                        proof {
                            assert(run_bodies(graph@, ids.take(k + 1), env@) is None);
                            lemma_run_bodies_stuck(graph@, ids, k as int, env@);
                        }
                        return None;
                    },
                    Some(Ok(eff)) => {
                        append_effects(&mut all, eff.effects);
                    },
                    Some(Err(_)) => {},
                }
            },
            _ => {},
        }
        k += 1;
    }
    assert(ids.take(ids.len() as int) == ids);
    Some(all)
}

proof fn lemma_run_bodies_stuck(g: SGraph, ids: Seq<u64>, k: int, env: SEnv)
    requires
        0 <= k < ids.len(),
        run_bodies(g, ids.take(k + 1), env) is None,
    ensures
        run_bodies(g, ids, env) is None,
    decreases ids.len() - k,
{
    if k + 1 < ids.len() {
        assert(ids.take(k + 2).drop_last() == ids.take(k + 1));
        lemma_run_bodies_stuck(g, ids, k + 1, env);
    } else {
        assert(ids.take(k + 1) == ids);
    }
}

// ---------------------------------------------------------------------------
// Validation
// ---------------------------------------------------------------------------

/// The words of the language's special forms, builtins and literals.
pub open spec fn builtin_word(s: Seq<char>) -> bool {
    ||| s == "+"@
    ||| s == "-"@
    ||| s == "*"@
    ||| s == "="@
    ||| s == "<"@
    ||| s == "quote"@
    ||| s == "if"@
    ||| s == "lambda"@
    ||| s == "define"@
    ||| s == "let"@
    ||| s == "begin"@
    ||| s == "effect"@
    ||| s == "list"@
    ||| s == "car"@
    ||| s == "cdr"@
    ||| s == "cons"@
    ||| s == "null?"@
    ||| s == "not"@
    ||| s == "nil"@
    ||| s == "true"@
    ||| s == "false"@
}

fn is_builtin(name: &str) -> (b: bool)
    ensures
        b == builtin_word(name@),
{
    let n = String::from_str(name);
    is_word(&n, "+") || is_word(&n, "-") || is_word(&n, "*") || is_word(&n, "=") || is_word(
        &n,
        "<",
    ) || is_word(&n, "quote") || is_word(&n, "if") || is_word(&n, "lambda") || is_word(
        &n,
        "define",
    ) || is_word(&n, "let") || is_word(&n, "begin") || is_word(&n, "effect") || is_word(
        &n,
        "list",
    ) || is_word(&n, "car") || is_word(&n, "cdr") || is_word(&n, "cons") || is_word(&n, "null?")
        || is_word(&n, "not") || is_word(&n, "nil") || is_word(&n, "true") || is_word(&n, "false")
}

/// Whether node `nid` is consistent: it exists, and a body's signature exists
/// and is a signature.
pub open spec fn validate_node(g: SGraph, nid: u64) -> Result<(), Seq<char>> {
    match tbl_get(g.nodes, nid) {
        None => Err("node "@ + nat_text(nid as nat) + " does not exist after delta"@),
        Some(SNode::Body { sig, .. }) => match tbl_get(g.nodes, sig) {
            None => Err(
                "FuncBody "@ + nat_text(nid as nat) + " references non-existent sig "@ + nat_text(
                    sig as nat,
                ),
            ),
            Some(SNode::Sig { .. }) => Ok(()),
            Some(_) => Err(
                "FuncBody "@ + nat_text(nid as nat) + " references "@ + nat_text(sig as nat)
                    + " which is not a FuncSig"@,
            ),
        },
        Some(_) => Ok(()),
    }
}

/// The first inconsistency among the nodes `ids`, in order.
pub open spec fn validate_s(g: SGraph, ids: Seq<u64>) -> Result<(), Seq<char>>
    decreases ids.len(),
{
    if ids.len() == 0 {
        Ok(())
    } else {
        match validate_s(g, ids.drop_last()) {
            Err(m) => Err(m),
            Ok(_) => validate_node(g, ids[ids.len() - 1]),
        }
    }
}

proof fn lemma_validate_err(g: SGraph, ids: Seq<u64>, k: int, m: Seq<char>)
    requires
        0 <= k < ids.len(),
        validate_s(g, ids.take(k + 1)) == Err::<(), Seq<char>>(m),
    ensures
        validate_s(g, ids) == Err::<(), Seq<char>>(m),
    decreases ids.len() - k,
{
    if k + 1 < ids.len() {
        assert(ids.take(k + 2).drop_last() == ids.take(k + 1));
        lemma_validate_err(g, ids, k + 1, m);
    } else {
        assert(ids.take(k + 1) == ids);
    }
}

fn id_text(prefix: &str, id: NodeId) -> (s: String)
    ensures
        s@ == prefix@ + nat_text(id.0 as nat),
{
    let mut s = String::from_str(prefix);
    push_all(&mut s, &id.to_string());
    s
}

/// Validates that the graph is internally consistent after a delta.
fn validate(graph: &GraphStore, affected: &Vec<NodeId>) -> (r: Result<(), String>)
    ensures
        match validate_s(graph@, ids_view(affected@)) {
            Ok(_) => r is Ok,
            Err(m) => r matches Err(e) && e@ == m,
        },
{
    let ghost ids = ids_view(affected@);
    let mut i: usize = 0;
    while i < affected.len()
        invariant
            i <= affected.len(),
            ids == ids_view(affected@),
            validate_s(graph@, ids.take(i as int)) is Ok,
        decreases affected.len() - i,
    {
        let nid = affected[i];
        proof {
            assert(ids.take(i + 1).drop_last() == ids.take(i as int));
            assert(ids.take(i + 1)[i as int] == nid.0);
        }
        match graph.get(nid) {
            None => {
                let mut m = id_text("node ", nid);
                m.append(" does not exist after delta");
                proof {
                    lemma_validate_err(graph@, ids, i as int, m@);
                }
                return Err(m);
            },
            Some(NodeKind::FuncBody { sig_id, ast }) => {
                match graph.get(*sig_id) {
                    None => {
                        let mut m = id_text("FuncBody ", nid);
                        push_all(&mut m, &id_text(" references non-existent sig ", *sig_id));
                        assert(m@ =~= "FuncBody "@ + nat_text(nid.0 as nat)
                            + " references non-existent sig "@ + nat_text(sig_id.0 as nat));
                        proof {
                            lemma_validate_err(graph@, ids, i as int, m@);
                        }
                        return Err(m);
                    },
                    Some(NodeKind::FuncSig { .. }) => {},
                    Some(_) => {
                        let mut m = id_text("FuncBody ", nid);
                        push_all(&mut m, &id_text(" references ", *sig_id));
                        m.append(" which is not a FuncSig");
                        assert(m@ =~= "FuncBody "@ + nat_text(nid.0 as nat) + " references "@
                            + nat_text(sig_id.0 as nat) + " which is not a FuncSig"@);
                        proof {
                            lemma_validate_err(graph@, ids, i as int, m@);
                        }
                        return Err(m);
                    },
                }
                // Referenced names need not resolve: a symbol that is neither a
                // builtin nor a function name may be a variable.
                let symbols = extract_symbols(ast);
                let mut j: usize = 0;
                while j < symbols.len()
                    invariant
                        j <= symbols.len(),
                    decreases symbols.len() - j,
                {
                    if is_builtin(symbols[j].as_str()) {
                        j += 1;
                        continue;
                    }
                    j += 1;
                }
            },
            Some(_) => {},
        }
        i += 1;
    }
    assert(ids.take(ids.len() as int) == ids);
    Ok(())
}

// ---------------------------------------------------------------------------
// Transactions
// ---------------------------------------------------------------------------

/// Why a transaction was refused.
#[derive(Debug)]
pub enum TxError {
    StaleParent { expected: crate::ledger::hash::Hash, got: crate::ledger::hash::Hash },
    RegionConflict,
    DeltaFailed(String),
    ValidationFailed(String),
    EvalFailed(String),
}

/// The model of a refusal.
pub enum STxError {
    StaleParent { expected: Seq<u8>, got: Seq<u8> },
    RegionConflict,
    DeltaFailed(Seq<char>),
    ValidationFailed(Seq<char>),
    EvalFailed(Seq<char>),
}

impl View for TxError {
    type V = STxError;

    open spec fn view(&self) -> STxError {
        match *self {
            TxError::StaleParent { expected, got } => STxError::StaleParent {
                expected: expected@,
                got: got@,
            },
            TxError::RegionConflict => STxError::RegionConflict,
            TxError::DeltaFailed(m) => STxError::DeltaFailed(m@),
            TxError::ValidationFailed(m) => STxError::ValidationFailed(m@),
            TxError::EvalFailed(m) => STxError::EvalFailed(m@),
        }
    }
}

/// The message of a refusal.
pub open spec fn tx_error_text(e: STxError) -> Seq<char> {
    match e {
        STxError::StaleParent { expected, got } => "stale parent hash: expected "@ + hex_text(
            expected,
        ) + ", got "@ + hex_text(got),
        STxError::RegionConflict => "region conflict: overlapping scope with in-flight transaction"@,
        STxError::DeltaFailed(m) => "delta application failed: "@ + m,
        STxError::ValidationFailed(m) => "validation failed: "@ + m,
        STxError::EvalFailed(m) => "evaluation failed: "@ + m,
    }
}

impl TxError {
    /// The message that describes the refusal.
    pub fn message(&self) -> (s: String)
        ensures
            s@ == tx_error_text(self@),
    {
        match self {
            TxError::StaleParent { expected, got } => {
                let mut s = String::from_str("stale parent hash: expected ");
                push_all(&mut s, &expected.to_hex());
                s.append(", got ");
                push_all(&mut s, &got.to_hex());
                s
            },
            TxError::RegionConflict => String::from_str(
                "region conflict: overlapping scope with in-flight transaction",
            ),
            TxError::DeltaFailed(m) => {
                let mut s = String::from_str("delta application failed: ");
                push_all(&mut s, m);
                s
            },
            TxError::ValidationFailed(m) => {
                let mut s = String::from_str("validation failed: ");
                push_all(&mut s, m);
                s
            },
            TxError::EvalFailed(m) => {
                let mut s = String::from_str("evaluation failed: ");
                push_all(&mut s, m);
                s
            },
        }
    }
}

/// Result of a successful transaction commit.
#[derive(Debug)]
pub struct CommitResult {
    pub new_head_hash: crate::ledger::hash::Hash,
    pub effects: Vec<Effect>,
    pub effect_log_hash: crate::ledger::hash::Hash,
    /// The invalidated nodes, in ascending order.
    pub invalidated_nodes: Vec<NodeId>,
}

/// The model of a successful commit.
pub struct SCommit {
    pub new_head: Seq<u8>,
    pub effects: Seq<SEffect>,
    pub effect_log_hash: Seq<u8>,
    pub invalidated: Seq<u64>,
}

impl View for CommitResult {
    type V = SCommit;

    open spec fn view(&self) -> SCommit {
        SCommit {
            new_head: self.new_head_hash@,
            effects: effects_view(self.effects@),
            effect_log_hash: self.effect_log_hash@,
            invalidated: ids_view(self.invalidated_nodes@),
        }
    }
}

/// The model of a commit's outcome.
pub open spec fn commit_view(r: Result<CommitResult, TxError>) -> Result<SCommit, STxError> {
    match r {
        Ok(c) => Ok(c@),
        Err(e) => Err(e@),
    }
}

/// The model of the transaction engine.
pub struct SEngine {
    pub graph: SGraph,
    pub head: Seq<u8>,
    pub patches: Seq<SPatch>,
    pub effect_hashes: Seq<Seq<u8>>,
    pub in_flight: Set<u64>,
    pub next_patch_id: u64,
}

/// The models of a sequence of hashes.
pub open spec fn hashes_view(hs: Seq<crate::ledger::hash::Hash>) -> Seq<Seq<u8>> {
    hs.map_values(|h: crate::ledger::hash::Hash| h@)
}

/// The graph after a delta with the target's dependency edges recomputed.
pub open spec fn staged(g: SGraph, d: SDelta) -> Result<SGraph, Seq<char>> {
    match apply_s(g, d) {
        Ok(g1) => Ok(redeps(g1, seq![delta_target(d)])),
        Err(m) => Err(m),
    }
}

/// The nodes that a delta invalidates in the staged graph: its target and all
/// the target's transitive dependents, in ascending order.
pub open spec fn invalidated_by(g: SGraph, d: SDelta) -> Seq<u64> {
    canon(closure_s(g.rev, seq![delta_target(d)].to_set()))
}

/// Whether one of `scope` is in flight.
pub open spec fn scope_conflict(in_flight: Set<u64>, scope: Seq<u64>) -> bool {
    exists|i: int| 0 <= i < scope.len() && in_flight.contains(#[trigger] scope[i])
}

/// Whether the two scopes share a node.
pub open spec fn scopes_overlap(a: Seq<u64>, b: Seq<u64>) -> bool {
    exists|i: int| 0 <= i < b.len() && a.contains(#[trigger] b[i])
}

/// Whether a committed patch was made on the same parent as `p` and its scope
/// overlaps `p`'s: of two such patches only the first may commit.
pub open spec fn committed_conflict(ps: Seq<SPatch>, p: SPatch) -> bool {
    exists|j: int|
        0 <= j < ps.len() && (#[trigger] ps[j]).parent == p.parent && scopes_overlap(
            ps[j].scope,
            p.scope,
        )
}

/// The message of an evaluation that does not complete.
pub open spec fn eval_incomplete_msg() -> Seq<char> {
    "a body's evaluation overflowed an i64 or nested too deeply"@
}

/// What a commit does to the engine, and its outcome. The parent must be the
/// head, the scope must not overlap an in-flight one, nor that of a committed
/// patch made on the same parent, the delta must apply and
/// leave its target consistent, and the invalidated bodies' evaluation must
/// complete; then the rebuilt graph becomes the head, and the patch and the
/// effect log's hash are appended. A refused commit changes nothing but the
/// in-flight set, from which a refusal after the scope check removes the scope.
pub open spec fn commit_s(e: SEngine, p: SPatch) -> (SEngine, Result<SCommit, STxError>) {
    if p.parent != e.head {
        (e, Err(STxError::StaleParent { expected: e.head, got: p.parent }))
    } else if scope_conflict(e.in_flight, p.scope) || committed_conflict(e.patches, p) {
        (e, Err(STxError::RegionConflict))
    } else {
        let failed = SEngine {
            in_flight: e.in_flight.union(p.scope.to_set()).difference(p.scope.to_set()),
            ..e
        };
        match staged(e.graph, p.delta) {
            Err(m) => (failed, Err(STxError::DeltaFailed(m))),
            Ok(g2) => match validate_s(g2, seq![delta_target(p.delta)]) {
                Err(m) => (failed, Err(STxError::ValidationFailed(m))),
                Ok(_) => {
                    let inv = invalidated_by(g2, p.delta);
                    match body_effects(g2, inv) {
                        None => (failed, Err(STxError::EvalFailed(eval_incomplete_msg()))),
                        Some(log) => {
                            let g3 = rebuild_s(g2);
                            let h = graph_hash(g3);
                            let eh = effects_hash(log);
                            (
                                SEngine {
                                    graph: g3,
                                    head: h,
                                    patches: e.patches.push(p),
                                    effect_hashes: e.effect_hashes.push(eh),
                                    in_flight: Set::empty(),
                                    next_patch_id: (e.next_patch_id + 1) as u64,
                                },
                                Ok(
                                    SCommit {
                                        new_head: h,
                                        effects: log,
                                        effect_log_hash: eh,
                                        invalidated: inv,
                                    },
                                ),
                            )
                        },
                    }
                },
            },
        }
    }
}

/// The transaction engine. Owns the graph and ledger state.
#[derive(Debug)]
pub struct Engine {
    pub graph: GraphStore,
    pub head_hash: crate::ledger::hash::Hash,
    pub patches: Vec<Patch>,
    pub effect_log_hashes: Vec<crate::ledger::hash::Hash>,
    in_flight_scopes: Vec<NodeId>,
    next_patch_id: u64,
}

impl View for Engine {
    type V = SEngine;

    closed spec fn view(&self) -> SEngine {
        SEngine {
            graph: self.graph@,
            head: self.head_hash@,
            patches: patches_view(self.patches@),
            effect_hashes: hashes_view(self.effect_log_hashes@),
            in_flight: ids_view(self.in_flight_scopes@).to_set(),
            next_patch_id: self.next_patch_id,
        }
    }
}

fn remove_id(s: &mut Vec<NodeId>, x: NodeId)
    ensures
        ids_view(final(s)@).to_set() == ids_view(old(s)@).to_set().remove(x.0),
{
    let mut out: Vec<NodeId> = Vec::new();
    let mut i: usize = 0;
    while i < s.len()
        invariant
            i <= s.len(),
            ids_view(out@).to_set() == ids_view(s@.take(i as int)).to_set().remove(x.0),
        decreases s.len() - i,
    {
        let ghost before = ids_view(out@);
        if s[i].0 != x.0 {
            out.push(s[i]);
            assert(ids_view(out@) =~= before.push(s[i as int].0));
            proof {
                before.lemma_push_to_set_commute(s[i as int].0);
            }
        }
        proof {
            ids_view(s@.take(i as int)).lemma_push_to_set_commute(s[i as int].0);
        }
        assert(ids_view(s@.take(i + 1)) =~= ids_view(s@.take(i as int)).push(s[i as int].0));
        assert(ids_view(out@).to_set() =~= ids_view(s@.take(i + 1)).to_set().remove(x.0));
        i += 1;
    }
    assert(s@.take(s.len() as int) == s@);
    *s = out;
}

impl Engine {
    fn clear_in_flight(&mut self, scope: &Vec<NodeId>)
        ensures
            final(self)@ == (SEngine {
                in_flight: old(self)@.in_flight.difference(ids_view(scope@).to_set()),
                ..old(self)@
            }),
    {
            let ghost sc = ids_view(scope@);
        let mut i: usize = 0;
        assert(old(self)@.in_flight.difference(sc.take(0).to_set()) =~= old(self)@.in_flight);
        while i < scope.len()
            invariant
                i <= scope.len(),
                sc == ids_view(scope@),
                self@ == (SEngine {
                    in_flight: old(self)@.in_flight.difference(sc.take(i as int).to_set()),
                    ..old(self)@
                }),
            decreases scope.len() - i,
        {
            remove_id(&mut self.in_flight_scopes, scope[i]);
            assert(sc.take(i + 1) == sc.take(i as int).push(sc[i as int]));
            proof {
                sc.take(i as int).lemma_push_to_set_commute(sc[i as int]);
            }
            assert(old(self)@.in_flight.difference(sc.take(i + 1).to_set()) =~= old(
                self,
            )@.in_flight.difference(sc.take(i as int).to_set()).remove(scope@[i as int].0));
            i += 1;
        }
        assert(sc.take(sc.len() as int) == sc);
    }
}

/// The engine over a genesis graph: the graph's hash is the head, and no
/// patch has been committed.
pub open spec fn genesis_engine(g: SGraph) -> SEngine {
    SEngine {
        graph: g,
        head: graph_hash(g),
        patches: Seq::empty(),
        effect_hashes: Seq::empty(),
        in_flight: Set::empty(),
        next_patch_id: 1,
    }
}

/// The model of an empty graph store.
pub open spec fn empty_graph() -> SGraph {
    SGraph {
        nodes: Seq::empty(),
        names: Seq::empty(),
        fwd: Seq::empty(),
        rev: Seq::empty(),
        next_id: 1,
    }
}

impl Engine {
    /// Creates a new engine with an empty graph.
    pub fn new() -> (e: Engine)
        ensures
            e@ == genesis_engine(empty_graph()),
    {
        let graph = GraphStore::new();
        let head_hash = hash_graph(&graph);
        let e = Engine {
            graph,
            head_hash,
            patches: Vec::new(),
            effect_log_hashes: Vec::new(),
            in_flight_scopes: Vec::new(),
            next_patch_id: 1,
        };
        assert(e@.patches =~= Seq::<SPatch>::empty());
        assert(e@.effect_hashes =~= Seq::<Seq<u8>>::empty());
        assert(e@.in_flight =~= Set::<u64>::empty());
        e
    }

    /// Creates an engine from an existing graph (genesis), whose dependency
    /// edges are rebuilt first.
    pub fn from_graph(graph: GraphStore) -> (e: Engine)
        ensures
            e@ == genesis_engine(rebuild_s(graph@)),
    {
        let mut graph = graph;
        graph.rebuild_all_deps();
        let head_hash = hash_graph(&graph);
        let e = Engine {
            graph,
            head_hash,
            patches: Vec::new(),
            effect_log_hashes: Vec::new(),
            in_flight_scopes: Vec::new(),
            next_patch_id: 1,
        };
        assert(e@.patches =~= Seq::<SPatch>::empty());
        assert(e@.effect_hashes =~= Seq::<Seq<u8>>::empty());
        assert(e@.in_flight =~= Set::<u64>::empty());
        e
    }

    /// The current head hash.
    pub fn head_hash(&self) -> (h: crate::ledger::hash::Hash)
        ensures
            h@ == self@.head,
    {
        self.head_hash
    }

    /// The identifier the next patch should carry.
    pub fn next_patch_id(&self) -> (n: u64)
        ensures
            n == self@.next_patch_id,
    {
        self.next_patch_id
    }

    /// The current graph.
    pub fn graph(&self) -> (g: &GraphStore)
        ensures
            g@ == self@.graph,
    {
        &self.graph
    }

    /// The committed patches, in commit order.
    pub fn patches(&self) -> (ps: &Vec<Patch>)
        ensures
            patches_view(ps@) == self@.patches,
    {
        &self.patches
    }

    /// The hashes of the committed patches' effect logs, in commit order.
    pub fn effect_log_hashes(&self) -> (hs: &Vec<crate::ledger::hash::Hash>)
        ensures
            hashes_view(hs@) == self@.effect_hashes,
    {
        &self.effect_log_hashes
    }

    /// Attempts to commit a patch: see `commit_s` for what it does.
    pub fn commit(&mut self, patch: Patch) -> (r: Result<CommitResult, TxError>)
        requires
            old(self)@.next_patch_id < u64::MAX,
        ensures
            final(self)@ == commit_s(old(self)@, patch@).0,
            commit_view(r) == commit_s(old(self)@, patch@).1,
    {
        let ghost e = self@;
        let ghost p = patch@;
        // 1. The parent must be the head.
        if !patch.parent_hash.same(&self.head_hash) {
            return Err(TxError::StaleParent { expected: self.head_hash, got: patch.parent_hash });
        }
        // 2. The scope must not overlap an in-flight one.
        let mut i: usize = 0;
        while i < patch.region_scope.len()
            invariant
                i <= patch.region_scope.len(),
                self@ == e,
                p == patch@,
                p.parent == e.head,
                forall|k: int| 0 <= k < i ==> !e.in_flight.contains(#[trigger] p.scope[k]),
            decreases patch.region_scope.len() - i,
        {
            if holds_id(&self.in_flight_scopes, patch.region_scope[i]) {
                assert(e.in_flight.contains(p.scope[i as int]));
                assert(scope_conflict(e.in_flight, p.scope));
                return Err(TxError::RegionConflict);
            }
            i += 1;
        }
        assert(!scope_conflict(e.in_flight, p.scope));
        // Nor that of a committed patch made on the same parent.
        if conflicts_with_committed(&self.patches, &patch) {
            return Err(TxError::RegionConflict);
        }
        // The scope is in flight until the commit ends.
        let ghost sc = p.scope;
        let mut k: usize = 0;
        assert(e.in_flight.union(sc.take(0).to_set()) =~= e.in_flight);
        while k < patch.region_scope.len()
            invariant
                k <= patch.region_scope.len(),
                p == patch@,
                sc == p.scope,
                self@ == (SEngine { in_flight: e.in_flight.union(sc.take(k as int).to_set()), ..e }),
            decreases patch.region_scope.len() - k,
        {
            let ghost before = ids_view(self.in_flight_scopes@);
            proof {
                assert(sc.take(k + 1) == sc.take(k as int).push(sc[k as int]));
                sc.take(k as int).lemma_push_to_set_commute(sc[k as int]);
                before.lemma_push_to_set_commute(sc[k as int]);
            }
            self.in_flight_scopes.push(patch.region_scope[k]);
            assert(ids_view(self.in_flight_scopes@) =~= before.push(sc[k as int]));
            assert(self@.in_flight =~= e.in_flight.union(sc.take(k + 1).to_set()));
            k += 1;
        }
        assert(sc.take(sc.len() as int) == sc);
        let ghost failed = SEngine {
            in_flight: e.in_flight.union(sc.to_set()).difference(sc.to_set()),
            ..e
        };
        // 3. Apply the delta to a copy of the graph.
        let mut spec_graph = self.graph.clone();
        match patch.delta.apply(&mut spec_graph) {
            Err(m) => {
                self.clear_in_flight(&patch.region_scope);
                assert(self@ == failed);
                return Err(TxError::DeltaFailed(m));
            },
            Ok(()) => {},
        }
        // 4. Rebuild the affected nodes' edges and compute the invalidation closure.
        let affected = patch.delta.affected_node_ids();
        spec_graph.rebuild_deps_for(affected.as_slice());
        let invalidated = spec_graph.invalidation_closure(&affected);
        let ghost g2 = spec_graph@;
        assert(staged(e.graph, p.delta) == Ok::<SGraph, Seq<char>>(g2));
        proof {
            lemma_canon(ids_view(invalidated@));
            assert(ids_view(affected@).to_set() == seq![delta_target(p.delta)].to_set());
        }
        assert(ids_view(invalidated@) == invalidated_by(g2, p.delta));
        // 5. Validate.
        match validate(&spec_graph, &affected) {
            Err(m) => {
                self.clear_in_flight(&patch.region_scope);
                assert(self@ == failed);
                return Err(TxError::ValidationFailed(m));
            },
            Ok(()) => {},
        }
        // 6. Evaluate the invalidated bodies.
        let effects = match evaluate_bodies(&spec_graph, &invalidated) {
            Some(log) => log,
            None => {
                self.clear_in_flight(&patch.region_scope);
                assert(self@ == failed);
                return Err(TxError::EvalFailed(String::from_str(
                    "a body's evaluation overflowed an i64 or nested too deeply",
                )));
            },
        };
        // 7. Commit.
        let effect_log_hash = hash_effects(effects.as_slice());
        spec_graph.rebuild_all_deps();
        let new_hash = hash_graph(&spec_graph);
        self.graph = spec_graph;
        self.head_hash = new_hash;
        self.patches.push(patch);
        self.effect_log_hashes.push(effect_log_hash);
        self.in_flight_scopes = Vec::new();
        self.next_patch_id = self.next_patch_id + 1;
        proof {
            assert(patches_view(self.patches@) =~= e.patches.push(p));
            assert(hashes_view(self.effect_log_hashes@) =~= e.effect_hashes.push(effect_log_hash@));
            assert(self@.in_flight =~= Set::<u64>::empty());
        }
        Ok(
            CommitResult {
                new_head_hash: new_hash,
                effects,
                effect_log_hash,
                invalidated_nodes: invalidated,
            },
        )
    }
}

/// A patch whose parent is not the head is refused as stale, naming the head
/// as expected and the patch's parent as got, and the engine is unchanged.
pub proof fn law_stale_parent_rejected(e: SEngine, p: SPatch)
    requires
        p.parent != e.head,
    ensures
        commit_s(e, p) == (e, Err::<SCommit, STxError>(
            STxError::StaleParent { expected: e.head, got: p.parent },
        )),
{
}

/// A refused commit is atomic: the graph, the head, the committed patches, the
/// effect-log hashes and the next patch identifier stay as they were.
pub proof fn law_refused_commit_changes_nothing(e: SEngine, p: SPatch)
    requires
        commit_s(e, p).1 is Err,
    ensures
        commit_s(e, p).0.graph == e.graph,
        commit_s(e, p).0.head == e.head,
        commit_s(e, p).0.patches == e.patches,
        commit_s(e, p).0.effect_hashes == e.effect_hashes,
        commit_s(e, p).0.next_patch_id == e.next_patch_id,
{
}

/// An accepted commit appends exactly its patch and its effect log's hash, and
/// its new head is the hash of the new graph.
pub proof fn law_accepted_commit_appends(e: SEngine, p: SPatch)
    requires
        commit_s(e, p).1 is Ok,
    ensures
        commit_s(e, p).0.patches == e.patches.push(p),
        commit_s(e, p).0.effect_hashes == e.effect_hashes.push(
            commit_s(e, p).1->Ok_0.effect_log_hash,
        ),
        commit_s(e, p).0.head == graph_hash(commit_s(e, p).0.graph),
        commit_s(e, p).1->Ok_0.new_head == commit_s(e, p).0.head,
        commit_s(e, p).1->Ok_0.effect_log_hash == effects_hash(commit_s(e, p).1->Ok_0.effects),
{
}

/// Between commits no scope is in flight, and none is left in flight by a
/// commit; so a patch on the head is refused for a region conflict exactly
/// when a committed patch made on the same parent overlaps its scope.
pub proof fn law_region_conflict_between_commits(e: SEngine, p: SPatch)
    requires
        e.in_flight == Set::<u64>::empty(),
    ensures
        p.parent == e.head ==> ((commit_s(e, p).1 matches Err(STxError::RegionConflict))
            <==> committed_conflict(e.patches, p)),
        commit_s(e, p).0.in_flight == Set::<u64>::empty(),
{
    assert(e.in_flight.union(p.scope.to_set()).difference(p.scope.to_set()) =~= Set::<
        u64,
    >::empty());
}

/// Two patches made on the same parent whose scopes overlap cannot both
/// commit: once the first has committed, the second is refused.
pub proof fn law_overlapping_patches_not_both_commit(e: SEngine, p1: SPatch, p2: SPatch, n: u64)
    requires
        p1.parent == p2.parent,
        0 <= n < p2.scope.len(),
        p1.scope.contains(p2.scope[n as int]),
        commit_s(e, p1).1 is Ok,
    ensures
        commit_s(commit_s(e, p1).0, p2).1 is Err,
{
    let e1 = commit_s(e, p1).0;
    assert(e1.patches == e.patches.push(p1));
    let j = e.patches.len() as int;
    assert(e1.patches[j] == p1);
    assert(scopes_overlap(p1.scope, p2.scope));
    assert(committed_conflict(e1.patches, p2));
}

fn copy_hashes(hs: &Vec<crate::ledger::hash::Hash>) -> (r: Vec<crate::ledger::hash::Hash>)
    ensures
        hashes_view(r@) == hashes_view(hs@),
{
    let mut out: Vec<crate::ledger::hash::Hash> = Vec::new();
    let mut i: usize = 0;
    while i < hs.len()
        invariant
            i <= hs.len(),
            out@.len() == i,
            forall|k: int| 0 <= k < i ==> #[trigger] out@[k]@ == hs@[k]@,
        decreases hs.len() - i,
    {
        out.push(hs[i]);
        i += 1;
    }
    assert(hashes_view(out@) =~= hashes_view(hs@));
    out
}

impl Clone for Engine {
    fn clone(&self) -> (r: Self)
        ensures
            r@ == self@,
    {
        let in_flight = crate::graph::table::copy_ids(&self.in_flight_scopes);
        Engine {
            graph: self.graph.clone(),
            head_hash: self.head_hash,
            patches: crate::ledger::patch::copy_patches(&self.patches),
            effect_log_hashes: copy_hashes(&self.effect_log_hashes),
            in_flight_scopes: in_flight,
            next_patch_id: self.next_patch_id,
        }
    }
}

impl Default for Engine {
    fn default() -> (e: Self)
        ensures
            e@ == genesis_engine(empty_graph()),
    {
        Self::new()
    }
}

impl Clone for CommitResult {
    fn clone(&self) -> (r: Self)
        ensures
            r@ == self@,
    {
        CommitResult {
            new_head_hash: self.new_head_hash,
            effects: crate::lisp::effect::copy_effects(&self.effects),
            effect_log_hash: self.effect_log_hash,
            invalidated_nodes: crate::graph::table::copy_ids(&self.invalidated_nodes),
        }
    }
}

/// A function body as a lambda expression over its signature's parameters:
/// `(lambda (<params>) <body>)`.
pub open spec fn callable_s(sig: SNode, body: SExpr) -> Option<
    SExpr,
> {
    match sig {
        SNode::Sig { args, .. } => Some(
            SExpr::List(
                seq![
                    SExpr::Symbol("lambda"@),
                    SExpr::List(
                        args.map_values(|a: Seq<char>| SExpr::Symbol(a)),
                    ),
                    body,
                ],
            ),
        ),
        _ => None,
    }
}

/// Converts a function body into a callable form with its signature's
/// parameters; `None` when `sig` is not a signature.
fn _make_callable(sig: &NodeKind, body_ast: &Expr) -> (r: Option<Expr>)
    ensures
        match callable_s(sig@, body_ast@) {
            Some(e) => r matches Some(x) && x@ == e,
            None => r is None,
        },
{
    match sig {
        NodeKind::FuncSig { args, .. } => {
            let mut params: Vec<Expr> = Vec::new();
            let mut i: usize = 0;
            while i < args.len()
                invariant
                    i <= args.len(),
                    exprs_view(params@) == strings_view(
                        args@,
                    ).take(i as int).map_values(|a: Seq<char>| SExpr::Symbol(a)),
                decreases args.len() - i,
            {
                let ghost before = params@;
                let name = args[i].clone();
                assert(name@ == args@[i as int]@);
                let item = Expr::Symbol(name);
                assert(item@ == SExpr::Symbol(args@[i as int]@));
                params.push(item);
                assert(params@.drop_last() == before);
                assert(params@[params@.len() - 1]@ == SExpr::Symbol(args@[i as int]@));
                assert(exprs_view(params@) == exprs_view(before).push(SExpr::Symbol(args@[i as int]@)));
                assert(strings_view(args@).take(i + 1) =~= strings_view(args@).take(i as int).push(args@[i as int]@));
                assert(exprs_view(params@) =~= strings_view(args@).take(i + 1).map_values(|a: Seq<char>| SExpr::Symbol(a)));
                i += 1;
            }
            assert(strings_view(args@).take(args.len() as int) == strings_view(args@));
            let items = vec![Expr::Symbol(String::from_str("lambda")), Expr::List(params), copy_expr(body_ast)];
            let r = Expr::List(items);
            proof {
                lemma_exprs_view(items@);
                assert(exprs_view(items@) =~= seq![
                    SExpr::Symbol("lambda"@),
                    SExpr::List(strings_view(args@).map_values(|a: Seq<char>| SExpr::Symbol(a))),
                    body_ast@,
                ]);
            }
            Some(r)
        },
        _ => None,
    }
}

} // verus!
