use vstd::prelude::*;
use crate::graph::store::{GraphStore, SGraph, rebuild_s};
use crate::ledger::hash::{effects_hash, graph_hash, hash_effects, hash_graph, hex_text};
use crate::ledger::patch::{Patch, SPatch, patches_view};
use crate::ledger::tx::{
    SEngine, body_effects, commit_s, empty_graph, eval_incomplete_msg, evaluate_bodies,
    genesis_engine, hashes_view, invalidated_by, staged,
};
use crate::graph::table::{ids_view, lemma_canon};
use crate::ledger::delta::delta_target;
use crate::text::{nat_text, push_all, u64_to_text};

verus! {

broadcast use vstd::std_specs::vec::group_vec_axioms;

/// Result of replaying a ledger.
#[derive(Debug)]
pub struct ReplayResult {
    pub final_graph_hash: crate::ledger::hash::Hash,
    pub effect_log_hashes: Vec<crate::ledger::hash::Hash>,
    pub patches_applied: usize,
}

/// The model of a replay's result.
pub struct SReplay {
    pub final_hash: Seq<u8>,
    pub effect_hashes: Seq<Seq<u8>>,
    pub applied: nat,
}

impl View for ReplayResult {
    type V = SReplay;

    open spec fn view(&self) -> SReplay {
        SReplay {
            final_hash: self.final_graph_hash@,
            effect_hashes: hashes_view(self.effect_log_hashes@),
            applied: self.patches_applied as nat,
        }
    }
}

/// `patch <i> parent hash mismatch: expected <hash>, got <hash>`
pub open spec fn parent_mismatch_msg(i: nat, expected: Seq<u8>, got: Seq<u8>) -> Seq<char> {
    "patch "@ + nat_text(i) + " parent hash mismatch: expected "@ + hex_text(expected) + ", got "@
        + hex_text(got)
}

/// `patch <i> delta failed: <message>`
pub open spec fn delta_failed_msg(i: nat, m: Seq<char>) -> Seq<char> {
    "patch "@ + nat_text(i) + " delta failed: "@ + m
}

/// `patch <i> evaluation failed: <message>`
pub open spec fn eval_failed_msg(i: nat) -> Seq<char> {
    "patch "@ + nat_text(i) + " evaluation failed: "@ + eval_incomplete_msg()
}

/// Replaying patch number `i` on graph `g`: its parent must be `g`'s hash; its
/// delta is applied, the invalidated bodies are evaluated, and the rebuilt
/// graph comes with the effect log's hash.
pub open spec fn replay_step(g: SGraph, i: nat, p: SPatch) -> Result<(SGraph, Seq<u8>), Seq<char>> {
    let h = graph_hash(g);
    if p.parent != h {
        Err(parent_mismatch_msg(i, h, p.parent))
    } else {
        match staged(g, p.delta) {
            Err(m) => Err(delta_failed_msg(i, m)),
            Ok(g2) => match body_effects(g2, invalidated_by(g2, p.delta)) {
                None => Err(eval_failed_msg(i)),
                Some(log) => Ok((rebuild_s(g2), effects_hash(log))),
            },
        }
    }
}

/// Replaying patches in order from a genesis graph (whose edges are rebuilt
/// first): the final graph and each patch's effect-log hash, or the first
/// failure's message.
pub open spec fn replay_run(g0: SGraph, ps: Seq<SPatch>) -> Result<
    (SGraph, Seq<Seq<u8>>),
    Seq<char>,
>
    decreases ps.len(),
{
    if ps.len() == 0 {
        Ok((rebuild_s(g0), Seq::empty()))
    } else {
        match replay_run(g0, ps.drop_last()) {
            Err(m) => Err(m),
            Ok((g, hs)) => match replay_step(g, (ps.len() - 1) as nat, ps[ps.len() - 1]) {
                Err(m) => Err(m),
                Ok((g2, h)) => Ok((g2, hs.push(h))),
            },
        }
    }
}

/// The model of a replay's outcome.
pub open spec fn replay_s(g0: SGraph, ps: Seq<SPatch>) -> Result<SReplay, Seq<char>> {
    match replay_run(g0, ps) {
        Ok((g, hs)) => Ok(SReplay { final_hash: graph_hash(g), effect_hashes: hs, applied: ps.len() }),
        Err(m) => Err(m),
    }
}

proof fn lemma_replay_err(g0: SGraph, ps: Seq<SPatch>, k: int, m: Seq<char>)
    requires
        0 <= k < ps.len(),
        replay_run(g0, ps.take(k + 1)) == Err::<(SGraph, Seq<Seq<u8>>), Seq<char>>(m),
    ensures
        replay_run(g0, ps) == Err::<(SGraph, Seq<Seq<u8>>), Seq<char>>(m),
    decreases ps.len() - k,
{
    if k + 1 < ps.len() {
        assert(ps.take(k + 2).drop_last() == ps.take(k + 1));
        lemma_replay_err(g0, ps, k + 1, m);
    } else {
        assert(ps.take(k + 1) == ps);
    }
}

fn patch_prefix(i: usize) -> (s: String)
    ensures
        s@ == "patch "@ + nat_text(i as nat),
{
    let mut s = String::from_str("patch ");
    push_all(&mut s, &u64_to_text(i as u64));
    s
}

/// Replays a ledger from a genesis graph, applying patches sequentially.
/// Returns the final graph hash and per-patch effect-log hashes.
pub fn replay(genesis: GraphStore, patches: &[Patch]) -> (r: Result<ReplayResult, String>)
    ensures
        match replay_s(genesis@, patches_view(patches@)) {
            Ok(x) => r matches Ok(y) && y@ == x,
            Err(m) => r matches Err(e) && e@ == m,
        },
{
    let ghost g0 = genesis@;
    let ghost ps = patches_view(patches@);
    let mut graph = genesis;
    graph.rebuild_all_deps();
    let mut current_hash = hash_graph(&graph);
    let mut effect_log_hashes: Vec<crate::ledger::hash::Hash> = Vec::new();
    let mut i: usize = 0;
    assert(ps.take(0) =~= Seq::<SPatch>::empty());
    assert(hashes_view(effect_log_hashes@) =~= Seq::<Seq<u8>>::empty());
    while i < patches.len()
        invariant
            i <= patches.len(),
            g0 == genesis@,
            ps == patches_view(patches@),
            ps.len() == patches@.len(),
            replay_run(g0, ps.take(i as int)) == Ok::<(SGraph, Seq<Seq<u8>>), Seq<char>>(
                (graph@, hashes_view(effect_log_hashes@)),
            ),
            current_hash@ == graph_hash(graph@),
        decreases patches.len() - i,
    {
        let patch = &patches[i];
        let ghost p = ps[i as int];
        proof {
            assert(ps.take(i + 1).drop_last() == ps.take(i as int));
            assert(ps.take(i + 1)[i as int] == p);
            assert(p == patch@);
        }
        // The parent must be the current graph.
        if !patch.parent_hash.same(&current_hash) {
            let mut m = patch_prefix(i);
            m.append(" parent hash mismatch: expected ");
            push_all(&mut m, &current_hash.to_hex());
            m.append(", got ");
            push_all(&mut m, &patch.parent_hash.to_hex());
            proof {
                assert(m@ =~= parent_mismatch_msg(i as nat, graph_hash(graph@), p.parent));
                lemma_replay_err(g0, ps, i as int, m@);
            }
            return Err(m);
        }
        // Apply the delta.
        match patch.delta.apply(&mut graph) {
            Err(e) => {
                let mut m = patch_prefix(i);
                m.append(" delta failed: ");
                push_all(&mut m, &e);
                proof {
                    assert(m@ =~= delta_failed_msg(i as nat, e@));
                    lemma_replay_err(g0, ps, i as int, m@);
                }
                return Err(m);
            },
            Ok(()) => {},
        }
        // Rebuild the affected nodes' edges and compute the invalidation closure.
        let affected = patch.delta.affected_node_ids();
        graph.rebuild_deps_for(affected.as_slice());
        let invalidated = graph.invalidation_closure(&affected);
        proof {
            lemma_canon(ids_view(invalidated@));
            assert(ids_view(affected@).to_set() == seq![delta_target(p.delta)].to_set());
            assert(ids_view(invalidated@) == invalidated_by(graph@, p.delta));
        }
        // Evaluate to get the effect log.
        let effects = match evaluate_bodies(&graph, &invalidated) {
            Some(log) => log,
            None => {
                let mut m = patch_prefix(i);
                m.append(" evaluation failed: ");
                m.append("a body's evaluation overflowed an i64 or nested too deeply");
                proof {
                    assert(m@ =~= eval_failed_msg(i as nat));
                    lemma_replay_err(g0, ps, i as int, m@);
                }
                return Err(m);
            },
        };
        let effect_hash = hash_effects(effects.as_slice());
        let ghost before = hashes_view(effect_log_hashes@);
        effect_log_hashes.push(effect_hash);
        assert(hashes_view(effect_log_hashes@) =~= before.push(effect_hash@));
        // Recompute the graph hash.
        graph.rebuild_all_deps();
        current_hash = hash_graph(&graph);
        i += 1;
    }
    assert(ps.take(patches.len() as int) == ps);
    Ok(
        ReplayResult {
            final_graph_hash: current_hash,
            effect_log_hashes,
            patches_applied: patches.len(),
        },
    )
}

// ---------------------------------------------------------------------------
// Deterministic replay
// ---------------------------------------------------------------------------

/// An engine is consistent with a genesis graph when replaying its committed
/// patches from that graph rebuilds its graph and its effect-log hashes, its
/// head is its graph's hash, and no scope is in flight.
pub open spec fn ledger_consistent(e: SEngine, g0: SGraph) -> bool {
    &&& replay_run(g0, e.patches) == Ok::<(SGraph, Seq<Seq<u8>>), Seq<char>>(
        (e.graph, e.effect_hashes),
    )
    &&& e.head == graph_hash(e.graph)
    &&& e.in_flight == Set::<u64>::empty()
}

/// An engine created over a genesis graph is consistent with that graph.
pub proof fn law_genesis_consistent(g0: SGraph)
    ensures
        ledger_consistent(genesis_engine(rebuild_s(g0)), g0),
{
}

/// A new engine, over the empty graph, is consistent with the empty graph.
pub proof fn law_new_engine_consistent()
    ensures
        ledger_consistent(genesis_engine(empty_graph()), empty_graph()),
{
    let g = empty_graph();
    assert(crate::graph::deps::forward_s(g.nodes, g.names) =~= Seq::empty());
    assert(rebuild_s(g) =~= g) by {
        reveal_with_fuel(crate::graph::deps::reverse_s, 2);
    }
}

/// Every commit attempt, accepted or refused, keeps an engine consistent with
/// its genesis graph.
pub proof fn law_commit_keeps_ledger_consistent(e: SEngine, g0: SGraph, p: SPatch)
    requires
        ledger_consistent(e, g0),
    ensures
        ledger_consistent(commit_s(e, p).0, g0),
{
    let e2 = commit_s(e, p).0;
    if p.parent == e.head && !crate::ledger::tx::scope_conflict(e.in_flight, p.scope) {
        assert(e.in_flight.union(p.scope.to_set()).difference(p.scope.to_set()) =~= Set::<
            u64,
        >::empty());
        if let Ok(g2) = staged(e.graph, p.delta) {
            if commit_s(e, p).1 is Ok {
                let ps = e.patches.push(p);
                assert(ps.drop_last() == e.patches);
                assert(ps[ps.len() - 1] == p);
            }
        }
    }
}

/// Replaying the patches of an engine consistent with a genesis graph, from
/// that graph, gives the engine's head hash and each patch's effect-log hash.
pub proof fn law_replay_reproduces(e: SEngine, g0: SGraph)
    requires
        ledger_consistent(e, g0),
    ensures
        replay_s(g0, e.patches) == Ok::<SReplay, Seq<char>>(
            SReplay { final_hash: e.head, effect_hashes: e.effect_hashes, applied: e.patches.len() },
        ),
{
}

} // verus!
