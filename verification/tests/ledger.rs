use rand::SeedableRng;
use substrate::graph::ids::NodeId;
use substrate::graph::node::NodeKind;
use substrate::graph::store::GraphStore;
use substrate::harness::{
    apply_mutation, check_effect_logs, check_final_hash, check_genesis, create_genesis_graph,
    harness_attempt, mutate_ast, replace_number, run_harness, swap_operator,
};
use substrate::ledger::delta::{FuncSigData, StructuralDelta};
use substrate::ledger::hash::{hash_effects, hash_graph};
use substrate::ledger::json::node_json_text;
use substrate::ledger::patch::{Patch, PatchMetadata};
use substrate::ledger::replay;
use substrate::ledger::tx::{build_eval_env, Engine, TxError};
use substrate::lisp::ast::Expr;
use substrate::lisp::effect::{CapabilityId, Effect};
use substrate::lisp::eval::{eval, eval_with_env};
use substrate::lisp::parse;
use substrate::lisp::value::{Env, Value};
use substrate::runtime::caps::CapabilityRegistry;
use substrate::runtime::exec::{EffectExecutor, NoopExecutor};

/// Helper: create a genesis graph with sample functions.
fn create_test_graph() -> GraphStore {
    let mut graph = GraphStore::new();

    // add(a, b) => (+ a b)
    let add_sig = graph.alloc_id();
    let add_body = graph.alloc_id();
    graph.insert(
        add_sig,
        NodeKind::FuncSig {
            name: "add".to_string(),
            args: vec!["a".to_string(), "b".to_string()],
            ret: None,
            effects: vec![],
        },
    );
    graph.insert(
        add_body,
        NodeKind::FuncBody {
            sig_id: add_sig,
            ast: Expr::List(vec![
                Expr::Symbol("+".to_string()),
                Expr::Symbol("a".to_string()),
                Expr::Symbol("b".to_string()),
            ]),
        },
    );

    // double(x) => (* x 2)
    let dbl_sig = graph.alloc_id();
    let dbl_body = graph.alloc_id();
    graph.insert(
        dbl_sig,
        NodeKind::FuncSig {
            name: "double".to_string(),
            args: vec!["x".to_string()],
            ret: None,
            effects: vec![],
        },
    );
    graph.insert(
        dbl_body,
        NodeKind::FuncBody {
            sig_id: dbl_sig,
            ast: Expr::List(vec![
                Expr::Symbol("*".to_string()),
                Expr::Symbol("x".to_string()),
                Expr::Number(2),
            ]),
        },
    );

    // abs(n) => (if (< n 0) (- 0 n) n)
    let abs_sig = graph.alloc_id();
    let abs_body = graph.alloc_id();
    graph.insert(
        abs_sig,
        NodeKind::FuncSig {
            name: "abs".to_string(),
            args: vec!["n".to_string()],
            ret: None,
            effects: vec![],
        },
    );
    graph.insert(
        abs_body,
        NodeKind::FuncBody {
            sig_id: abs_sig,
            ast: Expr::List(vec![
                Expr::Symbol("if".to_string()),
                Expr::List(vec![
                    Expr::Symbol("<".to_string()),
                    Expr::Symbol("n".to_string()),
                    Expr::Number(0),
                ]),
                Expr::List(vec![
                    Expr::Symbol("-".to_string()),
                    Expr::Number(0),
                    Expr::Symbol("n".to_string()),
                ]),
                Expr::Symbol("n".to_string()),
            ]),
        },
    );

    graph.rebuild_all_deps();
    graph
}

fn body_patch(engine: &Engine, parent: substrate::ledger::hash::Hash, target: NodeId, ast: Expr, author: &str) -> Patch {
    Patch {
        id: engine.next_patch_id(),
        parent_hash: parent,
        region_scope: vec![target],
        delta: StructuralDelta::ReplaceBody { node_id: target, new_ast: ast },
        metadata: PatchMetadata { author: author.to_string(), ts: None },
    }
}

#[test]
fn core_parse_roundtrip() {
    let inputs = vec![
        "42",
        "foo",
        "(+ 1 2)",
        "(define add (lambda (a b) (+ a b)))",
        "(if (< x 0) (- 0 x) x)",
        "(effect 0 write 42)",
        "(begin (define x 10) (+ x 1))",
    ];
    for input in inputs {
        let expr = parse::parse(input).unwrap();
        let printed = expr.to_string();
        let reparsed = parse::parse(&printed).unwrap();
        assert_eq!(
            expr, reparsed,
            "roundtrip failed for: {input}\nprinted: {printed}"
        );
    }
}

#[test]
fn integration_eval_deterministic() {
    let programs = vec![
        "(+ (* 3 4) (- 10 5))",
        "((lambda (x) (+ x x)) 21)",
        "(if (< 1 2) (+ 10 20) 0)",
        "(effect 0 write (+ 1 2))",
    ];
    for src in programs {
        let expr = parse::parse(src).unwrap();
        let env = Env::new();
        let r1 = eval(&expr, &env).unwrap();
        let r2 = eval(&expr, &env).unwrap();
        assert_eq!(r1.value, r2.value, "non-deterministic value for: {src}");
        assert_eq!(
            r1.effects, r2.effects,
            "non-deterministic effects for: {src}"
        );
    }
}

#[test]
fn ledger_replay_invariant() {
    let graph = create_test_graph();
    let mut engine = Engine::from_graph(graph.clone());

    // The body node IDs in our test graph.
    let body_ids = engine.graph.body_node_ids();
    assert!(!body_ids.is_empty());

    // Commit 200 patches: cycle through body nodes with small mutations.
    let mutations: Vec<Expr> = (0..200)
        .map(|i| {
            Expr::List(vec![
                Expr::Symbol("+".to_string()),
                Expr::Number(i),
                Expr::Number(i + 1),
            ])
        })
        .collect();

    for (i, new_ast) in mutations.iter().enumerate() {
        let target = body_ids[i % body_ids.len()];
        let patch = Patch {
            id: engine.next_patch_id(),
            parent_hash: engine.head_hash(),
            region_scope: vec![target],
            delta: StructuralDelta::ReplaceBody {
                node_id: target,
                new_ast: new_ast.clone(),
            },
            metadata: PatchMetadata {
                author: "test".to_string(),
                ts: None,
            },
        };
        engine.commit(patch).expect("commit should succeed");
    }

    let final_hash = engine.head_hash();
    let committed_patches = engine.patches.clone();
    let committed_effect_hashes = engine.effect_log_hashes.clone();

    assert_eq!(committed_patches.len(), 200);

    // Replay from genesis.
    let replay_result = replay::replay(graph, &committed_patches).expect("replay should succeed");

    // Assert final graph hashes match.
    assert_eq!(
        final_hash,
        replay_result.final_graph_hash,
        "final graph hash mismatch: engine={}, replay={}",
        final_hash.to_hex(),
        replay_result.final_graph_hash.to_hex()
    );

    // Assert per-patch effect-log hashes match.
    assert_eq!(
        committed_effect_hashes.len(),
        replay_result.effect_log_hashes.len()
    );
    for (i, (engine_h, replay_h)) in committed_effect_hashes
        .iter()
        .zip(replay_result.effect_log_hashes.iter())
        .enumerate()
    {
        assert_eq!(engine_h, replay_h, "effect log hash mismatch at patch {i}");
    }
}

#[test]
fn conflict_reject() {
    let graph = create_test_graph();
    let mut engine = Engine::from_graph(graph);

    let body_ids = engine.graph.body_node_ids();
    let target = body_ids[0];

    // First patch: commit successfully.
    let patch1 = Patch {
        id: engine.next_patch_id(),
        parent_hash: engine.head_hash(),
        region_scope: vec![target],
        delta: StructuralDelta::ReplaceBody {
            node_id: target,
            new_ast: Expr::List(vec![
                Expr::Symbol("+".to_string()),
                Expr::Number(1),
                Expr::Number(2),
            ]),
        },
        metadata: PatchMetadata {
            author: "agent-1".to_string(),
            ts: None,
        },
    };
    engine.commit(patch1).expect("first commit should succeed");

    // Second patch: same region_scope but a stale parent hash.
    let old_hash = hash_graph(&create_test_graph());
    let patch2 = Patch {
        id: engine.next_patch_id(),
        parent_hash: old_hash,
        region_scope: vec![target],
        delta: StructuralDelta::ReplaceBody {
            node_id: target,
            new_ast: Expr::List(vec![
                Expr::Symbol("*".to_string()),
                Expr::Number(3),
                Expr::Number(4),
            ]),
        },
        metadata: PatchMetadata {
            author: "agent-2".to_string(),
            ts: None,
        },
    };
    let result = engine.commit(patch2);
    assert!(
        result.is_err(),
        "second commit with overlapping scope should be rejected"
    );
    match result {
        Err(TxError::StaleParent { .. }) => {}
        Err(e) => {
            panic!("unexpected error type: {}", e.message());
        }
        Ok(_) => panic!("should have been rejected"),
    }
}

#[test]
fn stale_parent_reject() {
    let graph = create_test_graph();
    let mut engine = Engine::from_graph(graph);

    let body_ids = engine.graph.body_node_ids();
    let old_head = engine.head_hash();

    // Commit patch A to advance the head.
    let patch_a = Patch {
        id: engine.next_patch_id(),
        parent_hash: old_head,
        region_scope: vec![body_ids[0]],
        delta: StructuralDelta::ReplaceBody {
            node_id: body_ids[0],
            new_ast: Expr::List(vec![
                Expr::Symbol("+".to_string()),
                Expr::Number(99),
                Expr::Number(1),
            ]),
        },
        metadata: PatchMetadata {
            author: "agent-a".to_string(),
            ts: None,
        },
    };
    engine.commit(patch_a).expect("patch A should commit");

    // Now head has advanced. Try to commit with old_head as parent.
    let patch_b = Patch {
        id: engine.next_patch_id(),
        parent_hash: old_head,
        region_scope: vec![body_ids[1]],
        delta: StructuralDelta::ReplaceBody {
            node_id: body_ids[1],
            new_ast: Expr::List(vec![
                Expr::Symbol("*".to_string()),
                Expr::Number(5),
                Expr::Number(5),
            ]),
        },
        metadata: PatchMetadata {
            author: "agent-b".to_string(),
            ts: None,
        },
    };
    let result = engine.commit(patch_b);
    assert!(result.is_err(), "stale parent should be rejected");
    match result {
        Err(TxError::StaleParent { expected, got }) => {
            assert_ne!(expected, got);
            assert_eq!(got, old_head);
        }
        Err(e) => panic!("unexpected error: {}", e.message()),
        Ok(_) => panic!("should have been rejected"),
    }
}

// ---------------------------------------------------------------------------
// Further cases
// ---------------------------------------------------------------------------

const EMPTY_BLAKE3: &str = "af1349b9f5f9a1a6a0404dea36dcc9499bcb25c9adc112b7cc9a93cae41f3262";
const ABC_BLAKE3: &str = "6437b3ac38465133ffb63b75273a8db548c558465d79db03fd359c6cd5bd9d85";

#[test]
fn hash_of_known_inputs() {
    assert_eq!(substrate::ledger::hash::Hash::of(&[]).to_hex(), EMPTY_BLAKE3);
    assert_eq!(substrate::ledger::hash::Hash::of_str("abc").to_hex(), ABC_BLAKE3);
    assert_eq!(substrate::ledger::hash::Hash::of(b"abc"), substrate::ledger::hash::Hash::of_str("abc"));
}

#[test]
fn hex_roundtrip_and_rejections() {
    let h = substrate::ledger::hash::Hash::of_str("abc");
    assert_eq!(substrate::ledger::hash::Hash::from_hex(&h.to_hex()), Some(h));
    assert_eq!(substrate::ledger::hash::Hash::from_hex(&ABC_BLAKE3.to_uppercase()), Some(h));
    assert_eq!(h.to_hex(), h.to_hex().to_lowercase());
    assert_eq!(substrate::ledger::hash::Hash::from_hex("abc"), None);
    let mut bad = ABC_BLAKE3.to_string();
    bad.replace_range(0..1, "g");
    assert_eq!(substrate::ledger::hash::Hash::from_hex(&bad), None);
    assert!(h.same(&substrate::ledger::hash::Hash::of_str("abc")));
    assert_eq!(substrate::ledger::hash::Hash::zero().to_hex(), "0".repeat(64));
    assert!(!h.same(&substrate::ledger::hash::Hash::of(&[])));
}

#[test]
fn graph_and_effect_hashes_hash_their_json() {
    // An empty graph has nothing to hash.
    assert_eq!(hash_graph(&GraphStore::new()).to_hex(), EMPTY_BLAKE3);
    // An effect log hashes its JSON text; one holding a closure has none.
    let log = vec![Effect {
        cap_id: CapabilityId(0),
        op: "write".to_string(),
        args: vec![Value::Number(42), Value::Nil, Value::Bool(true), Value::String("s".to_string())],
    }];
    assert_eq!(
        hash_effects(&log),
        substrate::ledger::hash::Hash::of_str(r#"[{"cap_id":0,"op":"write","args":[{"Number":42},"Nil",{"Bool":true},{"String":"s"}]}]"#)
    );
    assert_eq!(hash_effects(&[]), substrate::ledger::hash::Hash::of_str("[]"));
    let closure = vec![Effect {
        cap_id: CapabilityId(0),
        op: "write".to_string(),
        args: vec![Value::Lambda { params: vec![], body: Box::new(Expr::Number(1)), env: Env::new() }],
    }];
    assert_eq!(hash_effects(&closure).to_hex(), EMPTY_BLAKE3);
}

#[test]
fn node_json_matches_serde_form() {
    let sig = NodeKind::FuncSig {
        name: "a\"b".to_string(),
        args: vec!["x".to_string(), "y".to_string()],
        ret: Some("int".to_string()),
        effects: vec![],
    };
    assert_eq!(
        node_json_text(&sig),
        r#"{"FuncSig":{"name":"a\"b","args":["x","y"],"ret":"int","effects":[]}}"#
    );
    let body = NodeKind::FuncBody {
        sig_id: NodeId(3),
        ast: parse::parse("(+ x -1)").unwrap(),
    };
    assert_eq!(
        node_json_text(&body),
        r#"{"FuncBody":{"sig_id":3,"ast":{"List":[{"Symbol":"+"},{"Symbol":"x"},{"Number":-1}]}}}"#
    );
    // Every escape of serde_json's table, and a character it leaves alone.
    let odd = NodeKind::FuncSig {
        name: "q\"\\\u{8}\t\n\u{c}\r\u{1}\u{1f}/~".to_string(),
        args: vec![],
        ret: None,
        effects: vec![],
    };
    assert_eq!(
        node_json_text(&odd),
        r#"{"FuncSig":{"name":"q\"\\\b\t\n\f\r\u0001\u001f/~","args":[],"ret":null,"effects":[]}}"#
    );
}

#[test]
fn delta_errors_leave_the_graph_alone() {
    let mut g = create_test_graph();
    let before = hash_graph(&g);
    let missing = StructuralDelta::ReplaceBody { node_id: NodeId(99), new_ast: Expr::Number(1) };
    assert_eq!(missing.apply(&mut g), Err("node 99 does not exist".to_string()));
    let not_body = StructuralDelta::ReplaceBody { node_id: NodeId(1), new_ast: Expr::Number(1) };
    assert_eq!(not_body.apply(&mut g), Err("node 1 is not a FuncBody".to_string()));
    let sig = StructuralDelta::ReplaceSig {
        node_id: NodeId(77),
        new_sig: FuncSigData { name: "f".to_string(), args: vec![], ret: None, effects: vec![] },
    };
    assert_eq!(sig.apply(&mut g), Err("node 77 does not exist".to_string()));
    assert_eq!(hash_graph(&g), before);
    assert_eq!(not_body.affected_node_ids(), vec![NodeId(1)]);
}

#[test]
fn refused_commits_change_nothing() {
    let mut engine = Engine::from_graph(create_test_graph());
    let head = engine.head_hash();
    let patch = body_patch(&engine, head, NodeId(99), Expr::Number(1), "x");
    match engine.commit(patch) {
        Err(TxError::DeltaFailed(m)) => assert_eq!(m, "node 99 does not exist"),
        _ => panic!("delta should fail"),
    }
    assert_eq!(engine.head_hash(), head);
    assert!(engine.patches.is_empty());
    assert_eq!(engine.next_patch_id(), 1);
    let e = TxError::DeltaFailed("node 99 does not exist".to_string());
    assert_eq!(e.message(), "delta application failed: node 99 does not exist");
}

#[test]
fn validation_failures() {
    let mut g = GraphStore::new();
    let body = g.alloc_id();
    let other = g.alloc_id();
    g.insert(body, NodeKind::FuncBody { sig_id: NodeId(42), ast: Expr::Number(1) });
    g.insert(other, NodeKind::FuncBody { sig_id: body, ast: Expr::Number(2) });
    let mut engine = Engine::from_graph(g);
    let patch = body_patch(&engine, engine.head_hash(), body, Expr::Number(3), "v");
    match engine.commit(patch) {
        Err(TxError::ValidationFailed(m)) => {
            assert_eq!(m, "FuncBody 1 references non-existent sig 42")
        }
        _ => panic!("validation should fail"),
    }
    let patch = body_patch(&engine, engine.head_hash(), other, Expr::Number(3), "v");
    match engine.commit(patch) {
        Err(TxError::ValidationFailed(m)) => {
            assert_eq!(m, "FuncBody 2 references 1 which is not a FuncSig")
        }
        _ => panic!("validation should fail"),
    }
    assert!(engine.patches.is_empty());
}

#[test]
fn main_body_effects_and_eval_failure() {
    let mut g = GraphStore::new();
    let main_sig = g.alloc_id();
    let main_body = g.alloc_id();
    g.insert(
        main_sig,
        NodeKind::FuncSig { name: "main".to_string(), args: vec![], ret: None, effects: vec![] },
    );
    g.insert(main_body, NodeKind::FuncBody { sig_id: main_sig, ast: Expr::Number(0) });
    let mut engine = Engine::from_graph(g);
    let ast = parse::parse("(effect 0 write 7)").unwrap();
    let result = engine.commit(body_patch(&engine, engine.head_hash(), main_body, ast, "m")).unwrap();
    assert_eq!(result.effects.len(), 1);
    assert_eq!(result.effects[0].args, vec![Value::Number(7)]);
    assert_eq!(result.invalidated_nodes, vec![main_body]);
    assert_eq!(result.new_head_hash, engine.head_hash());
    assert_eq!(result.effect_log_hash, hash_effects(&result.effects));
    assert!(NoopExecutor.execute(&result.effects).is_ok());
    // A body whose evaluation overflows is refused.
    let overflow = parse::parse("(+ 9223372036854775807 1)").unwrap();
    let head = engine.head_hash();
    match engine.commit(body_patch(&engine, head, main_body, overflow, "m")) {
        Err(TxError::EvalFailed(_)) => {}
        _ => panic!("evaluation should not complete"),
    }
    assert_eq!(engine.head_hash(), head);
}

#[test]
fn replay_reports_failures() {
    let graph = create_test_graph();
    let mut engine = Engine::from_graph(graph.clone());
    let p = body_patch(&engine, engine.head_hash(), NodeId(2), Expr::Number(5), "r");
    engine.commit(p).unwrap();
    let mut patches = engine.patches.clone();
    // A wrong parent.
    patches[0].parent_hash = substrate::ledger::hash::Hash::of(&[]);
    let err = replay::replay(graph.clone(), &patches).unwrap_err();
    assert!(err.starts_with("patch 0 parent hash mismatch: expected "));
    assert!(err.ends_with(&format!(", got {}", EMPTY_BLAKE3)));
    // A delta that does not apply.
    let mut patches = engine.patches.clone();
    patches[0].delta = StructuralDelta::ReplaceBody { node_id: NodeId(1), new_ast: Expr::Number(5) };
    assert_eq!(
        replay::replay(graph.clone(), &patches).unwrap_err(),
        "patch 0 delta failed: node 1 is not a FuncBody"
    );
    let ok = replay::replay(graph, &engine.patches).unwrap();
    assert_eq!(ok.patches_applied, 1);
    assert_eq!(ok.final_graph_hash, engine.head_hash());
}

#[test]
fn harness_runs_replay_cleanly() {
    let genesis = create_genesis_graph();
    let mut engine = Engine::from_graph(genesis.clone());
    let stats = run_harness(&mut engine, 3, 30);
    assert_eq!(stats.rejects_stale, 0);
    assert_eq!(stats.commits + stats.rejects_conflict + stats.rejects_validation, 30);
    assert_eq!(engine.patches.len() as u64, stats.commits);
    let replayed = replay::replay(genesis.clone(), &engine.patches).unwrap();
    assert_eq!(replayed.final_graph_hash, engine.head_hash());
    assert!(check_final_hash(&replayed.final_graph_hash, &engine.head_hash()).is_ok());
    assert_eq!(engine.patches().len() as u64, stats.commits);
    assert_eq!(engine.effect_log_hashes(), &engine.effect_log_hashes);
    assert!(check_effect_logs(&replayed.effect_log_hashes, &engine.effect_log_hashes).is_ok());
    let recorded = hash_graph(&genesis);
    assert_eq!(check_genesis(&genesis, &recorded), Ok(recorded));
    // The same seeds give the same run.
    let mut again = Engine::from_graph(create_genesis_graph());
    let stats2 = run_harness(&mut again, 3, 30);
    assert_eq!(stats, stats2);
    assert_eq!(again.head_hash(), engine.head_hash());
}

#[test]
fn ledger_checks_report_mismatches() {
    let a = substrate::ledger::hash::Hash::of_str("a");
    let b = substrate::ledger::hash::Hash::of_str("b");
    assert_eq!(
        check_effect_logs(&vec![a], &vec![]),
        Err("effect log count mismatch: replay=1, ledger=0".to_string())
    );
    assert_eq!(
        check_effect_logs(&vec![a, a], &vec![a, b]),
        Err(format!(
            "effect log hash mismatch at patch 1: replay={}, ledger={}",
            a.to_hex(),
            b.to_hex()
        ))
    );
    let g = create_genesis_graph();
    assert_eq!(
        check_genesis(&g, &a),
        Err(format!(
            "genesis hash mismatch: computed {}, ledger has {}",
            hash_graph(&g).to_hex(),
            a.to_hex()
        ))
    );
}

#[test]
fn capabilities_are_fresh() {
    let mut reg = CapabilityRegistry::new();
    assert_eq!(CapabilityRegistry::root_capability(), CapabilityId(0));
    assert_eq!(reg.create_capability(), CapabilityId(1));
    assert_eq!(reg.create_capability(), CapabilityId(2));
    let mut d = CapabilityRegistry::default();
    assert_eq!(d.create_capability(), CapabilityId(1));
}

#[test]
fn graph_hash_ignores_insertion_order() {
    let nodes = vec![
        (NodeId(1), NodeKind::FuncSig { name: "f".to_string(), args: vec!["x".to_string()], ret: None, effects: vec![] }),
        (NodeId(2), NodeKind::FuncBody { sig_id: NodeId(1), ast: parse::parse("(g x)").unwrap() }),
        (NodeId(3), NodeKind::FuncSig { name: "g".to_string(), args: vec!["y".to_string()], ret: None, effects: vec![] }),
        (NodeId(4), NodeKind::FuncBody { sig_id: NodeId(3), ast: parse::parse("(+ y 1)").unwrap() }),
    ];
    let mut forward = GraphStore::new();
    for (id, n) in nodes.iter() {
        forward.insert(*id, n.clone());
    }
    let mut backward = GraphStore::new();
    for (id, n) in nodes.iter().rev() {
        backward.insert(*id, n.clone());
    }
    forward.rebuild_all_deps();
    backward.rebuild_all_deps();
    assert_eq!(hash_graph(&forward), hash_graph(&backward));
    assert_eq!(forward.all_node_ids(), vec![NodeId(1), NodeId(2), NodeId(3), NodeId(4)]);
}

fn function_graph(defs: &[(&str, &[&str], &str)]) -> (GraphStore, Vec<NodeId>) {
    let mut g = GraphStore::new();
    let mut bodies = Vec::new();
    for (name, args, body) in defs {
        let s = g.alloc_id();
        let b = g.alloc_id();
        g.insert(
            s,
            NodeKind::FuncSig {
                name: name.to_string(),
                args: args.iter().map(|a| a.to_string()).collect(),
                ret: None,
                effects: vec![],
            },
        );
        g.insert(b, NodeKind::FuncBody { sig_id: s, ast: parse::parse(body).unwrap() });
        bodies.push(b);
    }
    (g, bodies)
}

#[test]
fn graph_functions_recurse_at_any_depth() {
    let (g, bodies) = function_graph(&[
        ("f", &["n"], "(if (< n 1) 0 (f (- n 1)))"),
        ("sum", &["n"], "(if (< n 1) 0 (+ n (sum (- n 1))))"),
        ("even", &["n"], "(if (= n 0) true (odd (- n 1)))"),
        ("odd", &["n"], "(if (= n 0) false (even (- n 1)))"),
        ("main", &[], "0"),
    ]);
    let main_body = bodies[4];
    let mut engine = Engine::from_graph(g);
    let ast = parse::parse("(effect 0 write (f 3) (sum 10) (even 7))").unwrap();
    let head = engine.head_hash();
    let result = engine.commit(body_patch(&engine, head, main_body, ast, "m")).unwrap();
    assert_eq!(
        result.effects[0].args,
        vec![Value::Number(0), Value::Number(55), Value::Bool(false)]
    );
}

#[test]
fn overlapping_patches_on_one_parent_cannot_both_commit() {
    let graph = create_test_graph();
    let mut engine = Engine::from_graph(graph);
    let target = engine.graph().body_node_ids()[0];
    let same = match engine.graph().get(target) {
        Some(NodeKind::FuncBody { ast, .. }) => ast.clone(),
        _ => panic!("not a body"),
    };
    let parent = engine.head_hash();
    // The first patch leaves the body as it is, so the head does not move.
    engine.commit(body_patch(&engine, parent, target, same, "agent-1")).unwrap();
    assert_eq!(engine.head_hash(), parent);
    let other = parse::parse("(* 3 4)").unwrap();
    match engine.commit(body_patch(&engine, parent, target, other.clone(), "agent-2")) {
        Err(TxError::RegionConflict) => {}
        _ => panic!("an overlapping patch on the same parent should be refused"),
    }
    assert_eq!(engine.patches().len(), 1);
    // A patch on the same parent with a disjoint scope still commits.
    let second = engine.graph().body_node_ids()[1];
    assert!(engine.commit(body_patch(&engine, parent, second, other, "agent-3")).is_ok());
}

#[test]
fn final_hash_check_reports_mismatch() {
    let a = substrate::ledger::hash::Hash::of_str("a");
    let b = substrate::ledger::hash::Hash::of_str("b");
    assert_eq!(check_final_hash(&a, &a), Ok(()));
    assert_eq!(
        check_final_hash(&a, &b),
        Err(format!("final graph hash mismatch: replay={}, ledger={}", a.to_hex(), b.to_hex()))
    );
}

#[test]
fn mutations_follow_their_draws() {
    let e = parse::parse("(+ (* 2 3) x)").unwrap();
    assert_eq!(replace_number(&e, &vec![1, 2], 0, -7), parse::parse("(+ (* 2 -7) x)").unwrap());
    // A path that ends at a symbol leaves the expression as it is.
    assert_eq!(replace_number(&e, &vec![2], 0, 9), e);
    assert_eq!(swap_operator(&e, 2), parse::parse("(* (* 2 3) x)").unwrap());
    assert_eq!(swap_operator(&parse::parse("(f 1)").unwrap(), 1), parse::parse("(f 1)").unwrap());
    assert_eq!(apply_mutation(&e, 1, &vec![], 0, 0, 4, 0, 0), parse::parse("(+ (+ (* 2 3) x) 4)").unwrap());
    assert_eq!(
        apply_mutation(&e, 3, &vec![], 0, 0, 1, 0, 0),
        parse::parse("(if (< (+ (* 2 3) x) 0) 0 (+ (* 2 3) x))").unwrap()
    );
    assert_eq!(apply_mutation(&e, 4, &vec![], 0, 0, 1, 12, 30), parse::parse("(+ 12 30)").unwrap());
    assert_eq!(apply_mutation(&e, 0, &vec![1, 1], 5, 0, 1, 0, 0), parse::parse("(+ (* 5 3) x)").unwrap());
    assert_eq!(apply_mutation(&e, 2, &vec![], 0, 1, 1, 0, 0), parse::parse("(- (* 2 3) x)").unwrap());
}

#[test]
fn harness_attempt_commits_the_drawn_mutation() {
    let mut engine = Engine::from_graph(create_genesis_graph());
    let target = engine.graph().body_node_ids()[0];
    let prev = match engine.graph().get(target) {
        Some(NodeKind::FuncBody { ast, .. }) => ast.clone(),
        _ => panic!("not a body"),
    };
    let head = engine.head_hash();
    let r = harness_attempt(&mut engine, 2, 0, 1, &vec![], 0, 0, 6, 0, 0).unwrap();
    assert_ne!(r.new_head_hash, head);
    let p = &engine.patches()[0];
    assert_eq!(p.metadata.author, "agent-2");
    assert_eq!(p.parent_hash, head);
    assert_eq!(p.region_scope, vec![target]);
    let expected = Expr::List(vec![Expr::Symbol("+".to_string()), prev, Expr::Number(6)]);
    match engine.graph().get(target) {
        Some(NodeKind::FuncBody { ast, .. }) => assert_eq!(ast, &expected),
        _ => panic!("not a body"),
    }
}

#[test]
fn mutate_ast_keeps_numbers_in_range() {
    let mut rng = rand::rngs::StdRng::from_seed([7u8; 32]);
    let e = parse::parse("(+ 1 2)").unwrap();
    for _ in 0..50 {
        let m = mutate_ast(&e, &mut rng);
        assert!(matches!(m, Expr::List(_)));
    }
}

#[test]
fn eval_with_env_resolves_recursion_through_the_graph() {
    let (g, _) = function_graph(&[
        ("f", &["n"], "(if (< n 1) 0 (f (- n 1)))"),
        ("even", &["n"], "(if (= n 0) true (odd (- n 1)))"),
        ("odd", &["n"], "(if (= n 0) false (even (- n 1)))"),
    ]);
    let env = build_eval_env(&g);
    let r = eval_with_env(&parse::parse("(f 3)").unwrap(), &env).unwrap();
    assert_eq!(r.value, Value::Number(0));
    assert!(r.effects.is_empty());
    let r = eval_with_env(&parse::parse("(f 40)").unwrap(), &env).unwrap();
    assert_eq!(r.value, Value::Number(0));
    let r = eval_with_env(&parse::parse("(even 10)").unwrap(), &env).unwrap();
    assert_eq!(r.value, Value::Bool(true));
    // A name that no environment binds is still unbound.
    assert!(eval_with_env(&parse::parse("(g 1)").unwrap(), &env).is_err());
}

#[test]
fn hex_decoding_accepts_exactly_64_digits() {
    let h = substrate::ledger::hash::Hash::of_str("abc");
    let mixed: String = h
        .to_hex()
        .chars()
        .enumerate()
        .map(|(i, c)| if i % 2 == 0 { c.to_ascii_uppercase() } else { c })
        .collect();
    let back = substrate::ledger::hash::Hash::from_hex(&mixed).unwrap();
    assert_eq!(back, h);
    assert_eq!(back.to_hex(), mixed.to_lowercase());
    assert_eq!(substrate::ledger::hash::Hash::from_hex(&mixed[..63]), None);
    assert_eq!(substrate::ledger::hash::Hash::from_hex(&format!("{}0", mixed)), None);
}
