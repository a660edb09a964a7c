# substrate

A transactional engine for symbolic mutations, written in Verus.

Agents propose *patches*: whole-node replacements in a semantic graph of
function signatures and bodies written in a tiny Lisp. The engine checks each
patch against the current head hash, applies it to a copy of the graph,
recomputes dependency edges and the invalidation closure, validates the
result, evaluates the invalidated bodies to record (never execute) their
effects, and commits. A ledger of committed patches replays to the same graph
hash and the same effect-log hashes.

## Layout

- `src/text.rs`: decimal text and small string helpers.
- `src/lisp/`: the Lisp: syntax (`ast`), runtime values (`value`), effect
  records and the `Eff` result (`effect`), the parser (`parse`), the
  evaluator (`eval`), and the proof that printing and re-parsing an
  expression gives it back (`roundtrip`).
- `src/graph/`: node identifiers, nodes, sorted tables, dependency
  extraction (`deps`), the invalidation closure (`invalidate`), the graph
  store (`store`), and the proof that the reverse edges stay the transpose of
  the forward ones (`transpose`).
- `src/ledger/`: BLAKE3 content hashes and their hexadecimal form (`hash`), the
  JSON text that graph and effect-log hashes digest (`json`), deltas, patches,
  the transaction engine (`tx`) and replay (`replay`), with the laws that tie
  commits to replay.
- `src/runtime/`: capabilities and effect executors.
- `src/harness.rs`: the genesis graph, AST mutations (each a function of its
  random draws), the agent harness, and the checks that a replayed ledger
  matches a recorded one (genesis, effect logs, final head).
- `app/`: the command-line front end (`init`, `harness`, `replay`) and the JSON
  file formats. A harness run writes `ledger.json` (with the head it reached)
  and the final graph to `head.json`, leaving `genesis.json` as it was.
- `tests/`: tests run against the compiled library.

Every function under `src/` is verified; the calls into `blake3`,
`serde_json` and `rand` stand behind small trusted wrappers whose contracts are
stated in their doc comments.
