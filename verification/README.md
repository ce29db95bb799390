# dbcop

Checks whether a history of database transactions satisfies a consistency
level: Read Committed, Repeatable Read, Atomic Read, Causal consistency,
Prefix consistency, Snapshot Isolation or Serializability. The library is
written in Verus; each public function carries a contract that Verus proves.

## Layout

- `src/history/raw` — histories of sessions, transactions and events; their
  validity rules; the text format (lexer, parser, printer) and its round trip.
- `src/history/atomic` — the atomic view of a valid history, and the
  partial order of its transactions (session order, write-read relations,
  visibility).
- `src/consistency/saturation` — the saturation checks (Read Committed,
  Repeatable Read, Atomic Read, Causal consistency).
- `src/consistency/linearization` — the depth-first searches for Prefix
  consistency, Snapshot Isolation and Serializability, and the predicates
  that define an accepted order.
- `src/consistency/mod.rs` — `check`, which dispatches on the level; where
  the search finds no order and the history fits the SAT encodings, the SAT
  solver decides. `implications.rs` holds the laws: the levels nest, and the
  search and the SAT encodings decide the same question.
- `src/consistency/decomposition.rs`, `src/graph` — communication graphs,
  biconnected components, directed and undirected graphs.
- `src/sat` — the SAT encodings of the linearization levels over a BatSat
  solver (through `rustsat`).
- `src/collections.rs`, `src/sat/solver.rs`, `src/testgen.rs` — the calls into
  `hashbrown`, `rustsat`/`rustsat-batsat` and `rand`, each behind a small
  trusted wrapper whose contract states what the crate's source shows.
- `app/` — the command-line program: argument parsing, file I/O, JSON.
- `tests/` — the tests.
