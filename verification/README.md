# small_tools

Verified building blocks for a handful of small command-line programs, with
their contracts proved by Verus.

- `src/graph.rs`: a directed, weighted graph whose node slots live in a vector
  with a stack of freed slots; adding and removing nodes and edges, and a
  depth-first walk. `src/graph_laws.rs` and `src/graph_invariants.rs` state
  and prove what the operations keep and undo.
- `src/numbers.rs`: the comma-separated number file (reading, writing, and the
  random numbers written to it); `src/decimal.rs` holds the decimal text of
  integers.
- `src/store.rs`: the line-per-record file behind the record server, and the
  server's decisions.
- `src/outline.rs`: the language a source file is outlined in.
- `src/text.rs`: white space, trimming, and pattern replacement in names.
- `app/`: the programs themselves (argument handling, files, network, async
  runtime), calling the library: `graph`, `file-ops`, `rest-server`,
  `code-parser`, `rig-agent` and `rename` subcommands.
