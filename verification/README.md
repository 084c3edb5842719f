# petal

The verified core of the Petal language tooling, written in Verus.

- `src/` — the library, proved by Verus. Its functions state what they do in
  `requires`/`ensures` contracts over spec functions and views (a few
  constructors and accessors whose result needs no statement carry none).
  It holds the lexer and the layout fixer (`lint::reindent`), the
  `if`/`elsif`-to-`match` rewrite planner and splice application
  (`lint::to_match`), source splicing (`rewrite`), the import walk
  (`import_walk`), program analyses (provenance, dependents, slices, cell
  indexing), run-dependency tracking and content fingerprints, value
  comparison and the local-cell scan (`memo`), the heap of strings, lists,
  maps and cells, records and their shape cache, the native function table,
  the numeric helpers, the language-server framing and transport decisions
  (`lsp`), package manifests, run policies and the rest. Calls into `std`
  or outside crates that Verus cannot read sit behind small trusted wrappers
  whose contracts say what the called code does.
- `tests/` — ordinary Rust tests that run the compiled library.
- `app/` — the command-line program around the library: file and network
  I/O, JSON encoding, reports with floating-point figures.
