# circuit_analysis

Verified analyses of zero-knowledge circuits and of the SMT specifications
written for them, in Verus.

- `src/` is the library. Every function in it is verified against its
  `requires`/`ensures`; the few calls into outside crates go through
  trusted items (`#[verifier::external_body]` wrappers and declared types)
  whose contracts are stated next to them.
  - SMT text: `text`, `pretty`, `strings`, `tags`, `specification`.
  - Resolving SMT variables to circuit signals: `component_walk`,
    `signal_names`, `resolve`, `correspondence`, `instances`,
    `resolved_json`.
  - Circuits and formulas: `r1cs`, `air`, `formula`, `options`.
  - Clustering and graphs of parts: `guided`, `mixed_graph`, `orientation`,
    `distance_classes`, `pdag`, `label_propagation`, `fingerprinting`,
    `hierarchy`.
  - Solver data and answers: `dzn`, `minizinc_data`, `safety`.
- `tests/` exercises the library on concrete values.
- `app/` is the command line and the I/O around the library (reading JSON
  files, running the MiniZinc solver, writing data files); it is ordinary Rust and is
  not verified.
