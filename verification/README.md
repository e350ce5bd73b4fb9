# monogirl

Conditional parallel execution for Solana: the scheduling mathematics, the
state machine of the on-chain bundle program, and the logic of the command
line tool, written in Verus with their contracts proved.

## Layout

- `src/math/dag.rs`: the transaction dependency graph; topological order
  (Kahn's algorithm), parallel groups by dependency level, account
  independence.
- `src/math/merkle.rs`: Merkle trees over 32-byte hashes, inclusion proofs
  and their verification.
- `src/math/analyzer.rs`: the account-set graph; ordered partition and
  conflict pairs.
- `src/program/`: the program's accounts, errors and events as plain values;
  each instruction handler as a verified transition (`*_outcome`), the
  account constraints of each context, and the instructions that check the
  constraints before running a handler.
- `src/bundle.rs`: transaction ids to hashes, the chain graph of a bundle,
  bundle summaries, hexadecimal root text and Graphviz text.
- `src/hashing.rs`: SHA-256 (through the `sha2` crate) and byte helpers.
- `app/`: the `monogirl-cli` command line (files, JSON, printing) and the
  Anchor bindings of the program (account serialization, constraint
  attributes, events).
