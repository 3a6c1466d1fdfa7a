# gravity_state

The state trie, the storage layer and the execution rules of a Gravity node, as a verified
library.

- `src/` is the library. Its functions carry contracts, which Verus proves.
  - The state trie: a Merkle trie over half-byte paths that is loaded node by node, changed in
    memory, hashed, and written back as the nodes that changed. `tree.rs` is the mathematical
    trie, `trie.rs` the one that runs, `laws.rs` what holds of both: the root hash depends on the
    contents alone, deletions undo insertions, rounds of changes add up.
  - The database: ordered tables, cursors over them with and without several entries under one
    key, batches, and transactions over three databases that write the state last.
  - Execution: the channel of the block pipe as a state machine, errors with their block and
    stage, and the state changes of hardforks.
- `tests/` runs the library, with state roots checked against `alloy_trie`.
- `app/` is what surrounds the library: tasks and locks, error texts, settings, the database
  engine and the virtual machine.

Traits such as `Engine`, `Database` or `AccountSource` stand for what lies outside. Each has an
implementation in memory that is proved to keep to the trait's model. Those in `app/` are not
proved: there the functions of the model are never called and have no meaning.

What is not proved either is what other crates do. Each call into one stands in a small wrapper whose
contract says what is relied on: hashing and encoding (`src/rlp.rs`), paths (`src/nibbles.rs`),
and addresses and code (`src/hardfork.rs`).
