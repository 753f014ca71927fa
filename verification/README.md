# social_graph

A social graph of nodes and follow edges, verified with Verus.

- `src/state.rs` states what every call does, as a transition on an abstract
  state (`PalletState`).
- `src/pallet.rs` holds the storage (`Pallet`) and the calls, each proved to
  make exactly that transition.
- `src/genesis.rs` builds the initial graph in one of the three edge stores.
- `src/edges.rs`, `src/child_tree.rs` and `src/encoding.rs` are the sorted
  adjacency lists, the byte-keyed child trees and the little-endian keys.
- `src/outliers.rs`, `src/sampling.rs` and `src/transactions.rs` are the
  decisions of the storage benchmarks; `app/` runs the benchmark loops
  through a `StorageBackend` trait that a node's storage would implement.
- `src/laws.rs` proves properties that span calls.
