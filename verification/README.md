# mini_chain

A small proof-of-work blockchain whose core is verified with Verus.

- `src/` is the verified library. `src/mini_chain/` holds the blocks and
  transactions (`block`), their canonical text (`canonical`) and order
  (`order`), ordered transaction sets (`txset`), string sets (`strset`),
  the block tree of a node (`chain`), the transaction pool (`mempool`),
  the chain parameters (`metadata`), the edit distance between chains
  (`edit`) and the decisions a full node takes between network steps
  (`node`). `src/text.rs` writes numbers and byte lists as text.
  SHA-256 (`sha2`), randomness (`rand`) and the clock are reached through
  small trusted wrappers in `digest`, `random` and `clock`.
- `app/` runs a simulated network of full nodes on `tokio`: the async
  loops, the channels, the drawing of block trees and the floating-point
  scores.
- `tests/` exercises the library, including against `sha2` and the
  derived `Debug` and `Ord` of the types.
