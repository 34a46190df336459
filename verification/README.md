# retia_core

Parts of the retia storage layer, each with its contracts:

- `src/swapvec.rs` — `SwapVec`, a vector that spills batches of its oldest
  elements to a file, and `SwapVecIter`, which gives them back in order. The
  types take every decision and name the next piece of outside work
  (`PushWork`, `NextStep`); the caller creates, writes and reads the file and
  encodes batches.
- `src/batch.rs` — the records of a batched spill file (`BatchWriter`,
  `BatchReader`, `hash_bytes`).
- `src/deque_index.rs` — positional, cloning access to a `VecDeque`.
- `src/memcmp.rs` — the memcomparable encoding of byte strings used in keys,
  with proofs that decoding inverts encoding and that encoding keeps the
  byte-wise order.
- `src/sqlite.rs` — the SQLite tuning profiles and the `PRAGMA` statements they
  produce, and the transaction rules of the SQLite engine.
- `src/decimal.rs` — decimal rendering of integers.

`app/` holds the I/O around them: the spill file of `SwapVec` (with
`tempfile` and `rmp-serde`) and the SQLite engine's connections (with
`sqlite`, `crossbeam`, `either` and `miette`).
