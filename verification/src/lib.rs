//! Parts of the retia storage layer: the spill-to-disk vector and its batch
//! file records, the memcomparable key encoding of byte strings, and the SQLite
//! engine's tuning profiles and transaction rules.

pub mod decimal;
pub mod sqlite;
pub mod batch;
pub mod deque_index;
pub mod swapvec;
pub mod memcmp;
