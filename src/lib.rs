//! External sort-and-deduplicate engine: tokenization with boundary-safe
//! chunking, hash partitioning, per-partition reduction, a length-prefixed
//! record codec and a duplicate-collapsing merge.
use vstd::prelude::*;

pub mod merge;
pub mod order;
pub mod partition;
pub mod pipeline;
pub mod records;
pub mod tokenize;

verus! {

/// Number of hash partitions that words are routed to.
pub const PARTITIONS: usize = 256;

/// Nominal size of one chunk of an input file, in bytes (256 MiB).
pub const CHUNK_SIZE: usize = 268435456;

/// Overlap window: how many bytes past a nominal boundary are examined.
pub const MAX_WORD_LEN: usize = 32;

} // verus!
