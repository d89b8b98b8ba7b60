use vstd::prelude::*;
use std::hash::Hasher;
use crate::PARTITIONS;

verus! {

/// The 64-bit FxHash of a byte string, as `FxHasher` computes it after one
/// `write` of those bytes.
pub uninterp spec fn fx_hash(bytes: Seq<u8>) -> u64;

/// Relies on rustc_hash::FxHasher (`write`, then `finish`): an unseeded hash
/// whose value depends on the bytes alone.
#[verifier::external_body]
fn fx_hash_bytes(b: &[u8]) -> (r: u64)
    ensures
        r == fx_hash(b@),
{
    let mut h = rustc_hash::FxHasher::default();
    h.write(b);
    h.finish()
}

/// The partition that a normalized word is routed to.
pub open spec fn partition_of(w: Seq<u8>) -> int {
    (fx_hash(w) % (PARTITIONS as u64)) as int
}

/// The partition index of `word`: its FxHash modulo the partition count.
pub fn hash_partition(word: &[u8]) -> (r: usize)
    ensures
        r == partition_of(word@),
        r < PARTITIONS,
{
    (fx_hash_bytes(word) % (PARTITIONS as u64)) as usize
}

/// Partitioning is deterministic: two occurrences of the same word, whichever
/// chunk, file or worker reads them, go to the same partition, and that
/// partition is one of the `PARTITIONS` buckets.
pub proof fn lemma_partition_deterministic(a: Seq<u8>, b: Seq<u8>)
    requires
        a == b,
    ensures
        partition_of(a) == partition_of(b),
        0 <= partition_of(a) < PARTITIONS,
{
}

} // verus!
