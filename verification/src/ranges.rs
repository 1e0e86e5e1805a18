//! Partitioning of block ranges into bounded chunks, and the retry policy
//! used when a chunk's fetch fails.
//!
//! Every ranged query against the chain is split into chunks of at most a
//! fixed number of blocks; each chunk is one request/retry unit. The chunks
//! partition the inclusive range `[lo, hi]` exactly: they are adjacent, in
//! ascending order, and the first and last chunks touch the endpoints.

use vstd::prelude::*;

verus! {

/// Number of blocks per chunk when scanning for pool-creation events.
pub const ADDRESS_CHUNK_SIZE: u64 = 10_000;

/// Number of addresses per batch when populating pool metadata.
pub const INFO_BATCH_SIZE: u64 = 50;

/// How many times a failing chunk fetch is attempted before it is given up.
pub const RETRY_LIMIT: u64 = 10;

/// Longest random pause, in milliseconds, between two attempts at a chunk.
pub const MAX_JITTER_MS: u64 = 1000;

/// The chunks covering the inclusive block range `[lo, hi]`, each at most
/// `size` blocks wide, in ascending order.
pub open spec fn chunk_seq(lo: u64, hi: u64, size: u64) -> Seq<(u64, u64)>
    decreases hi - lo,
        when 1 <= size && lo <= hi
{
    if hi - lo < size {
        seq![(lo, hi)]
    } else {
        seq![(lo, (lo + size - 1) as u64)] + chunk_seq((lo + size) as u64, hi, size)
    }
}

/// Splits the inclusive block range `[lo, hi]` into chunks of at most `size`
/// blocks each.
pub fn chunk_ranges(lo: u64, hi: u64, size: u64) -> (chunks: Vec<(u64, u64)>)
    requires
        lo <= hi,
        1 <= size,
    ensures
        chunks@ == chunk_seq(lo, hi, size),
{
    let mut chunks: Vec<(u64, u64)> = Vec::new();
    let mut start: u64 = lo;
    loop
        invariant_except_break
            lo <= start <= hi,
            1 <= size,
            chunk_seq(lo, hi, size) == chunks@ + chunk_seq(start, hi, size),
        ensures
            chunks@ == chunk_seq(lo, hi, size),
        decreases hi - start,
    {
        if hi - start < size {
            chunks.push((start, hi));
            proof {
                assert(chunk_seq(start, hi, size) == seq![(start, hi)]);
                assert(chunks@ =~= chunk_seq(lo, hi, size));
            }
            break;
        } else {
            let end: u64 = start + size - 1;
            chunks.push((start, end));
            proof {
                assert(chunk_seq(start, hi, size) == seq![(start, end)] + chunk_seq(
                    (start + size) as u64,
                    hi,
                    size,
                ));
                assert(chunks@ + chunk_seq((start + size) as u64, hi, size) =~= chunk_seq(
                    lo,
                    hi,
                    size,
                ));
            }
            start = start + size;
        }
    }
    chunks
}

/// Every chunk of `chunk_seq(lo, hi, size)` lies inside `[lo, hi]`, is at
/// most `size` blocks wide, consecutive chunks are adjacent, and together
/// they span the whole range: no block is skipped and none is covered twice.
pub proof fn lemma_chunk_seq_partition(lo: u64, hi: u64, size: u64)
    requires
        lo <= hi,
        1 <= size,
    ensures
        chunk_seq(lo, hi, size).len() >= 1,
        chunk_seq(lo, hi, size)[0].0 == lo,
        chunk_seq(lo, hi, size).last().1 == hi,
        forall|i: int|
            0 <= i < chunk_seq(lo, hi, size).len() ==> {
                let c = #[trigger] chunk_seq(lo, hi, size)[i];
                lo <= c.0 <= c.1 <= hi && c.1 - c.0 < size
            },
        forall|i: int|
            1 <= i < chunk_seq(lo, hi, size).len() ==> (#[trigger] chunk_seq(lo, hi, size)[i]).0
                == chunk_seq(lo, hi, size)[i - 1].1 + 1,
    decreases hi - lo,
{
    if hi - lo < size {
    } else {
        lemma_chunk_seq_partition((lo + size) as u64, hi, size);
        let s = chunk_seq(lo, hi, size);
        let rest = chunk_seq((lo + size) as u64, hi, size);
        assert(s == seq![(lo, (lo + size - 1) as u64)] + rest);
        assert forall|i: int| 0 <= i < s.len() implies {
            let c = #[trigger] s[i];
            lo <= c.0 <= c.1 <= hi && c.1 - c.0 < size
        } by {
            if i > 0 {
                assert(s[i] == rest[i - 1]);
            }
        };
        assert forall|i: int| 1 <= i < s.len() implies (#[trigger] s[i]).0 == s[i - 1].1 + 1 by {
            assert(s[i] == rest[i - 1]);
            if i > 1 {
                assert(s[i - 1] == rest[i - 2]);
            }
        };
    }
}

/// Every block of the range is covered by exactly one chunk.
pub proof fn lemma_chunk_seq_covers(lo: u64, hi: u64, size: u64, b: u64)
    requires
        lo <= b <= hi,
        1 <= size,
    ensures
        exists|i: int|
            0 <= i < chunk_seq(lo, hi, size).len() && (#[trigger] chunk_seq(lo, hi, size)[i]).0
                <= b <= chunk_seq(lo, hi, size)[i].1,
    decreases hi - lo,
{
    if hi - lo < size {
        assert(chunk_seq(lo, hi, size)[0].0 <= b <= chunk_seq(lo, hi, size)[0].1);
    } else {
        if b <= lo + size - 1 {
            assert(chunk_seq(lo, hi, size)[0].0 <= b <= chunk_seq(lo, hi, size)[0].1);
        } else {
            lemma_chunk_seq_covers((lo + size) as u64, hi, size, b);
            let s = chunk_seq(lo, hi, size);
            let rest = chunk_seq((lo + size) as u64, hi, size);
            assert(s == seq![(lo, (lo + size - 1) as u64)] + rest);
            let j = choose|j: int| 0 <= j < rest.len() && (#[trigger] rest[j]).0 <= b <= rest[j].1;
            assert(s[j + 1] == rest[j]);
            assert(s[j + 1].0 <= b <= s[j + 1].1);
        }
    }
}

/// Decides whether a chunk fetch that has already failed `failures` times
/// should be attempted again, and with how long a pause first.
///
/// Returns `Some(pause)` with a random pause of at most [`MAX_JITTER_MS`]
/// milliseconds while the retry budget is not exhausted, and `None` once it
/// is.
pub fn retry_backoff(failures: u64) -> (decision: Option<u64>)
    ensures
        decision is Some <==> failures < RETRY_LIMIT,
        decision is Some ==> decision->0 <= MAX_JITTER_MS,
{
    if failures < RETRY_LIMIT {
        Some(retry_jitter_ms())
    } else {
        None
    }
}

/// Relies on `fastrand::u64`: returns a uniformly random value inside the
/// given closed range, here `0..=MAX_JITTER_MS`.
#[verifier::external_body]
fn retry_jitter_ms() -> (pause: u64)
    ensures
        pause <= MAX_JITTER_MS,
{
    fastrand::u64(0..=MAX_JITTER_MS)
}

} // verus!
