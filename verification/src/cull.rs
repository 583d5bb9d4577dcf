//! Sharding of the per-frame culling compute pass across parallel queues.
//!
//! Large workloads are split into up to a fixed number of parallel
//! submissions, each signalling its own semaphore; when the work was
//! split, one final integration submission waits on all shard semaphores
//! and signals the single semaphore the graphics submission waits on,
//! turning the fan-out into one downstream dependency edge.

use vstd::prelude::*;
use vstd::arithmetic::div_mod::lemma_fundamental_div_mod;
use vstd::arithmetic::mul::lemma_mul_inequality;

verus! {

/// One parallel submission is worth spawning per this many work items.
pub const CULL_BATCH: u32 = 600;

/// How many parallel submissions to use: one per full batch, at least one
/// and at most `max_parallel`.
pub open spec fn spec_parallel(total: u32, max_parallel: u32) -> u32 {
    if total / CULL_BATCH < 1 {
        1
    } else if total / CULL_BATCH > max_parallel {
        max_parallel
    } else {
        total / CULL_BATCH
    }
}

/// How the culling work of one frame is split.
#[derive(Debug, Clone, PartialEq)]
pub struct CullPlan {
    /// Number of parallel submissions.
    pub parallel: u32,
    /// Work items per submission.
    pub chunk: u32,
    /// `(first item, item count)` of each submission, in submission order.
    pub shards: Vec<(u32, u32)>,
    /// Whether a final integration submission must gather the shard
    /// semaphores; exactly when the work was actually split.
    pub integrate: bool,
}

/// Splits `total` work items into even shards: `spec_parallel` many
/// submissions of `total / parallel` items each, covering the first
/// `parallel * chunk` items, with an integration submission exactly when
/// more than one shard runs.
#[verifier::loop_isolation(false)]
pub fn cull_shard_plan(total: u32, max_parallel: u32) -> (r: CullPlan)
    requires
        max_parallel >= 1,
    ensures
        r.parallel == spec_parallel(total, max_parallel),
        r.chunk == total / r.parallel,
        r.shards@.len() == r.parallel,
        forall|i: int|
            0 <= i < r.shards@.len() ==> (#[trigger] r.shards@[i]) == (
            (i * r.chunk as int) as u32,
            r.chunk,
            ),
        r.integrate == (r.parallel > 1),
{
    let batches = total / CULL_BATCH;
    let parallel: u32 = if batches < 1 {
        1
    } else if batches > max_parallel {
        max_parallel
    } else {
        batches
    };
    let chunk = total / parallel;
    proof {
        lemma_fundamental_div_mod(total as int, parallel as int);
    }
    let mut shards: Vec<(u32, u32)> = Vec::new();
    let mut offset: u32 = 0;
    let mut i: u32 = 0;
    while i < parallel
        invariant
            i <= parallel,
            shards@.len() == i as int,
            offset == i * chunk as int,
            forall|t: int|
                0 <= t < i ==> (#[trigger] shards@[t]) == ((t * chunk as int) as u32, chunk),
        decreases parallel - i,
    {
        proof {
            lemma_fundamental_div_mod(total as int, parallel as int);
            lemma_mul_inequality(i as int + 1, parallel as int, chunk as int);
            assert((i as int + 1) * chunk as int == i as int * chunk as int + chunk as int)
                by (nonlinear_arith);
            assert(parallel as int * chunk as int <= total as int);
        }
        shards.push((offset, chunk));
        offset = offset + chunk;
        i = i + 1;
    }
    CullPlan { parallel, chunk, shards, integrate: parallel > 1 }
}

} // verus!
