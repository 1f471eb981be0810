//! A periodic process-metrics sampler core: ranks processes by CPU usage,
//! keeps a bounded top-K working set, partitions it across polling lanes,
//! and validates per-process metric samples before they are handed to a sink.

use vstd::prelude::*;

pub mod lane;
pub mod metrics;
pub mod partition;
pub mod top_k;

use crate::partition::{chunk_bound, chunk_width, partition, views_of};
use crate::top_k::{distinct_pids, selected, snapshot_valid, top_k, UsageOutOfRange};

verus! {

/// Clamp a hardware-parallelism figure to a usable lane count: at least one
/// lane must exist even when the parallelism probe reports zero.
pub fn lane_count(hardware_parallelism: usize) -> (lanes: usize)
    ensures
        lanes >= 1,
        lanes == if hardware_parallelism == 0 { 1usize } else { hardware_parallelism },
{
    if hardware_parallelism == 0 {
        1
    } else {
        hardware_parallelism
    }
}

/// The discovery pass of the scheduler, after the paired snapshot reads: rank
/// the snapshot, keep the (at most) top_count identifiers with the greatest
/// CPU usage, and split them into exactly `lanes` chunks, one polling lane's
/// worth each. A snapshot entry outside the unit interval is rejected whole.
pub fn plan_lanes(snapshot: &Vec<(u64, u32)>, top_count: usize, lanes: usize) -> (plan: Result<
    Vec<Vec<u64>>,
    UsageOutOfRange,
>)
    requires
        distinct_pids(snapshot@),
        lanes >= 1,
    ensures
        plan is Ok <==> snapshot_valid(snapshot@),
        plan matches Ok(chunks) ==> ({
            let ids = views_of(chunks@).flatten();
            &&& chunks@.len() == lanes as int
            &&& ids.to_set() == selected(snapshot@, top_count as nat).dom()
            &&& ids.no_duplicates()
            &&& ids.len() == vstd::math::min(top_count as int, snapshot@.len() as int)
            &&& forall|i: int|
                0 <= i < lanes as int ==> (#[trigger] chunks@[i])@ == ids.subrange(
                    chunk_bound(ids.len() as int, chunk_width(ids.len() as int, lanes as int), i),
                    chunk_bound(
                        ids.len() as int,
                        chunk_width(ids.len() as int, lanes as int),
                        i + 1,
                    ),
                )
        }),
{
    match top_k(snapshot, top_count) {
        Ok(ids) => {
            let chunks = partition(&ids, lanes);
            Ok(chunks)
        },
        Err(bad) => Err(bad),
    }
}

} // verus!
