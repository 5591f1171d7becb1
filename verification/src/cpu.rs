//! The current-CPU hint for shard selection.
//!
//! Capture is sharded per CPU, so the hot path has no contention between cores. The hint may be
//! stale the instant it is read; it is fine for choosing a shard, never for correctness. Reading it
//! takes platform code, so a caller reads the index of its CPU, or takes 0 where it cannot be
//! determined cheaply, and hands it in.

use vstd::prelude::*;

verus! {

/// The shard of a CPU.
pub open spec fn shard_for(cpu: nat, num_shards: nat) -> nat {
    if num_shards <= 1 {
        0
    } else {
        cpu % num_shards
    }
}

/// The shard, in `0..num_shards`, of the CPU that the caller is running on; with one shard or none it
/// is 0.
pub fn current_hint(cpu: usize, num_shards: usize) -> (shard: usize)
    ensures
        shard == shard_for(cpu as nat, num_shards as nat),
        num_shards > 0 ==> shard < num_shards,
{
    if num_shards <= 1 {
        return 0;
    }
    cpu % num_shards
}

} // verus!
