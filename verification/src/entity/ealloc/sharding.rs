//! Shards of the entity ID allocator and their assignment to workers.

use rand::seq::SliceRandom;
use rand::Rng;

use vstd::prelude::*;

verus! {

/// A sharded entity ID allocator.
///
/// Each worker thread has mutable access to a shard in each cycle.
/// Between cycles, the shards are shuffled to new worker threads.
/// Shards draw from a gauge shared between threads,
/// so nothing is promised of the ID a shard hands out.
pub trait Shard {
    /// The allocation hint for the underlying recycler.
    type Hint;

    /// Allocates an ID from the shard.
    fn allocate(&mut self, hint: Self::Hint) -> u32;
}

/// Provides the randomness for shard assignment.
pub trait ShardAssigner: Sized {
    /// Whether a shard can be selected among `num_shards` shards.
    spec fn can_select(&self, num_shards: usize) -> bool;

    /// Whether `shard` is a possible selection among `num_shards` shards.
    spec fn may_select(&self, num_shards: usize, shard: usize) -> bool;

    /// The assigner after a selection among `num_shards` shards.
    spec fn after_select(&self, num_shards: usize) -> Self;

    /// Selects a shard for offline allocation.
    fn select_for_offline_allocation(&mut self, num_shards: usize) -> (r: usize)
        requires
            old(self).can_select(num_shards),
        ensures
            r < num_shards,
            old(self).may_select(num_shards, r),
            *final(self) == old(self).after_select(num_shards),
            final(self).can_select(num_shards),
    ;

    /// Shuffles shards for worker thread dispatch.
    fn shuffle_shards<T>(&mut self, shards: &mut [T])
        ensures
            final(shards)@.to_multiset() == old(shards)@.to_multiset(),
    ;
}

/// `rand::thread_rng().gen_range(0..bound)`.
///
/// Claims: the random index is below `bound`; `bound` must be nonzero since an empty range panics.
#[verifier::external_body]
fn random_index(bound: usize) -> (r: usize)
    requires
        bound > 0,
    ensures
        r < bound,
{
    rand::thread_rng().gen_range(0..bound)
}

/// `SliceRandom::shuffle` with `rand::thread_rng()`.
///
/// Claims: the slice afterwards holds the same items, in some order.
#[verifier::external_body]
fn random_shuffle<T>(items: &mut [T])
    ensures
        final(items)@.to_multiset() == old(items)@.to_multiset(),
{
    items.shuffle(&mut rand::thread_rng())
}

/// The default shard assigner using [`rand::thread_rng`].
#[derive(Debug, Clone, Copy)]
pub struct ThreadRngShardAssigner;

impl Default for ThreadRngShardAssigner {
    fn default() -> (r: Self) {
        ThreadRngShardAssigner
    }
}

impl ShardAssigner for ThreadRngShardAssigner {
    open spec fn can_select(&self, num_shards: usize) -> bool {
        num_shards > 0
    }

    open spec fn may_select(&self, num_shards: usize, shard: usize) -> bool {
        true
    }

    /// The randomness comes from the thread's generator; the assigner itself holds nothing.
    open spec fn after_select(&self, num_shards: usize) -> Self {
        *self
    }

    fn select_for_offline_allocation(&mut self, num_shards: usize) -> (r: usize) {
        random_index(num_shards)
    }

    fn shuffle_shards<T>(&mut self, shards: &mut [T]) {
        random_shuffle(shards)
    }
}

/// A shard assigner that never shuffles and always allocates from the same shard.
/// Used for testing only.
#[derive(Debug, Clone, Copy)]
pub struct StaticShardAssigner {
    /// The shard always returned for [`ShardAssigner::select_for_offline_allocation`].
    pub allocating_shard: usize,
}

impl Default for StaticShardAssigner {
    fn default() -> (r: Self)
        ensures
            r.allocating_shard == 0,
    {
        StaticShardAssigner { allocating_shard: 0 }
    }
}

impl ShardAssigner for StaticShardAssigner {
    open spec fn can_select(&self, num_shards: usize) -> bool {
        self.allocating_shard < num_shards
    }

    open spec fn may_select(&self, num_shards: usize, shard: usize) -> bool {
        shard == self.allocating_shard
    }

    open spec fn after_select(&self, num_shards: usize) -> Self {
        *self
    }

    fn select_for_offline_allocation(&mut self, num_shards: usize) -> (r: usize) {
        self.allocating_shard
    }

    fn shuffle_shards<T>(&mut self, shards: &mut [T])
        ensures
            final(shards)@ == old(shards)@,
    {
    }
}

} // verus!
