//! The interface of entity ID allocators.

use vstd::prelude::*;

use super::recycler::Recycler;
use super::recycling::Recycling;
use super::sharding::ShardAssigner;
use super::snapshot::Snapshot;

verus! {

/// Manages sharded entity ID allocation and deallocation.
pub trait Ealloc: Sized {
    /// The hint type supported by the allocator to fine-tune memory allocation.
    type AllocHint;

    /// The internal consistency of the allocator.
    spec fn wf(&self) -> bool;

    /// Whether an ID is currently allocated to an entity.
    spec fn is_live(&self, id: u32) -> bool;

    /// Whether [`allocate`](Self::allocate) can run without exhausting or misusing the allocator.
    spec fn can_allocate(&self) -> bool;

    /// Whether [`flush`](Self::flush) fits the machine's arithmetic.
    spec fn can_flush(&self) -> bool;

    /// The gauge that a snapshot taken now reports: IDs at or above it were never allocated.
    spec fn snapshot_gauge(&self) -> u32;

    /// The IDs below the gauge that a snapshot taken now reports as not allocated.
    spec fn snapshot_recyclable(&self) -> Set<u32>;

    /// The IDs queued for deallocation since the last flush.
    spec fn pending(&self) -> Set<u32>;

    /// The recycled IDs handed out again since the last flush.
    spec fn reused(&self) -> Set<u32>;

    /// Initializes a new allocator with `num_shards` shards.
    fn new(num_shards: usize) -> (r: Self)
        requires
            num_shards >= 1,
        ensures
            r.wf(),
            forall|id: u32| !#[trigger] r.is_live(id),
    ;

    /// Takes a snapshot of the available entity IDs.
    fn snapshot(&self) -> (r: Snapshot)
        requires
            self.wf(),
        ensures
            r.wf(),
            r.spec_gauge() == self.snapshot_gauge(),
            r.spec_recyclable() == self.snapshot_recyclable(),
    ;

    /// Allocates an ID in offline mode.
    fn allocate(&mut self, hint: Self::AllocHint) -> (r: u32)
        requires
            old(self).wf(),
            old(self).can_allocate(),
        ensures
            final(self).wf(),
            !old(self).is_live(r),
            final(self).is_live(r),
            forall|id: u32| id != r ==> #[trigger] final(self).is_live(id) == old(self).is_live(id),
    ;

    /// Queues the deallocation of an ID.
    fn queue_deallocate(&mut self, id: u32)
        requires
            old(self).wf(),
            old(self).is_live(id),
        ensures
            final(self).wf(),
            !final(self).is_live(id),
            forall|other: u32| other != id ==> #[trigger] final(self).is_live(other) == old(self).is_live(other),
            final(self).pending() == old(self).pending().insert(id),
            final(self).reused() == old(self).reused(),
            final(self).snapshot_gauge() == old(self).snapshot_gauge(),
            final(self).snapshot_recyclable() == old(self).snapshot_recyclable(),
    ;

    /// Flushes the queued operations after joining.
    fn flush(&mut self)
        requires
            old(self).wf(),
            old(self).can_flush(),
        ensures
            final(self).wf(),
            forall|id: u32| #[trigger] final(self).is_live(id) == old(self).is_live(id),
            final(self).pending() == Set::<u32>::empty(),
            final(self).reused() == Set::<u32>::empty(),
            final(self).snapshot_gauge() == old(self).snapshot_gauge(),
            final(self).snapshot_recyclable() == old(self).snapshot_recyclable().union(old(self).pending()).difference(
                old(self).reused(),
            ),
    ;
}

impl<T: Recycler, S: ShardAssigner + Default> Ealloc for Recycling<T, S> {
    type AllocHint = T::Hint;

    open spec fn wf(&self) -> bool {
        Recycling::wf(self)
    }

    open spec fn is_live(&self, id: u32) -> bool {
        Recycling::is_live(self, id)
    }

    open spec fn can_allocate(&self) -> bool {
        &&& self.assigner().can_select(self.num_shards() as usize)
        &&& self.gauge() < u32::MAX
    }

    open spec fn can_flush(&self) -> bool {
        self.flush_fits()
    }

    open spec fn snapshot_gauge(&self) -> u32 {
        self.gauge()
    }

    open spec fn snapshot_recyclable(&self) -> Set<u32> {
        self.recyclable()
    }

    open spec fn pending(&self) -> Set<u32> {
        self.dealloc_queue().to_set()
    }

    open spec fn reused(&self) -> Set<u32> {
        self.reused_ids()
    }

    fn new(num_shards: usize) -> (r: Self) {
        let r = Recycling::new_with_shard_assigner(num_shards, S::default());
        proof {
            assert forall|id: u32| !#[trigger] Recycling::is_live(&r, id) by {}
        }
        r
    }

    fn snapshot(&self) -> (r: Snapshot) {
        Recycling::snapshot(self)
    }

    fn allocate(&mut self, hint: T::Hint) -> (r: u32) {
        Recycling::allocate(self, hint)
    }

    fn queue_deallocate(&mut self, id: u32) {
        Recycling::queue_deallocate(self, id);
        proof {
            let before = old(self).dealloc_queue();
            let after = self.dealloc_queue();
            assert forall|x: u32| after.contains(x) <==> before.contains(x) || x == id by {
                if after.contains(x) {
                    let k = choose|k: int| 0 <= k < after.len() && after[k] == x;
                    if k < before.len() {
                        assert(before[k] == x);
                    }
                }
                if before.contains(x) {
                    let k = choose|k: int| 0 <= k < before.len() && before[k] == x;
                    assert(after[k] == x);
                }
                if x == id {
                    assert(after[before.len() as int] == id);
                }
            }
            assert(after.to_set() =~= before.to_set().insert(id));
            assert forall|x: u32| self.is_reused(x) <==> old(self).is_reused(x) by {
                if self.is_reused(x) {
                    let i = choose|i: int| 0 <= i < self.num_shards() && #[trigger] self.reused_in(i).contains(x);
                    assert(old(self).reused_in(i) == self.reused_in(i));
                }
                if old(self).is_reused(x) {
                    let i = choose|i: int| 0 <= i < old(self).num_shards() && #[trigger] old(self).reused_in(i).contains(x);
                    assert(old(self).reused_in(i) == self.reused_in(i));
                }
            }
            assert(self.reused_ids() =~= old(self).reused_ids());
        }
    }

    fn flush(&mut self) {
        Recycling::flush(self);
        proof {
            assert(self.dealloc_queue().to_set() =~= Set::<u32>::empty());
            assert forall|id: u32| !self.reused_ids().contains(id) by {
                if self.is_reused(id) {
                    let i = choose|i: int| 0 <= i < self.num_shards() && #[trigger] self.reused_in(i).contains(id);
                    assert(self.reused_in(i) == Seq::<u32>::empty());
                }
            }
            assert(self.reused_ids() =~= Set::<u32>::empty());
        }
    }
}

} // verus!
