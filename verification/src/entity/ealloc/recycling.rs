//! The default allocator: new IDs from a gauge, freed IDs recycled through sharded recyclers.

use std::collections::BTreeSet;
use std::ops::Range;

use vstd::prelude::*;

use super::distribute::{
    distribute_sorted, distributed, int_sum, lemma_int_sum_step, seq_sum, sorted_sizes,
    lemma_fits_within_last,
};
use super::order::{is_stable_order, sizes_in_order, stable_order, size_index_less};
use super::gaps::{in_some_gap, range_bounds, separated};
use super::history::{follows, Call};
use super::recycler::Recycler;
use super::sharding::ShardAssigner;
use super::snapshot::{snapshot_chunks, Snapshot};
use crate::entity::Raw;

verus! {

broadcast use {vstd::std_specs::btree::group_btree_axioms, vstd::laws_cmp::group_laws_cmp};

/// The per-shard state of [`Recycling`]:
/// the recycled IDs it hands out and the IDs it reused since the last flush.
pub struct RecyclingShard<T> {
    pub(crate) recycler: T,
    pub(crate) reuse_queue: Vec<u32>,
}

impl<T: Recycler> RecyclingShard<T> {
    /// The recycled IDs held by this shard.
    pub closed spec fn recycled(&self) -> Set<u32> {
        self.recycler.recycled()
    }

    /// The recycler of this shard.
    pub closed spec fn spec_recycler(&self) -> T {
        self.recycler
    }

    /// The IDs this shard reused since the last flush, in order.
    pub closed spec fn reused(&self) -> Seq<u32> {
        self.reuse_queue@
    }

    /// The internal consistency of the shard.
    pub closed spec fn wf(&self) -> bool {
        self.recycler.wf() && self.recycler.recycled().finite()
    }

    /// Creates a shard with nothing recycled.
    pub fn new() -> (r: Self)
        ensures
            r.wf(),
            r.recycled() == Set::<u32>::empty(),
            r.reused() == Seq::<u32>::empty(),
    {
        RecyclingShard { recycler: T::new(), reuse_queue: Vec::new() }
    }

    /// The recycler of this shard.
    pub fn recycler(&self) -> (r: &T)
        ensures
            *r == self.spec_recycler(),
            r.recycled() == self.recycled(),
    {
        &self.recycler
    }

    /// The IDs this shard reused since the last flush.
    pub fn reuse_queue(&self) -> (r: &Vec<u32>)
        ensures
            r@ == self.reused(),
    {
        &self.reuse_queue
    }

    /// Allocates an ID: a recycled one if the recycler holds any,
    /// which is then queued for removal from the recyclable set,
    /// and otherwise the next ID of the gauge.
    pub fn allocate(&mut self, hint: T::Hint, gauge: &mut u32) -> (r: u32)
        requires
            old(self).wf(),
            *old(gauge) < u32::MAX,
        ensures
            final(self).wf(),
            (old(self).recycled().contains(r) && final(self).recycled() == old(self).recycled().remove(r)
                && final(self).reused() == old(self).reused().push(r) && *final(gauge) == *old(gauge)
                && old(self).spec_recycler().chooses(hint, r))
                || (old(self).recycled() == Set::<u32>::empty() && r == *old(gauge) && *final(gauge)
                == *old(gauge) + 1 && final(self).recycled() == old(self).recycled()
                && final(self).reused() == old(self).reused()),
    {
        match self.recycler.poll(hint) {
            Some(id) => {
                self.reuse_queue.push(id);
                id
            },
            None => {
                let id = *gauge;
                *gauge = Raw::add(id, 1);
                proof {
                    assert(self.recycler.recycled() =~= Set::<u32>::empty());
                }
                id
            },
        }
    }
}

/// The number of IDs each shard receives in a flush,
/// for shard sizes listed in ascending order.
pub open spec fn flush_takes(sorted: Seq<usize>, total: int) -> Seq<int> {
    Seq::new(sorted.len(), |j: int| distributed(sorted, total)[j] - sorted[j])
}

/// Where the IDs for the `j`-th shard in size order begin among the deallocated IDs.
pub open spec fn chunk_begin(takes: Seq<int>, j: int) -> int {
    int_sum(takes.take(j))
}

proof fn lemma_sum_diff(a: Seq<usize>, b: Seq<usize>)
    requires
        a.len() == b.len(),
    ensures
        int_sum(Seq::new(a.len(), |j: int| a[j] - b[j])) == seq_sum(a) - seq_sum(b),
    decreases a.len(),
{
    if a.len() > 0 {
        let n = a.len() as int;
        let d = Seq::new(a.len(), |j: int| a[j] - b[j]);
        lemma_sum_diff(a.drop_last(), b.drop_last());
        assert(d.drop_last() =~= Seq::new(a.drop_last().len(), |j: int| a.drop_last()[j] - b.drop_last()[j]));
    }
}

proof fn lemma_chunk_begin_step(takes: Seq<int>, j: int)
    requires
        0 <= j < takes.len(),
    ensures
        chunk_begin(takes, j + 1) == chunk_begin(takes, j) + takes[j],
{
    lemma_int_sum_step(takes, j);
}

proof fn lemma_chunk_begin_bounds(takes: Seq<int>, j: int)
    requires
        0 <= j <= takes.len(),
        forall|t: int| 0 <= t < takes.len() ==> takes[t] >= 0,
    ensures
        0 <= chunk_begin(takes, j) <= chunk_begin(takes, takes.len() as int),
    decreases j,
{
    if j == 0 {
        assert(takes.take(0) =~= Seq::<int>::empty());
    } else {
        lemma_chunk_begin_bounds(takes, j - 1);
        lemma_chunk_begin_step(takes, j - 1);
    }
    lemma_chunk_begin_monotonic(takes, j, takes.len() as int);
}

proof fn lemma_chunk_begin_monotonic(takes: Seq<int>, a: int, b: int)
    requires
        0 <= a <= b <= takes.len(),
        forall|t: int| 0 <= t < takes.len() ==> takes[t] >= 0,
    ensures
        chunk_begin(takes, a) <= chunk_begin(takes, b),
    decreases b - a,
{
    if a < b {
        lemma_chunk_begin_monotonic(takes, a, b - 1);
        lemma_chunk_begin_step(takes, b - 1);
    }
}

/// The default allocator supporting new IDs from a gauge and an arbitrary recycler.
///
/// IDs below the gauge are allocated unless they are held by a recycler
/// or queued for deallocation.
pub struct Recycling<T, S> {
    /// Whether `mark_need_flush` was called.
    flush_mark: bool,
    /// The next ID to allocate.
    global_gauge: u32,
    /// The recycled IDs as of the last flush.
    recyclable: BTreeSet<u32>,
    /// The recyclers and reuse queues of the shards.
    shards: Vec<RecyclingShard<T>>,
    /// The assigned shard.
    shard_assigner: S,
    /// The queue of deallocated IDs to distribute.
    dealloc_queue: Vec<u32>,
}

impl<T: Recycler, S: ShardAssigner> Recycling<T, S> {
    /// The next ID the gauge hands out.
    pub closed spec fn gauge(&self) -> u32 {
        self.global_gauge
    }

    /// The number of shards.
    pub closed spec fn num_shards(&self) -> nat {
        self.shards@.len()
    }

    /// The IDs held by the recycler of shard `i`.
    pub closed spec fn recycled_in(&self, i: int) -> Set<u32> {
        self.shards@[i].recycled()
    }

    /// The IDs held by shard `i` are those its recycler holds.
    pub proof fn lemma_recycled_in(&self, i: int)
        ensures
            self.recycled_in(i) == self.recycler_in(i).recycled(),
    {
    }

    /// A well-formed allocator has a gauge of at least 1 and recycles only IDs below it.
    pub proof fn lemma_recyclable_below_gauge(&self)
        requires
            self.wf(),
        ensures
            self.gauge() >= 1,
            forall|id: u32| #[trigger] self.recyclable().contains(id) ==> 1 <= id < self.gauge(),
    {
    }

    /// The recycler of shard `i`.
    pub closed spec fn recycler_in(&self, i: int) -> T {
        self.shards@[i].spec_recycler()
    }

    /// The IDs that shard `i` reused since the last flush.
    pub closed spec fn reused_in(&self, i: int) -> Seq<u32> {
        self.shards@[i].reused()
    }

    /// The IDs queued for deallocation, in order.
    pub closed spec fn dealloc_queue(&self) -> Seq<u32> {
        self.dealloc_queue@
    }

    /// The recycled IDs as of the last flush.
    pub closed spec fn recyclable(&self) -> Set<u32> {
        self.recyclable@
    }

    /// Whether a flush was requested.
    pub closed spec fn flush_marked(&self) -> bool {
        self.flush_mark
    }

    /// The shard assigner.
    pub closed spec fn assigner(&self) -> S {
        self.shard_assigner
    }

    /// Whether a recycler holds `id`.
    pub open spec fn is_free(&self, id: u32) -> bool {
        exists|i: int| 0 <= i < self.num_shards() && #[trigger] self.recycled_in(i).contains(id)
    }

    /// Whether a shard reused `id` since the last flush.
    pub open spec fn is_reused(&self, id: u32) -> bool {
        exists|i: int| 0 <= i < self.num_shards() && #[trigger] self.reused_in(i).contains(id)
    }

    /// Whether `id` is currently allocated to an entity.
    pub open spec fn is_live(&self, id: u32) -> bool {
        &&& 1 <= id < self.gauge()
        &&& !self.is_free(id)
        &&& !self.dealloc_queue().contains(id)
    }

    /// Whether the recyclable set holds exactly the free and reused IDs.
    pub open spec fn recyclable_exact(&self) -> bool {
        forall|id: u32| #[trigger]
            self.recyclable().contains(id) <==> (self.is_free(id) || self.is_reused(id))
    }

    /// The internal consistency of the allocator.
    pub closed spec fn wf(&self) -> bool {
        &&& self.global_gauge >= 1
        &&& self.shards@.len() >= 1
        &&& forall|i: int| 0 <= i < self.shards@.len() ==> #[trigger] self.shards@[i].wf()
        &&& forall|i: int, id: u32|
            0 <= i < self.shards@.len() && #[trigger] self.shards@[i].recycled().contains(id) ==> 1
                <= id < self.global_gauge
        &&& forall|i: int, k: int|
            0 <= i < self.shards@.len() && 0 <= k < self.shards@[i].reused().len() ==> 1
                <= #[trigger] self.shards@[i].reused()[k] < self.global_gauge
        &&& forall|k: int|
            0 <= k < self.dealloc_queue@.len() ==> 1 <= #[trigger] self.dealloc_queue@[k]
                < self.global_gauge
        &&& forall|id: u32| #[trigger] self.recyclable@.contains(id) ==> 1 <= id < self.global_gauge
        &&& forall|i: int, j: int, id: u32|
            0 <= i < self.shards@.len() && 0 <= j < self.shards@.len() && i != j
                && #[trigger] self.shards@[i].recycled().contains(id) ==> !(
            #[trigger] self.shards@[j].recycled().contains(id))
        &&& self.dealloc_queue@.no_duplicates()
        &&& forall|i: int, j: int, k: int|
            0 <= i < self.shards@.len() && 0 <= j < self.shards@.len() && 0 <= k
                < self.shards@[i].reused().len() ==> !(#[trigger] self.shards@[j].recycled().contains(
                #[trigger] self.shards@[i].reused()[k]))
        &&& forall|k: int, i: int|
            0 <= k < self.dealloc_queue@.len() && 0 <= i < self.shards@.len() ==> !(
            #[trigger] self.shards@[i].recycled().contains(#[trigger] self.dealloc_queue@[k]))
    }

    /// How an allocation from shard `i` that returned `r` leads from `self` to `post`:
    /// the shard either gave out one of its recycled IDs, queueing it as reused,
    /// or, with its recycler empty, the gauge gave out its next ID.
    /// All other shards are untouched.
    pub open spec fn allocation_step(&self, post: &Self, i: int, r: u32) -> bool {
        &&& forall|j: int|
            0 <= j < self.num_shards() && j != i ==> #[trigger] post.recycled_in(j)
                == self.recycled_in(j) && post.reused_in(j) == self.reused_in(j)
        &&& {
            ||| {
                &&& self.recycled_in(i).contains(r)
                &&& post.recycled_in(i) == self.recycled_in(i).remove(r)
                &&& post.reused_in(i) == self.reused_in(i).push(r)
                &&& post.gauge() == self.gauge()
            }
            ||| {
                &&& self.recycled_in(i) == Set::<u32>::empty()
                &&& r == self.gauge()
                &&& post.gauge() == self.gauge() + 1
                &&& post.recycled_in(i) == self.recycled_in(i)
                &&& post.reused_in(i) == self.reused_in(i)
            }
        }
    }

    /// The number of IDs held by each shard's recycler.
    pub open spec fn recycler_lens(&self) -> Seq<usize> {
        Seq::new(self.num_shards(), |i: int| self.recycled_in(i).len() as usize)
    }

    /// The IDs reused by some shard since the last flush.
    pub open spec fn reused_ids(&self) -> Set<u32> {
        Set::new(|id: u32| self.is_reused(id))
    }

    /// A flush that starts from `self` hands the deallocated IDs to the shards as in `post`:
    /// in the stable order `o` of shard sizes,
    /// each shard receives the next contiguous run of the queue,
    /// as long as [`distributed`] raises its size.
    pub open spec fn flush_distribution(&self, post: &Self, o: Seq<usize>) -> bool {
        let lens = self.recycler_lens();
        let d = self.dealloc_queue();
        let takes = flush_takes(sizes_in_order(lens, o), d.len() as int);
        &&& is_stable_order(lens, o)
        &&& forall|j: int|
            0 <= j < o.len() ==> #[trigger] post.recycled_in(o[j] as int) == self.recycled_in(
                o[j] as int,
            ).union(d.subrange(chunk_begin(takes, j), chunk_begin(takes, j + 1)).to_set())
    }

    /// The arithmetic of a flush fits in `usize`:
    /// no recycler could grow beyond it by taking the whole queue.
    pub open spec fn flush_fits(&self) -> bool {
        forall|i: int|
            0 <= i < self.num_shards() ==> #[trigger] self.recycled_in(i).len() + self.dealloc_queue().len() <= usize::MAX
    }

    /// Creates a new recycling allocator with a custom shard assigner.
    pub fn new_with_shard_assigner(num_shards: usize, shard_assigner: S) -> (r: Self)
        requires
            num_shards >= 1,
        ensures
            r.wf(),
            r.gauge() == 1,
            r.num_shards() == num_shards,
            forall|i: int| 0 <= i < num_shards ==> #[trigger] r.recycled_in(i) == Set::<u32>::empty(),
            forall|i: int| 0 <= i < num_shards ==> #[trigger] r.reused_in(i) == Seq::<u32>::empty(),
            r.dealloc_queue() == Seq::<u32>::empty(),
            r.recyclable() == Set::<u32>::empty(),
            !r.flush_marked(),
            r.assigner() == shard_assigner,
            r.recyclable_exact(),
    {
        let mut shards: Vec<RecyclingShard<T>> = Vec::new();
        let mut i: usize = 0;
        while i < num_shards
            invariant
                i <= num_shards,
                shards@.len() == i,
                forall|j: int| 0 <= j < i ==> #[trigger] shards@[j].wf(),
                forall|j: int| 0 <= j < i ==> #[trigger] shards@[j].recycled() == Set::<u32>::empty(),
                forall|j: int| 0 <= j < i ==> #[trigger] shards@[j].reused() == Seq::<u32>::empty(),
            decreases num_shards - i,
        {
            shards.push(RecyclingShard::new());
            i += 1;
        }
        let r = Recycling {
            flush_mark: false,
            global_gauge: <u32 as Raw>::first(),
            recyclable: BTreeSet::new(),
            shards,
            shard_assigner,
            dealloc_queue: Vec::new(),
        };
        proof {
            assert forall|id: u32| #[trigger] r.recyclable().contains(id) <==> (r.is_free(id)
                || r.is_reused(id)) by {
                if r.is_free(id) {
                    let i = choose|i: int| 0 <= i < r.num_shards() && #[trigger] r.recycled_in(i).contains(id);
                    assert(r.recycled_in(i) == Set::<u32>::empty());
                }
                if r.is_reused(id) {
                    let i = choose|i: int| 0 <= i < r.num_shards() && #[trigger] r.reused_in(i).contains(id);
                    assert(r.reused_in(i) == Seq::<u32>::empty());
                }
            }
        }
        r
    }

    /// Queues the deallocation of a live ID; it becomes recyclable at the next flush.
    pub fn queue_deallocate(&mut self, id: u32)
        requires
            old(self).wf(),
            old(self).is_live(id),
        ensures
            final(self).wf(),
            final(self).dealloc_queue() == old(self).dealloc_queue().push(id),
            final(self).gauge() == old(self).gauge(),
            final(self).num_shards() == old(self).num_shards(),
            forall|i: int| #[trigger] final(self).recycled_in(i) == old(self).recycled_in(i),
            forall|i: int| #[trigger] final(self).reused_in(i) == old(self).reused_in(i),
            final(self).recyclable() == old(self).recyclable(),
            final(self).flush_marked() == old(self).flush_marked(),
            final(self).assigner() == old(self).assigner(),
            !final(self).is_live(id),
            forall|other: u32| other != id ==> (#[trigger] final(self).is_live(other) == old(self).is_live(other)),
            old(self).recyclable_exact() ==> final(self).recyclable_exact(),
            follows(*old(self), *final(self), Call::Deallocate(id)),
    {
        let ghost prev = *self;
        self.dealloc_queue.push(id);
        proof {
            assert(self.shards@ == prev.shards@);
            assert forall|x: u32| #[trigger] self.is_free(x) == prev.is_free(x) by {
                if self.is_free(x) {
                    let i = choose|i: int| 0 <= i < self.num_shards() && #[trigger] self.recycled_in(i).contains(x);
                    assert(prev.recycled_in(i).contains(x));
                }
                if prev.is_free(x) {
                    let i = choose|i: int| 0 <= i < prev.num_shards() && #[trigger] prev.recycled_in(i).contains(x);
                    assert(self.recycled_in(i).contains(x));
                }
            }
            assert forall|x: u32| #[trigger] self.is_reused(x) == prev.is_reused(x) by {
                if self.is_reused(x) {
                    let i = choose|i: int| 0 <= i < self.num_shards() && #[trigger] self.reused_in(i).contains(x);
                    assert(prev.reused_in(i).contains(x));
                }
                if prev.is_reused(x) {
                    let i = choose|i: int| 0 <= i < prev.num_shards() && #[trigger] prev.reused_in(i).contains(x);
                    assert(self.reused_in(i).contains(x));
                }
            }
            if prev.recyclable_exact() {
                assert forall|x: u32| #[trigger] self.recyclable().contains(x) <==> (self.is_free(x) || self.is_reused(x)) by {
                    assert(prev.recyclable().contains(x) <==> (prev.is_free(x) || prev.is_reused(x)));
                }
            }
            assert(self.dealloc_queue@[self.dealloc_queue@.len() - 1] == id);
            assert forall|other: u32| other != id implies (#[trigger] self.is_live(other) == prev.is_live(other)) by {
                if self.dealloc_queue@.contains(other) {
                    let k = choose|k: int| 0 <= k < self.dealloc_queue@.len() && self.dealloc_queue@[k] == other;
                    assert(prev.dealloc_queue@[k] == other);
                }
                if prev.dealloc_queue@.contains(other) {
                    let k = choose|k: int| 0 <= k < prev.dealloc_queue@.len() && prev.dealloc_queue@[k] == other;
                    assert(self.dealloc_queue@[k] == other);
                }
            }
            assert forall|k: int, i: int|
                0 <= k < self.dealloc_queue@.len() && 0 <= i < self.shards@.len() implies !(
                #[trigger] self.shards@[i].recycled().contains(#[trigger] self.dealloc_queue@[k])) by {
                if k == prev.dealloc_queue@.len() {
                    if self.shards@[i].recycled().contains(id) {
                        assert(prev.recycled_in(i).contains(id));
                        assert(prev.is_free(id));
                    }
                }
            }
        }
    }

    /// Takes a snapshot of the allocated entity IDs.
    pub fn snapshot(&self) -> (r: Snapshot)
        requires
            self.wf(),
        ensures
            r.wf(),
            r.spec_gauge() == self.gauge(),
            r.spec_recyclable() == self.recyclable(),
    {
        Snapshot::new(self.global_gauge, self.recyclable.clone())
    }

    /// Lists the chunks of allocated entity IDs as of the last flush.
    ///
    /// The chunks are the maximal runs of IDs below the gauge that are not recyclable,
    /// in ascending order.
    pub fn iter_allocated_chunks_offline(&self) -> (r: Vec<Range<u32>>)
        requires
            self.wf(),
        ensures
            snapshot_chunks(self.gauge(), self.recyclable(), range_bounds(r@)),
            forall|i: int| 0 <= i < r@.len() ==> #[trigger] r@[i].start < r@[i].end,
            separated(range_bounds(r@)),
            forall|x: int|
                #[trigger] in_some_gap(range_bounds(r@), x) <==> (1 <= x < self.gauge()
                    && !self.recyclable().contains(x as u32)),
            self.settled() ==> forall|id: u32|
                #[trigger] in_some_gap(range_bounds(r@), id as int) <==> self.is_live(id),
    {
        let r = self.snapshot().iter_allocated_chunks();
        proof {
            if self.settled() {
                assert forall|id: u32| #[trigger] in_some_gap(range_bounds(r@), id as int) <==> self.is_live(id) by {
                    assert(in_some_gap(range_bounds(r@), id as int) <==> (1 <= id < self.gauge()
                        && !self.recyclable().contains(id)));
                    assert(self.recyclable().contains(id) <==> (self.is_free(id) || self.is_reused(id)));
                    if self.is_reused(id) {
                        let i = choose|i: int| 0 <= i < self.num_shards() && #[trigger] self.reused_in(i).contains(id);
                        assert(self.reused_in(i) == Seq::<u32>::empty());
                    }
                    assert(!self.dealloc_queue().contains(id));
                }
            }
        }
        r
    }

    /// No deallocation or reuse is pending and the recyclable set is exact,
    /// as after a flush that started from an exact recyclable set.
    pub open spec fn settled(&self) -> bool {
        &&& self.recyclable_exact()
        &&& self.dealloc_queue() == Seq::<u32>::empty()
        &&& forall|i: int| 0 <= i < self.num_shards() ==> #[trigger] self.reused_in(i) == Seq::<u32>::empty()
    }

    /// Requests a flush at the next call to [`flush_if_marked`](Self::flush_if_marked).
    pub fn mark_need_flush(&mut self)
        ensures
            final(self).flush_marked(),
            final(self).gauge() == old(self).gauge(),
            final(self).shards_unchanged(old(self)),
            final(self).dealloc_queue() == old(self).dealloc_queue(),
            final(self).recyclable() == old(self).recyclable(),
            final(self).assigner() == old(self).assigner(),
            old(self).wf() ==> final(self).wf(),
    {
        self.flush_mark = true;
    }

    /// The assigner used to select shards.
    pub fn shard_assigner(&self) -> (r: &S)
        ensures
            *r == self.assigner(),
    {
        &self.shard_assigner
    }

    /// Replaces the assigner used to select shards.
    pub fn set_shard_assigner(&mut self, assigner: S)
        ensures
            final(self).assigner() == assigner,
            final(self).gauge() == old(self).gauge(),
            final(self).shards_unchanged(old(self)),
            final(self).dealloc_queue() == old(self).dealloc_queue(),
            final(self).recyclable() == old(self).recyclable(),
            final(self).flush_marked() == old(self).flush_marked(),
            old(self).wf() ==> final(self).wf(),
    {
        self.shard_assigner = assigner;
    }

    /// The number of shards.
    pub fn shard_count(&self) -> (r: usize)
        ensures
            r == self.num_shards(),
    {
        self.shards.len()
    }

    /// The state of shard `index`.
    pub fn shard(&self, index: usize) -> (r: &RecyclingShard<T>)
        requires
            index < self.num_shards(),
        ensures
            r.recycled() == self.recycled_in(index as int),
            r.reused() == self.reused_in(index as int),
    {
        &self.shards[index]
    }

    /// The number of recyclable IDs as of the last flush.
    pub fn recyclable_len(&self) -> (r: usize)
        ensures
            r == self.recyclable().len(),
    {
        self.recyclable.len()
    }

    /// Whether the shards hold the same recycled and reused IDs as in `other`.
    pub open spec fn shards_unchanged(&self, other: &Self) -> bool {
        &&& self.num_shards() == other.num_shards()
        &&& forall|i: int| #[trigger] self.recycled_in(i) == other.recycled_in(i)
        &&& forall|i: int| #[trigger] self.reused_in(i) == other.reused_in(i)
    }

    proof fn lemma_find_chunk(takes: Seq<int>, k: int, j: int) -> (r: int)
        requires
            0 <= j <= takes.len(),
            forall|t: int| 0 <= t < takes.len() ==> takes[t] >= 0,
            chunk_begin(takes, j) <= k < chunk_begin(takes, takes.len() as int),
        ensures
            j <= r < takes.len(),
            chunk_begin(takes, r) <= k < chunk_begin(takes, r + 1),
        decreases takes.len() - j,
    {
        if j == takes.len() {
            j
        } else {
            lemma_chunk_begin_step(takes, j);
            if k < chunk_begin(takes, j + 1) {
                j
            } else {
                Self::lemma_find_chunk(takes, k, j + 1)
            }
        }
    }

    /// The facts that the hand-out loop of a flush establishes.
    spec fn handed_out(pre: Self, post: Self, o: Seq<usize>, takes: Seq<int>) -> bool {
        let d = pre.dealloc_queue@;
        &&& pre.wf()
        &&& post.shards@.len() == pre.shards@.len()
        &&& o.len() == pre.shards@.len()
        &&& o.len() <= usize::MAX
        &&& o.no_duplicates()
        &&& forall|t: int| 0 <= t < o.len() ==> #[trigger] o[t] < o.len()
        &&& takes.len() == o.len()
        &&& forall|t: int| 0 <= t < takes.len() ==> #[trigger] takes[t] >= 0
        &&& chunk_begin(takes, takes.len() as int) == d.len()
        &&& forall|t: int| 0 <= t < o.len() ==> #[trigger] post.shards@[o[t] as int].recycled() == pre.recycled_in(o[t] as int).union(
                d.subrange(chunk_begin(takes, t), chunk_begin(takes, t + 1)).to_set())
        &&& forall|t: usize| t < o.len() && !o.contains(t) ==> #[trigger] post.shards@[t as int].recycled() == pre.recycled_in(t as int)
    }

    proof fn lemma_chunk_facts(takes: Seq<int>, a: int)
        requires
            0 <= a < takes.len(),
            forall|t: int| 0 <= t < takes.len() ==> takes[t] >= 0,
        ensures
            0 <= chunk_begin(takes, a) <= chunk_begin(takes, a + 1) <= chunk_begin(takes, takes.len() as int),
    {
        lemma_chunk_begin_bounds(takes, a);
        lemma_chunk_begin_bounds(takes, a + 1);
        lemma_chunk_begin_step(takes, a);
    }

    /// After handing out, a shard holds its own IDs and those of its chunk.
    proof fn lemma_post_contents(pre: Self, post: Self, o: Seq<usize>, takes: Seq<int>, u: usize, x: u32)
        requires
            Self::handed_out(pre, post, o, takes),
            u < o.len(),
            post.shards@[u as int].recycled().contains(x),
        ensures
            pre.shards@[u as int].recycled().contains(x) || exists|a: int, k: int|
                #![trigger o[a], pre.dealloc_queue@[k]]
                0 <= a < o.len() && o[a] == u && chunk_begin(takes, a) <= k < chunk_begin(takes, a + 1)
                    && pre.dealloc_queue@[k] == x,
    {
        let d = pre.dealloc_queue@;
        if o.contains(u) {
            let a = choose|a: int| 0 <= a < o.len() && o[a] == u;
            assert(post.shards@[o[a] as int].recycled() == pre.recycled_in(o[a] as int).union(
                d.subrange(chunk_begin(takes, a), chunk_begin(takes, a + 1)).to_set()));
            if !pre.shards@[u as int].recycled().contains(x) {
                let sub = d.subrange(chunk_begin(takes, a), chunk_begin(takes, a + 1));
                assert(sub.to_set().contains(x));
                let k = choose|k: int| 0 <= k < sub.len() && sub[k] == x;
                Self::lemma_chunk_facts(takes, a);
                assert(d[chunk_begin(takes, a) + k] == x);
            }
        }
    }

    /// After handing out, the shards still hold pairwise distinct IDs below the gauge.
    proof fn lemma_post_disjoint(pre: Self, post: Self, o: Seq<usize>, takes: Seq<int>)
        requires
            Self::handed_out(pre, post, o, takes),
        ensures
            forall|u: int, x: u32| 0 <= u < o.len() && #[trigger] post.shards@[u].recycled().contains(x) ==> 1 <= x < pre.global_gauge,
            forall|u: int, v: int, x: u32|
                0 <= u < o.len() && 0 <= v < o.len() && u != v && #[trigger] post.shards@[u].recycled().contains(x) ==> !(
                #[trigger] post.shards@[v].recycled().contains(x)),
    {
        let d = pre.dealloc_queue@;
        assert forall|u: int, x: u32| 0 <= u < o.len() && #[trigger] post.shards@[u].recycled().contains(x) implies 1 <= x < pre.global_gauge by {
            Self::lemma_post_contents(pre, post, o, takes, u as usize, x);
            if !pre.shards@[u].recycled().contains(x) {
                let (a, k) = choose|a: int, k: int|
                    #![trigger o[a], d[k]]
                    0 <= a < o.len() && o[a] == u as usize && chunk_begin(takes, a) <= k < chunk_begin(takes, a + 1)
                        && d[k] == x;
                Self::lemma_chunk_facts(takes, a);
            }
        }
        assert forall|u: int, v: int, x: u32|
            0 <= u < o.len() && 0 <= v < o.len() && u != v && #[trigger] post.shards@[u].recycled().contains(x) implies !(
            #[trigger] post.shards@[v].recycled().contains(x)) by {
            if post.shards@[v].recycled().contains(x) {
                Self::lemma_post_contents(pre, post, o, takes, u as usize, x);
                Self::lemma_post_contents(pre, post, o, takes, v as usize, x);
                let in_u = pre.shards@[u].recycled().contains(x);
                let in_v = pre.shards@[v].recycled().contains(x);
                if !in_u && !in_v {
                    let (a, ka) = choose|a: int, k: int|
                        #![trigger o[a], d[k]]
                        0 <= a < o.len() && o[a] == u as usize && chunk_begin(takes, a) <= k < chunk_begin(takes, a + 1)
                            && d[k] == x;
                    let (b, kb) = choose|b: int, k: int|
                        #![trigger o[b], d[k]]
                        0 <= b < o.len() && o[b] == v as usize && chunk_begin(takes, b) <= k < chunk_begin(takes, b + 1)
                            && d[k] == x;
                    Self::lemma_chunk_facts(takes, a);
                    Self::lemma_chunk_facts(takes, b);
                    assert(a != b);
                    if a < b {
                        lemma_chunk_begin_monotonic(takes, a + 1, b);
                    } else {
                        lemma_chunk_begin_monotonic(takes, b + 1, a);
                    }
                    assert(ka != kb);
                    assert(d[ka] == d[kb]);
                } else if in_u && !in_v {
                    let (b, kb) = choose|b: int, k: int|
                        #![trigger o[b], d[k]]
                        0 <= b < o.len() && o[b] == v as usize && chunk_begin(takes, b) <= k < chunk_begin(takes, b + 1)
                            && d[k] == x;
                    Self::lemma_chunk_facts(takes, b);
                    assert(!pre.shards@[u].recycled().contains(pre.dealloc_queue@[kb]));
                } else if !in_u && in_v {
                    let (a, ka) = choose|a: int, k: int|
                        #![trigger o[a], d[k]]
                        0 <= a < o.len() && o[a] == u as usize && chunk_begin(takes, a) <= k < chunk_begin(takes, a + 1)
                            && d[k] == x;
                    Self::lemma_chunk_facts(takes, a);
                    assert(!pre.shards@[v].recycled().contains(pre.dealloc_queue@[ka]));
                }
            }
        }
    }

    /// After handing out, the free IDs are the old free ones and the deallocated ones.
    proof fn lemma_post_free(pre: Self, post: Self, o: Seq<usize>, takes: Seq<int>)
        requires
            Self::handed_out(pre, post, o, takes),
        ensures
            forall|id: u32| #[trigger] post.is_free(id) <==> (pre.is_free(id) || pre.dealloc_queue().contains(id)),
    {
        let d = pre.dealloc_queue@;
        assert forall|id: u32| #[trigger] post.is_free(id) <==> (pre.is_free(id) || pre.dealloc_queue().contains(id)) by {
            if post.is_free(id) {
                let u = choose|u: int| 0 <= u < post.num_shards() && #[trigger] post.recycled_in(u).contains(id);
                Self::lemma_post_contents(pre, post, o, takes, u as usize, id);
                if pre.shards@[u].recycled().contains(id) {
                    assert(pre.recycled_in(u).contains(id));
                } else {
                    let (a, k) = choose|a: int, k: int|
                        #![trigger o[a], d[k]]
                        0 <= a < o.len() && o[a] == u as usize && chunk_begin(takes, a) <= k < chunk_begin(takes, a + 1)
                            && d[k] == id;
                    Self::lemma_chunk_facts(takes, a);
                    assert(d.contains(id));
                }
            }
            if pre.is_free(id) {
                let u = choose|u: int| 0 <= u < pre.num_shards() && #[trigger] pre.recycled_in(u).contains(id);
                let uu = u as usize;
                if o.contains(uu) {
                    let a = choose|a: int| 0 <= a < o.len() && o[a] == uu;
                    assert(post.shards@[o[a] as int].recycled() == pre.recycled_in(o[a] as int).union(
                        d.subrange(chunk_begin(takes, a), chunk_begin(takes, a + 1)).to_set()));
                    assert(post.shards@[uu as int].recycled().contains(id));
                } else {
                    assert(post.shards@[uu as int].recycled() == pre.recycled_in(uu as int));
                }
                assert(post.recycled_in(u).contains(id));
            }
            if d.contains(id) {
                let k = choose|k: int| 0 <= k < d.len() && d[k] == id;
                assert(chunk_begin(takes, 0) == 0) by {
                    assert(takes.take(0) =~= Seq::<int>::empty());
                }
                let a = Self::lemma_find_chunk(takes, k, 0);
                Self::lemma_chunk_facts(takes, a);
                let sub = d.subrange(chunk_begin(takes, a), chunk_begin(takes, a + 1));
                assert(sub[k - chunk_begin(takes, a)] == id);
                assert(sub.to_set().contains(id));
                assert(post.shards@[o[a] as int].recycled() == pre.recycled_in(o[a] as int).union(sub.to_set()));
                assert(post.recycled_in(o[a] as int).contains(id));
            }
        }
    }

    /// Adds the deallocated IDs to the recyclable set.
    fn absorb_deallocated(&mut self)
        ensures
            final(self).recyclable@ == old(self).recyclable@.union(old(self).dealloc_queue@.to_set()),
            final(self).shards@ == old(self).shards@,
            final(self).dealloc_queue@ == old(self).dealloc_queue@,
            final(self).global_gauge == old(self).global_gauge,
            final(self).flush_mark == old(self).flush_mark,
            final(self).shard_assigner == old(self).shard_assigner,
    {
        let ghost d = self.dealloc_queue@;
        let ghost r0 = self.recyclable@;
        let mut k: usize = 0;
        while k < self.dealloc_queue.len()
            invariant
                0 <= k <= d.len(),
                self.dealloc_queue@ == d,
                self.shards@ == old(self).shards@,
                self.global_gauge == old(self).global_gauge,
                self.flush_mark == old(self).flush_mark,
                self.shard_assigner == old(self).shard_assigner,
                r0 == old(self).recyclable@,
                d == old(self).dealloc_queue@,
                self.recyclable@ == r0.union(d.take(k as int).to_set()),
            decreases d.len() - k,
        {
            let id = self.dealloc_queue[k];
            self.recyclable.insert(id);
            proof {
                let prefix = d.take(k as int);
                let next = d.take(k + 1);
                assert(next =~= prefix.push(id));
                assert(next.to_set() =~= prefix.to_set().insert(id)) by {
                    assert forall|x: u32| next.to_set().contains(x) implies prefix.to_set().insert(id).contains(x) by {
                        let t = choose|t: int| 0 <= t < next.len() && next[t] == x;
                        if t < k {
                            assert(prefix[t] == x);
                        }
                    }
                    assert forall|x: u32| prefix.to_set().insert(id).contains(x) implies next.to_set().contains(x) by {
                        if x == id {
                            assert(next[k as int] == x);
                        } else {
                            let t = choose|t: int| 0 <= t < prefix.len() && prefix[t] == x;
                            assert(next[t] == x);
                        }
                    }
                }
            }
            k += 1;
        }
        proof {
            assert(d.take(d.len() as int) =~= d);
        }
    }

    /// Removes the reused IDs from the recyclable set and empties the reuse queues.
    fn drain_reuse_queues(&mut self)
        ensures
            final(self).recyclable@ == old(self).recyclable@.difference(old(self).reused_ids()),
            final(self).shards@.len() == old(self).shards@.len(),
            forall|t: int| 0 <= t < old(self).shards@.len() ==> #[trigger] final(self).shards@[t].recycler == old(self).shards@[t].recycler,
            forall|t: int| 0 <= t < old(self).shards@.len() ==> #[trigger] final(self).shards@[t].reuse_queue@ == Seq::<u32>::empty(),
            final(self).dealloc_queue@ == old(self).dealloc_queue@,
            final(self).global_gauge == old(self).global_gauge,
            final(self).flush_mark == old(self).flush_mark,
            final(self).shard_assigner == old(self).shard_assigner,
    {
        let ghost pre = *self;
        let ghost r1 = self.recyclable@;
        let ghost n = self.shards@.len();
        let mut i: usize = 0;
        while i < self.shards.len()
            invariant
                0 <= i <= n,
                n == self.shards@.len(),
                pre == *old(self),
                r1 == pre.recyclable@,
                n == pre.shards@.len(),
                self.dealloc_queue@ == pre.dealloc_queue@,
                self.global_gauge == pre.global_gauge,
                self.flush_mark == pre.flush_mark,
                self.shard_assigner == pre.shard_assigner,
                forall|t: int| 0 <= t < n ==> #[trigger] self.shards@[t].recycler == pre.shards@[t].recycler,
                forall|t: int| 0 <= t < i ==> #[trigger] self.shards@[t].reuse_queue@ == Seq::<u32>::empty(),
                forall|t: int| i <= t < n ==> #[trigger] self.shards@[t].reuse_queue@ == pre.shards@[t].reuse_queue@,
                forall|x: u32| #[trigger] self.recyclable@.contains(x) <==> (r1.contains(x) && !exists|t: int|
                    0 <= t < i && #[trigger] pre.shards@[t].reuse_queue@.contains(x)),
            decreases n - i,
        {
            let ghost before = self.recyclable@;
            let ghost at_start = *self;
            let mut k: usize = 0;
            while k < self.shards[i].reuse_queue.len()
                invariant
                    0 <= i < n,
                    n == self.shards@.len(),
                    0 <= k <= self.shards@[i as int].reuse_queue@.len(),
                    self.shards@ == at_start.shards@,
                    self.dealloc_queue@ == old(self).dealloc_queue@,
                    self.global_gauge == old(self).global_gauge,
                    self.flush_mark == old(self).flush_mark,
                    self.shard_assigner == old(self).shard_assigner,
                    forall|x: u32| #[trigger] self.recyclable@.contains(x) <==> (before.contains(x)
                        && !self.shards@[i as int].reuse_queue@.take(k as int).contains(x)),
                decreases self.shards@[i as int].reuse_queue@.len() - k,
            {
                let item = self.shards[i].reuse_queue[k];
                self.recyclable.remove(&item);
                proof {
                    let q = self.shards@[i as int].reuse_queue@;
                    let prefix = q.take(k as int);
                    let next = q.take(k + 1);
                    assert(next =~= prefix.push(item));
                    assert forall|x: u32| next.contains(x) <==> (prefix.contains(x) || x == item) by {
                        if next.contains(x) {
                            let t = choose|t: int| 0 <= t < next.len() && next[t] == x;
                            if t < k {
                                assert(prefix[t] == x);
                            }
                        }
                        if prefix.contains(x) {
                            let t = choose|t: int| 0 <= t < prefix.len() && prefix[t] == x;
                            assert(next[t] == x);
                        }
                        if x == item {
                            assert(next[k as int] == x);
                        }
                    }
                }
                k += 1;
            }
            let ghost before_clear = self.shards@;
            self.shards[i].reuse_queue.clear();
            proof {
                assert forall|t: int| 0 <= t < n && t != i implies #[trigger] self.shards@[t] == before_clear[t] by {}
                let q = pre.shards@[i as int].reuse_queue@;
                assert(q.take(q.len() as int) =~= q);
                assert forall|x: u32| #[trigger] self.recyclable@.contains(x) <==> (r1.contains(x) && !exists|t: int|
                    0 <= t < i + 1 && #[trigger] pre.shards@[t].reuse_queue@.contains(x)) by {
                    if exists|t: int| 0 <= t < i + 1 && #[trigger] pre.shards@[t].reuse_queue@.contains(x) {
                        let t = choose|t: int| 0 <= t < i + 1 && #[trigger] pre.shards@[t].reuse_queue@.contains(x);
                        if t < i {
                            assert(!before.contains(x));
                        }
                    }
                }
            }
            i += 1;
        }
        proof {
            assert forall|x: u32| #[trigger] self.recyclable@.contains(x) <==> r1.difference(pre.reused_ids()).contains(x) by {
                if pre.is_reused(x) {
                    let t = choose|t: int| 0 <= t < pre.num_shards() && #[trigger] pre.reused_in(t).contains(x);
                    assert(pre.shards@[t].reuse_queue@.contains(x));
                }
                if exists|t: int| 0 <= t < n && #[trigger] pre.shards@[t].reuse_queue@.contains(x) {
                    let t = choose|t: int| 0 <= t < n && #[trigger] pre.shards@[t].reuse_queue@.contains(x);
                    assert(pre.reused_in(t).contains(x));
                }
            }
            assert(self.recyclable@ =~= r1.difference(pre.reused_ids()));
        }
    }

    /// The number of IDs in each shard's recycler.
    fn recycler_sizes(&self) -> (r: Vec<usize>)
        requires
            forall|t: int| 0 <= t < self.shards@.len() ==> #[trigger] self.shards@[t].wf(),
        ensures
            r@ == self.recycler_lens(),
    {
        let num = self.shards.len();
        let mut lens: Vec<usize> = Vec::new();
        let mut i: usize = 0;
        while i < num
            invariant
                0 <= i <= num,
                num == self.shards@.len(),
                lens@.len() == i,
                forall|t: int| 0 <= t < i ==> #[trigger] lens@[t] == self.recycler_lens()[t],
                forall|t: int| 0 <= t < num ==> #[trigger] self.shards@[t].wf(),
            decreases num - i,
        {
            assert(self.shards@[i as int].wf());
            lens.push(self.shards[i].recycler.len());
            i += 1;
        }
        proof {
            assert(lens@ =~= self.recycler_lens());
        }
        lens
    }

    /// Hands each shard in `order` its run of the deallocated IDs.
    fn hand_out(&mut self, order: &Vec<usize>, takes: &Vec<usize>)
        requires
            old(self).wf(),
            order@.len() == old(self).shards@.len(),
            takes@.len() == order@.len(),
            order@.no_duplicates(),
            forall|t: int| 0 <= t < order@.len() ==> #[trigger] order@[t] < order@.len(),
            chunk_begin(takes@.map_values(|x: usize| x as int), takes@.len() as int) == old(self).dealloc_queue@.len(),
        ensures
            Self::handed_out(*old(self), *final(self), order@, takes@.map_values(|x: usize| x as int)),
            forall|t: int| 0 <= t < final(self).shards@.len() ==> #[trigger] final(self).shards@[t].wf(),
            forall|t: int| 0 <= t < final(self).shards@.len() ==> #[trigger] final(self).shards@[t].reuse_queue@ == old(self).shards@[t].reuse_queue@,
            final(self).dealloc_queue@ == old(self).dealloc_queue@,
            final(self).recyclable@ == old(self).recyclable@,
            final(self).global_gauge == old(self).global_gauge,
            final(self).flush_mark == old(self).flush_mark,
            final(self).shard_assigner == old(self).shard_assigner,
    {
        let ghost pre = *self;
        let ghost d = self.dealloc_queue@;
        let ghost o = order@;
        let ghost tk = takes@.map_values(|x: usize| x as int);
        let ghost n = self.shards@.len();
        let num = self.shards.len();
        let dlen = self.dealloc_queue.len();
        let mut cursor: usize = 0;
        let mut j: usize = 0;
        while j < num
            invariant
                0 <= j <= num,
                num == n,
                pre == *old(self),
                pre.wf(),
                pre.shards@.len() == n,
                dlen == d.len(),
                o == order@,
                o.len() == n,
                o.no_duplicates(),
                forall|t: int| 0 <= t < n ==> #[trigger] o[t] < n,
                tk == takes@.map_values(|x: usize| x as int),
                tk.len() == n,
                chunk_begin(tk, n as int) == d.len(),
                cursor == chunk_begin(tk, j as int),
                d == pre.dealloc_queue@,
                self.dealloc_queue@ == d,
                self.shards@.len() == n,
                self.global_gauge == pre.global_gauge,
                self.recyclable@ == pre.recyclable@,
                self.flush_mark == pre.flush_mark,
                self.shard_assigner == pre.shard_assigner,
                forall|t: int| 0 <= t < n ==> #[trigger] self.shards@[t].reuse_queue@ == pre.shards@[t].reuse_queue@,
                forall|t: int| 0 <= t < n ==> #[trigger] self.shards@[t].wf(),
                forall|t: int| 0 <= t < j ==> #[trigger] self.shards@[o[t] as int].recycled() == pre.recycled_in(o[t] as int).union(
                    d.subrange(chunk_begin(tk, t), chunk_begin(tk, t + 1)).to_set()),
                forall|t: int| 0 <= t < n && !o.take(j as int).contains(t as usize) ==> #[trigger] self.shards@[t].recycled() == pre.recycled_in(t),
            decreases num - j,
        {
            let shard = order[j];
            let take = takes[j];
            proof {
                assert forall|t: int| 0 <= t < tk.len() implies tk[t] >= 0 by {}
                lemma_chunk_begin_step(tk, j as int);
                lemma_chunk_begin_monotonic(tk, j + 1, n as int);
                assert(o.take(j as int + 1) =~= o.take(j as int).push(shard));
                if o.take(j as int).contains(shard) {
                    let prefix = o.take(j as int);
                    let t = choose|t: int| 0 <= t < j && prefix[t] == shard;
                    assert(o[t] == o[j as int]);
                }
            }
            let ghost base = self.shards@[shard as int].recycled();
            let ghost outer = *self;
            let mut t: usize = 0;
            while t < take
                invariant
                    0 <= t <= take,
                    cursor + take <= d.len(),
                    dlen == d.len(),
                    shard < n,
                    pre.wf(),
                    d == pre.dealloc_queue@,
                    self.dealloc_queue@ == d,
                    self.shards@.len() == n,
                    pre.shards@.len() == n,
                    self.global_gauge == pre.global_gauge,
                    self.recyclable@ == pre.recyclable@,
                    self.flush_mark == pre.flush_mark,
                    self.shard_assigner == pre.shard_assigner,
                    self.shards@[shard as int].wf(),
                    self.shards@[shard as int].reuse_queue@ == outer.shards@[shard as int].reuse_queue@,
                    base == pre.recycled_in(shard as int),
                    self.shards@[shard as int].recycled() == base.union(d.subrange(cursor as int, cursor + t).to_set()),
                    forall|u: int| 0 <= u < n && u != shard ==> #[trigger] self.shards@[u] == outer.shards@[u],
                decreases take - t,
            {
                let id = self.dealloc_queue[cursor + t];
                proof {
                    let k = cursor + t;
                    let sub = d.subrange(cursor as int, cursor + t);
                    assert(!pre.shards@[shard as int].recycled().contains(pre.dealloc_queue@[k]));
                    if sub.to_set().contains(id) {
                        let u = choose|u: int| 0 <= u < t && sub[u] == id;
                        assert(d[cursor + u] == d[k as int]);
                    }
                }
                self.shards[shard].recycler.push(id);
                proof {
                    let sub = d.subrange(cursor as int, cursor + t);
                    let next = d.subrange(cursor as int, cursor + t + 1);
                    assert(next =~= sub.push(id));
                    assert(next.to_set() =~= sub.to_set().insert(id)) by {
                        assert forall|x: u32| next.to_set().contains(x) implies sub.to_set().insert(id).contains(x) by {
                            let u = choose|u: int| 0 <= u < next.len() && next[u] == x;
                            if u < t {
                                assert(sub[u] == x);
                            }
                        }
                        assert forall|x: u32| sub.to_set().insert(id).contains(x) implies next.to_set().contains(x) by {
                            if x == id {
                                assert(next[t as int] == x);
                            } else {
                                let u = choose|u: int| 0 <= u < t && sub[u] == x;
                                assert(next[u] == x);
                            }
                        }
                    }
                }
                t += 1;
            }
            cursor += take;
            proof {
                assert forall|u: int| 0 <= u < n && !o.take(j + 1).contains(u as usize) implies #[trigger] self.shards@[u].recycled() == pre.recycled_in(u) by {
                    assert(o.take(j + 1)[j as int] == shard);
                    if o.take(j as int).contains(u as usize) {
                        let prefix = o.take(j as int);
                        let w = choose|w: int| 0 <= w < j && prefix[w] == u as usize;
                        assert(o.take(j + 1)[w] == u as usize);
                    }
                }
                assert forall|w: int| 0 <= w < j + 1 implies #[trigger] self.shards@[o[w] as int].recycled() == pre.recycled_in(o[w] as int).union(
                    d.subrange(chunk_begin(tk, w), chunk_begin(tk, w + 1)).to_set()) by {
                    if w < j {
                        assert(o[w] != shard);
                    }
                }
            }
            j += 1;
        }
        proof {
            assert(o.take(n as int) =~= o);
        }
    }

    /// Flushes the queued operations after joining.
    ///
    /// The deallocated IDs become recyclable and are spread over the shards,
    /// filling up the shards with the fewest recycled IDs first;
    /// the IDs that shards reused stop being recyclable.
    /// Which IDs are live does not change.
    pub fn flush(&mut self)
        requires
            old(self).wf(),
            old(self).flush_fits(),
        ensures
            final(self).wf(),
            final(self).gauge() == old(self).gauge(),
            final(self).num_shards() == old(self).num_shards(),
            !final(self).flush_marked(),
            final(self).assigner() == old(self).assigner(),
            final(self).dealloc_queue() == Seq::<u32>::empty(),
            forall|i: int| 0 <= i < final(self).num_shards() ==> #[trigger] final(self).reused_in(i) == Seq::<u32>::empty(),
            final(self).recyclable() == old(self).recyclable().union(old(self).dealloc_queue().to_set()).difference(old(self).reused_ids()),
            exists|o: Seq<usize>| #[trigger] old(self).flush_distribution(final(self), o),
            forall|id: u32| #[trigger] final(self).is_free(id) <==> (old(self).is_free(id) || old(self).dealloc_queue().contains(id)),
            forall|id: u32| #[trigger] final(self).is_live(id) == old(self).is_live(id),
            old(self).recyclable_exact() && (forall|id: u32| #[trigger] old(self).dealloc_queue().contains(id) ==> !old(self).is_reused(id))
                ==> final(self).recyclable_exact(),
            follows(*old(self), *final(self), Call::Flush),
    {
        let ghost pre = *self;
        let ghost d = self.dealloc_queue@;
        self.flush_mark = false;
        self.absorb_deallocated();
        let ghost ab = *self;
        proof {
            assert(ab.shards@ == pre.shards@);
            assert forall|id: u32| #[trigger] ab.is_reused(id) == pre.is_reused(id) by {
                if ab.is_reused(id) {
                    let i = choose|i: int| 0 <= i < ab.num_shards() && #[trigger] ab.reused_in(i).contains(id);
                    assert(pre.reused_in(i).contains(id));
                }
                if pre.is_reused(id) {
                    let i = choose|i: int| 0 <= i < pre.num_shards() && #[trigger] pre.reused_in(i).contains(id);
                    assert(ab.reused_in(i).contains(id));
                }
            }
            assert(ab.reused_ids() =~= pre.reused_ids());
        }
        self.drain_reuse_queues();
        let ghost mid = *self;
        proof {
            let n = pre.shards@.len();
            assert forall|t: int| 0 <= t < n implies #[trigger] self.shards@[t].wf() && self.shards@[t].recycled() == pre.shards@[t].recycled() by {
                assert(pre.shards@[t].wf());
            }
            assert forall|id: u32| #[trigger] self.recyclable@.contains(id) implies 1 <= id < self.global_gauge by {
                if d.contains(id) {
                    let k = choose|k: int| 0 <= k < d.len() && d[k] == id;
                    assert(1 <= d[k]);
                }
            }
            assert forall|i: int, id: u32|
                0 <= i < n && #[trigger] self.shards@[i].recycled().contains(id) implies 1 <= id < self.global_gauge by {
                assert(pre.shards@[i].recycled().contains(id));
            }
            assert forall|i: int, j: int, id: u32|
                0 <= i < n && 0 <= j < n && i != j && #[trigger] self.shards@[i].recycled().contains(id) implies !(
                #[trigger] self.shards@[j].recycled().contains(id)) by {
                assert(pre.shards@[i].recycled().contains(id));
                assert(!pre.shards@[j].recycled().contains(id));
                assert(self.shards@[j].recycled() == pre.shards@[j].recycled());
            }
            assert forall|k: int, i: int|
                0 <= k < d.len() && 0 <= i < n implies !(
                #[trigger] self.shards@[i].recycled().contains(#[trigger] self.dealloc_queue@[k])) by {
                assert(!pre.shards@[i].recycled().contains(pre.dealloc_queue@[k]));
            }
            assert(self.wf());
        }

        // spread the deallocated IDs over the shards, the smallest recyclers first
        let lens = self.recycler_sizes();
        proof {
            assert(lens@ =~= pre.recycler_lens());
        }
        let order = stable_order(&lens);
        let ghost o = order@;
        let num = self.shards.len();
        let mut target_sizes: Vec<usize> = Vec::new();
        let mut j: usize = 0;
        while j < num
            invariant
                0 <= j <= num,
                num == lens@.len(),
                is_stable_order(lens@, o),
                order@ == o,
                target_sizes@.len() == j,
                forall|t: int| 0 <= t < j ==> #[trigger] target_sizes@[t] == sizes_in_order(lens@, o)[t],
            decreases num - j,
        {
            target_sizes.push(lens[order[j]]);
            j += 1;
        }
        let ghost sorted = sizes_in_order(lens@, o);
        proof {
            assert(target_sizes@ =~= sorted);
            assert forall|a: int, b: int| 0 <= a <= b < sorted.len() implies sorted[a] <= sorted[b] by {
                if a < b {
                    assert(size_index_less(lens@, o[a], o[b]));
                }
            }
            let last = o[sorted.len() - 1] as int;
            assert(sorted.last() == pre.recycled_in(last).len());
        }
        let total = self.dealloc_queue.len();
        proof {
            lemma_fits_within_last(sorted, total as int);
        }
        distribute_sorted(&mut target_sizes, total);
        let mut takes: Vec<usize> = Vec::new();
        let mut j: usize = 0;
        while j < num
            invariant
                0 <= j <= num,
                num == lens@.len(),
                order@ == o,
                is_stable_order(lens@, o),
                target_sizes@.len() == num,
                forall|t: int| 0 <= t < num ==> #[trigger] target_sizes@[t] >= sorted[t],
                forall|t: int| 0 <= t < num ==> #[trigger] sorted[t] == lens@[o[t] as int],
                takes@.len() == j,
                forall|t: int| 0 <= t < j ==> #[trigger] takes@[t] == target_sizes@[t] - sorted[t],
            decreases num - j,
        {
            takes.push(target_sizes[j] - lens[order[j]]);
            j += 1;
        }
        let ghost tk = takes@.map_values(|x: usize| x as int);
        proof {
            let fl = flush_takes(sorted, total as int);
            lemma_sum_diff(target_sizes@, sorted);
            assert(Seq::new(target_sizes@.len(), |t: int| target_sizes@[t] - sorted[t]) =~= tk);
            assert(tk =~= fl);
            assert(tk.take(tk.len() as int) =~= tk);
            assert(chunk_begin(tk, tk.len() as int) == d.len());
        }
        self.hand_out(&order, &takes);
        self.dealloc_queue.clear();
        proof {
            let post = *self;
            assert(Self::handed_out(mid, post, o, tk));
            assert forall|t: int| 0 <= t < o.len() implies #[trigger] post.shards@[o[t] as int].recycled() == pre.recycled_in(o[t] as int).union(
                d.subrange(chunk_begin(tk, t), chunk_begin(tk, t + 1)).to_set()) by {
                assert(mid.recycled_in(o[t] as int) == pre.recycled_in(o[t] as int));
            }
            assert(Self::handed_out(pre, post, o, tk));
            Self::lemma_post_disjoint(pre, post, o, tk);
            Self::lemma_post_free(pre, post, o, tk);
            assert(pre.flush_distribution(&post, o));
            assert forall|id: u32| #[trigger] post.recyclable@.contains(id) implies 1 <= id < post.global_gauge by {
                if d.contains(id) {
                    let k = choose|k: int| 0 <= k < d.len() && d[k] == id;
                    assert(1 <= d[k]);
                }
            }
            if pre.recyclable_exact() && (forall|id: u32| #[trigger] pre.dealloc_queue().contains(id) ==> !pre.is_reused(id)) {
                assert forall|id: u32| #[trigger] post.recyclable().contains(id) <==> (post.is_free(id) || post.is_reused(id)) by {
                    if post.is_reused(id) {
                        let i = choose|i: int| 0 <= i < post.num_shards() && #[trigger] post.reused_in(i).contains(id);
                        assert(post.reused_in(i) == Seq::<u32>::empty());
                    }
                    if pre.is_free(id) && pre.is_reused(id) {
                        let i = choose|i: int| 0 <= i < pre.num_shards() && #[trigger] pre.recycled_in(i).contains(id);
                        let j = choose|j: int| 0 <= j < pre.num_shards() && #[trigger] pre.reused_in(j).contains(id);
                        let k = choose|k: int| 0 <= k < pre.reused_in(j).len() && pre.reused_in(j)[k] == id;
                        assert(!pre.shards@[i].recycled().contains(pre.shards@[j].reused()[k]));
                    }
                    if d.contains(id) {
                        assert(d.to_set().contains(id));
                        assert(!pre.is_reused(id));
                    }
                    assert(pre.recyclable().contains(id) <==> (pre.is_free(id) || pre.is_reused(id)));
                    assert(pre.reused_ids().contains(id) == pre.is_reused(id));
                    assert(d.to_set().contains(id) == d.contains(id));
                    assert(post.is_free(id) <==> (pre.is_free(id) || pre.dealloc_queue().contains(id)));
                }
            }
        }
    }

    /// Flushes the queued operations if a flush was requested since the last flush.
    pub fn flush_if_marked(&mut self)
        requires
            old(self).wf(),
            old(self).flush_marked() ==> old(self).flush_fits(),
        ensures
            final(self).wf(),
            !final(self).flush_marked(),
            !old(self).flush_marked() ==> *final(self) == *old(self),
            old(self).flush_marked() ==> {
                &&& final(self).dealloc_queue() == Seq::<u32>::empty()
                &&& final(self).recyclable() == old(self).recyclable().union(old(self).dealloc_queue().to_set()).difference(
                    old(self).reused_ids(),
                )
                &&& forall|id: u32| #[trigger] final(self).is_free(id) <==> (old(self).is_free(id) || old(self).dealloc_queue().contains(id))
            },
            forall|id: u32| #[trigger] final(self).is_live(id) == old(self).is_live(id),
    {
        if self.flush_mark {
            self.flush();
        }
    }

    /// Allocates an ID in offline mode from the shard that the assigner selects.
    ///
    /// The ID was not live before and is live afterwards; all other live IDs stay live.
    pub fn allocate(&mut self, hint: T::Hint) -> (r: u32)
        requires
            old(self).wf(),
            old(self).assigner().can_select(old(self).num_shards() as usize),
            old(self).gauge() < u32::MAX,
        ensures
            final(self).wf(),
            final(self).assigner() == old(self).assigner().after_select(old(self).num_shards() as usize),
            final(self).assigner().can_select(old(self).num_shards() as usize),
            !old(self).is_live(r),
            final(self).is_live(r),
            forall|id: u32| id != r ==> (#[trigger] final(self).is_live(id) == old(self).is_live(id)),
            final(self).num_shards() == old(self).num_shards(),
            final(self).recyclable() == old(self).recyclable(),
            final(self).dealloc_queue() == old(self).dealloc_queue(),
            final(self).flush_marked() == old(self).flush_marked(),
            old(self).recyclable_exact() ==> final(self).recyclable_exact(),
            exists|i: int|
                0 <= i < old(self).num_shards() && old(self).assigner().may_select(
                    old(self).num_shards() as usize,
                    i as usize,
                ) && #[trigger] old(self).allocation_step(final(self), i, r) && (old(self).recycled_in(
                    i,
                ).contains(r) ==> old(self).recycler_in(i).chooses(hint, r)),
            follows(*old(self), *final(self), Call::Allocate(r)),
    {
        let ghost prev = *self;
        let n = self.shards.len();
        let shard_id = self.shard_assigner.select_for_offline_allocation(n);
        let r = self.shards[shard_id].allocate(hint, &mut self.global_gauge);
        proof {
            let i = shard_id as int;
            assert(prev.allocation_step(self, i, r));
            assert forall|j: int| 0 <= j < n && j != i implies #[trigger] self.shards@[j] == prev.shards@[j] by {}
            assert(self.recycled_in(i) == self.shards@[i].recycled());
            assert forall|id: u32| id != r implies (#[trigger] self.is_live(id) == prev.is_live(id)) by {
                if self.is_free(id) {
                    let j = choose|j: int| 0 <= j < self.num_shards() && #[trigger] self.recycled_in(j).contains(id);
                    assert(prev.recycled_in(j).contains(id));
                }
                if prev.is_free(id) && 1 <= id < prev.gauge() {
                    let j = choose|j: int| 0 <= j < prev.num_shards() && #[trigger] prev.recycled_in(j).contains(id);
                    assert(self.recycled_in(j).contains(id));
                }
            }
            if self.is_free(r) {
                let j = choose|j: int| 0 <= j < self.num_shards() && #[trigger] self.recycled_in(j).contains(r);
                assert(prev.recycled_in(j).contains(r));
            }
            if prev.recycled_in(i).contains(r) {
                assert(prev.is_free(r));
            }
            if prev.recyclable_exact() {
                assert forall|id: u32| #[trigger] self.recyclable().contains(id) <==> (self.is_free(id)
                    || self.is_reused(id)) by {
                    assert(prev.recyclable().contains(id) <==> (prev.is_free(id) || prev.is_reused(id)));
                    if prev.is_free(id) {
                        let j = choose|j: int| 0 <= j < prev.num_shards() && #[trigger] prev.recycled_in(j).contains(id);
                        if j == i && id == r {
                            assert(self.reused_in(i)[self.reused_in(i).len() - 1] == r);
                            assert(self.reused_in(i).contains(r));
                        } else {
                            assert(self.recycled_in(j).contains(id));
                        }
                    }
                    if prev.is_reused(id) {
                        let j = choose|j: int| 0 <= j < prev.num_shards() && #[trigger] prev.reused_in(j).contains(id);
                        let k = choose|k: int| 0 <= k < prev.reused_in(j).len() && prev.reused_in(j)[k] == id;
                        assert(self.reused_in(j)[k] == id);
                        assert(self.reused_in(j).contains(id));
                    }
                    if self.is_free(id) {
                        let j = choose|j: int| 0 <= j < self.num_shards() && #[trigger] self.recycled_in(j).contains(id);
                        assert(prev.recycled_in(j).contains(id));
                    }
                    if self.is_reused(id) {
                        let j = choose|j: int| 0 <= j < self.num_shards() && #[trigger] self.reused_in(j).contains(id);
                        let k = choose|k: int| 0 <= k < self.reused_in(j).len() && self.reused_in(j)[k] == id;
                        if j == i && k == prev.reused_in(i).len() {
                            assert(prev.recycled_in(i).contains(r));
                            assert(prev.is_free(r));
                            assert(prev.recyclable().contains(id));
                        } else {
                            assert(prev.reused_in(j)[k] == id);
                            assert(prev.reused_in(j).contains(id));
                            assert(prev.is_reused(id));
                        }
                    }
                }
            }
        }
        r
    }
}

} // verus!

