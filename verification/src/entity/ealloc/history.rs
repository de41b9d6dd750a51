//! What any sequence of calls on a recycling allocator guarantees.

use vstd::prelude::*;

use super::gaps::{in_some_gap, lemma_gaps_cover};
use super::recycler::Recycler;
use super::recycling::Recycling;
use super::sharding::ShardAssigner;
use super::snapshot::snapshot_chunks;

verus! {

/// A call on an allocator: an allocation with the ID it returned,
/// the deallocation of an ID, or a flush.
pub enum Call {
    Allocate(u32),
    Deallocate(u32),
    Flush,
}

/// `post` is `pre` after `call`, as far as liveness, the deallocation queue and the gauge go.
///
/// [`Recycling::allocate`], [`Recycling::queue_deallocate`] and [`Recycling::flush`]
/// each ensure this of their call.
pub open spec fn follows<T: Recycler, S: ShardAssigner>(pre: Recycling<T, S>, post: Recycling<T, S>, call: Call) -> bool {
    match call {
        Call::Allocate(r) => {
            &&& !pre.is_live(r)
            &&& !pre.dealloc_queue().contains(r)
            &&& post.is_live(r)
            &&& forall|id: u32| id != r ==> #[trigger] post.is_live(id) == pre.is_live(id)
            &&& post.dealloc_queue() == pre.dealloc_queue()
            &&& (post.gauge() == pre.gauge() || (r == pre.gauge() && post.gauge() == pre.gauge() + 1))
        },
        Call::Deallocate(id) => {
            &&& pre.is_live(id)
            &&& !post.is_live(id)
            &&& forall|other: u32| other != id ==> #[trigger] post.is_live(other) == pre.is_live(other)
            &&& post.dealloc_queue() == pre.dealloc_queue().push(id)
            &&& post.gauge() == pre.gauge()
        },
        Call::Flush => {
            &&& forall|id: u32| #[trigger] post.is_live(id) == pre.is_live(id)
            &&& post.gauge() == pre.gauge()
        },
    }
}

/// The states `states` are reached from `states[0]` by the calls `calls`.
pub open spec fn is_history<T: Recycler, S: ShardAssigner>(states: Seq<Recycling<T, S>>, calls: Seq<Call>) -> bool {
    &&& states.len() == calls.len() + 1
    &&& forall|t: int| 0 <= t < calls.len() ==> follows(states[t], states[t + 1], #[trigger] calls[t])
}

/// Whether the first `t` calls allocated `id` and did not deallocate it since.
pub open spec fn allocated_by(calls: Seq<Call>, t: int, id: u32) -> bool {
    exists|k: int|
        0 <= k < t && #[trigger] calls[k] == Call::Allocate(id) && forall|u: int|
            k < u < t ==> #[trigger] calls[u] != Call::Deallocate(id)
}

/// Starting with nothing live, the live IDs after `t` calls are exactly those
/// that were allocated and not deallocated since.
pub proof fn lemma_live_from_history<T: Recycler, S: ShardAssigner>(states: Seq<Recycling<T, S>>, calls: Seq<Call>, t: int, id: u32)
    requires
        is_history(states, calls),
        0 <= t <= calls.len(),
        forall|x: u32| !#[trigger] states[0].is_live(x),
    ensures
        states[t].is_live(id) <==> allocated_by(calls, t, id),
    decreases t,
{
    if t > 0 {
        lemma_live_from_history(states, calls, t - 1, id);
        let pre = states[t - 1];
        let post = states[t];
        let c = calls[t - 1];
        assert(follows(pre, post, c));
        let same = c != Call::Allocate(id) && c != Call::Deallocate(id);
        if same {
            assert(post.is_live(id) == pre.is_live(id));
            if allocated_by(calls, t - 1, id) {
                let k = choose|k: int|
                    0 <= k < t - 1 && #[trigger] calls[k] == Call::Allocate(id) && forall|u: int|
                        k < u < t - 1 ==> #[trigger] calls[u] != Call::Deallocate(id);
                assert forall|u: int| k < u < t implies #[trigger] calls[u] != Call::Deallocate(id) by {
                    if u < t - 1 {
                        assert(calls[u] != Call::Deallocate(id));
                    }
                }
                assert(allocated_by(calls, t, id));
            }
            if allocated_by(calls, t, id) {
                let k = choose|k: int|
                    0 <= k < t && #[trigger] calls[k] == Call::Allocate(id) && forall|u: int|
                        k < u < t ==> #[trigger] calls[u] != Call::Deallocate(id);
                assert(k != t - 1);
                assert forall|u: int| k < u < t - 1 implies #[trigger] calls[u] != Call::Deallocate(id) by {
                    assert(calls[u] != Call::Deallocate(id));
                }
                assert(allocated_by(calls, t - 1, id));
            }
        } else if c == Call::Allocate(id) {
            assert(post.is_live(id));
            assert(calls[t - 1] == Call::Allocate(id));
            assert(allocated_by(calls, t, id));
        } else {
            assert(!post.is_live(id));
            if allocated_by(calls, t, id) {
                let k = choose|k: int|
                    0 <= k < t && #[trigger] calls[k] == Call::Allocate(id) && forall|u: int|
                        k < u < t ==> #[trigger] calls[u] != Call::Deallocate(id);
                if k < t - 1 {
                    assert(calls[t - 1] != Call::Deallocate(id));
                }
            }
        }
    }
}

/// Starting with nothing live, once the allocator has settled after any sequence of calls
/// (as right after a flush with no allocation since), the chunks of its snapshot
/// hold exactly the IDs that were allocated and not deallocated since.
pub proof fn lemma_snapshot_from_history<T: Recycler, S: ShardAssigner>(
    states: Seq<Recycling<T, S>>,
    calls: Seq<Call>,
    chunks: Seq<(int, int)>,
)
    requires
        is_history(states, calls),
        forall|x: u32| !#[trigger] states[0].is_live(x),
        states.last().wf(),
        states.last().settled(),
        snapshot_chunks(states.last().gauge(), states.last().recyclable(), chunks),
    ensures
        forall|id: u32| #[trigger] in_some_gap(chunks, id as int) <==> allocated_by(calls, calls.len() as int, id),
{
    let last = states.last();
    let gauge = last.gauge();
    last.lemma_recyclable_below_gauge();
    let b = choose|b: Seq<u32>|
        #![trigger super::gaps::allocated_gaps(gauge, b)]
        super::gaps::strictly_increasing(b) && b.to_set() == last.recyclable() && chunks
            == super::gaps::allocated_gaps(gauge, b);
    assert forall|i: int| 0 <= i < b.len() implies 1 <= #[trigger] b[i] < gauge by {
        assert(b.to_set().contains(b[i]));
    }
    lemma_gaps_cover(gauge, b);
    assert forall|id: u32| #[trigger] in_some_gap(chunks, id as int) <==> allocated_by(calls, calls.len() as int, id) by {
        lemma_live_from_history(states, calls, calls.len() as int, id);
        assert(states[calls.len() as int] == last);
        assert(b.contains(id) <==> b.to_set().contains(id));
        assert(last.recyclable().contains(id) <==> (last.is_free(id) || last.is_reused(id)));
        if last.is_reused(id) {
            let i = choose|i: int| 0 <= i < last.num_shards() && #[trigger] last.reused_in(i).contains(id);
            assert(last.reused_in(i) == Seq::<u32>::empty());
        }
        assert(!last.dealloc_queue().contains(id));
    }
}

/// After an allocation of `r` at call `k`, up to any later state `t`, the ID `r` is live,
/// or it was deallocated and a flush came after, or it was deallocated and still waits in the queue.
proof fn lemma_track<T: Recycler, S: ShardAssigner>(states: Seq<Recycling<T, S>>, calls: Seq<Call>, k: int, t: int)
    requires
        is_history(states, calls),
        0 <= k < t <= calls.len(),
        calls[k] is Allocate,
    ensures
        ({
            let r = calls[k]->Allocate_0;
            ||| states[t].is_live(r)
            ||| exists|u: int, w: int|
                k < u < w < t && #[trigger] calls[u] == Call::Deallocate(r) && #[trigger] calls[w] == Call::Flush
            ||| exists|u: int| k < u < t && #[trigger] calls[u] == Call::Deallocate(r) && states[t].dealloc_queue().contains(r)
        }),
    decreases t - k,
{
    let r = calls[k]->Allocate_0;
    assert(follows(states[k], states[k + 1], calls[k]));
    if t > k + 1 {
        lemma_track(states, calls, k, t - 1);
        let pre = states[t - 1];
        let post = states[t];
        let c = calls[t - 1];
        assert(follows(pre, post, c));
        if pre.is_live(r) {
            match c {
                Call::Allocate(r2) => {
                    assert(r2 != r);
                    assert(post.is_live(r));
                },
                Call::Deallocate(id) => {
                    if id == r {
                        assert(post.dealloc_queue()[pre.dealloc_queue().len() as int] == r);
                        assert(post.dealloc_queue().contains(r));
                        assert(calls[t - 1] == Call::Deallocate(r));
                    } else {
                        assert(post.is_live(r));
                    }
                },
                Call::Flush => {
                    assert(post.is_live(r));
                },
            }
        } else if exists|u: int, w: int|
            k < u < w < t - 1 && #[trigger] calls[u] == Call::Deallocate(r) && #[trigger] calls[w] == Call::Flush {
            let (u, w) = choose|u: int, w: int|
                k < u < w < t - 1 && #[trigger] calls[u] == Call::Deallocate(r) && #[trigger] calls[w] == Call::Flush;
            assert(k < u < w < t && calls[u] == Call::Deallocate(r) && calls[w] == Call::Flush);
        } else {
            let u = choose|u: int| k < u < t - 1 && #[trigger] calls[u] == Call::Deallocate(r) && pre.dealloc_queue().contains(r);
            match c {
                Call::Allocate(r2) => {
                    assert(r2 != r);
                    assert(post.dealloc_queue().contains(r));
                },
                Call::Deallocate(id) => {
                    let q = pre.dealloc_queue();
                    let n = choose|n: int| 0 <= n < q.len() && q[n] == r;
                    assert(post.dealloc_queue()[n] == r);
                    assert(post.dealloc_queue().contains(r));
                },
                Call::Flush => {
                    assert(calls[t - 1] == Call::Flush);
                    assert(k < u < t - 1 < t);
                },
            }
        }
    }
}

/// The gauge never goes down.
proof fn lemma_gauge_grows<T: Recycler, S: ShardAssigner>(states: Seq<Recycling<T, S>>, calls: Seq<Call>, k: int, t: int)
    requires
        is_history(states, calls),
        0 <= k <= t <= calls.len(),
    ensures
        states[k].gauge() <= states[t].gauge(),
    decreases t - k,
{
    if t > k {
        lemma_gauge_grows(states, calls, k, t - 1);
        assert(follows(states[t - 1], states[t], calls[t - 1]));
    }
}

/// An allocator never hands out an ID twice without a deallocation of it followed by a flush
/// in between, and the IDs it takes from the gauge strictly increase.
pub proof fn lemma_history<T: Recycler, S: ShardAssigner>(states: Seq<Recycling<T, S>>, calls: Seq<Call>, k: int, j: int)
    requires
        is_history(states, calls),
        0 <= k < j < calls.len(),
        calls[k] is Allocate,
        calls[j] is Allocate,
    ensures
        calls[j] == calls[k] ==> exists|u: int, w: int|
            k < u < w < j && #[trigger] calls[u] == Call::Deallocate(calls[k]->Allocate_0)
                && #[trigger] calls[w] == Call::Flush,
        states[k + 1].gauge() == states[k].gauge() + 1 && states[j + 1].gauge() == states[j].gauge() + 1
            ==> calls[k]->Allocate_0 < calls[j]->Allocate_0,
{
    lemma_track(states, calls, k, j);
    assert(follows(states[k], states[k + 1], calls[k]));
    assert(follows(states[j], states[j + 1], calls[j]));
    lemma_gauge_grows(states, calls, k + 1, j);
}

} // verus!
