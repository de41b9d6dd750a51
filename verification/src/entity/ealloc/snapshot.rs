//! Snapshots of the allocated entity IDs.

use std::collections::BTreeSet;
use std::ops::Range;

use itertools::Itertools;

use vstd::prelude::*;

use super::gaps::{
    allocated_gaps, in_some_gap, iter_gaps, lemma_gaps_cover, lemma_gaps_separated, range_bounds,
    separated, sorted_ids, strictly_increasing,
};
use crate::entity::Raw;

verus! {

broadcast use {vstd::std_specs::btree::group_btree_axioms, vstd::laws_cmp::group_laws_cmp};

/// A snapshot of the allocated entities during offline.
pub struct Snapshot {
    pub(crate) gauge: u32,
    pub(crate) recyclable: BTreeSet<u32>,
}

/// The chunks of allocated IDs that a snapshot lists for the given gauge and recycled IDs.
pub open spec fn snapshot_chunks(gauge: u32, recyclable: Set<u32>, chunks: Seq<(int, int)>) -> bool {
    exists|b: Seq<u32>|
        #![trigger allocated_gaps(gauge, b)]
        strictly_increasing(b) && b.to_set() == recyclable && chunks == allocated_gaps(gauge, b)
}

impl Snapshot {
    /// Creates a snapshot of the given gauge and recyclable set.
    pub fn new(gauge: u32, recyclable: BTreeSet<u32>) -> (r: Self)
        ensures
            r.spec_gauge() == gauge,
            r.spec_recyclable() == recyclable@,
    {
        Snapshot { gauge, recyclable }
    }

    /// The next ID to allocate at the time of the snapshot.
    pub closed spec fn spec_gauge(&self) -> u32 {
        self.gauge
    }

    /// The recycled IDs at the time of the snapshot.
    pub closed spec fn spec_recyclable(&self) -> Set<u32> {
        self.recyclable@
    }

    /// All recycled IDs lie between 1 and the gauge.
    pub open spec fn wf(&self) -> bool {
        &&& self.spec_gauge() >= 1
        &&& forall|id: u32| #[trigger]
            self.spec_recyclable().contains(id) ==> 1 <= id < self.spec_gauge()
    }

    /// Lists all chunks of allocated entities in ascending order.
    ///
    /// The chunks are non-empty and hold exactly the IDs below the gauge that are not recycled.
    pub fn iter_allocated_chunks(&self) -> (r: Vec<Range<u32>>)
        requires
            self.wf(),
        ensures
            snapshot_chunks(self.spec_gauge(), self.spec_recyclable(), range_bounds(r@)),
            forall|i: int| 0 <= i < r@.len() ==> #[trigger] r@[i].start < r@[i].end,
            separated(range_bounds(r@)),
            forall|x: int|
                #[trigger] in_some_gap(range_bounds(r@), x) <==> (1 <= x < self.spec_gauge()
                    && !self.spec_recyclable().contains(x as u32)),
    {
        let ids = sorted_ids(&self.recyclable);
        proof {
            assert forall|i: int| 0 <= i < ids@.len() implies 1 <= #[trigger] ids@[i] < self.gauge by {
                assert(ids@.contains(ids@[i]));
                assert(ids@.to_set().contains(ids@[i]));
                assert(self.spec_recyclable().contains(ids@[i]));
            }
        }
        let ghost b = ids@;
        let r = iter_gaps(self.gauge, ids);
        proof {
            lemma_gaps_cover(self.gauge, b);
            lemma_gaps_separated(self.gauge, b);
            assert(snapshot_chunks(self.gauge, self.recyclable@, range_bounds(r@)));
            assert forall|i: int| 0 <= i < r@.len() implies #[trigger] r@[i].start < r@[i].end by {
                assert(range_bounds(r@)[i] == allocated_gaps(self.gauge, b)[i]);
            }
            assert forall|x: int| #[trigger] in_some_gap(range_bounds(r@), x) <==> (1 <= x < self.gauge
                && !self.recyclable@.contains(x as u32)) by {
                assert(in_some_gap(allocated_gaps(self.gauge, b), x) <==> (1 <= x < self.gauge
                    && !b.contains(x as u32)));
                if 1 <= x < self.gauge {
                    assert(b.to_set().contains(x as u32) <==> b.contains(x as u32));
                }
            }
        }
        r
    }

    /// Views the whole snapshot as a slice of IDs from 1 up to the gauge.
    pub fn as_slice(&self) -> (r: Slice<'_>)
        requires
            self.wf(),
        ensures
            r.start == 1,
            r.end == self.spec_gauge(),
            r.recyclable@ == self.spec_recyclable(),
    {
        Slice { start: <u32 as Raw>::first(), end: self.gauge, recyclable: &self.recyclable }
    }
}

/// A contiguous part of the IDs of a snapshot.
#[derive(Clone, Copy)]
pub struct Slice<'t> {
    pub start: u32,
    pub end: u32,
    pub recyclable: &'t BTreeSet<u32>,
}

/// `BTreeSet::first`.
///
/// Claims: the result is the least element, and `None` only for an empty set.
#[verifier::external_body]
fn btree_first(set: &BTreeSet<u32>) -> (r: Option<u32>)
    ensures
        match r {
            Some(x) => set@.contains(x) && forall|y: u32|
                #![trigger set@.contains(y)]
                set@.contains(y) ==> x <= y,
            None => set@ == Set::<u32>::empty(),
        },
{
    set.first().copied()
}

/// `BTreeSet::range(start..end)`, collected.
///
/// Claims: the result lists the elements from `start` up to `end` in ascending order.
/// The range panics when `start > end`, which `requires` leaves out.
#[verifier::external_body]
fn btree_range_ids(set: &BTreeSet<u32>, start: u32, end: u32) -> (r: Vec<u32>)
    requires
        start <= end,
    ensures
        strictly_increasing(r@),
        forall|x: u32| r@.contains(x) <==> (set@.contains(x) && start <= x < end),
{
    set.range(start..end).copied().collect()
}

/// `Itertools::tuple_windows` over pairs, collected.
///
/// Claims: the result holds each item paired with the next one, in order.
#[verifier::external_body]
fn consecutive_pairs(items: Vec<u32>) -> (r: Vec<(u32, u32)>)
    ensures
        items@.len() >= 1 ==> r@.len() == items@.len() - 1,
        items@.len() == 0 ==> r@.len() == 0,
        forall|i: int| 0 <= i < r@.len() ==> #[trigger] r@[i] == (items@[i], items@[i + 1]),
{
    items.into_iter().tuple_windows().collect()
}

/// The chunks that [`Slice::iter_chunks`] lists for a slice whose recyclable set has `first`
/// as its least element, with `inner` the recycled IDs inside the slice in ascending order.
pub open spec fn slice_chunks(start: u32, end: u32, first: u32, inner: Seq<u32>) -> Seq<(int, int)> {
    let gaps = inner.push(end);
    let pairs = Seq::new(
        (gaps.len() - 1) as nat,
        |i: int| (gaps[i] + 1, gaps[i + 1] as int),
    );
    seq![(start as int, first as int)].add(pairs).filter(|p: (int, int)| p.0 != p.1)
}

/// Splitting out the stretches that cover nothing keeps the IDs covered.
proof fn lemma_filter_nonempty_covers(all: Seq<(int, int)>, x: int)
    ensures
        in_some_gap(all.filter(|p: (int, int)| p.0 != p.1), x) <==> in_some_gap(all, x),
{
    let pred = |p: (int, int)| p.0 != p.1;
    let f = all.filter(pred);
    if in_some_gap(f, x) {
        let i = choose|i: int| 0 <= i < f.len() && #[trigger] f[i].0 <= x < f[i].1;
        assert(f.contains(f[i]));
        all.lemma_filter_contains_rev(pred, f[i]);
        let j = choose|j: int| 0 <= j < all.len() && all[j] == f[i];
        assert(all[j].0 <= x < all[j].1);
    }
    if in_some_gap(all, x) {
        let j = choose|j: int| 0 <= j < all.len() && #[trigger] all[j].0 <= x < all[j].1;
        all.lemma_filter_contains(pred, j);
        assert(f.contains(all[j]));
        let i = choose|i: int| 0 <= i < f.len() && f[i] == all[j];
        assert(f[i].0 <= x < f[i].1);
    }
}

/// The last index below `n` whose ID is below `x`.
proof fn last_below(s: Seq<u32>, x: int, n: int) -> (k: int)
    requires
        1 <= n <= s.len(),
        s[0] < x,
    ensures
        0 <= k < n,
        s[k] < x,
        k + 1 < n ==> s[k + 1] >= x,
    decreases n,
{
    if s[n - 1] < x {
        n - 1
    } else {
        last_below(s, x, n - 1)
    }
}

/// What the chunks of a slice cover: the IDs from `start` below the least recycled ID `first`,
/// and, after the first recycled ID inside the slice, every ID up to `end` that is not recycled,
/// and no other.
pub proof fn lemma_slice_chunks_cover(start: u32, end: u32, first: u32, inner: Seq<u32>, x: int)
    requires
        strictly_increasing(inner),
        forall|i: int| 0 <= i < inner.len() ==> start <= #[trigger] inner[i] < end,
        inner.len() > 0 ==> first <= inner[0],
    ensures
        start <= x < first ==> in_some_gap(slice_chunks(start, end, first, inner), x),
        inner.len() == 0 ==> (in_some_gap(slice_chunks(start, end, first, inner), x) <==> start <= x < first),
        inner.len() > 0 && inner[0] < x ==> (in_some_gap(slice_chunks(start, end, first, inner), x) <==> (
        x < end && forall|i: int| 0 <= i < inner.len() ==> #[trigger] inner[i] != x)),
{
    let gaps = inner.push(end);
    let pairs = Seq::new((gaps.len() - 1) as nat, |i: int| (gaps[i] + 1, gaps[i + 1] as int));
    let all = seq![(start as int, first as int)].add(pairs);
    lemma_filter_nonempty_covers(all, x);
    assert(slice_chunks(start, end, first, inner) == all.filter(|p: (int, int)| p.0 != p.1));
    assert(all[0] == (start as int, first as int));
    assert forall|k: int| 0 <= k < pairs.len() implies #[trigger] all[k + 1] == (gaps[k] + 1, gaps[k + 1] as int) by {
        assert(all[k + 1] == pairs[k]);
    }
    if start <= x < first {
        assert(all[0].0 <= x < all[0].1);
    }
    if inner.len() == 0 && in_some_gap(all, x) {
        let j = choose|j: int| 0 <= j < all.len() && #[trigger] all[j].0 <= x < all[j].1;
        assert(j == 0);
    }
    if inner.len() > 0 && inner[0] < x {
        if in_some_gap(all, x) {
            let j = choose|j: int| 0 <= j < all.len() && #[trigger] all[j].0 <= x < all[j].1;
            assert(j != 0);
            let k = j - 1;
            assert(all[k + 1] == (gaps[k] + 1, gaps[k + 1] as int));
            assert(gaps[k] == inner[k]);
            if k + 1 < inner.len() {
                assert(gaps[k + 1] == inner[k + 1]);
            }
            assert(x < end);
            assert forall|i: int| 0 <= i < inner.len() implies #[trigger] inner[i] != x by {
                if i <= k {
                    if i < k {
                        assert(inner[i] < inner[k]);
                    }
                } else {
                    if i > k + 1 {
                        assert(inner[k + 1] < inner[i]);
                    }
                }
            }
        }
        if x < end && forall|i: int| 0 <= i < inner.len() ==> #[trigger] inner[i] != x {
            let k = last_below(inner, x, inner.len() as int);
            assert(all[k + 1] == (gaps[k] + 1, gaps[k + 1] as int));
            assert(gaps[k] == inner[k]);
            if k + 1 < inner.len() {
                assert(gaps[k + 1] == inner[k + 1]);
                assert(inner[k + 1] != x);
            }
            assert(all[k + 1].0 <= x < all[k + 1].1);
        }
    }
}

impl<'t> Slice<'t> {
    /// A point at which the slice may be split, if the slice is short.
    ///
    /// The midpoint is offered only when fewer than 8 IDs lie from it to the end.
    pub fn midpoint_for_split(self) -> (r: Option<u32>)
        requires
            1 <= self.start <= self.end,
        ensures
            r == (if self.end - (self.start + self.end) / 2 < 8 {
                Some(((self.start + self.end) / 2) as u32)
            } else {
                None
            }),
    {
        let midpt = Raw::approx_midpoint(self.start, self.end);
        let is_far = Raw::sub(self.end, midpt) < 8;
        if is_far {
            Some(midpt)
        } else {
            None
        }
    }

    /// Splits the slice at `midpt`.
    pub fn split_at(self, midpt: u32) -> (r: (Self, Self))
        ensures
            r.0.start == self.start,
            r.0.end == midpt,
            r.1.start == midpt,
            r.1.end == self.end,
            r.0.recyclable == self.recyclable,
            r.1.recyclable == self.recyclable,
    {
        (
            Slice { start: self.start, end: midpt, recyclable: self.recyclable },
            Slice { start: midpt, end: self.end, recyclable: self.recyclable },
        )
    }

    /// Splits the slice in two if [`midpoint_for_split`](Self::midpoint_for_split) offers a point.
    pub fn split(self) -> (r: (Self, Option<Self>))
        requires
            1 <= self.start <= self.end,
        ensures
            match r.1 {
                Some(right) => {
                    let midpt = ((self.start + self.end) / 2) as u32;
                    &&& self.end - midpt < 8
                    &&& r.0.start == self.start && r.0.end == midpt
                    &&& right.start == midpt && right.end == self.end
                    &&& r.0.recyclable == self.recyclable && right.recyclable == self.recyclable
                },
                None => self.end - (self.start + self.end) / 2 >= 8 && r.0 == self,
            },
    {
        let midpt = match self.midpoint_for_split() {
            Some(midpt) => midpt,
            None => return (self, None),
        };
        let (left, right) = self.split_at(midpt);
        (left, Some(right))
    }

    /// Lists the chunks of allocated IDs in the slice.
    pub fn iter_chunks(self) -> (r: Vec<Range<u32>>)
        requires
            self.start <= self.end,
        ensures
            self.recyclable@ == Set::<u32>::empty() ==> range_bounds(r@) == seq![(self.start as int, self.end as int)],
            self.recyclable@ != Set::<u32>::empty() ==> exists|first: u32, inner: Seq<u32>|
                #![trigger slice_chunks(self.start, self.end, first, inner)]
                {
                    &&& self.recyclable@.contains(first)
                    &&& forall|y: u32| #![trigger self.recyclable@.contains(y)] self.recyclable@.contains(y) ==> first <= y
                    &&& strictly_increasing(inner)
                    &&& forall|x: u32| inner.contains(x) <==> (self.recyclable@.contains(x) && self.start <= x < self.end)
                    &&& range_bounds(r@) == slice_chunks(self.start, self.end, first, inner)
                },
            forall|x: u32|
                self.start <= x < self.end && (forall|y: u32| #[trigger] self.recyclable@.contains(y) ==> x < y)
                    ==> #[trigger] in_some_gap(range_bounds(r@), x as int),
            forall|x: u32, y: u32|
                #![trigger in_some_gap(range_bounds(r@), x as int), self.recyclable@.contains(y)]
                self.recyclable@.contains(y) && self.start <= y < x ==> (in_some_gap(range_bounds(r@), x as int)
                    <==> (x < self.end && !self.recyclable@.contains(x))),
    {
        let first = match btree_first(self.recyclable) {
            Some(first) => first,
            None => {
                let mut out: Vec<Range<u32>> = Vec::new();
                out.push(self.start..self.end);
                proof {
                    assert(range_bounds(out@) =~= seq![(self.start as int, self.end as int)]);
                    assert forall|x: u32| self.start <= x < self.end implies #[trigger] in_some_gap(range_bounds(out@), x as int) by {
                        assert(range_bounds(out@)[0].0 <= x < range_bounds(out@)[0].1);
                    }
                }
                return out;
            },
        };
        let mut gaps = btree_range_ids(self.recyclable, self.start, self.end);
        let ghost inner = gaps@;
        gaps.push(self.end);
        proof {
            assert forall|i: int| 0 <= i < gaps@.len() - 1 implies #[trigger] gaps@[i] < u32::MAX by {
                assert(inner.contains(inner[i]));
            }
        }
        let pairs = consecutive_pairs(gaps);
        let ghost all = seq![(self.start as int, first as int)].add(
            Seq::new((inner.len()) as nat, |i: int| (inner.push(self.end)[i] + 1, inner.push(self.end)[i + 1] as int)),
        );
        let mut out: Vec<Range<u32>> = Vec::new();
        if self.start != first {
            out.push(self.start..first);
        }
        let ghost pred = |p: (int, int)| p.0 != p.1;
        proof {
            reveal_with_fuel(Seq::filter, 2);
            assert(all.take(1) =~= seq![(self.start as int, first as int)]);
            assert(all.take(1).drop_last() =~= Seq::<(int, int)>::empty());
            assert(range_bounds(out@) =~= all.take(1).filter(pred));
        }
        let mut i: usize = 0;
        while i < pairs.len()
            invariant
                0 <= i <= pairs@.len(),
                pairs@.len() == inner.len(),
                all.len() == inner.len() + 1,
                forall|k: int| 0 <= k < pairs@.len() ==> #[trigger] pairs@[k] == (inner.push(self.end)[k], inner.push(self.end)[k + 1]),
                forall|k: int| 0 <= k < pairs@.len() ==> #[trigger] inner.push(self.end)[k] < u32::MAX,
                forall|k: int| 1 <= k < all.len() ==> #[trigger] all[k] == (inner.push(self.end)[k - 1] + 1, inner.push(self.end)[k] as int),
                range_bounds(out@) == all.take(i + 1).filter(|p: (int, int)| p.0 != p.1),
            decreases pairs@.len() - i,
        {
            let ghost pred = |p: (int, int)| p.0 != p.1;
            let (start, end) = pairs[i];
            let start = Raw::add(start, 1);
            proof {
                reveal_with_fuel(Seq::filter, 1);
                assert(all.take(i + 2).drop_last() =~= all.take(i + 1));
                assert(all.take(i + 2).last() == all[i + 1]);
            }
            proof {
                assert(all[i + 1] == (start as int, end as int));
            }
            if start != end {
                let ghost before = out@;
                out.push(start..end);
                proof {
                    assert(range_bounds(out@) =~= range_bounds(before).push((start as int, end as int)));
                    assert(all.take(i + 2).filter(pred) == all.take(i + 1).filter(pred).push(all[i + 1]));
                }
            } else {
                proof {
                    assert(all.take(i + 2).filter(pred) == all.take(i + 1).filter(pred));
                }
            }
            i += 1;
        }
        proof {
            assert(all.take(inner.len() + 1int) =~= all);
            assert(all =~= seq![(self.start as int, first as int)].add(
                Seq::new((inner.push(self.end).len() - 1) as nat, |i: int| (inner.push(self.end)[i] + 1, inner.push(self.end)[i + 1] as int))));
            assert(range_bounds(out@) == all.filter(pred));
            assert(range_bounds(out@) == slice_chunks(self.start, self.end, first, inner));
            assert forall|i: int| 0 <= i < inner.len() implies self.start <= #[trigger] inner[i] < self.end by {
                assert(inner.contains(inner[i]));
            }
            if inner.len() > 0 {
                assert(inner.contains(inner[0]));
                assert(self.recyclable@.contains(inner[0]));
            }
            assert forall|x: u32|
                self.start <= x < self.end && (forall|y: u32| #[trigger] self.recyclable@.contains(y) ==> x < y)
                implies #[trigger] in_some_gap(range_bounds(out@), x as int) by {
                lemma_slice_chunks_cover(self.start, self.end, first, inner, x as int);
                assert(self.recyclable@.contains(first));
            }
            assert forall|x: u32, y: u32|
                #![trigger in_some_gap(range_bounds(out@), x as int), self.recyclable@.contains(y)]
                self.recyclable@.contains(y) && self.start <= y < x implies (in_some_gap(range_bounds(out@), x as int)
                    <==> (x < self.end && !self.recyclable@.contains(x))) by {
                lemma_slice_chunks_cover(self.start, self.end, first, inner, x as int);
                assert(first <= y);
                if y < self.end {
                    assert(inner.contains(y));
                    let iy = choose|iy: int| 0 <= iy < inner.len() && inner[iy] == y;
                    if iy > 0 {
                        assert(inner[0] < inner[iy]);
                    }
                    if x < self.end {
                        if self.recyclable@.contains(x) {
                            assert(inner.contains(x));
                            let ix = choose|ix: int| 0 <= ix < inner.len() && inner[ix] == x;
                            assert(inner[ix] == x);
                        } else {
                            assert forall|i: int| 0 <= i < inner.len() implies #[trigger] inner[i] != x by {
                                assert(inner.contains(inner[i]));
                            }
                        }
                    }
                } else if inner.len() > 0 {
                    assert(inner[0] < self.end);
                }
            }
        }
        out
    }
}

} // verus!
