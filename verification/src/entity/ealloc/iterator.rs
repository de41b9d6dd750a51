//! Splitting the chunks of allocated IDs into parts of equal size for parallel iteration.

use std::ops::Range;
use std::sync::Arc;

use vstd::prelude::*;

use crate::entity::Raw;
use crate::entity::ealloc::gaps::{range_bounds, separated};

verus! {

/// A chunk of allocated IDs with the number of IDs up to and including it.
pub struct IndexedGap {
    pub gap: Range<u32>,
    /// The prefix sum including this gap.
    pub inclusive_sum: usize,
}

/// The number of IDs in a chunk.
pub open spec fn gap_len(g: IndexedGap) -> int {
    g.gap.end - g.gap.start
}

/// The number of IDs before a chunk.
pub open spec fn gap_exclusive(g: IndexedGap) -> int {
    g.inclusive_sum - gap_len(g)
}

/// Whether `x` lies in the chunk and its position among all IDs lies in `start_sum..end_sum`.
pub open spec fn ranked_in(g: IndexedGap, start_sum: int, end_sum: int, x: int) -> bool {
    &&& g.gap.start <= x < g.gap.end
    &&& start_sum <= gap_exclusive(g) + (x - g.gap.start) < end_sum
}

/// The chunk is a valid non-inverted range of IDs that fits its prefix sum.
pub open spec fn gap_wf(g: IndexedGap) -> bool {
    &&& 1 <= g.gap.start <= g.gap.end
    &&& gap_len(g) <= g.inclusive_sum
}

impl Clone for IndexedGap {
    fn clone(&self) -> (r: Self)
        ensures
            r == *self,
    {
        IndexedGap { gap: self.gap.start..self.gap.end, inclusive_sum: self.inclusive_sum }
    }
}

impl IndexedGap {
    /// The number of IDs in this chunk.
    pub fn length(&self) -> (r: usize)
        requires
            self.gap.start <= self.gap.end,
        ensures
            r == gap_len(*self),
    {
        Raw::to_primitive(self.gap.end) - Raw::to_primitive(self.gap.start)
    }

    /// The prefix sum excluding this chunk.
    pub fn exclusive_sum(&self) -> (r: usize)
        requires
            gap_wf(*self),
        ensures
            r == gap_exclusive(*self),
    {
        self.inclusive_sum - self.length()
    }

    /// The part of this chunk whose positions among all IDs lie in `start_sum..end_sum`.
    pub fn restrict(&self, start_sum: usize, end_sum: usize) -> (r: Option<Range<u32>>)
        requires
            gap_wf(*self),
        ensures
            match r {
                Some(range) => {
                    &&& start_sum < self.inclusive_sum && gap_exclusive(*self) < end_sum
                    &&& range.start == self.gap.start + if gap_exclusive(*self) < start_sum { start_sum - gap_exclusive(*self) } else { 0 }
                    &&& range.end == self.gap.end - if self.inclusive_sum > end_sum { self.inclusive_sum - end_sum } else { 0 }
                    &&& forall|x: int| #[trigger] ranked_in(*self, start_sum as int, end_sum as int, x) <==> range.start <= x < range.end
                    &&& self.gap.start <= range.start && range.end <= self.gap.end
                    &&& (self.gap.start < self.gap.end && start_sum < end_sum) ==> range.start < range.end
                },
                None => forall|x: int| !#[trigger] ranked_in(*self, start_sum as int, end_sum as int, x),
            },
    {
        let mut start_entity = Raw::to_primitive(self.gap.start);
        let mut end_entity = Raw::to_primitive(self.gap.end);

        if start_sum >= self.inclusive_sum {
            // starts after this gap
            return None;
        }
        if self.exclusive_sum() < start_sum {
            // should start later
            start_entity += start_sum - self.exclusive_sum();
        }

        if end_sum <= self.exclusive_sum() {
            // ends before this gap
            return None;
        }
        if self.inclusive_sum > end_sum {
            // should end earlier
            end_entity -= self.inclusive_sum - end_sum;
        }

        Some(<u32 as Raw>::from_primitive(start_entity)..<u32 as Raw>::from_primitive(end_entity))
    }
}

/// The IDs before and in the first `i` chunks.
pub open spec fn gaps_prefix(gaps: Seq<Range<u32>>, i: int) -> int
    decreases i,
{
    if i <= 0 {
        0
    } else {
        gaps_prefix(gaps, i - 1) + (gaps[i - 1].end - gaps[i - 1].start)
    }
}

/// Pairs each chunk with the number of IDs up to and including it.
pub fn index_gaps(gaps: Vec<Range<u32>>) -> (r: Vec<IndexedGap>)
    requires
        forall|i: int| 0 <= i < gaps@.len() ==> 1 <= #[trigger] gaps@[i].start <= gaps@[i].end,
        gaps_prefix(gaps@, gaps@.len() as int) <= usize::MAX,
    ensures
        r@.len() == gaps@.len(),
        forall|i: int| 0 <= i < r@.len() ==> #[trigger] r@[i].gap == gaps@[i] && r@[i].inclusive_sum
            == gaps_prefix(gaps@, i + 1),
        forall|i: int| 0 <= i < r@.len() ==> gap_wf(#[trigger] r@[i]),
{
    let mut out: Vec<IndexedGap> = Vec::new();
    let mut prefix_sum: usize = 0;
    let mut i: usize = 0;
    while i < gaps.len()
        invariant
            0 <= i <= gaps@.len(),
            forall|j: int| 0 <= j < gaps@.len() ==> 1 <= #[trigger] gaps@[j].start <= gaps@[j].end,
            gaps_prefix(gaps@, gaps@.len() as int) <= usize::MAX,
            prefix_sum == gaps_prefix(gaps@, i as int),
            out@.len() == i,
            forall|j: int| 0 <= j < i ==> #[trigger] out@[j].gap == gaps@[j] && out@[j].inclusive_sum
                == gaps_prefix(gaps@, j + 1),
            forall|j: int| 0 <= j < i ==> gap_wf(#[trigger] out@[j]),
        decreases gaps@.len() - i,
    {
        let gap = gaps[i].start..gaps[i].end;
        proof {
            lemma_gaps_prefix_monotonic(gaps@, i + 1, gaps@.len() as int);
        }
        prefix_sum += Raw::to_primitive(gap.end) - Raw::to_primitive(gap.start);
        proof {
            lemma_gaps_prefix_monotonic(gaps@, i as int, i + 1);
        }
        out.push(IndexedGap { gap, inclusive_sum: prefix_sum });
        i += 1;
    }
    out
}

proof fn lemma_gaps_prefix_monotonic(gaps: Seq<Range<u32>>, a: int, b: int)
    requires
        0 <= a <= b <= gaps.len(),
        forall|i: int| 0 <= i < gaps.len() ==> #[trigger] gaps[i].start <= gaps[i].end,
    ensures
        0 <= gaps_prefix(gaps, a) <= gaps_prefix(gaps, b),
    decreases b,
{
    if b > 0 {
        if a < b {
            lemma_gaps_prefix_monotonic(gaps, a, b - 1);
        } else {
            lemma_gaps_prefix_monotonic(gaps, a - 1, b - 1);
        }
    }
}

/// A share of the allocated IDs: those at positions `start..end` among all of them.
pub struct Split {
    pub gaps: Arc<Vec<IndexedGap>>,
    pub start: usize,
    pub end: usize,
}

/// Whether the chunks are indexed consistently:
/// each prefix sum adds the chunk's length to the one before.
pub open spec fn indexed(gaps: Seq<IndexedGap>) -> bool {
    &&& forall|i: int| 0 <= i < gaps.len() ==> gap_wf(#[trigger] gaps[i])
    &&& forall|i: int| 0 < i < gaps.len() ==> gap_exclusive(#[trigger] gaps[i]) == gaps[i - 1].inclusive_sum
    &&& gaps.len() > 0 ==> gap_exclusive(gaps[0]) == 0
}

/// Whether `x` is in some chunk at a position within `start..end`.
pub open spec fn covered(gaps: Seq<IndexedGap>, start: int, end: int, x: int) -> bool {
    exists|i: int| 0 <= i < gaps.len() && #[trigger] ranked_in(gaps[i], start, end, x)
}

pub(crate) proof fn lemma_indexed_monotonic(gaps: Seq<IndexedGap>, i: int, j: int)
    requires
        indexed(gaps),
        0 <= i <= j < gaps.len(),
    ensures
        gaps[i].inclusive_sum <= gaps[j].inclusive_sum,
        gap_exclusive(gaps[i]) <= gap_exclusive(gaps[j]),
        i < j ==> gaps[i].inclusive_sum <= gap_exclusive(gaps[j]),
    decreases j - i,
{
    if i < j {
        lemma_indexed_monotonic(gaps, i, j - 1);
        assert(gap_wf(gaps[j]));
        assert(gap_exclusive(gaps[j]) == gaps[j - 1].inclusive_sum);
    }
}

/// The first chunk whose prefix sum including it reaches `bound`.
fn first_reaching(gaps: &Vec<IndexedGap>, bound: usize) -> (r: usize)
    requires
        indexed(gaps@),
    ensures
        r <= gaps@.len(),
        forall|i: int| 0 <= i < r ==> #[trigger] gaps@[i].inclusive_sum < bound,
        forall|i: int| r <= i < gaps@.len() ==> #[trigger] gaps@[i].inclusive_sum >= bound,
{
    let mut lo: usize = 0;
    let mut hi: usize = gaps.len();
    while lo < hi
        invariant
            0 <= lo <= hi <= gaps@.len(),
            indexed(gaps@),
            forall|i: int| 0 <= i < lo ==> #[trigger] gaps@[i].inclusive_sum < bound,
            forall|i: int| hi <= i < gaps@.len() ==> #[trigger] gaps@[i].inclusive_sum >= bound,
        decreases hi - lo,
    {
        let mid = lo + (hi - lo) / 2;
        if gaps[mid].inclusive_sum < bound {
            proof {
                assert forall|i: int| 0 <= i < mid + 1 implies #[trigger] gaps@[i].inclusive_sum < bound by {
                    lemma_indexed_monotonic(gaps@, i, mid as int);
                }
            }
            lo = mid + 1;
        } else {
            proof {
                assert forall|i: int| mid <= i < gaps@.len() implies #[trigger] gaps@[i].inclusive_sum >= bound by {
                    lemma_indexed_monotonic(gaps@, mid as int, i);
                }
            }
            hi = mid;
        }
    }
    lo
}

/// The first chunk whose prefix sum before it exceeds `bound`.
fn first_beyond(gaps: &Vec<IndexedGap>, bound: usize) -> (r: usize)
    requires
        indexed(gaps@),
    ensures
        r <= gaps@.len(),
        forall|i: int| 0 <= i < r ==> gap_exclusive(#[trigger] gaps@[i]) <= bound,
        forall|i: int| r <= i < gaps@.len() ==> gap_exclusive(#[trigger] gaps@[i]) > bound,
{
    let mut lo: usize = 0;
    let mut hi: usize = gaps.len();
    while lo < hi
        invariant
            0 <= lo <= hi <= gaps@.len(),
            indexed(gaps@),
            forall|i: int| 0 <= i < lo ==> gap_exclusive(#[trigger] gaps@[i]) <= bound,
            forall|i: int| hi <= i < gaps@.len() ==> gap_exclusive(#[trigger] gaps@[i]) > bound,
        decreases hi - lo,
    {
        let mid = lo + (hi - lo) / 2;
        proof {
            assert(gap_wf(gaps@[mid as int]));
        }
        if gaps[mid].exclusive_sum() <= bound {
            proof {
                assert forall|i: int| 0 <= i < mid + 1 implies gap_exclusive(#[trigger] gaps@[i]) <= bound by {
                    lemma_indexed_monotonic(gaps@, i, mid as int);
                }
            }
            lo = mid + 1;
        } else {
            proof {
                assert forall|i: int| mid <= i < gaps@.len() implies gap_exclusive(#[trigger] gaps@[i]) > bound by {
                    lemma_indexed_monotonic(gaps@, mid as int, i);
                }
            }
            hi = mid;
        }
    }
    lo
}

/// Whether every chunk is non-empty and ends before the next one starts,
/// with at least one ID between them.
pub open spec fn chunks_apart(gaps: Seq<IndexedGap>) -> bool {
    &&& forall|i: int| 0 <= i < gaps.len() ==> (#[trigger] gaps[i]).gap.start < gaps[i].gap.end
    &&& forall|i: int, j: int| 0 <= i < j < gaps.len() ==> (#[trigger] gaps[i]).gap.end < (#[trigger] gaps[j]).gap.start
}

/// Whether `x` lies in one of the ranges.
pub open spec fn in_ranges(ranges: Seq<Range<u32>>, x: int) -> bool {
    exists|k: int| 0 <= k < ranges.len() && #[trigger] ranges[k].start <= x < ranges[k].end
}

impl Split {
    /// Lists the IDs of this share as ranges of consecutive IDs.
    ///
    /// An ID is listed exactly when its position among all IDs lies in `start..end`.
    /// Where the chunks are apart, the ranges are too, so no ID is listed twice,
    /// and a share that is not empty lists no empty range.
    pub fn iter(self) -> (r: Vec<Range<u32>>)
        requires
            indexed((*self.gaps)@),
        ensures
            forall|x: int| #[trigger] in_ranges(r@, x) <==> covered((*self.gaps)@, self.start as int, self.end as int, x),
            chunks_apart((*self.gaps)@) ==> separated(range_bounds(r@)),
            chunks_apart((*self.gaps)@) && self.start < self.end ==> forall|k: int|
                0 <= k < r@.len() ==> (#[trigger] r@[k]).start < r@[k].end,
    {
        let gaps: &Vec<IndexedGap> = &*self.gaps;
        // Out of an abundance of caution, include one or two extra gaps here.
        let start_gap = first_reaching(gaps, self.start);
        let end_gap = first_beyond(gaps, self.end);
        let mut out: Vec<Range<u32>> = Vec::new();
        // The chunk that each range was cut from.
        let ghost mut source: Seq<int> = Seq::empty();
        let mut index = start_gap;
        while index < end_gap
            invariant
                start_gap <= index,
                index <= end_gap || index == start_gap,
                start_gap <= gaps@.len(),
                end_gap <= gaps@.len(),
                indexed(gaps@),
                forall|i: int| 0 <= i < start_gap ==> #[trigger] gaps@[i].inclusive_sum < self.start,
                forall|i: int| end_gap <= i < gaps@.len() ==> gap_exclusive(#[trigger] gaps@[i]) > self.end,
                forall|x: int| #[trigger] in_ranges(out@, x) <==> exists|i: int|
                    start_gap <= i < index && #[trigger] ranked_in(gaps@[i], self.start as int, self.end as int, x),
                source.len() == out@.len(),
                forall|k: int| 0 <= k < source.len() ==> start_gap <= #[trigger] source[k] < index,
                forall|k: int, l: int| 0 <= k < l < source.len() ==> #[trigger] source[k] < #[trigger] source[l],
                forall|k: int| 0 <= k < out@.len() ==> {
                    let g = gaps@[source[k]];
                    &&& g.gap.start <= (#[trigger] out@[k]).start
                    &&& out@[k].end <= g.gap.end
                    &&& (g.gap.start < g.gap.end && self.start < self.end) ==> out@[k].start < out@[k].end
                },
            decreases end_gap - index,
        {
            proof {
                assert(gap_wf(gaps@[index as int]));
            }
            let restricted = gaps[index].restrict(self.start, self.end);
            let ghost before = out@;
            match restricted {
                Some(range) => {
                    out.push(range);
                    proof {
                        source = source.push(index as int);
                        assert forall|k: int| 0 <= k < out@.len() implies {
                            let g = gaps@[source[k]];
                            &&& g.gap.start <= (#[trigger] out@[k]).start
                            &&& out@[k].end <= g.gap.end
                            &&& (g.gap.start < g.gap.end && self.start < self.end) ==> out@[k].start < out@[k].end
                        } by {
                            if k < before.len() {
                                assert(out@[k] == before[k]);
                            }
                        }
                        assert forall|x: int| #[trigger] in_ranges(out@, x) <==> exists|i: int|
                            start_gap <= i < index + 1 && #[trigger] ranked_in(gaps@[i], self.start as int, self.end as int, x) by {
                            if in_ranges(out@, x) {
                                let k = choose|k: int| 0 <= k < out@.len() && #[trigger] out@[k].start <= x < out@[k].end;
                                if k < before.len() {
                                    assert(in_ranges(before, x));
                                } else {
                                                    assert(ranked_in(gaps@[index as int], self.start as int, self.end as int, x));
                                }
                            }
                            if exists|i: int| start_gap <= i < index + 1 && #[trigger] ranked_in(gaps@[i], self.start as int, self.end as int, x) {
                                let i = choose|i: int| start_gap <= i < index + 1 && #[trigger] ranked_in(gaps@[i], self.start as int, self.end as int, x);
                                if i < index {
                                    assert(in_ranges(before, x));
                                    let k = choose|k: int| 0 <= k < before.len() && #[trigger] before[k].start <= x < before[k].end;
                                    assert(out@[k] == before[k]);
                                } else {
                                    assert(out@[before.len() as int] == range);
                                }
                            }
                        }
                    }
                },
                None => {
                    proof {
                        assert forall|x: int| #[trigger] in_ranges(out@, x) <==> exists|i: int|
                            start_gap <= i < index + 1 && #[trigger] ranked_in(gaps@[i], self.start as int, self.end as int, x) by {
                            if exists|i: int| start_gap <= i < index + 1 && #[trigger] ranked_in(gaps@[i], self.start as int, self.end as int, x) {
                                let i = choose|i: int| start_gap <= i < index + 1 && #[trigger] ranked_in(gaps@[i], self.start as int, self.end as int, x);
                                assert(i < index);
                            }
                        }
                    }
                },
            }
            index += 1;
        }
        proof {
            if chunks_apart(gaps@) {
                assert forall|k: int, l: int| 0 <= k < l < out@.len() implies #[trigger] range_bounds(out@)[k].1 < #[trigger] range_bounds(out@)[l].0 by {
                    assert(source[k] < source[l]);
                    assert(gaps@[source[k]].gap.end < gaps@[source[l]].gap.start);
                }
                if self.start < self.end {
                    assert forall|k: int| 0 <= k < out@.len() implies (#[trigger] out@[k]).start < out@[k].end by {
                        assert(gaps@[source[k]].gap.start < gaps@[source[k]].gap.end);
                    }
                }
            }
            assert forall|x: int| #[trigger] in_ranges(out@, x) <==> covered(gaps@, self.start as int, self.end as int, x) by {
                if covered(gaps@, self.start as int, self.end as int, x) {
                    let i = choose|i: int| 0 <= i < gaps@.len() && #[trigger] ranked_in(gaps@[i], self.start as int, self.end as int, x);
                    assert(gap_wf(gaps@[i]));
                    if i < start_gap {
                        assert(gaps@[i].inclusive_sum < self.start);
                    }
                    if i >= end_gap {
                        assert(gap_exclusive(gaps@[i]) > self.end);
                    }
                    assert(start_gap <= i < index);
                }
                if in_ranges(out@, x) {
                    let i = choose|i: int| start_gap <= i < index && #[trigger] ranked_in(gaps@[i], self.start as int, self.end as int, x);
                    assert(i < gaps@.len());
                }
            }
        }
        out
    }

    /// Halves the share, unless it is too small to halve.
    pub fn split(self) -> (r: (Self, Option<Self>))
        requires
            self.start <= self.end,
        ensures
            match r.1 {
                Some(right) => {
                    let mid = self.start + (self.end - self.start) / 2;
                    &&& self.start < mid < self.end
                    &&& r.0.start == self.start && r.0.end == mid && r.0.gaps == self.gaps
                    &&& right.start == mid && right.end == self.end && right.gaps == self.gaps
                },
                None => r.0 == self && self.end - self.start <= 1,
            },
    {
        let start = self.start;
        let end = self.end;
        let midpoint = start + (end - start) / 2;
        if midpoint == start || midpoint == end {
            return (self, None);
        }
        (Split { gaps: self.gaps.clone(), start, end: midpoint }, Some(Split { gaps: self.gaps, start: midpoint, end }))
    }
}

/// Splitting a share at `mid` loses and adds no ID:
/// an ID is in the share exactly when it is in one of the halves.
pub proof fn lemma_split_covers(gaps: Seq<IndexedGap>, start: int, mid: int, end: int, x: int)
    requires
        start <= mid <= end,
    ensures
        covered(gaps, start, end, x) <==> (covered(gaps, start, mid, x) || covered(gaps, mid, end, x)),
{
    if covered(gaps, start, end, x) {
        let i = choose|i: int| 0 <= i < gaps.len() && #[trigger] ranked_in(gaps[i], start, end, x);
        if gap_exclusive(gaps[i]) + (x - gaps[i].gap.start) < mid {
            assert(ranked_in(gaps[i], start, mid, x));
        } else {
            assert(ranked_in(gaps[i], mid, end, x));
        }
    }
    if covered(gaps, start, mid, x) {
        let i = choose|i: int| 0 <= i < gaps.len() && #[trigger] ranked_in(gaps[i], start, mid, x);
        assert(ranked_in(gaps[i], start, end, x));
    }
    if covered(gaps, mid, end, x) {
        let i = choose|i: int| 0 <= i < gaps.len() && #[trigger] ranked_in(gaps[i], mid, end, x);
        assert(ranked_in(gaps[i], start, end, x));
    }
}

} // verus!

