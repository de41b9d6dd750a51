//! Chunks of allocated entity IDs between recycled ones.

use std::collections::BTreeSet;
use std::ops::Range;

use vstd::prelude::*;
use vstd::std_specs::cmp::OrdSpec;
use vstd::std_specs::iter::IteratorSpec;

use crate::entity::Raw;

verus! {

broadcast use {vstd::std_specs::btree::group_btree_axioms, vstd::laws_cmp::group_laws_cmp};

/// Whether the IDs are strictly increasing.
pub open spec fn strictly_increasing(b: Seq<u32>) -> bool {
    forall|i: int, j: int| 0 <= i < j < b.len() ==> b[i] < b[j]
}

/// Whether `a` orders before `b`.
spec fn key_less<K: OrdSpec>(a: K, b: K) -> bool {
    a.cmp_spec(&b) is Less
}

/// Lists the elements of a set of IDs in ascending order.
pub fn sorted_ids(set: &BTreeSet<u32>) -> (r: Vec<u32>)
    ensures
        r@.to_set() == set@,
        r@.no_duplicates(),
        strictly_increasing(r@),
{
    let mut out: Vec<u32> = Vec::new();
    for x in it: set.iter()
        invariant
            out@.len() == it.index(),
            forall|i: int| 0 <= i < out@.len() ==> out@[i] == *it.seq()[i],
    {
        out.push(*x);
    }
    proof {
        let keys = IteratorSpec::remaining(&vstd::std_specs::btree::spec_btree_keys_iter(set));
        assert(keys.unref().to_set() == set@);
        assert(out@ =~= keys.unref());
        assert forall|i: int, j: int| 0 <= i < j < out@.len() implies out@[i] < out@[j] by {
            assert(vstd::std_specs::btree::increasing_seq(keys));
            assert(vstd::laws_cmp::obeys_cmp::<u32>());
            assert(vstd::laws_cmp::obeys_cmp::<&u32>());
            vstd::std_specs::btree::axiom_increasing_seq_meaning(keys);
            assert(keys.len() == out@.len());
            assert(key_less::<&u32>(keys[i], keys[j]));
            assert(key_less::<u32>(out@[i], out@[j]));
        }
        assert(out@.to_set() =~= set@);
    }
    out
}


/// The first ID of the `j`-th stretch between breakpoints.
pub open spec fn gap_start(b: Seq<u32>, j: int) -> int {
    if j == 0 {
        1
    } else {
        b[j - 1] + 1
    }
}

/// The exclusive end of the `j`-th stretch between breakpoints.
pub open spec fn gap_end(gauge: u32, b: Seq<u32>, j: int) -> int {
    if j < b.len() {
        b[j] as int
    } else {
        gauge as int
    }
}

/// All stretches between consecutive breakpoints, from ID 1 up to the gauge, empty ones included.
pub open spec fn raw_gaps(gauge: u32, b: Seq<u32>) -> Seq<(int, int)> {
    Seq::new(b.len() + 1, |j: int| (gap_start(b, j), gap_end(gauge, b, j)))
}

/// The stretches between consecutive breakpoints, without the empty ones.
pub open spec fn allocated_gaps(gauge: u32, b: Seq<u32>) -> Seq<(int, int)> {
    raw_gaps(gauge, b).filter(|p: (int, int)| p.0 != p.1)
}

/// The bounds of each range.
pub open spec fn range_bounds(r: Seq<Range<u32>>) -> Seq<(int, int)> {
    r.map_values(|x: Range<u32>| (x.start as int, x.end as int))
}

/// What the gap iterator last saw.
enum Previous {
    Initial,
    Breakpoint(u32),
    Finalized,
}

/// Iterates over the stretches between breakpoints.
struct IterGaps {
    gauge: u32,
    breakpoints: Vec<u32>,
    index: usize,
    previous: Previous,
}

impl IterGaps {
    spec fn wf(&self) -> bool {
        &&& self.index <= self.breakpoints@.len()
        &&& match self.previous {
            Previous::Initial => self.index == 0,
            Previous::Breakpoint(p) => 1 <= self.index && p == self.breakpoints@[self.index - 1],
            Previous::Finalized => self.index == self.breakpoints@.len(),
        }
    }

    /// The number of stretches produced so far.
    spec fn produced(&self) -> int {
        match self.previous {
            Previous::Initial => 0,
            Previous::Breakpoint(_) => self.index as int,
            Previous::Finalized => self.breakpoints@.len() + 1int,
        }
    }

    fn next(&mut self) -> (r: Option<Range<u32>>)
        requires
            old(self).wf(),
            forall|i: int| 0 <= i < old(self).breakpoints@.len() ==> old(self).breakpoints@[i] < u32::MAX,
        ensures
            final(self).wf(),
            final(self).gauge == old(self).gauge,
            final(self).breakpoints@ == old(self).breakpoints@,
            old(self).produced() <= old(self).breakpoints@.len() ==> {
                &&& r matches Some(range)
                &&& (range.start as int, range.end as int) == raw_gaps(old(self).gauge, old(self).breakpoints@)[old(self).produced()]
                &&& final(self).produced() == old(self).produced() + 1
            },
            old(self).produced() > old(self).breakpoints@.len() ==> r is None && final(self).produced() == old(self).produced(),
    {
        let start = match self.previous {
            Previous::Initial => <u32 as Raw>::first(),
            Previous::Breakpoint(previous) => Raw::add(previous, 1),
            Previous::Finalized => return None,
        };
        let (previous, end) = if self.index < self.breakpoints.len() {
            let breakpoint = self.breakpoints[self.index];
            self.index += 1;
            (Previous::Breakpoint(breakpoint), breakpoint)
        } else {
            (Previous::Finalized, self.gauge)
        };
        self.previous = previous;
        Some(start..end)
    }
}

/// Lists the non-empty stretches of IDs from 1 up to `gauge`, split at each breakpoint.
///
/// With the recycled IDs in ascending order as breakpoints,
/// these are the chunks of allocated IDs.
pub fn iter_gaps(gauge: u32, breakpoints: Vec<u32>) -> (r: Vec<Range<u32>>)
    requires
        forall|i: int| 0 <= i < breakpoints@.len() ==> breakpoints@[i] < u32::MAX,
    ensures
        range_bounds(r@) == allocated_gaps(gauge, breakpoints@),
{
    let ghost b = breakpoints@;
    let n = breakpoints.len();
    let mut iter = IterGaps { gauge, breakpoints, index: 0, previous: Previous::Initial };
    let mut out: Vec<Range<u32>> = Vec::new();
    loop
        invariant
            iter.wf(),
            iter.gauge == gauge,
            iter.breakpoints@ == b,
            n == b.len(),
            0 <= iter.produced() <= n + 1,
            forall|i: int| 0 <= i < b.len() ==> b[i] < u32::MAX,
            range_bounds(out@) == raw_gaps(gauge, b).take(iter.produced()).filter(
                |p: (int, int)| p.0 != p.1,
            ),
        ensures
            range_bounds(out@) == raw_gaps(gauge, b).take(n + 1).filter(
                |p: (int, int)| p.0 != p.1,
            ),
        decreases n + 1 - iter.produced(),
    {
        let ghost k = iter.produced();
        let next = iter.next();
        match next {
            Some(range) => {
                let ghost raw = raw_gaps(gauge, b);
                let ghost pred = |p: (int, int)| p.0 != p.1;
                proof {
                    assert(raw.take(k + 1).drop_last() =~= raw.take(k));
                    assert(raw.take(k + 1).last() == raw[k]);
                    reveal_with_fuel(Seq::filter, 1);
                }
                if range.start != range.end {
                    let ghost before = out@;
                    out.push(range);
                    proof {
                        assert(range_bounds(out@) =~= range_bounds(before).push(
                            (range.start as int, range.end as int),
                        ));
                        assert(raw.take(k + 1).filter(pred) == raw.take(k).filter(pred).push(raw[k]));
                    }
                } else {
                    proof {
                        assert(raw.take(k + 1).filter(pred) == raw.take(k).filter(pred));
                    }
                }
            },
            None => {
                break;
            },
        }
    }
    proof {
        assert(raw_gaps(gauge, b).take(n + 1) =~= raw_gaps(gauge, b));
    }
    out
}

/// Whether `x` lies in one of the given stretches.
pub open spec fn in_some_gap(gaps: Seq<(int, int)>, x: int) -> bool {
    exists|i: int| 0 <= i < gaps.len() && #[trigger] gaps[i].0 <= x < gaps[i].1
}

/// The first breakpoint index from `j` on whose breakpoint is above `x`.
spec fn first_above(b: Seq<u32>, x: int, j: int) -> int
    decreases b.len() - j,
{
    if j >= b.len() {
        b.len() as int
    } else if b[j] > x {
        j
    } else {
        first_above(b, x, j + 1)
    }
}

proof fn lemma_first_above(b: Seq<u32>, x: int, j: int)
    requires
        0 <= j <= b.len(),
        forall|t: int| 0 <= t < j ==> b[t] <= x,
    ensures
        j <= first_above(b, x, j) <= b.len(),
        forall|t: int| 0 <= t < first_above(b, x, j) ==> b[t] <= x,
        first_above(b, x, j) < b.len() ==> b[first_above(b, x, j)] > x,
    decreases b.len() - j,
{
    if j < b.len() && b[j] <= x {
        lemma_first_above(b, x, j + 1);
    }
}

/// With ascending breakpoints between 1 and the gauge,
/// the stretches are non-empty and hold exactly the IDs below the gauge
/// that are not breakpoints.
pub proof fn lemma_gaps_cover(gauge: u32, b: Seq<u32>)
    requires
        gauge >= 1,
        strictly_increasing(b),
        forall|i: int| 0 <= i < b.len() ==> 1 <= #[trigger] b[i] < gauge,
    ensures
        forall|i: int|
            0 <= i < allocated_gaps(gauge, b).len() ==> #[trigger] allocated_gaps(gauge, b)[i].0
                < allocated_gaps(gauge, b)[i].1,
        forall|x: int|
            #[trigger] in_some_gap(allocated_gaps(gauge, b), x) <==> (1 <= x < gauge && !b.contains(
                x as u32,
            )),
{
    let raw = raw_gaps(gauge, b);
    let pred = |p: (int, int)| p.0 != p.1;
    let gaps = allocated_gaps(gauge, b);
    assert forall|j: int| 0 <= j < raw.len() implies #[trigger] raw[j].0 <= raw[j].1 by {
        if j > 0 && j < b.len() {
            assert(b[j - 1] < b[j]);
        }
    }
    assert forall|i: int| 0 <= i < gaps.len() implies #[trigger] gaps[i].0 < gaps[i].1 by {
        raw.lemma_filter_pred(pred, i);
        assert(gaps.contains(gaps[i]));
        raw.lemma_filter_contains_rev(pred, gaps[i]);
        let j = choose|j: int| 0 <= j < raw.len() && raw[j] == gaps[i];
        assert(raw[j].0 <= raw[j].1);
    }
    assert forall|x: int| #[trigger] in_some_gap(gaps, x) implies (1 <= x < gauge && !b.contains(
        x as u32,
    )) by {
        let i = choose|i: int| 0 <= i < gaps.len() && #[trigger] gaps[i].0 <= x < gaps[i].1;
        assert(gaps.contains(gaps[i]));
        raw.lemma_filter_contains_rev(pred, gaps[i]);
        let j = choose|j: int| 0 <= j < raw.len() && raw[j] == gaps[i];
        if j > 0 {
            assert(b[j - 1] < gauge);
        }
        if b.contains(x as u32) {
            let t = choose|t: int| 0 <= t < b.len() && b[t] == x as u32;
            if t < j {
                assert(b[t] <= b[j - 1]);
            } else {
                assert(b[j] <= b[t]);
            }
        }
    }
    assert forall|x: int| (1 <= x < gauge && !b.contains(x as u32)) implies #[trigger] in_some_gap(
        gaps,
        x,
    ) by {
        lemma_first_above(b, x, 0);
        let j = first_above(b, x, 0);
        if j > 0 {
            if b[j - 1] == x {
                assert(b.contains(x as u32));
            }
        }
        assert(raw[j].0 <= x < raw[j].1);
        raw.lemma_filter_contains(pred, j);
        assert(gaps.contains(raw[j]));
        let i = choose|i: int| 0 <= i < gaps.len() && gaps[i] == raw[j];
        assert(gaps[i].0 <= x < gaps[i].1);
    }
}

/// Whether each stretch ends before the next one starts, with at least one ID between them.
pub open spec fn separated(gaps: Seq<(int, int)>) -> bool {
    forall|i: int, j: int| 0 <= i < j < gaps.len() ==> #[trigger] gaps[i].1 < #[trigger] gaps[j].0
}

proof fn lemma_filter_separated(s: Seq<(int, int)>, pred: spec_fn((int, int)) -> bool)
    requires
        separated(s),
    ensures
        separated(s.filter(pred)),
    decreases s.len(),
{
    reveal(Seq::filter);
    if s.len() > 0 {
        let rest = s.drop_last();
        assert(separated(rest)) by {
            assert forall|i: int, j: int| 0 <= i < j < rest.len() implies #[trigger] rest[i].1 < #[trigger] rest[j].0 by {
                assert(rest[i] == s[i] && rest[j] == s[j]);
            }
        }
        lemma_filter_separated(rest, pred);
        let sub = rest.filter(pred);
        if pred(s.last()) {
            let all = sub.push(s.last());
            assert(s.filter(pred) == all);
            assert forall|i: int, j: int| 0 <= i < j < all.len() implies #[trigger] all[i].1 < #[trigger] all[j].0 by {
                if j < sub.len() {
                    assert(all[i] == sub[i] && all[j] == sub[j]);
                } else {
                    assert(all[i] == sub[i]);
                    assert(sub.contains(sub[i]));
                    rest.lemma_filter_contains_rev(pred, sub[i]);
                    let m = choose|m: int| 0 <= m < rest.len() && rest[m] == sub[i];
                    assert(s[m] == sub[i]);
                    assert(s[m].1 < s[s.len() - 1].0);
                }
            }
        }
    }
}

/// With ascending breakpoints, the stretches come in ascending order,
/// each separated from the next by at least one ID.
pub proof fn lemma_gaps_separated(gauge: u32, b: Seq<u32>)
    requires
        strictly_increasing(b),
    ensures
        separated(allocated_gaps(gauge, b)),
{
    let raw = raw_gaps(gauge, b);
    assert forall|i: int, j: int| 0 <= i < j < raw.len() implies #[trigger] raw[i].1 < #[trigger] raw[j].0 by {
        if i < j - 1 {
            assert(b[i] < b[j - 1]);
        }
    }
    lemma_filter_separated(raw, |p: (int, int)| p.0 != p.1);
}

} // verus!
