//! What the shares of the allocated IDs hold together.

use vstd::prelude::*;

use super::iterator::{covered, gap_wf, indexed, lemma_indexed_monotonic, lemma_split_covers, ranked_in, IndexedGap};

verus! {

/// The share of all positions, from 0 to the last prefix sum, holds exactly the IDs of the chunks.
/// With [`lemma_split_covers`](super::iterator::lemma_split_covers), the shares that repeated
/// splitting produces hold them together.
pub proof fn lemma_whole_share_covers(gaps: Seq<IndexedGap>, x: int)
    requires
        indexed(gaps),
        gaps.len() > 0,
    ensures
        covered(gaps, 0, gaps.last().inclusive_sum as int, x) <==> exists|i: int|
            0 <= i < gaps.len() && #[trigger] gaps[i].gap.start <= x < gaps[i].gap.end,
{
    let total = gaps.last().inclusive_sum as int;
    if exists|i: int| 0 <= i < gaps.len() && #[trigger] gaps[i].gap.start <= x < gaps[i].gap.end {
        let i = choose|i: int| 0 <= i < gaps.len() && #[trigger] gaps[i].gap.start <= x < gaps[i].gap.end;
        lemma_indexed_monotonic(gaps, 0, i);
        lemma_indexed_monotonic(gaps, i, gaps.len() - 1);
        assert(gap_wf(gaps[i]));
        assert(ranked_in(gaps[i], 0, total, x));
    }
}

/// Shares cut at ascending bounds, as repeated splitting produces them, together hold exactly
/// what the share from the first bound to the last holds.
pub proof fn lemma_consecutive_shares_cover(gaps: Seq<IndexedGap>, bounds: Seq<int>, x: int)
    requires
        bounds.len() >= 1,
        forall|i: int, j: int| 0 <= i <= j < bounds.len() ==> bounds[i] <= bounds[j],
    ensures
        covered(gaps, bounds[0], bounds.last(), x) <==> exists|k: int|
            0 <= k < bounds.len() - 1 && #[trigger] covered(gaps, bounds[k], bounds[k + 1], x),
    decreases bounds.len(),
{
    let n = bounds.len();
    if n == 1 {
        if covered(gaps, bounds[0], bounds[0], x) {
            let i = choose|i: int| 0 <= i < gaps.len() && #[trigger] ranked_in(gaps[i], bounds[0], bounds[0], x);
        }
    } else {
        let rest = bounds.drop_last();
        lemma_consecutive_shares_cover(gaps, rest, x);
        lemma_split_covers(gaps, bounds[0], bounds[n - 2], bounds[n - 1], x);
        assert forall|k: int| 0 <= k < n - 2 implies #[trigger] covered(gaps, bounds[k], bounds[k + 1], x) == covered(
            gaps,
            rest[k],
            rest[k + 1],
            x,
        ) by {
            assert(rest[k] == bounds[k] && rest[k + 1] == bounds[k + 1]);
        }
        if exists|k: int| 0 <= k < n - 1 && #[trigger] covered(gaps, bounds[k], bounds[k + 1], x) {
            let k = choose|k: int| 0 <= k < n - 1 && #[trigger] covered(gaps, bounds[k], bounds[k + 1], x);
            if k < n - 2 {
                assert(covered(gaps, rest[k], rest[k + 1], x));
            }
        }
        if covered(gaps, bounds[0], bounds[n - 2], x) {
            let k = choose|k: int| 0 <= k < rest.len() - 1 && #[trigger] covered(gaps, rest[k], rest[k + 1], x);
            assert(covered(gaps, bounds[k], bounds[k + 1], x));
        }
        if covered(gaps, bounds[n - 2], bounds[n - 1], x) {
            assert(covered(gaps, bounds[n - 2], bounds[(n - 2) + 1], x));
        }
    }
}

} // verus!
