//! Stable ordering of shards by their recycler sizes.

use vstd::prelude::*;

verus! {

/// Whether `a` orders before `b` by size, ties broken by index.
pub open spec fn size_index_less(lens: Seq<usize>, a: usize, b: usize) -> bool {
    lens[a as int] < lens[b as int] || (lens[a as int] == lens[b as int] && a < b)
}

/// Whether `o` lists the indices of `lens` sorted by size, ties in index order.
pub open spec fn is_stable_order(lens: Seq<usize>, o: Seq<usize>) -> bool {
    &&& o.len() == lens.len()
    &&& forall|j: int| 0 <= j < o.len() ==> #[trigger] o[j] < lens.len()
    &&& o.no_duplicates()
    &&& forall|a: int, b: int|
        0 <= a < b < o.len() ==> size_index_less(lens, #[trigger] o[a], #[trigger] o[b])
}

/// The sizes listed in the order `o`.
pub open spec fn sizes_in_order(lens: Seq<usize>, o: Seq<usize>) -> Seq<usize> {
    Seq::new(o.len(), |j: int| lens[o[j] as int])
}

/// Sorts the indices of `lens` by size, keeping equal sizes in index order.
pub fn stable_order(lens: &Vec<usize>) -> (o: Vec<usize>)
    ensures
        is_stable_order(lens@, o@),
{
    let n = lens.len();
    let mut o: Vec<usize> = Vec::new();
    let mut k: usize = 0;
    while k < n
        invariant
            k <= n,
            n == lens@.len(),
            o@.len() == k,
            forall|j: int| 0 <= j < o@.len() ==> #[trigger] o@[j] < k,
            o@.no_duplicates(),
            forall|a: int, b: int|
                0 <= a < b < o@.len() ==> size_index_less(lens@, #[trigger] o@[a], #[trigger] o@[b]),
        decreases n - k,
    {
        // find where `k` goes: after every index whose size is not above that of `k`
        let mut pos = o.len();
        while pos > 0 && lens[o[pos - 1]] > lens[k]
            invariant
                0 <= pos <= o@.len(),
                k < n,
                n == lens@.len(),
                forall|j: int| 0 <= j < o@.len() ==> #[trigger] o@[j] < k,
                forall|j: int| pos <= j < o@.len() ==> lens@[#[trigger] o@[j] as int] > lens@[k as int],
            decreases pos,
        {
            pos -= 1;
        }
        let ghost before = o@;
        o.insert(pos, k);
        proof {
            assert(o@ =~= before.take(pos as int).push(k).add(before.skip(pos as int)));
            assert forall|a: int, b: int| 0 <= a < b < o@.len() implies size_index_less(
                lens@,
                #[trigger] o@[a],
                #[trigger] o@[b],
            ) by {
                if a < pos && b == pos {
                    if pos > 0 {
                        assert(lens@[before[pos - 1] as int] <= lens@[k as int]);
                        if a < pos - 1 {
                            assert(size_index_less(lens@, before[a], before[pos - 1]));
                        }
                    }
                } else if a == pos && b > pos {
                    assert(lens@[before[b - 1] as int] > lens@[k as int]);
                } else if a < pos && b > pos {
                    assert(size_index_less(lens@, before[a], before[b - 1]));
                } else if a > pos {
                    assert(size_index_less(lens@, before[a - 1], before[b - 1]));
                }
            }
            assert forall|i: int, j: int| 0 <= i < o@.len() && 0 <= j < o@.len() && i != j implies o@[i]
                != o@[j] by {
                if i != pos && j != pos {
                    let bi = if i < pos { i } else { i - 1 };
                    let bj = if j < pos { j } else { j - 1 };
                    assert(before[bi] != before[bj]);
                }
            }
        }
        k += 1;
    }
    o
}

} // verus!
