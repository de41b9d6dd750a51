//! Stable merge sort of entity IDs by a caller-supplied order.

use vstd::prelude::*;

verus! {

broadcast use {vstd::seq_lib::group_to_multiset_ensures, vstd::multiset::group_multiset_axioms};

/// Whether `goes_after` was seen to place `x` no later than `y`:
/// it answered `false` for `(x, y)`, or `true` for `(y, x)`.
pub open spec fn placed_before<F: Fn(u32, u32) -> bool>(f: F, x: u32, y: u32) -> bool {
    ||| f.ensures((x, y), false)
    ||| f.ensures((y, x), true)
}

/// Whether each item is placed before the next one by the comparator.
pub open spec fn sorted_by<F: Fn(u32, u32) -> bool>(f: F, s: Seq<u32>) -> bool {
    forall|k: int| 0 <= k < s.len() - 1 ==> #[trigger] placed_before(f, s[k], s[k + 1])
}

/// Whether `goes_after` accepts every pair of IDs.
pub open spec fn comparator_total<F: Fn(u32, u32) -> bool>(f: F) -> bool {
    forall|a: u32, b: u32| #[trigger] f.requires((a, b))
}

/// Merges two runs that are each sorted by `goes_after`.
fn merge_runs<F: Fn(u32, u32) -> bool>(left: Vec<u32>, right: Vec<u32>, f: &F) -> (r: Vec<u32>)
    requires
        comparator_total(*f),
        sorted_by(*f, left@),
        sorted_by(*f, right@),
    ensures
        r@.to_multiset() == left@.to_multiset().add(right@.to_multiset()),
        sorted_by(*f, r@),
{
    let mut out: Vec<u32> = Vec::new();
    let mut i: usize = 0;
    let mut j: usize = 0;
    while i < left.len() || j < right.len()
        invariant
            comparator_total(*f),
            sorted_by(*f, left@),
            sorted_by(*f, right@),
            0 <= i <= left@.len(),
            0 <= j <= right@.len(),
            out@.to_multiset() == left@.take(i as int).to_multiset().add(right@.take(j as int).to_multiset()),
            sorted_by(*f, out@),
            out@.len() > 0 && i < left@.len() ==> placed_before(*f, out@.last(), left@[i as int]),
            out@.len() > 0 && j < right@.len() ==> placed_before(*f, out@.last(), right@[j as int]),
        decreases left@.len() + right@.len() - i - j,
    {
        let ghost before = out@;
        let take_left = if i < left.len() && j < right.len() {
            !f(left[i], right[j])
        } else {
            i < left.len()
        };
        if take_left {
            let x = left[i];
            out.push(x);
            proof {
                assert(left@.take(i + 1) =~= left@.take(i as int).push(x));
                if i + 1 < left@.len() {
                    assert(placed_before(*f, left@[i as int], left@[i + 1]));
                }
                assert forall|k: int| 0 <= k < out@.len() - 1 implies #[trigger] placed_before(*f, out@[k], out@[k + 1]) by {
                    if k < before.len() - 1 {
                        assert(placed_before(*f, before[k], before[k + 1]));
                    }
                }
            }
            i += 1;
        } else {
            let x = right[j];
            out.push(x);
            proof {
                assert(right@.take(j + 1) =~= right@.take(j as int).push(x));
                if j + 1 < right@.len() {
                    assert(placed_before(*f, right@[j as int], right@[j + 1]));
                }
                assert forall|k: int| 0 <= k < out@.len() - 1 implies #[trigger] placed_before(*f, out@[k], out@[k + 1]) by {
                    if k < before.len() - 1 {
                        assert(placed_before(*f, before[k], before[k + 1]));
                    }
                }
            }
            j += 1;
        }
    }
    proof {
        assert(left@.take(left@.len() as int) =~= left@);
        assert(right@.take(right@.len() as int) =~= right@);
    }
    out
}

/// Sorts the IDs such that no item goes after the next one, merging sorted halves.
pub fn sort_ids_by<F: Fn(u32, u32) -> bool>(v: Vec<u32>, f: &F) -> (r: Vec<u32>)
    requires
        comparator_total(*f),
    ensures
        r@.to_multiset() == v@.to_multiset(),
        sorted_by(*f, r@),
    decreases v@.len(),
{
    if v.len() <= 1 {
        return v;
    }
    let mut left = v;
    let ghost whole = left@;
    let mid = left.len() / 2;
    let right = left.split_off(mid);
    proof {
        assert(whole =~= left@ + right@);
        vstd::seq_lib::lemma_multiset_commutative(left@, right@);
    }
    let left = sort_ids_by(left, f);
    let right = sort_ids_by(right, f);
    merge_runs(left, right, f)
}

} // verus!
