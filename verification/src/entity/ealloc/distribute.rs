//! Even distribution of recycled IDs among recycler shards.

use vstd::prelude::*;

verus! {

/// The sum of a sequence of sizes.
pub open spec fn seq_sum(s: Seq<usize>) -> int
    decreases s.len(),
{
    if s.len() == 0 {
        0
    } else {
        seq_sum(s.drop_last()) + s.last()
    }
}

/// The sum of the first `n` sizes.
pub open spec fn prefix_sum(s: Seq<usize>, n: int) -> int {
    seq_sum(s.take(n))
}

/// Whether the sizes are sorted in ascending order.
pub open spec fn sorted_sizes(s: Seq<usize>) -> bool {
    forall|i: int, j: int| 0 <= i <= j < s.len() ==> s[i] <= s[j]
}

/// The number of units needed to raise the first `i` shards up to the size of shard `i`.
pub open spec fn raise_cost(s: Seq<usize>, i: int) -> int {
    i * s[i] - prefix_sum(s, i)
}

/// The first shard index from `i` on whose raise cost is not below `total`,
/// or the number of shards if there is none.
pub open spec fn first_unaffordable(s: Seq<usize>, total: int, i: int) -> int
    decreases s.len() - i,
{
    if i >= s.len() {
        s.len() as int
    } else if raise_cost(s, i) >= total {
        i
    } else {
        first_unaffordable(s, total, i + 1)
    }
}

/// The number of leading shards that receive new IDs.
pub open spec fn used_shard_count(s: Seq<usize>, total: int) -> int {
    first_unaffordable(s, total, 0)
}

/// The water level reached by the leading shards.
pub open spec fn fill_level(s: Seq<usize>, total: int) -> int {
    let k = used_shard_count(s, total);
    s[k - 1] + (total - raise_cost(s, k - 1)) / k
}

/// The number of leading shards that receive one unit above the water level.
pub open spec fn fill_remainder(s: Seq<usize>, total: int) -> int {
    let k = used_shard_count(s, total);
    (total - raise_cost(s, k - 1)) % k
}

/// The sizes after distributing `total` new units over sorted `s`:
/// the smallest shards are filled up to a common level,
/// and the remainder goes one unit each to the last of the filled shards.
pub open spec fn distributed(s: Seq<usize>, total: int) -> Seq<int> {
    let k = used_shard_count(s, total);
    if k == 0 {
        Seq::new(s.len(), |i: int| s[i] as int)
    } else {
        let level = fill_level(s, total);
        let r = fill_remainder(s, total);
        Seq::new(
            s.len(),
            |i: int|
                if i < k - r {
                    level
                } else if i < k {
                    level + 1
                } else {
                    s[i] as int
                },
        )
    }
}

/// Every size after the distribution fits in `usize`.
pub open spec fn distribution_fits(s: Seq<usize>, total: int) -> bool {
    forall|i: int| 0 <= i < s.len() ==> #[trigger] distributed(s, total)[i] <= usize::MAX
}

pub proof fn lemma_prefix_step(s: Seq<usize>, i: int)
    requires
        0 <= i < s.len(),
    ensures
        prefix_sum(s, i + 1) == prefix_sum(s, i) + s[i],
{
    assert(s.take(i + 1).drop_last() =~= s.take(i));
}

proof fn lemma_cost_zero(s: Seq<usize>)
    requires
        s.len() > 0,
    ensures
        raise_cost(s, 0) == 0,
{
    assert(s.take(0) =~= Seq::<usize>::empty());
    assert(prefix_sum(s, 0) == 0);
    assert(0 * s[0] == 0) by (nonlinear_arith);
}

proof fn lemma_prefix_bounds(s: Seq<usize>, i: int)
    requires
        0 <= i <= s.len(),
        sorted_sizes(s),
    ensures
        0 <= prefix_sum(s, i),
        i > 0 ==> prefix_sum(s, i) <= i * s[i - 1],
    decreases i,
{
    if i > 0 {
        lemma_prefix_step(s, i - 1);
        lemma_prefix_bounds(s, i - 1);
        if i > 1 {
            assert((i - 1) * s[i - 2] <= (i - 1) * s[i - 1]) by (nonlinear_arith)
                requires
                    s[i - 2] <= s[i - 1],
                    i > 1,
            ;
        }
        assert((i - 1) * s[i - 1] + s[i - 1] == i * s[i - 1]) by (nonlinear_arith);
    }
}

proof fn lemma_cost_step(s: Seq<usize>, i: int)
    requires
        0 < i < s.len(),
    ensures
        raise_cost(s, i) == raise_cost(s, i - 1) + i * (s[i] - s[i - 1]),
{
    lemma_prefix_step(s, i - 1);
    assert(i * s[i] - ((i - 1) * s[i - 1] + s[i - 1]) == i * (s[i] - s[i - 1])) by (nonlinear_arith);
}

proof fn lemma_cost_bounds(s: Seq<usize>, i: int)
    requires
        0 <= i < s.len(),
        sorted_sizes(s),
    ensures
        0 <= raise_cost(s, i) <= i * s[i],
{
    lemma_prefix_bounds(s, i);
    if i > 0 {
        assert(i * s[i - 1] <= i * s[i]) by (nonlinear_arith)
            requires
                s[i - 1] <= s[i],
                i > 0,
        ;
    }
}

proof fn lemma_first_unaffordable_skip(s: Seq<usize>, total: int, i: int)
    requires
        0 <= i <= s.len(),
        forall|j: int| 0 <= j < i ==> raise_cost(s, j) < total,
    ensures
        first_unaffordable(s, total, 0) == first_unaffordable(s, total, i),
    decreases i,
{
    if i > 0 {
        lemma_first_unaffordable_skip(s, total, i - 1);
    }
}

proof fn lemma_first_unaffordable_props(s: Seq<usize>, total: int, i: int)
    requires
        0 <= i <= s.len(),
    ensures
        i <= first_unaffordable(s, total, i) <= s.len(),
        first_unaffordable(s, total, i) < s.len() ==> raise_cost(
            s,
            first_unaffordable(s, total, i),
        ) >= total,
        forall|j: int| i <= j < first_unaffordable(s, total, i) ==> raise_cost(s, j) < total,
    decreases s.len() - i,
{
    if i < s.len() && raise_cost(s, i) < total {
        lemma_first_unaffordable_props(s, total, i + 1);
    }
}

/// The sum of a sequence of integers.
pub open spec fn int_sum(s: Seq<int>) -> int
    decreases s.len(),
{
    if s.len() == 0 {
        0
    } else {
        int_sum(s.drop_last()) + s.last()
    }
}

pub proof fn lemma_int_sum_step(t: Seq<int>, b: int)
    requires
        0 <= b < t.len(),
    ensures
        int_sum(t.take(b + 1)) == int_sum(t.take(b)) + t[b],
{
    assert(t.take(b + 1).drop_last() =~= t.take(b));
}

proof fn lemma_int_sum_constant(t: Seq<int>, a: int, b: int, c: int)
    requires
        0 <= a <= b <= t.len(),
        forall|i: int| a <= i < b ==> t[i] == c,
    ensures
        int_sum(t.take(b)) == int_sum(t.take(a)) + (b - a) * c,
    decreases b - a,
{
    if a == b {
        assert((b - a) * c == 0) by (nonlinear_arith)
            requires
                a == b,
        ;
    } else {
        lemma_int_sum_constant(t, a, b - 1, c);
        lemma_int_sum_step(t, b - 1);
        assert((b - 1 - a) * c + c == (b - a) * c) by (nonlinear_arith);
    }
}

proof fn lemma_int_sum_follows(t: Seq<int>, s: Seq<usize>, a: int, b: int)
    requires
        0 <= a <= b <= t.len(),
        t.len() == s.len(),
        forall|i: int| a <= i < b ==> t[i] == s[i],
    ensures
        int_sum(t.take(b)) - int_sum(t.take(a)) == prefix_sum(s, b) - prefix_sum(s, a),
    decreases b - a,
{
    if a < b {
        lemma_int_sum_follows(t, s, a, b - 1);
        lemma_int_sum_step(t, b - 1);
        lemma_prefix_step(s, b - 1);
    }
}

/// The distribution keeps the sizes sorted, never shrinks a shard,
/// and adds exactly `total` units overall.
proof fn lemma_distributed_laws(s: Seq<usize>, total: int)
    requires
        sorted_sizes(s),
        total >= 0,
        s.len() > 0 || total == 0,
    ensures
        distributed(s, total).len() == s.len(),
        forall|i: int| 0 <= i < s.len() ==> #[trigger] distributed(s, total)[i] >= s[i],
        forall|i: int, j: int|
            0 <= i <= j < s.len() ==> distributed(s, total)[i] <= distributed(s, total)[j],
        int_sum(distributed(s, total)) == seq_sum(s) + total,
{
    let d = distributed(s, total);
    let n = s.len() as int;
    let k = used_shard_count(s, total);
    lemma_first_unaffordable_props(s, total, 0);
    assert(d.take(n) =~= d);
    assert(s.take(n) =~= s);
    assert(d.take(0) =~= Seq::<int>::empty());
    assert(s.take(0) =~= Seq::<usize>::empty());
    if k == 0 {
        lemma_int_sum_follows(d, s, 0, n);
    } else {
        let level = fill_level(s, total);
        let r = fill_remainder(s, total);
        let cost = raise_cost(s, k - 1);
        let deficit = total - cost;
        assert(cost < total);
        lemma_cost_bounds(s, k - 1);
        lemma_prefix_step(s, k - 1);
        assert(deficit == k * (deficit / k) + r) by (nonlinear_arith)
            requires
                k > 0,
                r == deficit % k,
        ;
        assert(0 <= r < k) by (nonlinear_arith)
            requires
                k > 0,
                r == deficit % k,
        ;
        assert(deficit / k >= 0) by (nonlinear_arith)
            requires
                k > 0,
                deficit >= 0,
        ;
        assert(level >= s[k - 1]);
        // the leading shards end up with exactly `total` more units
        lemma_int_sum_constant(d, 0, k - r, level);
        lemma_int_sum_constant(d, k - r, k, level + 1);
        lemma_int_sum_follows(d, s, k, n);
        assert(k * level == k * s[k - 1] + k * (deficit / k)) by (nonlinear_arith)
            requires
                level == s[k - 1] + deficit / k,
        ;
        assert(cost == (k - 1) * s[k - 1] - prefix_sum(s, k - 1));
        assert((k - 1) * s[k - 1] + s[k - 1] == k * s[k - 1]) by (nonlinear_arith);
        assert((k - r) * level + r * (level + 1) == k * level + r) by (nonlinear_arith);
        assert(int_sum(d.take(k)) == prefix_sum(s, k) + total);
        if k < n {
            lemma_cost_bounds(s, k);
            // the last raised shard does not overtake the first untouched one
            assert(k * s[k] - prefix_sum(s, k) >= total);
            assert(k * level + r <= k * s[k]);
            if r > 0 {
                assert(level < s[k]) by (nonlinear_arith)
                    requires
                        k * level + r <= k * s[k],
                        r > 0,
                        k > 0,
                ;
            } else {
                assert(level <= s[k]) by (nonlinear_arith)
                    requires
                        k * level <= k * s[k],
                        k > 0,
                ;
            }
        }
        assert forall|i: int, j: int| 0 <= i <= j < s.len() implies d[i] <= d[j] by {
            if j >= k && i < k {
                assert(s[k] <= s[j]);
            }
        }
        assert forall|i: int| 0 <= i < s.len() implies #[trigger] d[i] >= s[i] by {
            if i < k {
                assert(s[i] <= s[k - 1]);
            }
        }
    }
}

/// No shard grows beyond the largest size plus all new units,
/// so the distribution fits wherever that sum does.
pub proof fn lemma_fits_within_last(s: Seq<usize>, total: int)
    requires
        sorted_sizes(s),
        total >= 0,
        s.len() > 0,
        s.last() + total <= usize::MAX,
    ensures
        distribution_fits(s, total),
{
    let k = used_shard_count(s, total);
    lemma_first_unaffordable_props(s, total, 0);
    if k > 0 {
        let cost = raise_cost(s, k - 1);
        let deficit = total - cost;
        let level = fill_level(s, total);
        let r = fill_remainder(s, total);
        lemma_cost_bounds(s, k - 1);
        assert(s[k - 1] <= s.last());
        assert(0 <= deficit <= total);
        assert(deficit == k * (deficit / k) + r && 0 <= r < k && 0 <= deficit / k <= deficit) by (nonlinear_arith)
            requires
                k > 0,
                deficit >= 0,
                r == deficit % k,
        ;
        assert(r > 0 ==> deficit / k + 1 <= deficit) by (nonlinear_arith)
            requires
                deficit == k * (deficit / k) + r,
                0 <= r < k,
                deficit / k >= 0,
        ;
        assert forall|i: int| 0 <= i < s.len() implies #[trigger] distributed(s, total)[i] <= usize::MAX by {
            if i >= k {
                assert(distributed(s, total)[i] == s[i]);
            }
        }
    }
}

/// Whether `diff` steps of `i` units each reach `need` units,
/// decided without forming the product.
proof fn lemma_reaches(diff: int, need: int, i: int)
    requires
        i > 0,
        need > 0,
        diff >= 0,
    ensures
        0 <= (need - 1) / i < need,
        diff >= (need - 1) / i + 1 <==> diff * i >= need,
{
    let q = (need - 1) / i;
    let rem = (need - 1) % i;
    assert(need - 1 == q * i + rem && 0 <= rem < i && 0 <= q <= need - 1) by (nonlinear_arith)
        requires
            i > 0,
            need > 0,
            q == (need - 1) / i,
            rem == (need - 1) % i,
    ;
    if diff >= q + 1 {
        assert(diff * i >= q * i + i) by (nonlinear_arith)
            requires
                diff >= q + 1,
                i > 0,
        ;
    } else {
        assert(diff * i <= q * i) by (nonlinear_arith)
            requires
                diff <= q,
                i > 0,
        ;
    }
}

pub proof fn lemma_sum_matches(u: Seq<usize>, d: Seq<int>)
    requires
        u.len() == d.len(),
        forall|i: int| 0 <= i < u.len() ==> u[i] == d[i],
    ensures
        seq_sum(u) == int_sum(d),
    decreases u.len(),
{
    if u.len() > 0 {
        lemma_sum_matches(u.drop_last(), d.drop_last());
    }
}

/// Distributes `total` new units over `sizes`, which are sorted in ascending order,
/// such that the smallest sizes are raised to a common level first.
///
/// The remainder that does not divide evenly goes one unit each
/// to the last of the raised shards, so the result stays sorted.
#[verifier::spinoff_prover]
pub fn distribute_sorted(sizes: &mut [usize], total: usize)
    requires
        sorted_sizes(old(sizes)@),
        distribution_fits(old(sizes)@, total as int),
    ensures
        final(sizes)@.len() == old(sizes)@.len(),
        forall|i: int|
            0 <= i < old(sizes)@.len() ==> final(sizes)@[i] == #[trigger] distributed(
                old(sizes)@,
                total as int,
            )[i],
        sorted_sizes(final(sizes)@),
        forall|i: int| 0 <= i < old(sizes)@.len() ==> final(sizes)@[i] >= old(sizes)@[i],
        old(sizes)@.len() > 0 ==> seq_sum(final(sizes)@) == seq_sum(old(sizes)@) + total,
{
    let ghost s = sizes@;
    let n = sizes.len();
    let mut added: usize = 0;
    let mut target: usize = 0;
    let mut shards_used: usize = 0;
    while shards_used < n
        invariant
            s == sizes@,
            n == s.len(),
            sorted_sizes(s),
            0 <= shards_used <= n,
            added <= total,
            forall|j: int| 0 <= j < shards_used ==> raise_cost(s, j) < total,
            shards_used == 0 ==> added == 0 && target == 0,
            shards_used > 0 ==> added == raise_cost(s, shards_used - 1) && target
                == s[shards_used - 1],
        ensures
            0 <= shards_used <= n,
            forall|j: int| 0 <= j < shards_used ==> raise_cost(s, j) < total,
            shards_used < n ==> raise_cost(s, shards_used as int) >= total,
            shards_used == 0 ==> added == 0 && target == 0,
            shards_used > 0 ==> added == raise_cost(s, shards_used - 1) && target
                == s[shards_used - 1],
        decreases n - shards_used,
    {
        let i = shards_used;
        let size = sizes[i];
        proof {
            if i > 0 {
                assert(s[i - 1] <= s[i as int]);
                lemma_cost_step(s, i as int);
                let gap: int = size - target;
                assert(gap * (i as int) == (i as int) * gap) by (nonlinear_arith);
            } else {
                lemma_cost_zero(s);
                assert((size - target) * i == 0);
            }
            assert((size - target) * i == raise_cost(s, i as int) - added);
        }
        let diff = size - target;
        let need = total - added;
        // whether raising the leading shards to this size takes all remaining units,
        // that is, whether `diff * i >= need`
        let reaches: bool = if need == 0 {
            true
        } else if i == 0 {
            false
        } else {
            proof {
                lemma_reaches(diff as int, need as int, i as int);
            }
            diff >= (need - 1) / i + 1
        };
        if reaches {
            break;
        }
        let delta = diff * i;
        added += delta;
        target = size;
        shards_used += 1;
    }
    if shards_used == 0 {
        proof {
            if n > 0 {
                lemma_cost_zero(s);
            }
        }
        return;  // no shards need updating
    }
    proof {
        lemma_first_unaffordable_skip(s, total as int, shards_used as int);
        lemma_first_unaffordable_props(s, total as int, shards_used as int);
        assert(shards_used == used_shard_count(s, total as int));
    }
    let deficit = total - added;
    proof {
        let k = shards_used as int;
        let d = deficit as int;
        assert(d == k * (d / k) + d % k && 0 <= d % k < k) by (nonlinear_arith)
            requires
                k > 0,
        ;
        assert(distributed(s, total as int)[0] <= usize::MAX);
        assert(distributed(s, total as int)[k - 1] <= usize::MAX);
    }
    target += deficit / shards_used;
    let remainder = deficit % shards_used;
    let split = shards_used - remainder;
    let mut j: usize = 0;
    while j < shards_used
        invariant
            s.len() == sizes@.len(),
            n == s.len(),
            0 <= j <= shards_used <= n,
            split == shards_used - remainder,
            remainder < shards_used,
            remainder > 0 ==> target + 1 <= usize::MAX,
            forall|t: int| 0 <= t < j ==> sizes@[t] == (if t < split { target as int } else { target + 1 }),
            forall|t: int| j <= t < n ==> sizes@[t] == s[t],
        decreases shards_used - j,
    {
        if j < split {
            sizes[j] = target;
        } else {
            sizes[j] = target + 1;
        }
        j += 1;
    }
    proof {
        lemma_distributed_laws(s, total as int);
        assert forall|i: int| 0 <= i < n implies sizes@[i] == #[trigger] distributed(
            s,
            total as int,
        )[i] by {}
        lemma_sum_matches(sizes@, distributed(s, total as int));
        assert forall|i: int, j: int| 0 <= i <= j < n implies sizes@[i] <= sizes@[j] by {
            assert(sizes@[i] == distributed(s, total as int)[i]);
            assert(sizes@[j] == distributed(s, total as int)[j]);
        }
    }
}

} // verus!
