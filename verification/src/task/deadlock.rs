//! The resource-safety model behind deadlock detection: what it means for a
//! state of available resources, allocations and outstanding needs to be safe.
use vstd::prelude::*;
use vstd::set_lib::*;

verus! {

/// Sum of column `j` over the rows `i < k` that `mask` selects.
pub open spec fn masked_sum(alloc: Seq<Seq<isize>>, mask: Seq<bool>, j: int, k: int) -> int
    decreases k,
{
    if k <= 0 {
        0
    } else {
        masked_sum(alloc, mask, j, k - 1) + if mask[k - 1] {
            alloc[k - 1][j] as int
        } else {
            0
        }
    }
}

/// Sum of column `j` over the first `k` threads of `order`.
pub open spec fn order_sum(alloc: Seq<Seq<isize>>, order: Seq<int>, j: int, k: int) -> int
    decreases k,
{
    if k <= 0 {
        0
    } else {
        order_sum(alloc, order, j, k - 1) + alloc[order[k - 1]][j] as int
    }
}

/// The three inputs of the safety check have matching shapes: one allocation
/// row and one need row per thread, each as long as the available vector,
/// and at least one resource kind.
pub open spec fn matrices_wf(
    available: Seq<isize>,
    allocation: Seq<Seq<isize>>,
    need: Seq<Seq<isize>>,
) -> bool {
    &&& need.len() == allocation.len()
    &&& available.len() > 0
    &&& forall|i: int| 0 <= i < allocation.len() ==> #[trigger] allocation[i].len() == available.len()
    &&& forall|i: int| 0 <= i < need.len() ==> #[trigger] need[i].len() == available.len()
}

/// Every allocation entry is non-negative.
pub open spec fn allocation_nonneg(allocation: Seq<Seq<isize>>) -> bool {
    forall|i: int, j: int|
        0 <= i < allocation.len() && 0 <= j < allocation[i].len() ==> #[trigger] allocation[i][j] >= 0
}

/// `order` runs every thread exactly once, and each thread's need fits in
/// what is available once the threads before it have finished and given
/// back their allocations.
pub open spec fn is_safe_order(
    available: Seq<isize>,
    allocation: Seq<Seq<isize>>,
    need: Seq<Seq<isize>>,
    order: Seq<int>,
) -> bool {
    &&& order.no_duplicates()
    &&& forall|t: int| 0 <= t < order.len() ==> 0 <= #[trigger] order[t] < need.len()
    &&& forall|i: int| 0 <= i < need.len() ==> #[trigger] order.contains(i)
    &&& forall|t: int, j: int|
        0 <= t < order.len() && 0 <= j < available.len() ==> #[trigger] need[order[t]][j]
            <= available[j] + order_sum(allocation, order, j, t)
}

/// The state is safe: some order lets every thread run to completion.
pub open spec fn has_safe_order(
    available: Seq<isize>,
    allocation: Seq<Seq<isize>>,
    need: Seq<Seq<isize>>,
) -> bool {
    exists|order: Seq<int>| is_safe_order(available, allocation, need, order)
}

/// The set of threads among the first `k` entries of `order`, as a mask of length `n`.
pub open spec fn prefix_mask(order: Seq<int>, k: int, n: int) -> Seq<bool> {
    Seq::new(n as nat, |i: int| order.subrange(0, k).contains(i))
}

/// Selecting one more row adds that row's entry to the masked sum.
pub proof fn lemma_masked_sum_set(alloc: Seq<Seq<isize>>, mask: Seq<bool>, i: int, j: int, k: int)
    requires
        0 <= i < mask.len(),
        !mask[i],
        k <= mask.len(),
    ensures
        masked_sum(alloc, mask.update(i, true), j, k) == masked_sum(alloc, mask, j, k) + if i < k {
            alloc[i][j] as int
        } else {
            0
        },
    decreases k,
{
    if k > 0 {
        lemma_masked_sum_set(alloc, mask, i, j, k - 1);
    }
}

/// With non-negative entries, selecting more rows never lowers the masked sum.
pub proof fn lemma_masked_sum_mono(alloc: Seq<Seq<isize>>, m1: Seq<bool>, m2: Seq<bool>, j: int, k: int)
    requires
        allocation_nonneg(alloc),
        k <= alloc.len(),
        k <= m1.len(),
        k <= m2.len(),
        forall|i: int| 0 <= i < k && #[trigger] m1[i] ==> m2[i],
        0 <= j,
        forall|i: int| 0 <= i < k ==> j < #[trigger] alloc[i].len(),
    ensures
        masked_sum(alloc, m1, j, k) <= masked_sum(alloc, m2, j, k),
    decreases k,
{
    if k > 0 {
        lemma_masked_sum_mono(alloc, m1, m2, j, k - 1);
        assert(j < alloc[k - 1].len());
        assert(alloc[k - 1][j] >= 0);
    }
}

/// Appending to an order leaves the sums over its existing prefixes alone.
pub proof fn lemma_order_sum_push(alloc: Seq<Seq<isize>>, order: Seq<int>, x: int, j: int, k: int)
    requires
        0 <= k <= order.len(),
    ensures
        order_sum(alloc, order.push(x), j, k) == order_sum(alloc, order, j, k),
    decreases k,
{
    if k > 0 {
        lemma_order_sum_push(alloc, order, x, j, k - 1);
    }
}

/// The sum over a prefix of a duplicate-free order equals the masked sum over
/// the threads that prefix holds.
pub proof fn lemma_order_sum_as_mask(alloc: Seq<Seq<isize>>, order: Seq<int>, j: int, k: int, n: int)
    requires
        order.no_duplicates(),
        0 <= k <= order.len(),
        forall|t: int| 0 <= t < order.len() ==> 0 <= #[trigger] order[t] < n,
    ensures
        order_sum(alloc, order, j, k) == masked_sum(alloc, prefix_mask(order, k, n), j, n),
    decreases k,
{
    if k == 0 {
        lemma_masked_sum_zero(alloc, prefix_mask(order, 0, n), j, n);
    } else {
        lemma_order_sum_as_mask(alloc, order, j, k - 1, n);
        let x = order[k - 1];
        let before = prefix_mask(order, k - 1, n);
        assert(!before[x]) by {
            if order.subrange(0, k - 1).contains(x) {
                let t = choose|t: int| 0 <= t < k - 1 && #[trigger] order.subrange(0, k - 1)[t] == x;
                assert(order[t] == order[k - 1]);
            }
        }
        assert(prefix_mask(order, k, n) =~= before.update(x, true)) by {
            assert forall|i: int| 0 <= i < n implies prefix_mask(order, k, n)[i] == before.update(x, true)[i] by {
                if i == x {
                    assert(order.subrange(0, k)[k - 1] == x);
                } else {
                    if order.subrange(0, k).contains(i) {
                        let t = choose|t: int| 0 <= t < k && #[trigger] order.subrange(0, k)[t] == i;
                        assert(order.subrange(0, k - 1)[t] == i);
                    }
                    if order.subrange(0, k - 1).contains(i) {
                        let t = choose|t: int| 0 <= t < k - 1 && #[trigger] order.subrange(0, k - 1)[t] == i;
                        assert(order.subrange(0, k)[t] == i);
                    }
                }
            }
        }
        lemma_masked_sum_set(alloc, before, x, j, n);
    }
}

/// A mask that selects nothing sums to zero.
pub proof fn lemma_masked_sum_zero(alloc: Seq<Seq<isize>>, mask: Seq<bool>, j: int, k: int)
    requires
        k <= mask.len(),
        forall|i: int| 0 <= i < k ==> !#[trigger] mask[i],
    ensures
        masked_sum(alloc, mask, j, k) == 0,
    decreases k,
{
    if k > 0 {
        lemma_masked_sum_zero(alloc, mask, j, k - 1);
    }
}

/// A duplicate-free sequence of integers in `[0, n)` is at most `n` long.
pub proof fn lemma_distinct_in_range_len(order: Seq<int>, n: int)
    requires
        0 <= n,
        order.no_duplicates(),
        forall|t: int| 0 <= t < order.len() ==> 0 <= #[trigger] order[t] < n,
    ensures
        order.len() <= n,
{
    order.unique_seq_to_set();
    lemma_int_range(0, n);
    assert(order.to_set().subset_of(set_int_range(0, n)));
    lemma_len_subset(order.to_set(), set_int_range(0, n));
}

/// Under the hypotheses of `lemma_stuck_with_safe_order`, the first `k`
/// threads of the safe order have all finished.
proof fn lemma_safe_prefix_finished(
    available: Seq<isize>,
    allocation: Seq<Seq<isize>>,
    need: Seq<Seq<isize>>,
    finish: Seq<bool>,
    order: Seq<int>,
    k: int,
)
    requires
        matrices_wf(available, allocation, need),
        allocation_nonneg(allocation),
        is_safe_order(available, allocation, need, order),
        finish.len() == need.len(),
        0 <= k <= order.len(),
        forall|i: int|
            0 <= i < need.len() && !#[trigger] finish[i] ==> exists|j: int|
                0 <= j < available.len() && need[i][j] > available[j] + masked_sum(
                    allocation,
                    finish,
                    j,
                    need.len() as int,
                ),
    ensures
        forall|t: int| 0 <= t < k ==> #[trigger] finish[order[t]],
    decreases k,
{
    let n = need.len() as int;
    if k > 0 {
        lemma_safe_prefix_finished(available, allocation, need, finish, order, k - 1);
        let x = order[k - 1];
        if !finish[x] {
            let j = choose|j: int|
                0 <= j < available.len() && need[x][j] > available[j] + masked_sum(
                    allocation,
                    finish,
                    j,
                    n,
                );
            lemma_order_sum_as_mask(allocation, order, j, k - 1, n);
            assert forall|i: int| 0 <= i < n && #[trigger] prefix_mask(order, k - 1, n)[i] implies finish[i] by {
                let t = choose|t: int| 0 <= t < k - 1 && #[trigger] order.subrange(0, k - 1)[t] == i;
                assert(order[t] == i);
            }
            lemma_masked_sum_mono(allocation, prefix_mask(order, k - 1, n), finish, j, n);
            assert(need[order[k - 1]][j] <= available[j] + order_sum(allocation, order, j, k - 1));
            assert(false);
        }
    }
}

/// If every thread that has not finished has a need exceeding the work
/// vector, and allocations are non-negative, then a safe order forces every
/// thread to have finished.
pub proof fn lemma_stuck_with_safe_order(
    available: Seq<isize>,
    allocation: Seq<Seq<isize>>,
    need: Seq<Seq<isize>>,
    finish: Seq<bool>,
    order: Seq<int>,
)
    requires
        matrices_wf(available, allocation, need),
        allocation_nonneg(allocation),
        is_safe_order(available, allocation, need, order),
        finish.len() == need.len(),
        forall|i: int|
            0 <= i < need.len() && !#[trigger] finish[i] ==> exists|j: int|
                0 <= j < available.len() && need[i][j] > available[j] + masked_sum(
                    allocation,
                    finish,
                    j,
                    need.len() as int,
                ),
    ensures
        forall|i: int| 0 <= i < need.len() ==> #[trigger] finish[i],
{
    let n = need.len() as int;
    lemma_safe_prefix_finished(available, allocation, need, finish, order, order.len() as int);
    assert forall|i: int| 0 <= i < n implies #[trigger] finish[i] by {
        assert(order.contains(i));
        let t = choose|t: int| 0 <= t < order.len() && order[t] == i;
        assert(finish[order[t]]);
    }
}

/// Thread `i` has not finished and its need fits under the work vector:
/// the available vector plus what the finished threads gave back.
pub open spec fn can_finish(
    available: Seq<isize>,
    allocation: Seq<Seq<isize>>,
    need: Seq<Seq<isize>>,
    finish: Seq<bool>,
    i: int,
) -> bool {
    &&& 0 <= i < need.len()
    &&& !finish[i]
    &&& forall|j: int|
        0 <= j < available.len() ==> #[trigger] need[i][j] <= available[j] + masked_sum(
            allocation,
            finish,
            j,
            need.len() as int,
        )
}

/// The first thread that can finish, if there is one.
pub open spec fn first_runnable(
    available: Seq<isize>,
    allocation: Seq<Seq<isize>>,
    need: Seq<Seq<isize>>,
    finish: Seq<bool>,
) -> Option<int> {
    if exists|i: int| #[trigger] can_finish(available, allocation, need, finish, i) {
        Some(
            choose|i: int|
                #[trigger] can_finish(available, allocation, need, finish, i) && forall|k: int|
                    0 <= k < i ==> !#[trigger] can_finish(available, allocation, need, finish, k),
        )
    } else {
        None
    }
}

/// The finished threads after up to `fuel` rounds, each of which finishes
/// the first thread that can finish, starting from `finish`.
pub open spec fn greedy_finish(
    available: Seq<isize>,
    allocation: Seq<Seq<isize>>,
    need: Seq<Seq<isize>>,
    finish: Seq<bool>,
    fuel: nat,
) -> Seq<bool>
    decreases fuel,
{
    if fuel == 0 {
        finish
    } else {
        match first_runnable(available, allocation, need, finish) {
            Some(i) => greedy_finish(available, allocation, need, finish.update(i, true), (fuel - 1) as nat),
            None => finish,
        }
    }
}

/// `n` threads, none of them finished.
pub open spec fn no_finished(n: nat) -> Seq<bool> {
    Seq::new(n, |i: int| false)
}

/// Finishing, round by round, the first thread that can finish, starting
/// with no thread finished, finishes every thread.
pub open spec fn greedy_finishes_all(
    available: Seq<isize>,
    allocation: Seq<Seq<isize>>,
    need: Seq<Seq<isize>>,
) -> bool {
    let n = need.len();
    let r = greedy_finish(available, allocation, need, no_finished(n), n);
    forall|i: int| 0 <= i < n ==> #[trigger] r[i]
}

/// The first thread that can finish is the one with no thread before it
/// that can finish.
pub proof fn lemma_first_runnable(
    available: Seq<isize>,
    allocation: Seq<Seq<isize>>,
    need: Seq<Seq<isize>>,
    finish: Seq<bool>,
    i: int,
)
    requires
        can_finish(available, allocation, need, finish, i),
        forall|k: int| 0 <= k < i ==> !#[trigger] can_finish(available, allocation, need, finish, k),
    ensures
        first_runnable(available, allocation, need, finish) == Some(i),
{
    let j = choose|j: int|
        #[trigger] can_finish(available, allocation, need, finish, j) && forall|k: int|
            0 <= k < j ==> !#[trigger] can_finish(available, allocation, need, finish, k);
    if j < i {
        assert(!can_finish(available, allocation, need, finish, j));
    }
    if i < j {
        assert(!can_finish(available, allocation, need, finish, i));
    }
}

/// A duplicate-free sequence of integers in `[0, n)` that misses `x` is
/// shorter than `n`.
pub proof fn lemma_distinct_in_range_missing_len(order: Seq<int>, n: int, x: int)
    requires
        0 <= x < n,
        order.no_duplicates(),
        forall|t: int| 0 <= t < order.len() ==> 0 <= #[trigger] order[t] < n,
        !order.contains(x),
    ensures
        order.len() < n,
{
    order.unique_seq_to_set();
    lemma_int_range(0, n);
    let r = set_int_range(0, n).remove(x);
    assert(order.to_set().subset_of(r));
    lemma_len_subset(order.to_set(), r);
}

/// Every entry of the work vector that `finish` gives lies inside `isize`.
pub open spec fn work_fits(available: Seq<isize>, allocation: Seq<Seq<isize>>, finish: Seq<bool>) -> bool {
    forall|j: int|
        0 <= j < available.len() ==> isize::MIN <= available[j] + #[trigger] masked_sum(
            allocation,
            finish,
            j,
            allocation.len() as int,
        ) <= isize::MAX
}

/// The work vector stays inside `isize` in every round of the greedy run.
pub open spec fn greedy_work_fits(
    available: Seq<isize>,
    allocation: Seq<Seq<isize>>,
    need: Seq<Seq<isize>>,
) -> bool {
    let n = need.len();
    forall|k: int|
        0 <= k <= n ==> #[trigger] work_fits(
            available,
            allocation,
            greedy_finish(available, allocation, need, no_finished(n), k as nat),
        )
}

/// One more round of the greedy run finishes the first thread that can
/// finish after the rounds before it, if there is one.
pub proof fn lemma_greedy_finish_step(
    available: Seq<isize>,
    allocation: Seq<Seq<isize>>,
    need: Seq<Seq<isize>>,
    finish: Seq<bool>,
    k: nat,
)
    ensures
        greedy_finish(available, allocation, need, finish, k + 1) == match first_runnable(
            available,
            allocation,
            need,
            greedy_finish(available, allocation, need, finish, k),
        ) {
            Some(i) => greedy_finish(available, allocation, need, finish, k).update(i, true),
            None => greedy_finish(available, allocation, need, finish, k),
        },
    decreases k,
{
    match first_runnable(available, allocation, need, finish) {
        Some(i) => {
            let f2 = finish.update(i, true);
            assert(greedy_finish(available, allocation, need, finish, k + 1) == greedy_finish(available, allocation, need, f2, k));
            if k > 0 {
                lemma_greedy_finish_step(available, allocation, need, f2, (k - 1) as nat);
                assert(greedy_finish(available, allocation, need, finish, k) == greedy_finish(available, allocation, need, f2, (k - 1) as nat));
                assert((k - 1) as nat + 1 == k);
            }
        },
        None => {
            assert(greedy_finish(available, allocation, need, finish, k + 1) == finish);
            assert(greedy_finish(available, allocation, need, finish, k) == finish);
        },
    }
}

/// `p` lists each of the threads `0..n` exactly once.
pub open spec fn is_permutation(p: Seq<int>, n: int) -> bool {
    &&& p.len() == n
    &&& p.no_duplicates()
    &&& forall|k: int| 0 <= k < p.len() ==> 0 <= #[trigger] p[k] < n
}

/// The rows of `m` listed in the order `p`: row `k` is row `p[k]` of `m`.
pub open spec fn permuted(m: Seq<Seq<isize>>, p: Seq<int>) -> Seq<Seq<isize>> {
    Seq::new(p.len(), |k: int| m[p[k]])
}

/// The position at which `p` lists thread `x`.
pub open spec fn position_of(p: Seq<int>, x: int) -> int {
    choose|k: int| 0 <= k < p.len() && p[k] == x
}

/// A permutation lists every thread: `position_of` finds it.
proof fn lemma_position_of(p: Seq<int>, n: int, x: int)
    requires
        is_permutation(p, n),
        0 <= x < n,
    ensures
        0 <= position_of(p, x) < n,
        p[position_of(p, x)] == x,
{
    if !p.contains(x) {
        lemma_distinct_in_range_missing_len(p, n, x);
    }
}

/// The thread at position `k` of a permutation is found at position `k`.
proof fn lemma_position_of_entry(p: Seq<int>, n: int, k: int)
    requires
        is_permutation(p, n),
        0 <= k < n,
    ensures
        position_of(p, p[k]) == k,
{
    lemma_position_of(p, n, p[k]);
}

/// Relabelling the threads of an order leaves its prefix sums alone.
proof fn lemma_order_sum_relabelled(
    alloc: Seq<Seq<isize>>,
    p: Seq<int>,
    order: Seq<int>,
    order2: Seq<int>,
    j: int,
    t: int,
)
    requires
        order2.len() == order.len(),
        0 <= t <= order.len(),
        forall|s: int| 0 <= s < order.len() ==> 0 <= #[trigger] order2[s] < p.len() && p[order2[s]] == order[s],
    ensures
        order_sum(permuted(alloc, p), order2, j, t) == order_sum(alloc, order, j, t),
    decreases t,
{
    if t > 0 {
        lemma_order_sum_relabelled(alloc, p, order, order2, j, t - 1);
        assert(0 <= order2[t - 1] < p.len());
    }
}

/// A safe order of the threads, relabelled by where `p` lists each of
/// them, is a safe order of the threads listed in the order `p`.
proof fn lemma_safe_order_relabelled(
    available: Seq<isize>,
    allocation: Seq<Seq<isize>>,
    need: Seq<Seq<isize>>,
    p: Seq<int>,
    order: Seq<int>,
)
    requires
        matrices_wf(available, allocation, need),
        is_permutation(p, need.len() as int),
        is_safe_order(available, allocation, need, order),
    ensures
        is_safe_order(
            available,
            permuted(allocation, p),
            permuted(need, p),
            Seq::new(order.len(), |t: int| position_of(p, order[t])),
        ),
{
    let n = need.len() as int;
    let order2 = Seq::new(order.len(), |t: int| position_of(p, order[t]));
    let a2 = permuted(allocation, p);
    let n2 = permuted(need, p);
    assert forall|t: int| 0 <= t < order.len() implies 0 <= #[trigger] order2[t] < p.len() && p[order2[t]] == order[t] by {
        lemma_position_of(p, n, order[t]);
    }
    assert forall|s: int, t: int| 0 <= s < order2.len() && 0 <= t < order2.len() && s != t implies order2[s] != order2[t] by {
        assert(p[order2[s]] == order[s]);
        assert(p[order2[t]] == order[t]);
    }
    assert forall|i: int| 0 <= i < n2.len() implies #[trigger] order2.contains(i) by {
        let x = p[i];
        assert(order.contains(x));
        let t = choose|t: int| 0 <= t < order.len() && order[t] == x;
        lemma_position_of_entry(p, n, i);
        assert(order2[t] == i);
    }
    assert forall|t: int, j: int| 0 <= t < order2.len() && 0 <= j < available.len() implies #[trigger] n2[order2[t]][j]
        <= available[j] + order_sum(a2, order2, j, t) by {
        lemma_order_sum_relabelled(allocation, p, order, order2, j, t);
        assert(n2[order2[t]] == need[order[t]]);
        assert(need[order[t]][j] <= available[j] + order_sum(allocation, order, j, t));
    }
}

/// The safety verdict does not depend on the order in which the threads
/// are listed: listing the rows of the allocation and need matrices in the
/// order of a permutation `p` keeps the tables well-formed and keeps a safe
/// order existing exactly when one existed. With `is_safe`'s contract, the
/// check answers the same for both listings whenever the allocations are
/// non-negative.
pub proof fn lemma_safety_ignores_thread_order(
    available: Seq<isize>,
    allocation: Seq<Seq<isize>>,
    need: Seq<Seq<isize>>,
    p: Seq<int>,
)
    requires
        matrices_wf(available, allocation, need),
        is_permutation(p, need.len() as int),
    ensures
        matrices_wf(available, permuted(allocation, p), permuted(need, p)),
        allocation_nonneg(allocation) ==> allocation_nonneg(permuted(allocation, p)),
        has_safe_order(available, allocation, need) <==> has_safe_order(
            available,
            permuted(allocation, p),
            permuted(need, p),
        ),
{
    let n = need.len() as int;
    let a2 = permuted(allocation, p);
    let n2 = permuted(need, p);
    assert forall|k: int| 0 <= k < a2.len() implies #[trigger] a2[k].len() == available.len() by {
        assert(0 <= p[k] < n);
    }
    assert forall|k: int| 0 <= k < n2.len() implies #[trigger] n2[k].len() == available.len() by {
        assert(0 <= p[k] < n);
    }
    if allocation_nonneg(allocation) {
        assert forall|i: int, j: int| 0 <= i < a2.len() && 0 <= j < a2[i].len() implies #[trigger] a2[i][j] >= 0 by {
            assert(0 <= p[i] < n);
            assert(allocation[p[i]][j] >= 0);
        }
    }
    // the inverse permutation lists, at position `x`, where `p` lists thread `x`
    let q = Seq::new(n as nat, |x: int| position_of(p, x));
    assert forall|k: int| 0 <= k < q.len() implies 0 <= #[trigger] q[k] < n && p[q[k]] == k by {
        lemma_position_of(p, n, k);
    }
    assert forall|s: int, t: int| 0 <= s < q.len() && 0 <= t < q.len() && s != t implies q[s] != q[t] by {
        assert(p[q[s]] == s);
        assert(p[q[t]] == t);
    }
    assert(is_permutation(q, n));
    assert(permuted(a2, q) =~= allocation);
    assert(permuted(n2, q) =~= need);
    if has_safe_order(available, allocation, need) {
        let order = choose|order: Seq<int>| is_safe_order(available, allocation, need, order);
        lemma_safe_order_relabelled(available, allocation, need, p, order);
    }
    if has_safe_order(available, a2, n2) {
        let order = choose|order: Seq<int>| is_safe_order(available, a2, n2, order);
        lemma_safe_order_relabelled(available, a2, n2, q, order);
    }
}

} // verus!
