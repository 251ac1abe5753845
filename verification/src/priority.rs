//! Integer totals: the priority that decides which pixels are simulated,
//! and the total of a reaction's ratios.
use vstd::prelude::*;
use crate::grid::{SIZE, trunc_div};

verus! {

/// The sum of `s`.
pub open spec fn sum_of(s: Seq<i32>) -> int
    decreases s.len(),
{
    if s.len() == 0 {
        0
    } else {
        sum_of(s.drop_last()) + s.last()
    }
}

/// Adding up `s` from the front never leaves the range of `i32`.
pub open spec fn prefix_sums_fit(s: Seq<i32>) -> bool {
    forall|k: int| 0 <= k <= s.len() ==> i32::MIN <= #[trigger] sum_of(s.take(k)) <= i32::MAX
}

/// The sum of `values`, added from the front.
fn sum_i32(values: &[i32]) -> (total: i32)
    requires
        prefix_sums_fit(values@),
    ensures
        total == sum_of(values@),
{
    let mut total: i32 = 0;
    let n = values.len();
    for i in 0..n
        invariant
            n == values@.len(),
            prefix_sums_fit(values@),
            total == sum_of(values@.take(i as int)),
    {
        proof {
            assert(values@.take(i + 1).drop_last() =~= values@.take(i as int));
            assert(i32::MIN <= sum_of(values@.take(i + 1)) <= i32::MAX);
        }
        total = total + values[i];
    }
    proof {
        assert(values@.take(n as int) =~= values@);
    }
    total
}

/// The priority a pixel needs to be simulated under full prioritising:
/// the total priority of the screen divided by its number of pixels,
/// rounded toward zero.
pub open spec fn threshold_of(priorities: Seq<i32>) -> int {
    trunc_div(sum_of(priorities), SIZE as int)
}

/// The priority a pixel needs to be simulated under full prioritising.
pub fn priority_threshold(priorities: &[i32]) -> (t: i32)
    requires
        prefix_sums_fit(priorities@),
    ensures
        t == threshold_of(priorities@),
{
    let total = sum_i32(priorities);
    total / 15i32
}

/// Full prioritising: a pixel is simulated exactly when its priority is at
/// least the threshold.
pub fn prioritize_full(priorities: &[i32]) -> (simulate: Vec<bool>)
    requires
        prefix_sums_fit(priorities@),
    ensures
        simulate@.len() == priorities@.len(),
        forall|i: int| 0 <= i < priorities@.len() ==> #[trigger] simulate@[i] == (priorities@[i] >= threshold_of(priorities@)),
{
    let threshold = priority_threshold(priorities);
    let mut simulate: Vec<bool> = Vec::new();
    let n = priorities.len();
    for i in 0..n
        invariant
            n == priorities@.len(),
            threshold == threshold_of(priorities@),
            simulate@.len() == i,
            forall|j: int| 0 <= j < i ==> #[trigger] simulate@[j] == (priorities@[j] >= threshold),
    {
        simulate.push(priorities[i] >= threshold);
    }
    simulate
}

/// Random prioritising: every pixel with a positive priority is switched
/// on; the others keep their setting.
pub fn prioritize_random(priorities: &[i32], simulate: &mut Vec<bool>)
    requires
        old(simulate)@.len() == priorities@.len(),
    ensures
        final(simulate)@.len() == priorities@.len(),
        forall|i: int| 0 <= i < priorities@.len() ==> #[trigger] final(simulate)@[i] == (priorities@[i] > 0 || old(simulate)@[i]),
{
    let n = priorities.len();
    for i in 0..n
        invariant
            n == priorities@.len(),
            simulate@.len() == n,
            forall|j: int| 0 <= j < i ==> #[trigger] simulate@[j] == (priorities@[j] > 0 || old(simulate)@[j]),
            forall|j: int| i <= j < n ==> #[trigger] simulate@[j] == old(simulate)@[j],
    {
        if priorities[i] > 0 {
            simulate.set(i, true);
        }
    }
}

/// The total of a reaction's ratio numbers.
pub fn ratio_total(ratio_nums: &[i32]) -> (total: i32)
    requires
        prefix_sums_fit(ratio_nums@),
    ensures
        total == sum_of(ratio_nums@),
{
    sum_i32(ratio_nums)
}

proof fn lemma_sum_bounded(s: Seq<i32>, top: int)
    requires
        forall|i: int| 0 <= i < s.len() ==> #[trigger] s[i] <= top,
    ensures
        sum_of(s) <= s.len() * top,
    decreases s.len(),
{
    if s.len() > 0 {
        lemma_sum_bounded(s.drop_last(), top);
        assert(s.len() * top == (s.len() - 1) * top + top) by (nonlinear_arith);
    }
}

/// On a full screen, full prioritising always simulates the pixel with the
/// highest priority. (On fewer pixels it may not: a single pixel of
/// priority -15 gives the threshold -1.)
pub proof fn lemma_full_prioritizing_keeps_highest(priorities: Seq<i32>, m: int)
    requires
        priorities.len() == SIZE,
        0 <= m < priorities.len(),
        forall|i: int| 0 <= i < priorities.len() ==> #[trigger] priorities[i] <= priorities[m],
    ensures
        priorities[m] >= threshold_of(priorities),
{
    let top = priorities[m] as int;
    lemma_sum_bounded(priorities, top);
    let total = sum_of(priorities);
    assert(total <= 15 * top);
    if total >= 0 {
        assert(total / 15 <= top) by (nonlinear_arith)
            requires
                0 <= total <= 15 * top,
        ;
    } else {
        assert(-((-total) / 15) <= top) by (nonlinear_arith)
            requires
                total < 0,
                total <= 15 * top,
        ;
    }
}

} // verus!
