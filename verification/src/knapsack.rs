//! 0/1 knapsack by dynamic programming over capacities.
//!
//! The result is pinned to the textbook recurrence `knap_spec`: the best
//! total value over subsets of the first `size` items whose total weight
//! stays within the capacity.

use vstd::prelude::*;

verus! {

/// Largest item value accepted; keeps every value sum within `usize` on
/// every machine.
pub const MAX_ITEM_VAL: usize = 0x7FFF;

/// Largest item count accepted, for the same reason.
pub const MAX_ITEM_COUNT: usize = 0x8000;

pub struct KanpsackItem {
    pub val: usize,
    pub weight: usize,
}

impl KanpsackItem {
    pub fn new(val: usize, weight: usize) -> (it: Self)
        ensures
            it.val == val,
            it.weight == weight,
    {
        Self { val, weight }
    }
}

pub open spec fn max_int(a: int, b: int) -> int {
    if a >= b {
        a
    } else {
        b
    }
}

/// Best total value over subsets of the first `n` items with weight at most
/// `cap`.
pub open spec fn knap_spec(items: Seq<KanpsackItem>, n: int, cap: int) -> int
    decreases n,
{
    if n <= 0 {
        0
    } else {
        let skip = knap_spec(items, n - 1, cap);
        if items[n - 1].weight <= cap {
            max_int(skip, knap_spec(items, n - 1, cap - items[n - 1].weight) + items[n - 1].val)
        } else {
            skip
        }
    }
}

/// Every subset value is non-negative and at most `n * MAX_ITEM_VAL`.
proof fn lemma_knap_spec_bounds(items: Seq<KanpsackItem>, n: int, cap: int)
    requires
        n <= items.len(),
        forall|k: int| 0 <= k < items.len() ==> (#[trigger] items[k]).val <= MAX_ITEM_VAL,
    ensures
        0 <= knap_spec(items, n, cap),
        knap_spec(items, n, cap) <= n * (MAX_ITEM_VAL as int) || n <= 0,
    decreases n,
{
    if n > 0 {
        lemma_knap_spec_bounds(items, n - 1, cap);
        lemma_knap_spec_bounds(items, n - 1, cap - items[n - 1].weight);
        assert((n - 1) * (MAX_ITEM_VAL as int) + MAX_ITEM_VAL as int == n * (
        MAX_ITEM_VAL as int)) by (nonlinear_arith);
        if n == 1 {
        } else {
            assert((n - 1) * (MAX_ITEM_VAL as int) >= 0) by (nonlinear_arith)
                requires
                    n >= 1,
            ;
        }
    }
}

/// A smaller capacity never helps.
proof fn lemma_knap_spec_mono(items: Seq<KanpsackItem>, n: int, cap1: int, cap2: int)
    requires
        cap1 <= cap2,
    ensures
        knap_spec(items, n, cap1) <= knap_spec(items, n, cap2),
    decreases n,
{
    if n > 0 {
        lemma_knap_spec_mono(items, n - 1, cap1, cap2);
        if items[n - 1].weight <= cap1 {
            lemma_knap_spec_mono(
                items,
                n - 1,
                cap1 - items[n - 1].weight,
                cap2 - items[n - 1].weight,
            );
        }
    }
}

/// Best achievable value over the first `size` items within `copasity`.
pub fn knapsack(items: &Vec<KanpsackItem>, copasity: usize, size: usize) -> (r: usize)
    requires
        size <= items@.len(),
        size <= MAX_ITEM_COUNT,
        copasity < usize::MAX,
        forall|k: int| 0 <= k < items@.len() ==> (#[trigger] items@[k]).val <= MAX_ITEM_VAL,
    ensures
        r as int == knap_spec(items@, size as int, copasity as int),
{
    let mut prev: Vec<usize> = Vec::with_capacity(copasity + 1);
    let mut c: usize = 0;
    while c < copasity + 1
        invariant
            c <= copasity + 1,
            copasity < usize::MAX,
            prev@.len() == c,
            forall|t: int| 0 <= t < c ==> #[trigger] prev@[t] == 0,
        decreases copasity + 1 - c,
    {
        prev.push(0);
        c = c + 1;
    }
    let mut i: usize = 0;
    while i < size
        invariant
            i <= size,
            size <= items@.len(),
            size <= MAX_ITEM_COUNT,
            copasity < usize::MAX,
            forall|k: int| 0 <= k < items@.len() ==> (#[trigger] items@[k]).val <= MAX_ITEM_VAL,
            prev@.len() == copasity + 1,
            forall|t: int|
                0 <= t <= copasity ==> (#[trigger] prev@[t]) as int == knap_spec(
                    items@,
                    i as int,
                    t,
                ),
        decreases size - i,
    {
        proof {
            lemma_knap_spec_bounds(items@, i as int, copasity as int);
            assert((i as int) * (MAX_ITEM_VAL as int) <= (MAX_ITEM_COUNT as int) * (
            MAX_ITEM_VAL as int)) by (nonlinear_arith)
                requires
                    0 <= i as int <= MAX_ITEM_COUNT as int,
                    MAX_ITEM_VAL as int > 0,
            ;
        }
        let mut cur: Vec<usize> = Vec::with_capacity(copasity + 1);
        let item_weight = items[i].weight;
        let item_val = items[i].val;
        let mut c2: usize = 0;
        while c2 < copasity + 1
            invariant
                c2 <= copasity + 1,
                i < size,
                size <= items@.len(),
                size <= MAX_ITEM_COUNT,
                copasity < usize::MAX,
                forall|k: int| 0 <= k < items@.len() ==> (#[trigger] items@[k]).val
                    <= MAX_ITEM_VAL,
                item_weight == items@[i as int].weight,
                item_val == items@[i as int].val,
                prev@.len() == copasity + 1,
                forall|t: int|
                    0 <= t <= copasity ==> (#[trigger] prev@[t]) as int == knap_spec(
                        items@,
                        i as int,
                        t,
                    ),
                cur@.len() == c2,
                forall|t: int|
                    0 <= t < c2 ==> (#[trigger] cur@[t]) as int == knap_spec(
                        items@,
                        i as int + 1,
                        t,
                    ),
            decreases copasity + 1 - c2,
        {
            proof {
                lemma_knap_spec_bounds(items@, i as int, c2 as int);
                if item_weight <= c2 {
                    lemma_knap_spec_bounds(items@, i as int, c2 - item_weight);
                }
                assert((i as int) * (MAX_ITEM_VAL as int) <= (MAX_ITEM_COUNT as int) * (
                MAX_ITEM_VAL as int)) by (nonlinear_arith)
                    requires
                        0 <= i as int <= MAX_ITEM_COUNT as int,
                        MAX_ITEM_VAL as int > 0,
                ;
            }
            let skip = prev[c2];
            let best = if item_weight <= c2 {
                let take = prev[c2 - item_weight] + item_val;
                if take >= skip {
                    take
                } else {
                    skip
                }
            } else {
                skip
            };
            cur.push(best);
            c2 = c2 + 1;
        }
        prev = cur;
        i = i + 1;
    }
    prev[copasity]
}

} // verus!
