//! Quickselect: the n-th smallest element without fully sorting.
//!
//! After the call the array is a permutation of the input partitioned around
//! position `n`: everything before it is no larger than the returned value,
//! everything after it no smaller — which pins the result as the n-th order
//! statistic.

use vstd::prelude::*;

use crate::quicksort::lemma_multiset_transfer;
use crate::quicksort::lemma_swap_subrange;

verus! {

/// The comparator decides strict `<` on the values it is handed.
pub open spec fn decides_lt<Lt: Fn(&usize, &usize) -> bool>(lt: Lt) -> bool {
    &&& forall|a: &usize, b: &usize| #[trigger] call_requires(lt, (a, b))
    &&& forall|a: &usize, b: &usize, r: bool| #[trigger] call_ensures(lt, (a, b), r) ==> (r <==> *a
        < *b)
}

fn swap_elems(v: &mut Vec<usize>, a: usize, b: usize)
    requires
        a < old(v)@.len(),
        b < old(v)@.len(),
    ensures
        final(v)@ == old(v)@.update(a as int, old(v)@[b as int]).update(
            b as int,
            old(v)@[a as int],
        ),
{
    let x = v[a];
    let y = v[b];
    v[a] = y;
    v[b] = x;
    proof {
        assert(v@ =~= old(v)@.update(a as int, old(v)@[b as int]).update(
            b as int,
            old(v)@[a as int],
        ));
    }
}

/// Moves every element of `[lo, hi)` smaller than the chosen pivot to the
/// front, places the pivot after them at slot `j - 1`, and returns `j`.
fn shafle_arr<Lt: Fn(&usize, &usize) -> bool>(
    arr: &mut Vec<usize>,
    lt: &Lt,
    pivot_idx: usize,
    lo: usize,
    hi: usize,
) -> (j: usize)
    requires
        lo <= pivot_idx < hi,
        hi <= old(arr)@.len(),
        decides_lt(*lt),
    ensures
        final(arr)@.len() == old(arr)@.len(),
        lo < j <= hi,
        final(arr)@.subrange(lo as int, hi as int).to_multiset() == old(arr)@.subrange(
            lo as int,
            hi as int,
        ).to_multiset(),
        final(arr)@.subrange(0, lo as int) == old(arr)@.subrange(0, lo as int),
        final(arr)@.subrange(hi as int, old(arr)@.len() as int) == old(arr)@.subrange(
            hi as int,
            old(arr)@.len() as int,
        ),
        forall|t: int| lo <= t < j - 1 ==> #[trigger] final(arr)@[t] < final(arr)@[j - 1],
        forall|t: int| j <= t < hi ==> #[trigger] final(arr)@[t] >= final(arr)@[j - 1],
{
    let ghost orig = arr@;
    swap_elems(arr, lo, pivot_idx);
    proof {
        lemma_swap_subrange(orig, arr@, lo as int, hi as int, lo as int, pivot_idx as int);
    }
    let pivot = arr[lo];
    let mut j: usize = lo + 1;
    let mut i: usize = lo + 1;
    while i < hi
        invariant
            lo + 1 <= j <= i <= hi,
            hi <= arr@.len(),
            arr@.len() == orig.len(),
            decides_lt(*lt),
            arr@[lo as int] == pivot,
            arr@.subrange(lo as int, hi as int).to_multiset() == orig.subrange(
                lo as int,
                hi as int,
            ).to_multiset(),
            arr@.subrange(0, lo as int) == orig.subrange(0, lo as int),
            arr@.subrange(hi as int, orig.len() as int) == orig.subrange(
                hi as int,
                orig.len() as int,
            ),
            forall|t: int| lo + 1 <= t < j ==> #[trigger] arr@[t] < pivot,
            forall|t: int| j <= t < i ==> #[trigger] arr@[t] >= pivot,
        decreases hi - i,
    {
        let is_less = lt(&arr[i], &pivot);
        if is_less {
            let ghost pre = arr@;
            swap_elems(arr, i, j);
            proof {
                lemma_swap_subrange(pre, arr@, lo as int, hi as int, i as int, j as int);
                assert(arr@.subrange(lo as int, hi as int).to_multiset() == orig.subrange(
                    lo as int,
                    hi as int,
                ).to_multiset());
            }
            j = j + 1;
        }
        i = i + 1;
    }
    let ghost pre = arr@;
    swap_elems(arr, lo, j - 1);
    proof {
        lemma_swap_subrange(pre, arr@, lo as int, hi as int, lo as int, j - 1 as int);
        assert(arr@[j - 1 as int] == pivot);
        assert forall|t: int| lo <= t < j - 1 implies #[trigger] arr@[t] < arr@[j - 1 as int] by {
            if t == lo {
                assert(arr@[t] == pre[j - 1 as int]);
            } else {
                assert(arr@[t] == pre[t]);
            }
        }
    }
    j
}

/// Partitions `[lo, hi)` until position `n` holds its final sorted value and
/// returns that value.
fn select_range<Lt: Fn(&usize, &usize) -> bool, F2: Fn(&Vec<usize>, usize, usize) -> usize>(
    arr: &mut Vec<usize>,
    lt: &Lt,
    choice_pivot: &F2,
    lo: usize,
    hi: usize,
    n: usize,
) -> (r: usize)
    requires
        lo <= n < hi <= old(arr)@.len(),
        decides_lt(*lt),
        forall|v: &Vec<usize>, a: usize, b: usize|
            a < b && b <= v@.len() ==> #[trigger] call_requires(*choice_pivot, (v, a, b)),
        forall|v: &Vec<usize>, a: usize, b: usize, rr: usize|
            #[trigger] call_ensures(*choice_pivot, (v, a, b), rr) ==> a <= rr < b,
    ensures
        final(arr)@.len() == old(arr)@.len(),
        final(arr)@.subrange(lo as int, hi as int).to_multiset() == old(arr)@.subrange(
            lo as int,
            hi as int,
        ).to_multiset(),
        final(arr)@.subrange(0, lo as int) == old(arr)@.subrange(0, lo as int),
        final(arr)@.subrange(hi as int, old(arr)@.len() as int) == old(arr)@.subrange(
            hi as int,
            old(arr)@.len() as int,
        ),
        r == final(arr)@[n as int],
        forall|t: int| lo <= t < n ==> #[trigger] final(arr)@[t] <= r,
        forall|t: int| n < t < hi ==> #[trigger] final(arr)@[t] >= r,
    decreases hi - lo,
{
    let ghost orig = arr@;
    if hi - lo == 1 {
        proof {
            assert(arr@.subrange(lo as int, hi as int).to_multiset() == orig.subrange(
                lo as int,
                hi as int,
            ).to_multiset());
        }
        return arr[lo];
    }
    let pidx = choice_pivot(arr, lo, hi);
    let j = shafle_arr(arr, lt, pidx, lo, hi);
    let ghost after_part = arr@;
    let ghost pv = arr@[j - 1 as int];

    if n == j - 1 {
        arr[j - 1]
    } else if n < j - 1 {
        let r = select_range(arr, lt, choice_pivot, lo, j - 1, n);
        proof {
            assert forall|t: int| j - 1 <= t < orig.len() implies #[trigger] arr@[t]
                == after_part[t] by {
                assert(arr@.subrange(j - 1 as int, orig.len() as int)[t - (j - 1)] == arr@[t]);
                assert(after_part.subrange(j - 1 as int, orig.len() as int)[t - (j - 1)]
                    == after_part[t]);
            }
            assert forall|t: int|
                0 <= t < after_part.subrange(lo as int, j - 1 as int).len() implies (
            #[trigger] after_part.subrange(lo as int, j - 1 as int)[t]) < pv by {
                assert(after_part.subrange(lo as int, j - 1 as int)[t] == after_part[lo + t]);
            }
            lemma_multiset_transfer(
                after_part.subrange(lo as int, j - 1 as int),
                arr@.subrange(lo as int, j - 1 as int),
                |x: usize| x < pv,
            );
            assert forall|t: int| n < t < hi implies #[trigger] arr@[t] >= r by {
                if t < j - 1 {
                    assert(arr@.subrange(lo as int, j - 1 as int)[t - lo] == arr@[t]);
                } else {
                    assert(r == arr@[n as int]);
                    assert(arr@.subrange(lo as int, j - 1 as int)[n - lo] == arr@[n as int]);
                    assert(r < pv);
                    assert(arr@[t] >= pv);
                }
            }
            assert(arr@.subrange(j - 1 as int, hi as int) =~= after_part.subrange(
                j - 1 as int,
                hi as int,
            ));
            assert(arr@.subrange(lo as int, hi as int) =~= arr@.subrange(lo as int, j - 1 as int)
                + arr@.subrange(j - 1 as int, hi as int));
            assert(after_part.subrange(lo as int, hi as int) =~= after_part.subrange(
                lo as int,
                j - 1 as int,
            ) + after_part.subrange(j - 1 as int, hi as int));
            vstd::seq_lib::lemma_multiset_commutative(
                arr@.subrange(lo as int, j - 1 as int),
                arr@.subrange(j - 1 as int, hi as int),
            );
            vstd::seq_lib::lemma_multiset_commutative(
                after_part.subrange(lo as int, j - 1 as int),
                after_part.subrange(j - 1 as int, hi as int),
            );
            assert(arr@.subrange(lo as int, hi as int).to_multiset() == orig.subrange(
                lo as int,
                hi as int,
            ).to_multiset());
        }
        r
    } else {
        let r = select_range(arr, lt, choice_pivot, j, hi, n);
        proof {
            assert forall|t: int| 0 <= t < j implies #[trigger] arr@[t] == after_part[t] by {
                assert(arr@.subrange(0, j as int)[t] == arr@[t]);
                assert(after_part.subrange(0, j as int)[t] == after_part[t]);
            }
            assert forall|t: int| hi <= t < orig.len() implies #[trigger] arr@[t]
                == after_part[t] by {
                assert(arr@.subrange(hi as int, orig.len() as int)[t - hi] == arr@[t]);
                assert(after_part.subrange(hi as int, orig.len() as int)[t - hi]
                    == after_part[t]);
            }
            assert forall|t: int|
                0 <= t < after_part.subrange(j as int, hi as int).len() implies (
            #[trigger] after_part.subrange(j as int, hi as int)[t]) >= pv by {
                assert(after_part.subrange(j as int, hi as int)[t] == after_part[j + t]);
            }
            lemma_multiset_transfer(
                after_part.subrange(j as int, hi as int),
                arr@.subrange(j as int, hi as int),
                |x: usize| x >= pv,
            );
            assert(r == arr@[n as int]);
            assert(r >= pv) by {
                assert(arr@.subrange(j as int, hi as int)[n - j] == arr@[n as int]);
            }
            assert forall|t: int| lo <= t < n implies #[trigger] arr@[t] <= r by {
                if t >= j {
                    assert(arr@.subrange(j as int, hi as int)[t - j] == arr@[t]);
                } else if t == j - 1 {
                    assert(arr@[t] == pv);
                } else {
                    assert(arr@[t] == after_part[t]);
                    assert(after_part[t] < pv);
                }
            }
            assert(arr@.subrange(lo as int, j as int) =~= after_part.subrange(
                lo as int,
                j as int,
            ));
            assert(arr@.subrange(lo as int, hi as int) =~= arr@.subrange(lo as int, j as int)
                + arr@.subrange(j as int, hi as int));
            assert(after_part.subrange(lo as int, hi as int) =~= after_part.subrange(
                lo as int,
                j as int,
            ) + after_part.subrange(j as int, hi as int));
            vstd::seq_lib::lemma_multiset_commutative(
                arr@.subrange(lo as int, j as int),
                arr@.subrange(j as int, hi as int),
            );
            vstd::seq_lib::lemma_multiset_commutative(
                after_part.subrange(lo as int, j as int),
                after_part.subrange(j as int, hi as int),
            );
            assert(arr@.subrange(lo as int, hi as int).to_multiset() == orig.subrange(
                lo as int,
                hi as int,
            ).to_multiset());
        }
        r
    }
}

/// Returns the `n`-th smallest element under `lt`, partitioning the array
/// around its final position in the process.
pub fn sort_n_by<Lt: Fn(&usize, &usize) -> bool, F2: Fn(&Vec<usize>, usize, usize) -> usize>(
    arr: &mut Vec<usize>,
    n: usize,
    lt: &Lt,
    choice_pivot: &F2,
) -> (r: usize)
    requires
        n < old(arr)@.len(),
        decides_lt(*lt),
        forall|v: &Vec<usize>, a: usize, b: usize|
            a < b && b <= v@.len() ==> #[trigger] call_requires(*choice_pivot, (v, a, b)),
        forall|v: &Vec<usize>, a: usize, b: usize, rr: usize|
            #[trigger] call_ensures(*choice_pivot, (v, a, b), rr) ==> a <= rr < b,
    ensures
        final(arr)@.len() == old(arr)@.len(),
        final(arr)@.to_multiset() == old(arr)@.to_multiset(),
        r == final(arr)@[n as int],
        forall|t: int| 0 <= t < n ==> #[trigger] final(arr)@[t] <= r,
        forall|t: int| n < t < final(arr)@.len() ==> #[trigger] final(arr)@[t] >= r,
{
    let len = arr.len();
    let r = select_range(arr, lt, choice_pivot, 0, len, n);
    proof {
        assert(arr@.subrange(0, len as int) =~= arr@);
        assert(old(arr)@.subrange(0, len as int) =~= old(arr)@);
    }
    r
}

/// Returns the `n`-th smallest element under the built-in `<`.
pub fn sort_n<F2: Fn(&Vec<usize>, usize, usize) -> usize>(
    arr: &mut Vec<usize>,
    n: usize,
    choice_pivot: &F2,
) -> (r: usize)
    requires
        n < old(arr)@.len(),
        forall|v: &Vec<usize>, a: usize, b: usize|
            a < b && b <= v@.len() ==> #[trigger] call_requires(*choice_pivot, (v, a, b)),
        forall|v: &Vec<usize>, a: usize, b: usize, rr: usize|
            #[trigger] call_ensures(*choice_pivot, (v, a, b), rr) ==> a <= rr < b,
    ensures
        final(arr)@.len() == old(arr)@.len(),
        final(arr)@.to_multiset() == old(arr)@.to_multiset(),
        r == final(arr)@[n as int],
        forall|t: int| 0 <= t < n ==> #[trigger] final(arr)@[t] <= r,
        forall|t: int| n < t < final(arr)@.len() ==> #[trigger] final(arr)@[t] >= r,
{
    let lt = |a: &usize, b: &usize| -> (res: bool)
        ensures
            res <==> *a < *b,
        { *a < *b };
    sort_n_by(arr, n, &lt, choice_pivot)
}

/// Always picks the first index of the range.
pub fn first(_v: &Vec<usize>, lo: usize, _hi: usize) -> (r: usize)
    requires
        lo < _hi,
    ensures
        r == lo,
{
    lo
}

} // verus!
