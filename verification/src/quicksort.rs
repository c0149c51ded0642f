//! Quicksort with a pluggable pivot choice, counting comparisons.
//!
//! Sorting is proved complete: the final array is an ascending permutation of
//! the input (same multiset of elements). The returned comparison count is
//! bounded by the square of the length.

use vstd::prelude::*;
use vstd::seq_lib::group_to_multiset_ensures;
use vstd::seq_lib::to_multiset_update;

verus! {

/// Largest array length `quicksort` accepts: the comparison count then fits
/// in `usize` on every machine.
pub const MAX_SORT_LEN: usize = 0x7FFF;

/// Transfers a pointwise property across a multiset-preserving permutation.
pub proof fn lemma_multiset_transfer<A>(s1: Seq<A>, s2: Seq<A>, pred: spec_fn(A) -> bool)
    requires
        s1.to_multiset() == s2.to_multiset(),
        forall|i: int| 0 <= i < s1.len() ==> pred(#[trigger] s1[i]),
    ensures
        forall|i: int| 0 <= i < s2.len() ==> pred(#[trigger] s2[i]),
{
    broadcast use group_to_multiset_ensures;

    assert forall|i: int| 0 <= i < s2.len() implies pred(#[trigger] s2[i]) by {
        assert(s2.contains(s2[i]));
        assert(s2.to_multiset().count(s2[i]) > 0);
        assert(s1.contains(s2[i]));
        let k = choose|k: int| 0 <= k < s1.len() && s1[k] == s2[i];
    }
}

/// Swapping two slots inside `[lo, hi)` permutes that range and touches
/// nothing outside it.
pub proof fn lemma_swap_subrange<A>(s1: Seq<A>, s2: Seq<A>, lo: int, hi: int, a: int, b: int)
    requires
        0 <= lo <= a < hi <= s1.len(),
        lo <= b < hi,
        s2 == s1.update(a, s1[b]).update(b, s1[a]),
    ensures
        s2.len() == s1.len(),
        s2.subrange(lo, hi).to_multiset() == s1.subrange(lo, hi).to_multiset(),
        s2.subrange(0, lo) == s1.subrange(0, lo),
        s2.subrange(hi, s1.len() as int) == s1.subrange(hi, s1.len() as int),
{
    broadcast use group_to_multiset_ensures;
    broadcast use to_multiset_update;

    assert(s2.subrange(0, lo) =~= s1.subrange(0, lo));
    assert(s2.subrange(hi, s1.len() as int) =~= s1.subrange(hi, s1.len() as int));
    if a == b {
        assert(s2.subrange(lo, hi) =~= s1.subrange(lo, hi));
    } else {
        let sub1 = s1.subrange(lo, hi);
        let mid = sub1.update(a - lo, sub1[b - lo]);
        let sub2 = mid.update(b - lo, sub1[a - lo]);
        assert(s2.subrange(lo, hi) =~= sub2);
        assert(mid[b - lo] == sub1[b - lo]);
        assert(sub2.to_multiset() =~= sub1.to_multiset());
    }
}

fn swap_elems(v: &mut Vec<i64>, a: usize, b: usize)
    requires
        a < old(v)@.len(),
        b < old(v)@.len(),
    ensures
        final(v)@ == old(v)@.update(a as int, old(v)@[b as int]).update(
            b as int,
            old(v)@[a as int],
        ),
{
    let x = v[a];
    let y = v[b];
    v[a] = y;
    v[b] = x;
    proof {
        assert(v@ =~= old(v)@.update(a as int, old(v)@[b as int]).update(
            b as int,
            old(v)@[a as int],
        ));
    }
}

/// The comparator decides strict `<` on the values it is handed.
pub open spec fn decides_lt<Lt: Fn(&i64, &i64) -> bool>(lt: Lt) -> bool {
    &&& forall|a: &i64, b: &i64| #[trigger] call_requires(lt, (a, b))
    &&& forall|a: &i64, b: &i64, r: bool| #[trigger] call_ensures(lt, (a, b), r) ==> (r <==> *a
        < *b)
}

/// Moves every element of `[lo, hi)` smaller than the chosen pivot to the
/// front, places the pivot after them at slot `j - 1`, and returns `j`.
fn shafle_arr<Lt: Fn(&i64, &i64) -> bool>(
    arr: &mut Vec<i64>,
    lt: &Lt,
    pivot_idx: usize,
    lo: usize,
    hi: usize,
) -> (j: usize)
    requires
        lo <= pivot_idx < hi,
        hi <= old(arr)@.len(),
        decides_lt(*lt),
    ensures
        final(arr)@.len() == old(arr)@.len(),
        lo < j <= hi,
        final(arr)@.subrange(lo as int, hi as int).to_multiset() == old(arr)@.subrange(
            lo as int,
            hi as int,
        ).to_multiset(),
        final(arr)@.subrange(0, lo as int) == old(arr)@.subrange(0, lo as int),
        final(arr)@.subrange(hi as int, old(arr)@.len() as int) == old(arr)@.subrange(
            hi as int,
            old(arr)@.len() as int,
        ),
        forall|t: int| lo <= t < j - 1 ==> #[trigger] final(arr)@[t] < final(arr)@[j - 1],
        forall|t: int| j <= t < hi ==> #[trigger] final(arr)@[t] >= final(arr)@[j - 1],
{
    let ghost orig = arr@;
    swap_elems(arr, lo, pivot_idx);
    proof {
        lemma_swap_subrange(orig, arr@, lo as int, hi as int, lo as int, pivot_idx as int);
    }
    let pivot = arr[lo];
    let mut j: usize = lo + 1;
    let mut i: usize = lo + 1;
    while i < hi
        invariant
            lo + 1 <= j <= i <= hi,
            hi <= arr@.len(),
            arr@.len() == orig.len(),
            decides_lt(*lt),
            arr@[lo as int] == pivot,
            arr@.subrange(lo as int, hi as int).to_multiset() == orig.subrange(
                lo as int,
                hi as int,
            ).to_multiset(),
            arr@.subrange(0, lo as int) == orig.subrange(0, lo as int),
            arr@.subrange(hi as int, orig.len() as int) == orig.subrange(
                hi as int,
                orig.len() as int,
            ),
            forall|t: int| lo + 1 <= t < j ==> #[trigger] arr@[t] < pivot,
            forall|t: int| j <= t < i ==> #[trigger] arr@[t] >= pivot,
        decreases hi - i,
    {
        let is_less = lt(&arr[i], &pivot);
        if is_less {
            let ghost pre = arr@;
            swap_elems(arr, i, j);
            proof {
                lemma_swap_subrange(pre, arr@, lo as int, hi as int, i as int, j as int);
                assert(arr@.subrange(lo as int, hi as int).to_multiset() == orig.subrange(
                    lo as int,
                    hi as int,
                ).to_multiset());
            }
            j = j + 1;
        }
        i = i + 1;
    }
    let ghost pre = arr@;
    swap_elems(arr, lo, j - 1);
    proof {
        lemma_swap_subrange(pre, arr@, lo as int, hi as int, lo as int, j - 1 as int);
        assert(arr@[j - 1 as int] == pivot);
        assert forall|t: int| lo <= t < j - 1 implies #[trigger] arr@[t] < arr@[j - 1 as int] by {
            if t == lo {
                assert(arr@[t] == pre[j - 1 as int]);
            } else {
                assert(arr@[t] == pre[t]);
            }
        }
    }
    j
}

/// Ascending order on a range.
pub open spec fn range_sorted(s: Seq<i64>, lo: int, hi: int) -> bool {
    forall|x: int, y: int| lo <= x < y < hi ==> #[trigger] s[x] <= #[trigger] s[y]
}

fn quicksort_range<Lt: Fn(&i64, &i64) -> bool, F2: Fn(&Vec<i64>, usize, usize) -> usize>(
    arr: &mut Vec<i64>,
    lt: &Lt,
    choice_pivot: &F2,
    lo: usize,
    hi: usize,
) -> (cnt: usize)
    requires
        lo <= hi <= old(arr)@.len(),
        old(arr)@.len() <= MAX_SORT_LEN,
        decides_lt(*lt),
        forall|v: &Vec<i64>, a: usize, b: usize|
            a < b && b <= v@.len() ==> #[trigger] call_requires(*choice_pivot, (v, a, b)),
        forall|v: &Vec<i64>, a: usize, b: usize, r: usize|
            #[trigger] call_ensures(*choice_pivot, (v, a, b), r) ==> a <= r < b,
    ensures
        final(arr)@.len() == old(arr)@.len(),
        final(arr)@.subrange(lo as int, hi as int).to_multiset() == old(arr)@.subrange(
            lo as int,
            hi as int,
        ).to_multiset(),
        final(arr)@.subrange(0, lo as int) == old(arr)@.subrange(0, lo as int),
        final(arr)@.subrange(hi as int, old(arr)@.len() as int) == old(arr)@.subrange(
            hi as int,
            old(arr)@.len() as int,
        ),
        range_sorted(final(arr)@, lo as int, hi as int),
        cnt <= (hi - lo) * (hi - lo),
    decreases hi - lo,
{
    let ghost orig = arr@;
    let len_r = hi - lo;
    if len_r <= 1 {
        proof {
            assert(arr@.subrange(lo as int, hi as int).to_multiset() == orig.subrange(
                lo as int,
                hi as int,
            ).to_multiset());
        }
        return 0;
    }
    let pidx = choice_pivot(arr, lo, hi);
    let j = shafle_arr(arr, lt, pidx, lo, hi);
    let ghost after_part = arr@;
    let ghost pv = arr@[j - 1 as int];

    let c1 = quicksort_range(arr, lt, choice_pivot, lo, j - 1);
    proof {
        assert forall|t: int| j - 1 <= t < orig.len() implies #[trigger] arr@[t]
            == after_part[t] by {
            assert(arr@.subrange(j - 1 as int, orig.len() as int)[t - (j - 1)] == arr@[t]);
            assert(after_part.subrange(j - 1 as int, orig.len() as int)[t - (j - 1)]
                == after_part[t]);
        }
        assert(arr@[j - 1 as int] == pv);
        assert forall|t: int|
            0 <= t < after_part.subrange(lo as int, j - 1 as int).len() implies (
        #[trigger] after_part.subrange(lo as int, j - 1 as int)[t]) < pv by {
            assert(after_part.subrange(lo as int, j - 1 as int)[t] == after_part[lo + t]);
        }
        lemma_multiset_transfer(
            after_part.subrange(lo as int, j - 1 as int),
            arr@.subrange(lo as int, j - 1 as int),
            |x: i64| x < pv,
        );
    }
    let ghost after_left = arr@;
    let c2 = quicksort_range(arr, lt, choice_pivot, j, hi);
    proof {
        assert forall|t: int| 0 <= t < j implies #[trigger] arr@[t] == after_left[t] by {
            assert(arr@.subrange(0, j as int)[t] == arr@[t]);
            assert(after_left.subrange(0, j as int)[t] == after_left[t]);
        }
        assert forall|t: int| hi <= t < orig.len() implies #[trigger] arr@[t]
            == after_left[t] by {
            assert(arr@.subrange(hi as int, orig.len() as int)[t - hi] == arr@[t]);
            assert(after_left.subrange(hi as int, orig.len() as int)[t - hi] == after_left[t]);
        }
        assert forall|t: int|
            0 <= t < after_left.subrange(j as int, hi as int).len() implies (
        #[trigger] after_left.subrange(j as int, hi as int)[t]) >= pv by {
            assert(after_left.subrange(j as int, hi as int)[t] == after_left[j + t]);
            assert(after_left[j + t] == after_part[j + t]);
        }
        lemma_multiset_transfer(
            after_left.subrange(j as int, hi as int),
            arr@.subrange(j as int, hi as int),
            |x: i64| x >= pv,
        );
        assert forall|t: int| lo <= t < j - 1 implies #[trigger] arr@[t] < pv by {
            assert(arr@.subrange(lo as int, j - 1 as int)[t - lo] == arr@[t]);
            assert(after_left.subrange(lo as int, j - 1 as int)[t - lo] == after_left[t]);
        }
        assert forall|t: int| j <= t < hi implies #[trigger] arr@[t] >= pv by {
            assert(arr@.subrange(j as int, hi as int)[t - j] == arr@[t]);
        }
        assert(arr@[j - 1 as int] == pv);
        assert(range_sorted(arr@, lo as int, hi as int)) by {
            assert forall|x: int, y: int| lo <= x < y < hi implies #[trigger] arr@[x] <= #[trigger] arr@[y] by {
                assert(range_sorted(after_left, lo as int, j - 1 as int));
                if x < j - 1 && y < j - 1 {
                    assert(arr@[x] == after_left[x] && arr@[y] == after_left[y]);
                } else if x < j - 1 && y == j - 1 {
                    assert(arr@[x] < pv && arr@[y] == pv);
                } else if x < j && y >= j {
                    assert(arr@[x] <= pv && arr@[y] >= pv);
                }
            }
        }
        // permutation of the whole range, stitched from the three pieces
        assert(arr@.subrange(lo as int, j - 1 as int) =~= after_left.subrange(
            lo as int,
            j - 1 as int,
        ));
        assert(after_left.subrange(j as int, hi as int) =~= after_part.subrange(
            j as int,
            hi as int,
        ));
        assert(arr@.subrange(lo as int, j - 1 as int).to_multiset() == after_part.subrange(
            lo as int,
            j - 1 as int,
        ).to_multiset());
        assert(arr@.subrange(j as int, hi as int).to_multiset() == after_part.subrange(
            j as int,
            hi as int,
        ).to_multiset());
        assert(arr@.subrange(j - 1 as int, j as int) =~= after_part.subrange(
            j - 1 as int,
            j as int,
        ));
        assert(arr@.subrange(lo as int, hi as int) =~= arr@.subrange(lo as int, j - 1 as int)
            + arr@.subrange(j - 1 as int, j as int) + arr@.subrange(j as int, hi as int));
        assert(after_part.subrange(lo as int, hi as int) =~= after_part.subrange(
            lo as int,
            j - 1 as int,
        ) + after_part.subrange(j - 1 as int, j as int) + after_part.subrange(
            j as int,
            hi as int,
        ));
        lemma_concat_multisets(
            arr@.subrange(lo as int, j - 1 as int),
            arr@.subrange(j - 1 as int, j as int),
            arr@.subrange(j as int, hi as int),
        );
        lemma_concat_multisets(
            after_part.subrange(lo as int, j - 1 as int),
            after_part.subrange(j - 1 as int, j as int),
            after_part.subrange(j as int, hi as int),
        );
        assert(arr@.subrange(lo as int, hi as int).to_multiset() == orig.subrange(
            lo as int,
            hi as int,
        ).to_multiset());
    }
    proof {
        let a = (j - 1 - lo) as int;
        let b = (hi - j) as int;
        assert(a * a + b * b <= (a + b) * (a + b)) by (nonlinear_arith)
            requires
                a >= 0 && b >= 0,
        ;
        assert((a + b) * (a + b) + (a + b) <= (a + b + 1) * (a + b + 1)) by (nonlinear_arith)
            requires
                a >= 0 && b >= 0,
        ;
        assert((len_r as int) * (len_r as int) <= (MAX_SORT_LEN as int) * (
        MAX_SORT_LEN as int)) by (nonlinear_arith)
            requires
                0 <= len_r as int <= MAX_SORT_LEN as int,
        ;
    }
    let cnt = len_r - 1 + c1 + c2;
    cnt
}

/// The multiset of a three-piece concatenation is the sum of the pieces'.
pub proof fn lemma_concat_multisets<A>(s1: Seq<A>, s2: Seq<A>, s3: Seq<A>)
    ensures
        (s1 + s2 + s3).to_multiset() == s1.to_multiset().add(s2.to_multiset()).add(
            s3.to_multiset(),
        ),
{
    s1.to_multiset_ensures();
    s2.to_multiset_ensures();
    s3.to_multiset_ensures();
    vstd::seq_lib::lemma_multiset_commutative(s1, s2);
    vstd::seq_lib::lemma_multiset_commutative(s1 + s2, s3);
}

/// Sorts the whole array ascending by `lt`, choosing pivots with
/// `choice_pivot`; returns the number of comparisons spent, at most the
/// square of the length.
pub fn quicksort_by<Lt: Fn(&i64, &i64) -> bool, F2: Fn(&Vec<i64>, usize, usize) -> usize>(
    arr: &mut Vec<i64>,
    lt: &Lt,
    choice_pivot: &F2,
) -> (cnt: usize)
    requires
        old(arr)@.len() <= MAX_SORT_LEN,
        decides_lt(*lt),
        forall|v: &Vec<i64>, a: usize, b: usize|
            a < b && b <= v@.len() ==> #[trigger] call_requires(*choice_pivot, (v, a, b)),
        forall|v: &Vec<i64>, a: usize, b: usize, r: usize|
            #[trigger] call_ensures(*choice_pivot, (v, a, b), r) ==> a <= r < b,
    ensures
        final(arr)@.len() == old(arr)@.len(),
        final(arr)@.to_multiset() == old(arr)@.to_multiset(),
        range_sorted(final(arr)@, 0, final(arr)@.len() as int),
        cnt <= old(arr)@.len() * old(arr)@.len(),
{
    let n = arr.len();
    let cnt = quicksort_range(arr, lt, choice_pivot, 0, n);
    proof {
        assert(arr@.subrange(0, n as int) =~= arr@);
        assert(old(arr)@.subrange(0, n as int) =~= old(arr)@);
    }
    cnt
}

/// Sorts ascending under the built-in `<`, counting comparisons.
pub fn quicksort<F2: Fn(&Vec<i64>, usize, usize) -> usize>(
    arr: &mut Vec<i64>,
    choice_pivot: &F2,
) -> (cnt: usize)
    requires
        old(arr)@.len() <= MAX_SORT_LEN,
        forall|v: &Vec<i64>, a: usize, b: usize|
            a < b && b <= v@.len() ==> #[trigger] call_requires(*choice_pivot, (v, a, b)),
        forall|v: &Vec<i64>, a: usize, b: usize, r: usize|
            #[trigger] call_ensures(*choice_pivot, (v, a, b), r) ==> a <= r < b,
    ensures
        final(arr)@.len() == old(arr)@.len(),
        final(arr)@.to_multiset() == old(arr)@.to_multiset(),
        range_sorted(final(arr)@, 0, final(arr)@.len() as int),
        cnt <= old(arr)@.len() * old(arr)@.len(),
{
    let lt = |a: &i64, b: &i64| -> (r: bool)
        ensures
            r <==> *a < *b,
        { *a < *b };
    quicksort_by(arr, &lt, choice_pivot)
}

/// `x` lies between the other two probed values.
pub open spec fn between(x: i64, y: i64, z: i64) -> bool {
    (y <= x && x <= z) || (z <= x && x <= y)
}

/// Index of the median of the first, middle and last values of `[lo, hi)`.
pub fn median(v: &Vec<i64>, lo: usize, hi: usize) -> (r: usize)
    requires
        lo < hi <= v@.len(),
    ensures
        lo <= r < hi,
        r == lo || r == hi - 1 || r == lo + (hi - 1 - lo) / 2,
        r == lo ==> between(v@[r as int], v@[lo + (hi - 1 - lo) / 2], v@[hi - 1]),
        r == hi - 1 ==> between(v@[r as int], v@[lo as int], v@[lo + (hi - 1 - lo) / 2]),
        r == lo + (hi - 1 - lo) / 2 && r != lo && r != hi - 1 ==> between(
            v@[r as int],
            v@[lo as int],
            v@[hi - 1],
        ),
{
    let l = v[hi - 1];
    let f = v[lo];
    let m = v[lo + (hi - 1 - lo) / 2];
    match (l > f, l < m, f > m) {
        (true, true, _) => hi - 1,
        (false, false, _) => hi - 1,
        (true, false, true) => lo,
        (false, true, false) => lo,
        _ => lo + (hi - 1 - lo) / 2,
    }
}

/// Always picks the first index of the range.
pub fn first(_v: &Vec<i64>, lo: usize, _hi: usize) -> (r: usize)
    requires
        lo < _hi,
    ensures
        r == lo,
{
    lo
}

/// Always picks the last index of the range.
pub fn last(_v: &Vec<i64>, _lo: usize, hi: usize) -> (r: usize)
    requires
        _lo < hi,
    ensures
        r == hi - 1,
{
    hi - 1
}

} // verus!
