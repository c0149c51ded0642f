//! Counting out-of-order pairs by merge sort.
//!
//! The count is pinned to `inv_count`: the number of index pairs `i < j`
//! with `v[i] >= v[j]`. On sequences of distinct values this is exactly the
//! classical inversion count; a tied pair counts as out of order, matching
//! how the merge step treats equal elements.

use vstd::prelude::*;
use vstd::seq_lib::group_to_multiset_ensures;

verus! {

/// Largest array length accepted: the pair count then fits in `usize` on
/// every machine.
pub const MAX_COUNT_LEN: usize = 0x7FFF;

/// How many elements of `s` are at least `x`.
pub open spec fn count_ge(s: Seq<usize>, x: usize) -> int
    decreases s.len(),
{
    if s.len() == 0 {
        0
    } else {
        count_ge(s.drop_last(), x) + if s.last() >= x {
            1int
        } else {
            0int
        }
    }
}

/// The number of pairs `i < j` with `s[i] >= s[j]`.
pub open spec fn inv_count(s: Seq<usize>) -> int
    decreases s.len(),
{
    if s.len() == 0 {
        0
    } else {
        inv_count(s.drop_last()) + count_ge(s.drop_last(), s.last())
    }
}

/// The number of pairs drawn across two sequences with `f[i] >= s[j]`.
pub open spec fn cross_ge(f: Seq<usize>, s: Seq<usize>) -> int
    decreases s.len(),
{
    if s.len() == 0 {
        0
    } else {
        cross_ge(f, s.drop_last()) + count_ge(f, s.last())
    }
}

proof fn lemma_count_ge_bounds(s: Seq<usize>, x: usize)
    ensures
        0 <= count_ge(s, x) <= s.len(),
    decreases s.len(),
{
    if s.len() > 0 {
        lemma_count_ge_bounds(s.drop_last(), x);
    }
}

proof fn lemma_cross_ge_bounds(f: Seq<usize>, s: Seq<usize>)
    ensures
        0 <= cross_ge(f, s) <= f.len() * s.len(),
    decreases s.len(),
{
    if s.len() == 0 {
        assert(f.len() * 0 == 0) by (nonlinear_arith);
    } else {
        lemma_cross_ge_bounds(f, s.drop_last());
        lemma_count_ge_bounds(f, s.last());
        assert(f.len() * (s.len() - 1) + f.len() == f.len() * s.len()) by (nonlinear_arith);
    }
}

proof fn lemma_inv_count_bounds(s: Seq<usize>)
    ensures
        0 <= inv_count(s) <= s.len() * s.len(),
    decreases s.len(),
{
    if s.len() > 0 {
        lemma_inv_count_bounds(s.drop_last());
        lemma_count_ge_bounds(s.drop_last(), s.last());
        assert((s.len() - 1) * (s.len() - 1) + (s.len() - 1) + 1 <= s.len() * s.len())
            by (nonlinear_arith)
            requires
                s.len() >= 1,
        ;
    }
}

proof fn lemma_count_ge_concat(a: Seq<usize>, b: Seq<usize>, x: usize)
    ensures
        count_ge(a + b, x) == count_ge(a, x) + count_ge(b, x),
    decreases b.len(),
{
    if b.len() == 0 {
        assert(a + b =~= a);
    } else {
        lemma_count_ge_concat(a, b.drop_last(), x);
        assert((a + b).drop_last() =~= a + b.drop_last());
        assert((a + b).last() == b.last());
    }
}

/// Out-of-order pairs of a concatenation: pairs inside each part plus the
/// crossing pairs.
proof fn lemma_inv_count_concat(a: Seq<usize>, b: Seq<usize>)
    ensures
        inv_count(a + b) == inv_count(a) + inv_count(b) + cross_ge(a, b),
    decreases b.len(),
{
    if b.len() == 0 {
        assert(a + b =~= a);
    } else {
        lemma_inv_count_concat(a, b.drop_last());
        assert((a + b).drop_last() =~= a + b.drop_last());
        assert((a + b).last() == b.last());
        lemma_count_ge_concat(a, b.drop_last(), b.last());
    }
}

proof fn lemma_count_ge_remove(s: Seq<usize>, k: int, x: usize)
    requires
        0 <= k < s.len(),
    ensures
        count_ge(s.remove(k), x) == count_ge(s, x) - if s[k] >= x {
            1int
        } else {
            0int
        },
    decreases s.len(),
{
    if k == s.len() - 1 {
        assert(s.remove(k) =~= s.drop_last());
    } else {
        lemma_count_ge_remove(s.drop_last(), k, x);
        assert(s.remove(k).drop_last() =~= s.drop_last().remove(k));
        assert(s.remove(k).last() == s.last());
    }
}

/// `count_ge` depends only on the multiset of elements.
proof fn lemma_count_ge_permutation(s1: Seq<usize>, s2: Seq<usize>, x: usize)
    requires
        s1.to_multiset() == s2.to_multiset(),
    ensures
        count_ge(s1, x) == count_ge(s2, x),
    decreases s1.len(),
{
    broadcast use group_to_multiset_ensures;

    if s1.len() == 0 {
        assert(s2.to_multiset().len() == 0);
        assert(s2.len() == 0);
    } else {
        let e = s1.last();
        assert(s1.contains(e));
        assert(s2.to_multiset().count(e) > 0);
        assert(s2.contains(e));
        let k = choose|k: int| 0 <= k < s2.len() && s2[k] == e;
        assert(s1.drop_last() =~= s1.remove(s1.len() - 1));
        assert(s1.remove(s1.len() - 1).to_multiset() =~= s1.to_multiset().remove(e));
        assert(s2.remove(k).to_multiset() =~= s2.to_multiset().remove(e));
        lemma_count_ge_permutation(s1.drop_last(), s2.remove(k), x);
        lemma_count_ge_remove(s2, k, x);
    }
}

/// `cross_ge` depends only on the multisets of both sides.
proof fn lemma_cross_ge_permutation(f1: Seq<usize>, f2: Seq<usize>, s1: Seq<usize>, s2: Seq<usize>)
    requires
        f1.to_multiset() == f2.to_multiset(),
        s1.to_multiset() == s2.to_multiset(),
    ensures
        cross_ge(f1, s1) == cross_ge(f2, s2),
    decreases s1.len(),
{
    broadcast use group_to_multiset_ensures;

    if s1.len() == 0 {
        assert(s2.to_multiset().len() == 0);
        assert(s2.len() == 0);
    } else {
        let e = s1.last();
        assert(s1.contains(e));
        assert(s2.to_multiset().count(e) > 0);
        assert(s2.contains(e));
        let k = choose|k: int| 0 <= k < s2.len() && s2[k] == e;
        assert(s1.drop_last() =~= s1.remove(s1.len() - 1));
        assert(s1.remove(s1.len() - 1).to_multiset() =~= s1.to_multiset().remove(e));
        assert(s2.remove(k).to_multiset() =~= s2.to_multiset().remove(e));
        lemma_cross_ge_permutation(f1, f2, s1.drop_last(), s2.remove(k));
        lemma_cross_remove(f2, s2, k);
        lemma_count_ge_permutation(f1, f2, e);
    }
}

proof fn lemma_cross_remove(f: Seq<usize>, s: Seq<usize>, k: int)
    requires
        0 <= k < s.len(),
    ensures
        cross_ge(f, s.remove(k)) == cross_ge(f, s) - count_ge(f, s[k]),
    decreases s.len(),
{
    if k == s.len() - 1 {
        assert(s.remove(k) =~= s.drop_last());
    } else {
        lemma_cross_remove(f, s.drop_last(), k);
        assert(s.remove(k).drop_last() =~= s.drop_last().remove(k));
        assert(s.remove(k).last() == s.last());
    }
}

/// A sorted run split at `i` into a strictly-smaller prefix and an
/// at-least-`x` suffix holds exactly `len - i` elements at least `x`.
proof fn lemma_count_ge_split(f: Seq<usize>, x: usize, i: int)
    requires
        0 <= i <= f.len(),
        forall|k: int| 0 <= k < i ==> #[trigger] f[k] < x,
        forall|k: int| i <= k < f.len() ==> #[trigger] f[k] >= x,
    ensures
        count_ge(f, x) == f.len() - i,
    decreases f.len(),
{
    if f.len() > 0 {
        if i == f.len() {
            lemma_count_ge_split(f.drop_last(), x, i - 1);
        } else {
            lemma_count_ge_split(f.drop_last(), x, i);
        }
    }
}

/// Pushing onto the left part of a concatenation inserts into its multiset.
proof fn lemma_concat_push_left(f0: Seq<usize>, x: usize, s0: Seq<usize>)
    ensures
        (f0.push(x) + s0).to_multiset() == (f0 + s0).to_multiset().insert(x),
{
    broadcast use group_to_multiset_ensures;

    vstd::seq_lib::lemma_multiset_commutative(f0.push(x), s0);
    vstd::seq_lib::lemma_multiset_commutative(f0, s0);
    assert((f0.push(x) + s0).to_multiset() =~= (f0 + s0).to_multiset().insert(x));
}

pub open spec fn sorted(s: Seq<usize>) -> bool {
    forall|x: int, y: int| 0 <= x < y < s.len() ==> #[trigger] s[x] <= #[trigger] s[y]
}

fn copy_range(v: &Vec<usize>, lo: usize, hi: usize) -> (r: Vec<usize>)
    requires
        lo <= hi <= v@.len(),
    ensures
        r@ == v@.subrange(lo as int, hi as int),
{
    let mut r: Vec<usize> = Vec::with_capacity(hi - lo);
    let mut k = lo;
    while k < hi
        invariant
            lo <= k <= hi <= v@.len(),
            r@.len() == k - lo,
            forall|t: int| 0 <= t < r@.len() ==> #[trigger] r@[t] == v@[lo + t],
        decreases hi - k,
    {
        r.push(v[k]);
        k = k + 1;
    }
    proof {
        assert(r@ =~= v@.subrange(lo as int, hi as int));
    }
    r
}

/// Merges two sorted runs, counting for every element of `s` the elements of
/// `f` that are at least as large.
fn merge(f: Vec<usize>, s: Vec<usize>) -> (r: (Vec<usize>, usize))
    requires
        sorted(f@),
        sorted(s@),
        f@.len() + s@.len() <= MAX_COUNT_LEN,
    ensures
        sorted(r.0@),
        r.0@.to_multiset() == (f@ + s@).to_multiset(),
        r.1 as int == cross_ge(f@, s@),
{
    broadcast use group_to_multiset_ensures;

    let f_l = f.len();
    let s_l = s.len();
    let mut i: usize = 0;
    let mut j: usize = 0;
    let mut counter: usize = 0;
    let mut sorted_arr: Vec<usize> = Vec::with_capacity(f_l + s_l);

    proof {
        lemma_cross_ge_bounds(f@, s@);
        assert((f_l as int) * (s_l as int) <= (MAX_COUNT_LEN as int) * (
        MAX_COUNT_LEN as int)) by (nonlinear_arith)
            requires
                0 <= f_l as int,
                0 <= s_l as int,
                f_l as int + s_l as int <= MAX_COUNT_LEN as int,
        ;
    }

    while f_l > i && s_l > j
        invariant
            i <= f_l == f@.len(),
            j <= s_l == s@.len(),
            f@.len() + s@.len() <= MAX_COUNT_LEN,
            sorted(f@),
            sorted(s@),
            sorted(sorted_arr@),
            sorted_arr@.len() == i + j,
            sorted_arr@.to_multiset() == (f@.subrange(0, i as int) + s@.subrange(
                0,
                j as int,
            )).to_multiset(),
            forall|t: int, k: int|
                0 <= t < sorted_arr@.len() && i <= k < f@.len() ==> #[trigger] sorted_arr@[t]
                    <= #[trigger] f@[k],
            forall|t: int, k: int|
                0 <= t < sorted_arr@.len() && j <= k < s@.len() ==> #[trigger] sorted_arr@[t]
                    <= #[trigger] s@[k],
            forall|k: int| 0 <= k < i && j < s@.len() ==> #[trigger] f@[k] < s@[j as int],
            counter as int == cross_ge(f@, s@.subrange(0, j as int)),
            counter <= MAX_COUNT_LEN * MAX_COUNT_LEN,
        decreases f_l + s_l - i - j,
    {
        let ghost pre = sorted_arr@;
        if f[i] < s[j] {
            sorted_arr.push(f[i]);
            proof {
                broadcast use group_to_multiset_ensures;

                assert(f@.subrange(0, i + 1 as int) =~= f@.subrange(0, i as int).push(
                    f@[i as int],
                ));
                lemma_concat_push_left(
                    f@.subrange(0, i as int),
                    f@[i as int],
                    s@.subrange(0, j as int),
                );
                assert(sorted_arr@.to_multiset() == (f@.subrange(0, i + 1 as int) + s@.subrange(
                    0,
                    j as int,
                )).to_multiset());
                assert forall|k: int| 0 <= k < i + 1 && j < s@.len() implies #[trigger] f@[k]
                    < s@[j as int] by {}
            }
            i = i + 1;
        } else {
            sorted_arr.push(s[j]);
            proof {
                broadcast use group_to_multiset_ensures;

                assert(s@.subrange(0, j + 1 as int) =~= s@.subrange(0, j as int).push(
                    s@[j as int],
                ));
                assert((f@.subrange(0, i as int) + s@.subrange(0, j + 1 as int)) =~= (f@.subrange(
                    0,
                    i as int,
                ) + s@.subrange(0, j as int)).push(s@[j as int]));
                assert(sorted_arr@.to_multiset() == (f@.subrange(0, i as int) + s@.subrange(
                    0,
                    j + 1 as int,
                )).to_multiset());
                assert forall|k: int| i <= k < f@.len() implies #[trigger] f@[k] >= s@[j as int] by {
                    assert(f@[i as int] <= f@[k] || k == i);
                }
                lemma_count_ge_split(f@, s@[j as int], i as int);
                assert(s@.subrange(0, j + 1 as int).drop_last() =~= s@.subrange(0, j as int));
                assert(cross_ge(f@, s@.subrange(0, j + 1 as int)) == cross_ge(
                    f@,
                    s@.subrange(0, j as int),
                ) + count_ge(f@, s@[j as int]));
                lemma_cross_ge_bounds(f@, s@.subrange(0, j + 1 as int));
                assert((f@.len() as int) * ((j + 1) as int) <= (MAX_COUNT_LEN as int) * (
                MAX_COUNT_LEN as int)) by (nonlinear_arith)
                    requires
                        0 <= f@.len() as int <= MAX_COUNT_LEN as int,
                        0 <= (j + 1) as int <= MAX_COUNT_LEN as int,
                ;
            }
            counter = counter + (f_l - i);
            j = j + 1;
        }
    }

    while i < f_l
        invariant
            i <= f_l == f@.len(),
            j <= s_l == s@.len(),
            j == s_l || i == f_l,
            f@.len() + s@.len() <= MAX_COUNT_LEN,
            sorted(f@),
            sorted(s@),
            sorted(sorted_arr@),
            sorted_arr@.len() == i + j,
            sorted_arr@.to_multiset() == (f@.subrange(0, i as int) + s@.subrange(
                0,
                j as int,
            )).to_multiset(),
            forall|t: int, k: int|
                0 <= t < sorted_arr@.len() && i <= k < f@.len() ==> #[trigger] sorted_arr@[t]
                    <= #[trigger] f@[k],
            forall|t: int, k: int|
                0 <= t < sorted_arr@.len() && j <= k < s@.len() ==> #[trigger] sorted_arr@[t]
                    <= #[trigger] s@[k],
            forall|k: int| 0 <= k < i && j < s@.len() ==> #[trigger] f@[k] < s@[j as int],
            counter as int == cross_ge(f@, s@.subrange(0, j as int)),
        decreases f_l - i,
    {
        sorted_arr.push(f[i]);
        proof {
            broadcast use group_to_multiset_ensures;

            assert(f@.subrange(0, i + 1 as int) =~= f@.subrange(0, i as int).push(f@[i as int]));
            lemma_concat_push_left(
                f@.subrange(0, i as int),
                f@[i as int],
                s@.subrange(0, j as int),
            );
        }
        i = i + 1;
    }

    while j < s_l
        invariant
            i == f_l == f@.len(),
            j <= s_l == s@.len(),
            f@.len() + s@.len() <= MAX_COUNT_LEN,
            sorted(s@),
            sorted(sorted_arr@),
            sorted_arr@.len() == i + j,
            sorted_arr@.to_multiset() == (f@.subrange(0, i as int) + s@.subrange(
                0,
                j as int,
            )).to_multiset(),
            forall|t: int, k: int|
                0 <= t < sorted_arr@.len() && j <= k < s@.len() ==> #[trigger] sorted_arr@[t]
                    <= #[trigger] s@[k],
            forall|k: int| 0 <= k < i && j < s@.len() ==> #[trigger] f@[k] < s@[j as int],
            counter as int == cross_ge(f@, s@.subrange(0, j as int)),
        decreases s_l - j,
    {
        sorted_arr.push(s[j]);
        proof {
            broadcast use group_to_multiset_ensures;

            assert(s@.subrange(0, j + 1 as int) =~= s@.subrange(0, j as int).push(s@[j as int]));
            assert((f@.subrange(0, i as int) + s@.subrange(0, j + 1 as int)) =~= (f@.subrange(
                0,
                i as int,
            ) + s@.subrange(0, j as int)).push(s@[j as int]));
            assert(s@.subrange(0, j + 1 as int).drop_last() =~= s@.subrange(0, j as int));
            lemma_count_ge_split(f@, s@[j as int], i as int);
        }
        counter = counter + (f_l - i);
        j = j + 1;
    }
    proof {
        assert(f@.subrange(0, f@.len() as int) =~= f@);
        assert(s@.subrange(0, s@.len() as int) =~= s@);
    }
    (sorted_arr, counter)
}

/// Sorts a copy of the array while counting its out-of-order pairs.
fn inversions_count_and_sort(n: &Vec<usize>) -> (r: (Vec<usize>, usize))
    requires
        1 <= n@.len() <= MAX_COUNT_LEN,
    ensures
        sorted(r.0@),
        r.0@.to_multiset() == n@.to_multiset(),
        r.1 as int == inv_count(n@),
    decreases n@.len(),
{
    broadcast use group_to_multiset_ensures;

    let l = n.len();
    if l == 1 {
        let whole = copy_range(n, 0, 1);
        proof {
            assert(whole@ =~= n@);
            assert(inv_count(n@) == 0) by {
                assert(n@.drop_last().len() == 0);
                assert(inv_count(n@.drop_last()) == 0);
                assert(count_ge(n@.drop_last(), n@.last()) == 0);
            }
        }
        return (whole, 0);
    }
    let h = l / 2;

    let f = copy_range(n, h, l);
    let s = copy_range(n, 0, h);

    let (max_arr, r_count) = inversions_count_and_sort(&f);
    let (min_arr, l_count) = inversions_count_and_sort(&s);
    proof {
        lemma_inv_count_bounds(f@);
        lemma_inv_count_bounds(s@);
        lemma_cross_ge_bounds(s@, f@);
        assert((s@.len() as int) * (f@.len() as int) + (s@.len() as int) * (s@.len() as int) + (
        f@.len() as int) * (f@.len() as int) <= (n@.len() as int) * (
        n@.len() as int)) by (nonlinear_arith)
            requires
                s@.len() as int + f@.len() as int == n@.len() as int,
                0 <= s@.len() as int,
                0 <= f@.len() as int,
        ;
        assert((n@.len() as int) * (n@.len() as int) <= (MAX_COUNT_LEN as int) * (
        MAX_COUNT_LEN as int)) by (nonlinear_arith)
            requires
                0 <= n@.len() as int <= MAX_COUNT_LEN as int,
        ;
    }
    proof {
        assert(min_arr@.to_multiset().len() == min_arr@.len());
        assert(s@.to_multiset().len() == s@.len());
        assert(max_arr@.to_multiset().len() == max_arr@.len());
        assert(f@.to_multiset().len() == f@.len());
    }
    let (new_arr, m_count) = merge(min_arr, max_arr);
    proof {
        lemma_cross_ge_permutation(min_arr@, s@, max_arr@, f@);
        lemma_inv_count_concat(s@, f@);
        assert(s@ + f@ =~= n@);
        assert((min_arr@ + max_arr@).to_multiset() == n@.to_multiset()) by {
            vstd::seq_lib::lemma_multiset_commutative(min_arr@, max_arr@);
            vstd::seq_lib::lemma_multiset_commutative(s@, f@);
        }
    }
    (new_arr, m_count + l_count + r_count)
}

/// The number of pairs `i < j` with `n[i] >= n[j]`; on distinct elements,
/// the classical inversion count.
pub fn inversions_count(n: &Vec<usize>) -> (r: usize)
    requires
        n@.len() <= MAX_COUNT_LEN,
    ensures
        r as int == inv_count(n@),
{
    if n.len() == 0 {
        return 0;
    }
    let (_, count) = inversions_count_and_sort(n);
    count
}

} // verus!
