//! Maximum of a unimodal sequence by halving the search range.
//!
//! A unimodal sequence rises strictly to a single peak and then falls
//! strictly. Comparing the two middle elements tells which half holds the
//! peak, so the maximum is found in logarithmically many probes.

use vstd::prelude::*;

verus! {

/// `p` is the peak of `s[lo..hi]`: strictly rising up to `p`, strictly
/// falling from `p` on.
pub open spec fn peak_at(s: Seq<i64>, lo: int, hi: int, p: int) -> bool {
    &&& lo <= p < hi
    &&& forall|i: int, j: int| lo <= i < j <= p ==> #[trigger] s[i] < #[trigger] s[j]
    &&& forall|i: int, j: int| p <= i < j < hi ==> #[trigger] s[i] > #[trigger] s[j]
}

/// The whole sequence rises strictly to one peak and then falls strictly.
pub open spec fn is_unimodal(s: Seq<i64>) -> bool {
    exists|p: int| peak_at(s, 0, s.len() as int, p)
}

/// The maximum of a unimodal sequence.
pub fn unimodal_max(n: &Vec<i64>) -> (r: i64)
    requires
        n@.len() >= 1,
        is_unimodal(n@),
    ensures
        exists|i: int| 0 <= i < n@.len() && n@[i] == r,
        forall|i: int| 0 <= i < n@.len() ==> #[trigger] n@[i] <= r,
{
    proof {
        let p = choose|p: int| peak_at(n@, 0, n@.len() as int, p);
    }
    let r = search_peak(n, 0, n.len());
    proof {
        assert forall|i: int| 0 <= i < n@.len() implies #[trigger] n@[i] <= r by {}
    }
    r
}

/// Maximum of `n[lo..hi]`, given that the range holds a peak.
fn search_peak(n: &Vec<i64>, lo: usize, hi: usize) -> (r: i64)
    requires
        lo < hi <= n@.len(),
        exists|p: int| peak_at(n@, lo as int, hi as int, p),
    ensures
        exists|i: int| lo <= i < hi && n@[i] == r,
        forall|i: int| lo <= i < hi ==> #[trigger] n@[i] <= r,
    decreases hi - lo,
{
    let l = hi - lo;
    if l == 1 {
        return n[lo];
    }
    if l == 2 {
        let a = n[lo];
        let b = n[lo + 1];
        return if a >= b {
            a
        } else {
            b
        };
    }
    let ghost pk = choose|p: int| peak_at(n@, lo as int, hi as int, p);
    let h = lo + l / 2;
    assert(lo < h - 1 || lo == h - 1);
    assert(lo <= h - 1 && h < hi);
    if n[h - 1] < n[h] {
        proof {
            assert(pk >= h) by {
                if pk <= h - 1 {
                    assert(n@[h - 1 as int] > n@[h as int]);
                }
            }
            assert(peak_at(n@, h as int, hi as int, pk));
        }
        let r = search_peak(n, h, hi);
        proof {
            assert forall|i: int| lo <= i < hi implies #[trigger] n@[i] <= r by {
                if i < h {
                    assert(n@[i] < n@[pk]) by {
                        if i < pk {
                        }
                    }
                    assert(n@[pk] <= r);
                }
            }
        }
        r
    } else {
        proof {
            assert(n@[h - 1 as int] != n@[h as int]) by {
                if pk <= h - 1 {
                    assert(n@[h - 1 as int] > n@[h as int]);
                } else {
                    assert(n@[h - 1 as int] < n@[h as int]);
                }
            }
            assert(pk <= h - 1) by {
                if pk >= h {
                    assert(n@[h - 1 as int] < n@[h as int]);
                }
            }
            assert(peak_at(n@, lo as int, h as int, pk));
        }
        let r = search_peak(n, lo, h);
        proof {
            assert forall|i: int| lo <= i < hi implies #[trigger] n@[i] <= r by {
                if i >= h {
                    assert(n@[pk] > n@[i]);
                    assert(n@[pk] <= r);
                }
            }
        }
        r
    }
}

} // verus!
