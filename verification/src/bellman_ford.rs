//! Single-source shortest paths tolerant of negative edge lengths.
//!
//! The algorithm runs up to `size` rounds of the Bellman relaxation operator
//! over the incoming adjacency projection, ping-ponging two distance arrays
//! selected by round parity. It returns the first fixed point reached, or
//! `None` when no round up to `size` stabilises — the signal that a negative
//! cycle is reachable from the source.
//!
//! The contract pins the result exactly: the returned vector equals the
//! iterate at the first stable round of the mathematical recurrence
//! `bf_steps`, and `None` is returned exactly when no such round exists.

use vstd::prelude::*;

use crate::graph_representations::adj_bounded;
use crate::graph_representations::adj_wf;
use crate::graph_representations::AdjacencyListEdge;
use crate::graph_representations::AdjacencyListGraphIncome;
use crate::graph_representations::MAX_EDGE_LEN;
use crate::graph_representations::MAX_GRAPH_SIZE;
use crate::paths::closed_under_arcs;
use crate::paths::incoming_arcs;
use crate::paths::lemma_path_extend;
use crate::paths::lemma_reaches_self;
use crate::paths::min_int;
use crate::paths::reaches_with_cost;
use crate::paths::sat_add;
use crate::paths::shortest_from;
use crate::paths::to_dists;
use crate::paths::unreachable_dist;
use crate::updatable_heap::BIGGEST_NUMBER;

verus! {

/// Minimum of `prev[u] + w` over the first `n` incoming edges of one vertex,
/// treating an unreachable `prev[u]` as absorbing.
pub open spec fn relax_candidates(prev: Seq<int>, row: Seq<AdjacencyListEdge>, n: int) -> int
    decreases n,
{
    if n <= 0 {
        unreachable_dist()
    } else {
        min_int(
            relax_candidates(prev, row, n - 1),
            sat_add(prev[row[n - 1].from_or_to as int], row[n - 1].length as int),
        )
    }
}

/// One full relaxation round: each vertex keeps its previous distance unless
/// some incoming edge improves it.
pub open spec fn bf_round(view: Seq<Seq<AdjacencyListEdge>>, prev: Seq<int>) -> Seq<int> {
    Seq::new(
        prev.len(),
        |s: int| min_int(prev[s], relax_candidates(prev, view[s], view[s].len() as int)),
    )
}

/// Round zero: distance zero at the source, unreachable elsewhere.
pub open spec fn bf_init(size: nat, src: int) -> Seq<int> {
    Seq::new(
        size,
        |s: int|
            if s == src {
                0int
            } else {
                unreachable_dist()
            },
    )
}

/// The distance vector after `k` relaxation rounds.
pub open spec fn bf_steps(
    view: Seq<Seq<AdjacencyListEdge>>,
    size: nat,
    src: int,
    k: nat,
) -> Seq<int>
    decreases k,
{
    if k == 0 {
        bf_init(size, src)
    } else {
        bf_round(view, bf_steps(view, size, src, (k - 1) as nat))
    }
}

/// Absorbing addition on machine integers, matching the spec-level `sat_add`.
fn sat_add_exec(a: i64, w: i64) -> (r: i64)
    requires
        a == BIGGEST_NUMBER || ((i64::MIN as int) <= (a as int) + (w as int) && (a as int) + (
        w as int) < (BIGGEST_NUMBER as int)),
    ensures
        r as int == sat_add(a as int, w as int),
{
    if a == BIGGEST_NUMBER {
        BIGGEST_NUMBER
    } else {
        a + w
    }
}

/// Runs Bellman-Ford from `source`; `Some` holds the distances of the first
/// stable round, `None` reports that no round up to `size` stabilised, the
/// sign of a negative cycle reachable from the source.
#[verifier::rlimit(100)]
pub fn bellman_ford(graph: &AdjacencyListGraphIncome, source: usize) -> (r: Option<Vec<i64>>)
    requires
        graph.edges@.len() == graph.size,
        adj_wf(graph.edges_view(), graph.size as nat),
        adj_bounded(graph.edges_view(), (-MAX_EDGE_LEN) as i64, MAX_EDGE_LEN),
        graph.size <= MAX_GRAPH_SIZE,
        source < graph.size,
    ensures
        match r {
            Some(v) => {
                &&& v@.len() == graph.size
                &&& exists|k: int|
                    1 <= k <= graph.size && to_dists(v@) == bf_steps(
                        graph.edges_view(),
                        graph.size as nat,
                        source as int,
                        k as nat,
                    ) && #[trigger] bf_steps(
                        graph.edges_view(),
                        graph.size as nat,
                        source as int,
                        k as nat,
                    ) == bf_steps(
                        graph.edges_view(),
                        graph.size as nat,
                        source as int,
                        (k - 1) as nat,
                    ) && (forall|j: int|
                        1 <= j < k ==> #[trigger] bf_steps(
                            graph.edges_view(),
                            graph.size as nat,
                            source as int,
                            j as nat,
                        ) != bf_steps(
                            graph.edges_view(),
                            graph.size as nat,
                            source as int,
                            (j - 1) as nat,
                        ))
                &&& bf_round(graph.edges_view(), to_dists(v@)) == to_dists(v@)
            },
            None => forall|k: int|
                1 <= k <= graph.size ==> #[trigger] bf_steps(
                    graph.edges_view(),
                    graph.size as nat,
                    source as int,
                    k as nat,
                ) != bf_steps(graph.edges_view(), graph.size as nat, source as int, (k - 1) as nat),
        },
{
    let size = graph.size;
    let ghost view = graph.edges_view();
    let ghost src = source as int;
    let ghost gsize = size as nat;

    let mut prev: Vec<i64> = vec![BIGGEST_NUMBER; size];
    prev[source] = 0;
    let mut cur: Vec<i64> = vec![BIGGEST_NUMBER; size];
    proof {
        assert(to_dists(prev@) =~= bf_init(gsize, src));
    }

    let mut i: usize = 0;
    while i < size
        invariant
            i <= size,
            size == graph.size,
            graph.edges@.len() == graph.size,
            view == graph.edges_view(),
            src == source as int,
            gsize == size as nat,
            adj_wf(view, gsize),
            adj_bounded(view, (-MAX_EDGE_LEN) as i64, MAX_EDGE_LEN),
            size <= MAX_GRAPH_SIZE,
            source < size,
            prev@.len() == size,
            cur@.len() == size,
            to_dists(prev@) == bf_steps(view, gsize, src, i as nat),
            forall|j: int|
                1 <= j <= i ==> #[trigger] bf_steps(view, gsize, src, j as nat) != bf_steps(
                    view,
                    gsize,
                    src,
                    (j - 1) as nat,
                ),
        decreases size - i,
    {
        proof {
            lemma_bf_steps_bounded(view, gsize, src, i as nat, MAX_EDGE_LEN as int);
        }
        let ghost prev_d = to_dists(prev@);
        let mut state_changed = false;
        let mut s: usize = 0;
        while s < size
            invariant
                s <= size,
                size == graph.size,
                graph.edges@.len() == graph.size,
                view == graph.edges_view(),
                adj_wf(view, gsize),
                adj_bounded(view, (-MAX_EDGE_LEN) as i64, MAX_EDGE_LEN),
                size <= MAX_GRAPH_SIZE,
                i < size,
                gsize == size as nat,
                prev@.len() == size,
                cur@.len() == size,
                prev_d == to_dists(prev@),
                forall|t: int|
                    0 <= t < prev_d.len() ==> #[trigger] prev_d[t] == unreachable_dist() || (-((
                    i as int) * (MAX_EDGE_LEN as int)) <= prev_d[t] <= (i as int) * (
                    MAX_EDGE_LEN as int)),
                forall|t: int|
                    0 <= t < s ==> (#[trigger] cur@[t]) as int == bf_round(view, prev_d)[t],
                state_changed <==> exists|t: int| 0 <= t < s && #[trigger] cur@[t] != prev@[t],
            decreases size - s,
        {
            let row_len = graph.edges[s].len();
            let mut min_val = BIGGEST_NUMBER;
            let mut e_i: usize = 0;
            proof {
                assert(view[s as int] == graph.edges@[s as int]@);
            }
            while e_i < row_len
                invariant
                    e_i <= row_len,
                    s < size,
                    size == graph.size,
                    graph.edges@.len() == graph.size,
                    view == graph.edges_view(),
                    adj_wf(view, gsize),
                    adj_bounded(view, (-MAX_EDGE_LEN) as i64, MAX_EDGE_LEN),
                    size <= MAX_GRAPH_SIZE,
                    i < size,
                    gsize == size as nat,
                    prev@.len() == size,
                    prev_d == to_dists(prev@),
                    row_len == view[s as int].len(),
                    forall|t: int|
                        0 <= t < prev_d.len() ==> #[trigger] prev_d[t] == unreachable_dist() || (-((
                        i as int) * (MAX_EDGE_LEN as int)) <= prev_d[t] <= (i as int) * (
                        MAX_EDGE_LEN as int)),
                    min_val as int == relax_candidates(prev_d, view[s as int], e_i as int),
                decreases row_len - e_i,
            {
                let e = graph.edges[s][e_i];
                proof {
                    assert(e == view[s as int][e_i as int]);
                    assert(e.from_or_to < size);
                    assert(-MAX_EDGE_LEN <= e.length <= MAX_EDGE_LEN);
                    assert(prev_d[e.from_or_to as int] == prev@[e.from_or_to as int] as int);
                    assert((i as int) * (MAX_EDGE_LEN as int) <= (MAX_GRAPH_SIZE as int) * (
                    MAX_EDGE_LEN as int)) by (nonlinear_arith)
                        requires
                            0 <= i as int <= MAX_GRAPH_SIZE as int,
                            MAX_EDGE_LEN as int > 0,
                    ;
                }
                let c = sat_add_exec(prev[e.from_or_to], e.length);
                if c < min_val {
                    min_val = c;
                }
                e_i = e_i + 1;
            }
            let ghost pre_changed = state_changed;
            let new_v = if prev[s] <= min_val {
                prev[s]
            } else {
                state_changed = true;
                min_val
            };
            let ghost cur_pre = cur@;
            cur[s] = new_v;
            proof {
                assert(new_v as int == min_int(
                    prev_d[s as int],
                    relax_candidates(prev_d, view[s as int], view[s as int].len() as int),
                ));
                assert(cur@[s as int] as int == bf_round(view, prev_d)[s as int]);
                assert(forall|t: int| 0 <= t < s ==> #[trigger] cur@[t] == cur_pre[t]);
                if state_changed {
                    if pre_changed {
                        let t0 = choose|t: int| 0 <= t < s && #[trigger] cur_pre[t] != prev@[t];
                        assert(cur@[t0] != prev@[t0]);
                    } else {
                        assert(cur@[s as int] != prev@[s as int]);
                    }
                } else {
                    assert forall|t: int| 0 <= t < s + 1 implies #[trigger] cur@[t]
                        == prev@[t] by {
                        if t < s {
                            assert(cur_pre[t] == prev@[t]);
                        }
                    }
                }
            }
            s = s + 1;
        }
        proof {
            assert(to_dists(cur@) =~= bf_round(view, prev_d));
            assert(bf_round(view, prev_d) == bf_steps(view, gsize, src, (i + 1) as nat));
        }
        if !state_changed {
            proof {
                assert forall|t: int| 0 <= t < size implies to_dists(cur@)[t] == to_dists(prev@)[t] by {
                    assert(cur@[t] == prev@[t]);
                }
                assert(to_dists(cur@) =~= to_dists(prev@));
                assert(bf_steps(view, gsize, src, (i + 1) as nat) == bf_steps(
                    view,
                    gsize,
                    src,
                    i as nat,
                ));
            }
            return Some(cur);
        }
        proof {
            let t = choose|t: int| 0 <= t < size && #[trigger] cur@[t] != prev@[t];
            assert(to_dists(cur@)[t] != to_dists(prev@)[t]);
            assert(bf_steps(view, gsize, src, (i + 1) as nat) != bf_steps(view, gsize, src, i as nat));
        }
        core::mem::swap(&mut prev, &mut cur);
        i = i + 1;
    }
    None
}

/// Every round has one entry per vertex.
pub proof fn lemma_bf_steps_len(view: Seq<Seq<AdjacencyListEdge>>, size: nat, src: int, k: nat)
    ensures
        bf_steps(view, size, src, k).len() == size,
    decreases k,
{
    if k > 0 {
        lemma_bf_steps_len(view, size, src, (k - 1) as nat);
    }
}

/// The candidate minimum never exceeds any single candidate.
pub proof fn lemma_relax_le(prev: Seq<int>, row: Seq<AdjacencyListEdge>, n: int, j: int)
    requires
        0 <= j < n,
    ensures
        relax_candidates(prev, row, n) <= sat_add(
            prev[row[j].from_or_to as int],
            row[j].length as int,
        ),
    decreases n,
{
    if j < n - 1 {
        lemma_relax_le(prev, row, n - 1, j);
    }
}

/// The candidate minimum is the sentinel or equals one of the candidates.
pub proof fn lemma_relax_exact(prev: Seq<int>, row: Seq<AdjacencyListEdge>, n: int)
    ensures
        relax_candidates(prev, row, n) == unreachable_dist() || exists|j: int|
            0 <= j < n && relax_candidates(prev, row, n) == sat_add(
                prev[(#[trigger] row[j]).from_or_to as int],
                row[j].length as int,
            ),
    decreases n,
{
    if n > 0 {
        lemma_relax_exact(prev, row, n - 1);
    }
}

/// Every entry of every round is the sentinel or bounded by `k` edge lengths.
pub proof fn lemma_bf_steps_bounded(
    view: Seq<Seq<AdjacencyListEdge>>,
    size: nat,
    src: int,
    k: nat,
    len_bound: int,
)
    requires
        adj_wf(view, size),
        adj_bounded(view, (-len_bound) as i64, len_bound as i64),
        0 <= len_bound <= MAX_EDGE_LEN,
    ensures
        forall|t: int|
            0 <= t < bf_steps(view, size, src, k).len() ==> #[trigger] bf_steps(
                view,
                size,
                src,
                k,
            )[t] == unreachable_dist() || (-(k * len_bound) <= bf_steps(view, size, src, k)[t] <= k
                * len_bound),
    decreases k,
{
    if k > 0 {
        lemma_bf_steps_bounded(view, size, src, (k - 1) as nat, len_bound);
        lemma_bf_steps_len(view, size, src, (k - 1) as nat);
        lemma_bf_steps_len(view, size, src, k);
        let prev = bf_steps(view, size, src, (k - 1) as nat);
        let curv = bf_steps(view, size, src, k);
        assert((k - 1) * len_bound + len_bound == k * len_bound) by (nonlinear_arith);
        assert((k - 1) * len_bound <= k * len_bound) by (nonlinear_arith)
            requires
                k >= 1 && len_bound >= 0,
        ;
        assert forall|t: int|
            0 <= t < curv.len() implies #[trigger] curv[t] == unreachable_dist() || (-(k * len_bound)
            <= curv[t] <= k * len_bound) by {
            lemma_relax_exact(prev, view[t], view[t].len() as int);
            let rc = relax_candidates(prev, view[t], view[t].len() as int);
            assert(curv[t] == min_int(prev[t], rc));
            if curv[t] != unreachable_dist() {
                if curv[t] == prev[t] {
                    assert(prev[t] == unreachable_dist() || (-((k - 1) * len_bound) <= prev[t] <= (k
                        - 1) * len_bound));
                } else {
                    assert(curv[t] == rc && rc != unreachable_dist());
                    let j = choose|j: int|
                        0 <= j < view[t].len() && rc == sat_add(
                            prev[(#[trigger] view[t][j]).from_or_to as int],
                            view[t][j].length as int,
                        );
                    let u = view[t][j].from_or_to as int;
                    assert(-len_bound <= view[t][j].length as int <= len_bound);
                    assert(prev[u] != unreachable_dist());
                    assert(prev[u] == unreachable_dist() || (-((k - 1) * len_bound) <= prev[u] <= (k
                        - 1) * len_bound));
                }
            }
        }
    }
}

/// Distances never grow from one round to the next, so they stay below the
/// sentinel and the source entry stays at most zero.
pub proof fn lemma_bf_steps_decreasing(
    view: Seq<Seq<AdjacencyListEdge>>,
    size: nat,
    src: int,
    k: nat,
)
    ensures
        forall|t: int|
            0 <= t < bf_steps(view, size, src, k).len() ==> #[trigger] bf_steps(
                view,
                size,
                src,
                k,
            )[t] <= bf_init(size, src)[t],
    decreases k,
{
    if k > 0 {
        lemma_bf_steps_decreasing(view, size, src, (k - 1) as nat);
        lemma_bf_steps_len(view, size, src, (k - 1) as nat);
        lemma_bf_steps_len(view, size, src, k);
        let prev = bf_steps(view, size, src, (k - 1) as nat);
        let curv = bf_steps(view, size, src, k);
        assert forall|t: int| 0 <= t < curv.len() implies #[trigger] curv[t] <= bf_init(
            size,
            src,
        )[t] by {
            assert(curv[t] == min_int(
                prev[t],
                relax_candidates(prev, view[t], view[t].len() as int),
            ));
            assert(prev[t] <= bf_init(size, src)[t]);
        }
    }
}

/// Every finite entry of a round is witnessed by a path of that exact cost.
pub proof fn lemma_bf_steps_witness(
    view: Seq<Seq<AdjacencyListEdge>>,
    size: nat,
    src: int,
    k: nat,
)
    requires
        adj_wf(view, size),
        size <= usize::MAX,
        0 <= src < size,
    ensures
        forall|t: int|
            0 <= t < bf_steps(view, size, src, k).len() && #[trigger] bf_steps(
                view,
                size,
                src,
                k,
            )[t] != unreachable_dist() ==> reaches_with_cost(
                incoming_arcs(view),
                size,
                src as usize,
                t as usize,
                bf_steps(view, size, src, k)[t],
            ),
    decreases k,
{
    let arcs = incoming_arcs(view);
    if k == 0 {
        lemma_reaches_self(arcs, size, src as usize);
    } else {
        lemma_bf_steps_witness(view, size, src, (k - 1) as nat);
        lemma_bf_steps_decreasing(view, size, src, (k - 1) as nat);
        lemma_bf_steps_len(view, size, src, (k - 1) as nat);
        lemma_bf_steps_len(view, size, src, k);
        let prev = bf_steps(view, size, src, (k - 1) as nat);
        let curv = bf_steps(view, size, src, k);
        assert forall|t: int|
            0 <= t < curv.len() && #[trigger] curv[t] != unreachable_dist() implies reaches_with_cost(
            arcs,
            size,
            src as usize,
            t as usize,
            curv[t],
        ) by {
            let rc = relax_candidates(prev, view[t], view[t].len() as int);
            assert(curv[t] == min_int(prev[t], rc));
            assert(prev[t] == bf_steps(view, size, src, (k - 1) as nat)[t]);
            assert(prev[t] <= bf_init(size, src)[t]);
            if curv[t] == prev[t] {
                assert(reaches_with_cost(arcs, size, src as usize, t as usize, prev[t]));
            } else {
                assert(rc < prev[t]);
                lemma_relax_exact(prev, view[t], view[t].len() as int);
                let j = choose|j: int|
                    0 <= j < view[t].len() && rc == sat_add(
                        prev[(#[trigger] view[t][j]).from_or_to as int],
                        view[t][j].length as int,
                    );
                let u = view[t][j].from_or_to;
                let w = view[t][j].length;
                assert(prev[u as int] != unreachable_dist());
                assert((u as nat) < size);
                assert(prev[u as int] == bf_steps(view, size, src, (k - 1) as nat)[u as int]);
                assert(reaches_with_cost(arcs, size, src as usize, u, prev[u as int]));
                assert((t as usize) as int == t);
                assert(view[(t as usize) as int][j] == (AdjacencyListEdge {
                    length: w,
                    from_or_to: u,
                }));
                assert(view[(t as usize) as int].contains(
                    AdjacencyListEdge { length: w, from_or_to: u },
                ));
                assert(arcs.contains((u, t as usize, w)));
                assert(prev[u as int] + w < unreachable_dist()) by {
                    assert(rc < prev[t] <= unreachable_dist());
                }
                lemma_path_extend(arcs, size, src as usize, u, t as usize, w, prev[u as int]);
            }
        }
    }
}

/// A fixed point of the relaxation round is closed under the incoming arcs.
pub proof fn lemma_bf_fixed_closed(view: Seq<Seq<AdjacencyListEdge>>, size: nat, v: Seq<int>)
    requires
        adj_wf(view, size),
        v.len() == size,
        bf_round(view, v) == v,
    ensures
        closed_under_arcs(incoming_arcs(view), v),
{
    let arcs = incoming_arcs(view);
    assert forall|a: usize, b: usize, w: i64|
        #[trigger] arcs.contains((a, b, w)) && (a as int) < v.len() && (b as int)
            < v.len() implies v[b as int] <= sat_add(v[a as int], w as int) by {
        let j = choose|j: int|
            0 <= j < view[b as int].len() && view[b as int][j] == (AdjacencyListEdge {
                length: w,
                from_or_to: a,
            });
        lemma_relax_le(v, view[b as int], view[b as int].len() as int, j);
        assert(v[b as int] == bf_round(view, v)[b as int]);
    }
}

/// On a graph without negative edge lengths, a fixed point reached by the
/// rounds is exactly the shortest-distance vector from the source.
pub proof fn lemma_bf_fixed_shortest(
    view: Seq<Seq<AdjacencyListEdge>>,
    size: nat,
    src: int,
    k: nat,
)
    requires
        adj_wf(view, size),
        adj_bounded(view, 0, i64::MAX),
        size <= usize::MAX,
        0 <= src < size,
        bf_round(view, bf_steps(view, size, src, k)) == bf_steps(view, size, src, k),
    ensures
        shortest_from(incoming_arcs(view), size, src as usize, bf_steps(view, size, src, k)),
{
    let arcs = incoming_arcs(view);
    let v = bf_steps(view, size, src, k);
    lemma_bf_steps_len(view, size, src, k);
    lemma_bf_steps_decreasing(view, size, src, k);
    lemma_bf_steps_witness(view, size, src, k);
    lemma_bf_fixed_closed(view, size, v);
    assert(v[src] == bf_steps(view, size, src, k)[src]);
    assert(bf_init(size, src)[src] == 0);
    assert(crate::paths::arcs_bounded(arcs, 0, unreachable_dist())) by {
        assert forall|a: usize, b: usize, w: i64| #[trigger]
            arcs.contains((a, b, w)) implies 0 <= w && (w as int) <= unreachable_dist() by {
            let j = choose|j: int|
                0 <= j < view[b as int].len() && view[b as int][j] == (AdjacencyListEdge {
                    length: w,
                    from_or_to: a,
                });
            assert(0 <= view[b as int][j].length);
        }
    }
    assert(v[src] <= 0);
    assert(v[src] != unreachable_dist());
    assert(reaches_with_cost(arcs, size, src as usize, src as usize, v[src]));
    crate::paths::lemma_reaches_cost_nonneg(arcs, size, src as usize, src as usize, v[src]);
}

} // verus!
