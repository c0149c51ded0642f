//! Johnson's all-pairs shortest paths.
//!
//! Three strictly sequential phases. Augment: a virtual vertex is connected
//! to every real vertex by zero-length edges and Bellman-Ford runs from it;
//! failure to converge aborts the whole computation. Reweight: the virtual
//! vertex is removed and every edge length `w(u,v)` becomes
//! `w + potential[u] - potential[v]`, proved non-negative. Resolve: one
//! reweighted Dijkstra run per vertex recovers the true distance matrix.
//!
//! On success every row `i` of the matrix is proved to satisfy
//! `shortest_from` over the arcs of the input graph — row `i` holds the least
//! path cost from `i` to each vertex, with the infinite sentinel where no
//! path exists — and the input graph is proved free of negative cycles.

use vstd::prelude::*;

use crate::bellman_ford::bellman_ford;
use crate::bellman_ford::bf_round;
use crate::bellman_ford::bf_steps;
use crate::bellman_ford::lemma_bf_fixed_closed;
use crate::bellman_ford::lemma_bf_fixed_shortest;
use crate::bellman_ford::lemma_bf_steps_bounded;
use crate::bellman_ford::lemma_bf_steps_decreasing;
use crate::bellman_ford::lemma_bf_steps_len;
use crate::dijkstra::dijkstra_with_reweighting;
use crate::dijkstra::MAX_POTENTIAL;
use crate::dijkstra::MAX_REWEIGHTED_LEN;
use crate::graph_representations::adj_bounded;
use crate::graph_representations::adj_wf;
use crate::graph_representations::graph_bounded;
use crate::graph_representations::graph_wf;
use crate::graph_representations::income_prefix;
use crate::graph_representations::keep_edges;
use crate::graph_representations::outcome_prefix;
use crate::graph_representations::AdjacencyListGraphIncome;
use crate::graph_representations::AdjacencyListGraphOutcome;
use crate::graph_representations::Edge;
use crate::graph_representations::SimpleGraph;
use crate::graph_representations::MAX_EDGE_LEN;
use crate::graph_representations::MAX_GRAPH_SIZE;
use crate::paths::edge_matches_arc;
use crate::paths::graph_arcs;
use crate::paths::has_negative_cycle;
use crate::paths::incoming_arcs;
use crate::paths::lemma_graph_arcs_in_range;
use crate::paths::lemma_income_prefix_arcs;
use crate::paths::lemma_outcome_prefix_arcs;
use crate::paths::lemma_potential_no_negative_cycle;
use crate::paths::lemma_shift_shortest;
use crate::paths::lemma_shortest_unique;
use crate::paths::outgoing_arcs;
use crate::paths::sat_add;
use crate::paths::shortest_from;
use crate::paths::to_dists;
use crate::paths::unreachable_dist;
use crate::paths::valid_potential;

verus! {

/// The zero-length edges from the virtual vertex `n` to every real vertex.
pub open spec fn virtual_edges(n: usize) -> Seq<Edge> {
    Seq::new(n as nat, |i: int| Edge { from: n, to: i as usize, length: 0 })
}

/// Every edge length shifted by the potential difference of its endpoints.
pub open spec fn reweighted_edges(es: Seq<Edge>, p: Seq<int>) -> Seq<Edge> {
    es.map_values(
        |e: Edge|
            Edge {
                from: e.from,
                to: e.to,
                length: (e.length + p[e.from as int] - p[e.to as int]) as i64,
            },
    )
}

/// What a successful run promises of the matrix: a feasible potential exists
/// for the input graph, and each row `i` is the shortest-distance vector from
/// vertex `i` over the input graph's arcs.
pub open spec fn johnson_matrix_post(g: SimpleGraph, m: Seq<Vec<i64>>) -> bool {
    &&& m.len() == g.size
    &&& exists|p: Seq<int>| #[trigger] valid_potential(graph_arcs(g), g.size as nat, p)
    &&& forall|i: int|
        0 <= i < m.len() ==> #[trigger] shortest_from(
            graph_arcs(g),
            g.size as nat,
            i as usize,
            to_dists(m[i]@),
        )
}

/// All-pairs shortest paths on a directed graph with possibly negative edge
/// lengths. `Some(m)` holds the full distance matrix and leaves the graph
/// reweighted to non-negative lengths; `None` reports a negative cycle, with
/// the graph left in its augmented state.
#[verifier::rlimit(100)]
pub fn jonsons(graph: &mut SimpleGraph) -> (r: Option<Vec<Vec<i64>>>)
    requires
        graph_wf(*old(graph)),
        graph_bounded(*old(graph), MAX_EDGE_LEN),
        old(graph).size < MAX_GRAPH_SIZE,
        old(graph).is_directed,
    ensures
        match r {
            Some(m) => {
                &&& final(graph).size == old(graph).size
                &&& final(graph).is_directed == old(graph).is_directed
                &&& johnson_matrix_post(*old(graph), m@)
                &&& exists|p: Seq<int>|
                    #[trigger] valid_potential(
                        graph_arcs(*old(graph)),
                        old(graph).size as nat,
                        p,
                    ) && final(graph).edges@ == reweighted_edges(old(graph).edges@, p)
                &&& !has_negative_cycle(graph_arcs(*old(graph)), old(graph).size as nat)
            },
            None => {
                &&& final(graph).size == old(graph).size + 1
                &&& final(graph).is_directed == old(graph).is_directed
                &&& final(graph).edges@ == old(graph).edges@ + virtual_edges(old(graph).size)
                &&& forall|k: int|
                    1 <= k <= final(graph).size ==> #[trigger] bf_steps(
                        income_prefix(*final(graph), final(graph).edges@.len() as int),
                        final(graph).size as nat,
                        old(graph).size as int,
                        k as nat,
                    ) != bf_steps(
                        income_prefix(*final(graph), final(graph).edges@.len() as int),
                        final(graph).size as nat,
                        old(graph).size as int,
                        (k - 1) as nat,
                    )
            },
        },
{
    let ghost g0 = *graph;
    let last_idx = graph.size;
    graph.increase_size(1);
    let mut i: usize = 0;
    while i < last_idx
        invariant
            i <= last_idx,
            last_idx == g0.size,
            last_idx < MAX_GRAPH_SIZE,
            graph.size == last_idx + 1,
            graph.is_directed == g0.is_directed,
            graph.edges@ == g0.edges@ + virtual_edges(last_idx).subrange(0, i as int),
            graph_wf(g0),
        decreases last_idx - i,
    {
        let added = graph.add_edge(Edge { from: last_idx, to: i, length: 0 });
        proof {
            assert(added == Ok::<(), crate::graph_representations::GraphError>(()));
            assert(virtual_edges(last_idx).subrange(0, i + 1 as int) =~= virtual_edges(
                last_idx,
            ).subrange(0, i as int).push(Edge { from: last_idx, to: i, length: 0 }));
            assert(graph.edges@ =~= g0.edges@ + virtual_edges(last_idx).subrange(0, i + 1 as int));
        }
        i = i + 1;
    }
    proof {
        assert(virtual_edges(last_idx).subrange(0, last_idx as int) =~= virtual_edges(last_idx));
        assert(graph.edges@ == g0.edges@ + virtual_edges(last_idx));
        assert(graph_wf(*graph)) by {
            assert forall|k: int|
                0 <= k < graph.edges@.len() implies (#[trigger] graph.edges@[k]).from < graph.size
                && graph.edges@[k].to < graph.size by {
                if k < g0.edges@.len() {
                    assert(graph.edges@[k] == g0.edges@[k]);
                } else {
                    assert(graph.edges@[k] == virtual_edges(last_idx)[k - g0.edges@.len()]);
                }
            }
        }
        assert(graph_bounded(*graph, MAX_EDGE_LEN)) by {
            assert forall|k: int|
                0 <= k < graph.edges@.len() implies -MAX_EDGE_LEN <= (
            #[trigger] graph.edges@[k]).length && graph.edges@[k].length <= MAX_EDGE_LEN by {
                if k < g0.edges@.len() {
                    assert(graph.edges@[k] == g0.edges@[k]);
                } else {
                    assert(graph.edges@[k] == virtual_edges(last_idx)[k - g0.edges@.len()]);
                }
            }
        }
    }
    let ghost gaug = *graph;

    let adjacency_graph = AdjacencyListGraphIncome::from_simple(graph);
    proof {
        lemma_income_view_wf(gaug, gaug.edges@.len() as int, MAX_EDGE_LEN);
        lemma_income_prefix_arcs(gaug, gaug.edges@.len() as int);
    }

    let bf = bellman_ford(&adjacency_graph, last_idx);
    match bf {
        Some(v) => {
            let ghost view_aug = adjacency_graph.edges_view();
            let ghost size_aug = gaug.size as nat;
            let ghost vd = to_dists(v@);
            let ghost arcs_aug = graph_arcs(gaug);
            let ghost arcs0 = graph_arcs(g0);
            proof {
                assert(view_aug == income_prefix(gaug, gaug.edges@.len() as int));
                assert(incoming_arcs(view_aug) == arcs_aug);
                let kk = choose|k: int|
                    1 <= k <= gaug.size && to_dists(v@) == bf_steps(
                        view_aug,
                        size_aug,
                        last_idx as int,
                        k as nat,
                    ) && #[trigger] bf_steps(view_aug, size_aug, last_idx as int, k as nat)
                        == bf_steps(view_aug, size_aug, last_idx as int, (k - 1) as nat) && (
                    forall|j: int|
                        1 <= j < k ==> #[trigger] bf_steps(
                            view_aug,
                            size_aug,
                            last_idx as int,
                            j as nat,
                        ) != bf_steps(view_aug, size_aug, last_idx as int, (j - 1) as nat));
                lemma_bf_steps_bounded(
                    view_aug,
                    size_aug,
                    last_idx as int,
                    kk as nat,
                    MAX_EDGE_LEN as int,
                );
                lemma_bf_steps_decreasing(view_aug, size_aug, last_idx as int, kk as nat);
                lemma_bf_steps_len(view_aug, size_aug, last_idx as int, kk as nat);
                assert((kk as nat) * (MAX_EDGE_LEN as int) <= (MAX_GRAPH_SIZE as int) * (
                MAX_EDGE_LEN as int)) by (nonlinear_arith)
                    requires
                        1 <= kk <= MAX_GRAPH_SIZE as int,
                        MAX_EDGE_LEN as int > 0,
                ;
                assert((MAX_GRAPH_SIZE as int) * (MAX_EDGE_LEN as int) == 0x1000_0000_0000);
                assert(vd.len() == size_aug);
                assert(vd[last_idx as int] <= 0);
                lemma_bf_fixed_closed(view_aug, size_aug, vd);
                // the virtual arcs force every potential to be finite
                assert forall|j: int| 0 <= j < last_idx implies #[trigger] vd[j]
                    != unreachable_dist() && vd[j] <= 0 && -MAX_POTENTIAL <= vd[j] by {
                    let ve = gaug.edges@[g0.edges@.len() + j];
                    assert(ve == virtual_edges(last_idx)[j]);
                    assert(edge_matches_arc(ve, gaug.is_directed, (last_idx, j as usize, 0i64)));
                    assert(arcs_aug.contains((last_idx, j as usize, 0i64)));
                    assert(vd[j] <= sat_add(vd[last_idx as int], 0));
                    assert(vd[last_idx as int] != unreachable_dist());
                }
                // the potential is feasible for every original arc
                assert forall|u: usize, w: usize, ln: i64|
                    #[trigger] arcs0.contains((u, w, ln)) && (u as nat) < last_idx && (w as nat)
                        < last_idx implies vd[w as int] <= vd[u as int] + ln by {
                    let k = choose|k: int|
                        0 <= k < g0.edges@.len() && edge_matches_arc(
                            #[trigger] g0.edges@[k],
                            g0.is_directed,
                            (u, w, ln),
                        );
                    assert(gaug.edges@[k] == g0.edges@[k]);
                    assert(arcs_aug.contains((u, w, ln)));
                    assert(vd[w as int] <= sat_add(vd[u as int], ln as int));
                    assert(vd[u as int] != unreachable_dist());
                }
                lemma_graph_arcs_in_range(g0);
                assert forall|j: int|
                    0 <= j < v@.len() implies -MAX_POTENTIAL <= #[trigger] v@[j] && v@[j]
                    <= MAX_POTENTIAL by {
                    assert(vd[j] == v@[j] as int);
                    assert(vd[j] != unreachable_dist()) by {
                        if j < last_idx {
                        } else {
                            assert(j == last_idx as int);
                        }
                    }
                    assert(bf_steps(view_aug, size_aug, last_idx as int, kk as nat)[j] == vd[j]);
                }
            }
            let ghost p = vd;

            graph.decrease_size(1);
            proof {
                lemma_keep_appended(g0.edges@, virtual_edges(last_idx), last_idx as nat);
                assert(graph.edges@ == g0.edges@);
                assert(graph.size == g0.size);
            }
            reweight_graph(graph, &v);
            let ghost grew = *graph;
            proof {
                assert(grew.edges@ == reweighted_edges(g0.edges@, p));
                // reweighted lengths are non-negative and bounded
                assert forall|k: int|
                    0 <= k < grew.edges@.len() implies 0 <= (#[trigger] grew.edges@[k]).length
                    && grew.edges@[k].length <= MAX_REWEIGHTED_LEN by {
                    let e = g0.edges@[k];
                    assert(edge_matches_arc(e, g0.is_directed, (e.from, e.to, e.length)));
                    assert(arcs0.contains((e.from, e.to, e.length)));
                    assert(p[e.to as int] <= p[e.from as int] + e.length);
                    assert(grew.edges@[k] == Edge {
                        from: e.from,
                        to: e.to,
                        length: (e.length + p[e.from as int] - p[e.to as int]) as i64,
                    });
                }
                assert(graph_wf(grew)) by {
                    assert forall|k: int|
                        0 <= k < grew.edges@.len() implies (#[trigger] grew.edges@[k]).from
                        < grew.size && grew.edges@[k].to < grew.size by {
                        assert(grew.edges@[k].from == g0.edges@[k].from);
                        assert(grew.edges@[k].to == g0.edges@[k].to);
                    }
                }
                lemma_outcome_view_wf(grew, grew.edges@.len() as int, MAX_REWEIGHTED_LEN);
                lemma_outcome_prefix_arcs(grew, grew.edges@.len() as int);
            }
            let outcome_graph = AdjacencyListGraphOutcome::from_simple(graph);
            let ghost arcs2 = graph_arcs(grew);
            proof {
                assert(outgoing_arcs(outcome_graph.edges_view()) == arcs2);
                lemma_reweighted_arcs(g0, grew, p);
                assert(valid_potential(arcs0, g0.size as nat, p.subrange(0, g0.size as int)))
                    by {
                    assert(p.subrange(0, g0.size as int).len() == g0.size);
                    assert forall|u: usize, w: usize, ln: i64|
                        #[trigger] arcs0.contains((u, w, ln)) && (u as nat) < g0.size && (w as nat)
                            < g0.size implies p.subrange(0, g0.size as int)[w as int] <= p.subrange(
                        0,
                        g0.size as int,
                    )[u as int] + ln by {
                        assert(vd[w as int] <= vd[u as int] + ln);
                    }
                }
            }

            let size2 = graph.size;
            let mut res: Vec<Vec<i64>> = Vec::with_capacity(size2);
            let mut i2: usize = 0;
            while i2 < size2
                invariant
                    i2 <= size2,
                    size2 == g0.size,
                    size2 < MAX_GRAPH_SIZE,
                    *graph == grew,
                    grew.size == g0.size,
                    outcome_graph.size == grew.size,
                    outcome_graph.edges@.len() == grew.size,
                    adj_wf(outcome_graph.edges_view(), grew.size as nat),
                    adj_bounded(outcome_graph.edges_view(), 0, MAX_REWEIGHTED_LEN),
                    outgoing_arcs(outcome_graph.edges_view()) == arcs2,
                    arcs0 == graph_arcs(g0),
                    v@.len() == g0.size + 1,
                    p == to_dists(v@),
                    forall|j: int|
                        0 <= j < v@.len() ==> -MAX_POTENTIAL <= #[trigger] v@[j] && v@[j]
                            <= MAX_POTENTIAL,
                    crate::paths::arcs_in_range(arcs0, g0.size as nat),
                    forall|u: usize, w: usize, ln: i64|
                        #[trigger] arcs0.contains((u, w, ln)) ==> arcs2.contains(
                            (u, w, ((ln + p[u as int] - p[w as int]) as i64)),
                        ) && ln + p[u as int] - p[w as int] == ((ln + p[u as int] - p[
                        w as int]) as i64) as int,
                    forall|u: usize, w: usize, ln2: i64|
                        #[trigger] arcs2.contains((u, w, ln2)) ==> (u as nat) < g0.size && (
                        w as nat) < g0.size && arcs0.contains(
                            (u, w, ((ln2 - p[u as int] + p[w as int]) as i64)),
                        ) && ln2 - p[u as int] + p[w as int] == ((ln2 - p[u as int] + p[
                        w as int]) as i64) as int,
                    res@.len() == i2,
                    forall|j: int|
                        0 <= j < i2 ==> #[trigger] shortest_from(
                            arcs0,
                            g0.size as nat,
                            j as usize,
                            to_dists(res@[j]@),
                        ),
                decreases size2 - i2,
            {
                let row = dijkstra_with_reweighting(&outcome_graph, i2, &v);
                proof {
                    let d = choose|d: Seq<int>|
                        #[trigger] shortest_from(
                            outgoing_arcs(outcome_graph.edges_view()),
                            outcome_graph.size as nat,
                            i2,
                            d,
                        ) && (forall|t: int|
                            0 <= t < d.len() ==> #[trigger] d[t] == unreachable_dist() || (0 <= d[t]
                                && d[t] <= (outcome_graph.size as int) * (
                            MAX_REWEIGHTED_LEN as int))) && (forall|t: int|
                            0 <= t < row@.len() ==> (#[trigger] row@[t]) as int == (if d[t]
                                == unreachable_dist() {
                                unreachable_dist()
                            } else {
                                d[t] + v@[t] - v@[i2 as int]
                            }));
                    assert((outcome_graph.size as int) * (MAX_REWEIGHTED_LEN as int) <= (
                    MAX_GRAPH_SIZE as int) * (MAX_REWEIGHTED_LEN as int)) by (nonlinear_arith)
                        requires
                            0 <= outcome_graph.size as int <= MAX_GRAPH_SIZE as int,
                            MAX_REWEIGHTED_LEN as int > 0,
                    ;
                    assert((MAX_GRAPH_SIZE as int) * (MAX_REWEIGHTED_LEN as int)
                        == 0x4000_0000_0000_0000);
                    assert forall|t: int|
                        0 <= t < row@.len() implies (#[trigger] to_dists(row@)[t]) == (if d[t]
                            == unreachable_dist() {
                            unreachable_dist()
                        } else {
                            d[t] + p[t] - p[i2 as int]
                        }) by {
                        assert(p[t] == v@[t] as int && p[i2 as int] == v@[i2 as int] as int);
                    }
                    lemma_shift_shortest(
                        arcs0,
                        arcs2,
                        g0.size as nat,
                        i2,
                        p,
                        MAX_POTENTIAL as int,
                        d,
                        (outcome_graph.size as int) * (MAX_REWEIGHTED_LEN as int),
                        MAX_REWEIGHTED_LEN as int,
                        to_dists(row@),
                    );
                }
                res.push(row);
                i2 = i2 + 1;
            }
            proof {
                let psub = p.subrange(0, g0.size as int);
                assert(johnson_matrix_post(g0, res@)) by {
                    assert(valid_potential(arcs0, g0.size as nat, psub));
                }
                lemma_potential_no_negative_cycle(arcs0, g0.size as nat, psub);
                assert(reweighted_edges(g0.edges@, p) =~= reweighted_edges(g0.edges@, psub)) by {
                    assert forall|k: int|
                        0 <= k < g0.edges@.len() implies reweighted_edges(g0.edges@, p)[k]
                        == reweighted_edges(g0.edges@, psub)[k] by {
                        let e = g0.edges@[k];
                        assert(psub[e.from as int] == p[e.from as int]);
                        assert(psub[e.to as int] == p[e.to as int]);
                    }
                }
                assert(valid_potential(arcs0, g0.size as nat, psub) && graph.edges@
                    == reweighted_edges(g0.edges@, psub));
            }
            Some(res)
        },
        None => {
            proof {
                assert(adjacency_graph.edges_view() == income_prefix(
                    *graph,
                    graph.edges@.len() as int,
                ));
            }
            None
        },
    }
}

/// Adds `reweight_vec[from] - reweight_vec[to]` to every edge length.
fn reweight_graph(graph: &mut SimpleGraph, reweight_vec: &Vec<i64>)
    requires
        graph_wf(*old(graph)),
        graph_bounded(*old(graph), MAX_EDGE_LEN),
        reweight_vec@.len() >= old(graph).size,
        forall|j: int|
            0 <= j < reweight_vec@.len() ==> -MAX_POTENTIAL <= #[trigger] reweight_vec@[j]
                && reweight_vec@[j] <= MAX_POTENTIAL,
    ensures
        final(graph).size == old(graph).size,
        final(graph).is_directed == old(graph).is_directed,
        final(graph).edges@ == reweighted_edges(old(graph).edges@, to_dists(reweight_vec@)),
{
    let ghost g0 = *graph;
    let ghost p = to_dists(reweight_vec@);
    let n = graph.edges.len();
    let mut k: usize = 0;
    while k < n
        invariant
            k <= n,
            n == graph.edges@.len(),
            n == g0.edges@.len(),
            graph.size == g0.size,
            graph.is_directed == g0.is_directed,
            graph_wf(g0),
            graph_bounded(g0, MAX_EDGE_LEN),
            reweight_vec@.len() >= g0.size,
            p == to_dists(reweight_vec@),
            forall|j: int|
                0 <= j < reweight_vec@.len() ==> -MAX_POTENTIAL <= #[trigger] reweight_vec@[j]
                    && reweight_vec@[j] <= MAX_POTENTIAL,
            forall|j: int| k <= j < n ==> #[trigger] graph.edges@[j] == g0.edges@[j],
            forall|j: int|
                0 <= j < k ==> #[trigger] graph.edges@[j] == (Edge {
                    from: g0.edges@[j].from,
                    to: g0.edges@[j].to,
                    length: (g0.edges@[j].length + p[g0.edges@[j].from as int] - p[g0.edges@[
                    j].to as int]) as i64,
                }),
        decreases n - k,
    {
        let e = graph.edges[k];
        let shift = reweight_vec[e.from] - reweight_vec[e.to];
        graph.edges[k] = Edge { from: e.from, to: e.to, length: e.length + shift };
        k = k + 1;
    }
    proof {
        assert(graph.edges@ =~= reweighted_edges(g0.edges@, p));
    }
}

/// Keeping only the in-range edges of "original edges plus appended edges
/// whose source is out of range" restores exactly the original edges.
proof fn lemma_keep_appended(orig: Seq<Edge>, extra: Seq<Edge>, size: nat)
    requires
        forall|k: int| 0 <= k < orig.len() ==> (#[trigger] orig[k]).from < size && orig[k].to
            < size,
        forall|k: int| 0 <= k < extra.len() ==> (#[trigger] extra[k]).from >= size,
    ensures
        keep_edges(orig + extra, size, (orig + extra).len() as int) == orig,
{
    lemma_keep_appended_step(orig, extra, size, (orig + extra).len() as int);
    assert(keep_edges(orig + extra, size, (orig + extra).len() as int) =~= orig);
}

proof fn lemma_keep_appended_step(orig: Seq<Edge>, extra: Seq<Edge>, size: nat, n: int)
    requires
        forall|k: int| 0 <= k < orig.len() ==> (#[trigger] orig[k]).from < size && orig[k].to
            < size,
        forall|k: int| 0 <= k < extra.len() ==> (#[trigger] extra[k]).from >= size,
        0 <= n <= (orig + extra).len(),
    ensures
        n <= orig.len() ==> keep_edges(orig + extra, size, n) == orig.subrange(0, n),
        n > orig.len() ==> keep_edges(orig + extra, size, n) == orig,
    decreases n,
{
    if n > 0 {
        lemma_keep_appended_step(orig, extra, size, n - 1);
        let combined = orig + extra;
        if n <= orig.len() {
            assert(combined[n - 1] == orig[n - 1]);
            assert(keep_edges(combined, size, n) =~= orig.subrange(0, n));
        } else {
            assert(combined[n - 1] == extra[n - 1 - orig.len()]);
            if n - 1 <= orig.len() {
                assert(orig.subrange(0, orig.len() as int) =~= orig);
            }
        }
    } else {
        assert(orig.subrange(0, 0) =~= Seq::<Edge>::empty());
    }
}

/// Reweighting shifts each arc's length by the potential difference of its
/// endpoints, in both directions.
proof fn lemma_reweighted_arcs(g0: SimpleGraph, g2: SimpleGraph, p: Seq<int>)
    requires
        g0.is_directed,
        g2.is_directed == g0.is_directed,
        g2.size == g0.size,
        g2.edges@ == reweighted_edges(g0.edges@, p),
        graph_wf(g0),
        graph_bounded(g0, MAX_EDGE_LEN),
        p.len() >= g0.size,
        forall|j: int| 0 <= j < p.len() ==> -(MAX_POTENTIAL as int) <= #[trigger] p[j] && p[j]
            <= MAX_POTENTIAL as int,
    ensures
        forall|u: usize, w: usize, ln: i64|
            #[trigger] graph_arcs(g0).contains((u, w, ln)) ==> graph_arcs(g2).contains(
                (u, w, ((ln + p[u as int] - p[w as int]) as i64)),
            ) && ln + p[u as int] - p[w as int] == ((ln + p[u as int] - p[w as int]) as i64) as int,
        forall|u: usize, w: usize, ln2: i64|
            #[trigger] graph_arcs(g2).contains((u, w, ln2)) ==> (u as nat) < g0.size && (w as nat)
                < g0.size && graph_arcs(g0).contains(
                (u, w, ((ln2 - p[u as int] + p[w as int]) as i64)),
            ) && ln2 - p[u as int] + p[w as int] == ((ln2 - p[u as int] + p[w as int]) as i64) as int,
{
    assert forall|u: usize, w: usize, ln: i64|
        #[trigger] graph_arcs(g0).contains((u, w, ln)) implies graph_arcs(g2).contains(
        (u, w, ((ln + p[u as int] - p[w as int]) as i64)),
    ) && ln + p[u as int] - p[w as int] == ((ln + p[u as int] - p[w as int]) as i64) as int by {
        let k = choose|k: int|
            0 <= k < g0.edges@.len() && edge_matches_arc(
                #[trigger] g0.edges@[k],
                g0.is_directed,
                (u, w, ln),
            );
        let e = g0.edges@[k];
        assert(g2.edges@[k] == Edge {
            from: e.from,
            to: e.to,
            length: (e.length + p[e.from as int] - p[e.to as int]) as i64,
        });
        assert(edge_matches_arc(
            g2.edges@[k],
            g2.is_directed,
            (u, w, ((ln + p[u as int] - p[w as int]) as i64)),
        ));
    }
    assert forall|u: usize, w: usize, ln2: i64|
        #[trigger] graph_arcs(g2).contains((u, w, ln2)) implies (u as nat) < g0.size && (w as nat)
        < g0.size && graph_arcs(g0).contains((u, w, ((ln2 - p[u as int] + p[w as int]) as i64)))
        && ln2 - p[u as int] + p[w as int] == ((ln2 - p[u as int] + p[w as int]) as i64) as int by {
        let k = choose|k: int|
            0 <= k < g2.edges@.len() && edge_matches_arc(
                #[trigger] g2.edges@[k],
                g2.is_directed,
                (u, w, ln2),
            );
        let e = g0.edges@[k];
        assert(g2.edges@[k] == Edge {
            from: e.from,
            to: e.to,
            length: (e.length + p[e.from as int] - p[e.to as int]) as i64,
        });
        assert(edge_matches_arc(e, g0.is_directed, (u, w, ((ln2 - p[u as int] + p[
        w as int]) as i64))));
    }
}

/// Rows of the incoming projection hold in-range neighbours and bounded
/// lengths whenever the edge list does.
proof fn lemma_income_view_wf(g: SimpleGraph, n: int, b: i64)
    requires
        graph_wf(g),
        graph_bounded(g, b),
        b >= 0,
        0 <= n <= g.edges@.len(),
    ensures
        adj_wf(income_prefix(g, n), g.size as nat),
        adj_bounded(income_prefix(g, n), (-b) as i64, b),
    decreases n,
{
    if n > 0 {
        lemma_income_view_wf(g, n - 1, b);
        let prev = income_prefix(g, n - 1);
        let curv = income_prefix(g, n);
        let e = g.edges@[n - 1];
        assert forall|i: int, k: int|
            0 <= i < curv.len() && 0 <= k < curv[i].len() implies (
        #[trigger] curv[i][k]).from_or_to < g.size && -b <= curv[i][k].length && curv[i][k].length
            <= b by {
            if g.is_directed {
                if i == e.to as int && k == prev[i].len() {
                } else {
                    assert(curv[i][k] == prev[i][k]);
                }
            } else {
                let mid = prev.update(
                    e.from as int,
                    prev[e.from as int].push(
                        crate::graph_representations::AdjacencyListEdge {
                            length: e.length,
                            from_or_to: e.to,
                        },
                    ),
                );
                if i == e.to as int && k == mid[i].len() {
                } else {
                    assert(curv[i][k] == mid[i][k]);
                    if i == e.from as int && k == prev[i].len() {
                    } else {
                        assert(mid[i][k] == prev[i][k]);
                    }
                }
            }
        }
    }
}

/// Rows of the outgoing projection hold in-range neighbours and lengths in
/// `[0, b]` whenever the edge list does.
proof fn lemma_outcome_view_wf(g: SimpleGraph, n: int, b: i64)
    requires
        graph_wf(g),
        forall|k: int| 0 <= k < g.edges@.len() ==> 0 <= (#[trigger] g.edges@[k]).length
            && g.edges@[k].length <= b,
        b >= 0,
        0 <= n <= g.edges@.len(),
    ensures
        adj_wf(outcome_prefix(g, n), g.size as nat),
        adj_bounded(outcome_prefix(g, n), 0, b),
    decreases n,
{
    if n > 0 {
        lemma_outcome_view_wf(g, n - 1, b);
        let prev = outcome_prefix(g, n - 1);
        let curv = outcome_prefix(g, n);
        let e = g.edges@[n - 1];
        assert forall|i: int, k: int|
            0 <= i < curv.len() && 0 <= k < curv[i].len() implies (
        #[trigger] curv[i][k]).from_or_to < g.size && 0 <= curv[i][k].length && curv[i][k].length
            <= b by {
            if g.is_directed {
                if i == e.from as int && k == prev[i].len() {
                } else {
                    assert(curv[i][k] == prev[i][k]);
                }
            } else {
                let mid = prev.update(
                    e.from as int,
                    prev[e.from as int].push(
                        crate::graph_representations::AdjacencyListEdge {
                            length: e.length,
                            from_or_to: e.to,
                        },
                    ),
                );
                if i == e.to as int && k == mid[i].len() {
                } else {
                    assert(curv[i][k] == mid[i][k]);
                    if i == e.from as int && k == prev[i].len() {
                    } else {
                        assert(mid[i][k] == prev[i][k]);
                    }
                }
            }
        }
    }
}

/// Every row of a successful matrix has a zero diagonal entry: each row is a
/// shortest-distance vector from its own vertex, whose source entry is zero.
pub proof fn lemma_johnson_diagonal_zero(g: SimpleGraph, m: Seq<Vec<i64>>, i: int)
    requires
        johnson_matrix_post(g, m),
        0 <= i < m.len(),
    ensures
        m[i]@[i] == 0,
{
    assert(shortest_from(graph_arcs(g), g.size as nat, i as usize, to_dists(m[i]@)));
    assert(to_dists(m[i]@)[i] == 0);
}

/// The matrix is a function of the graph alone: two successful runs on equal
/// graphs produce identical matrices.
pub proof fn lemma_johnson_deterministic(g: SimpleGraph, m1: Seq<Vec<i64>>, m2: Seq<Vec<i64>>)
    requires
        johnson_matrix_post(g, m1),
        johnson_matrix_post(g, m2),
    ensures
        m1.len() == m2.len(),
        forall|i: int| 0 <= i < m1.len() ==> (#[trigger] m1[i])@ == m2[i]@,
{
    assert forall|i: int| 0 <= i < m1.len() implies (#[trigger] m1[i])@ == m2[i]@ by {
        lemma_shortest_unique(
            graph_arcs(g),
            g.size as nat,
            i as usize,
            to_dists(m1[i]@),
            to_dists(m2[i]@),
        );
        assert forall|t: int| 0 <= t < m1[i]@.len() implies m1[i]@[t] == m2[i]@[t] by {
            assert(to_dists(m1[i]@)[t] == to_dists(m2[i]@)[t]);
        }
        assert(m1[i]@ =~= m2[i]@);
    }
}

/// A graph that yields a matrix holds no negative cycle; contrapositively, a
/// graph with a negative cycle is always answered with `None`, never with a
/// finite (wrong) matrix.
pub proof fn lemma_johnson_rejects_negative_cycle(g: SimpleGraph, m: Seq<Vec<i64>>)
    requires
        johnson_matrix_post(g, m),
    ensures
        !has_negative_cycle(graph_arcs(g), g.size as nat),
{
    let p = choose|p: Seq<int>| #[trigger] valid_potential(graph_arcs(g), g.size as nat, p);
    lemma_potential_no_negative_cycle(graph_arcs(g), g.size as nat, p);
}

/// Bellman-Ford and Dijkstra agree: on a graph without negative edge lengths,
/// a converged Bellman-Ford round and any vector satisfying the
/// shortest-distance characterisation over the same graph are equal.
pub proof fn lemma_bellman_dijkstra_agree(g: SimpleGraph, src: usize, k: nat, d: Seq<int>)
    requires
        graph_wf(g),
        graph_bounded(g, MAX_EDGE_LEN),
        forall|j: int| 0 <= j < g.edges@.len() ==> (#[trigger] g.edges@[j]).length >= 0,
        g.size <= usize::MAX,
        src < g.size,
        bf_round(
            income_prefix(g, g.edges@.len() as int),
            bf_steps(
                income_prefix(g, g.edges@.len() as int),
                g.size as nat,
                src as int,
                k,
            ),
        ) == bf_steps(income_prefix(g, g.edges@.len() as int), g.size as nat, src as int, k),
        shortest_from(graph_arcs(g), g.size as nat, src, d),
    ensures
        bf_steps(income_prefix(g, g.edges@.len() as int), g.size as nat, src as int, k) == d,
{
    let view = income_prefix(g, g.edges@.len() as int);
    lemma_income_view_wf(g, g.edges@.len() as int, MAX_EDGE_LEN);
    assert(adj_bounded(view, 0, i64::MAX)) by {
        lemma_income_nonneg(g, g.edges@.len() as int);
    }
    lemma_bf_fixed_shortest(view, g.size as nat, src as int, k);
    lemma_income_prefix_arcs(g, g.edges@.len() as int);
    lemma_shortest_unique(
        graph_arcs(g),
        g.size as nat,
        src,
        bf_steps(view, g.size as nat, src as int, k),
        d,
    );
}

proof fn lemma_income_nonneg(g: SimpleGraph, n: int)
    requires
        graph_wf(g),
        forall|k: int| 0 <= k < g.edges@.len() ==> (#[trigger] g.edges@[k]).length >= 0,
        0 <= n <= g.edges@.len(),
    ensures
        adj_bounded(income_prefix(g, n), 0, i64::MAX),
        income_prefix(g, n).len() == g.size,
    decreases n,
{
    if n > 0 {
        lemma_income_nonneg(g, n - 1);
        let prev = income_prefix(g, n - 1);
        let curv = income_prefix(g, n);
        let e = g.edges@[n - 1];
        assert forall|i: int, k: int|
            0 <= i < curv.len() && 0 <= k < curv[i].len() implies 0 <= (
        #[trigger] curv[i][k]).length && curv[i][k].length <= i64::MAX by {
            if g.is_directed {
                if i == e.to as int && k == prev[i].len() {
                } else {
                    assert(curv[i][k] == prev[i][k]);
                }
            } else {
                let mid = prev.update(
                    e.from as int,
                    prev[e.from as int].push(
                        crate::graph_representations::AdjacencyListEdge {
                            length: e.length,
                            from_or_to: e.to,
                        },
                    ),
                );
                if i == e.to as int && k == mid[i].len() {
                } else {
                    assert(curv[i][k] == mid[i][k]);
                    if i == e.from as int && k == prev[i].len() {
                    } else {
                        assert(mid[i][k] == prev[i][k]);
                    }
                }
            }
        }
    }
}

/// Reweighting preserves relative order of potential-adjusted distances: two
/// finite reweighted distances compare exactly as the true distances do after
/// subtracting each vertex's potential.
pub proof fn lemma_reweighted_order(
    p: Seq<int>,
    src: usize,
    u: usize,
    v: usize,
    true_u: int,
    true_v: int,
)
    requires
        (src as int) < p.len(),
        (u as int) < p.len(),
        (v as int) < p.len(),
    ensures
        (true_u - p[u as int] + p[src as int]) <= (true_v - p[v as int] + p[src as int]) <==> (
        true_u - p[u as int]) <= (true_v - p[v as int]),
{
}

} // verus!
