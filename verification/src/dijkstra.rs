//! Decrease-key Dijkstra over non-negative edge lengths, with optional
//! recovery of true distances from reweighted lengths.
//!
//! Each loop iteration pops one vertex from the indexed heap and finalizes
//! it; the sequence of finalized keys is proved non-decreasing, so the
//! monotonicity check that guards against a negative edge can never fire.
//! The returned vector is proved to satisfy `shortest_from`, the canonical
//! characterisation of shortest distances, which pins it down uniquely.

use vstd::prelude::*;

use crate::graph_representations::adj_bounded;
use crate::graph_representations::adj_wf;
use crate::graph_representations::AdjacencyListEdge;
use crate::graph_representations::AdjacencyListGraphOutcome;
use crate::graph_representations::MAX_GRAPH_SIZE;
use crate::paths::lemma_path_extend;
use crate::paths::lemma_reaches_self;
use crate::paths::outgoing_arcs;
use crate::paths::reaches_with_cost;
use crate::paths::sat_add;
use crate::paths::shortest_from;
use crate::paths::to_dists;
use crate::paths::unreachable_dist;
use crate::updatable_heap::lemma_length_zero_empty;
use crate::updatable_heap::UpdateableHeap;
use crate::updatable_heap::BIGGEST_NUMBER;

verus! {

/// Largest edge length Dijkstra accepts. It leaves room for reweighted
/// lengths, which add two potentials to an original length, while keeping
/// every key sum below the sentinel.
pub const MAX_REWEIGHTED_LEN: i64 = 0x4000_0000_0000;

/// Largest potential magnitude accepted when recovering true distances.
pub const MAX_POTENTIAL: i64 = 0x2000_0000_0000;

/// The adjacency rows of an outgoing projection, as a sequence of sequences.
pub open spec fn rows_view(adj: Vec<Vec<AdjacencyListEdge>>) -> Seq<Seq<AdjacencyListEdge>> {
    Seq::new(adj@.len() as nat, |i: int| adj@[i]@)
}

/// One relaxation obligation of a finalized vertex `v` along its `k`-th
/// outgoing edge: the target's final score, or else its current key, is no
/// worse than the score of `v` plus the edge length.
pub open spec fn relax_ok(
    view: Seq<Seq<AdjacencyListEdge>>,
    cm: Map<usize, (i64, usize)>,
    popped: Set<usize>,
    scores: Seq<i64>,
    v: usize,
    k: int,
) -> bool {
    let e = view[v as int][k];
    if popped.contains(e.from_or_to) {
        scores[e.from_or_to as int] as int <= scores[v as int] + e.length
    } else {
        cm.contains_key(e.from_or_to) && (cm[e.from_or_to].0 as int) <= scores[v as int] + e.length
    }
}

/// Every vertex of `done` with a finite score has relaxed all its edges,
/// with targets judged against `popped`.
pub open spec fn closure_over(
    view: Seq<Seq<AdjacencyListEdge>>,
    cm: Map<usize, (i64, usize)>,
    done: Set<usize>,
    popped: Set<usize>,
    scores: Seq<i64>,
) -> bool {
    forall|v: usize, k: int|
        done.contains(v) && (v as int) < scores.len() && scores[v as int] != BIGGEST_NUMBER && 0
            <= k < view[v as int].len() ==> #[trigger] relax_ok(view, cm, popped, scores, v, k)
}

/// Every finalized vertex with a finite score has relaxed all its edges.
pub open spec fn finalized_closure(
    view: Seq<Seq<AdjacencyListEdge>>,
    cm: Map<usize, (i64, usize)>,
    popped: Set<usize>,
    scores: Seq<i64>,
) -> bool {
    closure_over(view, cm, popped, popped, scores)
}

/// Every live finite key is witnessed by a path of exactly that cost.
pub open spec fn live_witness(
    arcs: Set<(usize, usize, i64)>,
    size: nat,
    src: usize,
    cm: Map<usize, (i64, usize)>,
) -> bool {
    forall|id: usize|
        #[trigger] cm.contains_key(id) && cm[id].0 != BIGGEST_NUMBER ==> reaches_with_cost(
            arcs,
            size,
            src,
            id,
            cm[id].0 as int,
        )
}

/// Every finalized finite score is witnessed by a path of exactly that cost.
pub open spec fn popped_witness(
    arcs: Set<(usize, usize, i64)>,
    size: nat,
    src: usize,
    popped: Set<usize>,
    scores: Seq<i64>,
) -> bool {
    forall|v: usize|
        #[trigger] popped.contains(v) && (v as int) < scores.len() && scores[v as int]
            != BIGGEST_NUMBER ==> reaches_with_cost(arcs, size, src, v, scores[v as int] as int)
}

/// Standard Dijkstra over the outgoing projection; entry `v` of the result is
/// the least cost of a path from `source` to `v`, or the infinite sentinel
/// when no path exists.
pub fn dijkstra(graph: &AdjacencyListGraphOutcome, source: usize) -> (r: Vec<i64>)
    requires
        graph.edges@.len() == graph.size,
        adj_wf(graph.edges_view(), graph.size as nat),
        adj_bounded(graph.edges_view(), 0, MAX_REWEIGHTED_LEN),
        graph.size <= MAX_GRAPH_SIZE,
        source < graph.size,
    ensures
        r@.len() == graph.size,
        shortest_from(
            outgoing_arcs(graph.edges_view()),
            graph.size as nat,
            source,
            to_dists(r@),
        ),
        forall|v: int| 0 <= v < r@.len() ==> 0 <= #[trigger] r@[v],
{
    shortest_path(graph, source)
}

/// Runs Dijkstra over reweighted edge lengths and recovers true distances:
/// entry `v` is the reweighted distance shifted back by
/// `reweight_vec[v] - reweight_vec[source]`, with unreachable entries kept at
/// the sentinel.
pub fn dijkstra_with_reweighting(
    graph: &AdjacencyListGraphOutcome,
    source: usize,
    reweight_vec: &Vec<i64>,
) -> (r: Vec<i64>)
    requires
        graph.edges@.len() == graph.size,
        adj_wf(graph.edges_view(), graph.size as nat),
        adj_bounded(graph.edges_view(), 0, MAX_REWEIGHTED_LEN),
        graph.size <= MAX_GRAPH_SIZE,
        source < graph.size,
        reweight_vec@.len() >= graph.size,
        forall|j: int|
            0 <= j < reweight_vec@.len() ==> -MAX_POTENTIAL <= #[trigger] reweight_vec@[j]
                && reweight_vec@[j] <= MAX_POTENTIAL,
    ensures
        r@.len() == graph.size,
        exists|d: Seq<int>|
            #[trigger] shortest_from(
                outgoing_arcs(graph.edges_view()),
                graph.size as nat,
                source,
                d,
            ) && (forall|t: int|
                0 <= t < d.len() ==> #[trigger] d[t] == unreachable_dist() || (0 <= d[t] && d[t]
                    <= (graph.size as int) * (MAX_REWEIGHTED_LEN as int))) && (forall|t: int|
                0 <= t < r@.len() ==> (#[trigger] r@[t]) as int == (if d[t] == unreachable_dist() {
                    unreachable_dist()
                } else {
                    d[t] + reweight_vec@[t] - reweight_vec@[source as int]
                })),
{
    let size = graph.size;
    let scores = dijkstra_core(&graph.edges, source);
    proof {
        assert(rows_view(graph.edges) =~= graph.edges_view());
    }
    let ghost d = to_dists(scores@);
    let mut real_scores: Vec<i64> = Vec::with_capacity(size);
    let mut v: usize = 0;
    while v < size
        invariant
            v <= size,
            size == graph.size,
            size <= MAX_GRAPH_SIZE,
            scores@.len() == size,
            reweight_vec@.len() >= size,
            source < size,
            forall|j: int|
                0 <= j < reweight_vec@.len() ==> -MAX_POTENTIAL <= #[trigger] reweight_vec@[j]
                    && reweight_vec@[j] <= MAX_POTENTIAL,
            forall|t: int|
                0 <= t < scores@.len() ==> #[trigger] scores@[t] == BIGGEST_NUMBER || (0
                    <= scores@[t] && scores@[t] as int <= (size as int) * (
                MAX_REWEIGHTED_LEN as int)),
            d == to_dists(scores@),
            real_scores@.len() == v,
            forall|t: int|
                0 <= t < v ==> (#[trigger] real_scores@[t]) as int == (if d[t]
                    == unreachable_dist() {
                    unreachable_dist()
                } else {
                    d[t] + reweight_vec@[t] - reweight_vec@[source as int]
                }),
        decreases size - v,
    {
        proof {
            assert((size as int) * (MAX_REWEIGHTED_LEN as int) <= (MAX_GRAPH_SIZE as int) * (
            MAX_REWEIGHTED_LEN as int)) by (nonlinear_arith)
                requires
                    0 <= size as int <= MAX_GRAPH_SIZE as int,
                    MAX_REWEIGHTED_LEN as int > 0,
            ;
        }
        let s = scores[v];
        if s == BIGGEST_NUMBER {
            real_scores.push(BIGGEST_NUMBER);
        } else {
            real_scores.push(s + reweight_vec[v] - reweight_vec[source]);
        }
        v = v + 1;
    }
    proof {
        assert forall|t: int| 0 <= t < d.len() implies #[trigger] d[t] == unreachable_dist() || (0
            <= d[t] && d[t] <= (graph.size as int) * (MAX_REWEIGHTED_LEN as int)) by {
            assert(d[t] == scores@[t] as int);
        }
    }
    real_scores
}

/// The Dijkstra main loop shared by the plain and the reweighted entry
/// points.
fn shortest_path(graph: &AdjacencyListGraphOutcome, src: usize) -> (r: Vec<i64>)
    requires
        graph.edges@.len() == graph.size,
        adj_wf(graph.edges_view(), graph.size as nat),
        adj_bounded(graph.edges_view(), 0, MAX_REWEIGHTED_LEN),
        graph.size <= MAX_GRAPH_SIZE,
        src < graph.size,
    ensures
        r@.len() == graph.size,
        shortest_from(outgoing_arcs(graph.edges_view()), graph.size as nat, src, to_dists(r@)),
        forall|v: int| 0 <= v < r@.len() ==> 0 <= #[trigger] r@[v],
        forall|t: int|
            0 <= t < r@.len() ==> #[trigger] r@[t] == BIGGEST_NUMBER || (0 <= r@[t] && r@[t] as int
                <= (graph.size as int) * (MAX_REWEIGHTED_LEN as int)),
{
    let r = dijkstra_core(&graph.edges, src);
    proof {
        assert(rows_view(graph.edges) =~= graph.edges_view());
    }
    r
}

/// Pops one vertex per iteration, finalizing its score, and relaxes its
/// outgoing edges through decrease-key; stops early once only unreachable
/// vertices remain. Finalized keys never decrease: the monotonicity
/// invariant that would signal a negative edge is proved, not checked at
/// run time.
#[verifier::rlimit(100)]
fn dijkstra_core(adj: &Vec<Vec<AdjacencyListEdge>>, src: usize) -> (r: Vec<i64>)
    requires
        adj@.len() <= MAX_GRAPH_SIZE,
        src < adj@.len(),
        adj_wf(rows_view(*adj), adj@.len() as nat),
        adj_bounded(rows_view(*adj), 0, MAX_REWEIGHTED_LEN),
    ensures
        r@.len() == adj@.len(),
        shortest_from(outgoing_arcs(rows_view(*adj)), adj@.len() as nat, src, to_dists(r@)),
        forall|v: int| 0 <= v < r@.len() ==> 0 <= #[trigger] r@[v],
        forall|t: int|
            0 <= t < r@.len() ==> #[trigger] r@[t] == BIGGEST_NUMBER || (0 <= r@[t] && r@[t] as int
                <= (adj@.len() as int) * (MAX_REWEIGHTED_LEN as int)),
{
    let size = adj.len();
    let ghost view = rows_view(*adj);
    let ghost arcs = outgoing_arcs(view);
    let ghost gsize = size as nat;

    let mut vertex_heap: UpdateableHeap<usize> = UpdateableHeap::new(size);
    vertex_heap.fill();
    proof {
        assert(vertex_heap.contents().contains_key(src));
        assert(vertex_heap.contents()[src].0 == BIGGEST_NUMBER);
    }
    vertex_heap.decrease_by_idx(src, 0, 0);
    proof {
        assert(vertex_heap.contents().contains_key(src));
        assert(vertex_heap.contents()[src].0 == 0);
    }
    let mut scores: Vec<i64> = vec![BIGGEST_NUMBER; size];
    let mut max_scores: i64 = 0;
    let ghost mut popped: Set<usize> = Set::empty();
    let mut it: usize = 0;

    proof {
        lemma_reaches_self(arcs, gsize, src);
        assert((MAX_GRAPH_SIZE as int) * (MAX_REWEIGHTED_LEN as int) == 0x4000_0000_0000_0000);
    }

    while it < size
        invariant_except_break
            forall|v: usize|
                popped.contains(v) ==> #[trigger] scores@[v as int] != BIGGEST_NUMBER,
            vertex_heap.length() == size - it,
        invariant
            it <= size,
            size == adj@.len(),
            view == rows_view(*adj),
            arcs == outgoing_arcs(view),
            gsize == size as nat,
            size <= MAX_GRAPH_SIZE,
            src < size,
            adj_wf(view, gsize),
            adj_bounded(view, 0, MAX_REWEIGHTED_LEN),
            scores@.len() == size,
            vertex_heap.wf(),
            vertex_heap.cap() == size,
            forall|id: usize|
                #[trigger] vertex_heap.contents().contains_key(id) <==> (id < size
                    && !popped.contains(id)),
            forall|v: usize| #[trigger] popped.contains(v) ==> v < size,
            forall|v: usize|
                v < size && !popped.contains(v) ==> #[trigger] scores@[v as int] == BIGGEST_NUMBER,
            forall|v: usize|
                #[trigger] popped.contains(v) ==> scores@[v as int] == BIGGEST_NUMBER || (0
                    <= scores@[v as int] && scores@[v as int] <= max_scores),
            0 <= max_scores,
            max_scores as int <= (it as int) * (MAX_REWEIGHTED_LEN as int),
            forall|id: usize|
                #[trigger] vertex_heap.contents().contains_key(id) ==> (
                vertex_heap.contents()[id].0 as int) >= max_scores as int,
            forall|id: usize|
                #[trigger] vertex_heap.contents().contains_key(id)
                    ==> vertex_heap.contents()[id].0 == BIGGEST_NUMBER || (0
                    <= vertex_heap.contents()[id].0 && (vertex_heap.contents()[id].0 as int)
                    <= max_scores as int + MAX_REWEIGHTED_LEN as int),
            finalized_closure(view, vertex_heap.contents(), popped, scores@),
            live_witness(arcs, gsize, src, vertex_heap.contents()),
            popped_witness(arcs, gsize, src, popped, scores@),
            if popped.contains(src) {
                scores@[src as int] == 0
            } else {
                vertex_heap.contents().contains_key(src) && vertex_heap.contents()[src].0 == 0
            },
        ensures
            scores@.len() == size,
            forall|v: usize| #[trigger] popped.contains(v) ==> v < size,
            forall|v: usize|
                v < size && !popped.contains(v) ==> #[trigger] scores@[v as int] == BIGGEST_NUMBER,
            forall|v: usize|
                #[trigger] popped.contains(v) ==> scores@[v as int] == BIGGEST_NUMBER || (0
                    <= scores@[v as int] && scores@[v as int] <= max_scores),
            0 <= max_scores,
            max_scores as int <= (size as int) * (MAX_REWEIGHTED_LEN as int),
            forall|id: usize|
                #[trigger] vertex_heap.contents().contains_key(id) <==> (id < size
                    && !popped.contains(id)),
            finalized_closure(view, vertex_heap.contents(), popped, scores@),
            popped_witness(arcs, gsize, src, popped, scores@),
            if popped.contains(src) {
                scores@[src as int] == 0
            } else {
                vertex_heap.contents().contains_key(src) && vertex_heap.contents()[src].0 == 0
            },
            vertex_heap.length() == 0 || (forall|id: usize|
                #[trigger] vertex_heap.contents().contains_key(id)
                    ==> vertex_heap.contents()[id].0 == BIGGEST_NUMBER),
        decreases size - it,
    {
        proof {
            assert((it as int) * (MAX_REWEIGHTED_LEN as int) + MAX_REWEIGHTED_LEN as int == ((it
                + 1) as int) * (MAX_REWEIGHTED_LEN as int)) by (nonlinear_arith);
            assert(((it + 1) as int) * (MAX_REWEIGHTED_LEN as int) <= (MAX_GRAPH_SIZE as int) * (
            MAX_REWEIGHTED_LEN as int)) by (nonlinear_arith)
                requires
                    0 <= it as int && (it as int) + 1 <= MAX_GRAPH_SIZE as int,
                    MAX_REWEIGHTED_LEN as int > 0,
            ;
        }
        let ghost pre_heap = vertex_heap;
        let ghost popped_pre = popped;
        let elem = vertex_heap.get_and_remove_min();
        let active_vertex = elem.idx;
        let active_scores = elem.ordering_key;
        proof {
            assert(pre_heap.contents().contains_key(active_vertex));
            assert(active_vertex < size && !popped_pre.contains(active_vertex));
            assert(active_scores as int >= max_scores as int);
            popped = popped_pre.insert(active_vertex);
        }

        if active_scores == BIGGEST_NUMBER {
            proof {
                assert forall|id: usize|
                    #[trigger] vertex_heap.contents().contains_key(
                        id,
                    ) implies vertex_heap.contents()[id].0 == BIGGEST_NUMBER by {
                    assert(vertex_heap.contents()[id] == pre_heap.contents()[id]);
                    assert(active_scores <= vertex_heap.contents()[id].0);
                }
                assert(popped.contains(src)) by {
                    if !popped.contains(src) {
                        assert(vertex_heap.contents().contains_key(src));
                        assert(vertex_heap.contents()[src].0 == 0);
                    }
                }
                assert(finalized_closure(view, vertex_heap.contents(), popped, scores@)) by {
                    assert forall|v: usize, k: int|
                        popped.contains(v) && (v as int) < scores@.len() && scores@[v as int]
                            != BIGGEST_NUMBER && 0 <= k < view[v as int].len() implies #[trigger] relax_ok(
                        view,
                        vertex_heap.contents(),
                        popped,
                        scores@,
                        v,
                        k,
                    ) by {
                        assert(v != active_vertex);
                        assert(popped_pre.contains(v));
                        assert(relax_ok(view, pre_heap.contents(), popped_pre, scores@, v, k));
                        let e = view[v as int][k];
                        if e.from_or_to == active_vertex {
                            assert(pre_heap.contents()[active_vertex].0 == active_scores);
                            assert(scores@[v as int] <= max_scores);
                            assert(max_scores as int + (e.length as int) <= (it as int) * (
                            MAX_REWEIGHTED_LEN as int) + MAX_REWEIGHTED_LEN as int);
                            assert(false);
                        } else if !popped_pre.contains(e.from_or_to) {
                            assert(vertex_heap.contents().contains_key(e.from_or_to));
                            assert(vertex_heap.contents()[e.from_or_to]
                                == pre_heap.contents()[e.from_or_to]);
                        }
                    }
                }
            }
            break ;
        }
        max_scores = active_scores;
        let ghost scores_pre = scores@;
        scores[active_vertex] = active_scores;
        proof {
            assert(reaches_with_cost(arcs, gsize, src, active_vertex, active_scores as int)) by {
                assert(pre_heap.contents()[active_vertex].0 == active_scores);
            }
            if active_vertex == src {
                assert(pre_heap.contents()[src].0 == 0);
            }
            assert(closure_over(view, vertex_heap.contents(), popped_pre, popped, scores@)) by {
                assert forall|v: usize, k: int|
                    popped_pre.contains(v) && (v as int) < scores@.len() && scores@[v as int]
                        != BIGGEST_NUMBER && 0 <= k < view[v as int].len() implies #[trigger] relax_ok(
                    view,
                    vertex_heap.contents(),
                    popped,
                    scores@,
                    v,
                    k,
                ) by {
                    assert(v != active_vertex);
                    assert(scores_pre[v as int] == scores@[v as int]);
                    assert(relax_ok(view, pre_heap.contents(), popped_pre, scores_pre, v, k));
                    let e = view[v as int][k];
                    if e.from_or_to == active_vertex {
                        assert(pre_heap.contents()[active_vertex].0 == active_scores);
                        assert(scores@[active_vertex as int] == active_scores);
                    } else {
                        if !popped_pre.contains(e.from_or_to) {
                            assert(vertex_heap.contents().contains_key(e.from_or_to));
                            assert(vertex_heap.contents()[e.from_or_to]
                                == pre_heap.contents()[e.from_or_to]);
                        } else {
                            assert(scores@[e.from_or_to as int] == scores_pre[e.from_or_to as int]);
                        }
                    }
                }
            }
        }

        let row_len = adj[active_vertex].len();
        let mut k: usize = 0;
        while k < row_len
            invariant
                k <= row_len,
                size == adj@.len(),
                view == rows_view(*adj),
                arcs == outgoing_arcs(view),
                gsize == size as nat,
                size <= MAX_GRAPH_SIZE,
                src < size,
                adj_wf(view, gsize),
                adj_bounded(view, 0, MAX_REWEIGHTED_LEN),
                it < size,
                scores@.len() == size,
                active_vertex < size,
                popped.contains(active_vertex),
                row_len == view[active_vertex as int].len(),
                scores@[active_vertex as int] == active_scores,
                max_scores == active_scores,
                0 <= max_scores,
                max_scores as int <= ((it + 1) as int) * (MAX_REWEIGHTED_LEN as int),
                ((it + 1) as int) * (MAX_REWEIGHTED_LEN as int) <= (MAX_GRAPH_SIZE as int) * (
                MAX_REWEIGHTED_LEN as int),
                (MAX_GRAPH_SIZE as int) * (MAX_REWEIGHTED_LEN as int) == 0x4000_0000_0000_0000,
                vertex_heap.wf(),
                vertex_heap.cap() == size,
                vertex_heap.length() == size - it - 1,
                forall|id: usize|
                    #[trigger] vertex_heap.contents().contains_key(id) <==> (id < size
                        && !popped.contains(id)),
                forall|v: usize| #[trigger] popped.contains(v) ==> v < size,
                forall|v: usize|
                    v < size && !popped.contains(v) ==> #[trigger] scores@[v as int]
                        == BIGGEST_NUMBER,
                forall|v: usize|
                    popped.contains(v) ==> #[trigger] scores@[v as int] != BIGGEST_NUMBER,
                forall|v: usize|
                    #[trigger] popped.contains(v) ==> scores@[v as int] == BIGGEST_NUMBER || (0
                        <= scores@[v as int] && scores@[v as int] <= max_scores),
                forall|id: usize|
                    #[trigger] vertex_heap.contents().contains_key(id) ==> (
                    vertex_heap.contents()[id].0 as int) >= max_scores as int,
                forall|id: usize|
                    #[trigger] vertex_heap.contents().contains_key(id)
                        ==> vertex_heap.contents()[id].0 == BIGGEST_NUMBER || (0
                        <= vertex_heap.contents()[id].0 && (vertex_heap.contents()[id].0 as int)
                        <= max_scores as int + MAX_REWEIGHTED_LEN as int),
                closure_over(view, vertex_heap.contents(), popped_pre, popped, scores@),
                forall|kk: int|
                    0 <= kk < k ==> #[trigger] relax_ok(
                        view,
                        vertex_heap.contents(),
                        popped,
                        scores@,
                        active_vertex,
                        kk,
                    ),
                live_witness(arcs, gsize, src, vertex_heap.contents()),
                popped_witness(arcs, gsize, src, popped, scores@),
                reaches_with_cost(arcs, gsize, src, active_vertex, active_scores as int),
                if popped.contains(src) {
                    scores@[src as int] == 0
                } else {
                    vertex_heap.contents().contains_key(src) && vertex_heap.contents()[src].0 == 0
                },
            decreases row_len - k,
        {
            let e = adj[active_vertex][k];
            proof {
                assert(e == view[active_vertex as int][k as int]);
                assert(e.from_or_to < size);
                assert(0 <= e.length <= MAX_REWEIGHTED_LEN);
                assert(view[active_vertex as int].contains(e));
                assert(arcs.contains((active_vertex, e.from_or_to, e.length)));
            }
            let cand = active_scores + e.length;
            let ghost heap_pre = vertex_heap;
            vertex_heap.decrease_by_idx(e.from_or_to, cand, 0);
            proof {
                let t = e.from_or_to;
                let updated = heap_pre.contents().contains_key(t) && cand
                    < heap_pre.contents()[t].0;
                if updated {
                    assert(vertex_heap.contents() == heap_pre.contents().insert(
                        t,
                        (cand, 0usize),
                    ));
                    assert(cand < BIGGEST_NUMBER);
                    lemma_path_extend(arcs, gsize, src, active_vertex, t, e.length, active_scores as int);
                } else {
                    assert(vertex_heap.contents() == heap_pre.contents());
                }
                assert forall|kk: int| 0 <= kk < k + 1 implies #[trigger] relax_ok(
                    view,
                    vertex_heap.contents(),
                    popped,
                    scores@,
                    active_vertex,
                    kk,
                ) by {
                    if kk < k {
                        assert(relax_ok(view, heap_pre.contents(), popped, scores@, active_vertex, kk));
                        let e2 = view[active_vertex as int][kk];
                        if updated && e2.from_or_to == t {
                            assert(cand <= heap_pre.contents()[t].0);
                        }
                    } else {
                        if popped.contains(t) {
                            assert(scores@[t as int] <= max_scores);
                        } else {
                            assert(heap_pre.contents().contains_key(t));
                            if !updated {
                                assert(heap_pre.contents()[t].0 <= cand);
                            }
                        }
                    }
                }
                assert(closure_over(view, vertex_heap.contents(), popped_pre, popped, scores@))
                    by {
                    assert forall|v: usize, kk: int|
                        popped_pre.contains(v) && (v as int) < scores@.len()
                            && scores@[v as int] != BIGGEST_NUMBER && 0 <= kk < view[v as int].len() implies #[trigger] relax_ok(
                        view,
                        vertex_heap.contents(),
                        popped,
                        scores@,
                        v,
                        kk,
                    ) by {
                        assert(relax_ok(view, heap_pre.contents(), popped, scores@, v, kk));
                        let e2 = view[v as int][kk];
                        if updated && e2.from_or_to == t && !popped.contains(t) {
                            assert(cand <= heap_pre.contents()[t].0);
                        }
                    }
                }
            }
            k = k + 1;
        }
        proof {
            assert(finalized_closure(view, vertex_heap.contents(), popped, scores@)) by {
                assert forall|v: usize, kk: int|
                    popped.contains(v) && (v as int) < scores@.len() && scores@[v as int]
                        != BIGGEST_NUMBER && 0 <= kk < view[v as int].len() implies #[trigger] relax_ok(
                    view,
                    vertex_heap.contents(),
                    popped,
                    scores@,
                    v,
                    kk,
                ) by {
                    if v == active_vertex {
                        assert(relax_ok(view, vertex_heap.contents(), popped, scores@, active_vertex, kk));
                    } else {
                        assert(popped_pre.contains(v));
                        assert(relax_ok(view, vertex_heap.contents(), popped, scores@, v, kk));
                    }
                }
            }
        }
        it = it + 1;
    }

    proof {
        let sd = to_dists(scores@);
        assert(sd.len() == size);
        assert forall|v: usize| v < size implies popped.contains(v) || (forall|id: usize|
            #[trigger] vertex_heap.contents().contains_key(id)
                ==> vertex_heap.contents()[id].0 == BIGGEST_NUMBER) by {
            if vertex_heap.length() == 0 {
                lemma_length_zero_empty(vertex_heap);
                if !popped.contains(v) {
                    assert(vertex_heap.contents().contains_key(v));
                }
            }
        }
        assert(popped.contains(src)) by {
            if !popped.contains(src) {
                assert(vertex_heap.contents().contains_key(src));
                assert(vertex_heap.contents()[src].0 == 0);
                if vertex_heap.length() == 0 {
                    lemma_length_zero_empty(vertex_heap);
                }
            }
        }
        assert(sd[src as int] == 0);
        assert forall|v: int| 0 <= v < sd.len() implies #[trigger] sd[v] <= unreachable_dist() by {
            assert(scores@[v] <= BIGGEST_NUMBER);
        }
        assert forall|u: usize, v: usize, w: i64|
            #[trigger] arcs.contains((u, v, w)) && (u as int) < sd.len() && (v as int)
                < sd.len() implies sd[v as int] <= sat_add(sd[u as int], w as int) by {
            if scores@[u as int] != BIGGEST_NUMBER {
                assert(popped.contains(u));
                let row = view[u as int];
                let kk = choose|kk: int|
                    0 <= kk < row.len() && row[kk] == (AdjacencyListEdge {
                        length: w,
                        from_or_to: v,
                    });
                assert(relax_ok(view, vertex_heap.contents(), popped, scores@, u, kk));
                if !popped.contains(v) {
                    assert(vertex_heap.contents().contains_key(v));
                    assert(vertex_heap.contents()[v].0 as int <= scores@[u as int] + w);
                    assert(scores@[u as int] <= max_scores);
                    assert(vertex_heap.contents()[v].0 == BIGGEST_NUMBER);
                    assert(max_scores as int + w <= (size as int) * (MAX_REWEIGHTED_LEN as int)
                        + MAX_REWEIGHTED_LEN as int);
                    assert((size as int) * (MAX_REWEIGHTED_LEN as int) <= 0x4000_0000_0000_0000) by (nonlinear_arith)
                        requires
                            0 <= size as int <= MAX_GRAPH_SIZE as int,
                            MAX_REWEIGHTED_LEN as int > 0,
                            (MAX_GRAPH_SIZE as int) * (MAX_REWEIGHTED_LEN as int)
                                == 0x4000_0000_0000_0000,
                    ;
                }
                assert(popped.contains(v));
                assert(scores@[v as int] as int <= scores@[u as int] + w);
            }
        }
        assert forall|v: int|
            0 <= v < sd.len() && #[trigger] sd[v] != unreachable_dist() implies reaches_with_cost(
            arcs,
            gsize,
            src,
            v as usize,
            sd[v],
        ) by {
            assert(scores@[v] != BIGGEST_NUMBER);
            assert(popped.contains(v as usize));
        }
        assert(shortest_from(arcs, gsize, src, sd));
        assert forall|v: int| 0 <= v < scores@.len() implies 0 <= #[trigger] scores@[v] by {
            if scores@[v] != BIGGEST_NUMBER {
                assert(popped.contains(v as usize));
            }
        }
    }
    scores
}

} // verus!
