//! Single-source shortest paths over a plain adjacency-pairs graph.
//!
//! The graph stores, for each vertex, its outgoing `(target, length)` pairs
//! with unsigned lengths. The run converts the rows into the shared adjacency
//! representation and hands them to the verified Dijkstra loop.

use vstd::prelude::*;

use crate::dijkstra::dijkstra;
use crate::dijkstra::MAX_REWEIGHTED_LEN;
use crate::graph_representations::adj_bounded;
use crate::graph_representations::adj_wf;
use crate::graph_representations::AdjacencyListEdge;
use crate::graph_representations::AdjacencyListGraphOutcome;
use crate::graph_representations::MAX_GRAPH_SIZE;
use crate::paths::outgoing_arcs;
use crate::paths::shortest_from;
use crate::paths::to_dists;

verus! {

pub struct Graph {
    pub edges: Vec<Vec<(usize, usize)>>,
    pub size: usize,
}

/// The adjacency rows of the pair representation, as shared adjacency edges.
pub open spec fn pair_rows(g: Graph) -> Seq<Seq<AdjacencyListEdge>> {
    Seq::new(
        g.edges@.len() as nat,
        |i: int|
            g.edges@[i]@.map_values(
                |p: (usize, usize)|
                    AdjacencyListEdge { length: p.1 as i64, from_or_to: p.0 },
            ),
    )
}

/// Every stored pair names an existing vertex and a bounded length.
pub open spec fn pair_graph_wf(g: Graph) -> bool {
    &&& g.edges@.len() == g.size
    &&& g.size <= MAX_GRAPH_SIZE
    &&& forall|i: int, k: int|
        0 <= i < g.edges@.len() && 0 <= k < g.edges@[i]@.len() ==> (#[trigger] g.edges@[i]@[k]).0
            < g.size && g.edges@[i]@[k].1 <= MAX_REWEIGHTED_LEN as usize
}

/// Dijkstra from `src`: entry `v` of the result is the least cost of a path
/// from `src` to `v`, or the infinite sentinel when no path exists.
pub fn shortest_path(graph: Graph, src: usize) -> (r: Vec<i64>)
    requires
        pair_graph_wf(graph),
        src < graph.size,
    ensures
        r@.len() == graph.size,
        shortest_from(outgoing_arcs(pair_rows(graph)), graph.size as nat, src, to_dists(r@)),
        forall|v: int| 0 <= v < r@.len() ==> 0 <= #[trigger] r@[v],
{
    let size = graph.size;
    let mut rows: Vec<Vec<AdjacencyListEdge>> = Vec::with_capacity(size);
    let mut i: usize = 0;
    while i < size
        invariant
            i <= size,
            size == graph.size,
            pair_graph_wf(graph),
            rows@.len() == i,
            forall|j: int| 0 <= j < i ==> (#[trigger] rows@[j])@ == pair_rows(graph)[j],
        decreases size - i,
    {
        let src_row = &graph.edges[i];
        let row_len = src_row.len();
        let mut row: Vec<AdjacencyListEdge> = Vec::with_capacity(row_len);
        let mut k: usize = 0;
        while k < row_len
            invariant
                k <= row_len,
                i < size,
                size == graph.size,
                pair_graph_wf(graph),
                row_len == graph.edges@[i as int]@.len(),
                row@.len() == k,
                forall|t: int|
                    0 <= t < k ==> #[trigger] row@[t] == (AdjacencyListEdge {
                        length: graph.edges@[i as int]@[t].1 as i64,
                        from_or_to: graph.edges@[i as int]@[t].0,
                    }),
            decreases row_len - k,
        {
            let p = graph.edges[i][k];
            row.push(AdjacencyListEdge { length: p.1 as i64, from_or_to: p.0 });
            k = k + 1;
        }
        rows.push(row);
        proof {
            assert(rows@[i as int]@ =~= pair_rows(graph)[i as int]);
        }
        i = i + 1;
    }
    let outcome = AdjacencyListGraphOutcome { size, is_directed: true, edges: rows };
    proof {
        assert(outcome.edges_view() =~= pair_rows(graph));
        assert(adj_wf(outcome.edges_view(), size as nat)) by {
            assert forall|a: int, k: int|
                0 <= a < outcome.edges_view().len() && 0 <= k
                    < outcome.edges_view()[a].len() implies (
            #[trigger] outcome.edges_view()[a][k]).from_or_to < size by {
                assert(outcome.edges_view()[a][k] == (AdjacencyListEdge {
                    length: graph.edges@[a]@[k].1 as i64,
                    from_or_to: graph.edges@[a]@[k].0,
                }));
            }
        }
        assert(adj_bounded(outcome.edges_view(), 0, MAX_REWEIGHTED_LEN)) by {
            assert forall|a: int, k: int|
                0 <= a < outcome.edges_view().len() && 0 <= k
                    < outcome.edges_view()[a].len() implies 0 <= (
            #[trigger] outcome.edges_view()[a][k]).length && outcome.edges_view()[a][k].length
                <= MAX_REWEIGHTED_LEN by {
                assert(outcome.edges_view()[a][k] == (AdjacencyListEdge {
                    length: graph.edges@[a]@[k].1 as i64,
                    from_or_to: graph.edges@[a]@[k].0,
                }));
            }
        }
    }
    dijkstra(&outcome, src)
}

} // verus!
