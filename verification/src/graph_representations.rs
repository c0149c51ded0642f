//! Edge-list graphs and their two adjacency-list projections.
//!
//! A `SimpleGraph` is a mutable edge list over densely numbered vertices.
//! `AdjacencyListGraphIncome` groups edges by target vertex (walked by
//! Bellman-Ford), `AdjacencyListGraphOutcome` groups them by source vertex
//! (walked by Dijkstra). For undirected graphs every edge is inserted in both
//! directions in both projections.

use vstd::prelude::*;

verus! {

/// Largest vertex count the shortest-path routines accept; keeps every
/// distance sum comfortably inside `i64` on a 64-bit machine.
pub const MAX_GRAPH_SIZE: usize = 0x1_0000;

/// Largest edge length magnitude the shortest-path routines accept; together
/// with `MAX_GRAPH_SIZE` it bounds all intermediate arithmetic.
pub const MAX_EDGE_LEN: i64 = 0x1000_0000;

#[derive(Clone, Copy, Debug)]
pub struct Edge {
    pub from: usize,
    pub to: usize,
    pub length: i64,
}

impl Edge {
    pub fn new(from: usize, to: usize, length: i64) -> (e: Self)
        ensures
            e == (Edge { from, to, length }),
    {
        Edge { from, to, length }
    }
}

pub type Edges = Vec<Edge>;

#[derive(Clone, Copy, Debug, PartialEq, Eq, Structural)]
pub enum GraphError {
    /// An edge referenced a vertex identifier outside `0..size`.
    InvalidEdge,
}

#[derive(Debug)]
pub struct SimpleGraph {
    pub size: usize,
    pub is_directed: bool,
    pub edges: Edges,
}

/// Every edge endpoint names an existing vertex.
pub open spec fn graph_wf(g: SimpleGraph) -> bool {
    forall|k: int|
        0 <= k < g.edges@.len() ==> (#[trigger] g.edges@[k]).from < g.size && g.edges@[k].to
            < g.size
}

/// Every edge length lies in `[-bound, bound]`.
pub open spec fn graph_bounded(g: SimpleGraph, bound: i64) -> bool {
    forall|k: int|
        0 <= k < g.edges@.len() ==> -bound <= (#[trigger] g.edges@[k]).length && g.edges@[k].length
            <= bound
}

/// The edges of `es[..n]` whose endpoints are both below `size`, in order.
pub open spec fn keep_edges(es: Seq<Edge>, size: nat, n: int) -> Seq<Edge>
    decreases n,
{
    if n <= 0 {
        Seq::empty()
    } else {
        let prefix = keep_edges(es, size, n - 1);
        if es[n - 1].from < size && es[n - 1].to < size {
            prefix.push(es[n - 1])
        } else {
            prefix
        }
    }
}

impl SimpleGraph {
    pub fn new(size: usize, edges: Edges, is_directed: bool) -> (g: Self)
        ensures
            g.size == size,
            g.is_directed == is_directed,
            g.edges == edges,
    {
        SimpleGraph { size, edges, is_directed }
    }

    pub fn increase_size(&mut self, diff: usize)
        requires
            old(self).size + diff <= usize::MAX,
        ensures
            final(self).size == old(self).size + diff,
            final(self).is_directed == old(self).is_directed,
            final(self).edges == old(self).edges,
    {
        self.size = self.size + diff;
    }

    /// Appends `edge`, or reports `InvalidEdge` when an endpoint is not a
    /// vertex of the graph.
    pub fn add_edge(&mut self, edge: Edge) -> (r: Result<(), GraphError>)
        ensures
            edge.from < old(self).size && edge.to < old(self).size ==> r == Ok::<
                (),
                GraphError,
            >(()) && final(self).edges@ == old(self).edges@.push(edge) && final(self).size == old(
                self,
            ).size && final(self).is_directed == old(self).is_directed,
            !(edge.from < old(self).size && edge.to < old(self).size) ==> r == Err::<
                (),
                GraphError,
            >(GraphError::InvalidEdge) && *final(self) == *old(self),
    {
        if edge.from < self.size && edge.to < self.size {
            self.edges.push(edge);
            Ok(())
        } else {
            Err(GraphError::InvalidEdge)
        }
    }

    /// Shrinks the vertex count by `diff` and discards, keeping order, every
    /// edge that references a removed vertex.
    pub fn decrease_size(&mut self, diff: usize)
        requires
            diff <= old(self).size,
        ensures
            final(self).size == old(self).size - diff,
            final(self).is_directed == old(self).is_directed,
            final(self).edges@ == keep_edges(
                old(self).edges@,
                (old(self).size - diff) as nat,
                old(self).edges@.len() as int,
            ),
    {
        self.size = self.size - diff;
        let ghost orig = self.edges@;
        let mut kept: Edges = Vec::new();
        let n = self.edges.len();
        let mut k: usize = 0;
        while k < n
            invariant
                k <= n,
                n == self.edges@.len(),
                self.edges@ == orig,
                kept@ == keep_edges(orig, self.size as nat, k as int),
            decreases n - k,
        {
            let e = self.edges[k];
            if e.from < self.size && e.to < self.size {
                kept.push(e);
            }
            k = k + 1;
        }
        self.edges = kept;
    }
}

#[derive(Clone, Copy, Debug)]
pub struct AdjacencyListEdge {
    pub length: i64,
    pub from_or_to: usize,
}

/// Row lengths match the vertex count and every stored neighbour exists.
pub open spec fn adj_wf(view: Seq<Seq<AdjacencyListEdge>>, size: nat) -> bool {
    &&& view.len() == size
    &&& forall|i: int, k: int|
        0 <= i < view.len() && 0 <= k < view[i].len() ==> (#[trigger] view[i][k]).from_or_to < size
}

/// Every stored length lies in `[lo, hi]`.
pub open spec fn adj_bounded(
    view: Seq<Seq<AdjacencyListEdge>>,
    lo: i64,
    hi: i64,
) -> bool {
    forall|i: int, k: int|
        0 <= i < view.len() && 0 <= k < view[i].len() ==> lo <= (#[trigger] view[i][k]).length
            && view[i][k].length <= hi
}

/// One edge inserted into the incoming projection: the target row gains the
/// source; an undirected edge is inserted in both directions.
pub open spec fn income_step(
    view: Seq<Seq<AdjacencyListEdge>>,
    e: Edge,
    directed: bool,
) -> Seq<Seq<AdjacencyListEdge>> {
    if directed {
        view.update(
            e.to as int,
            view[e.to as int].push(AdjacencyListEdge { length: e.length, from_or_to: e.from }),
        )
    } else {
        let v1 = view.update(
            e.from as int,
            view[e.from as int].push(AdjacencyListEdge { length: e.length, from_or_to: e.to }),
        );
        v1.update(
            e.to as int,
            v1[e.to as int].push(AdjacencyListEdge { length: e.length, from_or_to: e.from }),
        )
    }
}

/// One edge inserted into the outgoing projection: the source row gains the
/// target; an undirected edge is inserted in both directions.
pub open spec fn outcome_step(
    view: Seq<Seq<AdjacencyListEdge>>,
    e: Edge,
    directed: bool,
) -> Seq<Seq<AdjacencyListEdge>> {
    if directed {
        view.update(
            e.from as int,
            view[e.from as int].push(AdjacencyListEdge { length: e.length, from_or_to: e.to }),
        )
    } else {
        let v1 = view.update(
            e.from as int,
            view[e.from as int].push(AdjacencyListEdge { length: e.length, from_or_to: e.to }),
        );
        v1.update(
            e.to as int,
            v1[e.to as int].push(AdjacencyListEdge { length: e.length, from_or_to: e.from }),
        )
    }
}

/// The incoming projection of the first `n` edges of `g`.
pub open spec fn income_prefix(g: SimpleGraph, n: int) -> Seq<Seq<AdjacencyListEdge>>
    decreases n,
{
    if n <= 0 {
        Seq::new(g.size as nat, |i: int| Seq::<AdjacencyListEdge>::empty())
    } else {
        income_step(income_prefix(g, n - 1), g.edges@[n - 1], g.is_directed)
    }
}

/// The outgoing projection of the first `n` edges of `g`.
pub open spec fn outcome_prefix(g: SimpleGraph, n: int) -> Seq<Seq<AdjacencyListEdge>>
    decreases n,
{
    if n <= 0 {
        Seq::new(g.size as nat, |i: int| Seq::<AdjacencyListEdge>::empty())
    } else {
        outcome_step(outcome_prefix(g, n - 1), g.edges@[n - 1], g.is_directed)
    }
}

/// The edges listed by one row of the incoming projection.
pub open spec fn income_row_edges(row: Seq<AdjacencyListEdge>, target: int) -> Seq<Edge> {
    row.map_values(
        |a: AdjacencyListEdge| Edge { to: target as usize, from: a.from_or_to, length: a.length },
    )
}

/// The edges listed by the first `n` rows of the incoming projection.
pub open spec fn income_inspect(view: Seq<Seq<AdjacencyListEdge>>, n: int) -> Seq<Edge>
    decreases n,
{
    if n <= 0 {
        Seq::empty()
    } else {
        income_inspect(view, n - 1) + income_row_edges(view[n - 1], n - 1)
    }
}

/// The edges listed by one row of the outgoing projection.
pub open spec fn outcome_row_edges(row: Seq<AdjacencyListEdge>, source: int) -> Seq<Edge> {
    row.map_values(
        |a: AdjacencyListEdge| Edge { to: a.from_or_to, from: source as usize, length: a.length },
    )
}

/// The edges listed by the first `n` rows of the outgoing projection.
pub open spec fn outcome_inspect(view: Seq<Seq<AdjacencyListEdge>>, n: int) -> Seq<Edge>
    decreases n,
{
    if n <= 0 {
        Seq::empty()
    } else {
        outcome_inspect(view, n - 1) + outcome_row_edges(view[n - 1], n - 1)
    }
}

#[derive(Debug)]
pub struct AdjacencyListGraphIncome {
    pub size: usize,
    pub is_directed: bool,
    pub edges: Vec<Vec<AdjacencyListEdge>>,
}

impl AdjacencyListGraphIncome {
    pub open spec fn edges_view(self) -> Seq<Seq<AdjacencyListEdge>> {
        Seq::new(self.edges@.len() as nat, |i: int| self.edges@[i]@)
    }

    pub fn from_simple(simple_graph: &SimpleGraph) -> (g: Self)
        requires
            graph_wf(*simple_graph),
        ensures
            g.size == simple_graph.size,
            g.is_directed == simple_graph.is_directed,
            g.edges@.len() == simple_graph.size,
            g.edges_view() == income_prefix(*simple_graph, simple_graph.edges@.len() as int),
    {
        let mut edges_list: Vec<Vec<AdjacencyListEdge>> = Vec::with_capacity(simple_graph.size);
        let mut i: usize = 0;
        while i < simple_graph.size
            invariant
                i <= simple_graph.size,
                edges_list@.len() == i,
                forall|j: int| 0 <= j < i ==> (#[trigger] edges_list@[j])@ == Seq::<
                    AdjacencyListEdge,
                >::empty(),
            decreases simple_graph.size - i,
        {
            edges_list.push(Vec::new());
            i = i + 1;
        }

        let mut graph = AdjacencyListGraphIncome {
            size: simple_graph.size,
            is_directed: simple_graph.is_directed,
            edges: edges_list,
        };
        assert(graph.edges_view() =~= income_prefix(*simple_graph, 0));

        let n = simple_graph.edges.len();
        let mut k: usize = 0;
        while k < n
            invariant
                k <= n,
                n == simple_graph.edges@.len(),
                graph_wf(*simple_graph),
                graph.size == simple_graph.size,
                graph.is_directed == simple_graph.is_directed,
                graph.edges@.len() == simple_graph.size,
                graph.edges_view() == income_prefix(*simple_graph, k as int),
            decreases n - k,
        {
            let e = simple_graph.edges[k];
            graph.add_edge(&e);
            k = k + 1;
        }

        graph
    }

    pub fn inspect_edges(&self) -> (r: Edges)
        requires
            self.edges@.len() == self.size,
        ensures
            r@ == income_inspect(self.edges_view(), self.size as int),
    {
        let mut edges: Edges = Vec::new();
        let mut i: usize = 0;
        while i < self.size
            invariant
                i <= self.size,
                self.edges@.len() == self.size,
                edges@ == income_inspect(self.edges_view(), i as int),
            decreases self.size - i,
        {
            let row_len = self.edges[i].len();
            let mut k: usize = 0;
            while k < row_len
                invariant
                    k <= row_len,
                    i < self.size,
                    self.edges@.len() == self.size,
                    row_len == self.edges@[i as int]@.len(),
                    edges@ == income_inspect(self.edges_view(), i as int) + income_row_edges(
                        self.edges_view()[i as int].subrange(0, k as int),
                        i as int,
                    ),
                decreases row_len - k,
            {
                let j = self.edges[i][k];
                edges.push(Edge { to: i, from: j.from_or_to, length: j.length });
                proof {
                    let full = self.edges_view()[i as int];
                    assert(income_row_edges(full.subrange(0, k + 1 as int), i as int)
                        =~= income_row_edges(full.subrange(0, k as int), i as int).push(
                        Edge { to: i, from: full[k as int].from_or_to, length: full[k as int].length },
                    ));
                }
                k = k + 1;
            }
            proof {
                let full = self.edges_view()[i as int];
                assert(full.subrange(0, row_len as int) =~= full);
                assert(income_inspect(self.edges_view(), i + 1 as int) =~= income_inspect(
                    self.edges_view(),
                    i as int,
                ) + income_row_edges(full, i as int));
            }
            i = i + 1;
        }
        edges
    }

    pub fn add_edge(&mut self, i: &Edge)
        requires
            i.from < old(self).size,
            i.to < old(self).size,
            old(self).edges@.len() == old(self).size,
        ensures
            final(self).size == old(self).size,
            final(self).is_directed == old(self).is_directed,
            final(self).edges@.len() == old(self).size,
            final(self).edges_view() == income_step(
                old(self).edges_view(),
                *i,
                old(self).is_directed,
            ),
    {
        let ghost pre = self.edges_view();
        if !self.is_directed {
            let row_from = &mut self.edges[i.from];
            row_from.push(AdjacencyListEdge { length: i.length, from_or_to: i.to });
            let ghost mid = self.edges_view();
            proof {
                assert(mid =~= pre.update(
                    i.from as int,
                    pre[i.from as int].push(
                        AdjacencyListEdge { length: i.length, from_or_to: i.to },
                    ),
                ));
            }
            let row_to = &mut self.edges[i.to];
            row_to.push(AdjacencyListEdge { length: i.length, from_or_to: i.from });
            proof {
                assert(self.edges_view() =~= mid.update(
                    i.to as int,
                    mid[i.to as int].push(
                        AdjacencyListEdge { length: i.length, from_or_to: i.from },
                    ),
                ));
            }
        } else {
            let row_to = &mut self.edges[i.to];
            row_to.push(AdjacencyListEdge { length: i.length, from_or_to: i.from });
            proof {
                assert(self.edges_view() =~= pre.update(
                    i.to as int,
                    pre[i.to as int].push(
                        AdjacencyListEdge { length: i.length, from_or_to: i.from },
                    ),
                ));
            }
        }
    }
}

#[derive(Debug)]
pub struct AdjacencyListGraphOutcome {
    pub size: usize,
    pub is_directed: bool,
    pub edges: Vec<Vec<AdjacencyListEdge>>,
}

impl AdjacencyListGraphOutcome {
    pub open spec fn edges_view(self) -> Seq<Seq<AdjacencyListEdge>> {
        Seq::new(self.edges@.len() as nat, |i: int| self.edges@[i]@)
    }

    pub fn from_simple(simple_graph: &SimpleGraph) -> (g: Self)
        requires
            graph_wf(*simple_graph),
        ensures
            g.size == simple_graph.size,
            g.is_directed == simple_graph.is_directed,
            g.edges@.len() == simple_graph.size,
            g.edges_view() == outcome_prefix(*simple_graph, simple_graph.edges@.len() as int),
    {
        let mut edges_list: Vec<Vec<AdjacencyListEdge>> = Vec::with_capacity(simple_graph.size);
        let mut i: usize = 0;
        while i < simple_graph.size
            invariant
                i <= simple_graph.size,
                edges_list@.len() == i,
                forall|j: int| 0 <= j < i ==> (#[trigger] edges_list@[j])@ == Seq::<
                    AdjacencyListEdge,
                >::empty(),
            decreases simple_graph.size - i,
        {
            edges_list.push(Vec::new());
            i = i + 1;
        }

        let mut graph = AdjacencyListGraphOutcome {
            size: simple_graph.size,
            is_directed: simple_graph.is_directed,
            edges: edges_list,
        };
        assert(graph.edges_view() =~= outcome_prefix(*simple_graph, 0));

        let n = simple_graph.edges.len();
        let mut k: usize = 0;
        while k < n
            invariant
                k <= n,
                n == simple_graph.edges@.len(),
                graph_wf(*simple_graph),
                graph.size == simple_graph.size,
                graph.is_directed == simple_graph.is_directed,
                graph.edges@.len() == simple_graph.size,
                graph.edges_view() == outcome_prefix(*simple_graph, k as int),
            decreases n - k,
        {
            let e = simple_graph.edges[k];
            graph.add_edge(&e);
            k = k + 1;
        }

        graph
    }

    pub fn inspect_edges(&self) -> (r: Edges)
        requires
            self.edges@.len() == self.size,
        ensures
            r@ == outcome_inspect(self.edges_view(), self.size as int),
    {
        let mut edges: Edges = Vec::new();
        let mut i: usize = 0;
        while i < self.size
            invariant
                i <= self.size,
                self.edges@.len() == self.size,
                edges@ == outcome_inspect(self.edges_view(), i as int),
            decreases self.size - i,
        {
            let row_len = self.edges[i].len();
            let mut k: usize = 0;
            while k < row_len
                invariant
                    k <= row_len,
                    i < self.size,
                    self.edges@.len() == self.size,
                    row_len == self.edges@[i as int]@.len(),
                    edges@ == outcome_inspect(self.edges_view(), i as int) + outcome_row_edges(
                        self.edges_view()[i as int].subrange(0, k as int),
                        i as int,
                    ),
                decreases row_len - k,
            {
                let j = self.edges[i][k];
                edges.push(Edge { to: j.from_or_to, from: i, length: j.length });
                proof {
                    let full = self.edges_view()[i as int];
                    assert(outcome_row_edges(full.subrange(0, k + 1 as int), i as int)
                        =~= outcome_row_edges(full.subrange(0, k as int), i as int).push(
                        Edge { to: full[k as int].from_or_to, from: i, length: full[k as int].length },
                    ));
                }
                k = k + 1;
            }
            proof {
                let full = self.edges_view()[i as int];
                assert(full.subrange(0, row_len as int) =~= full);
                assert(outcome_inspect(self.edges_view(), i + 1 as int) =~= outcome_inspect(
                    self.edges_view(),
                    i as int,
                ) + outcome_row_edges(full, i as int));
            }
            i = i + 1;
        }
        edges
    }

    pub fn add_edge(&mut self, i: &Edge)
        requires
            i.from < old(self).size,
            i.to < old(self).size,
            old(self).edges@.len() == old(self).size,
        ensures
            final(self).size == old(self).size,
            final(self).is_directed == old(self).is_directed,
            final(self).edges@.len() == old(self).size,
            final(self).edges_view() == outcome_step(
                old(self).edges_view(),
                *i,
                old(self).is_directed,
            ),
    {
        let ghost pre = self.edges_view();
        if !self.is_directed {
            let row_from = &mut self.edges[i.from];
            row_from.push(AdjacencyListEdge { length: i.length, from_or_to: i.to });
            let ghost mid = self.edges_view();
            proof {
                assert(mid =~= pre.update(
                    i.from as int,
                    pre[i.from as int].push(
                        AdjacencyListEdge { length: i.length, from_or_to: i.to },
                    ),
                ));
            }
            let row_to = &mut self.edges[i.to];
            row_to.push(AdjacencyListEdge { length: i.length, from_or_to: i.from });
            proof {
                assert(self.edges_view() =~= mid.update(
                    i.to as int,
                    mid[i.to as int].push(
                        AdjacencyListEdge { length: i.length, from_or_to: i.from },
                    ),
                ));
            }
        } else {
            let row_from = &mut self.edges[i.from];
            row_from.push(AdjacencyListEdge { length: i.length, from_or_to: i.to });
            proof {
                assert(self.edges_view() =~= pre.update(
                    i.from as int,
                    pre[i.from as int].push(
                        AdjacencyListEdge { length: i.length, from_or_to: i.to },
                    ),
                ));
            }
        }
    }
}

} // verus!
