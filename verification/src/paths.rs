//! Paths, path costs and the canonical shortest-distance predicate.
//!
//! A graph is abstracted as its set of arcs `(from, to, length)`. A distance
//! vector from a source is characterised by three clauses: the source entry is
//! zero, no arc can improve any entry (closedness), and every finite entry is
//! witnessed by a path of exactly that cost. These clauses pin the vector
//! down uniquely (`lemma_shortest_unique`), which is what makes the
//! shortest-path routines of this crate interchangeable and deterministic.
//!
//! The sentinel `BIGGEST_NUMBER` stands for "unreachable"; witnesses carry
//! the side condition that every path prefix costs less than the sentinel,
//! which over bounded arc lengths loses no path that a simple path realises.

use vstd::prelude::*;

use crate::graph_representations::AdjacencyListEdge;
use crate::graph_representations::Edge;
use crate::graph_representations::SimpleGraph;
use crate::updatable_heap::BIGGEST_NUMBER;

verus! {

/// The distance standing for "no path": the sentinel key, as an integer.
pub open spec fn unreachable_dist() -> int {
    BIGGEST_NUMBER as int
}

pub open spec fn min_int(a: int, b: int) -> int {
    if a <= b {
        a
    } else {
        b
    }
}

/// Absorbing addition: a distance of `unreachable_dist` stays unreachable.
pub open spec fn sat_add(a: int, w: int) -> int {
    if a == unreachable_dist() {
        unreachable_dist()
    } else {
        a + w
    }
}

/// A distance vector read as mathematical integers.
pub open spec fn to_dists(s: Seq<i64>) -> Seq<int> {
    s.map_values(|x: i64| x as int)
}

/// The arcs listed by an outgoing adjacency view: row `u` holds `(u, v, w)`.
pub open spec fn outgoing_arcs(view: Seq<Seq<AdjacencyListEdge>>) -> Set<(usize, usize, i64)> {
    Set::new(
        |t: (usize, usize, i64)|
            (t.0 as int) < view.len() && view[t.0 as int].contains(
                AdjacencyListEdge { length: t.2, from_or_to: t.1 },
            ),
    )
}

/// The arcs listed by an incoming adjacency view: row `v` holds `(u, v, w)`.
pub open spec fn incoming_arcs(view: Seq<Seq<AdjacencyListEdge>>) -> Set<(usize, usize, i64)> {
    Set::new(
        |t: (usize, usize, i64)|
            (t.1 as int) < view.len() && view[t.1 as int].contains(
                AdjacencyListEdge { length: t.2, from_or_to: t.0 },
            ),
    )
}

/// Whether one stored edge realises the arc `t`, honouring direction.
pub open spec fn edge_matches_arc(e: Edge, directed: bool, t: (usize, usize, i64)) -> bool {
    (e.from == t.0 && e.to == t.1 && e.length == t.2) || (!directed && e.from == t.1 && e.to == t.0
        && e.length == t.2)
}

/// The arcs of the first `n` edges of an edge-list graph.
pub open spec fn graph_arcs_prefix(g: SimpleGraph, n: int) -> Set<(usize, usize, i64)> {
    Set::new(
        |t: (usize, usize, i64)|
            exists|k: int| 0 <= k < n && k < g.edges@.len() && edge_matches_arc(
                #[trigger] g.edges@[k],
                g.is_directed,
                t,
            ),
    )
}

/// The arcs of an edge-list graph; an undirected edge yields both directions.
pub open spec fn graph_arcs(g: SimpleGraph) -> Set<(usize, usize, i64)> {
    graph_arcs_prefix(g, g.edges@.len() as int)
}

/// Every arc stays inside the vertex range.
pub open spec fn arcs_in_range(arcs: Set<(usize, usize, i64)>, size: nat) -> bool {
    forall|u: usize, v: usize, w: i64|
        #[trigger] arcs.contains((u, v, w)) ==> (u as nat) < size && (v as nat) < size
}

/// Every arc length lies in `[lo, hi]`.
pub open spec fn arcs_bounded(arcs: Set<(usize, usize, i64)>, lo: int, hi: int) -> bool {
    forall|u: usize, v: usize, w: i64| #[trigger] arcs.contains((u, v, w)) ==> lo <= w && w <= hi
}

/// `vs` lists the visited vertices, `ws` the arc length taken at each step.
pub open spec fn is_arc_path(
    arcs: Set<(usize, usize, i64)>,
    vs: Seq<usize>,
    ws: Seq<i64>,
) -> bool {
    &&& vs.len() == ws.len() + 1
    &&& forall|i: int| 0 <= i < ws.len() ==> #[trigger] arcs.contains((vs[i], vs[i + 1], ws[i]))
}

pub open spec fn path_cost(ws: Seq<i64>) -> int
    decreases ws.len(),
{
    if ws.len() == 0 {
        0
    } else {
        path_cost(ws.drop_last()) + ws.last()
    }
}

/// Every prefix of the path costs less than the unreachable sentinel.
pub open spec fn prefixes_below_inf(ws: Seq<i64>) -> bool {
    forall|i: int| 0 <= i <= ws.len() ==> path_cost(#[trigger] ws.subrange(0, i))
        < unreachable_dist()
}

pub open spec fn vertices_in_range(vs: Seq<usize>, size: nat) -> bool {
    forall|i: int| 0 <= i < vs.len() ==> (#[trigger] vs[i] as nat) < size
}

/// Some in-range path from `src` to `v` costs exactly `c`, with every prefix
/// below the sentinel.
pub open spec fn reaches_with_cost(
    arcs: Set<(usize, usize, i64)>,
    size: nat,
    src: usize,
    v: usize,
    c: int,
) -> bool {
    exists|vs: Seq<usize>, ws: Seq<i64>|
        is_arc_path(arcs, vs, ws) && vs[0] == src && vs.last() == v && vertices_in_range(vs, size)
            && prefixes_below_inf(ws) && path_cost(ws) == c
}

/// No arc improves any entry of `r`.
pub open spec fn closed_under_arcs(arcs: Set<(usize, usize, i64)>, r: Seq<int>) -> bool {
    forall|u: usize, v: usize, w: i64|
        #[trigger] arcs.contains((u, v, w)) && (u as int) < r.len() && (v as int) < r.len()
            ==> r[v as int] <= sat_add(r[u as int], w as int)
}

/// The canonical characterisation of the shortest-distance vector from `src`:
/// the source entry is zero, no arc improves an entry, and each finite entry
/// is realised by a path of exactly that cost. Two vectors satisfying it for
/// the same arcs agree everywhere (`lemma_shortest_unique`).
pub open spec fn shortest_from(
    arcs: Set<(usize, usize, i64)>,
    size: nat,
    src: usize,
    r: Seq<int>,
) -> bool {
    &&& r.len() == size
    &&& size <= usize::MAX
    &&& (src as nat) < size
    &&& r[src as int] == 0
    &&& forall|v: int| 0 <= v < r.len() ==> #[trigger] r[v] <= unreachable_dist()
    &&& closed_under_arcs(arcs, r)
    &&& forall|v: int|
        0 <= v < r.len() && #[trigger] r[v] != unreachable_dist() ==> reaches_with_cost(
            arcs,
            size,
            src,
            v as usize,
            r[v],
        )
}

/// The empty path reaches the source at cost zero.
pub proof fn lemma_reaches_self(arcs: Set<(usize, usize, i64)>, size: nat, src: usize)
    requires
        (src as nat) < size,
    ensures
        reaches_with_cost(arcs, size, src, src, 0),
{
    let vs = seq![src];
    let ws = Seq::<i64>::empty();
    assert(is_arc_path(arcs, vs, ws));
    assert(forall|i: int| 0 <= i <= ws.len() ==> path_cost(#[trigger] ws.subrange(0, i)) == 0);
}

/// Extending a witnessed path by one arc witnesses the extended cost.
pub proof fn lemma_path_extend(
    arcs: Set<(usize, usize, i64)>,
    size: nat,
    src: usize,
    u: usize,
    v: usize,
    w: i64,
    c: int,
)
    requires
        reaches_with_cost(arcs, size, src, u, c),
        arcs.contains((u, v, w)),
        (v as nat) < size,
        c + w < unreachable_dist(),
    ensures
        reaches_with_cost(arcs, size, src, v, c + w),
{
    let (vs, ws): (Seq<usize>, Seq<i64>) = choose|vs: Seq<usize>, ws: Seq<i64>|
        is_arc_path(arcs, vs, ws) && vs[0] == src && vs.last() == u && vertices_in_range(vs, size)
            && prefixes_below_inf(ws) && path_cost(ws) == c;
    let vs2 = vs.push(v);
    let ws2 = ws.push(w);
    assert(vs2.last() == v);
    assert forall|i: int| 0 <= i < ws2.len() implies #[trigger] arcs.contains(
        (vs2[i], vs2[i + 1], ws2[i]),
    ) by {
        if i < ws.len() {
            assert(arcs.contains((vs[i], vs[i + 1], ws[i])));
        } else {
            assert(vs2[i] == vs.last());
        }
    }
    assert(is_arc_path(arcs, vs2, ws2));
    assert(ws2.drop_last() =~= ws);
    assert(path_cost(ws2) == c + w);
    assert forall|i: int| 0 <= i <= ws2.len() implies path_cost(#[trigger] ws2.subrange(0, i))
        < unreachable_dist() by {
        if i <= ws.len() {
            assert(ws2.subrange(0, i) =~= ws.subrange(0, i));
        } else {
            assert(ws2.subrange(0, i) =~= ws2);
        }
    }
}

/// Under closedness and a zero source entry, no entry exceeds the cost of any
/// witnessing path.
pub proof fn lemma_closed_path_bound(
    arcs: Set<(usize, usize, i64)>,
    r: Seq<int>,
    src: usize,
    vs: Seq<usize>,
    ws: Seq<i64>,
)
    requires
        closed_under_arcs(arcs, r),
        (src as int) < r.len(),
        r[src as int] == 0,
        forall|v: int| 0 <= v < r.len() ==> #[trigger] r[v] <= unreachable_dist(),
        is_arc_path(arcs, vs, ws),
        vs[0] == src,
        vertices_in_range(vs, r.len() as nat),
        prefixes_below_inf(ws),
    ensures
        r[vs.last() as int] <= path_cost(ws),
    decreases ws.len(),
{
    if ws.len() == 0 {
        assert(vs.last() == vs[0]);
    } else {
        let vs1 = vs.drop_last();
        let ws1 = ws.drop_last();
        let u = vs1.last();
        let v = vs.last();
        let w = ws.last();
        assert(is_arc_path(arcs, vs1, ws1)) by {
            assert forall|i: int| 0 <= i < ws1.len() implies #[trigger] arcs.contains(
                (vs1[i], vs1[i + 1], ws1[i]),
            ) by {
                assert(arcs.contains((vs[i], vs[i + 1], ws[i])));
            }
        }
        assert(prefixes_below_inf(ws1)) by {
            assert forall|i: int| 0 <= i <= ws1.len() implies path_cost(
                #[trigger] ws1.subrange(0, i),
            ) < unreachable_dist() by {
                assert(ws1.subrange(0, i) =~= ws.subrange(0, i));
            }
        }
        lemma_closed_path_bound(arcs, r, src, vs1, ws1);
        assert(arcs.contains((vs[ws.len() - 1], vs[ws.len() as int], ws[ws.len() - 1])));
        assert(arcs.contains((u, v, w)));
        assert(path_cost(ws1) < unreachable_dist()) by {
            assert(ws.subrange(0, ws.len() - 1) =~= ws1);
        }
        assert(r[u as int] <= path_cost(ws1));
        assert(r[u as int] != unreachable_dist());
        assert(r[v as int] <= sat_add(r[u as int], w as int));
    }
}

/// The shortest-distance characterisation is categorical: two vectors
/// satisfying it for the same arcs, size and source are equal.
pub proof fn lemma_shortest_unique(
    arcs: Set<(usize, usize, i64)>,
    size: nat,
    src: usize,
    r1: Seq<int>,
    r2: Seq<int>,
)
    requires
        shortest_from(arcs, size, src, r1),
        shortest_from(arcs, size, src, r2),
    ensures
        r1 == r2,
{
    assert forall|v: int| 0 <= v < size implies r1[v] == r2[v] by {
        if r1[v] != unreachable_dist() {
            lemma_shortest_entry_le(arcs, size, src, r1, r2, v);
        }
        if r2[v] != unreachable_dist() {
            lemma_shortest_entry_le(arcs, size, src, r2, r1, v);
        }
    }
    assert(r1 =~= r2);
}

proof fn lemma_shortest_entry_le(
    arcs: Set<(usize, usize, i64)>,
    size: nat,
    src: usize,
    r1: Seq<int>,
    r2: Seq<int>,
    v: int,
)
    requires
        shortest_from(arcs, size, src, r1),
        shortest_from(arcs, size, src, r2),
        0 <= v < size,
        r1[v] != unreachable_dist(),
    ensures
        r2[v] <= r1[v],
{
    let (vs, ws): (Seq<usize>, Seq<i64>) = choose|vs: Seq<usize>, ws: Seq<i64>|
        is_arc_path(arcs, vs, ws) && vs[0] == src && vs.last() == v as usize && vertices_in_range(
            vs,
            size,
        ) && prefixes_below_inf(ws) && path_cost(ws) == r1[v];
    lemma_closed_path_bound(arcs, r2, src, vs, ws);
}

/// Over non-negative arcs every path cost is non-negative.
pub proof fn lemma_path_cost_nonneg(arcs: Set<(usize, usize, i64)>, vs: Seq<usize>, ws: Seq<i64>)
    requires
        arcs_bounded(arcs, 0, unreachable_dist()),
        is_arc_path(arcs, vs, ws),
    ensures
        path_cost(ws) >= 0,
    decreases ws.len(),
{
    if ws.len() > 0 {
        let vs1 = vs.drop_last();
        let ws1 = ws.drop_last();
        assert(is_arc_path(arcs, vs1, ws1)) by {
            assert forall|i: int| 0 <= i < ws1.len() implies #[trigger] arcs.contains(
                (vs1[i], vs1[i + 1], ws1[i]),
            ) by {
                assert(arcs.contains((vs[i], vs[i + 1], ws[i])));
            }
        }
        lemma_path_cost_nonneg(arcs, vs1, ws1);
        assert(arcs.contains((vs[ws.len() - 1], vs[ws.len() as int], ws[ws.len() - 1])));
    }
}

/// Over non-negative arcs every witnessed cost is non-negative.
pub proof fn lemma_reaches_cost_nonneg(
    arcs: Set<(usize, usize, i64)>,
    size: nat,
    src: usize,
    v: usize,
    c: int,
)
    requires
        arcs_bounded(arcs, 0, unreachable_dist()),
        reaches_with_cost(arcs, size, src, v, c),
    ensures
        c >= 0,
{
    let (vs, ws): (Seq<usize>, Seq<i64>) = choose|vs: Seq<usize>, ws: Seq<i64>|
        is_arc_path(arcs, vs, ws) && vs[0] == src && vs.last() == v && vertices_in_range(vs, size)
            && prefixes_below_inf(ws) && path_cost(ws) == c;
    lemma_path_cost_nonneg(arcs, vs, ws);
}

proof fn lemma_in_arcs_push(view: Seq<Seq<AdjacencyListEdge>>, i: int, a: AdjacencyListEdge)
    requires
        0 <= i < view.len(),
        view.len() <= usize::MAX,
    ensures
        incoming_arcs(view.update(i, view[i].push(a))) == incoming_arcs(view).insert(
            (a.from_or_to, i as usize, a.length),
        ),
{
    let v2 = view.update(i, view[i].push(a));
    let nt = (a.from_or_to, i as usize, a.length);
    assert forall|t: (usize, usize, i64)|
        #[trigger] incoming_arcs(v2).contains(t) implies incoming_arcs(view).insert(nt).contains(
        t,
    ) by {
        let row2 = v2[t.1 as int];
        let needle = AdjacencyListEdge { length: t.2, from_or_to: t.0 };
        let k = choose|k: int| 0 <= k < row2.len() && row2[k] == needle;
        if t.1 as int == i {
            if k < view[i].len() {
                assert(view[t.1 as int][k] == needle);
                assert(view[t.1 as int].contains(needle));
            } else {
                assert(row2[k] == a);
                assert(t == nt);
            }
        } else {
            assert(view[t.1 as int][k] == needle);
            assert(view[t.1 as int].contains(needle));
        }
    }
    assert forall|t: (usize, usize, i64)|
        #[trigger] incoming_arcs(view).insert(nt).contains(t) implies incoming_arcs(v2).contains(
        t,
    ) by {
        let needle = AdjacencyListEdge { length: t.2, from_or_to: t.0 };
        if t == nt {
            assert(v2[i][view[i].len() as int] == a);
            assert(v2[t.1 as int].contains(needle));
        } else {
            let k = choose|k: int|
                0 <= k < view[t.1 as int].len() && view[t.1 as int][k] == needle;
            assert(v2[t.1 as int][k] == needle);
            assert(v2[t.1 as int].contains(needle));
        }
    }
    assert(incoming_arcs(v2) =~= incoming_arcs(view).insert(nt));
}

proof fn lemma_out_arcs_push(view: Seq<Seq<AdjacencyListEdge>>, i: int, a: AdjacencyListEdge)
    requires
        0 <= i < view.len(),
        view.len() <= usize::MAX,
    ensures
        outgoing_arcs(view.update(i, view[i].push(a))) == outgoing_arcs(view).insert(
            (i as usize, a.from_or_to, a.length),
        ),
{
    let v2 = view.update(i, view[i].push(a));
    let nt = (i as usize, a.from_or_to, a.length);
    assert forall|t: (usize, usize, i64)|
        #[trigger] outgoing_arcs(v2).contains(t) implies outgoing_arcs(view).insert(nt).contains(
        t,
    ) by {
        let row2 = v2[t.0 as int];
        let needle = AdjacencyListEdge { length: t.2, from_or_to: t.1 };
        let k = choose|k: int| 0 <= k < row2.len() && row2[k] == needle;
        if t.0 as int == i {
            if k < view[i].len() {
                assert(view[t.0 as int][k] == needle);
                assert(view[t.0 as int].contains(needle));
            } else {
                assert(row2[k] == a);
                assert(t == nt);
            }
        } else {
            assert(view[t.0 as int][k] == needle);
            assert(view[t.0 as int].contains(needle));
        }
    }
    assert forall|t: (usize, usize, i64)|
        #[trigger] outgoing_arcs(view).insert(nt).contains(t) implies outgoing_arcs(v2).contains(
        t,
    ) by {
        let needle = AdjacencyListEdge { length: t.2, from_or_to: t.1 };
        if t == nt {
            assert(v2[i][view[i].len() as int] == a);
            assert(v2[t.0 as int].contains(needle));
        } else {
            let k = choose|k: int|
                0 <= k < view[t.0 as int].len() && view[t.0 as int][k] == needle;
            assert(v2[t.0 as int][k] == needle);
            assert(v2[t.0 as int].contains(needle));
        }
    }
    assert(outgoing_arcs(v2) =~= outgoing_arcs(view).insert(nt));
}

/// One more edge adds exactly its arc, or both directions when undirected.
proof fn lemma_graph_arcs_prefix_step(g: SimpleGraph, n: int)
    requires
        1 <= n <= g.edges@.len(),
    ensures
        g.is_directed ==> graph_arcs_prefix(g, n) == graph_arcs_prefix(g, n - 1).insert(
            (g.edges@[n - 1].from, g.edges@[n - 1].to, g.edges@[n - 1].length),
        ),
        !g.is_directed ==> graph_arcs_prefix(g, n) == graph_arcs_prefix(g, n - 1).insert(
            (g.edges@[n - 1].from, g.edges@[n - 1].to, g.edges@[n - 1].length),
        ).insert((g.edges@[n - 1].to, g.edges@[n - 1].from, g.edges@[n - 1].length)),
{
    let e = g.edges@[n - 1];
    if g.is_directed {
        assert forall|t: (usize, usize, i64)|
            #[trigger] graph_arcs_prefix(g, n).contains(t) implies graph_arcs_prefix(
            g,
            n - 1,
        ).insert((e.from, e.to, e.length)).contains(t) by {
            let k = choose|k: int|
                0 <= k < n && k < g.edges@.len() && edge_matches_arc(
                    #[trigger] g.edges@[k],
                    g.is_directed,
                    t,
                );
            if k < n - 1 {
                assert(graph_arcs_prefix(g, n - 1).contains(t));
            }
        }
        assert(graph_arcs_prefix(g, n) =~= graph_arcs_prefix(g, n - 1).insert(
            (e.from, e.to, e.length),
        ));
    } else {
        assert forall|t: (usize, usize, i64)|
            #[trigger] graph_arcs_prefix(g, n).contains(t) implies graph_arcs_prefix(
            g,
            n - 1,
        ).insert((e.from, e.to, e.length)).insert((e.to, e.from, e.length)).contains(t) by {
            let k = choose|k: int|
                0 <= k < n && k < g.edges@.len() && edge_matches_arc(
                    #[trigger] g.edges@[k],
                    g.is_directed,
                    t,
                );
            if k < n - 1 {
                assert(graph_arcs_prefix(g, n - 1).contains(t));
            }
        }
        assert(graph_arcs_prefix(g, n) =~= graph_arcs_prefix(g, n - 1).insert(
            (e.from, e.to, e.length),
        ).insert((e.to, e.from, e.length)));
    }
}

/// The incoming projection lists exactly the arcs of the edge list.
pub proof fn lemma_income_prefix_arcs(g: SimpleGraph, n: int)
    requires
        0 <= n <= g.edges@.len(),
        crate::graph_representations::graph_wf(g),
    ensures
        incoming_arcs(crate::graph_representations::income_prefix(g, n)) == graph_arcs_prefix(
            g,
            n,
        ),
        crate::graph_representations::income_prefix(g, n).len() == g.size,
    decreases n,
{
    if n == 0 {
        assert(incoming_arcs(crate::graph_representations::income_prefix(g, 0))
            =~= graph_arcs_prefix(g, 0)) by {
            assert forall|t: (usize, usize, i64)|
                !(#[trigger] incoming_arcs(
                    crate::graph_representations::income_prefix(g, 0),
                ).contains(t)) by {
                if incoming_arcs(crate::graph_representations::income_prefix(g, 0)).contains(t) {
                    let row = crate::graph_representations::income_prefix(g, 0)[t.1 as int];
                    let needle = AdjacencyListEdge { length: t.2, from_or_to: t.0 };
                    let k = choose|k: int| 0 <= k < row.len() && row[k] == needle;
                }
            }
            assert forall|t: (usize, usize, i64)|
                !(#[trigger] graph_arcs_prefix(g, 0).contains(t)) by {}
        }
    } else {
        lemma_income_prefix_arcs(g, n - 1);
        let prev = crate::graph_representations::income_prefix(g, n - 1);
        let e = g.edges@[n - 1];
        lemma_graph_arcs_prefix_step(g, n);
        if g.is_directed {
            lemma_in_arcs_push(
                prev,
                e.to as int,
                AdjacencyListEdge { length: e.length, from_or_to: e.from },
            );
        } else {
            let a1 = AdjacencyListEdge { length: e.length, from_or_to: e.to };
            let a2 = AdjacencyListEdge { length: e.length, from_or_to: e.from };
            let mid = prev.update(e.from as int, prev[e.from as int].push(a1));
            lemma_in_arcs_push(prev, e.from as int, a1);
            lemma_in_arcs_push(mid, e.to as int, a2);
            assert(incoming_arcs(crate::graph_representations::income_prefix(g, n))
                =~= graph_arcs_prefix(g, n));
        }
    }
}

/// The outgoing projection lists exactly the arcs of the edge list.
pub proof fn lemma_outcome_prefix_arcs(g: SimpleGraph, n: int)
    requires
        0 <= n <= g.edges@.len(),
        crate::graph_representations::graph_wf(g),
    ensures
        outgoing_arcs(crate::graph_representations::outcome_prefix(g, n)) == graph_arcs_prefix(
            g,
            n,
        ),
        crate::graph_representations::outcome_prefix(g, n).len() == g.size,
    decreases n,
{
    if n == 0 {
        assert(outgoing_arcs(crate::graph_representations::outcome_prefix(g, 0))
            =~= graph_arcs_prefix(g, 0)) by {
            assert forall|t: (usize, usize, i64)|
                !(#[trigger] outgoing_arcs(
                    crate::graph_representations::outcome_prefix(g, 0),
                ).contains(t)) by {
                if outgoing_arcs(crate::graph_representations::outcome_prefix(g, 0)).contains(t) {
                    let row = crate::graph_representations::outcome_prefix(g, 0)[t.0 as int];
                    let needle = AdjacencyListEdge { length: t.2, from_or_to: t.1 };
                    let k = choose|k: int| 0 <= k < row.len() && row[k] == needle;
                }
            }
            assert forall|t: (usize, usize, i64)|
                !(#[trigger] graph_arcs_prefix(g, 0).contains(t)) by {}
        }
    } else {
        lemma_outcome_prefix_arcs(g, n - 1);
        let prev = crate::graph_representations::outcome_prefix(g, n - 1);
        let e = g.edges@[n - 1];
        lemma_graph_arcs_prefix_step(g, n);
        if g.is_directed {
            lemma_out_arcs_push(
                prev,
                e.from as int,
                AdjacencyListEdge { length: e.length, from_or_to: e.to },
            );
        } else {
            let a1 = AdjacencyListEdge { length: e.length, from_or_to: e.to };
            let a2 = AdjacencyListEdge { length: e.length, from_or_to: e.from };
            let mid = prev.update(e.from as int, prev[e.from as int].push(a1));
            lemma_out_arcs_push(prev, e.from as int, a1);
            lemma_out_arcs_push(mid, e.to as int, a2);
            assert(outgoing_arcs(crate::graph_representations::outcome_prefix(g, n))
                =~= graph_arcs_prefix(g, n));
        }
    }
}

/// The arcs of a well-formed graph stay inside the vertex range.
pub proof fn lemma_graph_arcs_in_range(g: SimpleGraph)
    requires
        crate::graph_representations::graph_wf(g),
    ensures
        arcs_in_range(graph_arcs(g), g.size as nat),
{
    assert forall|u: usize, v: usize, w: i64|
        #[trigger] graph_arcs(g).contains((u, v, w)) implies (u as nat) < g.size && (v as nat)
            < g.size by {
        let k = choose|k: int|
            0 <= k < g.edges@.len() && edge_matches_arc(
                #[trigger] g.edges@[k],
                g.is_directed,
                (u, v, w),
            );
    }
}

/// Costs of two pointwise potential-shifted weight sequences telescope.
proof fn lemma_cost_pointwise_shift(vs: Seq<usize>, ws2: Seq<i64>, ws: Seq<i64>, p: Seq<int>)
    requires
        vs.len() == ws2.len() + 1,
        ws.len() == ws2.len(),
        forall|i: int| 0 <= i < vs.len() ==> (#[trigger] vs[i] as int) < p.len(),
        forall|i: int|
            0 <= i < ws.len() ==> (#[trigger] ws[i]) as int == ws2[i] - p[vs[i] as int] + p[vs[i
                + 1] as int],
    ensures
        path_cost(ws) == path_cost(ws2) - p[vs[0] as int] + p[vs.last() as int],
    decreases ws.len(),
{
    if ws.len() == 0 {
    } else {
        let vs1 = vs.drop_last();
        let ws21 = ws2.drop_last();
        let ws1 = ws.drop_last();
        lemma_cost_pointwise_shift(vs1, ws21, ws1, p);
        assert(ws.last() as int == ws2.last() - p[vs[ws.len() - 1] as int] + p[vs.last() as int]);
        assert(vs1.last() == vs[ws.len() - 1]);
    }
}

/// Over non-negative weights, every prefix costs at most the whole path.
proof fn lemma_prefix_cost_mono(ws: Seq<i64>, i: int)
    requires
        0 <= i <= ws.len(),
        forall|k: int| 0 <= k < ws.len() ==> 0 <= #[trigger] ws[k],
    ensures
        path_cost(ws.subrange(0, i)) <= path_cost(ws),
    decreases ws.len() - i,
{
    if i == ws.len() {
        assert(ws.subrange(0, i) =~= ws);
    } else {
        lemma_prefix_cost_mono(ws, i + 1);
        assert(ws.subrange(0, i + 1).drop_last() =~= ws.subrange(0, i));
        assert(ws.subrange(0, i + 1).last() == ws[i]);
    }
}

/// Shifting every arc length by a potential difference, then shifting the
/// resulting distance vector back, turns shortest distances over the shifted
/// arcs into shortest distances over the original arcs.
pub proof fn lemma_shift_shortest(
    arcs: Set<(usize, usize, i64)>,
    arcs2: Set<(usize, usize, i64)>,
    size: nat,
    src: usize,
    p: Seq<int>,
    pb: int,
    d: Seq<int>,
    dbound: int,
    wmax: int,
    r: Seq<int>,
)
    requires
        p.len() >= size,
        0 <= pb,
        forall|i: int| 0 <= i < p.len() ==> -pb <= #[trigger] p[i] && p[i] <= pb,
        0 <= dbound,
        0 <= wmax,
        dbound + wmax + 2 * pb < unreachable_dist(),
        arcs_in_range(arcs, size),
        arcs_bounded(arcs2, 0, wmax),
        forall|u: usize, v: usize, w: i64|
            #[trigger] arcs.contains((u, v, w)) ==> arcs2.contains(
                (u, v, ((w + p[u as int] - p[v as int]) as i64)),
            ) && w + p[u as int] - p[v as int] == ((w + p[u as int] - p[v as int]) as i64) as int,
        forall|u: usize, v: usize, w2: i64|
            #[trigger] arcs2.contains((u, v, w2)) ==> (u as nat) < size && (v as nat) < size
                && arcs.contains((u, v, ((w2 - p[u as int] + p[v as int]) as i64))) && w2 - p[
            u as int] + p[v as int] == ((w2 - p[u as int] + p[v as int]) as i64) as int,
        shortest_from(arcs2, size, src, d),
        forall|v: int|
            0 <= v < d.len() ==> #[trigger] d[v] == unreachable_dist() || (0 <= d[v] && d[v]
                <= dbound),
        r.len() == size,
        forall|v: int|
            0 <= v < r.len() ==> #[trigger] r[v] == (if d[v] == unreachable_dist() {
                unreachable_dist()
            } else {
                d[v] + p[v] - p[src as int]
            }),
    ensures
        shortest_from(arcs, size, src, r),
{
    assert(d[src as int] == 0);
    assert(r[src as int] == 0);
    assert forall|v: int| 0 <= v < r.len() implies #[trigger] r[v] <= unreachable_dist() by {
        if d[v] != unreachable_dist() {
            assert(0 <= d[v] <= dbound);
        }
    }
    assert forall|u: usize, v: usize, w: i64|
        #[trigger] arcs.contains((u, v, w)) && (u as int) < r.len() && (v as int)
            < r.len() implies r[v as int] <= sat_add(r[u as int], w as int) by {
        let w2 = (w + p[u as int] - p[v as int]) as i64;
        assert(arcs2.contains((u, v, w2)));
        assert(d[v as int] <= sat_add(d[u as int], w2 as int));
        if r[u as int] != unreachable_dist() {
            assert(d[u as int] != unreachable_dist());
            assert(0 <= w2 as int <= wmax);
            assert(d[v as int] <= d[u as int] + w2 as int);
            assert(d[u as int] + w2 as int <= dbound + wmax);
            assert(d[v as int] != unreachable_dist());
            assert(r[v as int] == d[v as int] + p[v as int] - p[src as int]);
            assert(r[u as int] == d[u as int] + p[u as int] - p[src as int]);
            assert(w2 as int == w + p[u as int] - p[v as int]);
        }
    }
    assert forall|v: int|
        0 <= v < r.len() && #[trigger] r[v] != unreachable_dist() implies reaches_with_cost(
        arcs,
        size,
        src,
        v as usize,
        r[v],
    ) by {
        assert(d[v] != unreachable_dist());
        assert(reaches_with_cost(arcs2, size, src, v as usize, d[v]));
        let (vs, ws2): (Seq<usize>, Seq<i64>) = choose|vs: Seq<usize>, ws2: Seq<i64>|
            is_arc_path(arcs2, vs, ws2) && vs[0] == src && vs.last() == v as usize
                && vertices_in_range(vs, size) && prefixes_below_inf(ws2) && path_cost(ws2) == d[v];
        let ws = Seq::<i64>::new(
            ws2.len(),
            |i: int| (ws2[i] - p[vs[i] as int] + p[vs[i + 1] as int]) as i64,
        );
        assert forall|i: int| 0 <= i < ws2.len() implies 0 <= #[trigger] ws2[i] by {
            assert(arcs2.contains((vs[i], vs[i + 1], ws2[i])));
        }
        assert forall|i: int| 0 <= i < ws.len() implies #[trigger] arcs.contains(
            (vs[i], vs[i + 1], ws[i]),
        ) by {
            assert(arcs2.contains((vs[i], vs[i + 1], ws2[i])));
        }
        assert(is_arc_path(arcs, vs, ws));
        assert forall|i: int| 0 <= i < ws.len() implies (#[trigger] ws[i]) as int == ws2[i] - p[
        vs[i] as int] + p[vs[i + 1] as int] by {
            assert(arcs2.contains((vs[i], vs[i + 1], ws2[i])));
            assert(0 <= ws2[i] <= wmax);
            assert((vs[i] as int) < p.len() && (vs[i + 1] as int) < p.len());
        }
        lemma_cost_pointwise_shift(vs, ws2, ws, p);
        assert(path_cost(ws) == d[v] - p[src as int] + p[v]);
        assert(path_cost(ws) == r[v]);
        assert forall|i: int| 0 <= i <= ws.len() implies path_cost(#[trigger] ws.subrange(0, i))
            < unreachable_dist() by {
            let vsp = vs.subrange(0, i + 1);
            let wsp2 = ws2.subrange(0, i);
            let wsp = ws.subrange(0, i);
            assert(vsp.len() == wsp2.len() + 1);
            assert forall|k: int| 0 <= k < wsp.len() implies (#[trigger] wsp[k]) as int == wsp2[k]
                - p[vsp[k] as int] + p[vsp[k + 1] as int] by {
                assert(wsp[k] == ws[k] && wsp2[k] == ws2[k]);
                assert(vsp[k] == vs[k] && vsp[k + 1] == vs[k + 1]);
                assert(ws[k] as int == ws2[k] - p[vs[k] as int] + p[vs[k + 1] as int]);
            }
            lemma_cost_pointwise_shift(vsp, wsp2, wsp, p);
            lemma_prefix_cost_mono(ws2, i);
            assert(path_cost(ws2) == d[v]);
            assert(path_cost(wsp2) <= dbound);
            assert(vsp[0] == vs[0] && vsp.last() == vs[i]);
        }
        assert(reaches_with_cost(arcs, size, src, v as usize, r[v]));
    }
}

/// A cycle: a non-empty in-range path that returns to its first vertex.
pub open spec fn is_cycle(
    arcs: Set<(usize, usize, i64)>,
    size: nat,
    vs: Seq<usize>,
    ws: Seq<i64>,
) -> bool {
    &&& is_arc_path(arcs, vs, ws)
    &&& ws.len() >= 1
    &&& vs[0] == vs.last()
    &&& vertices_in_range(vs, size)
}

/// A cycle of negative total length exists among the arcs.
pub open spec fn has_negative_cycle(arcs: Set<(usize, usize, i64)>, size: nat) -> bool {
    exists|vs: Seq<usize>, ws: Seq<i64>| is_cycle(arcs, size, vs, ws) && path_cost(ws) < 0
}

/// A feasible potential: every arc satisfies `p[v] <= p[u] + w`.
pub open spec fn valid_potential(arcs: Set<(usize, usize, i64)>, size: nat, p: Seq<int>) -> bool {
    &&& p.len() == size
    &&& forall|u: usize, v: usize, w: i64|
        #[trigger] arcs.contains((u, v, w)) && (u as nat) < size && (v as nat) < size ==> p[v as int]
            <= p[u as int] + w
}

/// Along any in-range path a feasible potential rises at most by the cost.
pub proof fn lemma_potential_path_bound(
    arcs: Set<(usize, usize, i64)>,
    size: nat,
    p: Seq<int>,
    vs: Seq<usize>,
    ws: Seq<i64>,
)
    requires
        valid_potential(arcs, size, p),
        is_arc_path(arcs, vs, ws),
        vertices_in_range(vs, size),
    ensures
        p[vs.last() as int] <= p[vs[0] as int] + path_cost(ws),
    decreases ws.len(),
{
    if ws.len() > 0 {
        let vs1 = vs.drop_last();
        let ws1 = ws.drop_last();
        assert(is_arc_path(arcs, vs1, ws1)) by {
            assert forall|i: int| 0 <= i < ws1.len() implies #[trigger] arcs.contains(
                (vs1[i], vs1[i + 1], ws1[i]),
            ) by {
                assert(arcs.contains((vs[i], vs[i + 1], ws[i])));
            }
        }
        lemma_potential_path_bound(arcs, size, p, vs1, ws1);
        assert(arcs.contains((vs[ws.len() - 1], vs[ws.len() as int], ws[ws.len() - 1])));
    }
}

/// Where a feasible potential exists, no cycle has negative total length.
pub proof fn lemma_potential_no_negative_cycle(
    arcs: Set<(usize, usize, i64)>,
    size: nat,
    p: Seq<int>,
)
    requires
        valid_potential(arcs, size, p),
    ensures
        !has_negative_cycle(arcs, size),
{
    if has_negative_cycle(arcs, size) {
        let (vs, ws): (Seq<usize>, Seq<i64>) = choose|vs: Seq<usize>, ws: Seq<i64>|
            is_cycle(arcs, size, vs, ws) && path_cost(ws) < 0;
        lemma_potential_path_bound(arcs, size, p, vs, ws);
    }
}

} // verus!
