use algograph::graph_representations::AdjacencyListGraphIncome;
use algograph::graph_representations::AdjacencyListGraphOutcome;
use algograph::graph_representations::Edge;
use algograph::graph_representations::GraphError;
use algograph::graph_representations::SimpleGraph;

#[test]
fn add_edge_rejects_a_bad_endpoint() {
    let mut g = SimpleGraph::new(2, vec![], true);
    assert_eq!(g.add_edge(Edge::new(0, 2, 1)), Err(GraphError::InvalidEdge));
    assert_eq!(g.add_edge(Edge::new(5, 0, 1)), Err(GraphError::InvalidEdge));
    assert_eq!(g.edges.len(), 0);
    assert_eq!(g.add_edge(Edge::new(0, 1, 1)), Ok(()));
    assert_eq!(g.edges.len(), 1);
}

#[test]
fn grow_then_shrink_discards_virtual_edges() {
    let mut g = SimpleGraph::new(2, vec![Edge::new(0, 1, 3)], true);
    g.increase_size(1);
    assert_eq!(g.size, 3);
    assert_eq!(g.add_edge(Edge::new(2, 0, 0)), Ok(()));
    assert_eq!(g.add_edge(Edge::new(2, 1, 0)), Ok(()));
    g.decrease_size(1);
    assert_eq!(g.size, 2);
    assert_eq!(g.edges.len(), 1);
    assert_eq!(g.edges[0].from, 0);
    assert_eq!(g.edges[0].to, 1);
    assert_eq!(g.edges[0].length, 3);
}

#[test]
fn income_projection_groups_by_target() {
    let g = SimpleGraph::new(
        3,
        vec![Edge::new(0, 1, 5), Edge::new(2, 1, 7), Edge::new(1, 0, 2)],
        true,
    );
    let income = AdjacencyListGraphIncome::from_simple(&g);
    assert_eq!(income.edges[1].len(), 2);
    assert_eq!(income.edges[1][0].from_or_to, 0);
    assert_eq!(income.edges[1][1].from_or_to, 2);
    assert_eq!(income.edges[0].len(), 1);
    assert_eq!(income.edges[0][0].from_or_to, 1);
    let listed = income.inspect_edges();
    assert_eq!(listed.len(), 3);
    assert_eq!(listed[0].to, 0);
    assert_eq!(listed[0].from, 1);
    assert_eq!(listed[0].length, 2);
}

#[test]
fn outcome_projection_groups_by_source() {
    let g = SimpleGraph::new(
        3,
        vec![Edge::new(0, 1, 5), Edge::new(0, 2, 7), Edge::new(1, 0, 2)],
        true,
    );
    let outcome = AdjacencyListGraphOutcome::from_simple(&g);
    assert_eq!(outcome.edges[0].len(), 2);
    assert_eq!(outcome.edges[0][0].from_or_to, 1);
    assert_eq!(outcome.edges[0][1].from_or_to, 2);
    let listed = outcome.inspect_edges();
    assert_eq!(listed.len(), 3);
    assert_eq!(listed[0].from, 0);
    assert_eq!(listed[0].to, 1);
    assert_eq!(listed[0].length, 5);
}

#[test]
fn undirected_edges_appear_in_both_directions() {
    let g = SimpleGraph::new(2, vec![Edge::new(0, 1, 4)], false);
    let outcome = AdjacencyListGraphOutcome::from_simple(&g);
    assert_eq!(outcome.edges[0].len(), 1);
    assert_eq!(outcome.edges[1].len(), 1);
    assert_eq!(outcome.edges[0][0].from_or_to, 1);
    assert_eq!(outcome.edges[1][0].from_or_to, 0);
}
