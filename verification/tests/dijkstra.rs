use algograph::bellman_ford::bellman_ford;
use algograph::dijkstra::dijkstra;
use algograph::dijkstra::dijkstra_with_reweighting;
use algograph::graph_representations::AdjacencyListGraphIncome;
use algograph::graph_representations::AdjacencyListGraphOutcome;
use algograph::graph_representations::Edge;
use algograph::graph_representations::Edges;
use algograph::graph_representations::SimpleGraph;

#[test]
fn it_works() {
    let edges: Edges = vec![
        Edge::new(0, 1, 5),
        Edge::new(1, 2, 6),
        Edge::new(2, 3, 2),
        Edge::new(0, 2, 15),
    ];
    let graph = SimpleGraph::new(5, edges, false);
    let outcome = AdjacencyListGraphOutcome::from_simple(&graph);
    let result = dijkstra(&outcome, 0);
    assert_eq!(result, vec![0, 5, 11, 13, i64::MAX]);
}

#[test]
fn it_works2() {
    let edges: Edges = vec![
        Edge { from: 0, to: 1, length: 0 },
        Edge { from: 1, to: 2, length: 0 },
        Edge { from: 2, to: 0, length: 1 },
        Edge { from: 2, to: 3, length: 0 },
        Edge { from: 4, to: 3, length: 2 },
        Edge { from: 4, to: 5, length: 2 },
        Edge { from: 2, to: 5, length: 0 },
    ];

    let graph = SimpleGraph::new(6, edges, true);
    let outcome = AdjacencyListGraphOutcome::from_simple(&graph);
    let result = dijkstra(&outcome, 0);
    assert_eq!(result, vec![0, 0, 0, 0, i64::MAX, 0]);
}

#[test]
fn it_works3() {
    let edges: Edges = vec![
        Edge { from: 0, to: 1, length: 0 },
        Edge { from: 1, to: 2, length: 0 },
        Edge { from: 2, to: 0, length: 1 },
        Edge { from: 2, to: 3, length: 0 },
        Edge { from: 4, to: 3, length: 2 },
        Edge { from: 4, to: 5, length: 2 },
        Edge { from: 2, to: 5, length: 0 },
    ];

    let graph = SimpleGraph::new(6, edges, true);
    let outcome = AdjacencyListGraphOutcome::from_simple(&graph);
    let result = dijkstra(&outcome, 4);
    assert_eq!(result, vec![i64::MAX, i64::MAX, i64::MAX, 2, 0, 2]);
}

#[test]
fn it_works4() {
    let edges: Edges = vec![
        Edge { from: 0, to: 1, length: 0 },
        Edge { from: 1, to: 2, length: 0 },
        Edge { from: 2, to: 0, length: 1 },
        Edge { from: 2, to: 3, length: 0 },
        Edge { from: 4, to: 3, length: 2 },
        Edge { from: 4, to: 5, length: 2 },
        Edge { from: 2, to: 5, length: 0 },
    ];

    let graph = SimpleGraph::new(6, edges, true);
    let v = vec![0, -2, -3, -6, 0, -1, 0];
    let outcome = AdjacencyListGraphOutcome::from_simple(&graph);
    let result = dijkstra_with_reweighting(&outcome, 4, &v);
    assert_eq!(result, vec![i64::MAX, i64::MAX, i64::MAX, -4, 0, 1]);
}

#[test]
fn it_works5() {
    let edges: Edges = vec![
        Edge { from: 0, to: 1, length: 0 },
        Edge { from: 1, to: 2, length: 0 },
        Edge { from: 2, to: 0, length: 1 },
        Edge { from: 2, to: 3, length: 0 },
        Edge { from: 4, to: 3, length: 2 },
        Edge { from: 4, to: 5, length: 2 },
        Edge { from: 2, to: 5, length: 0 },
    ];

    let graph = SimpleGraph::new(6, edges, true);
    let v = vec![0, -2, -3, -6, 0, -1, 0];
    let outcome = AdjacencyListGraphOutcome::from_simple(&graph);
    let result = dijkstra_with_reweighting(&outcome, 0, &v);
    assert_eq!(result, vec![0, -2, -3, -6, i64::MAX, -1]);
}

#[test]
fn bellman_ford_and_dijkstra_agree_on_non_negative_graph() {
    let make_edges = || -> Edges {
        vec![
            Edge::new(0, 1, 5),
            Edge::new(1, 2, 6),
            Edge::new(2, 3, 2),
            Edge::new(0, 2, 15),
            Edge::new(3, 0, 1),
        ]
    };
    let graph = SimpleGraph::new(5, make_edges(), true);
    let income = AdjacencyListGraphIncome::from_simple(&graph);
    let outcome = AdjacencyListGraphOutcome::from_simple(&graph);
    for src in 0..5 {
        let by_bellman = bellman_ford(&income, src).unwrap();
        let by_dijkstra = dijkstra(&outcome, src);
        assert_eq!(by_bellman, by_dijkstra);
    }
}
