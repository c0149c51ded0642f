use algograph::bellman_ford::bellman_ford;
use algograph::graph_representations::AdjacencyListGraphIncome;
use algograph::graph_representations::Edge;
use algograph::graph_representations::SimpleGraph;

#[test]
fn lib_it_works() {
    let edges = vec![
        Edge { from: 0, to: 1, length: 2 },
        Edge { from: 1, to: 2, length: 2 },
        Edge { from: 2, to: 3, length: 2 },
        Edge { from: 4, to: 3, length: 4 },
        Edge { from: 1, to: 4, length: 1 },
        Edge { from: 0, to: 4, length: 4 },
    ];

    let simple_graph = SimpleGraph::new(5, edges, true);

    let graph = AdjacencyListGraphIncome::from_simple(&simple_graph);
    let result = bellman_ford(&graph, 0).unwrap();
    assert_eq!(result, vec![0, 2, 4, 6, 3]);
}

#[test]
fn it_works_negative() {
    let edges = vec![
        Edge { from: 0, to: 1, length: -2 },
        Edge { from: 1, to: 2, length: -1 },
        Edge { from: 2, to: 0, length: 4 },
        Edge { from: 2, to: 3, length: -3 },
        Edge { from: 4, to: 3, length: -4 },
        Edge { from: 4, to: 5, length: 1 },
        Edge { from: 2, to: 5, length: 2 },
        Edge { from: 6, to: 0, length: 0 },
        Edge { from: 6, to: 1, length: 0 },
        Edge { from: 6, to: 2, length: 0 },
        Edge { from: 6, to: 3, length: 0 },
        Edge { from: 6, to: 4, length: 0 },
        Edge { from: 6, to: 5, length: 0 },
    ];

    let simple_graph = SimpleGraph::new(7, edges, true);

    let graph = AdjacencyListGraphIncome::from_simple(&simple_graph);
    let result = bellman_ford(&graph, 6).unwrap();
    assert_eq!(result, vec![0, -2, -3, -6, 0, -1, 0]);
}

#[test]
fn bellman_ford_reports_negative_cycle() {
    // 0 -> 1 -> 2 -> 0 sums to -1: no round stabilises.
    let edges = vec![
        Edge { from: 0, to: 1, length: 1 },
        Edge { from: 1, to: 2, length: 1 },
        Edge { from: 2, to: 0, length: -3 },
    ];
    let simple_graph = SimpleGraph::new(3, edges, true);
    let graph = AdjacencyListGraphIncome::from_simple(&simple_graph);
    assert_eq!(bellman_ford(&graph, 0), None);
}

#[test]
fn bellman_ford_marks_unreachable() {
    let edges = vec![Edge { from: 0, to: 1, length: 7 }];
    let simple_graph = SimpleGraph::new(3, edges, true);
    let graph = AdjacencyListGraphIncome::from_simple(&simple_graph);
    let result = bellman_ford(&graph, 0).unwrap();
    assert_eq!(result, vec![0, 7, i64::MAX]);
}
