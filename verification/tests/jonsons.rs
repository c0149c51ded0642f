use algograph::graph_representations::Edge;
use algograph::graph_representations::SimpleGraph;
use algograph::jonsons::jonsons;

fn six_vertex_edges() -> Vec<Edge> {
    vec![
        Edge { from: 0, to: 1, length: -2 },
        Edge { from: 1, to: 2, length: -1 },
        Edge { from: 2, to: 0, length: 4 },
        Edge { from: 2, to: 3, length: -3 },
        Edge { from: 4, to: 3, length: -4 },
        Edge { from: 4, to: 5, length: 1 },
        Edge { from: 2, to: 5, length: 2 },
    ]
}

#[test]
fn johnson_all_pairs_matrix() {
    let max = i64::MAX;
    let mut graph = SimpleGraph::new(6, six_vertex_edges(), true);
    let result = jonsons(&mut graph).unwrap();
    assert_eq!(result[0], vec![0, -2, -3, -6, max, -1]);
    assert_eq!(
        result,
        vec![
            vec![0, -2, -3, -6, max, -1],
            vec![3, 0, -1, -4, max, 1],
            vec![4, 2, 0, -3, max, 2],
            vec![max, max, max, 0, max, max],
            vec![max, max, max, -4, 0, 1],
            vec![max, max, max, max, max, 0],
        ]
    );
}

#[test]
fn johnson_diagonal_is_zero() {
    let mut graph = SimpleGraph::new(6, six_vertex_edges(), true);
    let result = jonsons(&mut graph).unwrap();
    for i in 0..6 {
        assert_eq!(result[i][i], 0);
    }
}

#[test]
fn johnson_is_deterministic() {
    let mut g1 = SimpleGraph::new(6, six_vertex_edges(), true);
    let mut g2 = SimpleGraph::new(6, six_vertex_edges(), true);
    let r1 = jonsons(&mut g1).unwrap();
    let r2 = jonsons(&mut g2).unwrap();
    assert_eq!(r1, r2);
}

#[test]
fn johnson_detects_negative_cycle() {
    // Same topology, plus an added edge 1 -> 3 of length -100 and a return
    // edge 3 -> 0 closing the cycle 0 -> 1 -> 3 -> 0 with total -101.
    let mut edges = six_vertex_edges();
    edges.push(Edge { from: 1, to: 3, length: -100 });
    edges.push(Edge { from: 3, to: 0, length: 1 });
    let mut graph = SimpleGraph::new(6, edges, true);
    assert_eq!(jonsons(&mut graph), None);
}

#[test]
fn johnson_empty_graph() {
    let mut graph = SimpleGraph::new(0, vec![], true);
    let result = jonsons(&mut graph).unwrap();
    assert_eq!(result, Vec::<Vec<i64>>::new());
}

#[test]
fn johnson_reweights_the_graph_in_place() {
    let mut graph = SimpleGraph::new(6, six_vertex_edges(), true);
    jonsons(&mut graph).unwrap();
    assert_eq!(graph.size, 6);
    // every reweighted length is non-negative
    for e in &graph.edges {
        assert!(e.length >= 0);
    }
}
