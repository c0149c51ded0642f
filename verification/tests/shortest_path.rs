use algograph::shortest_path::shortest_path;
use algograph::shortest_path::Graph;

#[test]
fn shortest_path_on_pair_adjacency() {
    let g = Graph {
        edges: vec![vec![(1, 5), (2, 15)], vec![(2, 6)], vec![(3, 2)], vec![], vec![]],
        size: 5,
    };
    let result = shortest_path(g, 0);
    assert_eq!(result, vec![0, 5, 11, 13, i64::MAX]);
}

#[test]
fn shortest_path_from_an_isolated_vertex() {
    let g = Graph { edges: vec![vec![(1, 3)], vec![], vec![]], size: 3 };
    let result = shortest_path(g, 2);
    assert_eq!(result, vec![i64::MAX, i64::MAX, 0]);
}
