use yifan_hu_rs::coarse_graph::coarse_edges;
use yifan_hu_rs::coarsen::mivs_with_order;
use yifan_hu_rs::graph::UNIT_WEIGHT_KEY;
use yifan_hu_rs::Graph;

fn graph_with(n: usize, edges: &[(usize, usize)]) -> Graph {
    let mut g = Graph::new(n);
    for &(u, v) in edges {
        g.add_edge(u, v, UNIT_WEIGHT_KEY);
    }
    g
}

#[test]
fn triangle_onto_one_vertex_has_no_coarse_edge() {
    let g = graph_with(3, &[(0, 1), (1, 2), (0, 2)]);
    let r = mivs_with_order(&g, &vec![0, 1, 2]).expect("coarsened");
    assert_eq!(r.coarse_count, 1);
    assert_eq!(coarse_edges(&g, r.coarse_count, &r.prolongation), vec![]);
}

#[test]
fn triangle_onto_two_vertices_has_one_coarse_edge() {
    let g = graph_with(3, &[(0, 1), (1, 2), (0, 2)]);
    let rows = vec![vec![0], vec![0], vec![1]];
    assert_eq!(coarse_edges(&g, 2, &rows), vec![(0, 1)]);
}

#[test]
fn coarse_edges_are_listed_once_in_order_of_first_contribution() {
    let g = graph_with(4, &[(0, 1), (1, 2), (2, 3)]);
    let rows = vec![vec![0], vec![0, 1], vec![1], vec![1]];
    assert_eq!(coarse_edges(&g, 2, &rows), vec![(0, 1)]);
    let path = graph_with(3, &[(0, 1), (1, 2)]);
    let identity = vec![vec![0], vec![1], vec![2]];
    assert_eq!(coarse_edges(&path, 3, &identity), vec![(0, 1), (1, 2)]);
    let reversed = vec![vec![2], vec![1], vec![0]];
    assert_eq!(coarse_edges(&path, 3, &reversed), vec![(1, 2), (0, 1)]);
}

#[test]
fn coarse_edges_join_every_pair_of_distinct_rows() {
    // One fine edge between a vertex shared by coarse 0 and 1 and a vertex
    // shared by coarse 1 and 2: every distinct pair across it is joined.
    let g = graph_with(2, &[(0, 1)]);
    let rows = vec![vec![0, 1], vec![1, 2]];
    assert_eq!(coarse_edges(&g, 3, &rows), vec![(0, 1), (0, 2), (1, 2)]);
}
