use yifan_hu_rs::graph::UNIT_WEIGHT_KEY;
use yifan_hu_rs::Graph;

fn weight_key(w: f64) -> u64 {
    if w == 0.0 {
        return 1u64 << 63;
    }
    let bits = w.to_bits();
    if bits >> 63 == 1 {
        !bits
    } else {
        bits | (1u64 << 63)
    }
}

fn path_graph(n: usize) -> Graph {
    let mut g = Graph::new(n);
    for i in 0..n - 1 {
        g.add_edge(i, i + 1, UNIT_WEIGHT_KEY);
    }
    g
}

#[test]
fn unit_weight_key_is_key_of_one() {
    assert_eq!(UNIT_WEIGHT_KEY, weight_key(1.0));
}

#[test]
fn new_graph_has_unit_weights_and_no_edges() {
    let g = Graph::new(3);
    assert_eq!(g.node_count(), 3);
    assert_eq!(g.edge_count(), 0);
    for i in 0..3 {
        assert_eq!(g.node_weight(i), UNIT_WEIGHT_KEY);
        assert!(g.neighbors(i).is_empty());
    }
}

#[test]
fn add_edge_links_both_ends_once() {
    let mut g = Graph::new(3);
    g.add_edge(0, 2, weight_key(2.5));
    g.add_edge(2, 0, weight_key(7.0));
    g.add_edge(0, 2, weight_key(9.0));
    assert_eq!(g.neighbors(0).len(), 1);
    assert_eq!(g.neighbors(2).len(), 1);
    assert_eq!(g.neighbors(0)[0].target, 2);
    assert_eq!(g.neighbors(2)[0].target, 0);
    assert_eq!(g.neighbors(0)[0].weight, weight_key(2.5));
    assert_eq!(g.neighbors(2)[0].weight, weight_key(2.5));
    assert!(g.neighbors(1).is_empty());
    assert_eq!(g.edge_count(), 1);
}

#[test]
fn add_edge_ignores_loops() {
    let mut g = Graph::new(2);
    g.add_edge(1, 1, UNIT_WEIGHT_KEY);
    assert!(g.neighbors(1).is_empty());
    assert_eq!(g.edge_count(), 0);
}

#[test]
fn edge_count_of_path() {
    let g = path_graph(6);
    assert_eq!(g.edge_count(), 5);
}

#[test]
fn set_node_weight_changes_one_vertex() {
    let mut g = Graph::new(2);
    g.set_node_weight(1, weight_key(3.0));
    assert_eq!(g.node_weight(1), weight_key(3.0));
    assert_eq!(g.node_weight(0), UNIT_WEIGHT_KEY);
}

#[test]
fn diameter_of_path() {
    assert_eq!(path_graph(5).approximate_diameter(), 4);
}

#[test]
fn diameter_of_path_started_in_the_middle() {
    // Vertex 0 sits in the middle of the path 3 - 1 - 0 - 2 - 4.
    let mut g = Graph::new(5);
    g.add_edge(0, 1, UNIT_WEIGHT_KEY);
    g.add_edge(1, 3, UNIT_WEIGHT_KEY);
    g.add_edge(0, 2, UNIT_WEIGHT_KEY);
    g.add_edge(2, 4, UNIT_WEIGHT_KEY);
    assert_eq!(g.approximate_diameter(), 4);
}

#[test]
fn diameter_of_cycle_and_star() {
    let mut cycle = Graph::new(6);
    for i in 0..6 {
        cycle.add_edge(i, (i + 1) % 6, UNIT_WEIGHT_KEY);
    }
    assert_eq!(cycle.approximate_diameter(), 3);
    let mut star = Graph::new(5);
    for i in 1..5 {
        star.add_edge(0, i, UNIT_WEIGHT_KEY);
    }
    assert_eq!(star.approximate_diameter(), 2);
}

#[test]
fn diameter_of_tiny_and_disconnected_graphs() {
    assert_eq!(Graph::new(1).approximate_diameter(), 0);
    assert_eq!(Graph::new(0).approximate_diameter(), 0);
    assert_eq!(Graph::new(3).approximate_diameter(), 0);
    // The component of vertex 0 is a single edge; the longer path elsewhere is not seen.
    let mut g = Graph::new(6);
    g.add_edge(0, 1, UNIT_WEIGHT_KEY);
    g.add_edge(2, 3, UNIT_WEIGHT_KEY);
    g.add_edge(3, 4, UNIT_WEIGHT_KEY);
    g.add_edge(4, 5, UNIT_WEIGHT_KEY);
    assert_eq!(g.approximate_diameter(), 1);
}

#[test]
fn diameter_takes_first_farthest_vertex_in_search_order() {
    // A 4-cycle 0-1-2-3 with vertex 4 hanging off vertex 1. From 0 the search
    // meets 2 before 4 at depth 2; sweeping on from 2 gives no more, so the
    // estimate is 2 (sweeping on from 4 would give 3).
    let mut g = Graph::new(5);
    g.add_edge(0, 1, weight_key(1.0));
    g.add_edge(1, 2, weight_key(1.0));
    g.add_edge(2, 3, weight_key(1.0));
    g.add_edge(3, 0, weight_key(1.0));
    g.add_edge(1, 4, weight_key(1.0));
    assert_eq!(g.approximate_diameter(), 2);
}

#[test]
fn adjacency_lists_follow_the_order_of_the_edges() {
    let heavy = weight_key(2.0);
    let light = weight_key(1.0);
    let mut g = Graph::new(3);
    g.add_edge(0, 1, heavy);
    g.add_edge(2, 1, light);
    g.add_edge(1, 0, light);
    let targets = |g: &Graph, u: usize| g.neighbors(u).iter().map(|n| (n.target, n.weight)).collect::<Vec<_>>();
    assert_eq!(targets(&g, 0), vec![(1, heavy)]);
    assert_eq!(targets(&g, 1), vec![(0, heavy), (2, light)]);
    assert_eq!(targets(&g, 2), vec![(1, light)]);
    for u in 0..3 {
        assert_eq!(g.node_weight(u), UNIT_WEIGHT_KEY);
    }
}
