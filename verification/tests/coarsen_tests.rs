use rand::rngs::StdRng;
use rand::SeedableRng;
use yifan_hu_rs::coarsen::{edge_collapse_with_orders, mivs_with_order};
use yifan_hu_rs::graph::UNIT_WEIGHT_KEY;
use yifan_hu_rs::{coarsen, CoarseningStrategy, Graph, Neighbor};

/// The largest coarse vertex count whose ratio to `n` is within `ratio`.
fn max_coarse_count(ratio: f64, n: usize) -> usize {
    let mut best = 0;
    for c in 1..=n {
        if c as f64 / n as f64 <= ratio {
            best = c;
        } else {
            break;
        }
    }
    best
}

fn path_graph(n: usize) -> Graph {
    let mut g = Graph::new(n);
    for i in 0..n - 1 {
        g.add_edge(i, i + 1, UNIT_WEIGHT_KEY);
    }
    g
}

fn lists(g: &Graph, u: usize, v: usize) -> bool {
    g.neighbors(u).iter().any(|n| n.target == v)
}

#[test]
fn edge_collapse_reduces_vertex_count() {
    let graph = path_graph(6);
    let mut rng = StdRng::seed_from_u64(42);
    let result = coarsen(&graph, CoarseningStrategy::EdgeCollapse, max_coarse_count(0.75, 6), &mut rng)
        .expect("coarsened");
    assert!(result.coarse_count < graph.node_count());
    assert_eq!(result.used_strategy, CoarseningStrategy::EdgeCollapse);
}

#[test]
fn hybrid_falls_back_to_mivs_when_ratio_exceeds_threshold() {
    let graph = path_graph(8);
    let mut rng = StdRng::seed_from_u64(7);
    let result = coarsen(&graph, CoarseningStrategy::Hybrid, max_coarse_count(0.1, 8), &mut rng).expect("coarsened");
    assert_eq!(result.used_strategy, CoarseningStrategy::Mivs);
    assert!(result.coarse_count < graph.node_count());
}

#[test]
fn hybrid_keeps_edge_collapse_within_threshold() {
    let graph = path_graph(8);
    let mut rng = StdRng::seed_from_u64(7);
    let result = coarsen(&graph, CoarseningStrategy::Hybrid, max_coarse_count(0.75, 8), &mut rng).expect("coarsened");
    assert_eq!(result.used_strategy, CoarseningStrategy::EdgeCollapse);
}

#[test]
fn max_coarse_count_follows_ratio() {
    assert_eq!(max_coarse_count(0.75, 6), 4);
    assert_eq!(max_coarse_count(0.1, 8), 0);
    assert_eq!(max_coarse_count(1.0, 5), 5);
}

#[test]
fn small_graphs_are_not_coarsened() {
    let mut rng = StdRng::seed_from_u64(1);
    for strategy in [CoarseningStrategy::EdgeCollapse, CoarseningStrategy::Mivs, CoarseningStrategy::Hybrid] {
        assert!(coarsen(&path_graph(2), strategy, 2, &mut rng).is_none());
        assert!(coarsen(&Graph::new(1), strategy, 1, &mut rng).is_none());
    }
}

#[test]
fn edge_collapse_groups_form_a_matching() {
    let mut graph = path_graph(9);
    graph.add_edge(0, 5, UNIT_WEIGHT_KEY);
    graph.add_edge(2, 7, UNIT_WEIGHT_KEY);
    for seed in 0..20u64 {
        let mut rng = StdRng::seed_from_u64(seed);
        let r = coarsen(&graph, CoarseningStrategy::EdgeCollapse, 9, &mut rng).expect("coarsened");
        assert!(r.coarse_count < 9);
        let mut members: Vec<Vec<usize>> = vec![Vec::new(); r.coarse_count];
        for (f, row) in r.prolongation.iter().enumerate() {
            assert_eq!(row.len(), 1);
            assert!(row[0] < r.coarse_count);
            members[row[0]].push(f);
        }
        for group in &members {
            assert!(group.len() == 1 || group.len() == 2);
            if group.len() == 2 {
                assert!(lists(&graph, group[0], group[1]));
            }
        }
    }
}

#[test]
fn mivs_with_order_on_path() {
    let graph = path_graph(5);
    let r = mivs_with_order(&graph, &vec![0, 1, 2, 3, 4]).expect("coarsened");
    assert_eq!(r.coarse_count, 3);
    assert_eq!(r.used_strategy, CoarseningStrategy::Mivs);
    assert_eq!(r.prolongation, vec![vec![0], vec![0, 1], vec![1], vec![1, 2], vec![2]]);
}

#[test]
fn mivs_with_order_follows_the_order() {
    let graph = path_graph(5);
    let r = mivs_with_order(&graph, &vec![1, 3, 0, 2, 4]).expect("coarsened");
    assert_eq!(r.coarse_count, 2);
    assert_eq!(r.prolongation, vec![vec![0], vec![0], vec![0, 1], vec![1], vec![1]]);
}

#[test]
fn mivs_with_order_on_star() {
    let mut graph = Graph::new(4);
    for i in 1..4 {
        graph.add_edge(0, i, UNIT_WEIGHT_KEY);
    }
    let r = mivs_with_order(&graph, &vec![0, 1, 2, 3]).expect("coarsened");
    assert_eq!(r.coarse_count, 1);
    assert_eq!(r.prolongation, vec![vec![0]; 4]);
    let r2 = mivs_with_order(&graph, &vec![3, 0, 1, 2]).expect("coarsened");
    assert_eq!(r2.coarse_count, 3);
    assert_eq!(r2.prolongation, vec![vec![0, 1, 2], vec![0], vec![1], vec![2]]);
}

#[test]
fn mivs_without_edges_keeps_every_vertex() {
    let graph = Graph::new(4);
    assert!(mivs_with_order(&graph, &vec![2, 0, 1, 3]).is_none());
    assert!(mivs_with_order(&Graph::new(1), &vec![0]).is_none());
}

fn directed(n: usize, arcs: &[(usize, usize)]) -> Graph {
    let mut g = Graph::new(n);
    for &(u, v) in arcs {
        g.nodes[u].neighbors.push(Neighbor { target: v, weight: UNIT_WEIGHT_KEY });
    }
    g
}

#[test]
fn mivs_falls_back_to_nearest_set_vertices() {
    // 0 lists 1 and 2, 1 lists 2, 2 lists 3: vertex 1 lists no set vertex,
    // and the set vertex 3 is two edges away from it.
    let g = directed(4, &[(0, 1), (0, 2), (1, 2), (2, 3)]);
    let r = mivs_with_order(&g, &vec![0, 1, 2, 3]).expect("coarsened");
    assert_eq!(r.coarse_count, 2);
    assert_eq!(r.prolongation, vec![vec![0], vec![1], vec![1], vec![1]]);
}

#[test]
fn mivs_falls_back_to_first_vertex_of_order() {
    // Vertex 1 lists nothing, so no set vertex can be reached from it.
    let g = directed(2, &[(0, 1)]);
    let r = mivs_with_order(&g, &vec![0, 1]).expect("coarsened");
    assert_eq!(r.coarse_count, 1);
    assert_eq!(r.prolongation, vec![vec![0], vec![0]]);
}

#[test]
fn nearest_fallback_stops_after_three_edges() {
    // 0 lists 1..4 and the chain 1 -> 2 -> 3 -> 4 -> 5 leads to the set vertex 5.
    let g = directed(6, &[(0, 1), (0, 2), (0, 3), (0, 4), (1, 2), (2, 3), (3, 4), (4, 5)]);
    let r = mivs_with_order(&g, &vec![0, 5, 1, 2, 3, 4]).expect("coarsened");
    assert_eq!(r.coarse_count, 2);
    // Vertex 1 is four edges from 5, too far: it falls back to vertex 0.
    assert_eq!(r.prolongation, vec![vec![0], vec![0], vec![1], vec![1], vec![1], vec![1]]);
}

#[test]
fn mivs_rows_are_sound_on_random_orders() {
    let mut graph = path_graph(12);
    graph.add_edge(0, 6, UNIT_WEIGHT_KEY);
    graph.add_edge(3, 9, UNIT_WEIGHT_KEY);
    for seed in 0..20u64 {
        let mut rng = StdRng::seed_from_u64(seed);
        let r = coarsen(&graph, CoarseningStrategy::Mivs, 12, &mut rng).expect("coarsened");
        assert!(r.coarse_count >= 1 && r.coarse_count < 12);
        for row in &r.prolongation {
            assert!(!row.is_empty());
            assert!(row.windows(2).all(|w| w[0] < w[1]));
            assert!(row.iter().all(|&c| c < r.coarse_count));
        }
    }
}

fn collapse_groups(graph: &Graph, seed: u64) -> Vec<Vec<usize>> {
    let mut rng = StdRng::seed_from_u64(seed);
    let n = graph.node_count();
    let r = coarsen(graph, CoarseningStrategy::EdgeCollapse, n, &mut rng).expect("coarsened");
    let mut members: Vec<Vec<usize>> = vec![Vec::new(); r.coarse_count];
    for (f, row) in r.prolongation.iter().enumerate() {
        members[row[0]].push(f);
    }
    members
}

#[test]
fn edge_collapse_leaves_no_two_adjacent_vertices_unpaired() {
    let mut graph = path_graph(9);
    graph.add_edge(0, 5, UNIT_WEIGHT_KEY);
    graph.add_edge(2, 7, UNIT_WEIGHT_KEY);
    for seed in 0..20u64 {
        let singles: Vec<usize> =
            collapse_groups(&graph, seed).into_iter().filter(|g| g.len() == 1).map(|g| g[0]).collect();
        for &a in &singles {
            for &b in &singles {
                assert!(!lists(&graph, a, b));
            }
        }
    }
}

#[test]
fn edge_collapse_pairs_heaviest_neighbors() {
    // Two heavy edges {0, 1} and {2, 3}, joined by light edges: whatever the
    // order, each vertex met first takes its heavy partner.
    let heavy = UNIT_WEIGHT_KEY + (10u64 << 52);
    let mut graph = Graph::new(4);
    graph.add_edge(0, 2, UNIT_WEIGHT_KEY);
    graph.add_edge(0, 1, heavy);
    graph.add_edge(1, 3, UNIT_WEIGHT_KEY);
    graph.add_edge(3, 2, heavy);
    for seed in 0..20u64 {
        let mut groups = collapse_groups(&graph, seed);
        groups.sort();
        assert_eq!(groups, vec![vec![0, 1], vec![2, 3]]);
    }
}

fn triangle(w01: u64, w12: u64, w02: u64) -> Graph {
    let mut g = Graph::new(3);
    g.add_edge(0, 1, w01);
    g.add_edge(1, 2, w12);
    g.add_edge(0, 2, w02);
    g
}

#[test]
fn edge_collapse_with_orders_on_triangle() {
    let g = triangle(UNIT_WEIGHT_KEY, UNIT_WEIGHT_KEY, UNIT_WEIGHT_KEY);
    let order = vec![0, 1, 2];
    let in_list_order = vec![vec![0, 1], vec![0, 1], vec![0, 1]];
    let r = edge_collapse_with_orders(&g, &order, &in_list_order).expect("coarsened");
    assert_eq!(r.coarse_count, 2);
    assert_eq!(r.prolongation, vec![vec![0], vec![0], vec![1]]);
    assert_eq!(r.used_strategy, CoarseningStrategy::EdgeCollapse);
    // Equal weights: the first neighbor in the scan order wins.
    let reversed = vec![vec![1, 0], vec![0, 1], vec![0, 1]];
    let r = edge_collapse_with_orders(&g, &order, &reversed).expect("coarsened");
    assert_eq!(r.prolongation, vec![vec![0], vec![1], vec![0]]);
}

#[test]
fn edge_collapse_with_orders_prefers_heavier_edge() {
    let heavy = UNIT_WEIGHT_KEY + (1u64 << 52);
    let g = triangle(UNIT_WEIGHT_KEY, UNIT_WEIGHT_KEY, heavy);
    let r = edge_collapse_with_orders(&g, &vec![0, 1, 2], &vec![vec![0, 1], vec![0, 1], vec![0, 1]]).expect("coarsened");
    assert_eq!(r.prolongation, vec![vec![0], vec![1], vec![0]]);
    let r = edge_collapse_with_orders(&g, &vec![1, 0, 2], &vec![vec![0, 1], vec![0, 1], vec![0, 1]]).expect("coarsened");
    // Vertex 1 goes first and takes 0 (listed first, same weight as 2); 2 stays alone.
    assert_eq!(r.prolongation, vec![vec![0], vec![0], vec![1]]);
}

#[test]
fn edge_collapse_with_orders_without_edges_gives_nothing() {
    let g = Graph::new(3);
    assert!(edge_collapse_with_orders(&g, &vec![2, 0, 1], &vec![vec![], vec![], vec![]]).is_none());
}
