use yifan_hu_rs::graph::UNIT_WEIGHT_KEY;
use yifan_hu_rs::{Graph, GraphError, GraphLoader};

fn parse_message<T: std::fmt::Debug>(res: Result<T, GraphError>) -> String {
    match res {
        Err(GraphError::Parse(m)) => m,
        other => panic!("expected a parse error, got {:?}", other),
    }
}

/// Feeds `lines` to a loader the way the program does, with weight 1.0 for
/// every edge.
fn load(lines: &[&str]) -> Result<Graph, GraphError> {
    let mut loader = GraphLoader::new();
    for (idx, line) in lines.iter().enumerate() {
        if let Some(edge) = loader.read_line(idx, line)? {
            loader.add_edge_line(&edge, UNIT_WEIGHT_KEY)?;
        }
    }
    loader.finish()
}

#[test]
fn loads_edge_list_with_comments_and_blank_lines() {
    let g = load(&["# a path", "", "   ", "4", "0 1", "  # another comment", "1\t2", "2 3 0.5"]).unwrap();
    assert_eq!(g.node_count(), 4);
    assert_eq!(g.edge_count(), 3);
    assert_eq!(g.neighbors(1).len(), 2);
}

#[test]
fn edge_line_carries_weight_token() {
    let mut loader = GraphLoader::new();
    assert!(loader.read_line(0, "3").unwrap().is_none());
    let edge = loader.read_line(1, "0 2 2.5 extra").unwrap().unwrap();
    assert_eq!(edge.line_idx, 1);
    assert_eq!((edge.u, edge.v), (0, 2));
    assert_eq!(edge.weight_token.as_deref(), Some("2.5"));
    let plain = loader.read_line(2, "1 2").unwrap().unwrap();
    assert_eq!(plain.weight_token, None);
}

#[test]
fn accepts_plus_sign_and_unicode_whitespace() {
    let g = load(&["+3", "0\u{3000}+2"]).unwrap();
    assert_eq!(g.node_count(), 3);
    assert_eq!(g.neighbors(0)[0].target, 2);
}

#[test]
fn rejects_invalid_node_count() {
    assert_eq!(parse_message(load(&["abc"])), "Invalid node count 'abc' on line 1");
    assert_eq!(parse_message(load(&["", "-3"])), "Invalid node count '-3' on line 2");
    assert_eq!(
        parse_message(load(&["99999999999999999999999"])),
        "Invalid node count '99999999999999999999999' on line 1"
    );
}

#[test]
fn rejects_zero_vertices() {
    assert_eq!(parse_message(load(&["0"])), "Graph must have at least one vertex");
}

#[test]
fn rejects_short_edge_line() {
    assert_eq!(parse_message(load(&["3", "1"])), "Expected edge definition on line 2");
}

#[test]
fn rejects_invalid_vertices() {
    assert_eq!(parse_message(load(&["3", "x 1"])), "Invalid vertex 'x' on line 2");
    assert_eq!(parse_message(load(&["3", "# c", "1 2.0"])), "Invalid vertex '2.0' on line 3");
}

#[test]
fn rejects_out_of_bounds_vertices() {
    assert_eq!(parse_message(load(&["3", "0 1", "0 3"])), "Vertex index out of bounds on line 3");
}

#[test]
fn rejects_missing_node_count() {
    assert_eq!(parse_message(load(&["# only a comment", ""])), "File did not contain a node count");
}

#[test]
fn invalid_weight_message() {
    let e = GraphError::invalid_weight("abc", 4);
    assert_eq!(parse_message::<()>(Err(e)), "Invalid weight 'abc' on line 5");
}

#[test]
fn whole_input_gives_new_graph_with_edges_in_order() {
    let g = load(&["# triangle plus tail", "4", "2 1", "0 2", "", "1 2", "3 0"]).unwrap();
    let mut expected = Graph::new(4);
    expected.add_edge(2, 1, UNIT_WEIGHT_KEY);
    expected.add_edge(0, 2, UNIT_WEIGHT_KEY);
    expected.add_edge(1, 2, UNIT_WEIGHT_KEY);
    expected.add_edge(3, 0, UNIT_WEIGHT_KEY);
    for u in 0..4 {
        let got: Vec<(usize, u64)> = g.neighbors(u).iter().map(|n| (n.target, n.weight)).collect();
        let want: Vec<(usize, u64)> = expected.neighbors(u).iter().map(|n| (n.target, n.weight)).collect();
        assert_eq!(got, want);
        assert_eq!(g.node_weight(u), UNIT_WEIGHT_KEY);
    }
}

#[test]
fn whole_input_stops_at_first_failing_line() {
    let res = load(&["3", "0 1", "0 x", "5 0", "1"]);
    assert_eq!(parse_message(res), "Invalid vertex 'x' on line 3");
}
