use hasty::graph::{Graph, GraphError};

fn graph_with(names: Vec<&str>) -> Graph {
    let mut g = Graph::new();
    for n in names {
        g.add_node(String::from(n));
    }
    g
}

#[test]
fn edges_within_order_are_accepted() {
    let mut g = graph_with(vec!["a", "b", "c"]);
    assert!(g.add_edge(0, 1).is_ok());
    assert!(g.add_edge(1, 2).is_ok());
    assert!(g.add_edge(0, 2).is_ok());
    assert_eq!(g.edges.len(), 3);
}

#[test]
fn back_edge_that_closes_a_cycle_is_refused() {
    let mut g = graph_with(vec!["a", "b"]);
    assert!(g.add_edge(0, 1).is_ok());
    match g.add_edge(1, 0) {
        Err(GraphError::WouldCycle) => {},
        other => panic!("expected a cycle refusal, got {:?}", other),
    }
    assert_eq!(g.edges.len(), 1);
}

#[test]
fn self_loop_is_refused() {
    let mut g = graph_with(vec!["a"]);
    assert!(matches!(g.add_edge(0, 0), Err(GraphError::WouldCycle)));
    assert_eq!(g.edges.len(), 0);
}

#[test]
fn back_edge_without_cycle_reorders() {
    // Inserting an edge against the current order succeeds when no cycle
    // results; the stored order is rebuilt.
    let mut g = graph_with(vec!["a", "b"]);
    assert!(g.add_edge(1, 0).is_ok());
    let order = g.topo_order().clone();
    let a_at = order.iter().position(|v| *v == 0).unwrap();
    let b_at = order.iter().position(|v| *v == 1).unwrap();
    assert!(b_at < a_at);
}

#[test]
fn longer_cycle_is_refused_at_the_closing_edge() {
    let mut g = graph_with(vec!["a", "b", "c"]);
    assert!(g.add_edge(0, 1).is_ok());
    assert!(g.add_edge(1, 2).is_ok());
    assert!(matches!(g.add_edge(2, 0), Err(GraphError::WouldCycle)));
}

#[test]
fn find_node_index_returns_first_match() {
    let g = graph_with(vec!["a", "b"]);
    assert_eq!(g.find_node_index("a"), Some(0));
    assert_eq!(g.find_node_index("b"), Some(1));
    assert_eq!(g.find_node_index("c"), None);
}

#[test]
fn topo_order_respects_every_edge() {
    let mut g = graph_with(vec!["a", "b", "c", "d"]);
    assert!(g.add_edge(3, 1).is_ok());
    assert!(g.add_edge(1, 0).is_ok());
    assert!(g.add_edge(3, 2).is_ok());
    let order = g.topo_order().clone();
    let pos = |v: usize| order.iter().position(|x| *x == v).unwrap();
    assert!(pos(3) < pos(1));
    assert!(pos(1) < pos(0));
    assert!(pos(3) < pos(2));
}

#[test]
fn preds_lists_sources_in_edge_order() {
    let mut g = graph_with(vec!["a", "b", "c"]);
    assert!(g.add_edge(0, 2).is_ok());
    assert!(g.add_edge(1, 2).is_ok());
    assert_eq!(g.preds_of(2), vec![0, 1]);
    assert_eq!(g.preds_of(0), Vec::<usize>::new());
}
