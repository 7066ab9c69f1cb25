use ml_cnp::graph::{Graph, VecVecGraph};

#[test]
fn graph_test_test_graph() {
    let mut graph = VecVecGraph::new(5);
    for (from, to) in [(0, 1), (1, 2), (2, 3), (3, 4), (4, 0)] {
        graph.add_edge(from, to);
    }
    assert_eq!(graph.size(), 5);
    assert_eq!(graph.neighbors(0), &[1, 4]);
    assert_eq!(graph.neighbors(1), &[0, 2]);
    assert_eq!(graph.neighbors(2), &[1, 3]);
}

#[test]
fn edges_lists_each_adjacency_from_both_ends() {
    let mut graph = VecVecGraph::new(3);
    graph.add_edge(0, 1);
    graph.add_edge(2, 1);
    assert_eq!(graph.edges(), vec![(0, 1), (1, 0), (1, 2), (2, 1)]);
}

#[test]
fn new_graph_has_no_edges() {
    let graph = VecVecGraph::new(4);
    assert_eq!(graph.size(), 4);
    for node in 0..4 {
        assert!(graph.neighbors(node).is_empty());
    }
    assert!(graph.edges().is_empty());
}

#[test]
fn repeated_edge_is_listed_twice() {
    let mut graph = VecVecGraph::new(2);
    graph.add_edge(0, 1);
    graph.add_edge(1, 0);
    assert_eq!(graph.neighbors(0), &[1, 1]);
    assert_eq!(graph.neighbors(1), &[0, 0]);
    assert_eq!(graph.edges().len(), 4);
}
