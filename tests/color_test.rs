use ml_cnp::algo::{ColorAlgorithm, HeuristicColoring};
use ml_cnp::graph::VecVecGraph;
use std::rc::Rc;

/// Five nodes joined in a cycle.
fn easy_graph() -> Rc<VecVecGraph> {
    let mut graph = VecVecGraph::new(5);
    for (from, to) in [(0, 1), (1, 2), (2, 3), (3, 4), (4, 0)] {
        graph.add_edge(from, to);
    }
    Rc::new(graph)
}

#[test]
fn color_test_test_heuristic() {
    let graph = easy_graph();
    let mut algo = HeuristicColoring::create(2, graph.clone());
    let res = algo.color(2);
    assert_eq!(res, None);

    let mut algo = HeuristicColoring::create(3, graph.clone());
    let res = algo.color(3);
    assert!(res.is_some());
    assert!(algo.validate(&res.unwrap()));
}
