use ml_cnp::algo::{ColorAlgorithm, HeuristicColoring, NaiveColoring};
use ml_cnp::graph::{Graph, VecVecGraph};
use std::rc::Rc;

fn graph_of(size: usize, edges: &[(usize, usize)]) -> Rc<VecVecGraph> {
    let mut graph = VecVecGraph::new(size);
    for &(from, to) in edges {
        graph.add_edge(from, to);
    }
    Rc::new(graph)
}

fn cycle(size: usize) -> Rc<VecVecGraph> {
    let edges: Vec<(usize, usize)> = (0..size).map(|i| (i, (i + 1) % size)).collect();
    graph_of(size, &edges)
}

fn complete(size: usize) -> Rc<VecVecGraph> {
    let mut edges = Vec::new();
    for i in 0..size {
        for j in 0..i {
            edges.push((i, j));
        }
    }
    graph_of(size, &edges)
}

fn petersen() -> Rc<VecVecGraph> {
    let mut edges = Vec::new();
    for i in 0..5 {
        edges.push((i, (i + 1) % 5));
        edges.push((i, i + 5));
        edges.push((i + 5, (i + 2) % 5 + 5));
    }
    graph_of(10, &edges)
}

fn heuristic(graph: &Rc<VecVecGraph>, k: usize) -> (Option<Vec<usize>>, bool) {
    let mut algo = HeuristicColoring::create(k, graph.clone());
    let res = algo.color(k);
    let valid = res.as_ref().map_or(true, |c| algo.validate(c));
    (res, valid)
}

fn naive(graph: &Rc<VecVecGraph>, k: usize) -> (Option<Vec<usize>>, bool) {
    let mut algo = NaiveColoring::create(k, graph.clone());
    let res = algo.color(k);
    let valid = res.as_ref().map_or(true, |c| algo.validate(c));
    (res, valid)
}

fn small_graphs() -> Vec<Rc<VecVecGraph>> {
    vec![
        graph_of(0, &[]),
        graph_of(1, &[]),
        graph_of(4, &[]),
        graph_of(2, &[(0, 1)]),
        cycle(4),
        cycle(5),
        cycle(7),
        complete(3),
        complete(4),
        complete(5),
        petersen(),
        graph_of(6, &[(0, 1), (0, 2), (1, 2), (3, 4), (4, 5), (3, 5), (2, 3)]),
        graph_of(6, &[(0, 3), (0, 4), (0, 5), (1, 3), (1, 4), (1, 5), (2, 3), (2, 4), (2, 5)]),
        graph_of(7, &[(0, 1), (0, 2), (0, 3), (1, 2), (2, 3), (3, 4), (4, 5), (5, 6), (6, 4), (1, 6)]),
    ]
}

#[test]
fn heuristic_and_naive_agree_on_existence() {
    for graph in small_graphs() {
        for k in 0..5 {
            let (h, _) = heuristic(&graph, k);
            let (n, _) = naive(&graph, k);
            assert_eq!(h.is_some(), n.is_some(), "size {} colors {}", graph.size(), k);
        }
    }
}

#[test]
fn every_coloring_found_validates() {
    for graph in small_graphs() {
        for k in 0..5 {
            let (h, hv) = heuristic(&graph, k);
            let (n, nv) = naive(&graph, k);
            assert!(hv && nv);
            for c in h.iter().chain(n.iter()) {
                assert_eq!(c.len(), graph.size());
                assert!(c.iter().all(|&x| x < k));
            }
        }
    }
}

#[test]
fn more_colors_never_hurt() {
    for graph in small_graphs() {
        for k in 0..5 {
            if heuristic(&graph, k).0.is_some() {
                assert!(heuristic(&graph, k + 1).0.is_some());
                assert!(naive(&graph, k + 1).0.is_some());
            }
        }
    }
}

#[test]
fn five_cycle_needs_three_colors() {
    let graph = cycle(5);
    assert_eq!(heuristic(&graph, 2).0, None);
    let (res, valid) = heuristic(&graph, 3);
    assert!(res.is_some());
    assert!(valid);
}

#[test]
fn edgeless_graph_takes_one_color() {
    for n in 0..6 {
        let graph = graph_of(n, &[]);
        let (h, _) = heuristic(&graph, 1);
        assert_eq!(h, Some(vec![0; n]));
        let (r, _) = naive(&graph, 1);
        assert_eq!(r, Some(vec![0; n]));
    }
}

#[test]
fn complete_graph_needs_all_its_colors() {
    for k in 1..6 {
        let graph = complete(k);
        let (res, valid) = heuristic(&graph, k);
        assert!(res.is_some() && valid);
        let mut seen = res.unwrap();
        seen.sort();
        assert_eq!(seen, (0..k).collect::<Vec<_>>());
        assert_eq!(heuristic(&graph, k - 1).0, None);
        assert_eq!(naive(&graph, k - 1).0, None);
    }
}

#[test]
fn empty_graph_succeeds_with_any_budget() {
    let graph = graph_of(0, &[]);
    for k in 0..4 {
        assert_eq!(heuristic(&graph, k).0, Some(vec![]));
        assert_eq!(naive(&graph, k).0, Some(vec![]));
    }
}

#[test]
fn no_colors_fail_on_a_node() {
    let graph = graph_of(1, &[]);
    assert_eq!(heuristic(&graph, 0).0, None);
    assert_eq!(naive(&graph, 0).0, None);
}

#[test]
fn naive_takes_the_first_colors_in_index_order() {
    let graph = cycle(5);
    assert_eq!(naive(&graph, 3).0, Some(vec![0, 1, 0, 1, 2]));
}

#[test]
fn validate_rejects_a_clash() {
    let graph = cycle(4);
    let algo = NaiveColoring::create(2, graph.clone());
    assert!(algo.validate(&[0, 1, 0, 1]));
    assert!(!algo.validate(&[0, 0, 1, 0]));
    let algo = HeuristicColoring::create(2, graph.clone());
    assert!(algo.validate(&[1, 0, 1, 0]));
    assert!(!algo.validate(&[1, 0, 0, 1]));
}

#[test]
fn a_search_can_run_twice() {
    let graph = petersen();
    let mut algo = HeuristicColoring::create(3, graph.clone());
    let first = algo.color(3);
    let second = algo.color(3);
    assert!(first.is_some());
    assert_eq!(first, second);
    let mut algo = HeuristicColoring::create(2, graph.clone());
    assert_eq!(algo.color(2), None);
    assert_eq!(algo.color(2), None);
}

#[test]
fn graph_is_shared_not_copied() {
    let graph = cycle(6);
    let algo = HeuristicColoring::create(2, graph.clone());
    assert_eq!(algo.graph().size(), 6);
    assert_eq!(algo.graph().neighbors(0), &[1, 5]);
}

#[test]
fn a_self_loop_leaves_no_coloring() {
    let graph = graph_of(3, &[(0, 1), (2, 2)]);
    for k in 0..4 {
        assert_eq!(heuristic(&graph, k).0, None);
        assert_eq!(naive(&graph, k).0, None);
    }
}

#[test]
fn validate_reads_only_the_first_entries_of_a_longer_slice() {
    let graph = cycle(4);
    let algo = NaiveColoring::create(2, graph.clone());
    assert!(algo.validate(&[0, 1, 0, 1, 0, 0]));
    assert!(!algo.validate(&[0, 0, 1, 0, 7]));
}

#[test]
fn naive_colors_a_complete_graph_by_index() {
    for k in 1..6 {
        assert_eq!(naive(&complete(k), k).0, Some((0..k).collect::<Vec<_>>()));
    }
}

#[test]
fn naive_finds_the_first_coloring_in_order() {
    let graph = graph_of(4, &[(0, 1), (1, 2), (2, 3), (3, 0), (0, 2)]);
    assert_eq!(naive(&graph, 3).0, Some(vec![0, 1, 2, 1]));
    let graph = petersen();
    assert_eq!(naive(&graph, 3).0, Some(vec![0, 1, 0, 1, 2, 1, 0, 2, 2, 1]));
}
