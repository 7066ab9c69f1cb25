use ml_cnp::graph::hash::Hashable;
use ml_cnp::graph::VecVecGraph;
use xxhash_rust::xxh3::xxh3_64;

fn graph_of(size: usize, edges: &[(usize, usize)]) -> VecVecGraph {
    let mut graph = VecVecGraph::new(size);
    for &(from, to) in edges {
        graph.add_edge(from, to);
    }
    graph
}

#[test]
fn empty_graph_hashes_no_bytes() {
    assert_eq!(graph_of(0, &[]).hash(), xxh3_64(&[]));
}

#[test]
fn single_node_hash_follows_the_rounds() {
    let mut label: u64 = 0;
    let mut hashes = Vec::new();
    for _ in 0..5 {
        label = xxh3_64(&label.to_le_bytes());
        hashes.extend_from_slice(&label.to_le_bytes());
    }
    assert_eq!(graph_of(1, &[]).hash(), xxh3_64(&hashes));
}

#[test]
fn relabelled_graphs_hash_alike() {
    let a = graph_of(4, &[(0, 1), (1, 2), (2, 3)]);
    let b = graph_of(4, &[(3, 1), (1, 0), (0, 2)]);
    assert_eq!(a.hash(), b.hash());
}

#[test]
fn different_structures_hash_apart() {
    let path = graph_of(4, &[(0, 1), (1, 2), (2, 3)]);
    let star = graph_of(4, &[(0, 1), (0, 2), (0, 3)]);
    assert_ne!(path.hash(), star.hash());
}
