use vicinity::merge::{naive_graph_merge, MergeGraph, MergeNode};

fn node(id: u32, neighbors: Vec<Vec<u32>>, max_layer: usize) -> MergeNode<Vec<f32>> {
    MergeNode { id, vector: vec![id as f32, 0.5], neighbors, max_layer }
}

#[test]
fn add_node_tracks_entry_point_on_highest_layer() {
    let mut g = MergeGraph::new();
    assert!(g.is_empty());
    assert_eq!(g.entry_point(), None);
    g.add_node(node(4, vec![vec![]], 0));
    assert_eq!(g.entry_point(), Some(4));
    g.add_node(node(7, vec![vec![], vec![]], 1));
    assert_eq!(g.entry_point(), Some(7));
    assert_eq!(g.max_layer(), 1);
    // Equal layer: the entry point stays.
    g.add_node(node(9, vec![vec![], vec![]], 1));
    assert_eq!(g.entry_point(), Some(7));
    assert_eq!(g.len(), 3);
    let mut ids = g.node_ids();
    ids.sort();
    assert_eq!(ids, vec![4, 7, 9]);
    assert_eq!(g.get_node(9).map(|n| n.max_layer), Some(1));
    assert!(g.get_node(5).is_none());
}

#[test]
fn naive_merge_unions_lists() {
    let mut a = MergeGraph::new();
    a.add_node(node(1, vec![vec![2]], 1)); // padded to two layers
    a.add_node(node(2, vec![vec![1]], 0));
    let mut b = MergeGraph::new();
    b.add_node(node(1, vec![vec![3, 2, 3], vec![3], vec![3]], 2));
    b.add_node(node(3, vec![vec![1]], 0));

    let (m, stats) = naive_graph_merge(&a, &b, 32, 16, false);
    assert_eq!(m.len(), 3);
    let n1 = m.get_node(1).unwrap();
    // Layer 0 absorbs 3 once; layer 1 was padded and absorbs 3; layer 2 is ignored.
    assert_eq!(n1.neighbors, vec![vec![2, 3], vec![3]]);
    assert_eq!(n1.max_layer, 1);
    assert_eq!(n1.vector, vec![1.0, 0.5]);
    assert_eq!(m.get_node(3).unwrap().neighbors, vec![vec![1]]);
    assert_eq!(m.get_node(2).unwrap().neighbors, vec![vec![1]]);
    assert_eq!(stats.nodes_from_a, 2);
    assert_eq!(stats.nodes_from_b, 1);
    assert_eq!(stats.total_nodes, 3);
    assert_eq!(stats.edges_added, 2);
    assert_eq!(stats.edges_pruned, 0);
    assert_eq!(m.entry_point(), Some(1));
}

#[test]
fn naive_merge_cuts_lists_when_refining() {
    let mut a = MergeGraph::new();
    a.add_node(node(0, vec![vec![1, 2, 3], vec![1, 2]], 1));
    let mut b = MergeGraph::new();
    b.add_node(node(0, vec![vec![4], vec![3]], 1));
    let (m, stats) = naive_graph_merge(&a, &b, 2, 1, true);
    assert_eq!(m.get_node(0).unwrap().neighbors, vec![vec![1, 2], vec![1]]);
    assert_eq!(stats.edges_added, 2);
    assert_eq!(stats.edges_pruned, 4);
}

fn make_vector(dim: usize, seed: u32) -> Vec<f32> {
    (0..dim)
        .map(|i| ((seed as f32 * 0.1 + i as f32) * 0.01).sin())
        .collect()
}

fn make_test_graph(start_id: u32, count: usize, dim: usize) -> MergeGraph<Vec<f32>> {
    let mut graph = MergeGraph::new();
    for i in 0..count {
        let id = start_id + i as u32;
        let neighbors = if i > 0 {
            vec![vec![start_id + (i as u32 - 1)]]
        } else {
            vec![vec![]]
        };
        graph.add_node(MergeNode { id, vector: make_vector(dim, id), neighbors, max_layer: 0 });
    }
    graph
}

// Limits of the default merge configuration: 32 edges at layer 0, 16 above,
// lists cut to those limits.
const MAX_EDGES_L0: usize = 32;
const MAX_EDGES: usize = 16;
const REFINE_EDGES: bool = true;

#[test]
fn test_naive_merge() {
    let graph_a = make_test_graph(0, 10, 64);
    let graph_b = make_test_graph(10, 10, 64);

    let (merged, stats) = naive_graph_merge(&graph_a, &graph_b, MAX_EDGES_L0, MAX_EDGES, REFINE_EDGES);

    assert_eq!(merged.len(), 20);
    assert_eq!(stats.nodes_from_a, 10);
    assert_eq!(stats.nodes_from_b, 10);
}

#[test]
fn test_naive_merge_overlapping() {
    let graph_a = make_test_graph(0, 10, 64);
    let graph_b = make_test_graph(5, 10, 64); // Overlaps IDs 5-9

    let (merged, _stats) = naive_graph_merge(&graph_a, &graph_b, MAX_EDGES_L0, MAX_EDGES, REFINE_EDGES);

    // Should have 15 unique nodes (0-14)
    assert_eq!(merged.len(), 15);
}

#[test]
fn test_empty_graph_merge() {
    let graph_a: MergeGraph<Vec<f32>> = MergeGraph::new();
    let graph_b = make_test_graph(0, 10, 64);

    let (merged, stats) = naive_graph_merge(&graph_a, &graph_b, MAX_EDGES_L0, MAX_EDGES, REFINE_EDGES);

    assert_eq!(merged.len(), 10);
    assert_eq!(stats.nodes_from_a, 0);
    assert_eq!(stats.nodes_from_b, 10);
}
