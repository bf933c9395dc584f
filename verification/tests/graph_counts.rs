use vicinity::builder::default_compression_threshold;
use vicinity::graph_analysis::{count_graph, msp_sample_targets, GraphCounts};

#[test]
fn count_graph_on_empty_graph_is_zero() {
    let counts = count_graph(0, 0, &[]);
    assert_eq!(
        counts,
        GraphCounts {
            num_nodes: 0,
            num_edges: 0,
            reachable_count: 0,
            unreachable_count: 0,
            total_path_length: 0,
        }
    );
}

#[test]
fn count_graph_sums_shortest_hops() {
    // 0 -> 1 -> 2 -> 3 and a shortcut 0 -> 3; node 4 is unreachable.
    let adj = vec![vec![1u32, 3], vec![2], vec![3], vec![], vec![0]];
    let counts = count_graph(0, 5, &adj);
    assert_eq!(counts.num_nodes, 5);
    assert_eq!(counts.num_edges, 5);
    assert_eq!(counts.reachable_count, 4);
    assert_eq!(counts.unreachable_count, 1);
    // hops: 1 -> 1, 3 -> 1 (shortcut), 2 -> 2
    assert_eq!(counts.total_path_length, 4);
    let avg = counts.total_path_length as f32 / (counts.reachable_count - 1) as f32;
    assert!((avg - 4.0 / 3.0).abs() < 1e-6);
}

#[test]
fn count_graph_ignores_out_of_range_ids() {
    // Ids at or above the node count are counted as edges but never walked.
    let adj = vec![vec![7u32, 1], vec![0, 9]];
    let counts = count_graph(1, 2, &adj);
    assert_eq!(counts.num_edges, 4);
    assert_eq!(counts.reachable_count, 2);
    assert_eq!(counts.unreachable_count, 0);
    assert_eq!(counts.total_path_length, 1);
}

#[test]
fn count_graph_treats_missing_lists_as_empty() {
    let adj = vec![vec![2u32]];
    let counts = count_graph(0, 3, &adj);
    assert_eq!(counts.num_edges, 1);
    assert_eq!(counts.reachable_count, 2);
    assert_eq!(counts.unreachable_count, 1);
    assert_eq!(counts.total_path_length, 1);
}

#[test]
fn count_graph_single_node() {
    let counts = count_graph(0, 1, &[vec![0u32]]);
    assert_eq!(counts.reachable_count, 1);
    assert_eq!(counts.total_path_length, 0);
    assert_eq!(counts.num_edges, 1);
}

#[test]
fn msp_targets_are_evenly_spaced() {
    assert_eq!(msp_sample_targets(10, 5), vec![0, 2, 4, 6, 8]);
    assert_eq!(msp_sample_targets(10, 3), vec![0, 3, 6]);
    // The sample is capped at the node count.
    assert_eq!(msp_sample_targets(3, 10), vec![0, 1, 2]);
    assert_eq!(msp_sample_targets(0, 4), Vec::<u32>::new());
    assert_eq!(msp_sample_targets(7, 0), Vec::<u32>::new());
}

#[test]
fn compression_threshold_default() {
    assert_eq!(default_compression_threshold(), 32);
}

/// Build a simple line graph: 0 -> 1 -> 2 -> ... -> n-1 (both directions).
fn line_graph(n: usize) -> Vec<Vec<u32>> {
    let mut neighbors = vec![Vec::new(); n];
    for i in 0..n {
        if i > 0 {
            neighbors[i].push((i - 1) as u32);
        }
        if i + 1 < n {
            neighbors[i].push((i + 1) as u32);
        }
    }
    neighbors
}

/// Build a complete graph on n nodes.
fn complete_graph(n: usize) -> Vec<Vec<u32>> {
    let mut neighbors = vec![Vec::new(); n];
    for i in 0..n {
        for j in 0..n {
            if i != j {
                neighbors[i].push(j as u32);
            }
        }
    }
    neighbors
}

fn reachability(counts: &GraphCounts) -> f32 {
    if counts.num_nodes == 0 {
        0.0
    } else {
        counts.reachable_count as f32 / counts.num_nodes as f32
    }
}

fn avg_path_length(counts: &GraphCounts) -> f32 {
    if counts.reachable_count > 1 {
        counts.total_path_length as f32 / (counts.reachable_count - 1) as f32
    } else {
        0.0
    }
}

#[test]
fn test_line_graph_quality() {
    let n = 10;
    let neighbors = line_graph(n);
    let counts = count_graph(0, n, &neighbors);
    assert_eq!(counts.num_nodes, 10);
    assert_eq!(reachability(&counts), 1.0);
    assert_eq!(counts.unreachable_count, 0);
    assert!(counts.num_edges as f32 / n as f32 > 1.5); // ~1.8 for line graph
    assert!(avg_path_length(&counts) > 0.0);
    // Hops 1..=9 from one end of the line.
    assert_eq!(counts.total_path_length, 45);
}

#[test]
fn test_complete_graph_quality() {
    let n = 8;
    let neighbors = complete_graph(n);
    let counts = count_graph(0, n, &neighbors);
    assert_eq!(counts.num_nodes, 8);
    assert_eq!(reachability(&counts), 1.0);
    // Complete graph: every node is 1 hop away.
    assert!((avg_path_length(&counts) - 1.0).abs() < 0.01);
}

#[test]
fn test_disconnected_graph() {
    // Two disconnected components.
    let neighbors = vec![vec![1], vec![0], vec![3], vec![2]];
    let counts = count_graph(0, 4, &neighbors);
    assert_eq!(counts.num_nodes, 4);
    assert_eq!(counts.unreachable_count, 2);
    assert!((reachability(&counts) - 0.5).abs() < 0.01);
}

#[test]
fn test_empty_graph() {
    let counts = count_graph(0, 0, &[]);
    assert_eq!(counts.num_nodes, 0);
    assert_eq!(reachability(&counts), 0.0);
}
