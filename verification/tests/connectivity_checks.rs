use vicinity::connectivity::{connect_all, validate_connectivity};

#[test]
fn test_validate_connectivity() {
    let adjacency: Vec<Vec<u32>> = vec![
        vec![1, 2],    // 0
        vec![0, 2, 3], // 1
        vec![0, 1, 3], // 2
        vec![1, 2],    // 3
    ];
    // Nothing deleted
    let deleted = vec![false; 4];

    let (reachable, orphans) = validate_connectivity(0, 4, &adjacency, &deleted);

    assert_eq!(reachable, 4);
    assert_eq!(orphans, 0);
}

#[test]
fn test_validate_connectivity_with_deletion() {
    // Graph with a bridge node
    let adjacency: Vec<Vec<u32>> = vec![
        vec![1],    // 0
        vec![0, 2], // 1 - bridge
        vec![1, 3], // 2
        vec![2],    // 3
    ];

    // Delete node 1 (bridge)
    let deleted: Vec<bool> = (0..4u32).map(|id| id == 1).collect();
    let (reachable, orphans) = validate_connectivity(0, 4, &adjacency, &deleted);

    // Only node 0 reachable, nodes 2 and 3 orphaned
    assert_eq!(reachable, 1);
    assert_eq!(orphans, 2);
}

#[test]
fn validate_connectivity_deleted_entry_reaches_nothing() {
    let adjacency: Vec<Vec<u32>> = vec![vec![1], vec![0]];
    let deleted = vec![true, false];
    assert_eq!(validate_connectivity(0, 2, &adjacency, &deleted), (0, 1));
}

#[test]
fn validate_connectivity_directed_edges_only() {
    // 0 -> 1 -> 2, nothing points back to 0 and 3 is isolated.
    let adjacency: Vec<Vec<u32>> = vec![vec![1], vec![2], vec![], vec![0]];
    let deleted = vec![false; 4];
    assert_eq!(validate_connectivity(0, 4, &adjacency, &deleted), (3, 1));
    assert_eq!(validate_connectivity(2, 4, &adjacency, &deleted), (1, 3));
}

#[test]
fn validate_connectivity_total_below_graph_size_saturates() {
    let adjacency: Vec<Vec<u32>> = vec![vec![1], vec![2], vec![0]];
    let deleted = vec![false; 3];
    // Only the first node is counted as expected, but three are reached.
    assert_eq!(validate_connectivity(0, 1, &adjacency, &deleted), (3, 0));
}

#[test]
fn validate_connectivity_reached_plus_orphans_is_live_count() {
    let adjacency: Vec<Vec<u32>> = vec![vec![1, 4], vec![2], vec![], vec![4], vec![3]];
    let deleted = vec![false, false, true, false, false];
    let (reachable, orphans) = validate_connectivity(0, 5, &adjacency, &deleted);
    assert_eq!(reachable + orphans, 4);
    assert_eq!(reachable, 4);
}

#[test]
fn connect_all_bridges_every_unreached_node() {
    // 0 <-> 1, 2 alone, 3 <-> 4.
    let mut neighbors: Vec<Vec<u32>> = vec![vec![1], vec![0], vec![], vec![4], vec![3]];
    connect_all(&mut neighbors, 0, |_, _, _| 0);
    assert_eq!(neighbors, vec![vec![1, 2, 3], vec![0], vec![0], vec![4, 0], vec![3]]);
    assert_eq!(validate_connectivity(0, 5, &neighbors, &[false; 5]), (5, 0));
}

#[test]
fn connect_all_uses_reached_proposals_and_replaces_others() {
    let start: Vec<Vec<u32>> = vec![vec![1], vec![0], vec![], vec![]];
    // A reached proposal is used as it is.
    let mut neighbors = start.clone();
    connect_all(&mut neighbors, 0, |_, _, _| 1);
    assert_eq!(neighbors, vec![vec![1], vec![0, 2, 3], vec![1], vec![1]]);
    // Proposing the unreached node itself falls back to the entry point.
    let mut neighbors = start.clone();
    connect_all(&mut neighbors, 0, |i, _, _| i);
    assert_eq!(neighbors, vec![vec![1, 2, 3], vec![0], vec![0], vec![0]]);
    // A single node is left alone.
    let mut single: Vec<Vec<u32>> = vec![vec![]];
    connect_all(&mut single, 0, |_, _, _| 0);
    assert_eq!(single, vec![Vec::<u32>::new()]);
}

/// Bridge with the reached node nearest to each unreached node.
fn ensure_connectivity(neighbors: &mut Vec<Vec<u32>>, entry_point: u32, dist_fn: impl Fn(usize, usize) -> f32) {
    connect_all(neighbors, entry_point, |i, reached: &[bool], _lists: &[Vec<u32>]| {
        let mut best = entry_point;
        let mut best_dist = dist_fn(i as usize, entry_point as usize);
        for (j, &r) in reached.iter().enumerate() {
            if r && dist_fn(i as usize, j) < best_dist {
                best_dist = dist_fn(i as usize, j);
                best = j as u32;
            }
        }
        best
    });
}

#[test]
fn test_ensure_connectivity_already_connected() {
    let mut neighbors: Vec<Vec<u32>> = vec![vec![1], vec![0, 2], vec![1]];
    let dist_fn = |i: usize, j: usize| (i as f32 - j as f32).abs();
    ensure_connectivity(&mut neighbors, 0, dist_fn);
    // Should be unchanged (already connected)
    assert_eq!(neighbors[0].len(), 1);
}

#[test]
fn test_ensure_connectivity_disconnected() {
    // Two components: {0, 1} and {2, 3}
    let mut neighbors: Vec<Vec<u32>> = vec![vec![1], vec![0], vec![3], vec![2]];
    let dist_fn = |i: usize, j: usize| (i as f32 - j as f32).abs();
    ensure_connectivity(&mut neighbors, 0, dist_fn);

    // Verify all nodes reachable from entry_point 0
    let mut visited = [false; 4];
    let mut stack = vec![0usize];
    visited[0] = true;
    while let Some(node) = stack.pop() {
        for &nb in &neighbors[node] {
            let nb = nb as usize;
            if !visited[nb] {
                visited[nb] = true;
                stack.push(nb);
            }
        }
    }
    assert!(visited.iter().all(|&v| v), "All nodes should be reachable");
}

#[test]
fn connect_all_bridges_one_pair_per_component() {
    let mut neighbors: Vec<Vec<u32>> = vec![vec![1], vec![0], vec![3], vec![2]];
    ensure_connectivity(&mut neighbors, 0, |i, j| (i as f32 - j as f32).abs());
    assert_eq!(neighbors, vec![vec![1], vec![0, 2], vec![3, 1], vec![2]]);
    let mut connected: Vec<Vec<u32>> = vec![vec![1], vec![0, 2], vec![1]];
    ensure_connectivity(&mut connected, 0, |i, j| (i as f32 - j as f32).abs());
    assert_eq!(connected, vec![vec![1], vec![0, 2], vec![1]]);
}
