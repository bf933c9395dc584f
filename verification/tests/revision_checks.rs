use std::collections::{HashMap, HashSet};
use vicinity::connectivity::reachable_flags;
use vicinity::edge_stats::{EdgeStats, RECENT_ENTRY_POINTS};
use vicinity::error::RetrieveError;
use vicinity::filtered::{selectivity_probe, FnFilter, NoFilter};
use vicinity::inplace::surviving_links;
use vicinity::repair::{
    apply_repairs, extend_up_to, in_neighbor_repairs, two_hop_candidates, RepairStats,
};
use vicinity::snapshot::InPlaceNode;
use vicinity::structure::resolve_doc_ids;
use vicinity::visited::{Visited, VisitedSet};

#[test]
fn probe_counts_passing_nodes_in_walk_order() {
    // 0 -> 3, 1; 3 -> 2. Walk order from 0: 0, 3, 1, 2.
    let adjacency = vec![vec![3, 1], vec![0], vec![], vec![2]];
    let odd = FnFilter(|id: u32| id % 2 == 1);
    // The first three nodes examined are 0, 3, 1: two are odd.
    assert_eq!(selectivity_probe(&odd, &adjacency, 0, 3), (2, 3));
    // The first two are 0, 3: one is odd.
    assert_eq!(selectivity_probe(&odd, &adjacency, 0, 2), (1, 2));
    assert_eq!(selectivity_probe(&NoFilter, &adjacency, 0, 9), (4, 4));
}

#[test]
fn fresh_dense_visited_set_has_zero_marks_at_generation_one() {
    match VisitedSet::new(5, 0) {
        VisitedSet::Dense { marks, generation } => {
            assert_eq!(marks, vec![0u8; 5]);
            assert_eq!(generation, 1);
        }
        VisitedSet::Sparse(_) => panic!("expected the dense variant"),
    }
}

#[test]
fn visited_insert_keeps_flag_array_length() {
    let mut v = Visited::Dense(vec![false; 3]);
    assert!(v.insert(1));
    assert!(!v.insert(7));
    match v {
        Visited::Dense(flags) => assert_eq!(flags, vec![false, true, false]),
        Visited::Sparse(_) => panic!("expected the dense variant"),
    }
}

#[test]
fn searches_are_counted_across_calls() {
    let mut stats = EdgeStats::new();
    stats.record_traversal(0, 1, true);
    stats.record_search(3);
    stats.record_covisit(&[1, 2]);
    stats.record_search(4);
    stats.record_search(3);
    assert_eq!(stats.total_searches(), 3);
    assert_eq!(stats.total_searches(), 3);
}

#[test]
fn recent_window_stays_bounded() {
    let mut stats = EdgeStats::new();
    for i in 0..(RECENT_ENTRY_POINTS + 5) {
        stats.record_search(i);
    }
    let recent = stats.recent_entry_points();
    assert_eq!(recent.len(), RECENT_ENTRY_POINTS);
    assert_eq!(recent[0], 5);
}

#[test]
fn batch_resolution_is_all_or_nothing() {
    let mut map = HashMap::new();
    map.insert(10u32, 0u32);
    map.insert(20u32, 1u32);
    assert_eq!(resolve_doc_ids(&map, &[20, 10]).ok(), Some(vec![1, 0]));
    match resolve_doc_ids(&map, &[10, 30, 20]) {
        Err(RetrieveError::InvalidParameter(_)) => {}
        other => panic!("expected an invalid parameter, got {:?}", other),
    }
    assert_eq!(resolve_doc_ids(&map, &[]).ok(), Some(vec![]));
}

#[test]
fn surviving_links_and_repair_tally() {
    let nodes = vec![
        Some(InPlaceNode { dimension: 2, out_neighbors: vec![1, 2, 3], in_neighbors: vec![], deleted: false }),
        None,
        Some(InPlaceNode { dimension: 2, out_neighbors: vec![0], in_neighbors: vec![], deleted: true }),
        Some(InPlaceNode { dimension: 2, out_neighbors: vec![0], in_neighbors: vec![], deleted: false }),
    ];
    let stale: HashSet<u32> = [1u32, 2].into_iter().collect();
    assert_eq!(surviving_links(&nodes, 0, &stale), Some((vec![3], 2)));
    assert_eq!(surviving_links(&nodes, 3, &stale), None);
    assert_eq!(surviving_links(&nodes, 2, &stale), None);

    let mut stats = RepairStats::default();
    stats.record_node(2, 1, 1);
    stats.record_node(1, 0, 0);
    assert_eq!(stats.nodes_processed, 2);
    assert_eq!(stats.edges_removed, 3);
    assert_eq!(stats.edges_added, 1);
    assert_eq!(stats.bidirectional_edges, 1);
}

#[test]
fn reachable_flags_follow_directed_edges() {
    let adjacency = vec![vec![1], vec![], vec![0], vec![3]];
    let (flags, count) = reachable_flags(0, &adjacency, &[false; 4]);
    assert_eq!(flags, vec![true, true, false, false]);
    assert_eq!(count, 2);
    let (flags, count) = reachable_flags(0, &adjacency, &[false, true, false, false]);
    assert_eq!(flags, vec![true, false, false, false]);
    assert_eq!(count, 1);
}

#[test]
fn linking_creates_no_self_link() {
    let mut lists: Vec<Vec<u32>> = vec![vec![1], vec![0], vec![]];
    vicinity::construction::link_both_ways(&mut lists, 2, &[0, 1]);
    for (j, list) in lists.iter().enumerate() {
        assert!(!list.contains(&(j as u32)));
    }
    assert_eq!(lists, vec![vec![1, 2], vec![0, 2], vec![0, 1]]);
}

#[test]
fn repaired_lists_hold_no_deleted_id() {
    let mut layer: Vec<Vec<u32>> = vec![vec![1, 2], vec![2, 3], vec![0, 3], vec![1]];
    let gone: HashSet<u32> = [2u32].into_iter().collect();
    let tasks = in_neighbor_repairs(&layer, &gone);
    let reps: Vec<(u32, Vec<u32>)> = tasks
        .iter()
        .map(|(node, kept)| {
            let cands = two_hop_candidates(&layer, *node, kept, &gone);
            (*node, extend_up_to(kept, &cands, 2))
        })
        .collect();
    apply_repairs(&mut layer, reps, &[2]);
    for list in &layer {
        assert!(!list.contains(&2));
    }
    assert!(layer[2].is_empty());
}
