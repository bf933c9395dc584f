use std::collections::{HashMap, HashSet};
use vicinity::reorder::{apply_order, bfs_order, invert_order, remap_ids, reorder_for_locality};
use vicinity::structure::{
    build_reverse_map, compute_entry_point, find_entry_point_excluding,
    find_entry_point_excluding_set, max_node_degree, validate_structure,
};
use vicinity::tombstones::TombstoneSet;
use vicinity::error::RetrieveError;

#[test]
fn bfs_order_visits_reachable_first_then_rest() {
    // 0 -> 2 -> 1, node 3 unreachable
    let base: Vec<Vec<u32>> = vec![vec![2], vec![], vec![1], vec![]];
    assert_eq!(bfs_order(&base, 0, 4), vec![0, 2, 1, 3]);
    assert_eq!(bfs_order(&base, 2, 4), vec![2, 1, 0, 3]);
    // Without a base layer only the entry comes first.
    assert_eq!(bfs_order(&[], 1, 3), vec![1, 0, 2]);
    // Out-of-range neighbor ids are skipped.
    let bad: Vec<Vec<u32>> = vec![vec![9, 1], vec![]];
    assert_eq!(bfs_order(&bad, 0, 2), vec![0, 1]);
}

#[test]
fn invert_order_is_inverse() {
    let order = vec![2u32, 0, 3, 1];
    let inv = invert_order(&order);
    assert_eq!(inv, vec![1, 3, 0, 2]);
    for (k, &old) in order.iter().enumerate() {
        assert_eq!(inv[old as usize] as usize, k);
    }
}

#[test]
fn remap_ids_renumbers_lists_and_positions() {
    let mut lists: Vec<Vec<u32>> = vec![vec![1, 2], vec![0], vec![0, 1]];
    // old 0 -> new 2, old 1 -> new 0, old 2 -> new 1
    remap_ids(&mut lists, &[2, 0, 1], 3);
    assert_eq!(lists, vec![vec![2], vec![2, 0], vec![0, 1]]);

    // Ids without a new number are dropped; positions without a list stay empty.
    let mut lists: Vec<Vec<u32>> = vec![vec![1, 5], vec![0]];
    remap_ids(&mut lists, &[1, 0], 3);
    assert_eq!(lists, vec![vec![1], vec![0], vec![]]);
}

#[test]
fn apply_order_moves_values() {
    assert_eq!(apply_order(&[10u32, 20, 30], &[2, 0, 1]), vec![30, 10, 20]);
    assert_eq!(apply_order(&[7u8, 8], &[]), Vec::<u8>::new());
}

#[test]
fn reorder_keeps_graph_and_documents() {
    // Base layer: 0 -> 3, 3 -> 1, 1 -> 2, 2 -> 0
    let mut layers: Vec<Vec<Vec<u32>>> = vec![vec![vec![3], vec![2], vec![0], vec![1]]];
    let mut doc_ids = vec![100u32, 101, 102, 103];
    let mut assignments = vec![0u8, 0, 0, 1];
    let mut map: HashMap<u32, u32> = HashMap::new();
    let mut entry = Some(3u32);
    let order = reorder_for_locality(&mut layers, &mut doc_ids, &mut assignments, &mut map, &mut entry, 4)
        .expect("reordered");
    assert_eq!(order, vec![3, 1, 2, 0]);
    assert_eq!(doc_ids, vec![103, 101, 102, 100]);
    assert_eq!(assignments, vec![1, 0, 0, 0]);
    assert_eq!(entry, Some(0));
    assert_eq!(map.get(&100), Some(&3));
    assert_eq!(map.get(&103), Some(&0));
    // The cycle 3 -> 1 -> 2 -> 0 -> 3 becomes 0 -> 1 -> 2 -> 3 -> 0.
    assert_eq!(layers[0], vec![vec![1], vec![2], vec![3], vec![0]]);
}

#[test]
fn reorder_noop_cases() {
    let mut layers: Vec<Vec<Vec<u32>>> = vec![vec![vec![]]];
    let mut doc_ids = vec![5u32];
    let mut assignments = vec![0u8];
    let mut map: HashMap<u32, u32> = HashMap::new();
    let mut entry = Some(0u32);
    assert!(reorder_for_locality(&mut layers, &mut doc_ids, &mut assignments, &mut map, &mut entry, 1).is_none());
    let mut layers: Vec<Vec<Vec<u32>>> = vec![vec![vec![1], vec![0]]];
    let mut doc_ids = vec![5u32, 6];
    let mut assignments = vec![0u8, 0];
    let mut entry = None;
    assert!(reorder_for_locality(&mut layers, &mut doc_ids, &mut assignments, &mut map, &mut entry, 2).is_none());
    assert_eq!(doc_ids, vec![5, 6]);
}

#[test]
fn entry_point_is_first_highest_layer() {
    assert_eq!(compute_entry_point(&[0, 2, 1, 2], 4), Some(1));
    assert_eq!(compute_entry_point(&[0, 0, 0], 3), Some(0));
    assert_eq!(compute_entry_point(&[], 0), None);
    assert_eq!(compute_entry_point(&[3], 0), None);
}

#[test]
fn entry_point_excluding_picks_last_highest_survivor() {
    let mut tombstones = TombstoneSet::new();
    let layers = [1u8, 3, 0, 3, 2];
    assert_eq!(find_entry_point_excluding(&layers, 0, &tombstones), Some(3));
    assert_eq!(find_entry_point_excluding(&layers, 3, &tombstones), Some(1));
    tombstones.delete(1);
    assert_eq!(find_entry_point_excluding(&layers, 3, &tombstones), Some(4));
    let excluded: HashSet<u32> = [3, 4].into_iter().collect();
    assert_eq!(find_entry_point_excluding_set(&layers, &excluded, &tombstones), Some(0));
    let all: HashSet<u32> = (0..5).collect();
    assert_eq!(find_entry_point_excluding_set(&layers, &all, &tombstones), None);
}

#[test]
fn max_degree_reports_first_largest() {
    let layers: Vec<Vec<Vec<u32>>> = vec![
        vec![vec![1], vec![0, 2], vec![1]],
        vec![vec![], vec![0, 2]],
        vec![vec![0, 1, 2]],
    ];
    assert_eq!(max_node_degree(&layers), (2, 0, 3));
    let flat: Vec<Vec<Vec<u32>>> = vec![vec![vec![1], vec![0, 2], vec![1, 0]]];
    assert_eq!(max_node_degree(&flat), (0, 1, 2));
    assert_eq!(max_node_degree(&[]), (0, 0, 0));
    assert_eq!(max_node_degree(&[vec![vec![], vec![]]]), (0, 0, 0));
}

#[test]
fn reverse_map_points_back_to_positions() {
    let map = build_reverse_map(&[7, 9, 4]);
    assert_eq!(map.len(), 3);
    assert_eq!(map[&7], 0);
    assert_eq!(map[&9], 1);
    assert_eq!(map[&4], 2);
    let dup = build_reverse_map(&[5, 5]);
    assert_eq!(dup[&5], 1);
}

#[test]
fn validate_structure_checks_each_invariant() {
    let layers: Vec<Vec<Vec<u32>>> = vec![vec![vec![1], vec![0]]];
    let ok = validate_structure(2, 4, 2, &[10, 11], 2, 0, &layers, true);
    assert!(ok.is_ok());
    let fmt = |r: Result<(), RetrieveError>| matches!(r, Err(RetrieveError::FormatError(_)));
    assert!(fmt(validate_structure(0, 0, 2, &[10, 11], 2, 0, &layers, true)));
    assert!(fmt(validate_structure(2, 3, 2, &[10, 11], 2, 0, &layers, true)));
    assert!(fmt(validate_structure(2, 4, 2, &[10], 2, 0, &layers, true)));
    assert!(fmt(validate_structure(2, 4, 2, &[10, 11], 1, 0, &layers, true)));
    assert!(fmt(validate_structure(2, 4, 2, &[10, 11], 2, 1, &layers, true)));
    assert!(validate_structure(2, 4, 2, &[10, 11], 2, 2, &layers, true).is_ok());
    assert!(fmt(validate_structure(2, 4, 2, &[10, 10], 2, 0, &layers, true)));
    assert!(fmt(validate_structure(2, 4, 2, &[10, 11], 2, 0, &[], true)));
    assert!(validate_structure(2, 4, 2, &[10, 11], 2, 0, &[], false).is_ok());
    let bad: Vec<Vec<Vec<u32>>> = vec![vec![vec![2], vec![0]]];
    assert!(fmt(validate_structure(2, 4, 2, &[10, 11], 2, 0, &bad, true)));
    let many: Vec<Vec<Vec<u32>>> = vec![vec![]; 256];
    assert!(fmt(validate_structure(2, 4, 2, &[10, 11], 2, 0, &many, true)));
}
