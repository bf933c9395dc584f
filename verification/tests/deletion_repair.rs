use std::collections::{HashMap, HashSet};
use vicinity::error::RetrieveError;
use vicinity::repair::{
    append_missing_up_to, apply_repairs, contains_id, extend_up_to, fill_repairs, in_neighbor_repairs,
    in_neighbor_repairs_single, neighbors_to_repair, two_hop_candidates, RepairStats,
};
use vicinity::structure::{delete_doc, is_deleted, restore_tombstone_flags, tombstone_flags};
use vicinity::tombstones::TombstoneSet;

#[test]
fn tombstone_flags_roundtrip() {
    let mut t = TombstoneSet::new();
    t.delete(1);
    t.delete(3);
    t.delete(9);
    let flags = tombstone_flags(5, &t);
    assert_eq!(flags, vec![0, 1, 0, 1, 0]);
    let back = restore_tombstone_flags(&flags, 5).unwrap();
    assert!(back.is_deleted(1) && back.is_deleted(3));
    assert!(!back.is_deleted(9) && !back.is_deleted(0));
    assert_eq!(back.len(), 2);
}

#[test]
fn restore_tombstone_flags_rejects_bad_input() {
    assert!(matches!(restore_tombstone_flags(&[0, 1], 3), Err(RetrieveError::FormatError(_))));
    assert!(matches!(restore_tombstone_flags(&[0, 2, 1], 3), Err(RetrieveError::FormatError(_))));
    assert_eq!(restore_tombstone_flags(&[], 0).unwrap().len(), 0);
}

#[test]
fn test_delete_nonexistent_returns_error() {
    let map: HashMap<u32, u32> = [(10, 0), (11, 1)].into_iter().collect();
    let mut t = TombstoneSet::new();
    assert!(delete_doc(&map, &mut t, 999).is_err(), "deleting nonexistent doc_id should error");
}

#[test]
fn test_delete_idempotent() {
    let map: HashMap<u32, u32> = [(10, 0), (11, 1)].into_iter().collect();
    let mut t = TombstoneSet::new();
    delete_doc(&map, &mut t, 11).unwrap();
    delete_doc(&map, &mut t, 11).unwrap();
    assert_eq!(t.len(), 1);
}

#[test]
fn test_is_deleted() {
    let map: HashMap<u32, u32> = [(10, 0), (11, 1)].into_iter().collect();
    let mut t = TombstoneSet::new();
    assert!(!is_deleted(&map, &t, 10));
    delete_doc(&map, &mut t, 10).unwrap();
    assert!(is_deleted(&map, &t, 10));
    assert!(!is_deleted(&map, &t, 11));
    assert!(!is_deleted(&map, &t, 12));
}

#[test]
fn tombstone_set_from_ids_and_delete() {
    let mut t = TombstoneSet::from_ids(vec![4, 4, 2]);
    assert_eq!(t.len(), 2);
    assert!(t.delete(7));
    assert!(!t.delete(7));
    assert!(t.is_deleted(4) && t.is_deleted(2) && t.is_deleted(7));
}

#[test]
fn in_neighbor_scan_finds_pointers_to_deleted() {
    let layer: Vec<Vec<u32>> = vec![vec![1, 2], vec![0, 2, 3], vec![0, 1, 3], vec![1, 2]];
    let tasks = in_neighbor_repairs_single(&layer, 1);
    assert_eq!(tasks, vec![(0, vec![2]), (2, vec![0, 3]), (3, vec![2])]);
    let gone: HashSet<u32> = [1, 3].into_iter().collect();
    let tasks = in_neighbor_repairs(&layer, &gone);
    assert_eq!(tasks, vec![(0, vec![2]), (2, vec![0])]);
}

#[test]
fn two_hop_candidates_in_discovery_order() {
    let layer: Vec<Vec<u32>> = vec![
        vec![1, 2],    // 0
        vec![0, 3, 4], // 1
        vec![0, 4, 5], // 2
        vec![],        // 3
        vec![],        // 4
        vec![],        // 5
    ];
    let excluded: HashSet<u32> = [3].into_iter().collect();
    assert_eq!(two_hop_candidates(&layer, 0, &[1, 2], &excluded), vec![4, 5]);
    assert_eq!(two_hop_candidates(&layer, 0, &[1, 2], &HashSet::new()), vec![3, 4, 5]);
    // Unknown existing nodes contribute nothing.
    assert_eq!(two_hop_candidates(&layer, 0, &[9], &HashSet::new()), Vec::<u32>::new());
}

#[test]
fn apply_repairs_writes_lists_and_clears_deleted() {
    let mut layer: Vec<Vec<u32>> = vec![vec![1, 2], vec![0, 2], vec![0, 1]];
    apply_repairs(&mut layer, vec![(0, vec![2]), (2, vec![0])], &[1, 7]);
    assert_eq!(layer, vec![vec![2], vec![], vec![0]]);
}

#[test]
fn extend_and_append_helpers() {
    assert_eq!(extend_up_to(&[1, 2], &[3, 4, 5], 2), vec![1, 2, 3, 4]);
    assert_eq!(extend_up_to(&[1], &[3], 5), vec![1, 3]);
    assert_eq!(extend_up_to(&[], &[3], 0), Vec::<u32>::new());
    let mut list = vec![1u32, 2];
    append_missing_up_to(&mut list, &[2, 3, 4, 5], 4);
    assert_eq!(list, vec![1, 2, 3, 4]);
    assert!(contains_id(&list, 3));
    assert!(!contains_id(&list, 5));
}

#[test]
fn repair_stats_default_is_zero() {
    let s = RepairStats::default();
    assert_eq!(s.nodes_processed + s.edges_removed + s.edges_added + s.bidirectional_edges, 0);
}

#[test]
fn neighbors_to_repair_collects_surviving_neighbors() {
    let layer: Vec<Vec<u32>> = vec![vec![1, 2], vec![0, 3], vec![3], vec![2]];
    let deleted: HashSet<u32> = [0, 2].into_iter().collect();
    let affected = neighbors_to_repair(&layer, &[0, 2, 9], &deleted);
    let expected: HashSet<u32> = [1, 3].into_iter().collect();
    assert_eq!(affected, expected);
    assert!(neighbors_to_repair(&layer, &[], &deleted).is_empty());
}

#[test]
fn fill_repairs_tops_lists_up_to_the_limit() {
    let tasks: Vec<(u32, Vec<u32>)> = vec![(0, vec![1]), (2, vec![3, 4, 5]), (6, vec![])];
    let asked = std::cell::RefCell::new(Vec::new());
    let (lists, added) = fill_repairs(&tasks, 3, |node, surviving| {
        asked.borrow_mut().push((node, surviving.to_vec()));
        vec![node + 10, node + 11, node + 12]
    });
    // Node 2 is full and is not ranked; the others fill up to three links.
    assert_eq!(lists, vec![(0, vec![1, 10, 11]), (2, vec![3, 4, 5]), (6, vec![16, 17, 18])]);
    assert_eq!(added, 5);
    assert_eq!(asked.into_inner(), vec![(0, vec![1]), (6, vec![])]);
    // Fewer candidates than places: all of them are taken.
    let (lists, added) = fill_repairs(&vec![(1, vec![2])], 4, |_, _| vec![7]);
    assert_eq!(lists, vec![(1, vec![2, 7])]);
    assert_eq!(added, 1);
}
