use std::collections::HashMap;
use vicinity::connectivity::{bridge, validate_connectivity};
use vicinity::edge_stats::EdgeStats;
use vicinity::error::RetrieveError;
use vicinity::structure::{delete_doc, resolve_doc_ids, restore_tombstone_flags, validate_structure};
use vicinity::tombstones::TombstoneSet;
use vicinity::union_find::UnionFind;

fn format_message<T>(r: Result<T, RetrieveError>) -> String {
    match r {
        Err(RetrieveError::FormatError(m)) => m,
        _ => String::new(),
    }
}

fn parameter_message<T>(r: Result<T, RetrieveError>) -> String {
    match r {
        Err(RetrieveError::InvalidParameter(m)) => m,
        _ => String::new(),
    }
}

#[test]
fn structure_messages_name_the_first_failed_check() {
    let layers: Vec<Vec<Vec<u32>>> = vec![vec![vec![1], vec![0]]];
    assert_eq!(
        format_message(validate_structure(0, 0, 2, &[10, 11], 2, 0, &layers, true)),
        "dimension must be > 0"
    );
    assert_eq!(
        format_message(validate_structure(2, 3, 2, &[10, 11], 2, 0, &layers, true)),
        "vectors.len() (3) != num_vectors (2) * dimension (2)"
    );
    assert_eq!(
        format_message(validate_structure(2, 4, 2, &[10], 1, 0, &layers, true)),
        "doc_ids.len() (1) != num_vectors (2)"
    );
    assert_eq!(
        format_message(validate_structure(2, 4, 2, &[10, 11], 1, 0, &layers, true)),
        "layer_assignments.len() (1) != num_vectors (2)"
    );
    assert_eq!(
        format_message(validate_structure(2, 4, 2, &[10, 11], 2, 3, &layers, true)),
        "category_assignments.len() (3) != num_vectors (2)"
    );
    assert_eq!(
        format_message(validate_structure(2, 8, 4, &[7, 9, 9, 7], 4, 0, &layers, true)),
        "duplicate doc_id: 9"
    );
    let many: Vec<Vec<Vec<u32>>> = vec![vec![]; 300];
    assert_eq!(
        format_message(validate_structure(2, 4, 2, &[10, 11], 2, 0, &many, true)),
        "too many layers (300) -- expected < 256"
    );
    assert_eq!(
        format_message(validate_structure(2, 4, 2, &[10, 11], 2, 0, &[], true)),
        "index is marked as built but has no layers"
    );
    let bad: Vec<Vec<Vec<u32>>> = vec![vec![vec![1], vec![0]], vec![vec![], vec![0, 12, 40]]];
    assert_eq!(
        format_message(validate_structure(2, 4, 2, &[10, 11], 2, 0, &bad, true)),
        "layer 1 node 1 has out-of-bounds neighbor 12 (num_vectors=2)"
    );
}

#[test]
fn tombstone_flag_messages_carry_the_values() {
    assert_eq!(
        format_message(restore_tombstone_flags(&[0, 1], 3)),
        "tombstone flag count (2) != num_vectors (3)"
    );
    assert_eq!(
        format_message(restore_tombstone_flags(&[0, 1, 7, 2], 4)),
        "invalid tombstone flag 7 at internal id 2"
    );
}

#[test]
fn missing_doc_messages_name_the_doc() {
    let map: HashMap<u32, u32> = [(1, 0), (4, 1)].into_iter().collect();
    let mut tombstones = TombstoneSet::new();
    assert_eq!(parameter_message(delete_doc(&map, &mut tombstones, 1234)), "doc_id 1234 not found in index");
    assert_eq!(
        parameter_message(resolve_doc_ids(&map, &[4, 90, 80])),
        "doc_id 90 not found in index"
    );
    assert_eq!(resolve_doc_ids(&map, &[4, 1]).ok(), Some(vec![1, 0]));
}

#[test]
fn union_keeps_the_root_of_higher_rank() {
    let mut uf = UnionFind::new(6);
    // Equal ranks: the root of the first argument survives.
    uf.union(1, 0);
    assert_eq!(uf.find(0), 1);
    // Lower rank under higher rank, whichever argument comes first.
    uf.union(2, 0);
    assert_eq!(uf.find(2), 1);
    uf.union(1, 3);
    assert_eq!(uf.find(3), 1);
    // Two trees of rank one: again the first argument's root.
    uf.union(5, 4);
    uf.union(4, 0);
    assert_eq!(uf.find(1), 5);
    assert_eq!(uf.find(3), 5);
}

#[test]
fn connectivity_counts_ids_without_lists() {
    // Node 0 links to 5, which has no list: it counts as reached and live.
    let adjacency: Vec<Vec<u32>> = vec![vec![5]];
    assert_eq!(validate_connectivity(0, 1, &adjacency, &[false]), (2, 0));
    // An entry point past the lists is reached on its own.
    let adjacency: Vec<Vec<u32>> = vec![vec![], vec![]];
    assert_eq!(validate_connectivity(7, 2, &adjacency, &[false, false]), (1, 1));
    // Nodes past the deletion flags count as live.
    let adjacency: Vec<Vec<u32>> = vec![vec![1], vec![], vec![]];
    assert_eq!(validate_connectivity(0, 4, &adjacency, &[false]), (2, 2));
}

#[test]
fn bridging_makes_a_node_reachable() {
    let mut neighbors: Vec<Vec<u32>> = vec![vec![1], vec![0], vec![]];
    let deleted = vec![false; 3];
    assert_eq!(validate_connectivity(0, 3, &neighbors, &deleted), (2, 1));
    bridge(&mut neighbors, 2, 1);
    assert_eq!(neighbors, vec![vec![1], vec![0, 2], vec![1]]);
    assert_eq!(validate_connectivity(0, 3, &neighbors, &deleted), (3, 0));
}

#[test]
fn traversals_are_counted_for_the_unordered_pair() {
    let mut stats = EdgeStats::new();
    stats.record_traversal(3, 7, true);
    assert_eq!(stats.traversal_count(7, 3), 1);
    assert_eq!(stats.improvement_count(7, 3), 1);
    stats.record_traversal(7, 3, false);
    assert_eq!(stats.traversal_count(3, 7), 2);
    assert_eq!(stats.traversal_count(7, 3), 2);
    assert_eq!(stats.improvement_count(3, 7), 1);
    assert_eq!(stats.traversal_count(3, 4), 0);
    assert_eq!(stats.total_searches(), 0);
}
