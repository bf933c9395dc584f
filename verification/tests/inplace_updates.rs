use vicinity::error::RetrieveError;
use vicinity::id_mapping::IdMapping;
use vicinity::inplace::{
    admit_node, attach_replacements, degree_totals, detach_node, link_new_node, live_out_lists,
    rebuild_links, release_node, stale_slots, wants_back_edge,
};
use vicinity::snapshot::InPlaceNode;

fn node(out: Vec<u32>, inn: Vec<u32>, deleted: bool) -> Option<InPlaceNode> {
    Some(InPlaceNode { dimension: 2, out_neighbors: out, in_neighbors: inn, deleted })
}

fn links(nodes: &[Option<InPlaceNode>], id: usize) -> (Vec<u32>, Vec<u32>, bool) {
    let n = nodes[id].as_ref().expect("slot holds a node");
    (n.out_neighbors.clone(), n.in_neighbors.clone(), n.deleted)
}

#[test]
fn first_admission_becomes_entry_point() {
    let mut nodes = Vec::new();
    let mut free = Vec::new();
    let mut entry = u32::MAX;
    let mut active = 0u32;
    let (id, first) = admit_node(&mut nodes, &mut free, &mut entry, &mut active, 2, 2).unwrap();
    assert_eq!((id, first), (0, true));
    assert_eq!(entry, 0);
    assert_eq!(active, 1);
    assert_eq!(links(&nodes, 0), (vec![], vec![], false));

    let (id, first) = admit_node(&mut nodes, &mut free, &mut entry, &mut active, 2, 2).unwrap();
    assert_eq!((id, first), (1, false));
    assert_eq!(entry, 0);
    assert_eq!(active, 2);
    assert_eq!(nodes.len(), 2);
}

#[test]
fn admission_with_wrong_length_is_refused() {
    let mut nodes = vec![node(vec![], vec![], false)];
    let mut free = Vec::new();
    let mut entry = 0u32;
    let mut active = 1u32;
    match admit_node(&mut nodes, &mut free, &mut entry, &mut active, 2, 3) {
        Err(RetrieveError::DimensionMismatch { query_dim, doc_dim }) => {
            assert_eq!((query_dim, doc_dim), (3, 2));
        }
        other => panic!("expected a dimension mismatch, got {:?}", other),
    }
    assert_eq!(nodes.len(), 1);
    assert_eq!(active, 1);
}

#[test]
fn admission_takes_most_recently_freed_slot() {
    let mut nodes = vec![None, node(vec![], vec![], false), None];
    let mut free = vec![0, 2];
    let mut entry = 1u32;
    let mut active = 1u32;
    let (id, first) = admit_node(&mut nodes, &mut free, &mut entry, &mut active, 2, 2).unwrap();
    assert_eq!((id, first), (2, false));
    assert_eq!(free, vec![0]);
    assert_eq!(nodes.len(), 3);
    assert_eq!(links(&nodes, 2), (vec![], vec![], false));
}

#[test]
fn back_edge_decision() {
    assert!(!wants_back_edge(false, Some(0), 8, true));
    assert!(!wants_back_edge(true, None, 8, true));
    assert!(!wants_back_edge(true, Some(8), 8, true));
    assert!(wants_back_edge(true, Some(7), 8, true));
    assert!(!wants_back_edge(true, Some(5), 8, false));
    assert!(wants_back_edge(true, Some(3), 8, false));
}

#[test]
fn linking_a_new_node_records_both_directions() {
    let mut nodes = vec![
        node(vec![1], vec![1], false),
        node(vec![0], vec![0], false),
        node(vec![], vec![], false),
    ];
    link_new_node(&mut nodes, 2, &[0, 1], &[true, false], 4);
    assert_eq!(links(&nodes, 2), (vec![0, 1], vec![0], false));
    assert_eq!(links(&nodes, 0), (vec![1, 2], vec![1, 2], false));
    assert_eq!(links(&nodes, 1), (vec![0], vec![0, 2], false));
}

#[test]
fn linking_respects_in_link_cap() {
    let mut nodes = vec![node(vec![], vec![5], false), node(vec![], vec![], false)];
    link_new_node(&mut nodes, 1, &[0], &[true], 1);
    // Node 0 is full: it keeps its one in-link but still links back.
    assert_eq!(links(&nodes, 0), (vec![1], vec![5], false));
    assert_eq!(links(&nodes, 1), (vec![0], vec![0], false));
}

#[test]
fn detaching_a_node_moves_entry_and_strips_links() {
    let mut nodes = vec![
        node(vec![1, 2], vec![1, 2], false),
        node(vec![0, 2], vec![0], false),
        node(vec![0], vec![0, 1], false),
    ];
    let mut entry = 0u32;
    let mut active = 3u32;
    let notes = detach_node(&mut nodes, &mut entry, &mut active, 0).unwrap();
    assert_eq!(notes, vec![(1, vec![2]), (2, vec![])]);
    assert_eq!(entry, 1);
    assert_eq!(active, 2);
    assert_eq!(links(&nodes, 0), (vec![1, 2], vec![1, 2], true));
    assert_eq!(links(&nodes, 1), (vec![2], vec![0], false));
    assert_eq!(links(&nodes, 2), (vec![], vec![0, 1], false));
}

#[test]
fn entry_point_is_cleared_when_no_linked_node_is_live() {
    let mut nodes = vec![node(vec![1], vec![], false), node(vec![], vec![], true)];
    let mut entry = 0u32;
    let mut active = 1u32;
    let notes = detach_node(&mut nodes, &mut entry, &mut active, 0).unwrap();
    assert!(notes.is_empty());
    assert_eq!(entry, u32::MAX);
    assert_eq!(active, 0);
}

#[test]
fn detaching_a_missing_node_is_refused() {
    let mut nodes = vec![None, node(vec![], vec![], true)];
    let mut entry = u32::MAX;
    let mut active = 0u32;
    for id in [0u32, 1, 7] {
        match detach_node(&mut nodes, &mut entry, &mut active, id) {
            Err(RetrieveError::OutOfBounds(x)) => assert_eq!(x, id as usize),
            other => panic!("expected out of bounds, got {:?}", other),
        }
    }
    assert_eq!(active, 0);
}

#[test]
fn replacements_are_linked_once() {
    let mut nodes = vec![
        node(vec![2], vec![], false),
        node(vec![], vec![], false),
        node(vec![], vec![0], false),
    ];
    attach_replacements(&mut nodes, &[(0, Some(2)), (1, Some(2)), (0, None)], 1);
    // 0 already links 2; 2 already holds its one allowed in-link.
    assert_eq!(links(&nodes, 0), (vec![2], vec![], false));
    assert_eq!(links(&nodes, 1), (vec![2], vec![], false));
    assert_eq!(links(&nodes, 2), (vec![], vec![0], false));
}

#[test]
fn released_slot_is_taken_by_next_admission() {
    let mut nodes = vec![node(vec![1], vec![1], false), node(vec![0], vec![0], false)];
    let mut free = Vec::new();
    let mut entry = 0u32;
    let mut active = 2u32;
    let notes = detach_node(&mut nodes, &mut entry, &mut active, 0).unwrap();
    assert_eq!(notes, vec![(1, vec![])]);
    release_node(&mut nodes, &mut free, 0);
    assert!(nodes[0].is_none());
    assert_eq!(free, vec![0]);
    assert_eq!(links(&nodes, 1), (vec![], vec![], false));
    let (id, first) = admit_node(&mut nodes, &mut free, &mut entry, &mut active, 2, 2).unwrap();
    assert_eq!((id, first), (0, false));
    assert_eq!(entry, 1);
    assert_eq!(active, 2);
    assert!(free.is_empty());
}

#[test]
fn totals_count_live_nodes_only() {
    let nodes = vec![
        node(vec![1, 2], vec![2], false),
        None,
        node(vec![0], vec![0, 3], false),
        node(vec![0, 2, 4], vec![], true),
    ];
    assert_eq!(degree_totals(&nodes), (2, 3, 3));
    assert_eq!(degree_totals(&[]), (0, 0, 0));
}

#[test]
fn stale_slots_and_live_lists() {
    let nodes = vec![
        node(vec![1, 2], vec![], false),
        None,
        node(vec![0], vec![], true),
        node(vec![0, 1], vec![], false),
    ];
    let mut stale: Vec<u32> = stale_slots(&nodes).into_iter().collect();
    stale.sort();
    assert_eq!(stale, vec![1, 2]);
    assert_eq!(live_out_lists(&nodes), vec![vec![1, 2], vec![], vec![], vec![0, 1]]);
}

#[test]
fn rebuilding_links_adds_candidates_and_back_links() {
    let mut nodes = vec![
        node(vec![3, 1], vec![], false),
        node(vec![0], vec![0], false),
        node(vec![4], vec![], false),
        None,
        node(vec![2, 0, 1], vec![], false),
    ];
    let (added, back) = rebuild_links(&mut nodes, 0, &[1], &[2, 4], 2, 4, true);
    assert_eq!((added, back), (1, 1));
    assert_eq!(links(&nodes, 0), (vec![1, 2], vec![2, 4], false));
    assert_eq!(links(&nodes, 2), (vec![4, 0], vec![0], false));
    // Node 4 already links to node 0: it gets no back link, but the
    // in-links are recorded.
    assert_eq!(links(&nodes, 4), (vec![2, 0, 1], vec![0], false));
}

#[test]
fn rebuilding_without_back_links_only_sets_out_links() {
    let mut nodes = vec![node(vec![9], vec![], false), node(vec![], vec![], false)];
    let (added, back) = rebuild_links(&mut nodes, 0, &[], &[1], 3, 4, false);
    assert_eq!((added, back), (1, 0));
    assert_eq!(links(&nodes, 0), (vec![1], vec![], false));
    assert_eq!(links(&nodes, 1), (vec![], vec![], false));
}

#[test]
fn live_count_tracks_live_slots_through_updates() {
    let mut nodes = Vec::new();
    let mut free = Vec::new();
    let mut entry = u32::MAX;
    let mut active = 0u32;
    for _ in 0..4 {
        let (id, first) = admit_node(&mut nodes, &mut free, &mut entry, &mut active, 2, 2).unwrap();
        if !first {
            let neighbors: Vec<u32> = (0..id).collect();
            let backs = vec![true; neighbors.len()];
            link_new_node(&mut nodes, id, &neighbors, &backs, 2);
        }
        assert_eq!(degree_totals(&nodes).0, active as usize);
    }
    let notes = detach_node(&mut nodes, &mut entry, &mut active, 1).unwrap();
    assert_eq!(degree_totals(&nodes).0, active as usize);
    let reps: Vec<(u32, Option<u32>)> = notes.iter().map(|(x, _)| (*x, Some(3))).collect();
    attach_replacements(&mut nodes, &reps, 2);
    assert_eq!(degree_totals(&nodes).0, active as usize);
    release_node(&mut nodes, &mut free, 1);
    assert_eq!(degree_totals(&nodes).0, active as usize);
    assert_eq!(active, 3);
    assert_ne!(entry, 1);
}

#[test]
fn id_mapping_binds_replaces_and_forgets() {
    let mut ids = IdMapping::new();
    assert_eq!(ids.internal_of(100), None);
    ids.bind(100, 0);
    ids.bind(200, 1);
    assert_eq!(ids.internal_of(200), Some(1));
    assert_eq!(ids.external_of(0), Some(100));
    // Replacing 100: its old slot loses the reverse entry, the new slot gains it.
    ids.release_slot(0);
    assert_eq!(ids.external_of(0), None);
    ids.bind(100, 2);
    assert_eq!(ids.internal_of(100), Some(2));
    assert_eq!(ids.external_of(2), Some(100));
    ids.forget(200, 1);
    assert_eq!(ids.internal_of(200), None);
    assert_eq!(ids.external_of(1), None);
}
