use vicinity::construction::{advance_entry_point, link_both_ways, retain_insertable};
use vicinity::selection::select_diverse;
use vicinity::structure::compute_entry_point;

#[test]
fn link_both_ways_adds_missing_edges_in_both_directions() {
    let mut lists: Vec<Vec<u32>> = vec![vec![], vec![3], vec![], vec![1]];
    link_both_ways(&mut lists, 3, &[0, 1, 2, 0]);
    // Node 3 keeps its edge to 1 and gains 0 and 2, once each.
    assert_eq!(lists[3], vec![1, 0, 2]);
    assert_eq!(lists[0], vec![3]);
    // Node 1 already listed 3.
    assert_eq!(lists[1], vec![3]);
    assert_eq!(lists[2], vec![3]);
}

#[test]
fn link_both_ways_with_nothing_selected_changes_nothing() {
    let mut lists: Vec<Vec<u32>> = vec![vec![1], vec![0]];
    link_both_ways(&mut lists, 1, &[]);
    assert_eq!(lists, vec![vec![1], vec![0]]);
}

#[test]
fn retain_insertable_keeps_inserted_members_of_the_layer() {
    let assignments = [2u8, 0, 1, 3, 1];
    let mut selected = vec![4, 0, 1, 2, 3];
    // Inserting node 3 at layer 1: node 4 does not exist yet, node 1 is only on layer 0.
    retain_insertable(&mut selected, 3, &assignments, 1);
    assert_eq!(selected, vec![0, 2]);
    let mut selected = vec![2, 1, 0];
    retain_insertable(&mut selected, 5, &assignments, 0);
    assert_eq!(selected, vec![2, 1, 0]);
}

#[test]
fn running_entry_point_matches_compute_entry_point() {
    let assignments = [1u8, 0, 3, 2, 3, 1];
    let mut entry = 0u32;
    let mut layer = assignments[0];
    for (id, &l) in assignments.iter().enumerate().skip(1) {
        advance_entry_point(&mut entry, &mut layer, id as u32, l);
    }
    assert_eq!(entry, 2);
    assert_eq!(layer, 3);
    assert_eq!(compute_entry_point(&assignments, assignments.len()), Some(entry));
}

#[test]
fn select_diverse_keeps_diverse_candidates_then_backfills() {
    let sorted = [1u32, 2, 9, 3];
    // Only 9 is judged diverse: 1 is always kept, 9 next, then 2 fills the last place.
    assert_eq!(select_diverse(&sorted, 3, |c, _| c == 9), vec![1, 9, 2]);
    // Every candidate diverse: the first m in order.
    assert_eq!(select_diverse(&[5, 6, 7, 8], 2, |_, _| true), vec![5, 6]);
    // None diverse: the rejected ones fill in distance order.
    assert_eq!(select_diverse(&[5, 6, 7, 8], 3, |_, _| false), vec![5, 6, 7]);
    // Scanning stops once m links are kept.
    assert_eq!(select_diverse(&[1, 2, 3, 4, 5], 3, |c, _| c % 2 == 0), vec![1, 2, 4]);
    // The verdict sees the links kept so far.
    assert_eq!(select_diverse(&[1, 2, 3], 3, |_, kept| kept.len() == 1), vec![1, 2, 3]);
    assert_eq!(select_diverse(&[1, 2, 3], 3, |c, kept| kept == [1] && c == 3), vec![1, 3, 2]);
    // The first candidate is kept even when m is zero; no candidates, no links.
    assert_eq!(select_diverse(&[4, 5], 0, |_, _| true), vec![4]);
    assert_eq!(select_diverse(&[], 4, |_, _| true), Vec::<u32>::new());
}
