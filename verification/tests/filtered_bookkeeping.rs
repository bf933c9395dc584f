use vicinity::filtered::{
    selectivity_probe, visited_capacity_hint, AcornStats, FilterPredicate, FnFilter, NoFilter,
    SearchState, SelectivityRegime, MAX_VISITED_CAPACITY_HINT,
};

fn mock_graph() -> Vec<Vec<u32>> {
    vec![
        vec![1, 2, 3],          // 0
        vec![0, 2, 3, 4],       // 1
        vec![0, 1, 3, 4, 5],    // 2
        vec![0, 1, 2, 4, 5, 6], // 3
        vec![1, 2, 3, 5, 6, 7], // 4
        vec![2, 3, 4, 6, 7, 8], // 5
        vec![3, 4, 5, 7, 8, 9], // 6
        vec![4, 5, 6, 8, 9],    // 7
        vec![5, 6, 7, 9],       // 8
        vec![6, 7, 8],          // 9
    ]
}

#[test]
fn test_estimate_selectivity() {
    let neighbors = mock_graph();

    // 50% filter
    let filter = FnFilter(|id: u32| id % 2 == 0);
    let (matches, total) = selectivity_probe(&filter, &neighbors, 0, 10);
    let sel = matches as f32 / total as f32;
    assert!(sel > 0.3 && sel < 0.7, "expected ~0.5, got {sel}");

    // 10% filter
    let filter = FnFilter(|id: u32| id == 0);
    let (matches, total) = selectivity_probe(&filter, &neighbors, 0, 10);
    let sel = matches as f32 / total as f32;
    assert!(sel < 0.2, "expected ~0.1, got {sel}");
}

#[test]
fn selectivity_probe_stops_at_probe_size_or_component() {
    let neighbors = mock_graph();
    assert_eq!(selectivity_probe(&NoFilter, &neighbors, 0, 4), (4, 4));
    assert_eq!(selectivity_probe(&NoFilter, &neighbors, 0, 50), (10, 10));
    let split: Vec<Vec<u32>> = vec![vec![1], vec![0], vec![3], vec![2]];
    assert_eq!(selectivity_probe(&NoFilter, &split, 2, 50), (2, 2));
    let none = FnFilter(|_id: u32| false);
    assert_eq!(selectivity_probe(&none, &split, 0, 50), (0, 2));
}

#[test]
fn filters_match() {
    assert!(NoFilter.matches(7));
    let even = FnFilter(|id: u32| id % 2 == 0);
    assert!(even.matches(4));
    assert!(!even.matches(5));
}

#[test]
fn search_state_counts_first_visits() {
    let mut state = SearchState::new(8);
    assert!(state.visit(3, true));
    assert!(state.visit(4, false));
    assert!(!state.visit(3, false));
    assert!(!state.visit(4, true));
    assert_eq!(state.visited_count(), 2);
    assert_eq!(state.filtered_count(), 1);
}

#[test]
fn capacity_hint_values() {
    assert_eq!(visited_capacity_hint(100, 32, 10), 343);
    assert_eq!(visited_capacity_hint(0, 0, 0), 1);
    assert_eq!(visited_capacity_hint(usize::MAX, 1, 1), MAX_VISITED_CAPACITY_HINT);
    assert_eq!(visited_capacity_hint(400_000, 0, 0), MAX_VISITED_CAPACITY_HINT);
}

#[test]
fn acorn_stats_start_at_zero() {
    let s = AcornStats::new();
    assert_eq!(s.two_hop_invocations, 0);
    assert_eq!(s.two_hop_nodes_examined, 0);
    assert_eq!(s, AcornStats::default());
    assert_ne!(SelectivityRegime::High, SelectivityRegime::Low);
}
