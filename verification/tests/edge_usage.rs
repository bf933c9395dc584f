use vicinity::edge_stats::{EdgeStats, HOT_ENTRY_POINTS, RECENT_ENTRY_POINTS};

#[test]
fn test_edge_stats_basic() {
    let mut stats = EdgeStats::new();

    // Record some traversals
    stats.record_traversal(0, 1, true);
    stats.record_traversal(0, 1, false);
    stats.record_traversal(0, 1, true);

    // improvement rate is improvements / traversals
    let rate = stats.improvement_count(0, 1) as f32 / stats.traversal_count(0, 1) as f32;
    assert!((rate - 0.666).abs() < 0.01);
}

#[test]
fn test_cooccurrence() {
    let mut stats = EdgeStats::new();

    stats.record_covisit(&[0, 1, 2]);
    stats.record_search(0);
    stats.record_covisit(&[0, 1, 3]);
    stats.record_search(0);

    let rate = |a: usize, b: usize| {
        stats.cooccurrence_count(a, b) as f32 / stats.total_searches() as f32
    };
    // 0,1 appeared together twice
    assert_eq!(rate(0, 1), 1.0);
    // 0,2 appeared together once
    assert_eq!(rate(0, 2), 0.5);
}

#[test]
fn edge_stats_traversal_is_undirected() {
    let mut stats = EdgeStats::new();
    stats.record_traversal(3, 7, false);
    stats.record_traversal(7, 3, true);
    assert_eq!(stats.traversal_count(3, 7), 2);
    assert_eq!(stats.traversal_count(7, 3), 2);
    assert_eq!(stats.improvement_count(3, 7), 1);
    assert_eq!(stats.traversal_count(3, 8), 0);
}

#[test]
fn edge_stats_covisit_counts_every_pair_once() {
    let mut stats = EdgeStats::new();
    stats.record_covisit(&[4, 5, 6, 7]);
    for (a, b) in [(4, 5), (4, 6), (4, 7), (5, 6), (5, 7), (6, 7)] {
        assert_eq!(stats.cooccurrence_count(a, b), 1);
        assert_eq!(stats.cooccurrence_count(b, a), 1);
    }
    assert_eq!(stats.cooccurrence_count(4, 4), 0);
    // A repeated node pairs with itself and twice with the others.
    stats.record_covisit(&[1, 2, 1]);
    assert_eq!(stats.cooccurrence_count(1, 2), 2);
    assert_eq!(stats.cooccurrence_count(1, 1), 1);
}

#[test]
fn edge_stats_record_search_keeps_recent_window() {
    let mut stats = EdgeStats::new();
    for i in 0..(RECENT_ENTRY_POINTS + 5) {
        stats.record_search(i);
    }
    assert_eq!(stats.total_searches(), (RECENT_ENTRY_POINTS + 5) as u64);
    let recent = stats.recent_entry_points();
    assert_eq!(recent.len(), RECENT_ENTRY_POINTS);
    assert_eq!(recent.front(), Some(&5));
    assert_eq!(recent.back(), Some(&(RECENT_ENTRY_POINTS + 4)));
}

#[test]
fn edge_stats_clear_resets_counters_but_keeps_recent() {
    let mut stats = EdgeStats::new();
    stats.record_traversal(1, 2, true);
    stats.record_covisit(&[1, 2]);
    stats.record_search(9);
    stats.clear();
    assert_eq!(stats.traversal_count(1, 2), 0);
    assert_eq!(stats.improvement_count(1, 2), 0);
    assert_eq!(stats.cooccurrence_count(1, 2), 0);
    assert_eq!(stats.total_searches(), 0);
    assert_eq!(stats.recent_entry_points().len(), 1);
}

#[test]
fn hot_entry_points_rank_by_frequency() {
    let mut stats = EdgeStats::new();
    for ep in [5, 3, 5, 9, 5, 3, 7] {
        stats.record_search(ep);
    }
    let hot = stats.hot_entry_points();
    assert_eq!(hot.len(), 4);
    assert_eq!(hot[0], 5);
    assert_eq!(hot[1], 3);
    let mut rest = vec![hot[2], hot[3]];
    rest.sort();
    assert_eq!(rest, vec![7, 9]);
    assert!(EdgeStats::new().hot_entry_points().is_empty());
}

#[test]
fn hot_entry_points_keep_the_most_frequent() {
    let mut stats = EdgeStats::new();
    // Nodes 0..12 once each, node 20 three times, node 30 twice.
    for ep in 0..12 {
        stats.record_search(ep);
    }
    for ep in [20, 30, 20, 30, 20] {
        stats.record_search(ep);
    }
    let hot = stats.hot_entry_points();
    assert_eq!(hot.len(), HOT_ENTRY_POINTS);
    assert_eq!(hot[0], 20);
    assert_eq!(hot[1], 30);
    assert!(hot[2..].iter().all(|&ep| ep < 12));
}

#[test]
fn entries_list_each_counted_pair_once() {
    let mut stats = EdgeStats::new();
    stats.record_covisit(&[3, 1, 2]);
    stats.record_covisit(&[1, 3]);
    let mut co = stats.cooccurrence_entries();
    co.sort();
    assert_eq!(co, vec![(1, 2, 1), (1, 3, 2), (2, 3, 1)]);
    stats.record_traversal(9, 4, false);
    stats.record_traversal(4, 9, true);
    stats.record_traversal(0, 0, false);
    let mut tr = stats.traversal_entries();
    tr.sort();
    assert_eq!(tr, vec![(0, 0, 1), (4, 9, 2)]);
    assert!(EdgeStats::new().cooccurrence_entries().is_empty());
}
