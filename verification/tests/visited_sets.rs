use vicinity::visited::{Visited, VisitedSet, DENSE_VISITED_THRESHOLD};

#[test]
fn test_visited_set_dense() {
    let mut v = VisitedSet::new(100, 10);
    assert!(!v.contains(5));
    assert!(v.insert(5));
    assert!(v.contains(5));
    assert!(!v.insert(5)); // already visited
}

#[test]
fn test_visited_set_dense_clear() {
    let mut v = VisitedSet::new(100, 10);
    assert!(v.insert(5));
    assert!(v.contains(5));
    v.clear();
    // After clear, previously visited nodes are no longer marked
    assert!(!v.contains(5));
    assert!(v.insert(5));
}

#[test]
fn test_visited_set_dense_generation_overflow() {
    // Create a dense set and force generation to u8::MAX
    let mut v = VisitedSet::new(100, 10);
    if let VisitedSet::Dense {
        ref mut generation, ..
    } = v
    {
        *generation = u8::MAX;
    }
    assert!(v.insert(5));
    assert!(v.contains(5));
    // This clear triggers the overflow path (memset)
    v.clear();
    assert!(!v.contains(5));
    assert!(v.insert(5));
    assert!(v.contains(5));
}

#[test]
fn test_visited_set_sparse() {
    // Force sparse by using a large num_nodes
    let mut v = VisitedSet::new(DENSE_VISITED_THRESHOLD + 1, 10);
    assert!(!v.contains(42));
    assert!(v.insert(42));
    assert!(v.contains(42));
    assert!(!v.insert(42));
}

#[test]
fn test_visited_set_sparse_clear() {
    let mut v = VisitedSet::new(DENSE_VISITED_THRESHOLD + 1, 10);
    assert!(v.insert(42));
    v.clear();
    assert!(!v.contains(42));
    assert!(v.insert(42));
}

#[test]
fn visited_set_dense_out_of_range_is_never_recorded() {
    let mut v = VisitedSet::new(4, 10);
    assert!(v.insert(10));
    assert!(!v.contains(10));
    assert!(v.insert(10));
}

#[test]
fn visited_set_new_picks_variant_by_size() {
    assert!(matches!(VisitedSet::new(DENSE_VISITED_THRESHOLD, 1), VisitedSet::Dense { .. }));
    assert!(matches!(VisitedSet::new(DENSE_VISITED_THRESHOLD + 1, 1), VisitedSet::Sparse(_)));
}

#[test]
fn visited_set_prepare_grows_and_clears() {
    let mut v = VisitedSet::new(4, 10);
    assert!(v.insert(2));
    v.prepare(8, 10);
    assert!(!v.contains(2));
    assert!(v.insert(7));
    assert!(v.contains(7));
    if let VisitedSet::Dense { marks, .. } = &v {
        assert_eq!(marks.len(), 8);
    } else {
        panic!("expected dense variant");
    }
}

#[test]
fn visited_set_prepare_switches_variant() {
    let mut v = VisitedSet::new(4, 10);
    v.prepare(DENSE_VISITED_THRESHOLD + 1, 10);
    assert!(matches!(v, VisitedSet::Sparse(_)));
    assert!(v.insert(3));
    v.prepare(16, 10);
    assert!(matches!(v, VisitedSet::Dense { .. }));
    assert!(!v.contains(3));
}

#[test]
fn visited_dense_and_sparse_insert() {
    let mut d = Visited::Dense(vec![false; 3]);
    assert!(d.insert(1));
    assert!(!d.insert(1));
    assert!(!d.insert(5)); // beyond the array: never recorded
    let mut s = Visited::Sparse(std::collections::HashSet::new());
    assert!(s.insert(9));
    assert!(!s.insert(9));
}
