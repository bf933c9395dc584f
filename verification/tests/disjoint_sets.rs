use vicinity::union_find::{components, UnionFind};

#[test]
fn union_find_starts_with_singletons() {
    let mut uf = UnionFind::new(4);
    for x in 0..4u32 {
        assert_eq!(uf.find(x), x);
    }
    assert!(!uf.same_set(0, 1));
}

#[test]
fn union_merges_sets_and_keeps_others_apart() {
    let mut uf = UnionFind::new(6);
    uf.union(0, 1);
    uf.union(2, 3);
    assert!(uf.same_set(0, 1));
    assert!(uf.same_set(2, 3));
    assert!(!uf.same_set(1, 2));
    uf.union(1, 3);
    assert!(uf.same_set(0, 2));
    assert!(!uf.same_set(0, 4));
    // Union by rank: the taller tree's root stays the representative.
    let root = uf.find(0);
    uf.union(5, 2);
    assert_eq!(uf.find(5), root);
    // Repeated union changes nothing.
    uf.union(0, 3);
    assert_eq!(uf.find(3), root);
}

#[test]
fn components_follow_edges_in_either_direction() {
    // 0 -> 1, 3 -> 2 (only one direction listed), 4 alone.
    let neighbors = vec![vec![1u32], vec![], vec![], vec![2], vec![]];
    let mut uf = components(&neighbors);
    assert!(uf.same_set(0, 1));
    assert!(uf.same_set(2, 3));
    assert!(!uf.same_set(0, 2));
    assert!(!uf.same_set(4, 0));
    assert!(!uf.same_set(4, 3));
}

#[test]
fn components_of_a_connected_graph_form_one_set() {
    let neighbors = vec![vec![1u32], vec![0, 2], vec![1]];
    let mut uf = components(&neighbors);
    let r = uf.find(0);
    assert_eq!(uf.find(1), r);
    assert_eq!(uf.find(2), r);
}
