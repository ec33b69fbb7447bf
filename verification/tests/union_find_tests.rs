use algo_caster::algorithm::kruskal::UnionFind;

#[test]
fn each_element_starts_alone() {
    let mut uf = UnionFind::new(4);
    for i in 0..4 {
        assert_eq!(uf.find(i), i);
    }
}

#[test]
fn union_merges_two_sets_once() {
    let mut uf = UnionFind::new(5);
    assert!(uf.union(0, 1));
    assert!(uf.union(2, 3));
    assert_eq!(uf.find(0), uf.find(1));
    assert_ne!(uf.find(1), uf.find(2));
    assert!(uf.union(1, 3));
    assert_eq!(uf.find(0), uf.find(3));
    assert!(!uf.union(0, 2));
    assert_ne!(uf.find(4), uf.find(0));
}

#[test]
fn find_is_stable_under_path_compression() {
    let mut uf = UnionFind::new(8);
    for i in 0..7 {
        uf.union(i, i + 1);
    }
    let r = uf.find(7);
    for i in 0..8 {
        assert_eq!(uf.find(i), r);
    }
    assert_eq!(uf.find(0), r);
}

#[test]
fn union_keeps_the_root_of_higher_rank() {
    let mut uf = UnionFind::new(5);
    // Equal ranks: the root of the first argument represents the merged set.
    assert!(uf.union(1, 0));
    assert_eq!(uf.find(0), 1);
    assert!(uf.union(3, 2));
    assert_eq!(uf.find(2), 3);
    // Rank 1 against rank 0: the higher rank stays the root, whichever side it is on.
    assert!(uf.union(4, 0));
    assert_eq!(uf.find(4), 1);
    // Equal ranks again (1 and 1): the first argument's root wins.
    assert!(uf.union(2, 4));
    assert_eq!(uf.find(0), 3);
    assert_eq!(uf.find(4), 3);
}
