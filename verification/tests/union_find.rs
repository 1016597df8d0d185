use pluck::utils::union_find::UnionFind;

#[test]
fn new_then_all_singletons() {
    let mut uf = UnionFind::new(5);
    let comps = uf.components();
    assert_eq!(comps.len(), 5);
    for c in &comps {
        assert_eq!(c.len(), 1);
    }
}

#[test]
fn union_merges_components() {
    let mut uf = UnionFind::new(4);
    assert!(uf.union(0, 1));
    assert!(uf.union(2, 3));
    assert_eq!(uf.components().len(), 2);
    assert!(uf.union(1, 2));
    assert_eq!(uf.components().len(), 1);
}

#[test]
fn union_is_idempotent() {
    let mut uf = UnionFind::new(3);
    assert!(uf.union(0, 1));
    assert!(!uf.union(0, 1));
    assert!(!uf.union(1, 0));
    assert_eq!(uf.find(0), uf.find(1));
}

#[test]
fn components_groups_correctly() {
    let mut uf = UnionFind::new(6);
    uf.union(0, 2);
    uf.union(2, 4);
    uf.union(1, 3);
    let mut comps = uf.components();
    for c in comps.iter_mut() {
        c.sort();
    }
    comps.sort_by_key(|c| c[0]);
    assert_eq!(comps, vec![vec![0, 2, 4], vec![1, 3], vec![5]]);
}

#[test]
fn empty_is_empty() {
    let mut uf = UnionFind::new(0);
    assert!(uf.components().is_empty());
}

#[test]
fn joined_roots_of_one_rank_rise() {
    let mut uf = UnionFind::new(5);
    assert!(uf.union(0, 1));
    assert!(uf.union(2, 0));
    // The root of rank one stays on top.
    assert_eq!(uf.find(2), 0);
    assert!(uf.union(3, 4));
    assert!(uf.union(4, 0));
    // Of two roots of one rank that of the first argument is on top.
    assert_eq!(uf.find(1), 3);
}
