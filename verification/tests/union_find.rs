//! Disjoint sets.

use renamer::union_find::UnionFind;

#[test]
fn union_find_unions_and_finds() {
    let mut uf = UnionFind::new(6);
    uf.union(0, 1);
    uf.union(1, 2);
    uf.union(4, 5);
    assert_eq!(uf.find(0), uf.find(2));
    assert_eq!(uf.find(4), uf.find(5));
    assert_ne!(uf.find(0), uf.find(3));
    assert_ne!(uf.find(0), uf.find(4));
    uf.union(0, 2); // idempotent
    assert_eq!(uf.find(0), uf.find(2));
}

#[test]
fn every_element_starts_in_its_own_singleton_set() {
    let mut uf = UnionFind::new(4);
    let roots: Vec<usize> = (0..4).map(|i| uf.find(i)).collect();
    assert_eq!(roots, vec![0, 1, 2, 3]);
}

#[test]
fn union_is_transitive_across_a_chain() {
    let mut uf = UnionFind::new(5);
    uf.union(0, 1);
    uf.union(1, 2);
    uf.union(2, 3);
    // 0 and 3 were never unioned directly, only through the chain.
    assert_eq!(uf.find(0), uf.find(3));
    assert_ne!(uf.find(0), uf.find(4));
}

#[test]
fn empty_and_singleton_forests_behave() {
    let mut empty = UnionFind::new(0);
    assert!(empty.is_empty());
    let mut one = UnionFind::new(1);
    assert_eq!(one.find(0), 0);
    assert_eq!(one.len(), 1);
}
