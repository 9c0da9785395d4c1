use rusty_simulator::union_find::UnionFind;

#[test]
fn union_find_joins_sets() {
    let mut uf = UnionFind::new(6);
    for i in 0..6 {
        assert_eq!(uf.find(i), i);
    }
    uf.union(0, 1);
    uf.union(2, 3);
    uf.union(1, 3);
    let r = uf.find(0);
    assert_eq!(uf.find(1), r);
    assert_eq!(uf.find(2), r);
    assert_eq!(uf.find(3), r);
    assert_ne!(uf.find(4), r);
    assert_ne!(uf.find(4), uf.find(5));
    uf.union(3, 0);
    assert_eq!(uf.find(2), r);
}

#[test]
fn union_find_chain_compresses() {
    let mut uf = UnionFind::new(5);
    for i in 0..4 {
        uf.union(i, i + 1);
    }
    let r = uf.find(4);
    for i in 0..5 {
        assert_eq!(uf.find(i), r);
        assert_eq!(uf.parent[i], r);
    }
    assert!(uf.rank.iter().all(|&k| k < 5));
}

#[test]
fn union_find_ranks_and_links() {
    let mut uf = UnionFind::new(4);
    assert_eq!(uf.rank, vec![0, 0, 0, 0]);
    assert_eq!(uf.parent, vec![0, 1, 2, 3]);
    uf.union(0, 1);
    assert_eq!(uf.parent[1], 0);
    assert_eq!(uf.rank[0], 1);
    uf.union(2, 0);
    assert_eq!(uf.parent[2], 0);
    assert_eq!(uf.rank[0], 1);
    uf.union(3, 3);
    assert_eq!(uf.rank, vec![1, 0, 0, 0]);
}
