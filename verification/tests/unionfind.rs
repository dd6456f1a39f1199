use egraph_undo::unionfind::UnionFind;

fn ids(us: impl IntoIterator<Item = Option<usize>>) -> Vec<Option<usize>> {
    us.into_iter().collect()
}

#[test]
fn union_find() {
    let n = 10;

    let mut uf = UnionFind::default();
    for _ in 0..n {
        uf.make_set();
    }

    // test the initial condition of everyone in their own set
    assert_eq!(uf.parents, ids((0..n).map(Some)));

    // build up one set
    uf.union(0, 1);
    uf.union(0, 2);
    uf.union(0, 3);

    // build up another set
    uf.union(6, 7);
    uf.union(6, 8);
    uf.union(6, 9);

    // this should compress all paths
    for i in 0..n {
        uf.find_mut(i);
    }

    // indexes:         0, 1, 2, 3, 4, 5, 6, 7, 8, 9
    let expected = vec![
        Some(0),
        Some(0),
        Some(0),
        Some(0),
        Some(4),
        Some(5),
        Some(6),
        Some(6),
        Some(6),
        Some(6),
    ];
    assert_eq!(uf.parents, ids(expected));
}

#[test]
fn delete() {
    let mut union_find = UnionFind::default();
    for _ in 0..10 {
        union_find.make_set();
    }

    union_find.union(0, 1);
    union_find.union(0, 2);
    union_find.union(0, 3);

    union_find.union(6, 7);
    union_find.union(7, 8);
    union_find.union(8, 9);

    assert_eq!(
        union_find.parents,
        ids(vec![
            Some(0),
            Some(0),
            Some(0),
            Some(0),
            Some(4),
            Some(5),
            Some(6),
            Some(6),
            Some(7),
            Some(8)
        ])
    );

    // Deletion leaves vacant nodes to avoid changing IDs (which correspond with indices)
    // Since 0 is a root node, its children are assigned a new root (1)
    union_find.delete(0);
    assert_eq!(
        union_find.parents,
        ids(vec![
            None,
            Some(1),
            Some(1),
            Some(1),
            Some(4),
            Some(5),
            Some(6),
            Some(6),
            Some(7),
            Some(8)
        ])
    );

    union_find.delete(4);
    assert_eq!(
        union_find.parents,
        ids(vec![
            None,
            Some(1),
            Some(1),
            Some(1),
            None,
            Some(5),
            Some(6),
            Some(6),
            Some(7),
            Some(8)
        ])
    );

    union_find.delete(6);
    assert_eq!(
        union_find.parents,
        ids(vec![
            None,
            Some(1),
            Some(1),
            Some(1),
            None,
            Some(5),
            None,
            Some(7),
            Some(7),
            Some(8)
        ])
    );
}

#[test]
fn find_after_delete() {
    let mut uf = UnionFind::default();
    for _ in 0..4 {
        uf.make_set();
    }
    uf.union(0, 1);
    uf.union(0, 2);
    assert_eq!(uf.size(), 4);

    uf.delete(3);
    // the deleted id signals absence, every survivor still resolves to a live root
    assert_eq!(uf.find(3), None);
    assert_eq!(uf.size(), 3);
    for i in 0..3 {
        let root = uf.find(i).expect("survivor must resolve");
        assert_eq!(uf.find(root), Some(root));
    }
}

#[test]
fn find_mut_resolves_to_root() {
    let mut uf = UnionFind::default();
    for _ in 0..5 {
        uf.make_set();
    }
    uf.union(1, 2);
    uf.union(3, 1);
    // 2 -> 1 -> 3; path halving keeps every id in the same set
    assert_eq!(uf.find_mut(2), Some(3));
    assert_eq!(uf.find(2), Some(3));
    assert_eq!(uf.find(1), Some(3));
    assert_eq!(uf.find(0), Some(0));
    assert_eq!(uf.find(4), Some(4));
}
