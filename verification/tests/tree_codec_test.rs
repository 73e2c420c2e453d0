use tree::tree_codec::TreeTable;
use tree::tree_lib::{Tree, Vertex};

fn chain(extra: u32) -> Tree {
    let mut tree = Tree::default().insert_vertex(0).unwrap();
    for i in 0..extra {
        tree = tree.insert_vertex(i).unwrap();
    }
    tree
}

#[test]
fn test_serde_vertex() {
    let tree = chain(20);

    for i in 0u32..21 {
        let vertex = tree.get_vertex(i).unwrap();
        let table = tree.to_table();
        let parsed_vertex = table.vertices[i as usize];
        assert_eq!(vertex, parsed_vertex, "Vertex should match via serde conversion");
    }
}

#[test]
fn test_serde_tree() {
    let tree = chain(20);

    let serialized_tree = tree.to_table();
    let parsed_tree = Tree::from_table(&serialized_tree).unwrap();

    assert_eq!(
        serialized_tree,
        parsed_tree.to_table(),
        "Tree should match via serde conversion"
    );
}

#[test]
fn test_round_trip_queries() {
    // A branchy tree: the round trip reproduces every query over the full
    // index range.
    let mut tree = Tree::new().insert_vertex(0).unwrap();
    for parent in [0u32, 0, 1, 1, 2, 4, 4, 6] {
        tree = tree.insert_vertex(parent).unwrap();
    }
    let back = Tree::from_table(&tree.to_table()).unwrap();
    assert_eq!(tree.size(), back.size());
    assert_eq!(tree.get_deepest(), back.get_deepest());
    assert_eq!(tree.get_last(), back.get_last());
    for i in 0u32..tree.size() as u32 {
        assert_eq!(tree.get_vertex(i), back.get_vertex(i));
        let depth = tree.get_vertex(i).unwrap().get_depth();
        for d in 0..=depth {
            let a = tree.get_ancestor_rc_at(i, d).unwrap();
            let b = back.get_ancestor_rc_at(i, d).unwrap();
            assert_eq!(*a, *b);
        }
    }
}

#[test]
fn test_malformed_tables() {
    // A depth that contradicts parent.depth + 1 fails the cross-check.
    let good = chain(2).to_table();
    let mut bad = good.clone();
    bad.vertices[2] = Vertex { index: 2, depth: 7, parent: Some(1) };
    let err = Tree::from_table(&bad).unwrap_err();
    assert!(matches!(err, tree::error::Error::TreeMalformed { .. }));

    // A forward parent reference is malformed.
    let mut bad = good.clone();
    bad.vertices[1] = Vertex { index: 1, depth: 1, parent: Some(2) };
    let err = Tree::from_table(&bad).unwrap_err();
    assert!(matches!(err, tree::error::Error::TreeMalformed { .. }));

    // A genesis record with a parent is malformed.
    let mut bad = good.clone();
    bad.vertices[0] = Vertex { index: 0, depth: 0, parent: Some(0) };
    let err = Tree::from_table(&bad).unwrap_err();
    assert!(matches!(err, tree::error::Error::TreeMalformed { .. }));

    // A corrupted deepest-order sequence fails the round trip.
    let mut bad = good.clone();
    bad.deepest[0] = (9, 9);
    let err = Tree::from_table(&bad).unwrap_err();
    assert!(matches!(err, tree::error::Error::TreeMalformed { .. }));

    // The empty table decodes to the empty tree.
    let empty = TreeTable { vertices: Vec::new(), deepest: Vec::new() };
    let decoded = Tree::from_table(&empty).unwrap();
    assert_eq!(decoded.size(), 0);
}

#[test]
fn test_table_shape() {
    // The transport form: records in index order, each {depth, parent},
    // and the deepest-order keys ascending with the index flipped.
    let mut tree = Tree::new().insert_vertex(0).unwrap();
    tree = tree.insert_vertex(0).unwrap();
    tree = tree.insert_vertex(0).unwrap();
    let table = tree.to_table();
    assert_eq!(table.vertices.len(), 3);
    for (i, v) in table.vertices.iter().enumerate() {
        assert_eq!(v.get_index(), i as u32);
    }
    assert_eq!(
        table.deepest,
        vec![(0, u32::MAX), (1, u32::MAX - 2), (1, u32::MAX - 1)]
    );
}
