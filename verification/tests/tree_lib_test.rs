use tree::tree_lib::Tree;

/// A linear chain: genesis plus `extra` vertices, each the child of the
/// previous one.
fn chain(extra: u32) -> Tree {
    let mut tree = Tree::default().insert_vertex(0).unwrap();
    for i in 0..extra {
        tree = tree.insert_vertex(i).unwrap();
    }
    tree
}

#[test]
fn test_insert_vertex() {
    let tree = Tree::default().insert_vertex(0);
    assert!(tree.is_ok(), "Insert Genesis Block should pass");

    let tree = tree.unwrap().insert_vertex(5);
    assert!(tree.is_err(), "Insert invalid parent should fail");
}

#[test]
fn test_get_vertex() {
    let mut tree = chain(20);

    for i in 0u32..21 {
        let vertex = tree.get_vertex_rc(i);
        assert!(vertex.is_some(), "Vertex should exist");
        assert!(vertex.unwrap().get_depth() == i, "Vertex depth should match");
    }

    for _ in 0u32..20 {
        tree = tree.insert_vertex(20).unwrap();
    }

    let vertex_20 = tree.get_vertex_rc(20).unwrap();

    for i in 21u32..41 {
        let vertex = tree.get_vertex_rc(i);
        assert!(vertex.is_some(), "Vertex should exist");
        assert!(
            vertex.unwrap().get_depth() == (vertex_20.get_depth() + 1),
            "Vertex depth should match"
        );
    }
}

#[test]
fn test_last() {
    let tree = chain(20);

    let last = tree.get_last();
    assert!(last.is_some(), "Last vertex should exist");
    assert!(last.unwrap() == 20, "Last vertex should match");
}

#[test]
fn test_deepest() {
    let mut tree = chain(20);
    for _ in 0u32..5 {
        tree = tree.insert_vertex(20).unwrap();
    }

    let deepest = tree.get_deepest();
    assert!(deepest.is_some(), "Deepest vertex should exist");
    assert!(deepest.unwrap() == 21, "Deepest vertex should match");
}

#[test]
fn test_ancestor() {
    let tree = chain(20);

    let last = tree.get_last().unwrap();
    let last_vertex = tree.get_vertex_rc(last).unwrap();

    assert!(
        tree.is_valid_vertex_with_distance(0, 20),
        "Genesis block should be valid and distance 20"
    );
    assert!(
        !tree.is_valid_vertex_with_distance(0, 21),
        "Genesis block should be valid and distance 20"
    );

    assert!(
        tree.is_valid_vertex_with_distance(20, 0),
        "Last block should be valid and distance 0"
    );
    assert!(
        !tree.is_valid_vertex_with_distance(20, 1),
        "Last block should be valid and distance 0"
    );

    for i in 0u32..last_vertex.get_depth() {
        let ancestor = tree.get_ancestor_rc_at(last, i);
        assert!(ancestor.is_ok(), "Get ancestor on path to Genesis should pass");
    }

    let deepest = tree.get_deepest().unwrap();
    let deepest_vertex = tree.get_vertex_rc(deepest).unwrap();

    for i in 0u32..deepest_vertex.get_depth() {
        let ancestor = tree.get_ancestor_rc_at(deepest, i);
        assert!(ancestor.is_ok(), "Get ancestor on path to Genesis should pass");
    }
}

#[test]
fn test_ancestor_exact_chain() {
    // Chain of 21 vertices: the ancestor of vertex 20 at depth d is vertex d.
    let tree = chain(20);
    for d in 0u32..21 {
        let ancestor = tree.get_ancestor_rc_at(20, d).unwrap();
        assert_eq!(ancestor.get_index(), d);
        assert_eq!(ancestor.get_depth(), d);
    }
    // Depth 20 is below vertex 8, so it is not an ancestor of vertex 8.
    let err = tree.get_ancestor_rc_at(8, 20).unwrap_err();
    assert!(matches!(err, tree::error::Error::VertexNotFound { .. }));
    // An absent vertex is not found either.
    let err = tree.get_ancestor_rc_at(99, 0).unwrap_err();
    assert!(matches!(err, tree::error::Error::VertexNotFound { .. }));
}

#[test]
fn test_deepest_siblings() {
    // Genesis plus 20 linear vertices, then 5 siblings under vertex 20: all
    // at depth 21, and the smallest index among them is the deepest.
    let mut tree = chain(20);
    assert_eq!(tree.get_last(), Some(20));
    assert_eq!(tree.get_deepest(), Some(20));
    for i in 0u32..5 {
        tree = tree.insert_vertex(20).unwrap();
        let v = tree.get_vertex(21 + i).unwrap();
        assert_eq!(v.get_depth(), 21);
        assert_eq!(v.get_parent(), Some(20));
    }
    assert_eq!(tree.get_last(), Some(25));
    assert_eq!(tree.get_deepest(), Some(21));
    // Vertex 21 is the canonical tip; its siblings are off the longest
    // valid path even at distance zero.
    assert!(tree.is_valid_vertex_with_distance(21, 0));
    assert!(!tree.is_valid_vertex_with_distance(22, 0));
}

#[test]
fn test_genesis_parent_ignored() {
    // On an empty tree any event makes genesis, its parent ignored; the
    // same event afterwards is malformed, since parent 5 does not exist.
    let tree = Tree::new().insert_vertex(5).unwrap();
    assert_eq!(tree.size(), 1);
    let genesis = tree.get_vertex(0).unwrap();
    assert_eq!(genesis.get_index(), 0);
    assert_eq!(genesis.get_depth(), 0);
    assert_eq!(genesis.get_parent(), None);

    let err = tree.insert_vertex(5).unwrap_err();
    assert!(matches!(err, tree::error::Error::TreeMalformed { .. }));
}

#[test]
fn test_size_counts_insertions() {
    let mut tree = Tree::new();
    assert_eq!(tree.size(), 0);
    tree = tree.insert_vertex(0).unwrap();
    for i in 0u32..7 {
        assert_eq!(tree.size(), (i + 1) as usize);
        tree = tree.insert_vertex(i / 2).unwrap();
    }
    assert_eq!(tree.size(), 8);
}

#[test]
fn test_prune_descendants() {
    // A fork: 0 - 1 - 2 - 3 and 1 - 4 - 5.  Pruning vertex 2 marks 2 and 3,
    // not the other branch, and removes nothing.
    let mut tree = Tree::new().insert_vertex(0).unwrap();
    tree = tree.insert_vertex(0).unwrap(); // 1
    tree = tree.insert_vertex(1).unwrap(); // 2
    tree = tree.insert_vertex(2).unwrap(); // 3
    tree = tree.insert_vertex(1).unwrap(); // 4
    tree = tree.insert_vertex(4).unwrap(); // 5

    tree.prune_vertex(2);
    assert_eq!(tree.size(), 6, "pruning only flags, it never removes");
    for i in 0u32..6 {
        assert!(tree.get_vertex(i).is_some(), "history stays queryable");
    }
    assert!(tree.is_pruned(2));
    assert!(tree.is_pruned(3), "descendants of a pruned vertex end up pruned");
    for i in [0u32, 1, 4, 5] {
        assert!(!tree.is_pruned(i), "the other branch is untouched");
    }
    // A vertex inserted under a pruned parent is born pruned.
    tree = tree.insert_vertex(3).unwrap(); // 6, under pruned 3
    assert!(tree.is_pruned(6));
}

#[test]
fn test_prune_idempotent() {
    let mut tree = chain(4);
    tree.prune_vertex(2);
    let once = tree.clone();
    tree.prune_vertex(2);
    // Pruning an already-pruned vertex is a no-op: every observable query
    // agrees between the two trees.
    assert_eq!(once.size(), tree.size());
    assert_eq!(once.get_deepest(), tree.get_deepest());
    assert_eq!(once.get_last(), tree.get_last());
    for i in 0u32..5 {
        assert_eq!(once.get_vertex(i), tree.get_vertex(i));
        assert_eq!(once.is_pruned(i), tree.is_pruned(i));
    }
    assert_eq!(once.to_table(), tree.to_table());
}

#[test]
fn test_prune_absent_vertex() {
    let mut tree = chain(3);
    let before = tree.to_table();
    tree.prune_vertex(99);
    assert_eq!(before, tree.to_table(), "pruning an absent vertex changes nothing");
    for i in 0u32..4 {
        assert!(!tree.is_pruned(i));
    }
}
