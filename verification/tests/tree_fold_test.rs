use tree::bloom::Address;
use tree::error::Error;
use tree::tree_delegate::{compute_tree_state, sync_state};
use tree::tree_fold::{
    compute_state, sort_events, LedgerEvent, TreeId, TreeState as MultiTreeState,
    TreeStateFoldDelegate,
};

fn id(n: u64) -> TreeId {
    TreeId { w0: 0, w1: 0, w2: 0, w3: n }
}

fn ev(block: u64, log: u64, tree: TreeId, parent: u32) -> LedgerEvent {
    LedgerEvent { block_number: block, log_index: log, id: tree, parent }
}

fn addr() -> Address {
    Address { bytes: vec![0x11; 20] }
}

/// A linear ledger: one event per block, each extending the previous
/// vertex.
fn linear_events(tree: TreeId, n: u64) -> Vec<LedgerEvent> {
    let mut events = Vec::new();
    for b in 0..n {
        let parent = if b == 0 { 0 } else { (b - 1) as u32 };
        events.push(ev(b + 1, 0, tree, parent));
    }
    events
}

#[test]
fn test_sort_events() {
    let t = id(1);
    let unsorted = vec![ev(3, 0, t, 2), ev(1, 1, t, 0), ev(1, 0, t, 0), ev(2, 0, t, 1)];
    let sorted = sort_events(&unsorted);
    assert_eq!(
        sorted,
        vec![ev(1, 0, t, 0), ev(1, 1, t, 0), ev(2, 0, t, 1), ev(3, 0, t, 2)]
    );
}

#[test]
fn test_sync_size() {
    // Synced from genesis, the tree holds one vertex per insertion event.
    for k in [1u64, 5, 21] {
        let st = sync_state(id(7), addr(), Ok(linear_events(id(7), k))).unwrap();
        assert_eq!(st.tree.unwrap().size() as u64, k);
    }
}

#[test]
fn test_sync_out_of_order_input() {
    // The batch arrives unsorted; projection happens in canonical order.
    let t = id(1);
    let events = vec![ev(3, 0, t, 1), ev(1, 0, t, 0), ev(2, 0, t, 0)];
    let st = sync_state(t, addr(), Ok(events)).unwrap();
    let tree = st.tree.unwrap();
    assert_eq!(tree.size(), 3);
    assert_eq!(tree.get_vertex(2).unwrap().get_parent(), Some(1));
}

#[test]
fn test_sync_ignores_other_instances() {
    let t = id(1);
    let other = id(2);
    let events = vec![ev(1, 0, t, 0), ev(1, 1, other, 0), ev(2, 0, other, 0)];
    let st = sync_state(t, addr(), Ok(events)).unwrap();
    assert_eq!(st.tree.unwrap().size(), 1);
}

#[test]
fn test_sync_no_events_keeps_nothing() {
    let st = sync_state(id(1), addr(), Ok(Vec::new())).unwrap();
    assert!(st.tree.is_none(), "no event ever seen: the tree is not yet created");
}

#[test]
fn test_fold_matches_sync() {
    // Folding block 4's events onto the state synced through block 3 gives
    // the same queries as a cold sync through block 4.
    let t = id(9);
    let all = linear_events(t, 4);
    let (early, late) = (all[..3].to_vec(), all[3..].to_vec());

    let parent_state = sync_state(t, addr(), Ok(early)).unwrap();
    let folded = compute_tree_state(Ok(late), parent_state).unwrap();
    let cold = sync_state(t, addr(), Ok(all)).unwrap();

    let a = folded.tree.unwrap();
    let b = cold.tree.unwrap();
    assert_eq!(a.size(), b.size());
    assert_eq!(a.get_deepest(), b.get_deepest());
    assert_eq!(a.get_last(), b.get_last());
    for i in 0u32..a.size() as u32 {
        assert_eq!(a.get_vertex(i), b.get_vertex(i));
    }
}

#[test]
fn test_fetch_failure_is_transient() {
    let failed = Err(Error::TreeUnavailable { err: "node timed out".to_owned() });
    let err = sync_state(id(1), addr(), failed).unwrap_err();
    assert!(matches!(err, Error::TreeUnavailable { .. }));
}

#[test]
fn test_malformed_event_is_fatal() {
    // Parent 5 does not exist after genesis: structural, not transient.
    let t = id(1);
    let events = vec![ev(1, 0, t, 0), ev(2, 0, t, 5)];
    let err = sync_state(t, addr(), Ok(events)).unwrap_err();
    assert!(matches!(err, Error::TreeMalformed { .. }));
}

#[test]
fn test_compute_state_multi_instance() {
    // One batch drives two trees apart, keyed by their identifiers.
    let (ta, tb) = (id(1), id(2));
    let events = vec![
        ev(1, 0, ta, 0),
        ev(1, 1, tb, 0),
        ev(2, 0, ta, 0),
        ev(2, 1, ta, 1),
        ev(3, 0, tb, 0),
    ];
    let st = compute_state(Ok(events), MultiTreeState::new()).unwrap();
    let ta_size = {
        let tree = lookup(&st, ta);
        tree.size()
    };
    assert_eq!(ta_size, 3);
    assert_eq!(lookup(&st, tb).size(), 2);
}

/// Read one instance's tree out of a multi-instance state through its
/// transport table.
fn lookup(st: &MultiTreeState, which: TreeId) -> tree::tree_lib::Tree {
    let table = st
        .state
        .get(&which)
        .expect("the instance should exist")
        .to_table();
    tree::tree_lib::Tree::from_table(&table).unwrap()
}

#[test]
fn test_delegate_sync_then_fold() {
    let delegate = TreeStateFoldDelegate::new("tree");
    let t = id(3);
    let all = linear_events(t, 3);
    let (early, late) = (all[..2].to_vec(), all[2..].to_vec());
    let synced = delegate.sync(Ok(early)).unwrap();
    let folded = delegate.fold(synced, Ok(late)).unwrap();
    assert_eq!(lookup(&folded, t).size(), 3);

    let cold = delegate.sync(Ok(all)).unwrap();
    assert_eq!(
        lookup(&cold, t).to_table(),
        lookup(&folded, t).to_table(),
        "fold over sync equals the cold sync"
    );
}
