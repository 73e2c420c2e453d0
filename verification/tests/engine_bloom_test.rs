use tree::bloom::{bloom_contains, topic_bytes, Address, LogsBloom};
use tree::engine::{is_final_enough, next_retry, RetryAction, RetryPolicy};
use tree::error::Error;
use tree::tree_delegate::{block_may_contain, fold_block, sync_state};
use tree::tree_fold::{LedgerEvent, TreeId};
use tiny_keccak::Hasher;

fn keccak(data: &[u8]) -> [u8; 32] {
    let mut hasher = tiny_keccak::Keccak::v256();
    let mut output = [0u8; 32];
    hasher.update(data);
    hasher.finalize(&mut output);
    output
}

/// Set the three bloom bits of one item, as the ledger does: the low
/// eleven bits of each of the first three byte pairs of its digest, bits
/// counted from the low end of the last byte.
fn bloom_add(bloom: &mut [u8; 256], item: &[u8]) {
    let h = keccak(item);
    for k in 0..3 {
        let bit = ((h[2 * k] as usize) % 8) * 256 + h[2 * k + 1] as usize;
        bloom[255 - bit / 8] |= 1 << (bit % 8);
    }
}

fn policy() -> RetryPolicy {
    RetryPolicy { max_retries: 3, base_delay_ms: 100, max_delay_ms: 350 }
}

#[test]
fn test_bloom_membership() {
    let address = vec![0xabu8; 20];
    let mut raw = [0u8; 256];
    bloom_add(&mut raw, &address);
    let bloom = LogsBloom { bytes: raw.to_vec() };

    assert!(bloom_contains(&bloom, &address));
    // The empty bloom holds nothing; a wrapper that ignored its input and
    // handed something fixed back would fail one of the two.
    let empty = LogsBloom { bytes: vec![0u8; 256] };
    assert!(!bloom_contains(&empty, &address));
    let other = vec![0xcdu8; 20];
    assert!(!bloom_contains(&bloom, &other));
}

#[test]
fn test_topic_bytes() {
    let id = TreeId {
        w0: 0x0001020304050607,
        w1: 0x08090a0b0c0d0e0f,
        w2: 0x1011121314151617,
        w3: 0x18191a1b1c1d1e1f,
    };
    let expected: Vec<u8> = (0u8..32).collect();
    assert_eq!(topic_bytes(&id), expected);
}

#[test]
fn test_block_may_contain() {
    let address = Address { bytes: vec![0x42u8; 20] };
    let id = TreeId { w0: 0, w1: 0, w2: 0, w3: 5 };

    let mut raw = [0u8; 256];
    bloom_add(&mut raw, &address.bytes);
    let address_only = LogsBloom { bytes: raw.to_vec() };
    assert!(
        !block_may_contain(&address_only, &address, &id),
        "the identifier topic is missing"
    );

    bloom_add(&mut raw, &topic_bytes(&id));
    let both = LogsBloom { bytes: raw.to_vec() };
    assert!(block_may_contain(&both, &address, &id));
}

#[test]
fn test_fold_block_short_circuit() {
    // A bloom without the instance's marks: the previous state comes back
    // untouched, no events consulted.
    let address = Address { bytes: vec![0x42u8; 20] };
    let id = TreeId { w0: 0, w1: 0, w2: 0, w3: 5 };
    let events = vec![LedgerEvent { block_number: 1, log_index: 0, id, parent: 0 }];
    let prev = sync_state(id, address.clone(), Ok(events)).unwrap();

    let empty_bloom = LogsBloom { bytes: vec![0u8; 256] };
    let folded = fold_block(prev, &empty_bloom, None).unwrap();
    assert_eq!(folded.tree.as_ref().unwrap().size(), 1);

    // A relevant bloom whose events were not supplied is a transient
    // failure, not silently skipped.
    let mut raw = [0u8; 256];
    bloom_add(&mut raw, &address.bytes);
    bloom_add(&mut raw, &topic_bytes(&id));
    let relevant = LogsBloom { bytes: raw.to_vec() };
    let err = fold_block(folded.clone(), &relevant, None).unwrap_err();
    assert!(matches!(err, Error::TreeUnavailable { .. }));

    // With the events supplied, the relevant block folds in.
    let more = vec![LedgerEvent { block_number: 2, log_index: 0, id, parent: 0 }];
    let advanced = fold_block(folded, &relevant, Some(Ok(more))).unwrap();
    assert_eq!(advanced.tree.unwrap().size(), 2);
}

#[test]
fn test_retry_backoff() {
    let transient = Error::TreeUnavailable { err: "timeout".to_owned() };
    // 100, 200, then capped at 350.
    assert_eq!(
        next_retry(&policy(), 0, &transient),
        RetryAction::Retry { delay_ms: 100 }
    );
    assert_eq!(
        next_retry(&policy(), 1, &transient),
        RetryAction::Retry { delay_ms: 200 }
    );
    assert_eq!(
        next_retry(&policy(), 2, &transient),
        RetryAction::Retry { delay_ms: 350 }
    );
    // The budget is three attempts.
    assert_eq!(next_retry(&policy(), 3, &transient), RetryAction::GiveUp);
}

#[test]
fn test_structural_failure_never_retried() {
    let structural = Error::TreeMalformed { err: "bad parent".to_owned() };
    assert_eq!(next_retry(&policy(), 0, &structural), RetryAction::GiveUp);
    let not_found = Error::VertexNotFound { err: "no vertex".to_owned() };
    assert_eq!(next_retry(&policy(), 0, &not_found), RetryAction::GiveUp);
}

#[test]
fn test_safety_margin() {
    assert!(is_final_enough(90, 100, 10));
    assert!(!is_final_enough(91, 100, 10));
    assert!(is_final_enough(100, 100, 0));
    assert!(!is_final_enough(101, 100, 0));
}
