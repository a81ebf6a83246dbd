use prism_confirm::{H256, LedgerIndex};

fn h(x: u64) -> H256 {
    H256 { w0: 0, w1: 0, w2: 0, w3: x }
}

fn sample_index() -> LedgerIndex {
    LedgerIndex::new(
        h(100),
        vec![h(1), h(2), h(3)],
        vec![h(10), h(11), h(10)],
        vec![None, Some(h(7)), None],
        vec![None, Some(vec![h(20), h(21)]), None],
    )
}

#[test]
fn new_deduplicates_unconfirmed() {
    let idx = sample_index();
    assert!(idx.is_unconfirmed(&h(10)));
    assert!(idx.is_unconfirmed(&h(11)));
    assert!(!idx.is_unconfirmed(&h(12)));
}

#[test]
fn insert_unconfirmed_is_idempotent() {
    let mut idx = sample_index();
    idx.insert_unconfirmed(h(12));
    assert!(idx.is_unconfirmed(&h(12)));
    idx.insert_unconfirmed(h(12));
    assert!(idx.is_unconfirmed(&h(12)));
    assert!(idx.is_unconfirmed(&h(10)));
}

#[test]
fn confirmed_leader_survives_inserts() {
    // Finality is irrevocable: the only mutating operation leaves every
    // confirmed leader entry exactly as it was.
    let mut idx = sample_index();
    assert_eq!(idx.leader_at(1), Some(h(7)));
    idx.insert_unconfirmed(h(42));
    idx.insert_unconfirmed(h(7));
    assert_eq!(idx.leader_at(1), Some(h(7)));
    assert_eq!(idx.leader_at(0), None);
    assert_eq!(idx.leader_at(9), None);
}
