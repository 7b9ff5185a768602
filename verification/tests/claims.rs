use requery::ClaimOutcome;
use requery::ClaimTable;

#[test]
fn claim_is_exclusive_until_released() {
    let mut table = ClaimTable::new();
    table.add_key();
    table.add_key();
    let empty_chain: Vec<usize> = Vec::new();
    // First caller gets the key.
    assert_eq!(table.claim(0, &empty_chain), ClaimOutcome::Granted);
    assert!(table.holds_key(0));
    // A second, unrelated caller is told to retry, not that it found a
    // cycle.
    assert_eq!(table.claim(0, &empty_chain), ClaimOutcome::Contended);
    // An unrelated key is not affected.
    assert_eq!(table.claim(1, &empty_chain), ClaimOutcome::Granted);
    // Only after release can the key be claimed again.
    table.release(0);
    assert!(!table.holds_key(0));
    assert_eq!(table.claim(0, &empty_chain), ClaimOutcome::Granted);
}

#[test]
fn reentrant_claim_is_a_cycle() {
    let mut table = ClaimTable::new();
    table.add_key();
    let chain: Vec<usize> = vec![0];
    assert_eq!(table.claim(0, &Vec::new()), ClaimOutcome::Granted);
    // The requesting chain already holds key 0 further up its stack: a
    // true cycle, distinguished from contention so that it is failed fast
    // rather than retried forever.
    assert_eq!(table.claim(0, &chain), ClaimOutcome::CycleDetected);
}
