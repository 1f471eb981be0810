use procmon::top_k::top_k;

fn sorted(mut ids: Vec<u64>) -> Vec<u64> {
    ids.sort();
    ids
}

#[test]
fn capacity_two_keeps_both_tied_leaders() {
    // snapshot = {A:0.90, B:0.50, C:0.90, D:0.10}, capacity 2: the tie at 0.90
    // keeps both since the structure fills before any eviction decision.
    let snapshot = vec![(1u64, 90u32), (2, 50), (3, 90), (4, 10)];
    let ids = top_k(&snapshot, 2).unwrap();
    assert_eq!(sorted(ids), vec![1, 3]);
}

#[test]
fn tie_does_not_evict_existing_entry() {
    // snapshot = {A:0.90, B:0.50, C:0.95}, capacity 2, then D:0.95 arrives
    // after B was evicted: D replaces the 0.90 entry, never the tied 0.95 one.
    let snapshot = vec![(1u64, 90u32), (2, 50), (3, 95), (4, 95)];
    let ids = top_k(&snapshot, 2).unwrap();
    assert_eq!(sorted(ids), vec![3, 4]);
}

#[test]
fn tie_discards_the_new_candidate() {
    // A full structure and a candidate tying the minimum: the candidate goes.
    let snapshot = vec![(1u64, 95u32), (4, 95)];
    let ids = top_k(&snapshot, 1).unwrap();
    assert_eq!(ids, vec![1]);
}

#[test]
fn selection_is_idempotent_on_a_fixed_snapshot() {
    let snapshot = vec![(9u64, 10u32), (8, 70), (7, 70), (6, 5), (5, 99)];
    let first = sorted(top_k(&snapshot, 3).unwrap());
    let second = sorted(top_k(&snapshot, 3).unwrap());
    assert_eq!(first, second);
    assert_eq!(first, vec![5, 7, 8]);
}

#[test]
fn usage_above_unit_interval_is_rejected() {
    let snapshot = vec![(1u64, 50u32), (2, 101), (3, 200)];
    let err = top_k(&snapshot, 2).unwrap_err();
    assert_eq!(err.pid, 2);
    assert_eq!(err.cpu_usage_hundredths, 101);
}

#[test]
fn fewer_processes_than_capacity_returns_them_all() {
    let snapshot = vec![(21u64, 1u32), (22, 2), (23, 3)];
    let ids = top_k(&snapshot, 20).unwrap();
    assert_eq!(sorted(ids), vec![21, 22, 23]);
}

#[test]
fn zero_capacity_selects_nothing() {
    let snapshot = vec![(1u64, 90u32), (2, 50)];
    let ids = top_k(&snapshot, 0).unwrap();
    assert!(ids.is_empty());
}

#[test]
fn empty_snapshot_selects_nothing() {
    let snapshot: Vec<(u64, u32)> = Vec::new();
    let ids = top_k(&snapshot, 20).unwrap();
    assert!(ids.is_empty());
}
