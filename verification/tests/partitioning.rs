use procmon::lane_count;
use procmon::partition::partition;
use procmon::plan_lanes;

#[test]
fn five_ids_over_two_lanes_split_three_and_two() {
    let ids = vec![1u64, 2, 3, 4, 5];
    let chunks = partition(&ids, 2);
    assert_eq!(chunks, vec![vec![1, 2, 3], vec![4, 5]]);
}

#[test]
fn four_ids_over_two_lanes_split_evenly() {
    let ids = vec![1u64, 2, 3, 4];
    let chunks = partition(&ids, 2);
    assert_eq!(chunks, vec![vec![1, 2], vec![3, 4]]);
}

#[test]
fn no_ids_over_two_lanes_gives_two_empty_chunks() {
    let ids: Vec<u64> = Vec::new();
    let chunks = partition(&ids, 2);
    assert_eq!(chunks.len(), 2);
    assert!(chunks[0].is_empty());
    assert!(chunks[1].is_empty());
}

#[test]
fn remainder_lane_may_be_empty() {
    let ids = vec![1u64, 2, 3, 4];
    let chunks = partition(&ids, 3);
    assert_eq!(chunks, vec![vec![1, 2], vec![3, 4], vec![]]);
}

#[test]
fn partition_keeps_order_and_content() {
    let ids = vec![10u64, 20, 30, 40, 50, 60, 70];
    let chunks = partition(&ids, 3);
    assert_eq!(chunks, vec![vec![10, 20, 30], vec![40, 50, 60], vec![70]]);
    let rejoined: Vec<u64> = chunks.into_iter().flatten().collect();
    assert_eq!(rejoined, ids);
}

#[test]
fn lane_count_is_clamped_to_at_least_one() {
    assert_eq!(lane_count(0), 1);
    assert_eq!(lane_count(1), 1);
    assert_eq!(lane_count(8), 8);
}

#[test]
fn planning_selects_then_partitions() {
    let snapshot = vec![(1u64, 90u32), (2, 10), (3, 80), (4, 70), (5, 60), (6, 50)];
    let chunks = plan_lanes(&snapshot, 4, 2).unwrap();
    assert_eq!(chunks.len(), 2);
    let mut kept: Vec<u64> = chunks.into_iter().flatten().collect();
    assert_eq!(kept.len(), 4);
    kept.sort();
    assert_eq!(kept, vec![1, 3, 4, 5]);
}

#[test]
fn planning_rejects_bad_snapshot() {
    let snapshot = vec![(1u64, 90u32), (2, 150)];
    let err = plan_lanes(&snapshot, 4, 2).unwrap_err();
    assert_eq!(err.pid, 2);
    assert_eq!(err.cpu_usage_hundredths, 150);
}
