use procmon::lane::{Lane, LanePhase, ReadOutcome};
use procmon::metrics::{ProcessStatus, RawReading};

fn reading(timestamp_nanos: i64, cpu: u32) -> RawReading {
    RawReading {
        timestamp_nanos,
        name: "worker".to_string(),
        cpu_usage_hundredths: cpu,
        written_bytes: 11,
        read_bytes: 22,
        virtual_memory_bytes: 33,
        status: ProcessStatus::Running,
    }
}

#[test]
fn first_read_never_emits_a_sample() {
    let mut lane = Lane::new(vec![7u64]);
    lane.arm();
    assert!(lane.start_tick(false));
    // only one snapshot read exists for this identifier: no sample
    assert!(lane.observe(7, ReadOutcome::Metrics(reading(100, 42))).is_none());
    lane.finish_tick(false);

    assert!(lane.start_tick(false));
    let sample = lane.observe(7, ReadOutcome::Metrics(reading(200, 43))).unwrap();
    lane.finish_tick(false);
    assert_eq!(sample.timestamp_nanos, 200);
    assert_eq!(sample.process_name, "worker");
    assert_eq!(sample.cpu_usage_hundredths, 43);
    assert_eq!(sample.written_bytes, 11);
    assert_eq!(sample.read_bytes, 22);
    assert_eq!(sample.virtual_memory_bytes, 33);
    assert!(sample.status == ProcessStatus::Running);
}

#[test]
fn absent_identifier_emits_nothing_and_is_dropped_for_good() {
    let mut lane = Lane::new(vec![7u64, 8]);
    lane.arm();
    assert!(lane.start_tick(false));
    assert!(lane.observe(7, ReadOutcome::Metrics(reading(100, 10))).is_none());
    assert!(lane.observe(8, ReadOutcome::Metrics(reading(101, 20))).is_none());
    lane.finish_tick(false);

    // five seconds later the process behind 7 is gone
    assert!(lane.start_tick(false));
    assert!(lane.observe(7, ReadOutcome::Absent).is_none());
    assert!(lane.observe(8, ReadOutcome::Metrics(reading(5_000_000_101, 21))).is_some());
    lane.finish_tick(false);
    assert_eq!(lane.assigned_pids(), vec![8]);
}

#[test]
fn failed_read_does_not_abort_the_tick() {
    let mut lane = Lane::new(vec![7u64, 8]);
    lane.arm();
    assert!(lane.start_tick(false));
    assert!(lane.observe(7, ReadOutcome::Metrics(reading(100, 10))).is_none());
    assert!(lane.observe(8, ReadOutcome::Metrics(reading(101, 20))).is_none());
    lane.finish_tick(false);

    assert!(lane.start_tick(false));
    assert!(lane.observe(7, ReadOutcome::Failed).is_none());
    // the failure above is isolated: the rest of the chunk is still polled
    assert!(lane.observe(8, ReadOutcome::Metrics(reading(201, 21))).is_some());
    lane.finish_tick(false);
    assert_eq!(lane.assigned_pids(), vec![7, 8]);
}

#[test]
fn cancellation_at_tick_boundary_starts_no_tick() {
    let mut lane = Lane::new(vec![7u64]);
    lane.arm();
    assert!(!lane.start_tick(true));
    assert!(lane.phase == LanePhase::Cancelled);
}

#[test]
fn cancellation_mid_tick_drains_then_terminates() {
    let mut lane = Lane::new(vec![7u64, 8]);
    lane.arm();
    assert!(lane.start_tick(false));
    assert!(lane.observe(7, ReadOutcome::Metrics(reading(100, 10))).is_none());
    assert!(lane.observe(8, ReadOutcome::Metrics(reading(101, 20))).is_none());
    lane.finish_tick(false);

    assert!(lane.start_tick(false));
    // cancellation arrives here, mid-tick: both in-flight reads still finish
    // and their samples are still handed out
    assert!(lane.observe(7, ReadOutcome::Metrics(reading(200, 11))).is_some());
    assert!(lane.observe(8, ReadOutcome::Metrics(reading(201, 21))).is_some());
    lane.finish_tick(true);
    assert!(lane.phase == LanePhase::Cancelled);
}

#[test]
fn stale_clock_reading_is_skipped() {
    let mut lane = Lane::new(vec![7u64]);
    lane.arm();
    assert!(lane.start_tick(false));
    assert!(lane.observe(7, ReadOutcome::Metrics(reading(200, 10))).is_none());
    lane.finish_tick(false);

    assert!(lane.start_tick(false));
    // an instant not after the previous read cannot order the pairing
    assert!(lane.observe(7, ReadOutcome::Metrics(reading(150, 11))).is_none());
    lane.finish_tick(false);

    assert!(lane.start_tick(false));
    assert!(lane.observe(7, ReadOutcome::Metrics(reading(300, 12))).is_some());
    lane.finish_tick(false);
}

#[test]
fn empty_chunk_lane_runs_but_emits_nothing() {
    let mut lane = Lane::new(Vec::new());
    lane.arm();
    assert!(lane.start_tick(false));
    assert!(lane.assigned_pids().is_empty());
    lane.finish_tick(false);
    assert!(lane.phase == LanePhase::Armed);
}
