use vstd::prelude::*;

verus! {

/// Largest CPU-usage figure a well-formed snapshot may report for one
/// process: the full unit interval of one core, quantized to hundredths.
pub const MAX_USAGE_HUNDREDTHS: u32 = 100;

/// True when a quantized CPU-usage figure lies inside the closed unit
/// interval per core.
pub open spec fn usage_ok(usage_hundredths: u32) -> bool {
    usage_hundredths <= MAX_USAGE_HUNDREDTHS
}

/// Enumerated process state as read from the process table.
#[derive(Clone, Copy, Debug, PartialEq, Eq, Structural)]
pub enum ProcessStatus {
    Running,
    Sleeping,
    Stopped,
    Zombie,
    Unknown,
}

/// One raw per-process observation handed in by the process-table reader,
/// as plain values: the CPU usage is already quantized to hundredths of a
/// core (fractional usage times one hundred, truncated).
pub struct RawReading {
    pub timestamp_nanos: i64,
    pub name: String,
    pub cpu_usage_hundredths: u32,
    pub written_bytes: u64,
    pub read_bytes: u64,
    pub virtual_memory_bytes: u64,
    pub status: ProcessStatus,
}

/// One finished observation of one process at one instant. A sample is only
/// handed out once it was derived from two time-separated reads of the same
/// identifier; a single-read CPU figure is treated as unavailable, not zero.
pub struct ProcessMetricSample {
    pub timestamp_nanos: i64,
    pub process_name: String,
    pub cpu_usage_hundredths: u32,
    pub written_bytes: u64,
    pub read_bytes: u64,
    pub virtual_memory_bytes: u64,
    pub status: ProcessStatus,
}

} // verus!
