use vstd::prelude::*;

use crate::metrics::{ProcessMetricSample, RawReading};

verus! {

/// One identifier a lane is responsible for, with what the lane remembers of
/// it: whether a prior read of it exists (the first half of the CPU-delta
/// pairing) and the instant of the newest read that was taken in.
#[derive(Clone, Copy, Debug, PartialEq, Eq, Structural)]
pub struct TrackedProcess {
    pub pid: u64,
    pub primed: bool,
    pub last_timestamp_nanos: i64,
}

/// Where a lane stands in its tick cycle: created idle, armed once its timer
/// runs, ticking while it reads its chunk, and cancelled for good at the end.
#[derive(Clone, Copy, Debug, PartialEq, Eq, Structural)]
pub enum LanePhase {
    Idle,
    Armed,
    Ticking,
    Cancelled,
}

/// What one per-identifier read of the process table came back with: the
/// identifier no longer exists, the read failed transiently, or a bundle of
/// metric values was obtained.
pub enum ReadOutcome {
    Absent,
    Failed,
    Metrics(RawReading),
}

/// A chunk of identifiers never names one twice.
pub open spec fn no_repeats(chunk: Seq<u64>) -> bool {
    forall|i: int, j: int| 0 <= i < j < chunk.len() ==> chunk[i] != chunk[j]
}

/// One polling lane: it exclusively owns a disjoint subset of the working set
/// and, tick by tick, turns fresh per-identifier reads into samples. An
/// identifier whose process has gone is dropped for good, a failed read is
/// skipped without disturbing the rest of the tick, and no sample is ever
/// produced from a lone first read.
pub struct Lane {
    pub assigned: Vec<TrackedProcess>,
    pub phase: LanePhase,
}

impl Lane {
    /// No identifier is tracked twice.
    pub open spec fn wf(self) -> bool {
        forall|i: int, j: int|
            0 <= i < j < self.assigned@.len() ==> (#[trigger] self.assigned@[i]).pid
                != (#[trigger] self.assigned@[j]).pid
    }

    pub open spec fn has_pid(self, pid: u64) -> bool {
        exists|i: int|
            0 <= i < self.assigned@.len() && (#[trigger] self.assigned@[i]).pid == pid
    }

    pub open spec fn index_of_pid(self, pid: u64) -> int {
        choose|i: int|
            0 <= i < self.assigned@.len() && (#[trigger] self.assigned@[i]).pid == pid
    }

    /// A fresh lane, idle and holding its chunk, with no read history: every
    /// assigned identifier still needs its first read before a sample can
    /// exist.
    pub fn new(chunk: Vec<u64>) -> (lane: Lane)
        requires
            no_repeats(chunk@),
        ensures
            lane.wf(),
            lane.phase == LanePhase::Idle,
            lane.assigned@.len() == chunk@.len(),
            forall|i: int|
                0 <= i < chunk@.len() ==> (#[trigger] lane.assigned@[i]) == (TrackedProcess {
                    pid: chunk@[i],
                    primed: false,
                    last_timestamp_nanos: 0i64,
                }),
    {
        let mut assigned: Vec<TrackedProcess> = Vec::new();
        let mut i: usize = 0;
        while i < chunk.len()
            invariant
                i <= chunk.len(),
                assigned@.len() == i as int,
                forall|j: int|
                    0 <= j < i as int ==> (#[trigger] assigned@[j]) == (TrackedProcess {
                        pid: chunk@[j],
                        primed: false,
                        last_timestamp_nanos: 0i64,
                    }),
            decreases chunk.len() - i,
        {
            assigned.push(TrackedProcess { pid: chunk[i], primed: false, last_timestamp_nanos: 0 });
            i = i + 1;
        }
        let lane = Lane { assigned, phase: LanePhase::Idle };
        proof {
            assert forall|a: int, b: int|
                0 <= a < b < lane.assigned@.len() implies (#[trigger] lane.assigned@[a]).pid != (
            #[trigger] lane.assigned@[b]).pid by {
                assert(chunk@[a] != chunk@[b]);
            }
        }
        lane
    }

    /// The identifiers the lane still polls, in order.
    pub fn assigned_pids(&self) -> (pids: Vec<u64>)
        ensures
            pids@.len() == self.assigned@.len(),
            forall|i: int|
                0 <= i < pids@.len() ==> pids@[i] == (#[trigger] self.assigned@[i]).pid,
    {
        let mut pids: Vec<u64> = Vec::new();
        let mut i: usize = 0;
        while i < self.assigned.len()
            invariant
                i <= self.assigned.len(),
                pids@.len() == i as int,
                forall|j: int|
                    0 <= j < i as int ==> pids@[j] == (#[trigger] self.assigned@[j]).pid,
            decreases self.assigned.len() - i,
        {
            pids.push(self.assigned[i].pid);
            i = i + 1;
        }
        pids
    }

    /// The lane's recurring timer was started: the lane leaves its idle state
    /// and waits for tick boundaries.
    pub fn arm(&mut self)
        requires
            old(self).phase == LanePhase::Idle,
        ensures
            final(self).assigned@ == old(self).assigned@,
            final(self).phase == LanePhase::Armed,
    {
        self.phase = LanePhase::Armed;
    }

    /// A tick boundary: the lane observes the cancellation flag before any
    /// work. A cancelled lane never enters another tick; it goes to its
    /// terminal phase instead, and the caller must stop driving it.
    pub fn start_tick(&mut self, cancelled: bool) -> (go: bool)
        requires
            old(self).phase == LanePhase::Armed,
        ensures
            go == !cancelled,
            final(self).assigned@ == old(self).assigned@,
            final(self).phase == (if cancelled {
                LanePhase::Cancelled
            } else {
                LanePhase::Ticking
            }),
    {
        if cancelled {
            self.phase = LanePhase::Cancelled;
            false
        } else {
            self.phase = LanePhase::Ticking;
            true
        }
    }

    /// The tick ends once every assigned identifier was observed. A
    /// cancellation that arrived during the tick is honoured only now: the
    /// in-flight reads were finished and their samples handed out first, and
    /// the lane then terminates instead of re-arming.
    pub fn finish_tick(&mut self, cancelled: bool)
        requires
            old(self).phase == LanePhase::Ticking,
        ensures
            final(self).assigned@ == old(self).assigned@,
            final(self).phase == (if cancelled {
                LanePhase::Cancelled
            } else {
                LanePhase::Armed
            }),
    {
        if cancelled {
            self.phase = LanePhase::Cancelled;
        } else {
            self.phase = LanePhase::Armed;
        }
    }

    /// Take in the outcome of one per-identifier read within a tick and hand
    /// back the sample it yields, if any. An absent identifier (the process
    /// exited) is dropped from the chunk permanently and emits nothing; a
    /// failed read changes nothing and emits nothing, so the rest of the tick
    /// goes on undisturbed; a metrics bundle primes an identifier on its
    /// first read and emits a sample on every later read whose instant lies
    /// strictly after the previous one. A sample is never emitted for an
    /// identifier with only one read available.
    pub fn observe(&mut self, pid: u64, outcome: ReadOutcome) -> (emitted: Option<
        ProcessMetricSample,
    >)
        requires
            old(self).wf(),
            old(self).phase == LanePhase::Ticking,
            old(self).has_pid(pid),
        ensures
            final(self).wf(),
            final(self).phase == LanePhase::Ticking,
            (match outcome {
                ReadOutcome::Absent => emitted is None && final(self).assigned@ == old(
                    self,
                ).assigned@.remove(old(self).index_of_pid(pid)),
                ReadOutcome::Failed => emitted is None && final(self).assigned@ == old(
                    self,
                ).assigned@,
                ReadOutcome::Metrics(reading) => ({
                    let at = old(self).index_of_pid(pid);
                    let entry = old(self).assigned@[at];
                    let refreshed = TrackedProcess {
                        pid: entry.pid,
                        primed: true,
                        last_timestamp_nanos: reading.timestamp_nanos,
                    };
                    if !entry.primed {
                        emitted is None && final(self).assigned@ == old(self).assigned@.update(
                            at,
                            refreshed,
                        )
                    } else if reading.timestamp_nanos > entry.last_timestamp_nanos {
                        &&& final(self).assigned@ == old(self).assigned@.update(at, refreshed)
                        &&& emitted matches Some(sample)
                        &&& sample.timestamp_nanos == reading.timestamp_nanos
                        &&& sample.process_name@ == reading.name@
                        &&& sample.cpu_usage_hundredths == reading.cpu_usage_hundredths
                        &&& sample.written_bytes == reading.written_bytes
                        &&& sample.read_bytes == reading.read_bytes
                        &&& sample.virtual_memory_bytes == reading.virtual_memory_bytes
                        &&& sample.status == reading.status
                    } else {
                        emitted is None && final(self).assigned@ == old(self).assigned@
                    }
                }),
            }),
            emitted is Some ==> (outcome matches ReadOutcome::Metrics(reading) && old(
                self,
            ).assigned@[old(self).index_of_pid(pid)].primed
                && reading.timestamp_nanos > old(self).assigned@[old(self).index_of_pid(
                pid,
            )].last_timestamp_nanos),
    {
        let ghost prior = *self;
        let mut i: usize = 0;
        let n = self.assigned.len();
        while i < n && self.assigned[i].pid != pid
            invariant
                *self == prior,
                n == self.assigned@.len(),
                i <= n,
                self.has_pid(pid),
                forall|j: int| 0 <= j < i as int ==> (#[trigger] self.assigned@[j]).pid != pid,
            decreases n - i,
        {
            i = i + 1;
        }
        proof {
            if i as int == self.assigned@.len() {
                let witness = choose|t: int|
                    0 <= t < self.assigned@.len() && (#[trigger] self.assigned@[t]).pid == pid;
                assert(self.assigned@[witness].pid == pid);
                assert(false);
            }
            let chosen = prior.index_of_pid(pid);
            assert(0 <= chosen < prior.assigned@.len() && prior.assigned@[chosen].pid == pid);
            if chosen != i as int {
                assert(prior.assigned@[i as int].pid != prior.assigned@[chosen].pid);
            }
            assert(i as int == prior.index_of_pid(pid));
        }
        match outcome {
            ReadOutcome::Absent => {
                self.assigned.remove(i);
                proof {
                    let before = prior.assigned@;
                    let after = self.assigned@;
                    assert(after == before.remove(i as int));
                    assert forall|a: int, b: int|
                        0 <= a < b < after.len() implies (#[trigger] after[a]).pid != (
                    #[trigger] after[b]).pid by {
                        assert(after[a] == if a < i as int {
                            before[a]
                        } else {
                            before[a + 1]
                        });
                        assert(after[b] == if b < i as int {
                            before[b]
                        } else {
                            before[b + 1]
                        });
                    }
                }
                None
            },
            ReadOutcome::Failed => None,
            ReadOutcome::Metrics(reading) => {
                let entry = self.assigned[i];
                let refreshed = TrackedProcess {
                    pid: entry.pid,
                    primed: true,
                    last_timestamp_nanos: reading.timestamp_nanos,
                };
                if !entry.primed {
                    self.assigned[i] = refreshed;
                    proof {
                        lemma_update_keeps_pids(prior.assigned@, self.assigned@, i as int);
                    }
                    None
                } else if reading.timestamp_nanos > entry.last_timestamp_nanos {
                    self.assigned[i] = refreshed;
                    proof {
                        lemma_update_keeps_pids(prior.assigned@, self.assigned@, i as int);
                    }
                    Some(
                        ProcessMetricSample {
                            timestamp_nanos: reading.timestamp_nanos,
                            process_name: reading.name,
                            cpu_usage_hundredths: reading.cpu_usage_hundredths,
                            written_bytes: reading.written_bytes,
                            read_bytes: reading.read_bytes,
                            virtual_memory_bytes: reading.virtual_memory_bytes,
                            status: reading.status,
                        },
                    )
                } else {
                    None
                }
            },
        }
    }
}

/// Replacing one tracked entry with another of the same identifier keeps the
/// assigned identifiers free of repeats.
proof fn lemma_update_keeps_pids(before: Seq<TrackedProcess>, after: Seq<TrackedProcess>, at: int)
    requires
        0 <= at < before.len(),
        after == before.update(at, after[at]),
        after[at].pid == before[at].pid,
        forall|i: int, j: int|
            0 <= i < j < before.len() ==> (#[trigger] before[i]).pid != (#[trigger] before[j]).pid,
    ensures
        forall|i: int, j: int|
            0 <= i < j < after.len() ==> (#[trigger] after[i]).pid != (#[trigger] after[j]).pid,
{
    assert forall|i: int, j: int|
        0 <= i < j < after.len() implies (#[trigger] after[i]).pid != (#[trigger] after[j]).pid by {
        assert(after[i] == if i == at {
            after[at]
        } else {
            before[i]
        });
        assert(after[j] == if j == at {
            after[at]
        } else {
            before[j]
        });
        assert(before[i].pid != before[j].pid);
    }
}

} // verus!
