//! The cycle scheduler's core: one bounded pass over all known devices.
//! Each device either yields a complete telemetry record or is skipped;
//! a failure on one device never disturbs the others, and a timeout merely
//! truncates the pass after some number of whole devices.

use crate::identity::identity_of;
use crate::identity::resolve;
use crate::store::spec_ensure_id;
use crate::store::spec_ensure_table;
use crate::store::DeviceTable;
use crate::store::RecordView;
use vstd::prelude::*;

verus! {

/// Seconds allotted to one whole cycle before it is abandoned.
pub const CYCLE_TIMEOUT_SECS: u64 = 30;

/// Seconds of idle delay between two cycles.
pub const CYCLE_DELAY_SECS: u64 = 5;

/// The scheduler's two states: it is either inside a bounded cycle or
/// idling between cycles. There is no terminal state; the loop runs until
/// the process is killed.
pub enum SchedulerState {
    RunningCycle,
    Idle,
}

/// How a cycle ended: it reached every device, or its time budget elapsed
/// first and the remaining devices were deferred to the next cycle.
pub enum CycleOutcome {
    Completed,
    TimedOut,
}

/// A cycle's end always leads into the idle delay, whether the cycle
/// completed or timed out: a cycle is never retried immediately.
pub fn state_after_cycle(outcome: &CycleOutcome) -> (s: SchedulerState)
    ensures
        s == SchedulerState::Idle,
{
    match outcome {
        CycleOutcome::Completed => SchedulerState::Idle,
        CycleOutcome::TimedOut => SchedulerState::Idle,
    }
}

/// The idle delay always leads back into the next cycle.
pub fn state_after_delay() -> (s: SchedulerState)
    ensures
        s == SchedulerState::RunningCycle,
{
    SchedulerState::RunningCycle
}

/// A telemetry reading as reported by one device in one cycle.
pub struct Sample {
    /// Instantaneous power draw, in the device's native unit.
    pub power: u64,
    /// Whether the device reported itself as switched on.
    pub device_on: bool,
    /// Capture time, milliseconds since the Unix epoch (UTC).
    pub timestamp_ms: i64,
}

/// One appended, immutable telemetry record.
pub struct TelemetryRecord {
    /// The durable id of the device record this reading belongs to.
    pub device_id: usize,
    pub power: u64,
    pub device_on: bool,
    /// Marks placeholder data; readings taken from a live device are genuine.
    pub synthetic: bool,
    pub timestamp_ms: i64,
}

/// What one device contributed to the current cycle.
pub enum CycleEvent {
    /// Session creation failed at startup; the device is skipped in every
    /// cycle.
    SessionUnavailable,
    /// Metadata or telemetry fetch failed; the device is skipped this cycle
    /// only.
    SampleFailed,
    /// Both fetches succeeded but the store refused this device's record
    /// write; its telemetry write is aborted this cycle only, and no other
    /// device is disturbed.
    StoreFailed,
    /// Both fetches succeeded: the self-reported label and the reading.
    Sampled { label: String, sample: Sample },
}

/// How many of the cycle's devices are attempted under a budget of `k`.
pub open spec fn attempted(evs: Seq<CycleEvent>, k: int) -> int {
    if k > evs.len() {
        evs.len() as int
    } else if k < 0 {
        0
    } else {
        k
    }
}

/// The record written for a sampled device, against the table `t`.
pub open spec fn record_for(t: Seq<RecordView>, label: Seq<char>, s: Sample) -> TelemetryRecord {
    TelemetryRecord {
        device_id: spec_ensure_id(t, identity_of(label)) as usize,
        power: s.power,
        device_on: s.device_on,
        synthetic: false,
        timestamp_ms: s.timestamp_ms,
    }
}

/// How one event changes the device table.
pub open spec fn step_table(t: Seq<RecordView>, ev: CycleEvent) -> Seq<RecordView> {
    match ev {
        CycleEvent::Sampled { label, sample } => spec_ensure_table(t, identity_of(label@)),
        _ => t,
    }
}

/// The device table after the first `k` attempted events of a cycle.
pub open spec fn cycle_table(t: Seq<RecordView>, evs: Seq<CycleEvent>, k: int) -> Seq<RecordView>
    decreases k,
{
    let m = attempted(evs, k);
    if m <= 0 {
        t
    } else {
        step_table(cycle_table(t, evs, m - 1), evs[m - 1])
    }
}

/// The telemetry records committed by the first `k` attempted events.
pub open spec fn cycle_writes(
    t: Seq<RecordView>,
    evs: Seq<CycleEvent>,
    k: int,
) -> Seq<TelemetryRecord>
    decreases k,
{
    let m = attempted(evs, k);
    if m <= 0 {
        Seq::empty()
    } else {
        let prev = cycle_writes(t, evs, m - 1);
        match evs[m - 1] {
            CycleEvent::Sampled { label, sample } => prev.push(
                record_for(cycle_table(t, evs, m - 1), label@, sample),
            ),
            _ => prev,
        }
    }
}

/// What a cycle reports once it ends or times out.
pub struct CycleReport {
    /// Devices the cycle had time to attempt.
    pub attempted: usize,
    /// Telemetry records committed.
    pub written: usize,
    /// Attempted devices skipped over a session, device or store failure.
    pub skipped: usize,
}

/// Runs one cycle over the events, attempting at most `budget` devices
/// before the pass is abandoned, exactly as a timeout does. For each sampled
/// event this resolves the label, ensures the durable record, and appends
/// one complete telemetry record; a device whose session, fetch or store
/// write failed is counted and skipped without disturbing the rest.
pub fn run_cycle(
    table: &mut DeviceTable,
    log: &mut Vec<TelemetryRecord>,
    events: &Vec<CycleEvent>,
    budget: usize,
) -> (rep: CycleReport)
    requires
        old(table).wf(),
    ensures
        final(table).wf(),
        final(table)@ == cycle_table(old(table)@, events@, budget as int),
        final(log)@ == old(log)@ + cycle_writes(old(table)@, events@, budget as int),
        rep.attempted as int == attempted(events@, budget as int),
        rep.written as int == cycle_writes(old(table)@, events@, budget as int).len(),
        rep.attempted == rep.written + rep.skipped,
{
    let n = events.len();
    let m = if budget < n {
        budget
    } else {
        n
    };
    let mut written: usize = 0;
    let mut skipped: usize = 0;
    let mut i: usize = 0;
    while i < m
        invariant
            old(table).wf(),
            table.wf(),
            n == events@.len(),
            m as int == attempted(events@, budget as int),
            m <= n,
            i <= m,
            table@ == cycle_table(old(table)@, events@, i as int),
            log@ == old(log)@ + cycle_writes(old(table)@, events@, i as int),
            written as int == cycle_writes(old(table)@, events@, i as int).len(),
            written + skipped == i,
        decreases m - i,
    {
        let ghost t0 = old(table)@;
        let ghost tcur = table@;
        match &events[i] {
            CycleEvent::Sampled { label, sample } => {
                let ident = resolve(label.as_str());
                let id = table.ensure_record(&ident);
                let rec = TelemetryRecord {
                    device_id: id,
                    power: sample.power,
                    device_on: sample.device_on,
                    synthetic: false,
                    timestamp_ms: sample.timestamp_ms,
                };
                log.push(rec);
                written = written + 1;
                proof {
                    assert(table@ == step_table(tcur, events@[i as int]));
                    assert(cycle_table(t0, events@, i + 1) == step_table(
                        cycle_table(t0, events@, i as int),
                        events@[i as int],
                    ));
                    assert(cycle_writes(t0, events@, i + 1) == cycle_writes(
                        t0,
                        events@,
                        i as int,
                    ).push(record_for(tcur, label@, *sample)));
                    assert(log@ =~= old(log)@ + cycle_writes(t0, events@, i + 1));
                }
            },
            CycleEvent::SessionUnavailable => {
                skipped = skipped + 1;
                proof {
                    assert(cycle_table(t0, events@, i + 1) == step_table(
                        cycle_table(t0, events@, i as int),
                        events@[i as int],
                    ));
                    assert(cycle_writes(t0, events@, i + 1) == cycle_writes(t0, events@, i as int));
                }
            },
            CycleEvent::SampleFailed => {
                skipped = skipped + 1;
                proof {
                    assert(cycle_table(t0, events@, i + 1) == step_table(
                        cycle_table(t0, events@, i as int),
                        events@[i as int],
                    ));
                    assert(cycle_writes(t0, events@, i + 1) == cycle_writes(t0, events@, i as int));
                }
            },
            CycleEvent::StoreFailed => {
                skipped = skipped + 1;
                proof {
                    assert(cycle_table(t0, events@, i + 1) == step_table(
                        cycle_table(t0, events@, i as int),
                        events@[i as int],
                    ));
                    assert(cycle_writes(t0, events@, i + 1) == cycle_writes(t0, events@, i as int));
                }
            },
        }
        i = i + 1;
    }
    proof {
        assert(cycle_table(old(table)@, events@, budget as int) == cycle_table(
            old(table)@,
            events@,
            m as int,
        ));
        assert(cycle_writes(old(table)@, events@, budget as int) == cycle_writes(
            old(table)@,
            events@,
            m as int,
        ));
    }
    CycleReport { attempted: m, written, skipped }
}

/// The payload of a committed record: what the device itself reported.
pub open spec fn write_payload(w: TelemetryRecord) -> (u64, bool, i64) {
    (w.power, w.device_on, w.timestamp_ms)
}

/// The payloads of the sampled events among the first `k` attempted, in
/// order.
pub open spec fn sampled_payloads(evs: Seq<CycleEvent>, k: int) -> Seq<(u64, bool, i64)>
    decreases k,
{
    let m = attempted(evs, k);
    if m <= 0 {
        Seq::empty()
    } else {
        let prev = sampled_payloads(evs, m - 1);
        match evs[m - 1] {
            CycleEvent::Sampled { label, sample } => prev.push(
                (sample.power, sample.device_on, sample.timestamp_ms),
            ),
            _ => prev,
        }
    }
}

/// Failure isolation: the committed records carry exactly the payloads of
/// the successfully sampled devices, in order. A session, device or store
/// failure on one device never changes what is written for any other, and
/// every committed record is complete and genuine (never synthetic).
pub proof fn lemma_failure_isolation(t: Seq<RecordView>, evs: Seq<CycleEvent>, k: int)
    ensures
        cycle_writes(t, evs, k).map_values(|w: TelemetryRecord| write_payload(w))
            == sampled_payloads(evs, k),
        forall|x: int|
            0 <= x < cycle_writes(t, evs, k).len() ==> !(#[trigger] cycle_writes(
                t,
                evs,
                k,
            )[x]).synthetic,
    decreases k,
{
    let m = attempted(evs, k);
    if m <= 0 {
        assert(cycle_writes(t, evs, k).map_values(|w: TelemetryRecord| write_payload(w))
            =~= sampled_payloads(evs, k));
    } else {
        lemma_failure_isolation(t, evs, m - 1);
        assert(cycle_writes(t, evs, m - 1).map_values(|w: TelemetryRecord| write_payload(w))
            == sampled_payloads(evs, m - 1));
        match evs[m - 1] {
            CycleEvent::Sampled { label, sample } => {
                assert(cycle_writes(t, evs, k).map_values(|w: TelemetryRecord| write_payload(w))
                    =~= sampled_payloads(evs, k));
            },
            CycleEvent::SessionUnavailable => {
                assert(cycle_writes(t, evs, k) == cycle_writes(t, evs, m - 1));
                assert(sampled_payloads(evs, k) == sampled_payloads(evs, m - 1));
            },
            CycleEvent::SampleFailed => {
                assert(cycle_writes(t, evs, k) == cycle_writes(t, evs, m - 1));
                assert(sampled_payloads(evs, k) == sampled_payloads(evs, m - 1));
            },
            CycleEvent::StoreFailed => {
                assert(cycle_writes(t, evs, k) == cycle_writes(t, evs, m - 1));
                assert(sampled_payloads(evs, k) == sampled_payloads(evs, m - 1));
            },
        }
    }
}

/// A timed-out cycle commits a prefix of what the full cycle would have
/// committed: only whole records for the devices it reached, never a partial
/// one, and the records already committed stand unchanged.
pub proof fn lemma_timeout_commits_prefix(
    t: Seq<RecordView>,
    evs: Seq<CycleEvent>,
    k1: int,
    k2: int,
)
    requires
        0 <= k1 <= k2,
    ensures
        cycle_writes(t, evs, k1).is_prefix_of(cycle_writes(t, evs, k2)),
    decreases k2 - k1,
{
    let m1 = attempted(evs, k1);
    let m2 = attempted(evs, k2);
    if m1 == m2 {
        assert(cycle_writes(t, evs, k1) == cycle_writes(t, evs, k2));
        assert(cycle_writes(t, evs, k2).take(cycle_writes(t, evs, k2).len() as int)
            =~= cycle_writes(t, evs, k2));
    } else {
        lemma_timeout_commits_prefix(t, evs, k1, m2 - 1);
        let w1 = cycle_writes(t, evs, k1);
        let prev = cycle_writes(t, evs, m2 - 1);
        let w2 = cycle_writes(t, evs, k2);
        assert(w1.is_prefix_of(prev));
        match evs[m2 - 1] {
            CycleEvent::Sampled { label, sample } => {
                assert(w2 == prev.push(record_for(cycle_table(t, evs, m2 - 1), label@, sample)));
                assert(w2.take(w1.len() as int) =~= prev.take(w1.len() as int));
            },
            CycleEvent::SessionUnavailable => {
                assert(w2 == prev);
            },
            CycleEvent::SampleFailed => {
                assert(w2 == prev);
            },
            CycleEvent::StoreFailed => {
                assert(w2 == prev);
            },
        }
    }
}

} // verus!
