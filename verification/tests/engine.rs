use powerpoll::cycle::{
    run_cycle, state_after_cycle, state_after_delay, CycleEvent, CycleOutcome, Sample,
    SchedulerState, TelemetryRecord,
};
use powerpoll::discovery::{
    parse_scan_line, parse_scan_output, Discoverer, DiscoveryStatus, ScanAttempt,
    MAX_SCAN_ATTEMPTS,
};
use powerpoll::identity::resolve;
use powerpoll::store::DeviceTable;

fn sampled(label: &str, power: u64, on: bool, ts: i64) -> CycleEvent {
    CycleEvent::Sampled {
        label: label.to_string(),
        sample: Sample { power, device_on: on, timestamp_ms: ts },
    }
}

#[test]
fn resolve_well_formed_label() {
    let id = resolve("P110-alice-kitchen-fridge");
    assert_eq!(id.model, "P110");
    assert_eq!(id.user, "alice");
    assert_eq!(id.room, "kitchen");
    assert_eq!(id.appliance, "fridge");
}

#[test]
fn resolve_too_few_segments() {
    let id = resolve("P110-alice-kitchen");
    assert_eq!(id.model, "");
    assert_eq!(id.user, "");
    assert_eq!(id.room, "");
    assert_eq!(id.appliance, "");
}

#[test]
fn resolve_too_many_segments() {
    let id = resolve("P110-alice-kitchen-fridge-extra");
    assert_eq!(id.model, "");
    assert_eq!(id.user, "");
    assert_eq!(id.room, "");
    assert_eq!(id.appliance, "");
}

#[test]
fn resolve_empty_segment() {
    let id = resolve("P110--kitchen-fridge");
    assert_eq!(id.model, "");
    assert_eq!(id.user, "");
    assert_eq!(id.room, "");
    assert_eq!(id.appliance, "");
}

#[test]
fn resolve_empty_label() {
    let id = resolve("");
    assert_eq!(id.model, "");
    assert_eq!(id.appliance, "");
}

#[test]
fn ensure_record_is_idempotent() {
    let mut table = DeviceTable::new();
    let id = resolve("P110-alice-kitchen-fridge");
    let first = table.ensure_record(&id);
    let second = table.ensure_record(&id);
    assert_eq!(first, second);
    assert_eq!(table.len(), 1);
}

#[test]
fn ensure_record_distinct_keys() {
    let mut table = DeviceTable::new();
    let a = resolve("P110-alice-kitchen-fridge");
    let b = resolve("P110-bob-garage-freezer");
    let ia = table.ensure_record(&a);
    let ib = table.ensure_record(&b);
    assert_ne!(ia, ib);
    assert_eq!(table.len(), 2);
    let ra = table.record_at(ia);
    assert_eq!(ra.user, "alice");
    assert_eq!(ra.room, "kitchen");
    assert_eq!(ra.appliance, "fridge");
    assert_eq!(ra.model, "P110");
}

#[test]
fn resolve_twice_same_durable_id() {
    let mut table = DeviceTable::new();
    let first = table.ensure_record(&resolve("P110-alice-kitchen-fridge"));
    let count_after_first = table.len();
    let second = table.ensure_record(&resolve("P110-alice-kitchen-fridge"));
    assert_eq!(first, second);
    assert_eq!(table.len(), count_after_first);
    assert_eq!(table.len(), 1);
}

#[test]
fn scan_filters_matching_vendor_prefix() {
    let out = "192.168.0.7\t30:de:4b:36:aa:bb\tVendor\n192.168.0.9\t11:22:33:44:55:66\tOther\n";
    let addrs = parse_scan_output(out);
    assert_eq!(addrs.len(), 1);
    assert_eq!(addrs[0], "192.168.0.7");
}

#[test]
fn scan_matches_second_vendor_prefix() {
    let out = "10.0.0.2\t78:8c:b5:71:00:01\tVendor";
    let addrs = parse_scan_output(out);
    assert_eq!(addrs.len(), 1);
    assert_eq!(addrs[0], "10.0.0.2");
}

#[test]
fn scan_line_without_second_field_is_skipped() {
    assert!(parse_scan_line("30:de:4b:36:aa:bb").is_none());
    assert!(parse_scan_line("").is_none());
    let hit = parse_scan_line("192.168.0.7 30:de:4b:36:aa:bb Vendor");
    assert_eq!(hit.unwrap(), "192.168.0.7");
}

#[test]
fn scan_prefix_must_start_hardware_field() {
    // The prefix occurs, but not at the start of the hardware field.
    let addrs = parse_scan_output("192.168.0.7\taa:30:de:4b:36:bb\tVendor");
    assert_eq!(addrs.len(), 0);
}

#[test]
fn discovery_retries_then_exhausts() {
    let mut d = Discoverer::new();
    for attempt in 0..MAX_SCAN_ATTEMPTS {
        let st = d.step(&ScanAttempt::Output("nothing here".to_string()));
        if attempt + 1 < MAX_SCAN_ATTEMPTS {
            assert!(matches!(st, DiscoveryStatus::RetryAfterDelay));
        } else {
            assert!(matches!(st, DiscoveryStatus::Exhausted));
        }
    }
    assert_eq!(d.attempts, MAX_SCAN_ATTEMPTS);
}

#[test]
fn discovery_succeeds_on_first_match() {
    let mut d = Discoverer::new();
    let st = d.step(&ScanAttempt::Output(
        "192.168.0.7\t30:de:4b:36:aa:bb\tVendor".to_string(),
    ));
    match st {
        DiscoveryStatus::Found(addrs) => {
            assert_eq!(addrs.len(), 1);
            assert_eq!(addrs[0], "192.168.0.7");
        }
        _ => panic!("expected discovery to end with the matching address"),
    }
    assert_eq!(d.attempts, 1);
}

#[test]
fn discovery_reports_invocation_failure() {
    let mut d = Discoverer::new();
    let st = d.step(&ScanAttempt::InvocationFailed);
    assert!(matches!(st, DiscoveryStatus::ScanFailed));
}

#[test]
fn cycle_isolates_one_failed_device() {
    let mut table = DeviceTable::new();
    let mut log: Vec<TelemetryRecord> = Vec::new();
    let events = vec![
        sampled("P110-alice-kitchen-fridge", 120, true, 1_700_000_000_000),
        CycleEvent::SampleFailed,
        sampled("P110-bob-garage-freezer", 80, false, 1_700_000_000_500),
    ];
    let rep = run_cycle(&mut table, &mut log, &events, events.len());
    assert_eq!(rep.attempted, 3);
    assert_eq!(rep.written, 2);
    assert_eq!(rep.skipped, 1);
    assert_eq!(log.len(), 2);
    assert_eq!(log[0].power, 120);
    assert!(log[0].device_on);
    assert_eq!(log[0].timestamp_ms, 1_700_000_000_000);
    assert!(!log[0].synthetic);
    assert_eq!(log[1].power, 80);
    assert!(!log[1].device_on);
    assert_ne!(log[0].device_id, log[1].device_id);
}

#[test]
fn session_failure_never_blocks_other_devices() {
    let mut table = DeviceTable::new();
    let mut log: Vec<TelemetryRecord> = Vec::new();
    let events = vec![
        CycleEvent::SessionUnavailable,
        sampled("P110-bob-garage-freezer", 55, true, 1_700_000_001_000),
    ];
    // Same cycle: the dead session does not stop the live device.
    let rep = run_cycle(&mut table, &mut log, &events, events.len());
    assert_eq!(rep.written, 1);
    assert_eq!(rep.skipped, 1);
    assert_eq!(log.len(), 1);
    assert_eq!(log[0].power, 55);
    // Later cycle: still isolated, and the durable id is reused.
    let first_id = log[0].device_id;
    let rep2 = run_cycle(&mut table, &mut log, &events, events.len());
    assert_eq!(rep2.written, 1);
    assert_eq!(log.len(), 2);
    assert_eq!(log[1].device_id, first_id);
    assert_eq!(table.len(), 1);
}

#[test]
fn timeout_commits_only_whole_leading_records() {
    let mut full_table = DeviceTable::new();
    let mut full_log: Vec<TelemetryRecord> = Vec::new();
    let events = vec![
        sampled("P110-alice-kitchen-fridge", 10, true, 1),
        sampled("P110-bob-garage-freezer", 20, true, 2),
        sampled("P110-carol-office-heater", 30, true, 3),
    ];
    run_cycle(&mut full_table, &mut full_log, &events, events.len());
    assert_eq!(full_log.len(), 3);

    // The same cycle cut off after two devices: a prefix of the full run.
    let mut cut_table = DeviceTable::new();
    let mut cut_log: Vec<TelemetryRecord> = Vec::new();
    let rep = run_cycle(&mut cut_table, &mut cut_log, &events, 2);
    assert_eq!(rep.attempted, 2);
    assert_eq!(cut_log.len(), 2);
    for (a, b) in cut_log.iter().zip(full_log.iter()) {
        assert_eq!(a.device_id, b.device_id);
        assert_eq!(a.power, b.power);
        assert_eq!(a.device_on, b.device_on);
        assert_eq!(a.synthetic, b.synthetic);
        assert_eq!(a.timestamp_ms, b.timestamp_ms);
    }
}

#[test]
fn cycle_with_budget_zero_writes_nothing() {
    let mut table = DeviceTable::new();
    let mut log: Vec<TelemetryRecord> = Vec::new();
    let events = vec![sampled("P110-alice-kitchen-fridge", 10, true, 1)];
    let rep = run_cycle(&mut table, &mut log, &events, 0);
    assert_eq!(rep.attempted, 0);
    assert_eq!(rep.written, 0);
    assert_eq!(log.len(), 0);
    assert_eq!(table.len(), 0);
}

#[test]
fn malformed_labels_share_one_record() {
    // Two devices with malformed labels degrade to the same all-empty
    // identity, and the find-or-create stays free of duplicates.
    let mut table = DeviceTable::new();
    let mut log: Vec<TelemetryRecord> = Vec::new();
    let events = vec![
        sampled("justaplainname", 5, true, 10),
        sampled("another name", 6, false, 11),
    ];
    let rep = run_cycle(&mut table, &mut log, &events, events.len());
    assert_eq!(rep.written, 2);
    assert_eq!(table.len(), 1);
    assert_eq!(log[0].device_id, log[1].device_id);
}

#[test]
fn scheduler_always_idles_then_resumes() {
    assert!(matches!(
        state_after_cycle(&CycleOutcome::Completed),
        SchedulerState::Idle
    ));
    assert!(matches!(
        state_after_cycle(&CycleOutcome::TimedOut),
        SchedulerState::Idle
    ));
    assert!(matches!(state_after_delay(), SchedulerState::RunningCycle));
}

#[test]
fn scan_deduplicates_repeated_replies() {
    // A scan tool may answer the same device with several replies;
    // discovery hands out each address once, in order of first appearance.
    let out = "192.168.0.7\t30:de:4b:36:aa:bb\tVendor\n\
               192.168.0.7\t30:de:4b:36:aa:bb\tVendor (DUP: 2)\n\
               10.0.0.2\t78:8c:b5:71:00:01\tVendor\n";
    let addrs = parse_scan_output(out);
    assert_eq!(addrs.len(), 2);
    assert_eq!(addrs[0], "192.168.0.7");
    assert_eq!(addrs[1], "10.0.0.2");
}

#[test]
fn discovery_found_set_has_no_duplicates() {
    let mut d = Discoverer::new();
    let st = d.step(&ScanAttempt::Output(
        "192.168.0.7\t30:de:4b:36:aa:bb\tVendor\n192.168.0.7\t30:de:4b:36:aa:bb\tVendor"
            .to_string(),
    ));
    match st {
        DiscoveryStatus::Found(addrs) => {
            assert_eq!(addrs.len(), 1);
            assert_eq!(addrs[0], "192.168.0.7");
        }
        _ => panic!("expected discovery to end with the one distinct address"),
    }
}

#[test]
fn store_failure_skips_only_that_device() {
    let mut table = DeviceTable::new();
    let mut log: Vec<TelemetryRecord> = Vec::new();
    let events = vec![
        sampled("P110-alice-kitchen-fridge", 120, true, 1_700_000_000_000),
        CycleEvent::StoreFailed,
        sampled("P110-bob-garage-freezer", 80, false, 1_700_000_000_500),
    ];
    let rep = run_cycle(&mut table, &mut log, &events, events.len());
    assert_eq!(rep.attempted, 3);
    assert_eq!(rep.written, 2);
    assert_eq!(rep.skipped, 1);
    assert_eq!(log.len(), 2);
    assert_eq!(log[0].power, 120);
    assert_eq!(log[1].power, 80);
}
