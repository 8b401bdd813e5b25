use autoperf::errors::{ConfigError, StatsError};
use autoperf::events::{CounterClass, EventCatalog, EventEncoding, SlotKind};
use autoperf::extract::{
    attribute, extract_records, parse_artifact, render_artifact, ArtifactInput, AttributionFilter,
    ExtractedRecord, RawSample,
};
use autoperf::groups::{build_from_ranking, build_groups, CounterCaps};
use autoperf::pairing::{pair_of_index, index_of_pair, shard_indices, WorkloadPair};
use autoperf::profiler::{ProfileSession, RunOutcome};
use autoperf::records::{parse_results, render_results};
use autoperf::stats::aggregate;
use autoperf::tabular::{parse_u64, render_u64};

fn enc(name: &str, class: CounterClass, slot: SlotKind) -> EventEncoding {
    EventEncoding { name: name.to_string(), code: 0, class, slot }
}

fn core_prog(name: &str) -> EventEncoding {
    enc(name, CounterClass::Core, SlotKind::Programmable)
}

fn catalog(entries: Vec<EventEncoding>) -> EventCatalog {
    EventCatalog { entries }
}

fn names(ns: &[&str]) -> Vec<String> {
    ns.iter().map(|s| s.to_string()).collect()
}

fn group_names(g: &autoperf::groups::EventGroup) -> Vec<String> {
    g.events.iter().map(|e| e.name.clone()).collect()
}

fn sample(name: &str, class: CounterClass, combined: u64, baseline: u64) -> RawSample {
    RawSample { event_name: name.as_bytes().to_vec(), class, combined, baseline }
}

#[test]
fn mkgroup_scenario_three_core_events_cap_two() {
    let cat = catalog(vec![core_prog("A"), core_prog("B"), core_prog("C")]);
    let caps = CounterCaps { core: 2, uncore: 4 };
    let (groups, unknown) = build_from_ranking(&cat, &names(&["A", "B", "C"]), caps).unwrap();
    assert!(unknown.is_empty());
    assert_eq!(groups.len(), 2);
    assert_eq!(group_names(&groups[0]), vec!["A", "B"]);
    assert_eq!(group_names(&groups[1]), vec!["C"]);
}

#[test]
fn groups_respect_class_capacities() {
    let evs = vec![
        core_prog("a"),
        core_prog("b"),
        core_prog("c"),
        enc("u1", CounterClass::Uncore, SlotKind::Programmable),
        enc("u2", CounterClass::Uncore, SlotKind::Programmable),
    ];
    let caps = CounterCaps { core: 2, uncore: 1 };
    let groups = build_groups(&evs, caps).unwrap();
    for g in &groups {
        let core = g
            .events
            .iter()
            .filter(|e| {
                matches!(e.class, CounterClass::Core) && matches!(e.slot, SlotKind::Programmable)
            })
            .count();
        let uncore = g
            .events
            .iter()
            .filter(|e| {
                matches!(e.class, CounterClass::Uncore) && matches!(e.slot, SlotKind::Programmable)
            })
            .count();
        assert!(core <= 2);
        assert!(uncore <= 1);
    }
    // first-fit: u1 back-fills group 0 beside the core events
    assert_eq!(group_names(&groups[0]), vec!["a", "b", "u1"]);
    assert_eq!(group_names(&groups[1]), vec!["c", "u2"]);
}

#[test]
fn fixed_slot_events_do_not_consume_capacity() {
    let evs = vec![
        enc("f", CounterClass::Core, SlotKind::Fixed),
        core_prog("p1"),
        core_prog("p2"),
    ];
    let caps = CounterCaps { core: 1, uncore: 0 };
    let groups = build_groups(&evs, caps).unwrap();
    assert_eq!(groups.len(), 2);
    assert_eq!(group_names(&groups[0]), vec!["f", "p1"]);
    assert_eq!(group_names(&groups[1]), vec!["p2"]);
}

#[test]
fn zero_capacity_is_config_error() {
    let evs = vec![core_prog("a")];
    let caps = CounterCaps { core: 0, uncore: 4 };
    assert!(matches!(build_groups(&evs, caps), Err(ConfigError::ZeroCapacity)));
}

#[test]
fn empty_ranking_builds_no_groups() {
    let evs: Vec<EventEncoding> = Vec::new();
    let caps = CounterCaps { core: 2, uncore: 2 };
    let groups = build_groups(&evs, caps).unwrap();
    assert!(groups.is_empty());
}

#[test]
fn unknown_names_are_collected_not_fatal() {
    let cat = catalog(vec![core_prog("A")]);
    let caps = CounterCaps { core: 2, uncore: 2 };
    let (groups, unknown) = build_from_ranking(&cat, &names(&["A", "MYSTERY", "GHOST"]), caps)
        .unwrap();
    assert_eq!(groups.len(), 1);
    assert_eq!(group_names(&groups[0]), vec!["A"]);
    assert_eq!(unknown, vec!["MYSTERY".to_string(), "GHOST".to_string()]);
}

#[test]
fn resolve_returns_first_match() {
    let mut first = core_prog("X");
    first.code = 1;
    let mut second = core_prog("X");
    second.code = 2;
    let cat = catalog(vec![first, second]);
    let found = cat.resolve(&"X".to_string()).unwrap();
    assert_eq!(found.code, 1);
    assert!(cat.resolve(&"Y".to_string()).is_none());
}

#[test]
fn pair_shard_scenario_start_one_step_two() {
    let shard = shard_indices(4, 1, 2).unwrap();
    assert_eq!(shard, vec![1, 3, 5, 7, 9, 11, 13, 15]);
}

#[test]
fn zero_stride_is_rejected_before_work() {
    assert!(matches!(shard_indices(4, 0, 0), Err(ConfigError::ZeroStride)));
}

#[test]
fn shards_partition_the_matrix() {
    let stride = 3;
    let mut seen = vec![0u32; 9];
    for start in 0..stride {
        for i in shard_indices(3, start, stride).unwrap() {
            seen[i] += 1;
        }
    }
    assert_eq!(seen, vec![1; 9]);
}

#[test]
fn pair_index_roundtrip() {
    for i in 0..16 {
        let p = pair_of_index(i, 4);
        assert_eq!(index_of_pair(p, 4), i);
    }
    let p = pair_of_index(7, 4);
    assert_eq!(p, WorkloadPair { primary: 1, aggressor: 3 });
}

#[test]
fn shared_filter_passes_raw_values() {
    assert_eq!(attribute(120, 50, AttributionFilter::Shared), 120);
    assert_eq!(attribute(0, 50, AttributionFilter::Shared), 0);
}

#[test]
fn exclusive_filter_floors_at_zero() {
    assert_eq!(attribute(120, 50, AttributionFilter::Exclusive), 70);
    assert_eq!(attribute(50, 120, AttributionFilter::Exclusive), 0);
    assert_eq!(attribute(50, 50, AttributionFilter::Exclusive), 0);
}

#[test]
fn artifact_roundtrip() {
    let samples = vec![
        sample("cycles", CounterClass::Core, 1000, 0),
        sample("llc_misses", CounterClass::Uncore, 42, 7),
    ];
    let bytes = render_artifact(&samples);
    assert_eq!(
        String::from_utf8(bytes.clone()).unwrap(),
        "perfraw1\ncycles,core,1000,0\nllc_misses,uncore,42,7\n"
    );
    let back = parse_artifact(&bytes).unwrap();
    assert_eq!(back.len(), 2);
    assert_eq!(back[0].event_name, b"cycles".to_vec());
    assert_eq!(back[0].combined, 1000);
    assert_eq!(back[0].baseline, 0);
    assert!(matches!(back[1].class, CounterClass::Uncore));
    assert_eq!(back[1].combined, 42);
    assert_eq!(back[1].baseline, 7);
}

#[test]
fn corrupt_artifact_is_rejected() {
    // not newline-terminated
    assert!(parse_artifact(&b"perfraw1\ncycles,core,10,0".to_vec()).is_none());
    // missing version row
    assert!(parse_artifact(&b"cycles,core,10,0\n".to_vec()).is_none());
    // wrong field count
    assert!(parse_artifact(&b"perfraw1\ncycles,core,10\n".to_vec()).is_none());
    // unknown class tag
    assert!(parse_artifact(&b"perfraw1\ncycles,socket,10,0\n".to_vec()).is_none());
    // non-canonical number
    assert!(parse_artifact(&b"perfraw1\ncycles,core,007,0\n".to_vec()).is_none());
}

#[test]
fn extraction_skips_corrupt_artifact_and_continues() {
    let mut inputs = Vec::new();
    for k in 0..9 {
        let bytes = render_artifact(&vec![sample("cycles", CounterClass::Core, 100 + k, 10)]);
        inputs.push(ArtifactInput { workload: format!("w{}", k).into_bytes(), bytes });
    }
    inputs.insert(4, ArtifactInput { workload: b"bad".to_vec(), bytes: b"garbage".to_vec() });
    assert_eq!(inputs.len(), 10);
    let (records, warnings) = extract_records(
        &inputs,
        AttributionFilter::Exclusive,
        AttributionFilter::Exclusive,
    );
    assert_eq!(records.len(), 9);
    assert_eq!(warnings, 1);
    assert_eq!(records[0].value, 90);
    assert_eq!(records[8].value, 98);
    assert!(records.iter().all(|r| r.workload != b"bad".to_vec()));
}

#[test]
fn timed_out_run_keeps_no_samples() {
    let mut session = ProfileSession::begin(3, true);
    let plan = session.next_plan().unwrap();
    assert_eq!(plan.group_index, 0);
    assert!(plan.record);
    session.record_outcome(
        RunOutcome::TimedOut,
        vec![sample("cycles", CounterClass::Core, 5, 0)],
        60_000,
    );
    assert_eq!(session.runs.len(), 1);
    assert_eq!(session.runs[0].outcome, RunOutcome::TimedOut);
    assert!(session.runs[0].samples.is_empty());
    // the sweep continues to the next group
    let next = session.next_plan().unwrap();
    assert_eq!(next.group_index, 1);
}

#[test]
fn spawn_failure_does_not_halt_sweep() {
    let mut session = ProfileSession::begin(2, false);
    session.record_outcome(RunOutcome::SpawnFailed, Vec::new(), 0);
    session.record_outcome(
        RunOutcome::Completed,
        vec![sample("cycles", CounterClass::Core, 9, 0)],
        15,
    );
    assert!(session.done());
    assert_eq!(session.runs[0].outcome, RunOutcome::SpawnFailed);
    assert!(session.runs[0].samples.is_empty());
    assert_eq!(session.runs[1].outcome, RunOutcome::Completed);
    assert_eq!(session.runs[1].samples.len(), 1);
    assert_eq!(session.runs[1].wall_clock_ms, 15);
}

fn record(w: &str, e: &str, value: u64) -> ExtractedRecord {
    ExtractedRecord {
        workload: w.as_bytes().to_vec(),
        event: e.as_bytes().to_vec(),
        value,
        filter: AttributionFilter::Shared,
    }
}

#[test]
fn single_record_stats() {
    let out = aggregate(&vec![record("w", "cycles", 37)]).unwrap();
    assert_eq!(out.len(), 1);
    let s = &out[0];
    assert_eq!(s.count, 1);
    assert_eq!(s.min, 37);
    assert_eq!(s.max, 37);
    assert_eq!(s.sum, 37);
    // mean = sum / count = the value itself
    assert_eq!(s.sum / s.count as u128, 37);
    // Bessel-corrected variance numerator is zero: stddev = 0
    assert_eq!(s.count as u128 * s.sum_sq, s.sum * s.sum);
}

#[test]
fn stats_group_by_key() {
    let records = vec![
        record("w1", "cycles", 10),
        record("w2", "cycles", 100),
        record("w1", "cycles", 20),
        record("w1", "misses", 5),
        record("w1", "cycles", 30),
    ];
    let out = aggregate(&records).unwrap();
    assert_eq!(out.len(), 3);
    let w1c = out
        .iter()
        .find(|s| s.workload == b"w1".to_vec() && s.event == b"cycles".to_vec())
        .unwrap();
    assert_eq!(w1c.count, 3);
    assert_eq!(w1c.sum, 60);
    assert_eq!(w1c.sum_sq, 100 + 400 + 900);
    assert_eq!(w1c.min, 10);
    assert_eq!(w1c.max, 30);
    let w2c = out
        .iter()
        .find(|s| s.workload == b"w2".to_vec() && s.event == b"cycles".to_vec())
        .unwrap();
    assert_eq!(w2c.count, 1);
    assert_eq!(w2c.sum, 100);
}

#[test]
fn stats_overflow_is_fatal() {
    let records = vec![record("w", "e", u64::MAX), record("w", "e", u64::MAX)];
    assert!(matches!(aggregate(&records), Err(StatsError::Overflow)));
}

#[test]
fn results_table_roundtrip() {
    let records = vec![record("w1", "cycles", 10), record("w2", "misses", 0)];
    let bytes = render_results(&records).unwrap();
    let text = String::from_utf8(bytes.clone()).unwrap();
    assert_eq!(text, "workload,event,value,filter\nw1,cycles,10,shared\nw2,misses,0,shared\n");
    let back = parse_results(&bytes).unwrap();
    assert_eq!(back.len(), 2);
    assert_eq!(back[0].workload, b"w1".to_vec());
    assert_eq!(back[0].value, 10);
    assert_eq!(back[1].event, b"misses".to_vec());
    assert!(matches!(back[1].filter, AttributionFilter::Shared));
}

#[test]
fn results_reject_bad_tables() {
    // missing header
    assert!(parse_results(&b"w1,cycles,10,shared\n".to_vec()).is_none());
    // bad filter tag
    assert!(
        parse_results(&b"workload,event,value,filter\nw1,cycles,10,private\n".to_vec()).is_none()
    );
    // not newline-terminated
    assert!(parse_results(&b"workload,event,value,filter".to_vec()).is_none());
}

#[test]
fn results_reject_unusable_identities() {
    let bad = ExtractedRecord {
        workload: b"has,comma".to_vec(),
        event: b"cycles".to_vec(),
        value: 1,
        filter: AttributionFilter::Shared,
    };
    assert!(render_results(&vec![bad]).is_none());
}

#[test]
fn decimal_render_and_parse() {
    assert_eq!(render_u64(0), b"0".to_vec());
    assert_eq!(render_u64(120), b"120".to_vec());
    assert_eq!(render_u64(u64::MAX), b"18446744073709551615".to_vec());
    assert_eq!(parse_u64(&b"0".to_vec()), Some(0));
    assert_eq!(parse_u64(&b"18446744073709551615".to_vec()), Some(u64::MAX));
    assert_eq!(parse_u64(&b"18446744073709551616".to_vec()), None);
    assert_eq!(parse_u64(&b"007".to_vec()), None);
    assert_eq!(parse_u64(&b"".to_vec()), None);
    assert_eq!(parse_u64(&b"12a".to_vec()), None);
}
