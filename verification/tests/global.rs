//! The process-wide recorder, its settings and its dumper.

use backbeat::calendar::{civil_from_days, format_utc_millis, unique_stamp};
use backbeat::event::Event;
use backbeat::global::{
    command_host, configure, env_host, limit_action, parse_signal, stamped_name, throttled, truthy,
    DumpStep, Dumper, Global, LimitAction, LimitPolicy, Overrides, Settings, Signal,
    DEFAULT_BYTES_PER_SHARD, DEFAULT_MAX_DUMPS, DEFAULT_THROTTLE_MS, LEAST_BYTES_PER_SHARD,
};
use backbeat::id::EventId;
use backbeat::ring::walk;
use backbeat::schema::{EventSchema, FieldRole, FieldSchema, FieldType, Phase};
use backbeat::wire::DumpReader;
use bytes::Bytes;
use std::path::{Path, PathBuf};

#[test]
fn throttle_drops_only_within_window() {
    let throttle = 1000u128;
    // First dump (no previous) is never throttled.
    assert!(!throttled(None, throttle));
    // A dump that just happened throttles the next request.
    assert!(throttled(Some(10), throttle));
    assert!(throttled(Some(999), throttle));
    // Past the window, the request proceeds.
    assert!(!throttled(Some(1000), throttle));
    assert!(!throttled(Some(5000), throttle));
    // A zero throttle never drops anything.
    assert!(!throttled(Some(0), 0));
}

#[test]
fn limit_action_unlimited_always_writes() {
    for live in [0, 1, 100, 10_000] {
        assert_eq!(
            limit_action(live, None, LimitPolicy::KeepOldest),
            LimitAction::Write { evict: false }
        );
        assert_eq!(
            limit_action(live, None, LimitPolicy::KeepNewest),
            LimitAction::Write { evict: false }
        );
    }
}

#[test]
fn limit_action_keep_oldest_stops_when_full() {
    let limit = Some(3);
    // While fewer than `limit` files exist, write without evicting.
    assert_eq!(
        limit_action(0, limit, LimitPolicy::KeepOldest),
        LimitAction::Write { evict: false }
    );
    assert_eq!(
        limit_action(2, limit, LimitPolicy::KeepOldest),
        LimitAction::Write { evict: false }
    );
    // Once `limit` files exist, drop further requests — the early dumps are preserved.
    assert_eq!(
        limit_action(3, limit, LimitPolicy::KeepOldest),
        LimitAction::Stop
    );
    assert_eq!(
        limit_action(9, limit, LimitPolicy::KeepOldest),
        LimitAction::Stop
    );
}

#[test]
fn limit_action_keep_newest_evicts_when_full() {
    let limit = Some(3);
    // While the window has room, write with nothing to evict.
    assert_eq!(
        limit_action(0, limit, LimitPolicy::KeepNewest),
        LimitAction::Write { evict: false }
    );
    assert_eq!(
        limit_action(2, limit, LimitPolicy::KeepNewest),
        LimitAction::Write { evict: false }
    );
    // With `limit` files already on disk, each new dump evicts the oldest — a 3-file ring.
    assert_eq!(
        limit_action(3, limit, LimitPolicy::KeepNewest),
        LimitAction::Write { evict: true }
    );
    assert_eq!(
        limit_action(4, limit, LimitPolicy::KeepNewest),
        LimitAction::Write { evict: true }
    );
}

#[test]
fn limit_policy_parses() {
    assert_eq!(
        LimitPolicy::parse("keep-oldest"),
        Some(LimitPolicy::KeepOldest)
    );
    assert_eq!(LimitPolicy::parse("OLDEST"), Some(LimitPolicy::KeepOldest));
    assert_eq!(
        LimitPolicy::parse("keep-newest"),
        Some(LimitPolicy::KeepNewest)
    );
    assert_eq!(
        LimitPolicy::parse(" newest "),
        Some(LimitPolicy::KeepNewest)
    );
    assert_eq!(LimitPolicy::parse("sideways"), None);
}

fn stamped_path(base: &Path, stamp: &str) -> PathBuf {
    let stem = base.file_stem().and_then(|s| s.to_str());
    let ext = base.extension().and_then(|s| s.to_str());
    base.with_file_name(stamped_name(stem, ext, stamp))
}

#[test]
fn stamped_path_inserts_timestamp_before_extension() {
    let base = PathBuf::from("/tmp/backbeat.bb");
    assert_eq!(
        stamped_path(&base, "20260623T142530123Z"),
        PathBuf::from("/tmp/backbeat.20260623T142530123Z.bb")
    );
    // No extension.
    let base = PathBuf::from("/tmp/trace");
    assert_eq!(
        stamped_path(&base, "20260623T142530123Z"),
        PathBuf::from("/tmp/trace.20260623T142530123Z")
    );
    // No file name.
    assert_eq!(
        stamped_name(None, None, "20260623T142530123Z"),
        "backbeat.20260623T142530123Z.bb"
    );
}

#[test]
fn format_utc_millis_matches_known_instants() {
    // The Unix epoch.
    assert_eq!(format_utc_millis(0), "19700101T000000000Z");
    // 2026-06-23 14:25:30.123 UTC — 1_782_224_730_123 ms since epoch.
    assert_eq!(format_utc_millis(1_782_224_730_123), "20260623T142530123Z");
    // A leap-year date: 2024-02-29 00:00:00 UTC — 1_709_164_800_000 ms.
    assert_eq!(format_utc_millis(1_709_164_800_000), "20240229T000000000Z");
}

#[test]
fn days_are_counted_over_leap_years() {
    let d = civil_from_days(0);
    assert_eq!((d.year, d.month, d.day), (1970, 1, 1));
    let d = civil_from_days(59);
    assert_eq!((d.year, d.month, d.day), (1970, 3, 1));
    // 2000 is a leap year, 2100 is not.
    let d = civil_from_days(11_016);
    assert_eq!((d.year, d.month, d.day), (2000, 2, 29));
    let d = civil_from_days(47_540);
    assert_eq!((d.year, d.month, d.day), (2100, 2, 28));
    let d = civil_from_days(47_541);
    assert_eq!((d.year, d.month, d.day), (2100, 3, 1));
}

#[test]
fn unique_stamp_disambiguates_same_millisecond() {
    let ms = 1_782_224_730_123;
    let base = format_utc_millis(ms); // 20260623T142530123Z
                                      // First use of a fresh millisecond: the bare stamp.
    let s0 = unique_stamp(ms, "");
    assert_eq!(s0, base);
    // Same millisecond again: a -1 suffix.
    let s1 = unique_stamp(ms, &s0);
    assert_eq!(s1, format!("{base}-1"));
    // And again: -2, parsed off the previous suffix.
    let s2 = unique_stamp(ms, &s1);
    assert_eq!(s2, format!("{base}-2"));
    // A new millisecond resets to the bare stamp.
    let later = format_utc_millis(ms + 1);
    assert_eq!(unique_stamp(ms + 1, &s2), later);
}

#[test]
fn stamps_sort_by_time() {
    let mut last = String::new();
    for ms in [0u64, 1, 999, 1000, 86_399_999, 86_400_000, 1_782_224_730_123] {
        let stamp = format_utc_millis(ms);
        assert!(stamp > last, "{stamp} after {last}");
        last = stamp;
    }
}

#[test]
fn env_truthy_parses_common_forms() {
    for (val, want) in [
        ("1", true),
        ("true", true),
        ("TRUE", true),
        ("yes", true),
        ("on", true),
        ("0", false),
        ("false", false),
        ("", false),
        ("nope", false),
    ] {
        assert_eq!(truthy(&Some(val.to_string())), want, "value {val:?}");
    }
    assert!(!truthy(&None));
}

fn unset() -> Overrides {
    Overrides {
        shards: None,
        bytes_per_shard: None,
        throttle_ms: None,
        max_dumps: None,
        limit_policy: None,
        enable: None,
        dump_on_panic: None,
        signal: None,
    }
}

#[test]
fn settings_have_defaults() {
    let s = configure(&unset(), Some(4));
    assert_eq!(s.shards, 4);
    assert_eq!(s.bytes_per_shard, DEFAULT_BYTES_PER_SHARD);
    assert_eq!(s.throttle_ms, DEFAULT_THROTTLE_MS);
    assert_eq!(s.max_dumps, Some(DEFAULT_MAX_DUMPS));
    assert_eq!(s.limit_policy, LimitPolicy::KeepOldest);
    assert!(!s.enable);
    assert!(!s.dump_on_panic);
    assert!(s.signal.is_none());
    // Many processors share sixteen shards.
    assert_eq!(configure(&unset(), Some(200)).shards, 16);
}

#[test]
fn settings_are_overridden() {
    let s = configure(
        &Overrides {
            shards: Some("3".to_string()),
            bytes_per_shard: Some("65536".to_string()),
            throttle_ms: Some("0".to_string()),
            max_dumps: Some("2".to_string()),
            limit_policy: Some("keep-newest".to_string()),
            enable: Some("on".to_string()),
            dump_on_panic: Some("1".to_string()),
            signal: Some("usr1".to_string()),
        },
        None,
    );
    assert_eq!(s.shards, 3);
    assert_eq!(s.bytes_per_shard, 65536);
    assert_eq!(s.throttle_ms, 0);
    assert_eq!(s.max_dumps, Some(2));
    assert_eq!(s.limit_policy, LimitPolicy::KeepNewest);
    assert!(s.enable);
    assert!(s.dump_on_panic);
    assert!(s.signal == Some(Signal::Usr1));
    // No shard is smaller than the least one.
    let mut o = unset();
    o.bytes_per_shard = Some("1".to_string());
    assert_eq!(configure(&o, None).bytes_per_shard, LEAST_BYTES_PER_SHARD);
    // Zero dumps means any number of them.
    let mut o = unset();
    o.max_dumps = Some("0".to_string());
    assert_eq!(configure(&o, None).max_dumps, None);
}

#[test]
fn signals_are_named_or_numbered() {
    assert!(parse_signal("SIGUSR2") == Some(Signal::Usr2));
    assert!(parse_signal("usr1") == Some(Signal::Usr1));
    assert!(parse_signal(" 12 ") == Some(Signal::Number(12)));
    assert!(parse_signal("0").is_none());
    assert!(parse_signal("64").is_none());
    assert!(parse_signal("nonsense").is_none());
}

#[test]
fn hosts_come_from_the_first_that_is_set() {
    assert_eq!(command_host(Some(b"box-1\n".to_vec())), "box-1");
    assert_eq!(command_host(None), "");
    assert_eq!(command_host(Some(vec![0xff])), "");
    let text = |s: &str| Some(s.to_string());
    assert_eq!(
        env_host(text("one"), text("two"), text("three")).as_deref(),
        Some("one")
    );
    assert_eq!(
        env_host(text(""), text("two"), text("three")).as_deref(),
        Some("two")
    );
    assert_eq!(
        env_host(None, None, text("three")).as_deref(),
        Some("three")
    );
    assert_eq!(env_host(None, None, None), None);
    assert_eq!(env_host(None, text(""), text("three")), None);
}

struct Tick {
    seq: [u8; 8],
}

const TICK_FIELDS: &[FieldSchema] = &[FieldSchema {
    name: "seq",
    description: Some("A monotonically increasing marker so we can find our records in the dump."),
    ty: FieldType::U64,
    offset: 0,
    width: 8,
    role: FieldRole::Key,
    unit: None,
    sentinel: None,
    enum_labels: &[],
}];

impl Event for Tick {
    fn schema() -> EventSchema {
        EventSchema {
            id: Self::id(),
            qualified_name: Self::qualified_name(),
            description: Some("A simple point event recorded through the global recorder."),
            record_size: 8,
            phase: Phase::Instant,
            fields: TICK_FIELDS,
        }
    }

    fn id() -> EventId {
        EventSchema::compute_id(Self::qualified_name(), Phase::Instant, TICK_FIELDS)
    }

    fn qualified_name() -> &'static str {
        "test::global::Tick"
    }

    fn as_bytes(&self) -> &[u8] {
        &self.seq
    }
}

fn tick(seq: u64) -> Tick {
    Tick {
        seq: seq.to_le_bytes(),
    }
}

fn settings(max_dumps: Option<u64>, limit_policy: LimitPolicy, throttle_ms: u64) -> Settings {
    Settings {
        shards: 2,
        bytes_per_shard: 65536,
        throttle_ms,
        max_dumps,
        limit_policy,
        enable: false,
        dump_on_panic: false,
        signal: None,
    }
}

/// One turn of the dumper: picks up a request, writes the dump to `disk` and evicts what it is told
/// to.
fn turn(g: &mut Global, disk: &mut Vec<(String, Vec<u8>)>, unix_millis: u64) {
    if !g.take_request() {
        return;
    }
    if let DumpStep::Write { stamp, evict } = g.dumper().on_request(Some(0), unix_millis) {
        let name = stamped_name(Some("trace"), Some("bb"), &stamp);
        let host = g.host().to_string();
        let bytes = g.recorder().dump(&[&Tick::schema()], &[], &[], &host);
        disk.push((name.clone(), bytes));
        if let Some(old) = g.dumper().on_written(name, true, evict) {
            disk.retain(|f| f.0 != old);
        }
    }
}

#[test]
fn record_trigger_and_async_dump() {
    let mut g = Global::build(
        &settings(None, LimitPolicy::KeepOldest, 0),
        "/tmp/trace.bb".to_string(),
        "test-host".to_string(),
    );
    let mut disk: Vec<(String, Vec<u8>)> = Vec::new();

    // Capture starts disabled until armed.
    assert!(!g.is_enabled());
    g.enable();
    assert!(g.is_enabled());

    // The configured path is what we set.
    assert_eq!(g.dump_path(), "/tmp/trace.bb");
    assert_eq!(g.host(), "test-host");

    // Record a handful of events, then ask for a dump.
    for seq in 0..16u64 {
        g.record(0, &tick(seq));
    }
    g.trigger();
    turn(&mut g, &mut disk, 1_782_224_730_123);
    assert_eq!(disk.len(), 1);
    assert_eq!(disk[0].0, "trace.20260623T142530123Z.bb");

    // The dump must be a valid `.bb` carrying our host label and at least one shard.
    let reader = DumpReader::new(Bytes::from(disk[0].1.clone())).expect("dump decodes");
    let metas = reader.metas().unwrap();
    assert_eq!(metas.len(), 1);
    assert_eq!(metas[0].host, "test-host");
    let shards = reader.shards().unwrap();
    assert!(!shards.is_empty());

    // Our Tick events should be present; count records across shards by walking each shard and
    // matching Tick's content-addressed id.
    let id = Tick::id().get();
    let mut ticks = 0usize;
    for shard in &shards {
        let found = walk(
            &shard.region,
            shard.head as usize,
            shard.region.len(),
            |rec: &[u8]| {
                rec.len() >= 16 && u64::from_le_bytes(rec[8..16].try_into().unwrap()) == id
            },
        );
        ticks += found.len();
    }
    assert!(ticks > 0, "recorded Tick events should appear in the dump");
    assert_eq!(ticks, 16);

    // A second trigger (throttle is 0) should produce a second dump file.
    g.record(0, &tick(99));
    g.trigger();
    turn(&mut g, &mut disk, 1_782_224_730_123);
    assert_eq!(
        disk.len(),
        2,
        "a second trigger should write a second dump file (throttle is 0)"
    );
    assert_eq!(disk[1].0, "trace.20260623T142530123Z-1.bb");

    // Triggers coalesce, and nothing is pending afterwards.
    g.trigger();
    g.trigger();
    turn(&mut g, &mut disk, 1_782_224_730_124);
    turn(&mut g, &mut disk, 1_782_224_730_124);
    assert_eq!(disk.len(), 3);

    // Capture that is off records nothing, and dumps still work.
    g.disable();
    assert!(!g.is_enabled());
}

#[test]
fn keep_newest_bounds_file_count_to_limit() {
    let mut g = Global::build(
        &settings(Some(2), LimitPolicy::KeepNewest, 0),
        "/tmp/trace.bb".to_string(),
        String::new(),
    );
    let mut disk: Vec<(String, Vec<u8>)> = Vec::new();
    g.enable();
    for seq in 0..3u64 {
        g.record(0, &tick(seq));
        g.trigger();
        turn(&mut g, &mut disk, 1000);
    }
    assert_eq!(
        disk.len(),
        2,
        "keep-newest with max_dumps=2 must keep exactly 2 files"
    );
    // The retained files must be the two newest. Trigger one more and confirm the oldest of the
    // current pair is gone afterward.
    let oldest = disk[0].0.clone();
    g.record(0, &tick(99));
    g.trigger();
    turn(&mut g, &mut disk, 2000);
    assert!(disk.iter().all(|f| f.0 != oldest));
    assert_eq!(disk.len(), 2);
}

#[test]
fn keep_oldest_stops_and_warns_once() {
    let mut d = Dumper::new(&settings(Some(1), LimitPolicy::KeepOldest, 0));
    match d.on_request(None, 5) {
        DumpStep::Write { stamp, evict } => {
            assert_eq!(stamp, "19700101T000000005Z");
            assert!(!evict);
        }
        _ => panic!("the first request is written"),
    }
    assert!(d.on_written("a".to_string(), true, false).is_none());
    assert!(matches!(
        d.on_request(Some(1), 6),
        DumpStep::Stop { warn: true }
    ));
    assert!(matches!(
        d.on_request(Some(1), 7),
        DumpStep::Stop { warn: false }
    ));
}

#[test]
fn requests_within_the_window_are_skipped() {
    let mut d = Dumper::new(&settings(None, LimitPolicy::KeepOldest, 10));
    assert!(matches!(d.on_request(None, 0), DumpStep::Write { .. }));
    assert!(matches!(d.on_request(Some(9_999_999), 5), DumpStep::Skip));
    assert!(matches!(
        d.on_request(Some(10_000_000), 10),
        DumpStep::Write { .. }
    ));
}

#[test]
fn failed_dumps_do_not_count() {
    let mut d = Dumper::new(&settings(Some(1), LimitPolicy::KeepOldest, 0));
    assert!(matches!(d.on_request(None, 0), DumpStep::Write { .. }));
    assert!(d.on_written("a".to_string(), false, false).is_none());
    assert!(matches!(d.on_request(None, 0), DumpStep::Write { .. }));
}

/// Serves requests one at a time, every write succeeding, and returns the names of the files left.
fn left_after(k: u64, limit: u64, policy: LimitPolicy) -> Vec<String> {
    let mut d = Dumper::new(&settings(Some(limit), policy, 0));
    let mut disk: Vec<String> = Vec::new();
    for i in 0..k {
        if let DumpStep::Write { evict, .. } = d.on_request(Some(0), i) {
            let name = format!("{i}");
            disk.push(name.clone());
            if let Some(old) = d.on_written(name, true, evict) {
                disk.retain(|f| *f != old);
            }
        }
        assert!(disk.len() as u64 <= limit);
    }
    disk
}

#[test]
fn the_first_or_the_last_dumps_are_left() {
    for k in 0..7u64 {
        for limit in 1..4u64 {
            let kept = k.min(limit);
            let first: Vec<String> = (0..kept).map(|i| format!("{i}")).collect();
            let last: Vec<String> = (k - kept..k).map(|i| format!("{i}")).collect();
            assert_eq!(left_after(k, limit, LimitPolicy::KeepOldest), first);
            assert_eq!(left_after(k, limit, LimitPolicy::KeepNewest), last);
        }
    }
}
