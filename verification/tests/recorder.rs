//! Clocks, span ids and the recorder.

use backbeat::recorder::{base_from, reading, Clock, ManualClock, Recorder, SystemClock};
use backbeat::span::{instance_id_from, mix64, seed_for, SeedSource, SpanIds};
use backbeat::wire::DumpReader;
use bytes::Bytes;
use std::sync::Arc;

#[test]
fn disabled_records_nothing() {
    let rec = Recorder::new(1, 4096).with_clock(ManualClock::new(0));
    // No event type needed: a disabled recorder returns before touching the event.
    assert!(!rec.is_enabled());
    let bytes = rec.dump(&[], &[], &[], "");
    let r = DumpReader::new(Bytes::from(bytes)).unwrap();
    let shards = r.shards().unwrap();
    assert_eq!(shards.len(), 1);
    // Head is 0: nothing was written.
    assert_eq!(shards[0].head, 0);
}

#[test]
fn span_id_is_unique_and_monotonic_per_thread() {
    let rec = Recorder::new(1, 4096).with_clock(ManualClock::new(0));
    let mut ids = SpanIds::new(seed_for(0));
    let a = rec.new_span_id(&mut ids);
    let b = rec.new_span_id(&mut ids);
    // Same thread → same low-16 seed, strictly increasing high-48 counter.
    assert_eq!(a & 0xFFFF, b & 0xFFFF);
    assert!(b >> 16 > a >> 16);
}

#[test]
fn dump_carries_instance_id() {
    let rec = Recorder::new(1, 4096).with_clock(ManualClock::new(0));
    let bytes = rec.dump(&[], &[], &[], "host-x");
    let metas = DumpReader::new(Bytes::from(bytes))
        .unwrap()
        .metas()
        .unwrap();
    assert_eq!(metas.len(), 1);
    assert_eq!(metas[0].instance_id, rec.instance_id());
    assert_eq!(metas[0].host, "host-x");
}

#[test]
fn capture_feature_gates_enable() {
    let mut rec = Recorder::new(1, 4096).with_clock(ManualClock::new(0));
    rec.set_enabled(true);
    assert_eq!(rec.is_enabled(), true);
    rec.set_enabled(false);
    assert_eq!(rec.is_enabled(), false);
}

#[test]
fn dumps_carry_views_and_interned_strings() {
    let rec = Recorder::new(2, 1000);
    assert_eq!(rec.num_shards(), 2);
    let bytes = rec.dump(&[], &[(3, b"three".as_slice())], &["a;", "b;"], "");
    let r = DumpReader::new(Bytes::from(bytes)).unwrap();
    assert_eq!(r.views().unwrap(), ["a;", "b;"]);
    let tables = r.intern_tables().unwrap();
    assert_eq!(tables.len(), 1);
    assert_eq!(tables[0].entries, [(3, b"three".to_vec())]);
    let shards = r.shards().unwrap();
    assert_eq!(shards.len(), 2);
    assert_eq!(shards[1].capacity, 1024);
}

#[test]
fn clocks_read_their_base_and_what_has_passed() {
    assert_eq!(base_from(Some(5)), 5);
    assert_eq!(base_from(None), 0);
    assert_eq!(reading(None, 10, 5), 15);
    assert_eq!(reading(None, u64::MAX, 2), 1);
    assert_eq!(reading(Some(3), 10, 5), 3);
    let mut c = ManualClock::new(7);
    assert_eq!(c.advance(3), 10);
    assert_eq!(c.now_nanos(), 10);
    assert_eq!(Arc::new(c).now_nanos(), 10);
    // A wall clock is past 2020 and does not go back.
    let s = SystemClock::new();
    let a = s.now_nanos();
    let b = s.now_nanos();
    assert!(a > 1_577_836_800_000_000_000);
    assert!(b >= a);
}

#[test]
fn recorders_are_told_apart() {
    assert_ne!(
        Recorder::new(1, 64).instance_id(),
        Recorder::new(1, 64).instance_id()
    );
}

#[test]
fn span_ids_hold_the_counter_and_the_seed() {
    let mut ids = SpanIds::new(0xABCD);
    assert_eq!(ids.mint(), 0x1_ABCD);
    assert_eq!(ids.mint(), 0x2_ABCD);
    let rec = Recorder::new(1, 64);
    assert_eq!(rec.new_span_id(&mut ids), 0x3_ABCD);
}

#[test]
fn recorders_of_one_thread_mint_from_one_source() {
    let mut seeds = SeedSource::new();
    let mut here = SpanIds::new(seeds.next_seed());
    let mut there = SpanIds::new(seeds.next_seed());
    let first = Recorder::new(1, 64);
    let second = Recorder::new(1, 64).with_clock(ManualClock::new(0));
    let a = first.new_span_id(&mut here);
    let b = second.new_span_id(&mut here);
    let c = first.new_span_id(&mut here);
    assert_eq!(a, 0x1_0000 + seed_for(0) as u64);
    assert_eq!(b, 0x2_0000 + seed_for(0) as u64);
    assert_eq!(c, 0x3_0000 + seed_for(0) as u64);
    // Another thread has another seed.
    let d = first.new_span_id(&mut there);
    assert_eq!(d >> 16, 1);
    assert_ne!(a & 0xFFFF, d & 0xFFFF);
}

#[test]
fn mixing_matches_splitmix() {
    // The first two outputs of splitmix64 from seed 0.
    assert_eq!(mix64(0x9e37_79b9_7f4a_7c15), 0xe220_a839_7b1d_cdaf);
    assert_eq!(mix64(0x3c6e_f372_fe94_f82a), 0x6e78_9e6a_a1b9_65f4);
    assert_eq!(mix64(0), 0);
    assert_eq!(instance_id_from(1, 2), mix64(1 ^ mix64(2)));
    assert_eq!(seed_for(0), 0xcdaf);
}

#[test]
fn seeds_are_distinct_until_all_are_used() {
    let mut source = SeedSource::new();
    let mut seen = vec![false; 0x1_0000];
    assert_eq!(source.next_seed(), seed_for(0));
    seen[seed_for(0) as usize] = true;
    for _ in 1..0x1_0000u32 {
        let seed = source.next_seed() as usize;
        assert!(!seen[seed]);
        seen[seed] = true;
    }
    assert_eq!(source.next_seed(), seed_for(0x1_0000));
}

#[test]
fn simulated_time_takes_the_place_of_the_wall_clock() {
    let clock = SystemClock::new();
    assert_ne!(clock.now_nanos(), 0);
    // A simulation starts at the epoch.
    assert_eq!(bach::sim(|| clock.now_nanos()), 0);
    assert_ne!(clock.now_nanos(), 0);
}
