//! Laws of the library, on chosen values.

use backbeat::calendar::{format_utc_millis, unique_stamp};
use backbeat::convert::convert;
use backbeat::id::{EventId, Fnv};
use backbeat::merge::merge;
use backbeat::model::{load, load_many, Input};
use backbeat::ring::{walk_indexed, Ring};
use backbeat::schema::{EventSchema, FieldRole, FieldSchema, FieldType, Phase};
use backbeat::stream::unique_records;
use backbeat::text::{dec, hex, normalized, parse_number, same_text, trim};
use backbeat::wire::DumpWriter;
use bytes::Bytes;

fn field(role: FieldRole) -> FieldSchema {
    FieldSchema {
        name: "f",
        description: None,
        ty: FieldType::U64,
        offset: 0,
        width: 8,
        role,
        unit: None,
        sentinel: None,
        enum_labels: &[],
    }
}

#[test]
fn one_byte_forks_the_hash() {
    let of = |s: &str| EventId::of(s).get();
    assert_ne!(of("abcdef"), of("abcdeg"));
    assert_ne!(of("abcdef"), of("bbcdef"));
    assert_ne!(Fnv::new().byte(0).finish(), Fnv::new().byte(255).finish());
}

#[test]
fn roles_and_phases_fork_the_id() {
    let plain = [field(FieldRole::Plain), field(FieldRole::Plain)];
    let keyed = [field(FieldRole::Plain), field(FieldRole::Key)];
    let id = |p: Phase, f: &[FieldSchema]| EventSchema::compute_id("n::E", p, f);
    assert_ne!(id(Phase::Instant, &plain), id(Phase::Instant, &keyed));
    assert_ne!(id(Phase::Enter, &plain), id(Phase::Exit, &plain));
}

#[test]
fn stamps_of_a_run_are_distinct() {
    let times = [5u64, 5, 5, 6, 6, 900_000_000_000, 900_000_000_000];
    let mut stamps: Vec<String> = Vec::new();
    let mut prev = String::new();
    for t in times {
        prev = unique_stamp(t, &prev);
        assert!(!stamps.contains(&prev));
        stamps.push(prev.clone());
    }
    assert_eq!(stamps[2], format!("{}-2", format_utc_millis(5)));
    assert_eq!(stamps[3], format_utc_millis(6));
}

#[test]
fn numbers_round_trip_through_text() {
    for n in [0u64, 7, 10, 99, 12345, u64::MAX] {
        assert_eq!(parse_number(&dec(n), u64::MAX), Some(n));
    }
    assert_eq!(parse_number("+12", 100), Some(12));
    assert_eq!(parse_number("101", 100), None);
    assert_eq!(parse_number("", 100), None);
    assert_eq!(parse_number("+", 100), None);
    assert_eq!(parse_number("-1", 100), None);
    assert_eq!(parse_number("1a", 100), None);
    assert_eq!(parse_number("99999999999999999999999", u64::MAX), None);
    assert_eq!(parse_number("007", 100), Some(7));
}

#[test]
fn texts_are_trimmed_and_lowered() {
    assert_eq!(trim(" \t a b\u{3000}\n"), "a b");
    assert_eq!(trim("   "), "");
    assert_eq!(normalized(" ABC\u{c9} "), "abc\u{c9}");
    assert!(same_text("abc", "abc"));
    assert!(!same_text("abc", "abd"));
    assert_eq!(hex(&[0, 0xab, 0xff]), "00abff");
}

#[test]
fn records_of_a_walk_stand_apart() {
    let mut ring = Ring::new(256);
    for i in 0u8..60 {
        ring.push(&vec![i; 1 + i as usize % 7]);
    }
    let mut region = vec![0u8; ring.capacity()];
    let head = ring.snapshot_into(&mut region);
    let found = walk_indexed(&Bytes::from(region), head, 256, |p: &[u8]| {
        !p.is_empty() && p.iter().all(|b| *b == p[0]) && p.len() == 1 + p[0] as usize % 7
    });
    assert_eq!(&found[0].payload[..], &[59u8; 4]);
    for i in 0..found.len() {
        for j in 0..i {
            assert!(found[i].offset != found[j].offset);
        }
    }
    assert!(found.iter().filter(|w| w.offset.is_none()).count() <= 1);
}

const FIELDS: &[FieldSchema] = &[FieldSchema {
    name: "n",
    description: None,
    ty: FieldType::U64,
    offset: 0,
    width: 8,
    role: FieldRole::Plain,
    unit: None,
    sentinel: None,
    enum_labels: &[],
}];

fn schema() -> EventSchema {
    EventSchema {
        id: EventSchema::compute_id("t::N", Phase::Instant, FIELDS),
        qualified_name: "t::N",
        description: None,
        record_size: 8,
        phase: Phase::Instant,
        fields: FIELDS,
    }
}

/// A dump of one instance with the numbers `from..to`, one per nanosecond.
fn dump(instance: u64, from: u64, to: u64) -> Vec<u8> {
    dump_of("h", instance, from, to)
}

fn dump_of(host: &str, instance: u64, from: u64, to: u64) -> Vec<u8> {
    let id = schema().id.get();
    let mut ring = Ring::new(1024);
    for n in from..to {
        ring.push_parts(&[&n.to_le_bytes(), &id.to_le_bytes(), &n.to_le_bytes()]);
    }
    let mut region = vec![0u8; ring.capacity()];
    let head = ring.snapshot_into(&mut region);
    let mut w = DumpWriter::new();
    w.schema_registry(&[&schema()]);
    w.shard(instance, 0, head as u64, &region);
    w.meta(instance, host);
    w.finish()
}

fn input(bytes: Vec<u8>) -> Input {
    Input {
        path: "in.bb".to_string(),
        bytes: Bytes::from(bytes),
    }
}

#[test]
fn merging_a_merged_dump_changes_nothing() {
    let once = merge(&[input(dump(2, 0, 5)), input(dump(1, 2, 8))], true)
        .ok()
        .unwrap();
    let twice = merge(&[input(once.bytes.clone())], true).ok().unwrap();
    assert_eq!(once.schemas, 1);
    let a = load("a", Bytes::from(once.bytes)).ok().unwrap();
    let b = load("b", Bytes::from(twice.bytes)).ok().unwrap();
    let rows = |v: &Vec<backbeat::model::Loaded>| -> Vec<(u64, u64, Vec<u8>)> {
        unique_records(v)
            .iter()
            .map(|r| (r.ts_nanos, r.loaded.instance_id, r.fields.to_vec()))
            .collect()
    };
    assert_eq!(rows(&a), rows(&b));
    assert_eq!(rows(&a).len(), 11);
    // The instances are in ascending order, and each record has all its bytes.
    assert_eq!(a[0].instance_id, 1);
    assert_eq!(a[1].instance_id, 2);
    for l in &a {
        for r in l.records() {
            assert_eq!(
                r.fields.len(),
                l.schemas[r.schema_idx].record_size as usize
            );
        }
    }
}

#[test]
fn a_merged_dump_hands_the_first_host_on() {
    let inputs = [
        input(dump_of("early", 3, 0, 5)),
        input(dump_of("late", 8, 2, 6)),
        input(dump_of("early", 3, 4, 9)),
    ];
    let separate = convert(&load_many(&inputs).ok().unwrap(), "");
    assert_eq!(
        separate.footer[1],
        ("backbeat.host".to_string(), "early".to_string())
    );
    for dedup in [true, false] {
        let merged = merge(&inputs, dedup).ok().unwrap();
        let again = load("m", Bytes::from(merged.bytes)).ok().unwrap();
        assert_eq!(convert(&again, "").footer, separate.footer);
        let named = convert(&again, "box");
        assert_eq!(
            named.footer[1],
            ("backbeat.host".to_string(), "box".to_string())
        );
    }
    // In the other order the first of the inputs is not the first of the merged dump.
    let inputs = [
        input(dump_of("late", 8, 2, 6)),
        input(dump_of("early", 3, 0, 5)),
    ];
    let merged = merge(&inputs, true).ok().unwrap();
    let again = load("m", Bytes::from(merged.bytes)).ok().unwrap();
    assert_eq!(convert(&again, "").footer[1].1, "early");
    assert_eq!(convert(&load_many(&inputs).ok().unwrap(), "").footer[1].1, "late");
}

#[test]
fn records_of_one_time_are_ordered_by_instance() {
    let both = [
        load("a", Bytes::from(dump(9, 0, 3))).ok().unwrap().remove(0),
        load("b", Bytes::from(dump(4, 0, 3))).ok().unwrap().remove(0),
    ];
    let order: Vec<(u64, u64)> = unique_records(&both)
        .iter()
        .map(|r| (r.ts_nanos, r.loaded.instance_id))
        .collect();
    assert_eq!(order, [(0, 4), (0, 9), (1, 4), (1, 9), (2, 4), (2, 9)]);
}

#[test]
fn the_newest_records_read_back() {
    // 26 bytes each: nine whole records fit into 256.
    let id = schema().id.get();
    let mut ring = Ring::new(256);
    for n in 0u64..50 {
        ring.push_parts(&[&n.to_le_bytes(), &id.to_le_bytes(), &(n * n).to_le_bytes()]);
    }
    let mut region = vec![0u8; ring.capacity()];
    let head = ring.snapshot_into(&mut region);
    let mut w = DumpWriter::new();
    w.schema_registry(&[&schema()]);
    w.shard(7, 0, head as u64, &region);
    let dumps = load("a", Bytes::from(w.finish())).ok().unwrap();
    assert_eq!(dumps.len(), 1);
    assert_eq!(dumps[0].instance_id, 7);
    let got: Vec<(u64, Vec<u8>)> = dumps[0]
        .records()
        .iter()
        .map(|r| (r.ts_nanos, r.fields.to_vec()))
        .collect();
    let want: Vec<(u64, Vec<u8>)> = (41u64..50)
        .map(|n| (n, (n * n).to_le_bytes().to_vec()))
        .collect();
    assert_eq!(got, want);
}
