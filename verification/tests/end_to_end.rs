//! Record events, dump them, read the dump back, and convert, trace, inspect and merge it.

use backbeat::convert::{
    build_batch, column_kind, convert, event_metadata, field_metadata, ColumnKind, Conversion, Row,
};
use backbeat::decode::{decode_field, Value};
use backbeat::event::Event;
use backbeat::id::EventId;
use backbeat::inspect::{count_lines, inspect};
use backbeat::intern::InternTable;
use backbeat::merge::{merge, MergeError};
use backbeat::model::{load, load_many, Input, InputError, LoadError, Loaded};
use backbeat::record::RecordView;
use backbeat::recorder::{ManualClock, Recorder};
use backbeat::ring::{walk, Ring};
use backbeat::schema::{EnumLabel, EventSchema, FieldRole, FieldSchema, FieldType, Phase};
use backbeat::span::SpanIds;
use backbeat::stream::{merge_records, unique_records};
use backbeat::trace::{build_events, category_of, decode_json, read_u64, Json, TraceKind};
use backbeat::wire::{DumpReader, DumpWriter, Error, OwnedEnumLabel, OwnedField, OwnedSchema};
use bytes::Bytes;
use std::cell::Cell;

const ROLE: &[EnumLabel] = &[
    EnumLabel {
        value: 0,
        label: "Client",
    },
    EnumLabel {
        value: 1,
        label: "Server",
    },
];

const fn plain(name: &'static str, ty: FieldType, offset: u16, width: u16) -> FieldSchema {
    FieldSchema {
        name,
        description: None,
        ty,
        offset,
        width,
        role: FieldRole::Plain,
        unit: None,
        sentinel: None,
        enum_labels: &[],
    }
}

const CONNECT: &[FieldSchema] = &[
    FieldSchema {
        description: Some("The connection id."),
        role: FieldRole::Key,
        ..plain("conn_id", FieldType::U64, 0, 8)
    },
    FieldSchema {
        unit: Some("bytes"),
        ..plain("window", FieldType::U32, 8, 4)
    },
    FieldSchema {
        enum_labels: ROLE,
        ..plain("role", FieldType::Enum { repr: 1 }, 12, 1)
    },
    plain("_pad", FieldType::Bytes, 13, 3),
];

const PACKET_SENT: &[FieldSchema] = &[
    FieldSchema {
        role: FieldRole::Key,
        ..plain("conn_id", FieldType::U64, 0, 8)
    },
    FieldSchema {
        role: FieldRole::Key,
        ..plain("packet_number", FieldType::U64, 8, 8)
    },
    plain("len", FieldType::U32, 16, 4),
    plain("is_fin", FieldType::Bool, 20, 1),
    plain("_pad", FieldType::Bytes, 21, 3),
];

const REQUEST_START: &[FieldSchema] = &[
    FieldSchema {
        role: FieldRole::SpanId,
        ..plain("span", FieldType::U64, 0, 8)
    },
    FieldSchema {
        role: FieldRole::ParentSpanId,
        ..plain("parent", FieldType::U64, 8, 8)
    },
];

const REQUEST_END: &[FieldSchema] = &[
    FieldSchema {
        role: FieldRole::SpanId,
        ..plain("span", FieldType::U64, 0, 8)
    },
    FieldSchema {
        description: Some("Bytes written during the request — captured at drop time."),
        ..plain("bytes", FieldType::U64, 8, 8)
    },
];

fn schema_of(
    qualified_name: &'static str,
    description: &'static str,
    record_size: u16,
    phase: Phase,
    fields: &'static [FieldSchema],
) -> EventSchema {
    EventSchema {
        id: EventSchema::compute_id(qualified_name, phase, fields),
        qualified_name,
        description: Some(description),
        record_size,
        phase,
        fields,
    }
}

struct Connect([u8; 16]);

impl Event for Connect {
    fn schema() -> EventSchema {
        schema_of(
            "test::net::Connect",
            "A connection was opened.",
            16,
            Phase::Instant,
            CONNECT,
        )
    }

    fn id() -> EventId {
        Self::schema().id
    }

    fn qualified_name() -> &'static str {
        "test::net::Connect"
    }

    fn as_bytes(&self) -> &[u8] {
        &self.0
    }
}

fn connect(conn_id: u64, window: u32, role: u8) -> Connect {
    let mut raw = [0u8; 16];
    raw[..8].copy_from_slice(&conn_id.to_le_bytes());
    raw[8..12].copy_from_slice(&window.to_le_bytes());
    raw[12] = role;
    Connect(raw)
}

struct PacketSent([u8; 24]);

impl Event for PacketSent {
    fn schema() -> EventSchema {
        schema_of(
            "test::net::PacketSent",
            "A packet was sent.",
            24,
            Phase::Instant,
            PACKET_SENT,
        )
    }

    fn id() -> EventId {
        Self::schema().id
    }

    fn qualified_name() -> &'static str {
        "test::net::PacketSent"
    }

    fn as_bytes(&self) -> &[u8] {
        &self.0
    }
}

fn packet_sent(conn_id: u64, packet_number: u64, len: u32, is_fin: bool) -> PacketSent {
    let mut raw = [0u8; 24];
    raw[..8].copy_from_slice(&conn_id.to_le_bytes());
    raw[8..16].copy_from_slice(&packet_number.to_le_bytes());
    raw[16..20].copy_from_slice(&len.to_le_bytes());
    raw[20] = is_fin as u8;
    PacketSent(raw)
}

struct RequestStart([u8; 16]);

impl Event for RequestStart {
    fn schema() -> EventSchema {
        schema_of(
            "test::work::RequestStart",
            "A request began.",
            16,
            Phase::Enter,
            REQUEST_START,
        )
    }

    fn id() -> EventId {
        Self::schema().id
    }

    fn qualified_name() -> &'static str {
        "test::work::RequestStart"
    }

    fn as_bytes(&self) -> &[u8] {
        &self.0
    }
}

struct RequestEnd([u8; 16]);

impl Event for RequestEnd {
    fn schema() -> EventSchema {
        schema_of(
            "test::work::RequestEnd",
            "A request finished.",
            16,
            Phase::Exit,
            REQUEST_END,
        )
    }

    fn id() -> EventId {
        Self::schema().id
    }

    fn qualified_name() -> &'static str {
        "test::work::RequestEnd"
    }

    fn as_bytes(&self) -> &[u8] {
        &self.0
    }
}

fn two(a: u64, b: u64) -> [u8; 16] {
    let mut raw = [0u8; 16];
    raw[..8].copy_from_slice(&a.to_le_bytes());
    raw[8..].copy_from_slice(&b.to_le_bytes());
    raw
}

fn request_start(span: u64, parent: u64) -> RequestStart {
    RequestStart(two(span, parent))
}

fn request_end(span: u64, written: u64) -> RequestEnd {
    RequestEnd(two(span, written))
}

fn dump_of(rec: &Recorder<ManualClock>) -> Vec<u8> {
    rec.dump(
        &[
            &Connect::schema(),
            &PacketSent::schema(),
            &RequestStart::schema(),
            &RequestEnd::schema(),
        ],
        &[],
        &[],
        "",
    )
}

/// Drives the recorder with a manual clock so timestamps are deterministic and ordered.
fn dump_with_three_records() -> Vec<u8> {
    let mut rec = Recorder::new(1, 64 * 1024).with_clock(ManualClock::new(1000));
    rec.set_enabled(true);
    // Advance the clock between records so global order is well-defined.
    rec.record(0, &connect(7, 65535, 1));
    rec.clock().advance(10);
    rec.record(0, &packet_sent(7, 0, 1200, false));
    rec.clock().advance(10);
    rec.record(0, &packet_sent(7, 1, 40, true));
    dump_of(&rec)
}

#[test]
fn dump_round_trips_through_reader() {
    let bytes = dump_with_three_records();
    let reader = DumpReader::new(Bytes::from(bytes)).unwrap();

    // Registry carries both events with descriptions/keys intact.
    let schemas = reader.schemas().unwrap();
    let connect = schemas
        .iter()
        .find(|s| s.qualified_name == "test::net::Connect")
        .unwrap();
    assert_eq!(
        connect.description.as_deref(),
        Some("A connection was opened.")
    );
    assert_eq!(
        connect
            .fields
            .iter()
            .find(|f| f.name == "conn_id")
            .unwrap()
            .role,
        FieldRole::Key
    );

    // Walk the single shard and count records via the shared record framing.
    let shards = reader.shards().unwrap();
    assert_eq!(shards.len(), 1);
    let known: std::collections::HashSet<u64> = schemas.iter().map(|s| s.id.get()).collect();
    let sizes: std::collections::HashMap<u64, usize> = schemas
        .iter()
        .map(|s| (s.id.get(), s.record_size as usize))
        .collect();
    let found = walk(
        &shards[0].region,
        shards[0].head as usize,
        shards[0].capacity as usize,
        |p: &[u8]| match RecordView::parse(p) {
            Some(rec) => {
                known.contains(&rec.event_id.get())
                    && sizes.get(&rec.event_id.get()) == Some(&rec.fields.len())
            }
            None => false,
        },
    );
    let tss: Vec<u64> = found
        .iter()
        .map(|p| RecordView::parse(p).unwrap().ts_nanos)
        .collect();
    // Three records, newest-first: ts 1020, 1010, 1000.
    assert_eq!(tss, [1020, 1010, 1000]);
}

#[test]
fn span_guard_records_enter_and_exit_with_paired_id() {
    let mut rec = Recorder::new(1, 64 * 1024).with_clock(ManualClock::new(100));
    rec.set_enabled(true);

    let bytes_written = Cell::new(0u64);
    let mut ids = SpanIds::new(7);
    let span = rec.enter(
        0,
        &mut ids,
        |id| request_start(id, 0),
        |id| request_end(id, bytes_written.get()),
    );
    // A child event would thread `span.id()` into its parent_span_id; assert the id is exposed.
    assert_ne!(span.id(), 0);
    rec.clock().advance(50);
    bytes_written.set(4096);
    // The exit is recorded at ts 150 with bytes = 4096.
    span.exit(0, &mut rec);

    let start_id = RequestStart::id().get();
    let end_id = RequestEnd::id().get();
    let reader = DumpReader::new(Bytes::from(dump_of(&rec))).unwrap();
    let owned_schemas = reader.schemas().unwrap();
    let by_id: std::collections::HashMap<u64, &OwnedSchema> =
        owned_schemas.iter().map(|s| (s.id.get(), s)).collect();
    let shards = reader.shards().unwrap();

    // Collect (event_id, ts, span_id) for each record by reading the span_id field via the schema.
    let found = walk(
        &shards[0].region,
        shards[0].head as usize,
        shards[0].capacity as usize,
        |p: &[u8]| match RecordView::parse(p) {
            Some(r) => match by_id.get(&r.event_id.get()) {
                Some(s) => r.fields.len() == s.record_size as usize,
                None => false,
            },
            None => false,
        },
    );
    let mut records: Vec<(u64, u64, u64)> = Vec::new();
    let mut payloads: Vec<u64> = Vec::new();
    for p in &found {
        let r = RecordView::parse(p).unwrap();
        let span_field = by_id[&r.event_id.get()]
            .span_id()
            .expect("span event has a span_id");
        let off = span_field.offset as usize;
        let span_id = u64::from_le_bytes(r.fields[off..off + 8].try_into().unwrap());
        records.push((r.event_id.get(), r.ts_nanos, span_id));
        payloads.push(u64::from_le_bytes(r.fields[8..16].try_into().unwrap()));
    }

    // Newest-first: exit then enter. Both carry the same span id; timestamps bracket the work.
    assert_eq!(records.len(), 2);
    let (exit, enter) = (&records[0], &records[1]);
    assert_eq!(exit.0, end_id);
    assert_eq!(enter.0, start_id);
    assert_eq!(enter.2, exit.2, "enter and exit share the span id");
    assert_eq!(enter.1, 100, "enter recorded at start time");
    assert_eq!(exit.1, 150, "exit recorded at drop time");
    assert_eq!(payloads, [4096, 0]);

    // The two schemas carry their phases.
    assert_eq!(by_id[&start_id].phase, Phase::Enter);
    assert_eq!(by_id[&end_id].phase, Phase::Exit);
}

#[test]
fn inspect_reports_counts() {
    let text = inspect(Bytes::from(dump_with_three_records())).unwrap();
    assert!(text.contains("test::net::Connect: 1"), "{text}");
    assert!(text.contains("test::net::PacketSent: 2"), "{text}");
    assert!(text.contains("3 total"), "{text}");
}

#[test]
fn inspect_fails_where_the_dump_does_not_decode() {
    assert_eq!(
        inspect(Bytes::from(b"nope".to_vec())),
        Err(Error::UnexpectedEof)
    );
    assert_eq!(count_lines("a\nb"), 2);
    assert_eq!(count_lines("a\nb\n"), 2);
    assert_eq!(count_lines(""), 0);
}

fn loaded(path: &str, bytes: Vec<u8>) -> Vec<Loaded> {
    load(path, Bytes::from(bytes)).ok().unwrap()
}

#[test]
fn convert_writes_readable_parquet() {
    let dumps = loaded("in.bb", dump_with_three_records());
    let c = convert(&dumps, "");
    let t = &c.table;
    // Dense common columns exist.
    assert_eq!(t.seq, [0, 1, 2]);
    assert_eq!(t.event_id.len(), 3);
    assert_eq!(t.instance_id, vec![dumps[0].instance_id; 3]);
    // Promoted key columns exist (unioned across both events).
    let conn = t.keys.iter().find(|k| k.name == "conn_id").unwrap();
    let number = t.keys.iter().find(|k| k.name == "packet_number").unwrap();
    // Per-event struct columns exist.
    let connect = t
        .events
        .iter()
        .find(|e| e.name == "test::net::Connect")
        .unwrap();
    let packet = t
        .events
        .iter()
        .find(|e| e.name == "test::net::PacketSent")
        .unwrap();

    // Rows are ordered by ts_nanos.
    assert_eq!(t.ts_nanos, [1000, 1010, 1020]);

    // The first row is the Connect; its event column says so and conn_id key is promoted.
    assert_eq!(t.event[0], "test::net::Connect");
    assert_eq!(t.event[1], "test::net::PacketSent");
    assert_eq!(conn.values[0], Some(Value::U64(7)));
    assert_eq!(number.values[0], None);
    assert_eq!(number.values[2], Some(Value::U64(1)));

    // The Connect struct column carries the non-key fields for row 0 and is null for the packets.
    assert_eq!(connect.valid, [true, false, false]);
    assert_eq!(packet.valid, [false, true, true]);
    // The enum field rendered as its label.
    let role = connect.children.iter().find(|c| c.name == "role").unwrap();
    assert_eq!(role.values[0], Some(Value::Str("Server".to_string())));
    let is_fin = packet.children.iter().find(|c| c.name == "is_fin").unwrap();
    assert_eq!(
        is_fin.values,
        [None, Some(Value::Bool(false)), Some(Value::Bool(true))]
    );

    // The footer carries the format and the query DDL; without a host there is no label.
    let keys: Vec<&str> = c.footer.iter().map(|e| e.0.as_str()).collect();
    assert_eq!(keys, ["backbeat.format", "backbeat.views"]);
    assert_eq!(c.footer[1].1, c.ddl);
    let named = convert(&dumps, "box");
    assert_eq!(
        named.footer[1],
        ("backbeat.host".to_string(), "box".to_string())
    );
}

/// Records a span.
fn dump_one_span() -> Vec<u8> {
    let mut rec = Recorder::new(1, 64 * 1024).with_clock(ManualClock::new(100));
    rec.set_enabled(true);
    let mut ids = SpanIds::new(7);
    let span = rec.enter(
        0,
        &mut ids,
        |id| request_start(id, 0),
        |id| request_end(id, 4096),
    );
    rec.clock().advance(50);
    span.exit(0, &mut rec);
    dump_of(&rec)
}

#[test]
fn convert_writes_chrome_trace_json() {
    let dumps = loaded("in.bb", dump_one_span());
    let events = build_events(&dumps);
    assert!(
        events.len() >= 2,
        "expected at least the enter/exit pair, got {}",
        events.len()
    );

    // Find the begin and end async events for the span; they must share one id.
    let begin = events
        .iter()
        .find(|e| e.kind.ph() == "b")
        .expect("a begin event");
    let end = events
        .iter()
        .find(|e| e.kind.ph() == "e")
        .expect("an end event");
    assert_eq!(begin.name, "test::work::RequestStart");
    assert_eq!(end.name, "test::work::RequestEnd");
    assert!(begin.id.is_some());
    assert_eq!(begin.id, end.id, "enter/exit pair by the same id");
    // ts is microseconds: enter at 100ns = 0.1µs, exit at 150ns = 0.15µs.
    assert_eq!(begin.ts_nanos as f64 / 1000.0, 0.1);
    assert_eq!(end.ts_nanos as f64 / 1000.0, 0.15);
    // The exit carried its drop-time payload.
    let arg = end.args.iter().find(|a| a.0 == "bytes").unwrap();
    assert_eq!(arg.1, Json::U64(4096));
    assert_eq!(begin.cat, end.cat);
    assert_eq!(begin.pid, dumps[0].instance_id);
}

#[test]
fn convert_merges_multiple_dumps() {
    // Two independent dumps (distinct instance_ids) merge into one table, rows keyed per-dump.
    let mut l1 = loaded("a.bb", dump_with_three_records());
    let mut l2 = loaded("b.bb", dump_with_three_records());
    // Each single-process dump loads as exactly one instance, with its own random instance_id.
    assert_eq!(l1.len(), 1);
    assert_eq!(l2.len(), 1);
    assert_ne!(
        l1[0].instance_id, l2[0].instance_id,
        "each Recorder gets its own instance_id"
    );
    let dumps = vec![l1.remove(0), l2.remove(0)];
    assert_eq!(
        convert(&dumps, "").table.seq.len(),
        6,
        "both dumps' records present"
    );
}

fn input(path: &str, bytes: &[u8]) -> Input {
    Input {
        path: path.to_string(),
        bytes: Bytes::from(bytes.to_vec()),
    }
}

fn same_tables(a: &Conversion, b: &Conversion) -> bool {
    let (t, u) = (&a.table, &b.table);
    t.seq == u.seq
        && t.ts_nanos == u.ts_nanos
        && t.event == u.event
        && t.event_id == u.event_id
        && t.instance_id == u.instance_id
        && t.keys.len() == u.keys.len()
        && t.keys
            .iter()
            .zip(&u.keys)
            .all(|(k, l)| k.name == l.name && k.metadata == l.metadata && k.values == l.values)
        && t.events.len() == u.events.len()
        && t.events.iter().zip(&u.events).all(|(e, f)| {
            e.name == f.name
                && e.valid == f.valid
                && e.children
                    .iter()
                    .zip(&f.children)
                    .all(|(k, l)| k.name == l.name && k.values == l.values)
        })
        && a.ddl == b.ddl
}

#[test]
fn merge_then_convert_equals_convert_both() {
    // Merging two dumps into one `.bb` and converting that must yield exactly what converting the
    // two source dumps together does: same instances, same intern tables, same row count.
    let inputs = [
        input("a.bb", &dump_with_three_records()),
        input("b.bb", &dump_with_three_records()),
    ];

    // Merge into one multi-instance file.
    let merged = merge(&inputs, true).ok().unwrap();
    assert!(merged.schemas >= 2, "registry unions both events");

    // The merged file decodes to two instances — exactly what loading the sources separately gives.
    let from_merged = loaded("merged.bb", merged.bytes);
    assert_eq!(from_merged.len(), 2, "two instances in the merged dump");

    let separate = load_many(&inputs).ok().unwrap();
    assert_eq!(separate.len(), 2);

    // Same set of instance_ids, same per-instance record counts (order-independent).
    let mut merged_ids: Vec<u64> = from_merged.iter().map(|l| l.instance_id).collect();
    let mut sep_ids: Vec<u64> = separate.iter().map(|l| l.instance_id).collect();
    merged_ids.sort_unstable();
    sep_ids.sort_unstable();
    assert_eq!(merged_ids, sep_ids);
    for l in &from_merged {
        assert_eq!(l.record_count(), 3, "each instance keeps its three records");
        assert_eq!(l.records().len(), 3);
    }

    // Converting the merged file produces the same rows as converting both sources.
    let c_merged = convert(&from_merged, "");
    let c_separate = convert(&separate, "");
    assert_eq!(c_merged.table.seq.len(), 6);
    assert!(same_tables(&c_merged, &c_separate));

    // So does converting a splice of them.
    let spliced = merge(&inputs, false).ok().unwrap();
    let c_spliced = convert(&loaded("spliced.bb", spliced.bytes), "");
    assert!(same_tables(&c_spliced, &c_separate));
}

/// Two overlapping snapshots of the *same* recorder: the second dump re-contains the first's
/// records (a real merge scenario — successive dumps share the ring). Merging must collapse the
/// overlap to one row per distinct event; a splice must keep the duplicates.
#[test]
fn merge_dedups_overlapping_dumps_of_one_recorder() {
    let mut rec = Recorder::new(1, 64 * 1024).with_clock(ManualClock::new(1000));
    rec.set_enabled(true);

    // First snapshot: three packets.
    for n in 0..3u64 {
        rec.record(0, &packet_sent(1, n, 100, false));
        rec.clock().advance(10);
    }
    let d1 = dump_of(&rec);

    // Three more, then a second snapshot — which still holds all six (the ring is large).
    for n in 3..6u64 {
        rec.record(0, &packet_sent(1, n, 100, false));
        rec.clock().advance(10);
    }
    let d2 = dump_of(&rec);
    let inputs = [input("d1.bb", &d1), input("d2.bb", &d2)];

    // d2 alone holds all six; d1 holds the first three — so the raw set is nine, six distinct.
    let raw = load_many(&inputs).ok().unwrap();
    let raw_total: usize = raw.iter().map(|l| l.record_count()).sum();
    assert_eq!(
        raw_total, 9,
        "both dumps overlap on the first three records"
    );
    assert_eq!(
        unique_records(&raw).len(),
        6,
        "six distinct events after dedup"
    );

    // Default merge dedups + trims: the merged file decodes to exactly six records.
    let merged = merge(&inputs, true).ok().unwrap();
    let from_merged = loaded("merged.bb", merged.bytes);
    assert_eq!(from_merged.len(), 1, "one instance");
    assert_eq!(
        from_merged[0].record_count(),
        6,
        "merge trimmed the three duplicates"
    );
    // The packet numbers 0..6 are all present and unique.
    let mut nums: Vec<u64> = from_merged[0]
        .records()
        .iter()
        .map(|r| u64::from_le_bytes(r.fields[8..16].try_into().unwrap()))
        .collect();
    nums.sort_unstable();
    assert_eq!(nums, vec![0, 1, 2, 3, 4, 5]);

    // A splice keeps the raw overlap: nine records spliced through.
    let spliced = merge(&inputs, false).ok().unwrap();
    let from_spliced = loaded("spliced.bb", spliced.bytes);
    let spliced_total: usize = from_spliced.iter().map(|l| l.record_count()).sum();
    assert_eq!(spliced_total, 9, "splice keeps duplicates");
    // But convert still dedups on the way out.
    assert_eq!(unique_records(&from_spliced).len(), 6);
}

#[test]
fn records_merge_in_time_order() {
    let mut rec = Recorder::new(2, 4096).with_clock(ManualClock::new(5));
    rec.set_enabled(true);
    // Two shards, interleaved in time.
    for n in 0..6u64 {
        rec.record(n as usize, &packet_sent(n % 2, n, 1, false));
        rec.clock().advance(1);
    }
    let dumps = loaded("in.bb", dump_of(&rec));
    assert_eq!(dumps[0].shards.len(), 2);
    let mut it = merge_records(&dumps);
    let mut seen: Vec<(u64, u32)> = Vec::new();
    let mut next = it.next();
    while let Some(r) = next {
        seen.push((r.ts_nanos, r.shard_id));
        next = it.next();
    }
    assert_eq!(seen, [(5, 0), (6, 1), (7, 0), (8, 1), (9, 0), (10, 1)]);
}

#[test]
fn the_first_input_that_fails_is_named() {
    let good = dump_with_three_records();
    let inputs = [
        input("a.bb", &good),
        input("b.bb", b"nope"),
        input("c.bb", b""),
    ];
    let want = InputError {
        input: 1,
        error: LoadError::Decode(Error::UnexpectedEof),
    };
    assert_eq!(load_many(&inputs).err(), Some(want));
    assert!(matches!(merge(&inputs, true), Err(MergeError::Load(e)) if e == want));
    assert!(matches!(merge(&inputs, false), Err(MergeError::Load(e)) if e == want));
}

#[test]
fn views_survive_a_merge() {
    let rec = Recorder::new(1, 64).with_clock(ManualClock::new(0));
    let a = rec.dump(&[], &[], &["one;"], "h");
    let rec = Recorder::new(1, 64).with_clock(ManualClock::new(0));
    let b = rec.dump(&[], &[], &["one;", "two;"], "h");
    let inputs = [input("a.bb", &a), input("b.bb", &b)];
    let merged = merge(&inputs, true).ok().unwrap();
    let back = loaded("m.bb", merged.bytes);
    assert_eq!(back[0].views, ["one;", "two;"]);
    assert!(convert(&back, "").ddl.contains("two;"));
    // A splice keeps every copy.
    let spliced = merge(&inputs, false).ok().unwrap();
    let r = DumpReader::new(Bytes::from(spliced.bytes)).unwrap();
    assert_eq!(r.views().unwrap(), ["one;", "one;", "two;"]);
}

/// What a trace shows of each event.
fn trace_of(dumps: &[Loaded]) -> Vec<(String, Option<String>, u64, u32, u64, Vec<(String, Json)>)> {
    build_events(dumps)
        .into_iter()
        .map(|e| (e.name, e.id, e.pid, e.tid, e.ts_nanos, e.args))
        .collect()
}

#[test]
fn merge_then_trace_equals_trace_both() {
    let mut rec = Recorder::new(2, 64 * 1024).with_clock(ManualClock::new(1000));
    rec.set_enabled(true);
    let mut ids = SpanIds::new(7);
    let span = rec.enter(
        1,
        &mut ids,
        |id| request_start(id, 0),
        |id| request_end(id, 9),
    );
    let early = dump_of(&rec);
    rec.clock().advance(10);
    span.exit(0, &mut rec);
    let late = dump_of(&rec);
    let inputs = [
        input("early.bb", &early),
        input("late.bb", &late),
        input("other.bb", &dump_with_three_records()),
    ];
    let separate = trace_of(&load_many(&inputs).ok().unwrap());
    // The span once, with both halves, and the three records of the other process.
    assert_eq!(separate.len(), 5);
    for dedup in [true, false] {
        let merged = merge(&inputs, dedup).ok().unwrap();
        assert_eq!(trace_of(&loaded("merged.bb", merged.bytes)), separate);
    }
}

/// The records of loaded dumps: instance, shard, time, event and fields, in order.
fn captured(dumps: &[Loaded]) -> Vec<(u64, u32, u64, u64, Vec<u8>)> {
    let mut all: Vec<(u64, u32, u64, u64, Vec<u8>)> = Vec::new();
    for l in dumps {
        for r in l.records() {
            let event = l.schemas[r.schema_idx].id.get();
            all.push((l.instance_id, r.shard_id, r.ts_nanos, event, r.fields.to_vec()));
        }
    }
    all.sort();
    all
}

#[test]
fn merge_keeps_every_record_once() {
    let mut rec = Recorder::new(3, 4096).with_clock(ManualClock::new(5));
    rec.set_enabled(true);
    for n in 0..7u64 {
        rec.record(n as usize, &packet_sent(1, n, 100, false));
        rec.clock().advance(n % 2);
    }
    let early = dump_of(&rec);
    // The same event again, at the same time, in the same shard, is another record.
    rec.record(0, &packet_sent(1, 6, 100, false));
    rec.record(0, &packet_sent(1, 6, 100, false));
    let late = dump_of(&rec);
    let inputs = [input("early.bb", &early), input("late.bb", &late)];
    let merged = merge(&inputs, true).ok().unwrap();
    assert_eq!(merged.schemas, 4);
    let back = loaded("merged.bb", merged.bytes);
    assert_eq!(captured(&back), captured(&loaded("late.bb", late)));
    assert_eq!(captured(&back).len(), 9);
}

fn owned(name: &str, ty: FieldType, width: u16) -> OwnedField {
    OwnedField {
        name: name.to_string(),
        description: None,
        ty,
        offset: 0,
        width,
        role: FieldRole::Plain,
        unit: None,
        sentinel: None,
        enum_labels: Vec::new(),
    }
}

#[test]
fn fields_decode_by_their_type() {
    let mut intern = InternTable::new();
    intern.insert(7, "seven".to_string());
    let value = |f: &OwnedField, b: &[u8]| decode_field(f, b, &intern);
    assert_eq!(
        value(&owned("a", FieldType::U16, 2), &[1, 2]),
        Some(Value::U64(0x0201))
    );
    assert_eq!(
        value(&owned("a", FieldType::I16, 2), &[0xfe, 0xff]),
        Some(Value::I64(-2))
    );
    assert_eq!(
        value(&owned("a", FieldType::Bool, 1), &[1]),
        Some(Value::Bool(true))
    );
    assert_eq!(
        value(&owned("a", FieldType::Bytes, 3), &[0xde, 0xad, 0x01]),
        Some(Value::Str("dead01".to_string()))
    );
    let interned = owned("a", FieldType::Interned { dynamic: true }, 4);
    assert_eq!(
        value(&interned, &[7, 0, 0, 0]),
        Some(Value::Str("seven".to_string()))
    );
    // Too few bytes are no value.
    assert_eq!(value(&owned("a", FieldType::U64, 8), &[1, 2]), None);

    let mut labelled = owned("a", FieldType::Enum { repr: 1 }, 1);
    labelled.enum_labels.push(OwnedEnumLabel {
        value: 2,
        label: "two".to_string(),
    });
    assert_eq!(value(&labelled, &[2]), Some(Value::Str("two".to_string())));

    // A value equal to the sentinel is absent.
    let mut marked = owned("a", FieldType::I32, 4);
    marked.sentinel = Some(0xFFFF_FFFF);
    assert_eq!(value(&marked, &[0xff, 0xff, 0xff, 0xff]), None);
    assert_eq!(value(&marked, &[0, 0, 0, 0]), Some(Value::I64(0)));
    // A trace shows it.
    assert_eq!(
        decode_json(&marked, &[0xff, 0xff, 0xff, 0xff], &intern),
        Json::I64(-1)
    );
    assert_eq!(
        decode_json(&owned("a", FieldType::U64, 8), &[1], &intern),
        Json::Null
    );
    assert_eq!(read_u64(&[0, 1, 0, 0, 0, 0, 0, 0, 0], 1), Some(1));
    assert_eq!(read_u64(&[0; 8], 1), None);
    assert_eq!(category_of("a::b::C"), "a");
    assert_eq!(category_of("C"), "C");
}

#[test]
fn columns_describe_their_fields() {
    assert_eq!(column_kind(FieldType::U32), ColumnKind::UInt64);
    assert_eq!(column_kind(FieldType::I8), ColumnKind::Int64);
    assert_eq!(column_kind(FieldType::Bool), ColumnKind::Boolean);
    assert_eq!(column_kind(FieldType::Bytes), ColumnKind::Utf8);
    assert_eq!(column_kind(FieldType::Enum { repr: 1 }), ColumnKind::Utf8);
    let mut f = owned("a", FieldType::U64, 8);
    assert!(field_metadata(&f).is_empty());
    f.unit = Some("ns".to_string());
    f.sentinel = Some(0);
    f.description = Some("An a.".to_string());
    let m = field_metadata(&f);
    let get = |k: &str| m.iter().find(|e| e.0 == k).map(|e| e.1.clone());
    assert_eq!(get("backbeat.unit").as_deref(), Some("ns"));
    assert_eq!(get("backbeat.sentinel").as_deref(), Some("0"));
    let s = OwnedSchema {
        id: EventId(0xAB),
        qualified_name: "n::E".to_string(),
        description: Some("An E.".to_string()),
        record_size: 8,
        phase: Phase::Instant,
        fields: vec![f],
    };
    assert!(event_metadata(&s).iter().any(|e| e.1 == "An E."));

    let intern = InternTable::new();
    let rows = [Row {
        ts_nanos: 3,
        instance_id: 4,
        schema_idx: 0,
        fields: Bytes::from(vec![5, 0, 0, 0, 0, 0, 0, 0]),
        intern: &intern,
    }];
    let t = build_batch(&[s], &rows);
    assert_eq!(t.seq, [0]);
    assert_eq!(t.event, ["n::E"]);
    assert_eq!(t.events[0].children[0].values, [Some(Value::U64(5))]);
}

#[test]
fn lone_halves_of_spans_are_surfaced() {
    // An enter without an exit is closed at the end of the trace.
    let mut rec = Recorder::new(1, 4096).with_clock(ManualClock::new(100));
    rec.set_enabled(true);
    let mut ids = SpanIds::new(7);
    let span = rec.enter(
        0,
        &mut ids,
        |id| request_start(id, 0),
        |id| request_end(id, 0),
    );
    rec.clock().advance(25);
    rec.record(0, &connect(1, 2, 0));
    let dumps = loaded("in.bb", dump_of(&rec));
    let events = build_events(&dumps);
    let kinds: Vec<TraceKind> = events.iter().map(|e| e.kind).collect();
    assert_eq!(
        kinds,
        [TraceKind::Begin, TraceKind::End, TraceKind::Instant]
    );
    assert_eq!(events[1].ts_nanos, 125);
    assert_eq!(events[0].id, events[1].id);
    assert_eq!(
        events[0].id,
        Some(format!("{:#018x}", span.id()))
    );
    assert!(events[1]
        .args
        .contains(&("backbeat_open".to_string(), Json::Bool(true))));

    // An exit without an enter is an instant.
    let mut rec = Recorder::new(1, 4096).with_clock(ManualClock::new(100));
    let mut ids = SpanIds::new(7);
    let span = rec.enter(
        0,
        &mut ids,
        |id| request_start(id, 0),
        |id| request_end(id, 0),
    );
    rec.set_enabled(true);
    span.exit(0, &mut rec);
    let dumps = loaded("in.bb", dump_of(&rec));
    let events = build_events(&dumps);
    assert_eq!(events.len(), 1);
    assert_eq!(events[0].kind, TraceKind::Instant);
    assert!(events[0].id.is_none());
    assert!(events[0]
        .args
        .contains(&("backbeat_orphan_exit".to_string(), Json::Bool(true))));
}

#[test]
fn spans_go_to_the_shard_of_their_cpu() {
    let mut rec = Recorder::new(4, 4096).with_clock(ManualClock::new(100));
    rec.set_enabled(true);
    let mut ids = SpanIds::new(7);
    // CPU 6 has shard 2 of 4, and CPU 3 has shard 3.
    let span = rec.enter(
        6,
        &mut ids,
        |id| request_start(id, 0),
        |id| request_end(id, 0),
    );
    assert_eq!(span.id(), 0x1_0007);
    span.exit(3, &mut rec);
    let dumps = loaded("in.bb", dump_of(&rec));
    let counts: Vec<usize> = dumps[0].shards.iter().map(|s| s.locs.len()).collect();
    assert_eq!(counts, [0, 0, 1, 1]);
    // The next span of the thread has the next id, whichever recorder opens it.
    let mut other = Recorder::new(1, 4096).with_clock(ManualClock::new(0));
    let next = other.enter(
        0,
        &mut ids,
        |id| request_start(id, 0),
        |id| request_end(id, 0),
    );
    assert_eq!(next.id(), 0x2_0007);
}

#[test]
fn interned_text_that_is_not_utf8_is_replaced() {
    // One event with an interned field, and a table entry that is no text.
    let fields: &'static [FieldSchema] = &[FieldSchema {
        name: "name",
        description: None,
        ty: FieldType::Interned { dynamic: false },
        offset: 0,
        width: 4,
        role: FieldRole::Plain,
        unit: None,
        sentinel: None,
        enum_labels: &[],
    }];
    let schema = schema_of("t::Named", "Named.", 4, Phase::Instant, fields);
    let mut ring = Ring::new(64);
    ring.push_parts(&[
        &9u64.to_le_bytes(),
        &schema.id.get().to_le_bytes(),
        &1u32.to_le_bytes(),
    ]);
    let mut region = vec![0u8; ring.capacity()];
    let head = ring.snapshot_into(&mut region);
    let mut w = DumpWriter::new();
    w.schema_registry(&[&schema]);
    w.intern_table(5, &[(1, &[b'a', 0xff, b'b'])]);
    w.shard(5, 0, head as u64, &region);
    let dumps = loaded("in.bb", w.finish());
    assert_eq!(
        convert(&dumps, "").table.events[0].children[0].values,
        [Some(Value::Str("a\u{fffd}b".to_string()))]
    );
}
