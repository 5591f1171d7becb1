//! The dump format, written and read back.

use backbeat::format::{SectionKind, LITTLE_ENDIAN};
use backbeat::id::EventId;
use backbeat::schema::{EnumLabel, EventSchema, FieldRole, FieldSchema, FieldType, Phase};
use backbeat::wire::{
    get_schema, put_owned_schema, Cursor, DumpReader, DumpWriter, Error, OwnedSchema,
};
use bytes::Bytes;

const FIELDS: &[FieldSchema] = &[
    FieldSchema {
        name: "packet_number",
        description: Some("the packet number"),
        ty: FieldType::U64,
        offset: 0,
        width: 8,
        role: FieldRole::Key,
        unit: None,
        sentinel: Some(u64::MAX),
        enum_labels: &[],
    },
    FieldSchema {
        name: "direction",
        description: None,
        ty: FieldType::Enum { repr: 1 },
        offset: 8,
        width: 1,
        role: FieldRole::Plain,
        unit: Some("dir"),
        sentinel: None,
        enum_labels: &[
            EnumLabel {
                value: 0,
                label: "in",
            },
            EnumLabel {
                value: 1,
                label: "out",
            },
        ],
    },
];

fn schema() -> EventSchema {
    EventSchema {
        id: EventId::of("test::Demo"),
        qualified_name: "test::Demo",
        description: Some("a demo event"),
        record_size: 9,
        phase: Phase::Instant,
        fields: FIELDS,
    }
}

// A span-enter event: a `span_id` field plus a `parent_span_id`.
const SPAN_FIELDS: &[FieldSchema] = &[
    FieldSchema {
        name: "span",
        description: None,
        ty: FieldType::U64,
        offset: 0,
        width: 8,
        role: FieldRole::SpanId,
        unit: None,
        sentinel: None,
        enum_labels: &[],
    },
    FieldSchema {
        name: "parent",
        description: None,
        ty: FieldType::U64,
        offset: 8,
        width: 8,
        role: FieldRole::ParentSpanId,
        unit: None,
        sentinel: None,
        enum_labels: &[],
    },
];

fn span_schema() -> EventSchema {
    EventSchema {
        id: EventId::of("test::Work"),
        qualified_name: "test::Work",
        description: None,
        record_size: 16,
        phase: Phase::Enter,
        fields: SPAN_FIELDS,
    }
}

fn read(bytes: Vec<u8>) -> DumpReader {
    DumpReader::new(Bytes::from(bytes)).unwrap()
}

fn fails(bytes: Vec<u8>) -> Option<Error> {
    DumpReader::new(Bytes::from(bytes)).err()
}

#[test]
fn round_trips_a_full_dump() {
    let mut w = DumpWriter::new();
    w.schema_registry(&[&schema()]);
    w.intern_table(
        0xDEADBEEF,
        &[(7u32, b"hello".as_slice()), (9, b"world".as_slice())],
    );
    w.meta(0xDEADBEEF, "host-7");
    w.views("CREATE VIEW packets AS SELECT * FROM events;");
    w.shard(0xDEADBEEF, 0, 32, &[0xAA; 64]);
    w.shard(0xDEADBEEF, 3, 8, &[0xBB; 16]);
    let bytes = w.finish();

    let r = read(bytes);
    assert_eq!(r.flags(), LITTLE_ENDIAN);
    assert_eq!(r.section_count(), 6);

    // Registry round-trips, descriptions and enum labels included.
    let schemas = r.schemas().unwrap();
    assert_eq!(schemas.len(), 1);
    let s = &schemas[0];
    assert_eq!(s.id, schema().id);
    assert_eq!(s.qualified_name, "test::Demo");
    assert_eq!(s.description.as_deref(), Some("a demo event"));
    assert_eq!(s.record_size, 9);
    assert_eq!(s.phase, Phase::Instant);
    assert_eq!(s.fields.len(), 2);
    assert_eq!(s.fields[0].name, "packet_number");
    assert_eq!(
        s.fields[0].description.as_deref(),
        Some("the packet number")
    );
    assert_eq!(s.fields[0].role, FieldRole::Key);
    assert_eq!(s.fields[0].sentinel, Some(u64::MAX));
    assert_eq!(s.fields[1].sentinel, None);
    assert_eq!(s.fields[1].ty, FieldType::Enum { repr: 1 });
    assert_eq!(s.fields[1].unit.as_deref(), Some("dir"));
    assert_eq!(s.fields[1].enum_labels[1].label, "out");

    // Intern table round-trips, namespaced by instance.
    let intern = r.intern_tables().unwrap();
    assert_eq!(intern.len(), 1);
    assert_eq!(intern[0].instance_id, 0xDEADBEEF);
    assert_eq!(
        intern[0].entries,
        [(7, b"hello".to_vec()), (9, b"world".to_vec())]
    );

    // Meta round-trips.
    let metas = r.metas().unwrap();
    assert_eq!(metas.len(), 1);
    assert_eq!(metas[0].instance_id, 0xDEADBEEF);
    assert_eq!(metas[0].host, "host-7");

    // Views round-trip verbatim.
    let views = r.views().unwrap();
    assert_eq!(views, ["CREATE VIEW packets AS SELECT * FROM events;"]);

    // Shards round-trip in order, each tagged with its instance.
    let shards = r.shards().unwrap();
    assert_eq!(shards.len(), 2);
    assert_eq!(shards[0].instance_id, 0xDEADBEEF);
    assert_eq!((shards[0].shard_id, shards[0].head), (0, 32));
    assert_eq!(&shards[0].region[..], &[0xAA; 64]);
    assert_eq!((shards[1].shard_id, shards[1].head), (3, 8));
    assert_eq!(shards[1].region.len(), 16);
}

#[test]
fn round_trips_multiple_instances() {
    // A merged dump: one unified registry, but per-instance meta/intern/shard sections. Two
    // instances reuse intern id 5 for different strings — the namespacing must keep them apart.
    let mut w = DumpWriter::new();
    w.schema_registry(&[&schema()]);
    w.meta(0xA, "host-a");
    w.intern_table(0xA, &[(5u32, b"alpha".as_slice())]);
    w.shard(0xA, 0, 16, &[0xAA; 32]);
    w.meta(0xB, "host-b");
    w.intern_table(0xB, &[(5u32, b"bravo".as_slice())]);
    w.shard(0xB, 0, 16, &[0xBB; 32]);
    let bytes = w.finish();

    let r = read(bytes);
    let metas = r.metas().unwrap();
    assert_eq!(metas.len(), 2);
    assert_eq!(
        (metas[0].instance_id, metas[0].host.as_str()),
        (0xA, "host-a")
    );
    assert_eq!(
        (metas[1].instance_id, metas[1].host.as_str()),
        (0xB, "host-b")
    );

    // Same intern id, different instance, different string.
    let intern = r.intern_tables().unwrap();
    assert_eq!(intern.len(), 2);
    assert_eq!(intern[0].instance_id, 0xA);
    assert_eq!(intern[0].entries, [(5, b"alpha".to_vec())]);
    assert_eq!(intern[1].instance_id, 0xB);
    assert_eq!(intern[1].entries, [(5, b"bravo".to_vec())]);

    // Each shard carries its owning instance.
    let shards = r.shards().unwrap();
    assert_eq!(shards.len(), 2);
    assert_eq!(shards[0].instance_id, 0xA);
    assert_eq!(&shards[0].region[..], &[0xAA; 32]);
    assert_eq!(shards[1].instance_id, 0xB);
    assert_eq!(&shards[1].region[..], &[0xBB; 32]);
}

#[test]
fn round_trips_span_roles_and_phase() {
    let mut w = DumpWriter::new();
    w.schema_registry(&[&span_schema()]);
    let bytes = w.finish();

    let r = read(bytes);
    let s = &r.schemas().unwrap()[0];
    assert_eq!(s.phase, Phase::Enter);
    assert_eq!(s.fields[0].role, FieldRole::SpanId);
    assert_eq!(s.fields[1].role, FieldRole::ParentSpanId);
    assert_eq!(s.span_id().unwrap().name, "span");
    assert_eq!(s.parent_span().unwrap().name, "parent");
}

#[test]
fn meta_absent_decodes_to_empty() {
    let mut w = DumpWriter::new();
    w.schema_registry(&[&schema()]);
    let bytes = w.finish();
    assert!(read(bytes).metas().unwrap().is_empty());
}

#[test]
fn rejects_bad_magic_and_truncation() {
    assert_eq!(fails(b"nope".to_vec()), Some(Error::UnexpectedEof));
    assert_eq!(
        fails(b"XXXXXXXX\x01\x00\x01\x00\x00\x00\x00\x00".to_vec()),
        Some(Error::BadMagic)
    );

    let mut w = DumpWriter::new();
    w.schema_registry(&[&schema()]);
    let bytes = w.finish();
    // Truncating the body makes the section run past EOF.
    let truncated = bytes[..bytes.len() - 4].to_vec();
    assert_eq!(fails(truncated), Some(Error::SectionOutOfBounds));
}

#[test]
fn rejects_other_versions_bad_text_and_bad_tags() {
    let mut other = DumpWriter::new().finish();
    other[8] = 2;
    assert_eq!(fails(other), Some(Error::UnsupportedVersion(2)));

    let mut w = DumpWriter::new();
    w.raw_section(SectionKind::Views, vec![0xff, 0xfe]);
    assert_eq!(read(w.finish()).views().err(), Some(Error::InvalidUtf8));

    // One schema with one field whose type tag is unknown.
    let mut body: Vec<u8> = vec![1, 0, 0, 0];
    body.extend_from_slice(&7u64.to_le_bytes());
    body.extend_from_slice(&[1, 0, b'e']); // name
    body.push(0); // no description
    body.extend_from_slice(&[8, 0]); // record size
    body.push(0); // phase
    body.extend_from_slice(&[1, 0]); // one field
    body.extend_from_slice(&[1, 0, b'f']); // its name
    body.push(0); // no description
    body.push(200); // type tag
    body.extend_from_slice(&[0; 16]);
    let mut w = DumpWriter::new();
    w.raw_section(SectionKind::Schema, body);
    assert_eq!(read(w.finish()).schemas().err(), Some(Error::BadTag(200)));
}

#[test]
fn errors_say_what_is_wrong() {
    assert_eq!(Error::UnexpectedEof.message(), "unexpected end of dump");
    assert_eq!(
        Error::BadMagic.message(),
        "bad magic: not a backbeat dump"
    );
    assert_eq!(
        Error::UnsupportedVersion(12).message(),
        "unsupported dump format version 12"
    );
    assert_eq!(
        Error::SectionOutOfBounds.message(),
        "section offset/len out of bounds"
    );
    assert_eq!(
        Error::InvalidUtf8.message(),
        "string field is not valid UTF-8"
    );
    assert_eq!(Error::BadTag(200).message(), "unknown tag byte 200");
}

#[test]
fn empty_sections_decode_to_empty() {
    let bytes = DumpWriter::new().finish();
    let r = read(bytes);
    assert_eq!(r.section_count(), 0);
    assert!(r.schemas().unwrap().is_empty());
    assert!(r.intern_tables().unwrap().is_empty());
    assert!(r.metas().unwrap().is_empty());
    assert!(r.views().unwrap().is_empty());
    assert!(r.shards().unwrap().is_empty());
}

#[test]
fn round_trips_multiple_view_sets() {
    // Several registered view sets become several sections, preserved in order.
    let mut w = DumpWriter::new();
    w.schema_registry(&[&schema()]);
    w.views("CREATE VIEW a AS SELECT 1;");
    w.views("CREATE MACRO m(x) AS TABLE SELECT x;");
    let r = read(w.finish());
    assert_eq!(
        r.views().unwrap(),
        [
            "CREATE VIEW a AS SELECT 1;",
            "CREATE MACRO m(x) AS TABLE SELECT x;"
        ]
    );
}

#[test]
fn decoded_schemas_are_written_as_they_were() {
    let mut w = DumpWriter::new();
    w.schema_registry(&[&schema(), &span_schema()]);
    let first = w.finish();
    let owned = read(first.clone()).schemas().unwrap();
    let refs: Vec<&OwnedSchema> = owned.iter().collect();
    let mut w = DumpWriter::new();
    w.schema_registry_owned(&refs);
    assert_eq!(w.finish(), first);
}

#[test]
fn the_envelope_is_laid_out_byte_by_byte() {
    let mut w = DumpWriter::new();
    w.meta(0x0102, "h");
    let bytes = w.finish();
    let mut want: Vec<u8> = b"BACKBEAT".to_vec();
    want.extend_from_slice(&[1, 0, 1, 0, 1, 0, 0, 0]);
    want.extend_from_slice(&3u16.to_le_bytes());
    want.extend_from_slice(&[0, 0]);
    want.extend_from_slice(&36u64.to_le_bytes());
    want.extend_from_slice(&11u64.to_le_bytes());
    want.extend_from_slice(&0x0102u64.to_le_bytes());
    want.extend_from_slice(&[1, 0, b'h']);
    assert_eq!(bytes, want);
}

#[test]
fn sections_of_unknown_kinds_are_skipped() {
    let mut w = DumpWriter::new();
    w.meta(1, "a");
    w.views("v");
    let mut bytes = w.finish();
    // The kind of the second section entry.
    bytes[36] = 77;
    let r = read(bytes);
    assert_eq!(r.section_count(), 2);
    assert_eq!(r.metas().unwrap().len(), 1);
    assert!(r.views().unwrap().is_empty());
}

#[test]
fn raw_bodies_are_the_bytes_of_the_sections() {
    let mut w = DumpWriter::new();
    w.views("abc");
    w.views("d");
    let r = read(w.finish());
    assert_eq!(
        r.raw_bodies(SectionKind::Views),
        [b"abc".to_vec(), b"d".to_vec()]
    );
    assert!(r.raw_bodies(SectionKind::Shard).is_empty());
}

#[test]
fn countable_dumps_are_finished() {
    let mut a = DumpWriter::new();
    a.meta(1, "a");
    let mut b = DumpWriter::new();
    b.meta(1, "a");
    assert_eq!(a.checked_finish(), Some(b.finish()));
}

#[test]
fn a_schema_reads_back_as_it_was_written() {
    let mut w = DumpWriter::new();
    w.schema_registry(&[&schema(), &span_schema()]);
    let owned: Vec<OwnedSchema> = DumpReader::new(Bytes::from(w.finish()))
        .unwrap()
        .schemas()
        .unwrap();
    for s in &owned {
        let mut buf: Vec<u8> = Vec::new();
        put_owned_schema(&mut buf, s);
        let mut cur = Cursor::new(&buf);
        assert_eq!(cur.remaining(), buf.len());
        assert_eq!(get_schema(&mut cur).as_ref(), Ok(s));
        assert_eq!(cur.remaining(), 0);
        // One byte less is the end of the file.
        assert_eq!(
            get_schema(&mut Cursor::new(&buf[..buf.len() - 1])),
            Err(Error::UnexpectedEof)
        );
    }
}
