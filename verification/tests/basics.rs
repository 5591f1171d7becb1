//! Identifiers, framing constants, records, schemas and shard hints.

use backbeat::cpu::current_hint;
use backbeat::event::{EventEnum, FieldTy};
use backbeat::format::SectionKind;
use backbeat::id::{EventId, Fnv, FNV_OFFSET};
use backbeat::intern::InternTable;
use backbeat::record::RecordView;
use backbeat::registry::{Registration, ViewSet};
use backbeat::schema::{
    layout_u16, EnumLabel, EventSchema, FieldRole, FieldSchema, FieldType, Phase,
};

#[test]
fn single_shard_is_always_zero() {
    for cpu in [0usize, 1, 7, usize::MAX] {
        assert_eq!(current_hint(cpu, 1), 0);
        assert_eq!(current_hint(cpu, 0), 0);
    }
}

#[test]
fn hint_in_range() {
    for shards in [2usize, 4, 8, 64] {
        for cpu in [0usize, 1, 7, 63, 64, usize::MAX] {
            let h = current_hint(cpu, shards);
            assert!(h < shards, "hint {h} out of range for {shards} shards");
        }
    }
}

#[test]
fn hints_of_cpus_are_reduced_to_the_shards() {
    for cpu in 0usize..200 {
        assert_eq!(current_hint(cpu, 64), cpu % 64);
        assert_eq!(current_hint(cpu, 3), cpu % 3);
        assert_eq!(current_hint(cpu, 1), 0);
        assert_eq!(current_hint(cpu, 0), 0);
    }
}

#[test]
fn section_kind_round_trips() {
    for k in [
        SectionKind::Schema,
        SectionKind::Intern,
        SectionKind::Shard,
        SectionKind::Meta,
        SectionKind::Views,
    ] {
        assert_eq!(SectionKind::from_u16(k.to_u16()), Some(k));
    }
    assert_eq!(SectionKind::from_u16(999), None);
}

#[test]
fn section_codes_are_fixed() {
    assert_eq!(SectionKind::Schema.to_u16(), 0);
    assert_eq!(SectionKind::Intern.to_u16(), 1);
    assert_eq!(SectionKind::Shard.to_u16(), 2);
    assert_eq!(SectionKind::Meta.to_u16(), 3);
    assert_eq!(SectionKind::Views.to_u16(), 4);
}

#[test]
fn matches_known_fnv1a_vectors() {
    // Canonical FNV-1a 64 test vectors (the empty string is the offset basis).
    assert_eq!(EventId::of("").get(), FNV_OFFSET);
    assert_eq!(EventId::of("a").get(), 0xaf63_dc4c_8601_ec8c);
    assert_eq!(EventId::of("foobar").get(), 0x85944171f73967e8);
}

#[test]
fn distinct_names_distinct_ids() {
    assert_ne!(EventId::of("ns::A"), EventId::of("ns::B"));
    assert_ne!(EventId::of("ns1::A"), EventId::of("ns2::A"));
}

#[test]
fn is_const_evaluable() {
    let id: EventId = EventId::of("ns::Event");
    assert_eq!(id, EventId::of("ns::Event"));
}

#[test]
fn ids_are_written_with_sixteen_digits() {
    assert_eq!(EventId(0xab).text(), "0x00000000000000ab");
    assert_eq!(EventId::of("a").text(), "0xaf63dc4c8601ec8c");
}

#[test]
fn strings_are_framed_before_they_are_hashed() {
    // Without the framing the two would fold the same bytes.
    let a = Fnv::new().str("ab").str("c").finish();
    let b = Fnv::new().str("a").str("bc").finish();
    assert_ne!(a, b);
    assert_ne!(
        Fnv::new().opt_str(None).finish(),
        Fnv::new().opt_str(Some("")).finish()
    );
    assert_eq!(
        Fnv::new().u16(0x0201).finish(),
        Fnv::new().byte(1).byte(2).finish()
    );
}

#[test]
fn parses_prefix_and_fields() {
    let mut payload = Vec::new();
    payload.extend_from_slice(&123u64.to_le_bytes());
    payload.extend_from_slice(&EventId::of("a::B").get().to_le_bytes());
    payload.extend_from_slice(&[1, 2, 3, 4]);

    let v = RecordView::parse(&payload).unwrap();
    assert_eq!(v.ts_nanos, 123);
    assert_eq!(v.event_id, EventId::of("a::B"));
    assert_eq!(v.fields, &[1, 2, 3, 4]);
}

#[test]
fn rejects_short_payload() {
    assert!(RecordView::parse(&[0u8; 8]).is_none());
    assert!(RecordView::parse(&[0u8; 15]).is_none());
    assert!(RecordView::parse(&[0u8; 16]).is_some());
}

fn demo() -> EventSchema {
    EventSchema {
        id: EventId::of("test::Demo"),
        qualified_name: "test::Demo",
        description: Some("A demo event."),
        record_size: 16,
        phase: Phase::Instant,
        fields: &[
            FieldSchema {
                name: "packet_number",
                description: Some("The packet number."),
                ty: FieldType::U64,
                offset: 0,
                width: 8,
                role: FieldRole::Key,
                unit: None,
                sentinel: None,
                enum_labels: &[],
            },
            FieldSchema {
                name: "direction",
                description: None,
                ty: FieldType::Enum { repr: 1 },
                offset: 8,
                width: 1,
                role: FieldRole::Plain,
                unit: None,
                sentinel: None,
                enum_labels: &[
                    EnumLabel {
                        value: 0,
                        label: "in",
                    },
                    EnumLabel {
                        value: 1,
                        label: "out",
                    },
                ],
            },
        ],
    }
}

#[test]
fn field_lookup_and_keys() {
    let schema = demo();
    assert!(schema.field("packet_number").is_some());
    assert!(schema.field("nope").is_none());
    let keys: Vec<_> = schema.keys().into_iter().map(|f| f.name).collect();
    assert_eq!(keys, ["packet_number"]);
    assert!(schema.span_id().is_none());
    assert!(schema.parent_span().is_none());
}

#[test]
fn fixed_widths() {
    assert_eq!(FieldType::U64.fixed_width(), Some(8));
    assert_eq!(
        FieldType::Interned { dynamic: false }.fixed_width(),
        Some(4)
    );
    assert_eq!(FieldType::Enum { repr: 2 }.fixed_width(), Some(2));
    assert_eq!(FieldType::Bytes.fixed_width(), None);
}

#[test]
fn content_ids_cover_the_whole_schema() {
    let schema = demo();
    let id = EventSchema::compute_id(schema.qualified_name, schema.phase, schema.fields);
    assert_eq!(
        id,
        EventSchema::compute_id(schema.qualified_name, schema.phase, schema.fields)
    );
    assert_ne!(
        id,
        EventSchema::compute_id("test::Other", schema.phase, schema.fields)
    );
    assert_ne!(
        id,
        EventSchema::compute_id(schema.qualified_name, Phase::Enter, schema.fields)
    );
    assert_ne!(
        id,
        EventSchema::compute_id(schema.qualified_name, schema.phase, &schema.fields[..1])
    );
}

#[test]
fn layouts_fit_sixteen_bits() {
    assert_eq!(layout_u16(0), 0);
    assert_eq!(layout_u16(65535), 65535);
}

enum Color {}

impl EventEnum for Color {
    fn repr() -> u8 {
        2
    }

    fn enum_labels() -> &'static [EnumLabel] {
        &[EnumLabel {
            value: 3,
            label: "Red",
        }]
    }
}

#[test]
fn field_types_of_primitives_and_enums() {
    assert_eq!(<u8 as FieldTy>::field_type(), FieldType::U8);
    assert_eq!(<u16 as FieldTy>::field_type(), FieldType::U16);
    assert_eq!(<u32 as FieldTy>::field_type(), FieldType::U32);
    assert_eq!(<u64 as FieldTy>::field_type(), FieldType::U64);
    assert_eq!(<i8 as FieldTy>::field_type(), FieldType::I8);
    assert_eq!(<i16 as FieldTy>::field_type(), FieldType::I16);
    assert_eq!(<i32 as FieldTy>::field_type(), FieldType::I32);
    assert_eq!(<i64 as FieldTy>::field_type(), FieldType::I64);
    assert_eq!(<bool as FieldTy>::field_type(), FieldType::Bool);
    assert_eq!(<[u8; 5] as FieldTy>::field_type(), FieldType::Bytes);
    assert_eq!(
        <Color as FieldTy>::field_type(),
        FieldType::Enum { repr: 2 }
    );
    assert_eq!(<Color as FieldTy>::labels()[0].label, "Red");
    assert!(<u64 as FieldTy>::labels().is_empty());
}

#[test]
fn interned_strings_keep_the_last_entry_of_an_id() {
    let mut t = InternTable::new();
    t.insert(9, "nine".to_string());
    t.insert(2, "two".to_string());
    t.insert(9, "neuf".to_string());
    assert_eq!(t.len(), 2);
    assert_eq!(t.get(9).map(|s| s.as_str()), Some("neuf"));
    assert_eq!(t.get(2).map(|s| s.as_str()), Some("two"));
    assert!(t.get(3).is_none());
    let ids: Vec<u32> = t.entries().iter().map(|e| e.0).collect();
    assert_eq!(ids, [2, 9]);
}

#[test]
fn registrations_hold_what_they_are_given() {
    assert_eq!(
        Registration::new(demo()).schema.qualified_name,
        "test::Demo"
    );
    assert_eq!(ViewSet::new("CREATE VIEW v;").sql, "CREATE VIEW v;");
}
