//! The query DDL generated from a registry.

use backbeat::id::EventId;
use backbeat::schema::{FieldRole, FieldType, Phase};
use backbeat::views::{
    assemble, bootstrap, display_names, generate_tier1, quote_ident, quote_str,
};
use backbeat::wire::{OwnedField, OwnedSchema};

fn field(name: &str, role: FieldRole) -> OwnedField {
    OwnedField {
        name: name.to_string(),
        description: None,
        ty: FieldType::U64,
        offset: 0,
        width: 8,
        role,
        unit: None,
        sentinel: None,
        enum_labels: Vec::new(),
    }
}

fn schema(id: u64, name: &str, fields: Vec<OwnedField>) -> OwnedSchema {
    OwnedSchema {
        id: EventId(id),
        qualified_name: name.to_string(),
        description: None,
        record_size: 8,
        phase: Phase::Instant,
        fields,
    }
}

#[test]
fn quotes_identifiers_and_strings() {
    assert_eq!(quote_ident("my::Event"), "\"my::Event\"");
    assert_eq!(quote_ident("a\"b"), "\"a\"\"b\"");
    assert_eq!(quote_str("it's"), "'it''s'");
}

#[test]
fn per_event_view_filters_by_id() {
    let s = vec![schema(7, "ns::Pkt", vec![field("conn_id", FieldRole::Key)])];
    let ddl = generate_tier1(&s);
    assert!(ddl.contains(
        "CREATE OR REPLACE VIEW \"ns::Pkt\" AS SELECT * FROM events WHERE event_id = 7;"
    ));
    // The promoted key is surfaced in the discovery manifest.
    assert!(ddl.contains("CREATE OR REPLACE VIEW backbeat_keys"));
    assert!(ddl.contains("('ns::Pkt', 'conn_id', 'key')"));
}

#[test]
fn empty_key_manifest_is_a_typed_zero_row_view() {
    // An event with no promoted columns: backbeat_keys must still exist (VALUES can't be empty).
    let s = vec![schema(1, "ns::Marker", vec![field("x", FieldRole::Plain)])];
    let ddl = generate_tier1(&s);
    assert!(ddl.contains("CREATE OR REPLACE VIEW backbeat_keys"));
    assert!(ddl.contains("WHERE false"));
    assert!(!ddl.contains("VALUES"));
}

#[test]
fn collision_suffixes_display_name_with_id() {
    // Two schemas sharing a qualified_name (distinct ids) get `#<id>`-suffixed view names.
    let s = vec![
        schema(0xAA, "ns::E", vec![field("k", FieldRole::Key)]),
        schema(0xBB, "ns::E", vec![field("k", FieldRole::Key)]),
    ];
    let ddl = generate_tier1(&s);
    assert!(ddl.contains("\"ns::E#00000000000000aa\""));
    assert!(ddl.contains("\"ns::E#00000000000000bb\""));
}

#[test]
fn only_colliding_names_are_suffixed() {
    let s = vec![
        schema(1, "ns::A", vec![]),
        schema(2, "ns::B", vec![]),
        schema(3, "ns::A", vec![]),
    ];
    assert_eq!(
        display_names(&s),
        [
            "ns::A#0000000000000001",
            "ns::B",
            "ns::A#0000000000000003"
        ]
    );
}

#[test]
fn assemble_appends_tier2_with_trailing_newline() {
    let s = vec![schema(1, "ns::E", vec![field("k", FieldRole::Key)])];
    let ddl = assemble(&s, &["CREATE MACRO m() AS TABLE SELECT 1;".to_string()]);
    assert!(ddl.contains("-- Registered view set #1."));
    assert!(ddl.contains("CREATE MACRO m() AS TABLE SELECT 1;"));
    assert!(
        ddl.ends_with('\n'),
        "tier-2 without trailing newline gets one"
    );
}

#[test]
fn assemble_keeps_one_trailing_newline_and_numbers_the_sets() {
    let s = vec![schema(1, "ns::E", vec![])];
    let ddl = assemble(&s, &["first;\n".to_string(), "second;".to_string()]);
    assert!(ddl.starts_with(&generate_tier1(&s)));
    assert!(ddl.contains("-- Registered view set #1."));
    assert!(ddl.contains("-- Registered view set #2."));
    assert!(ddl.ends_with("second;\n"));
    assert!(!ddl.ends_with("\n\n"));
}

#[test]
fn bootstrap_binds_events_to_path() {
    assert!(bootstrap("out.parquet").contains(
        "CREATE OR REPLACE VIEW events AS SELECT * FROM read_parquet('out.parquet')"
    ));
    assert!(bootstrap("it's.parquet").contains("read_parquet('it''s.parquet')"));
}
