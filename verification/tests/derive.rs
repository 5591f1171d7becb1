//! Deriving events and event enums from declarations.

use backbeat::derive::{
    attr_kind, doc_of, entry_kind, enum_repr_width, expand, expand_event_enum, sentinel_image, Attr,
    AttrKind, Body, DeriveError, EntryKind, FieldItem, Item, Meta, Place, TypeKind, VariantItem,
};
use backbeat::event::Event;
use backbeat::id::EventId;
use backbeat::ring::{walk, Ring};
use backbeat::schema::{
    layout_u16, EnumLabel, EventSchema, FieldRole, FieldSchema, FieldType, Phase,
};
use bytes::Bytes;

fn doc(line: &str) -> Attr {
    Attr::Doc(line.to_string())
}

fn namespace(n: &str) -> Meta {
    Meta::Namespace(n.to_string())
}

fn field(name: &str, ty: &str, attrs: Vec<Attr>) -> FieldItem {
    let kind = match ty {
        "u64" => TypeKind::U64,
        "bool" => TypeKind::Bool,
        _ => {
            if ty.starts_with('[') {
                TypeKind::Array
            } else {
                TypeKind::Other
            }
        }
    };
    FieldItem {
        name: name.to_string(),
        attrs,
        ty: ty.to_string(),
        kind,
    }
}

fn event(name: &str, attrs: Vec<Attr>, fields: Vec<FieldItem>) -> Item {
    Item {
        name: name.to_string(),
        attrs,
        body: Body::Struct(fields),
    }
}

fn leak(s: &str) -> &'static str {
    Box::leak(s.to_string().into_boxed_str())
}

/// The schema of a declaration whose fields have the given types, and are laid out without gaps.
fn reflect(item: &Item, types: &[(FieldType, usize, &'static [EnumLabel])]) -> EventSchema {
    let plan = expand(item).ok().unwrap();
    assert_eq!(plan.krate, "::backbeat");
    let mut fields = Vec::new();
    let mut offset = 0usize;
    for (f, (ty, width, labels)) in plan.fields.iter().zip(types) {
        let ty = match f.interned {
            Some(dynamic) => FieldType::Interned { dynamic },
            None => *ty,
        };
        fields.push(FieldSchema {
            name: leak(&f.name),
            description: f.description.as_deref().map(leak),
            ty,
            offset: layout_u16(offset),
            width: layout_u16(*width),
            role: f.role,
            unit: f.unit.as_deref().map(leak),
            sentinel: None,
            enum_labels: *labels,
        });
        offset += width;
    }
    let fields: &'static [FieldSchema] = fields.leak();
    EventSchema {
        id: EventSchema::compute_id(&plan.qualified_name, plan.phase, fields),
        qualified_name: leak(&plan.qualified_name),
        description: plan.description.as_deref().map(leak),
        record_size: layout_u16(offset),
        phase: plan.phase,
        fields,
    }
}

const DIRECTION: &[EnumLabel] = &[
    EnumLabel {
        value: 0,
        label: "Incoming",
    },
    EnumLabel {
        value: 1,
        label: "Outgoing",
    },
];

/// A frame was queued for sending, as its sixteen bytes.
struct PacketSent {
    raw: [u8; 16],
}

impl PacketSent {
    fn new(connection_id: u64, size: u32, outgoing: bool, is_fin: bool) -> Self {
        let mut raw = [0u8; 16];
        raw[..8].copy_from_slice(&connection_id.to_le_bytes());
        raw[8..12].copy_from_slice(&size.to_le_bytes());
        raw[12] = outgoing as u8;
        raw[13] = is_fin as u8;
        PacketSent { raw }
    }
}

impl Event for PacketSent {
    fn schema() -> EventSchema {
        reflect(
            &event(
                "PacketSent",
                vec![
                    doc(" A frame was queued for sending."),
                    Attr::Event(vec![namespace("my_app::net")]),
                    Attr::Repr(vec!["C".to_string()]),
                ],
                vec![
                    field(
                        "connection_id",
                        "u64",
                        vec![
                            doc(" The connection this packet belongs to."),
                            Attr::Event(vec![Meta::Key]),
                        ],
                    ),
                    field(
                        "bytes",
                        "u32",
                        vec![Attr::Event(vec![Meta::Unit("bytes".to_string())])],
                    ),
                    field("direction", "Direction", vec![]),
                    field("is_fin", "bool", vec![]),
                    field("_pad", "[u8; 2]", vec![]),
                ],
            ),
            &[
                (FieldType::U64, 8, &[]),
                (FieldType::U32, 4, &[]),
                (FieldType::Enum { repr: 1 }, 1, DIRECTION),
                (FieldType::Bool, 1, &[]),
                (FieldType::Bytes, 2, &[]),
            ],
        )
    }

    fn id() -> EventId {
        Self::schema().id
    }

    fn qualified_name() -> &'static str {
        Self::schema().qualified_name
    }

    fn as_bytes(&self) -> &[u8] {
        &self.raw
    }
}

#[test]
fn derive_emits_stable_id_and_name() {
    assert_eq!(PacketSent::qualified_name(), "my_app::net::PacketSent");
    // The id is content-addressed: stable across builds, but a hash of the whole schema (so it is
    // *not* the bare name hash). Just assert it's non-zero and equals the schema's id.
    assert_eq!(PacketSent::id(), PacketSent::schema().id);
    assert_ne!(PacketSent::id().get(), 0);
    assert_ne!(PacketSent::id(), EventId::of("my_app::net::PacketSent"));
}

#[test]
fn schema_reflects_fields() {
    let s = PacketSent::schema();
    assert_eq!(s.id, PacketSent::id());
    assert_eq!(s.qualified_name, "my_app::net::PacketSent");
    assert_eq!(s.description, Some("A frame was queued for sending."));
    assert_eq!(s.record_size as usize, core::mem::size_of::<PacketSent>());
    assert_eq!(s.phase, Phase::Instant);

    // Offsets are the real struct offsets; widths the real sizes.
    let cid = s.field("connection_id").unwrap();
    assert_eq!(cid.offset, 0);
    assert_eq!(cid.width, 8);
    assert_eq!(cid.ty, FieldType::U64);
    assert_eq!(cid.role, FieldRole::Key);
    assert_eq!(
        cid.description,
        Some("The connection this packet belongs to.")
    );

    let bytes = s.field("bytes").unwrap();
    assert_eq!(bytes.ty, FieldType::U32);
    assert_eq!(bytes.unit, Some("bytes"));
    assert_eq!(bytes.role, FieldRole::Plain);

    // The enum field carries its discriminant width and value→label map — no per-field attribute.
    let dir = s.field("direction").unwrap();
    assert_eq!(dir.ty, FieldType::Enum { repr: 1 });
    let labels: Vec<_> = dir.enum_labels.iter().map(|l| (l.value, l.label)).collect();
    assert_eq!(labels, [(0, "Incoming"), (1, "Outgoing")]);

    assert_eq!(s.field("is_fin").unwrap().ty, FieldType::Bool);

    // Keys, in declaration order.
    let keys: Vec<_> = s.keys().into_iter().map(|f| f.name).collect();
    assert_eq!(keys, ["connection_id"]);
}

#[test]
fn span_roles_and_phase_reflect() {
    let s = reflect(
        &event(
            "WorkStart",
            vec![
                doc(" A unit of work — a span."),
                Attr::Event(vec![
                    namespace("my_app::work"),
                    Meta::Span("enter".to_string()),
                ]),
            ],
            vec![
                field("span", "u64", vec![Attr::Event(vec![Meta::SpanId])]),
                field("parent", "u64", vec![Attr::Event(vec![Meta::ParentSpanId])]),
                field("job_id", "u64", vec![Attr::Event(vec![Meta::Key])]),
            ],
        ),
        &[
            (FieldType::U64, 8, &[]),
            (FieldType::U64, 8, &[]),
            (FieldType::U64, 8, &[]),
        ],
    );
    assert_eq!(s.phase, Phase::Enter);
    assert_eq!(s.span_id().unwrap().name, "span");
    assert_eq!(s.span_id().unwrap().role, FieldRole::SpanId);
    assert_eq!(s.parent_span().unwrap().name, "parent");
    assert_eq!(s.parent_span().unwrap().role, FieldRole::ParentSpanId);
    // The plain key field is unaffected.
    let keys: Vec<_> = s.keys().into_iter().map(|f| f.name).collect();
    assert_eq!(keys, ["job_id"]);
}

#[test]
fn ring_records_event_without_allocating() {
    let mut ring = Ring::new(4096);
    let ev = PacketSent::new(0xABCD, 1500, true, true);
    ring.push_event(&ev);

    let mut region = vec![0u8; ring.capacity()];
    let head = ring.snapshot_into(&mut region);
    let region = Bytes::from(region);

    // Validator: a real record is the id prefix plus the event's bytes.
    let records = walk(&region, head, ring.capacity(), |payload: &[u8]| {
        payload.len() == 8 + core::mem::size_of::<PacketSent>()
    });
    assert_eq!(records.len(), 1);

    // The record is `[event_id u64 LE][fields…]`.
    let rec = &records[0];
    let (id_bytes, fields) = rec.split_at(8);
    assert_eq!(
        u64::from_le_bytes(id_bytes.try_into().unwrap()),
        PacketSent::id().get()
    );
    assert_eq!(fields, ev.as_bytes());
    assert_eq!(fields.len(), core::mem::size_of::<PacketSent>());
}

#[test]
fn content_addressed_id_forks_on_layout_change() {
    let attrs = || vec![Attr::Event(vec![namespace("versioned")])];
    let v1 = reflect(
        &event("Evt", attrs(), vec![field("a", "u64", vec![])]),
        &[(FieldType::U64, 8, &[])],
    );
    let v2 = reflect(
        &event(
            "Evt",
            attrs(),
            vec![
                field("a", "u64", vec![]),
                field("b", "u32", vec![]),
                field("_pad", "[u8; 4]", vec![]),
            ],
        ),
        &[
            (FieldType::U64, 8, &[]),
            (FieldType::U32, 4, &[]),
            (FieldType::Bytes, 4, &[]),
        ],
    );
    // Same qualified name…
    assert_eq!(v1.qualified_name, v2.qualified_name);
    // …but different layouts → different ids, so they're distinct event types in a registry.
    assert_ne!(v1.id, v2.id);
}

fn fault(attrs: Vec<Meta>, body: Body) -> DeriveError {
    expand(&Item {
        name: "E".to_string(),
        attrs: vec![Attr::Event(attrs)],
        body,
    })
    .err()
    .unwrap()
}

/// The fault of an event with one field of the given type and entries.
fn field_fault(ty: &str, metas: Vec<Meta>) -> DeriveError {
    fault(
        vec![namespace("n")],
        Body::Struct(vec![field("f", ty, vec![Attr::Event(metas)])]),
    )
}

#[test]
fn container_attributes_are_checked() {
    let none = || Body::Struct(vec![]);
    assert_eq!(fault(vec![], none()), DeriveError::MissingNamespace);
    assert_eq!(
        fault(vec![Meta::Key], none()),
        DeriveError::UnknownContainerAttribute
    );
    assert_eq!(
        fault(vec![Meta::Span("around".to_string())], none()),
        DeriveError::SpanNotEnterOrExit
    );
    assert_eq!(
        fault(
            vec![
                Meta::Crate("a".to_string()),
                Meta::Crate("b".to_string())
            ],
            none()
        ),
        DeriveError::DuplicateCrate
    );
    assert_eq!(
        fault(vec![namespace("n")], Body::Tuple),
        DeriveError::UnnamedFields
    );
    assert_eq!(
        fault(vec![namespace("n")], Body::Union),
        DeriveError::NotAStruct
    );
    assert_eq!(
        fault(vec![namespace("n")], Body::Enum(vec![])),
        DeriveError::NotAStruct
    );
    // The namespace is missed before the shape is looked at.
    assert_eq!(fault(vec![], Body::Union), DeriveError::MissingNamespace);
}

#[test]
fn field_attributes_are_checked() {
    assert_eq!(
        field_fault("u64", vec![Meta::Other]),
        DeriveError::UnknownFieldAttribute
    );
    assert_eq!(
        field_fault("u64", vec![namespace("n")]),
        DeriveError::UnknownFieldAttribute
    );
    assert_eq!(
        field_fault("u64", vec![Meta::Key, Meta::SpanId]),
        DeriveError::SecondRole
    );
    assert_eq!(
        field_fault("u32", vec![Meta::Interned(vec!["static".to_string()])]),
        DeriveError::ExpectedDynamic
    );
    assert_eq!(
        field_fault("u32", vec![Meta::SpanId]),
        DeriveError::SpanIdNotU64
    );
    assert_eq!(
        field_fault("u32", vec![Meta::ParentSpanId]),
        DeriveError::ParentSpanIdNotU64
    );
    let absent = || Meta::Sentinel("0".to_string());
    assert_eq!(
        field_fault("u32", vec![absent(), Meta::Interned(vec![])]),
        DeriveError::SentinelOnInterned
    );
    assert_eq!(
        field_fault("bool", vec![absent()]),
        DeriveError::SentinelNotInteger
    );
    assert_eq!(
        field_fault("[u8; 4]", vec![absent()]),
        DeriveError::SentinelNotInteger
    );
}

#[test]
fn span_roles_are_checked() {
    let span = || field("s", "u64", vec![Attr::Event(vec![Meta::SpanId])]);
    let parent = || field("p", "u64", vec![Attr::Event(vec![Meta::ParentSpanId])]);
    let enter = || vec![namespace("n"), Meta::Span("enter".to_string())];
    assert_eq!(
        fault(enter(), Body::Struct(vec![span(), span()])),
        DeriveError::SecondSpanId
    );
    assert_eq!(
        fault(enter(), Body::Struct(vec![span(), parent(), parent()])),
        DeriveError::SecondParentSpanId
    );
    assert_eq!(
        fault(enter(), Body::Struct(vec![parent()])),
        DeriveError::SpanWithoutSpanId
    );
    assert_eq!(
        fault(vec![namespace("n")], Body::Struct(vec![span()])),
        DeriveError::SpanIdWithoutSpan
    );
}

#[test]
fn plans_carry_what_is_declared() {
    let p = expand(&event(
        "E",
        vec![
            doc(" One. "),
            Attr::Other,
            doc("Two."),
            Attr::Event(vec![
                namespace("n"),
                Meta::Span("exit".to_string()),
                Meta::Crate("wrapper::backbeat".to_string()),
            ]),
        ],
        vec![
            field("s", "u64", vec![Attr::Event(vec![Meta::SpanId])]),
            field(
                "i",
                "u32",
                vec![Attr::Event(vec![Meta::Interned(vec![
                    "dynamic".to_string()
                ])])],
            ),
            field(
                "n",
                "i32",
                vec![
                    Attr::Event(vec![Meta::Unit("a".to_string())]),
                    Attr::Event(vec![
                        Meta::Unit("b".to_string()),
                        Meta::Sentinel("-1".to_string()),
                    ]),
                ],
            ),
        ],
    ))
    .ok()
    .unwrap();
    assert_eq!(p.krate, "wrapper::backbeat");
    assert_eq!(p.qualified_name, "n::E");
    assert_eq!(p.description.as_deref(), Some("One.\nTwo."));
    assert_eq!(p.phase, Phase::Exit);
    assert_eq!(p.fields[0].role, FieldRole::SpanId);
    assert_eq!(p.fields[1].interned, Some(true));
    assert_eq!(p.fields[2].unit.as_deref(), Some("b"));
    assert_eq!(p.fields[2].sentinel.as_deref(), Some("-1"));
    assert_eq!(p.fields[2].ty, "i32");
    assert!(p.fields[2].description.is_none());
}

fn variant(name: &str, unit: bool, discriminant: Option<&str>) -> VariantItem {
    VariantItem {
        name: name.to_string(),
        unit,
        discriminant: discriminant.map(|d| d.to_string()),
    }
}

fn event_enum(attrs: Vec<Attr>, variants: Vec<VariantItem>) -> Item {
    Item {
        name: "Direction".to_string(),
        attrs,
        body: Body::Enum(variants),
    }
}

fn repr(name: &str) -> Attr {
    Attr::Repr(vec![name.to_string()])
}

#[test]
fn enums_are_planned() {
    let p = expand_event_enum(&event_enum(
        vec![repr("u16")],
        vec![
            variant("Incoming", true, Some("0")),
            variant("Outgoing", true, Some("1")),
        ],
    ))
    .ok()
    .unwrap();
    assert_eq!(p.krate, "::backbeat");
    assert_eq!(p.repr, 2);
    assert_eq!(
        p.labels,
        [
            ("0".to_string(), "Incoming".to_string()),
            ("1".to_string(), "Outgoing".to_string())
        ]
    );
}

#[test]
fn enums_are_checked() {
    let fails = |item: &Item| expand_event_enum(item).err().unwrap();
    assert_eq!(
        fails(&event("E", vec![repr("u8")], vec![])),
        DeriveError::NotAnEnum
    );
    assert_eq!(
        fails(&event_enum(vec![], vec![])),
        DeriveError::MissingRepr
    );
    assert_eq!(
        fails(&event_enum(vec![Attr::Event(vec![namespace("n")])], vec![])),
        DeriveError::UnknownEnumAttribute
    );
    let krate = || Meta::Crate("a".to_string());
    assert_eq!(
        fails(&event_enum(
            vec![Attr::Event(vec![krate()]), Attr::Event(vec![krate()])],
            vec![]
        )),
        DeriveError::DuplicateCrate
    );
    assert_eq!(
        fails(&event_enum(
            vec![repr("u8")],
            vec![variant("V", false, Some("0"))]
        )),
        DeriveError::VariantWithFields
    );
    assert_eq!(
        fails(&event_enum(
            vec![repr("u8")],
            vec![variant("V", true, None)]
        )),
        DeriveError::MissingDiscriminant
    );
}

#[test]
fn widths_of_representations() {
    for (name, width) in [("u8", 1), ("u16", 2), ("u32", 4), ("u64", 8)] {
        assert_eq!(enum_repr_width(&vec![repr(name)]), Ok(width));
    }
    assert_eq!(
        enum_repr_width(&vec![repr("i8")]),
        Err(DeriveError::MissingRepr)
    );
    // The last name of an attribute counts, and attributes are tried in turn.
    let names = |a: &str, b: &str| Attr::Repr(vec![a.to_string(), b.to_string()]);
    assert_eq!(enum_repr_width(&vec![names("C", "u8")]), Ok(1));
    assert_eq!(
        enum_repr_width(&vec![names("u8", "C")]),
        Err(DeriveError::MissingRepr)
    );
    assert_eq!(
        enum_repr_width(&vec![names("u8", "C"), Attr::Other, repr("u32")]),
        Ok(4)
    );
}

#[test]
fn entries_are_told_apart_by_place_and_name() {
    assert_eq!(attr_kind(Place::Event, "event"), AttrKind::Event);
    assert_eq!(attr_kind(Place::Field, "doc"), AttrKind::Doc);
    assert_eq!(attr_kind(Place::EventEnum, "repr"), AttrKind::Repr);
    assert_eq!(attr_kind(Place::Event, "repr"), AttrKind::Other);
    assert_eq!(attr_kind(Place::Field, "serde"), AttrKind::Other);
    for (name, kind) in [
        ("key", EntryKind::Key),
        ("span_id", EntryKind::SpanId),
        ("parent_span_id", EntryKind::ParentSpanId),
        ("unit", EntryKind::Unit),
        ("sentinel", EntryKind::Sentinel),
        ("interned", EntryKind::Interned),
        ("namespace", EntryKind::Other),
        ("crate", EntryKind::Other),
        ("", EntryKind::Other),
    ] {
        assert_eq!(entry_kind(Place::Field, name), kind);
    }
    assert_eq!(entry_kind(Place::Event, "namespace"), EntryKind::Namespace);
    assert_eq!(entry_kind(Place::Event, "span"), EntryKind::Span);
    assert_eq!(entry_kind(Place::Event, "crate"), EntryKind::Crate);
    assert_eq!(entry_kind(Place::Event, "key"), EntryKind::Other);
    assert_eq!(entry_kind(Place::EventEnum, "crate"), EntryKind::Crate);
    assert_eq!(entry_kind(Place::EventEnum, "namespace"), EntryKind::Other);
}

#[test]
fn the_first_fault_counts() {
    let fault = |item: &Item| expand(item).err().unwrap();
    let bad_field = || field("x", "u32", vec![Attr::Event(vec![Meta::Malformed(7)])]);
    // The container's entries come first, in turn, then the kind of item, then the fields.
    assert_eq!(
        fault(&event(
            "E",
            vec![Attr::Event(vec![namespace("n"), Meta::Malformed(3), Meta::Other])],
            vec![bad_field()]
        )),
        DeriveError::Malformed(3)
    );
    assert_eq!(
        fault(&event(
            "E",
            vec![Attr::Event(vec![Meta::Other, Meta::Malformed(3)])],
            vec![bad_field()]
        )),
        DeriveError::UnknownContainerAttribute
    );
    assert_eq!(
        fault(&event("E", vec![], vec![bad_field()])),
        DeriveError::MissingNamespace
    );
    assert_eq!(
        fault(&event(
            "E",
            vec![Attr::Event(vec![namespace("n")])],
            vec![bad_field()]
        )),
        DeriveError::Malformed(7)
    );
    // A representation is read up to the one that counts.
    assert_eq!(
        enum_repr_width(&vec![repr("u16"), Attr::Malformed(1)]),
        Ok(2)
    );
    assert_eq!(
        enum_repr_width(&vec![repr("C"), Attr::Malformed(1), repr("u16")]),
        Err(DeriveError::Malformed(1))
    );
    assert_eq!(
        expand_event_enum(&event_enum(
            vec![Attr::Event(vec![Meta::Malformed(2)]), Attr::Malformed(1)],
            vec![]
        ))
        .err(),
        Some(DeriveError::Malformed(2))
    );
}

#[test]
fn doc_comments_are_joined_line_by_line() {
    assert_eq!(doc_of(&vec![Attr::Other]), None);
    assert_eq!(
        doc_of(&vec![doc(" a "), doc(""), doc("  b")]).as_deref(),
        Some("a\n\nb")
    );
}

#[test]
fn sentinels_are_the_low_bytes() {
    assert_eq!(sentinel_image(-1i64 as u64, 4), 0xFFFF_FFFF);
    assert_eq!(sentinel_image(u64::MAX, 8), u64::MAX);
    assert_eq!(sentinel_image(0x1234, 1), 0x34);
    assert_eq!(sentinel_image(0, 2), 0);
    assert_eq!(sentinel_image(u64::MAX, 7), 0x00FF_FFFF_FFFF_FFFF);
}

#[test]
fn faults_are_explained() {
    assert_eq!(
        DeriveError::SecondRole.message(),
        "a field may have at most one role (`key` / `span_id` / `parent_span_id` are mutually exclusive)"
    );
    assert_eq!(
        DeriveError::MissingNamespace.message(),
        "`#[derive(Event)]` requires `#[event(namespace = \"...\")]`"
    );
}
