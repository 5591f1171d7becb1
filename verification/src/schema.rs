//! Self-describing event schemas.
//!
//! A dump carries, alongside the raw records, a registry of [`EventSchema`]s describing how to
//! decode them. A schema is a flat list of [`FieldSchema`]s; each names a byte range within the
//! fixed-size record payload and a [`FieldType`] saying how to interpret it.
//!
//! [`SchemaView`] is the mathematical value of a schema. The borrowed descriptors here and the
//! owned ones that a reader produces ([`crate::wire::OwnedSchema`]) both have it as their view.

use crate::id::{
    fnv_fold, lemma_fnv_fold_concat, opt_chars, opt_str_bytes, str_bytes, EventId, Fnv, FNV_OFFSET,
};
use crate::le::le_bytes;
use vstd::prelude::*;

verus! {

/// How to interpret the bytes of a field.
#[derive(Clone, Copy, Debug, PartialEq, Eq, Structural)]
#[non_exhaustive]
pub enum FieldType {
    /// Unsigned integers, stored little-endian inline.
    U8,
    U16,
    U32,
    U64,
    /// Signed integers, stored little-endian inline.
    I8,
    I16,
    I32,
    I64,
    /// A single byte, `0` = false, non-zero = true.
    Bool,
    /// A fixed-width opaque byte array, rendered as hex.
    Bytes,
    /// A small inline integer whose values map to labels via [`FieldSchema::enum_labels`].
    Enum {
        /// Width of the inline discriminant (1, 2, 4, or 8 bytes).
        repr: u8,
    },
    /// A `u32` id stored inline, resolved against the dump's intern table to a string.
    Interned {
        /// Whether the interned value is computed at runtime (vs. a stable `&'static str`).
        dynamic: bool,
    },
}

/// The semantic role a field plays beyond its raw type; a field has at most one.
#[derive(Clone, Copy, Debug, PartialEq, Eq, Structural, Default)]
#[non_exhaustive]
pub enum FieldRole {
    /// An ordinary field with no special role.
    #[default]
    Plain,
    /// A join/index column the reader promotes to the top level (`#[event(key)]`).
    Key,
    /// The span's own id (`#[event(span_id)]`).
    SpanId,
    /// The id of the enclosing span (`#[event(parent_span_id)]`).
    ParentSpanId,
}

/// Which phase of a span an event type represents.
#[derive(Clone, Copy, Debug, PartialEq, Eq, Structural, Default)]
#[non_exhaustive]
pub enum Phase {
    /// Not part of a span: an instantaneous event.
    #[default]
    Instant,
    /// The opening of a span (`#[event(span = enter)]`).
    Enter,
    /// The closing of a span (`#[event(span = exit)]`).
    Exit,
}

/// A single value-to-label mapping for an [`FieldType::Enum`] field.
#[derive(Clone, Copy, Debug)]
pub struct EnumLabel {
    /// The discriminant value as stored in the record.
    pub value: u64,
    /// The human-readable label for that value.
    pub label: &'static str,
}

/// Describes one field within an event record's fixed-size payload.
#[derive(Clone, Copy, Debug)]
pub struct FieldSchema {
    /// Field name; becomes the column name in the output table.
    pub name: &'static str,
    /// The field's doc comment, if any.
    pub description: Option<&'static str>,
    /// How to interpret the bytes.
    pub ty: FieldType,
    /// Byte offset of the field within the record payload.
    pub offset: u16,
    /// Width of the field in bytes.
    pub width: u16,
    /// The field's semantic role.
    pub role: FieldRole,
    /// Optional unit hint (`"bytes"`, `"ns"`, …).
    pub unit: Option<&'static str>,
    /// In-band "absent" marker: a raw value the converter maps to SQL NULL.
    pub sentinel: Option<u64>,
    /// Value-to-label map for [`FieldType::Enum`] fields; empty otherwise.
    pub enum_labels: &'static [EnumLabel],
}

/// The complete description of one event type.
#[derive(Clone, Copy, Debug)]
pub struct EventSchema {
    /// Stable id; the join key to records in the ring.
    pub id: EventId,
    /// Fully-qualified event name, `"namespace::EventName"`.
    pub qualified_name: &'static str,
    /// The event's doc comment, if any.
    pub description: Option<&'static str>,
    /// Total size in bytes of the fixed record payload.
    pub record_size: u16,
    /// Which span phase this event represents.
    pub phase: Phase,
    /// The fields, in declaration order.
    pub fields: &'static [FieldSchema],
}

/// The value of one enum label.
#[verifier::ext_equal]
pub struct LabelView {
    pub value: u64,
    pub label: Seq<char>,
}

/// The value of one field description.
#[verifier::ext_equal]
pub struct FieldView {
    pub name: Seq<char>,
    pub description: Option<Seq<char>>,
    pub ty: FieldType,
    pub offset: u16,
    pub width: u16,
    pub role: FieldRole,
    pub unit: Option<Seq<char>>,
    pub sentinel: Option<u64>,
    pub labels: Seq<LabelView>,
}

/// The value of one event description.
#[verifier::ext_equal]
pub struct SchemaView {
    pub id: u64,
    pub name: Seq<char>,
    pub description: Option<Seq<char>>,
    pub record_size: u16,
    pub phase: Phase,
    pub fields: Seq<FieldView>,
}

impl View for EnumLabel {
    type V = LabelView;

    open spec fn view(&self) -> LabelView {
        LabelView { value: self.value, label: self.label@ }
    }
}

impl View for FieldSchema {
    type V = FieldView;

    open spec fn view(&self) -> FieldView {
        FieldView {
            name: self.name@,
            description: opt_chars(self.description),
            ty: self.ty,
            offset: self.offset,
            width: self.width,
            role: self.role,
            unit: opt_chars(self.unit),
            sentinel: self.sentinel,
            labels: self.enum_labels@.map_values(|l: EnumLabel| l@),
        }
    }
}

impl View for EventSchema {
    type V = SchemaView;

    open spec fn view(&self) -> SchemaView {
        SchemaView {
            id: self.id.0,
            name: self.qualified_name@,
            description: opt_chars(self.description),
            record_size: self.record_size,
            phase: self.phase,
            fields: fields_view(self.fields@),
        }
    }
}

/// The values of a run of field descriptions.
pub open spec fn fields_view(fields: Seq<FieldSchema>) -> Seq<FieldView> {
    fields.map_values(|f: FieldSchema| f@)
}

impl FieldType {
    /// A field type as the hash and the dump format both frame it: a tag byte plus any inline
    /// payload.
    pub open spec fn wire_bytes(self) -> Seq<u8> {
        match self {
            FieldType::U8 => seq![0u8],
            FieldType::U16 => seq![1u8],
            FieldType::U32 => seq![2u8],
            FieldType::U64 => seq![3u8],
            FieldType::I8 => seq![4u8],
            FieldType::I16 => seq![5u8],
            FieldType::I32 => seq![6u8],
            FieldType::I64 => seq![7u8],
            FieldType::Bool => seq![8u8],
            FieldType::Bytes => seq![9u8],
            FieldType::Enum { repr } => seq![10u8, repr],
            FieldType::Interned { dynamic } => seq![11u8, if dynamic { 1u8 } else { 0u8 }],
        }
    }

    /// The natural byte width of a fixed-width type.
    pub open spec fn natural_width(self) -> Option<u16> {
        match self {
            FieldType::U8 | FieldType::I8 | FieldType::Bool => Some(1),
            FieldType::U16 | FieldType::I16 => Some(2),
            FieldType::U32 | FieldType::I32 | FieldType::Interned { .. } => Some(4),
            FieldType::U64 | FieldType::I64 => Some(8),
            FieldType::Enum { repr } => Some(repr as u16),
            FieldType::Bytes => None,
        }
    }

    /// The natural byte width of a fixed-width type, if it has one. [`Bytes`](FieldType::Bytes)
    /// carries its width on the [`FieldSchema`] instead.
    pub fn fixed_width(self) -> (w: Option<u16>)
        ensures
            w == self.natural_width(),
    {
        match self {
            FieldType::U8 | FieldType::I8 | FieldType::Bool => Some(1),
            FieldType::U16 | FieldType::I16 => Some(2),
            FieldType::U32 | FieldType::I32 | FieldType::Interned { .. } => Some(4),
            FieldType::U64 | FieldType::I64 => Some(8),
            FieldType::Enum { repr } => Some(repr as u16),
            FieldType::Bytes => None,
        }
    }
}

impl FieldRole {
    /// The on-disk tag byte of a role.
    pub open spec fn tag(self) -> u8 {
        match self {
            FieldRole::Plain => 0,
            FieldRole::Key => 1,
            FieldRole::SpanId => 2,
            FieldRole::ParentSpanId => 3,
        }
    }

    /// The on-disk tag byte for this role.
    pub fn encode_role(self) -> (t: u8)
        ensures
            t == self.tag(),
    {
        match self {
            FieldRole::Plain => 0,
            FieldRole::Key => 1,
            FieldRole::SpanId => 2,
            FieldRole::ParentSpanId => 3,
        }
    }
}

impl Phase {
    /// The on-disk tag byte of a phase.
    pub open spec fn tag(self) -> u8 {
        match self {
            Phase::Instant => 0,
            Phase::Enter => 1,
            Phase::Exit => 2,
        }
    }

    /// The on-disk tag byte for this phase.
    pub fn encode_phase(self) -> (t: u8)
        ensures
            t == self.tag(),
    {
        match self {
            Phase::Instant => 0,
            Phase::Enter => 1,
            Phase::Exit => 2,
        }
    }
}

/// What the id hash folds in for a sentinel: nothing when there is none.
pub open spec fn sentinel_stream(s: Option<u64>) -> Seq<u8> {
    match s {
        Some(v) => seq![1u8] + le_bytes(v as nat, 8),
        None => Seq::empty(),
    }
}

/// What the id hash folds in for a run of labels.
pub open spec fn labels_stream(labels: Seq<LabelView>) -> Seq<u8>
    decreases labels.len(),
{
    if labels.len() == 0 {
        Seq::empty()
    } else {
        labels_stream(labels.drop_last()) + (le_bytes(labels.last().value as nat, 8) + str_bytes(
            labels.last().label,
        ))
    }
}

/// What the id hash folds in for a field up to its unit.
pub open spec fn field_head_stream(f: FieldView) -> Seq<u8> {
    str_bytes(f.name) + opt_str_bytes(f.description) + f.ty.wire_bytes() + le_bytes(f.offset as nat, 2)
        + le_bytes(f.width as nat, 2) + seq![f.role.tag()] + opt_str_bytes(f.unit)
}

/// What the id hash folds in for one field.
pub open spec fn field_stream(f: FieldView) -> Seq<u8> {
    field_head_stream(f) + sentinel_stream(f.sentinel) + labels_stream(f.labels)
}

/// What the id hash folds in for a run of fields.
pub open spec fn fields_stream(fields: Seq<FieldView>) -> Seq<u8>
    decreases fields.len(),
{
    if fields.len() == 0 {
        Seq::empty()
    } else {
        fields_stream(fields.drop_last()) + field_stream(fields.last())
    }
}

/// Everything that defines an event type, as the bytes its id is a hash of.
pub open spec fn id_stream(name: Seq<char>, phase: Phase, fields: Seq<FieldView>) -> Seq<u8> {
    str_bytes(name) + seq![phase.tag()] + fields_stream(fields)
}

/// The content-addressed id of a name, a phase and fields.
pub open spec fn content_id(name: Seq<char>, phase: Phase, fields: Seq<FieldView>) -> u64 {
    fnv_fold(FNV_OFFSET, id_stream(name, phase, fields))
}

/// Narrows a `usize` layout quantity (a field offset, a width or a record's size) to the `u16` the
/// schema stores. A quantity above 65535 cannot be described.
pub fn layout_u16(value: usize) -> (v: u16)
    requires
        value <= 65535,
    ensures
        v == value,
{
    value as u16
}

/// The index of the first field whose role is `role`, or the number of fields.
pub open spec fn first_with_role(fields: Seq<FieldView>, role: FieldRole) -> nat
    decreases fields.len(),
{
    if fields.len() == 0 || fields[0].role == role {
        0
    } else {
        1 + first_with_role(fields.skip(1), role)
    }
}

/// `first_with_role` is the first index that has the role.
pub proof fn lemma_first_with_role(fields: Seq<FieldView>, role: FieldRole, i: int)
    requires
        0 <= i <= fields.len(),
        forall|j: int| 0 <= j < i ==> fields[j].role != role,
        i < fields.len() ==> fields[i].role == role,
    ensures
        first_with_role(fields, role) == i,
    decreases fields.len(),
{
    if i > 0 {
        let tail = fields.skip(1);
        assert forall|j: int| 0 <= j < i - 1 implies tail[j].role != role by {
            assert(tail[j] == fields[j + 1]);
        }
        lemma_first_with_role(tail, role, i - 1);
    }
}

impl EventSchema {
    /// Looks up a field by name: the first one with that name.
    pub fn field(&self, name: &str) -> (f: Option<&FieldSchema>)
        ensures
            match f {
                Some(f) => exists|i: int|
                    0 <= i < self.fields@.len() && *f == self.fields@[i] && f.name@ == name@
                        && forall|j: int| 0 <= j < i ==> (#[trigger] self.fields@[j]).name@ != name@,
                None => forall|j: int|
                    0 <= j < self.fields@.len() ==> (#[trigger] self.fields@[j]).name@ != name@,
            },
    {
        let wanted = name.to_string();
        let mut i: usize = 0;
        while i < self.fields.len()
            invariant
                i <= self.fields@.len(),
                wanted@ == name@,
                forall|j: int| 0 <= j < i ==> (#[trigger] self.fields@[j]).name@ != name@,
            decreases self.fields@.len() - i,
        {
            if self.fields[i].name.to_string() == wanted {
                return Some(&self.fields[i]);
            }
            i = i + 1;
        }
        None
    }

    /// The key fields, in declaration order: the columns the reader promotes to the top level.
    pub fn keys(&self) -> (keys: Vec<&FieldSchema>)
        ensures
            keys@.map_values(|f: &FieldSchema| *f) == self.fields@.filter(
                |f: FieldSchema| f.role == FieldRole::Key,
            ),
    {
        let mut keys: Vec<&FieldSchema> = Vec::new();
        let mut i: usize = 0;
        let ghost is_key = |f: FieldSchema| f.role == FieldRole::Key;
        let ghost deref = |f: &FieldSchema| *f;
        proof {
            reveal(Seq::filter);
            assert(self.fields@.take(0) =~= Seq::<FieldSchema>::empty());
            assert(keys@.map_values(deref) =~= self.fields@.take(0).filter(is_key));
        }
        while i < self.fields.len()
            invariant
                i <= self.fields@.len(),
                is_key == (|f: FieldSchema| f.role == FieldRole::Key),
                deref == (|f: &FieldSchema| *f),
                keys@.map_values(deref) == self.fields@.take(i as int).filter(is_key),
            decreases self.fields@.len() - i,
        {
            let ghost before = keys@;
            proof {
                reveal(Seq::filter);
                assert(self.fields@.take(i + 1).drop_last() =~= self.fields@.take(i as int));
            }
            if self.fields[i].role == FieldRole::Key {
                keys.push(&self.fields[i]);
                assert(keys@.map_values(deref) =~= before.map_values(deref).push(
                    self.fields@[i as int],
                ));
            }
            i = i + 1;
        }
        assert(self.fields@.take(i as int) =~= self.fields@);
        keys
    }

    /// The first field with the given role.
    fn with_role(&self, role: FieldRole) -> (f: Option<&FieldSchema>)
        ensures
            match f {
                Some(f) => first_with_role(self@.fields, role) < self.fields@.len() && *f
                    == self.fields@[first_with_role(self@.fields, role) as int],
                None => first_with_role(self@.fields, role) == self.fields@.len(),
            },
    {
        let mut i: usize = 0;
        while i < self.fields.len()
            invariant
                i <= self.fields@.len(),
                forall|j: int| 0 <= j < i ==> (#[trigger] self@.fields[j]).role != role,
            decreases self.fields@.len() - i,
        {
            assert(self@.fields[i as int] == self.fields@[i as int]@);
            if self.fields[i].role == role {
                proof {
                    lemma_first_with_role(self@.fields, role, i as int);
                }
                return Some(&self.fields[i]);
            }
            i = i + 1;
        }
        proof {
            lemma_first_with_role(self@.fields, role, i as int);
        }
        None
    }

    /// The span-id field, if this event declares one (`#[event(span_id)]`).
    pub fn span_id(&self) -> (f: Option<&FieldSchema>)
        ensures
            match f {
                Some(f) => first_with_role(self@.fields, FieldRole::SpanId) < self.fields@.len()
                    && *f == self.fields@[first_with_role(
                    self@.fields,
                    FieldRole::SpanId,
                ) as int],
                None => first_with_role(self@.fields, FieldRole::SpanId) == self.fields@.len(),
            },
    {
        self.with_role(FieldRole::SpanId)
    }

    /// The parent-span-id field, if this event declares one (`#[event(parent_span_id)]`).
    pub fn parent_span(&self) -> (f: Option<&FieldSchema>)
        ensures
            match f {
                Some(f) => first_with_role(self@.fields, FieldRole::ParentSpanId)
                    < self.fields@.len() && *f == self.fields@[first_with_role(
                    self@.fields,
                    FieldRole::ParentSpanId,
                ) as int],
                None => first_with_role(self@.fields, FieldRole::ParentSpanId)
                    == self.fields@.len(),
            },
    {
        self.with_role(FieldRole::ParentSpanId)
    }

    /// Computes the content-addressed [`EventId`] of a name, a phase and fields: everything that
    /// defines the event, so two builds whose layout or metadata differs are told apart. The
    /// record size is determined by the offsets and widths already folded in.
    pub fn compute_id(qualified_name: &str, phase: Phase, fields: &[FieldSchema]) -> (id: EventId)
        ensures
            id.0 == content_id(qualified_name@, phase, fields_view(fields@)),
    {
        let mut h = Fnv::new();
        h = h.str(qualified_name);
        h = h.byte(phase.encode_phase());
        let ghost head = str_bytes(qualified_name@) + seq![phase.tag()];
        let ghost view = fields_view(fields@);
        proof {
            lemma_fnv_fold_concat(FNV_OFFSET, str_bytes(qualified_name@), seq![phase.tag()]);
            assert(head + fields_stream(view.take(0)) =~= head);
        }
        let mut i: usize = 0;
        while i < fields.len()
            invariant
                i <= fields@.len(),
                view == fields_view(fields@),
                h@ == fnv_fold(FNV_OFFSET, head + fields_stream(view.take(i as int))),
            decreases fields@.len() - i,
        {
            let f = &fields[i];
            let ghost start = h@;
            h = fold_field(h, f);
            proof {
                assert(view[i as int] == f@);
                assert(view.take(i + 1).drop_last() =~= view.take(i as int));
                let done = fields_stream(view.take(i as int));
                lemma_fnv_fold_concat(FNV_OFFSET, head + done, field_stream(f@));
                assert(head + (done + field_stream(f@)) =~= (head + done) + field_stream(f@));
            }
            i = i + 1;
        }
        assert(view.take(i as int) =~= view);
        EventId(h.finish())
    }
}

/// Folds one field into an id hash.
fn fold_field(h: Fnv, f: &FieldSchema) -> (r: Fnv)
    ensures
        r@ == fnv_fold(h@, field_stream(f@)),
{
    let mut acc = h.str(f.name).opt_str(f.description).field_type(f.ty).u16(f.offset).u16(
        f.width,
    ).byte(f.role.encode_role()).opt_str(f.unit);
    let ghost v = f@;
    proof {
        let a1 = str_bytes(v.name);
        let a2 = a1 + opt_str_bytes(v.description);
        let a3 = a2 + v.ty.wire_bytes();
        let a4 = a3 + le_bytes(v.offset as nat, 2);
        let a5 = a4 + le_bytes(v.width as nat, 2);
        let a6 = a5 + seq![v.role.tag()];
        lemma_fnv_fold_concat(h@, a1, opt_str_bytes(v.description));
        lemma_fnv_fold_concat(h@, a2, v.ty.wire_bytes());
        lemma_fnv_fold_concat(h@, a3, le_bytes(v.offset as nat, 2));
        lemma_fnv_fold_concat(h@, a4, le_bytes(v.width as nat, 2));
        lemma_fnv_fold_concat(h@, a5, seq![v.role.tag()]);
        lemma_fnv_fold_concat(h@, a6, opt_str_bytes(v.unit));
    }
    let ghost head = field_head_stream(v);
    if let Some(s) = f.sentinel {
        let ghost before = acc@;
        acc = acc.byte(1).u64(s);
        proof {
            lemma_fnv_fold_concat(before, seq![1u8], le_bytes(s as nat, 8));
        }
    }
    let ghost base = head + sentinel_stream(v.sentinel);
    proof {
        lemma_fnv_fold_concat(h@, head, sentinel_stream(v.sentinel));
        assert(head + Seq::<u8>::empty() =~= head);
        assert(base + labels_stream(v.labels.take(0)) =~= base);
    }
    let mut j: usize = 0;
    while j < f.enum_labels.len()
        invariant
            j <= f.enum_labels@.len(),
            v == f@,
            acc@ == fnv_fold(h@, base + labels_stream(v.labels.take(j as int))),
        decreases f.enum_labels@.len() - j,
    {
        let l = &f.enum_labels[j];
        let ghost before = acc@;
        acc = acc.u64(l.value).str(l.label);
        proof {
            assert(v.labels[j as int] == l@);
            assert(v.labels.take(j + 1).drop_last() =~= v.labels.take(j as int));
            let done = labels_stream(v.labels.take(j as int));
            let one = le_bytes(l.value as nat, 8) + str_bytes(l.label@);
            lemma_fnv_fold_concat(before, le_bytes(l.value as nat, 8), str_bytes(l.label@));
            lemma_fnv_fold_concat(h@, base + done, one);
            assert(base + (done + one) =~= (base + done) + one);
        }
        j = j + 1;
    }
    assert(v.labels.take(j as int) =~= v.labels);
    acc
}

} // verus!
