//! Byte-level serialization of the dump format.
//!
//! A dump is built with [`DumpWriter`] and parsed with [`DumpReader`]. Everything is little-endian.
//! Strings are a `u16` length and UTF-8 bytes; an optional string is a presence byte followed by
//! the string when present. Every read is bounds-checked and returns [`Error`] rather than
//! panicking, so a truncated or corrupt dump is a clean error.
//!
//! A parser is specified as a function from the bytes that are left to what it read and the bytes
//! that are left after it, or to the error it reports.

use crate::buf::{bytes_as_slice, bytes_of, bytes_slice};
use crate::parse;
use crate::format::{SectionKind, FORMAT_VERSION, LITTLE_ENDIAN, MAGIC};
use crate::id::{opt_chars, opt_str_bytes, str_bytes, EventId};
use crate::le::{
    get_le, le_bytes, lemma_le_value_bound, lemma_pow256_values, put_byte, put_bytes, put_le,
};
use crate::schema::{
    first_with_role, lemma_first_with_role, EventSchema, FieldRole, FieldSchema, FieldType,
    FieldView, LabelView, Phase, SchemaView,
};
use crate::text::{dec_text, push_dec, utf8_string};
use bytes::Bytes;
use vstd::prelude::*;
use vstd::slice::slice_subrange;
use vstd::utf8::encode_utf8;

verus! {

/// Size of the fixed envelope header.
pub const HEADER_LEN: usize = 16;

/// Size of one section-table entry.
pub const SECTION_ENTRY_LEN: usize = 20;

/// Size of a shard section's fields ahead of its region.
pub const SHARD_PREFIX: usize = 28;

/// An error decoding a dump.
#[derive(Clone, Copy, Debug, PartialEq, Eq, Structural)]
pub enum Error {
    /// The file is shorter than a structure being read requires.
    UnexpectedEof,
    /// The leading magic bytes are not [`MAGIC`].
    BadMagic,
    /// The envelope `format` version is one this build does not understand.
    UnsupportedVersion(u16),
    /// A section's declared `offset`/`len` falls outside the file.
    SectionOutOfBounds,
    /// A string field was not valid UTF-8.
    InvalidUtf8,
    /// A `FieldType` tag was not a known value.
    BadTag(u8),
}

impl Error {
    /// What the error says.
    pub open spec fn text(self) -> Seq<char> {
        match self {
            Error::UnexpectedEof => "unexpected end of dump"@,
            Error::BadMagic => "bad magic: not a backbeat dump"@,
            Error::UnsupportedVersion(v) => "unsupported dump format version "@ + dec_text(
                v as nat,
            ),
            Error::SectionOutOfBounds => "section offset/len out of bounds"@,
            Error::InvalidUtf8 => "string field is not valid UTF-8"@,
            Error::BadTag(t) => "unknown tag byte "@ + dec_text(t as nat),
        }
    }

    /// What the error says.
    pub fn message(self) -> (s: String)
        ensures
            s@ == self.text(),
    {
        match self {
            Error::UnexpectedEof => "unexpected end of dump".to_string(),
            Error::BadMagic => "bad magic: not a backbeat dump".to_string(),
            Error::UnsupportedVersion(v) => {
                let mut s = "unsupported dump format version ".to_string();
                push_dec(&mut s, v as u64);
                s
            },
            Error::SectionOutOfBounds => "section offset/len out of bounds".to_string(),
            Error::InvalidUtf8 => "string field is not valid UTF-8".to_string(),
            Error::BadTag(t) => {
                let mut s = "unknown tag byte ".to_string();
                push_dec(&mut s, t as u64);
                s
            },
        }
    }
}

// ---------------------------------------------------------------------------
// Owned read-side mirrors of the schema descriptors.
// ---------------------------------------------------------------------------

/// A value-to-label pair for an enum field, owned (read side).
#[derive(Debug, PartialEq, Eq)]
pub struct OwnedEnumLabel {
    pub value: u64,
    pub label: String,
}

/// Owned mirror of [`crate::schema::FieldSchema`] produced when decoding a dump.
#[derive(Debug, PartialEq, Eq)]
pub struct OwnedField {
    pub name: String,
    pub description: Option<String>,
    pub ty: FieldType,
    pub offset: u16,
    pub width: u16,
    pub role: FieldRole,
    pub unit: Option<String>,
    /// In-band "absent" marker the converter maps to SQL NULL.
    pub sentinel: Option<u64>,
    pub enum_labels: Vec<OwnedEnumLabel>,
}

/// Owned mirror of [`crate::schema::EventSchema`] produced when decoding a dump's registry.
#[derive(Debug, PartialEq, Eq)]
pub struct OwnedSchema {
    pub id: EventId,
    pub qualified_name: String,
    pub description: Option<String>,
    pub record_size: u16,
    pub phase: Phase,
    pub fields: Vec<OwnedField>,
}

/// Dump-level metadata from a [`Meta`](SectionKind::Meta) section.
#[derive(Clone, Debug, PartialEq, Eq)]
pub struct OwnedMeta {
    /// Random id identifying the process that produced this instance's records.
    pub instance_id: u64,
    /// Optional human label for the host/process (empty string if unset).
    pub host: String,
}

/// One decoded [`Intern`](SectionKind::Intern) section.
#[derive(Clone, Debug, PartialEq, Eq)]
pub struct OwnedIntern {
    /// The instance whose `Interned` fields these entries resolve.
    pub instance_id: u64,
    /// `(id, bytes)` pairs, in file order.
    pub entries: Vec<(u32, Vec<u8>)>,
}

/// One decoded shard section: the instance it belongs to, its id, write head, and raw ring region.
#[derive(Clone, Debug)]
pub struct ShardData {
    /// The instance (process) that produced this ring.
    pub instance_id: u64,
    pub shard_id: u32,
    pub head: u64,
    pub capacity: u64,
    /// The raw ring snapshot, `capacity` bytes; a slice of the dump buffer.
    pub region: Bytes,
}

/// The value of a metadata section.
#[verifier::ext_equal]
pub struct MetaView {
    pub instance_id: u64,
    pub host: Seq<char>,
}

/// The value of an intern section.
#[verifier::ext_equal]
pub struct InternView {
    pub instance_id: u64,
    pub entries: Seq<(u32, Seq<u8>)>,
}

/// The value of a shard section.
#[verifier::ext_equal]
pub struct ShardView {
    pub instance_id: u64,
    pub shard_id: u32,
    pub head: u64,
    pub capacity: u64,
    pub region: Seq<u8>,
}

/// The characters of an optional string.
pub open spec fn opt_string(s: Option<String>) -> Option<Seq<char>> {
    match s {
        Some(s) => Some(s@),
        None => None,
    }
}

impl View for OwnedEnumLabel {
    type V = LabelView;

    open spec fn view(&self) -> LabelView {
        LabelView { value: self.value, label: self.label@ }
    }
}

/// The values of a run of owned labels.
pub open spec fn owned_labels_view(labels: Seq<OwnedEnumLabel>) -> Seq<LabelView> {
    labels.map_values(|l: OwnedEnumLabel| l@)
}

impl View for OwnedField {
    type V = FieldView;

    open spec fn view(&self) -> FieldView {
        FieldView {
            name: self.name@,
            description: opt_string(self.description),
            ty: self.ty,
            offset: self.offset,
            width: self.width,
            role: self.role,
            unit: opt_string(self.unit),
            sentinel: self.sentinel,
            labels: owned_labels_view(self.enum_labels@),
        }
    }
}

/// The values of a run of owned fields.
pub open spec fn owned_fields_view(fields: Seq<OwnedField>) -> Seq<FieldView> {
    fields.map_values(|f: OwnedField| f@)
}

impl View for OwnedSchema {
    type V = SchemaView;

    open spec fn view(&self) -> SchemaView {
        SchemaView {
            id: self.id.0,
            name: self.qualified_name@,
            description: opt_string(self.description),
            record_size: self.record_size,
            phase: self.phase,
            fields: owned_fields_view(self.fields@),
        }
    }
}

/// The values of a run of owned schemas.
pub open spec fn owned_schemas_view(schemas: Seq<OwnedSchema>) -> Seq<SchemaView> {
    schemas.map_values(|s: OwnedSchema| s@)
}

impl View for OwnedMeta {
    type V = MetaView;

    open spec fn view(&self) -> MetaView {
        MetaView { instance_id: self.instance_id, host: self.host@ }
    }
}

/// The value of a run of intern entries.
pub open spec fn entries_view(entries: Seq<(u32, Vec<u8>)>) -> Seq<(u32, Seq<u8>)> {
    entries.map_values(|e: (u32, Vec<u8>)| (e.0, e.1@))
}

impl View for OwnedIntern {
    type V = InternView;

    open spec fn view(&self) -> InternView {
        InternView { instance_id: self.instance_id, entries: entries_view(self.entries@) }
    }
}

impl View for ShardData {
    type V = ShardView;

    open spec fn view(&self) -> ShardView {
        ShardView {
            instance_id: self.instance_id,
            shard_id: self.shard_id,
            head: self.head,
            capacity: self.capacity,
            region: bytes_of(self.region),
        }
    }
}

// ---------------------------------------------------------------------------
// The encoding.
// ---------------------------------------------------------------------------

/// An optional number: a presence byte, then the number when present.
pub open spec fn opt_u64_bytes(v: Option<u64>) -> Seq<u8> {
    match v {
        Some(v) => seq![1u8] + le_bytes(v as nat, 8),
        None => seq![0u8],
    }
}

/// A run of values, each encoded by `enc`, one after the other.
pub open spec fn many_bytes<T>(enc: spec_fn(T) -> Seq<u8>, xs: Seq<T>) -> Seq<u8>
    decreases xs.len(),
{
    if xs.len() == 0 {
        Seq::empty()
    } else {
        many_bytes(enc, xs.drop_last()) + enc(xs.last())
    }
}

/// One enum label of a registry entry.
pub open spec fn label_bytes(l: LabelView) -> Seq<u8> {
    le_bytes(l.value as nat, 8) + str_bytes(l.label)
}

/// The encoder of enum labels.
pub open spec fn label_enc() -> spec_fn(LabelView) -> Seq<u8> {
    |l: LabelView| label_bytes(l)
}

/// One field of a registry entry.
pub open spec fn field_bytes(f: FieldView) -> Seq<u8> {
    str_bytes(f.name) + (opt_str_bytes(f.description) + (f.ty.wire_bytes() + (le_bytes(
        f.offset as nat,
        2,
    ) + (le_bytes(f.width as nat, 2) + (seq![f.role.tag()] + (opt_str_bytes(f.unit) + (
    opt_u64_bytes(f.sentinel) + (le_bytes(f.labels.len(), 2) + many_bytes(
        label_enc(),
        f.labels,
    )))))))))
}

/// The encoder of fields.
pub open spec fn field_enc() -> spec_fn(FieldView) -> Seq<u8> {
    |f: FieldView| field_bytes(f)
}

/// One registry entry.
pub open spec fn schema_bytes(s: SchemaView) -> Seq<u8> {
    le_bytes(s.id as nat, 8) + (str_bytes(s.name) + (opt_str_bytes(s.description) + (le_bytes(
        s.record_size as nat,
        2,
    ) + (seq![s.phase.tag()] + (le_bytes(s.fields.len(), 2) + many_bytes(field_enc(), s.fields))))))
}

/// The encoder of registry entries.
pub open spec fn schema_enc() -> spec_fn(SchemaView) -> Seq<u8> {
    |s: SchemaView| schema_bytes(s)
}

/// The body of a Schema section.
pub open spec fn registry_bytes(schemas: Seq<SchemaView>) -> Seq<u8> {
    le_bytes(schemas.len(), 4) + many_bytes(schema_enc(), schemas)
}

/// One entry of an intern table.
pub open spec fn entry_bytes(e: (u32, Seq<u8>)) -> Seq<u8> {
    le_bytes(e.0 as nat, 4) + (le_bytes(e.1.len(), 4) + e.1)
}

/// The encoder of intern entries.
pub open spec fn entry_enc() -> spec_fn((u32, Seq<u8>)) -> Seq<u8> {
    |e: (u32, Seq<u8>)| entry_bytes(e)
}

/// The body of an Intern section.
pub open spec fn intern_bytes(t: InternView) -> Seq<u8> {
    le_bytes(t.instance_id as nat, 8) + (le_bytes(t.entries.len(), 4) + many_bytes(
        entry_enc(),
        t.entries,
    ))
}

/// The body of a Meta section.
pub open spec fn meta_bytes(m: MetaView) -> Seq<u8> {
    le_bytes(m.instance_id as nat, 8) + str_bytes(m.host)
}

/// The body of a Shard section; the region's length is the ring's capacity.
pub open spec fn shard_bytes(instance_id: u64, shard_id: u32, head: u64, region: Seq<u8>) -> Seq<
    u8,
> {
    le_bytes(instance_id as nat, 8) + (le_bytes(shard_id as nat, 4) + (le_bytes(head as nat, 8) + (
    le_bytes(region.len(), 8) + region)))
}

/// One section of a dump: its on-disk kind number and its body.
#[verifier::ext_equal]
pub struct SectionView {
    pub kind: u16,
    pub body: Seq<u8>,
}

/// The total length of the section bodies.
pub open spec fn bodies_len(sections: Seq<SectionView>) -> nat
    decreases sections.len(),
{
    if sections.len() == 0 {
        0
    } else {
        bodies_len(sections.drop_last()) + sections.last().body.len()
    }
}

/// The section bodies, one after the other.
pub open spec fn bodies_bytes(sections: Seq<SectionView>) -> Seq<u8>
    decreases sections.len(),
{
    if sections.len() == 0 {
        Seq::empty()
    } else {
        bodies_bytes(sections.drop_last()) + sections.last().body
    }
}

/// One entry of the section table.
pub open spec fn table_entry_bytes(kind: u16, offset: nat, len: nat) -> Seq<u8> {
    le_bytes(kind as nat, 2) + (le_bytes(0, 2) + (le_bytes(offset, 8) + le_bytes(len, 8)))
}

/// The section table, when the first body begins at `base`.
pub open spec fn table_bytes(sections: Seq<SectionView>, base: nat) -> Seq<u8>
    decreases sections.len(),
{
    if sections.len() == 0 {
        Seq::empty()
    } else {
        table_bytes(sections.drop_last(), base) + table_entry_bytes(
            sections.last().kind,
            base + bodies_len(sections.drop_last()),
            sections.last().body.len(),
        )
    }
}

/// The envelope header of a dump with `count` sections.
pub open spec fn header_bytes(count: nat) -> Seq<u8> {
    MAGIC@ + (le_bytes(FORMAT_VERSION as nat, 2) + (le_bytes(LITTLE_ENDIAN as nat, 2) + (le_bytes(
        count,
        2,
    ) + le_bytes(0, 2))))
}

/// Where the first section body of a dump begins.
pub open spec fn bodies_base(count: nat) -> nat {
    16 + 20 * count
}

/// A whole dump: header, section table, bodies.
pub open spec fn dump_bytes(sections: Seq<SectionView>) -> Seq<u8> {
    header_bytes(sections.len()) + (table_bytes(sections, bodies_base(sections.len()))
        + bodies_bytes(sections))
}

/// The length of a whole dump.
pub open spec fn dump_len(sections: Seq<SectionView>) -> nat {
    bodies_base(sections.len()) + bodies_len(sections)
}

// ---------------------------------------------------------------------------
// Writing.
// ---------------------------------------------------------------------------

/// Appends a `u16` length and the string's UTF-8 bytes.
fn put_str(out: &mut Vec<u8>, s: &str)
    ensures
        final(out)@ == old(out)@ + str_bytes(s@),
{
    let bytes = s.as_bytes();
    put_le(out, bytes.len() as u64, 2);
    put_bytes(out, bytes);
    assert(out@ =~= old(out)@ + str_bytes(s@));
}

/// Appends a presence byte and, when present, the string.
fn put_opt_str(out: &mut Vec<u8>, s: Option<&str>)
    ensures
        final(out)@ == old(out)@ + opt_str_bytes(opt_chars(s)),
{
    match s {
        Some(s) => {
            out.push(1);
            put_str(out, s);
        },
        None => out.push(0),
    }
    assert(out@ =~= old(out)@ + opt_str_bytes(opt_chars(s)));
}

/// Appends a presence byte and, when present, the number.
fn put_opt_u64(out: &mut Vec<u8>, v: Option<u64>)
    ensures
        final(out)@ == old(out)@ + opt_u64_bytes(v),
{
    match v {
        Some(v) => {
            out.push(1);
            put_le(out, v, 8);
        },
        None => out.push(0),
    }
    assert(out@ =~= old(out)@ + opt_u64_bytes(v));
}

/// Appends a field type: a tag byte plus any inline payload.
fn put_field_type(out: &mut Vec<u8>, ty: FieldType)
    ensures
        final(out)@ == old(out)@ + ty.wire_bytes(),
{
    match ty {
        FieldType::U8 => out.push(0),
        FieldType::U16 => out.push(1),
        FieldType::U32 => out.push(2),
        FieldType::U64 => out.push(3),
        FieldType::I8 => out.push(4),
        FieldType::I16 => out.push(5),
        FieldType::I32 => out.push(6),
        FieldType::I64 => out.push(7),
        FieldType::Bool => out.push(8),
        FieldType::Bytes => out.push(9),
        FieldType::Enum { repr } => {
            out.push(10);
            out.push(repr);
        },
        FieldType::Interned { dynamic } => {
            out.push(11);
            out.push(if dynamic { 1 } else { 0 });
        },
    }
    assert(out@ =~= old(out)@ + ty.wire_bytes());
}

/// The first `i + 1` values are the first `i` and then the value at `i`.
proof fn lemma_many_step<T>(enc: spec_fn(T) -> Seq<u8>, xs: Seq<T>, i: int)
    requires
        0 <= i < xs.len(),
    ensures
        many_bytes(enc, xs.take(i + 1)) == many_bytes(enc, xs.take(i)) + enc(xs[i]),
{
    assert(xs.take(i + 1).drop_last() =~= xs.take(i));
}

/// Concatenation is associative.
pub proof fn lemma_assoc(a: Seq<u8>, b: Seq<u8>, c: Seq<u8>)
    ensures
        (a + b) + c == a + (b + c),
{
    assert((a + b) + c =~= a + (b + c));
}

/// What `base` becomes once the fixed part of a field, up to and with the count of its labels, has
/// been appended piece by piece.
spec fn after_field_head(base: Seq<u8>, f: FieldView) -> Seq<u8> {
    base + str_bytes(f.name) + opt_str_bytes(f.description) + f.ty.wire_bytes() + le_bytes(
        f.offset as nat,
        2,
    ) + le_bytes(f.width as nat, 2) + seq![f.role.tag()] + opt_str_bytes(f.unit) + opt_u64_bytes(
        f.sentinel,
    ) + le_bytes(f.labels.len(), 2)
}

/// Appending a field piece by piece appends the field.
proof fn lemma_field_pieces(base: Seq<u8>, f: FieldView)
    ensures
        after_field_head(base, f) + many_bytes(label_enc(), f.labels) == base + field_bytes(f),
{
    let p1 = str_bytes(f.name);
    let p2 = opt_str_bytes(f.description);
    let p3 = f.ty.wire_bytes();
    let p4 = le_bytes(f.offset as nat, 2);
    let p5 = le_bytes(f.width as nat, 2);
    let p6 = seq![f.role.tag()];
    let p7 = opt_str_bytes(f.unit);
    let p8 = opt_u64_bytes(f.sentinel);
    let p9 = le_bytes(f.labels.len(), 2);
    let t9 = many_bytes(label_enc(), f.labels);
    let h1 = base + p1;
    let h2 = h1 + p2;
    let h3 = h2 + p3;
    let h4 = h3 + p4;
    let h5 = h4 + p5;
    let h6 = h5 + p6;
    let h7 = h6 + p7;
    let h8 = h7 + p8;
    let t8 = p9 + t9;
    let t7 = p8 + t8;
    let t6 = p7 + t7;
    let t5 = p6 + t6;
    let t4 = p5 + t5;
    let t3 = p4 + t4;
    let t2 = p3 + t3;
    let t1 = p2 + t2;
    lemma_assoc(h8, p9, t9);
    lemma_assoc(h7, p8, t8);
    lemma_assoc(h6, p7, t7);
    lemma_assoc(h5, p6, t6);
    lemma_assoc(h4, p5, t5);
    lemma_assoc(h3, p4, t4);
    lemma_assoc(h2, p3, t3);
    lemma_assoc(h1, p2, t2);
    lemma_assoc(base, p1, t1);
}

/// Appends one field of a borrowed schema.
fn put_field(out: &mut Vec<u8>, f: &FieldSchema)
    ensures
        final(out)@ == old(out)@ + field_bytes(f@),
{
    put_str(out, f.name);
    put_opt_str(out, f.description);
    put_field_type(out, f.ty);
    put_le(out, f.offset as u64, 2);
    put_le(out, f.width as u64, 2);
    put_byte(out, f.role.encode_role());
    put_opt_str(out, f.unit);
    put_opt_u64(out, f.sentinel);
    put_le(out, f.enum_labels.len() as u64, 2);
    assert(out@ == after_field_head(old(out)@, f@));
    let ghost head = out@;
    let ghost labels = f@.labels;
    assert(head + many_bytes(label_enc(), labels.take(0)) =~= head);
    let mut j: usize = 0;
    while j < f.enum_labels.len()
        invariant
            j <= f.enum_labels@.len(),
            labels == f@.labels,
            out@ == head + many_bytes(label_enc(), labels.take(j as int)),
        decreases f.enum_labels@.len() - j,
    {
        let l = &f.enum_labels[j];
        let ghost before = out@;
        put_le(out, l.value, 8);
        put_str(out, l.label);
        proof {
            assert(labels[j as int] == l@);
            lemma_many_step(label_enc(), labels, j as int);
            assert(out@ =~= before + label_bytes(l@));
            assert(out@ =~= head + many_bytes(label_enc(), labels.take(j + 1)));
        }
        j = j + 1;
    }
    proof {
        assert(labels.take(j as int) =~= labels);
        lemma_field_pieces(old(out)@, f@);
    }
}

/// A borrowed view of an optional owned string.
pub(crate) fn as_deref(s: &Option<String>) -> (r: Option<&str>)
    ensures
        opt_chars(r) == opt_string(*s),
{
    match s {
        Some(t) => Some(t.as_str()),
        None => None,
    }
}

/// Appends one field of an owned schema.
fn put_owned_field(out: &mut Vec<u8>, f: &OwnedField)
    ensures
        final(out)@ == old(out)@ + field_bytes(f@),
{
    put_str(out, f.name.as_str());
    put_opt_str(out, as_deref(&f.description));
    put_field_type(out, f.ty);
    put_le(out, f.offset as u64, 2);
    put_le(out, f.width as u64, 2);
    put_byte(out, f.role.encode_role());
    put_opt_str(out, as_deref(&f.unit));
    put_opt_u64(out, f.sentinel);
    put_le(out, f.enum_labels.len() as u64, 2);
    assert(out@ == after_field_head(old(out)@, f@));
    let ghost head = out@;
    let ghost labels = f@.labels;
    assert(head + many_bytes(label_enc(), labels.take(0)) =~= head);
    let mut j: usize = 0;
    while j < f.enum_labels.len()
        invariant
            j <= f.enum_labels@.len(),
            labels == f@.labels,
            out@ == head + many_bytes(label_enc(), labels.take(j as int)),
        decreases f.enum_labels@.len() - j,
    {
        let l = &f.enum_labels[j];
        let ghost before = out@;
        put_le(out, l.value, 8);
        put_str(out, l.label.as_str());
        proof {
            assert(labels[j as int] == l@);
            lemma_many_step(label_enc(), labels, j as int);
            assert(out@ =~= before + label_bytes(l@));
            assert(out@ =~= head + many_bytes(label_enc(), labels.take(j + 1)));
        }
        j = j + 1;
    }
    proof {
        assert(labels.take(j as int) =~= labels);
        lemma_field_pieces(old(out)@, f@);
    }
}

/// What `base` becomes once the fixed part of a registry entry, up to and with the count of its
/// fields, has been appended piece by piece.
spec fn after_schema_head(base: Seq<u8>, s: SchemaView) -> Seq<u8> {
    base + le_bytes(s.id as nat, 8) + str_bytes(s.name) + opt_str_bytes(s.description) + le_bytes(
        s.record_size as nat,
        2,
    ) + seq![s.phase.tag()] + le_bytes(s.fields.len(), 2)
}

/// Appending a registry entry piece by piece appends the entry.
proof fn lemma_schema_pieces(base: Seq<u8>, s: SchemaView)
    ensures
        after_schema_head(base, s) + many_bytes(field_enc(), s.fields) == base + schema_bytes(s),
{
    let p1 = le_bytes(s.id as nat, 8);
    let p2 = str_bytes(s.name);
    let p3 = opt_str_bytes(s.description);
    let p4 = le_bytes(s.record_size as nat, 2);
    let p5 = seq![s.phase.tag()];
    let p6 = le_bytes(s.fields.len(), 2);
    let t6 = many_bytes(field_enc(), s.fields);
    let h1 = base + p1;
    let h2 = h1 + p2;
    let h3 = h2 + p3;
    let h4 = h3 + p4;
    let h5 = h4 + p5;
    let t5 = p6 + t6;
    let t4 = p5 + t5;
    let t3 = p4 + t4;
    let t2 = p3 + t3;
    let t1 = p2 + t2;
    lemma_assoc(h5, p6, t6);
    lemma_assoc(h4, p5, t5);
    lemma_assoc(h3, p4, t4);
    lemma_assoc(h2, p3, t3);
    lemma_assoc(h1, p2, t2);
    lemma_assoc(base, p1, t1);
}

/// Serializes one [`EventSchema`] into `out` (registry entry framing).
fn put_schema(out: &mut Vec<u8>, s: &EventSchema)
    ensures
        final(out)@ == old(out)@ + schema_bytes(s@),
{
    put_le(out, s.id.get(), 8);
    put_str(out, s.qualified_name);
    put_opt_str(out, s.description);
    put_le(out, s.record_size as u64, 2);
    put_byte(out, s.phase.encode_phase());
    put_le(out, s.fields.len() as u64, 2);
    assert(out@ == after_schema_head(old(out)@, s@));
    let ghost head = out@;
    let ghost fields = s@.fields;
    assert(head + many_bytes(field_enc(), fields.take(0)) =~= head);
    let mut i: usize = 0;
    while i < s.fields.len()
        invariant
            i <= s.fields@.len(),
            fields == s@.fields,
            out@ == head + many_bytes(field_enc(), fields.take(i as int)),
        decreases s.fields@.len() - i,
    {
        let ghost before = out@;
        put_field(out, &s.fields[i]);
        proof {
            assert(fields[i as int] == s.fields@[i as int]@);
            lemma_many_step(field_enc(), fields, i as int);
            assert(out@ =~= head + many_bytes(field_enc(), fields.take(i + 1)));
        }
        i = i + 1;
    }
    proof {
        assert(fields.take(i as int) =~= fields);
        lemma_schema_pieces(old(out)@, s@);
    }
}

/// Serializes one [`OwnedSchema`] into `out`: the same bytes as [`put_schema`] on a borrowed schema
/// of the same value.
pub fn put_owned_schema(out: &mut Vec<u8>, s: &OwnedSchema)
    ensures
        final(out)@ == old(out)@ + schema_bytes(s@),
{
    put_le(out, s.id.get(), 8);
    put_str(out, s.qualified_name.as_str());
    put_opt_str(out, as_deref(&s.description));
    put_le(out, s.record_size as u64, 2);
    put_byte(out, s.phase.encode_phase());
    put_le(out, s.fields.len() as u64, 2);
    assert(out@ == after_schema_head(old(out)@, s@));
    let ghost head = out@;
    let ghost fields = s@.fields;
    assert(head + many_bytes(field_enc(), fields.take(0)) =~= head);
    let mut i: usize = 0;
    while i < s.fields.len()
        invariant
            i <= s.fields@.len(),
            fields == s@.fields,
            out@ == head + many_bytes(field_enc(), fields.take(i as int)),
        decreases s.fields@.len() - i,
    {
        let ghost before = out@;
        put_owned_field(out, &s.fields[i]);
        proof {
            assert(fields[i as int] == s.fields@[i as int]@);
            lemma_many_step(field_enc(), fields, i as int);
            assert(out@ =~= head + many_bytes(field_enc(), fields.take(i + 1)));
        }
        i = i + 1;
    }
    proof {
        assert(fields.take(i as int) =~= fields);
        lemma_schema_pieces(old(out)@, s@);
    }
}

/// A pending section: its kind and its already-serialized body.
struct PendingSection {
    kind: SectionKind,
    body: Vec<u8>,
}

/// Builds a dump byte buffer: add the registry, intern tables, metadata, views and shard sections,
/// then [`finish`](DumpWriter::finish). Its view is the sections added so far.
pub struct DumpWriter {
    sections: Vec<PendingSection>,
}

impl View for DumpWriter {
    type V = Seq<SectionView>;

    closed spec fn view(&self) -> Seq<SectionView> {
        self.sections@.map_values(
            |p: PendingSection| SectionView { kind: p.kind.code(), body: p.body@ },
        )
    }
}

impl Default for DumpWriter {
    fn default() -> (w: Self)
        ensures
            w@ == Seq::<SectionView>::empty(),
    {
        DumpWriter::new()
    }
}

/// The values of a run of borrowed schemas.
pub open spec fn schema_refs_view(schemas: Seq<&EventSchema>) -> Seq<SchemaView> {
    schemas.map_values(|s: &EventSchema| s@)
}

/// The values of a run of borrowed owned schemas.
pub open spec fn owned_refs_view(schemas: Seq<&OwnedSchema>) -> Seq<SchemaView> {
    schemas.map_values(|s: &OwnedSchema| s@)
}

/// The values of a run of borrowed intern entries.
pub open spec fn entry_refs_view(entries: Seq<(u32, &[u8])>) -> Seq<(u32, Seq<u8>)> {
    entries.map_values(|e: (u32, &[u8])| (e.0, e.1@))
}

impl DumpWriter {
    /// A new, empty writer.
    pub fn new() -> (w: Self)
        ensures
            w@ == Seq::<SectionView>::empty(),
    {
        let w = DumpWriter { sections: Vec::new() };
        assert(w@ =~= Seq::<SectionView>::empty());
        w
    }

    /// Adds the schema registry section: every event type that may appear in the shards.
    pub fn schema_registry(&mut self, schemas: &[&EventSchema])
        ensures
            final(self)@ == old(self)@.push(
                SectionView { kind: 0, body: registry_bytes(schema_refs_view(schemas@)) },
            ),
    {
        let mut body: Vec<u8> = Vec::new();
        put_le(&mut body, schemas.len() as u64, 4);
        let ghost head = body@;
        let ghost view = schema_refs_view(schemas@);
        assert(head =~= le_bytes(view.len(), 4));
        assert(head + many_bytes(schema_enc(), view.take(0)) =~= head);
        let mut i: usize = 0;
        while i < schemas.len()
            invariant
                i <= schemas@.len(),
                view == schema_refs_view(schemas@),
                body@ == head + many_bytes(schema_enc(), view.take(i as int)),
            decreases schemas@.len() - i,
        {
            put_schema(&mut body, schemas[i]);
            proof {
                assert(view[i as int] == schemas@[i as int]@);
                lemma_many_step(schema_enc(), view, i as int);
                assert(body@ =~= head + many_bytes(schema_enc(), view.take(i + 1)));
            }
            i = i + 1;
        }
        assert(view.take(i as int) =~= view);
        self.raw_section(SectionKind::Schema, body);
    }

    /// Adds the schema registry section from already-decoded [`OwnedSchema`]s. The serialized form
    /// is identical to [`schema_registry`](Self::schema_registry).
    pub fn schema_registry_owned(&mut self, schemas: &[&OwnedSchema])
        ensures
            final(self)@ == old(self)@.push(
                SectionView { kind: 0, body: registry_bytes(owned_refs_view(schemas@)) },
            ),
    {
        let mut body: Vec<u8> = Vec::new();
        put_le(&mut body, schemas.len() as u64, 4);
        let ghost head = body@;
        let ghost view = owned_refs_view(schemas@);
        assert(head =~= le_bytes(view.len(), 4));
        assert(head + many_bytes(schema_enc(), view.take(0)) =~= head);
        let mut i: usize = 0;
        while i < schemas.len()
            invariant
                i <= schemas@.len(),
                view == owned_refs_view(schemas@),
                body@ == head + many_bytes(schema_enc(), view.take(i as int)),
            decreases schemas@.len() - i,
        {
            put_owned_schema(&mut body, schemas[i]);
            proof {
                assert(view[i as int] == schemas@[i as int]@);
                lemma_many_step(schema_enc(), view, i as int);
                assert(body@ =~= head + many_bytes(schema_enc(), view.take(i + 1)));
            }
            i = i + 1;
        }
        assert(view.take(i as int) =~= view);
        self.raw_section(SectionKind::Schema, body);
    }

    /// Adds an intern table section for one instance: `id` to bytes, resolving that instance's
    /// `Interned` fields at read time.
    pub fn intern_table(&mut self, instance_id: u64, entries: &[(u32, &[u8])])
        ensures
            final(self)@ == old(self)@.push(
                SectionView {
                    kind: 1,
                    body: intern_bytes(
                        InternView { instance_id, entries: entry_refs_view(entries@) },
                    ),
                },
            ),
    {
        let mut body: Vec<u8> = Vec::new();
        put_le(&mut body, instance_id, 8);
        put_le(&mut body, entries.len() as u64, 4);
        let ghost head = body@;
        let ghost view = entry_refs_view(entries@);
        assert(head =~= le_bytes(instance_id as nat, 8) + le_bytes(view.len(), 4));
        assert(head + many_bytes(entry_enc(), view.take(0)) =~= head);
        let mut i: usize = 0;
        while i < entries.len()
            invariant
                i <= entries@.len(),
                view == entry_refs_view(entries@),
                body@ == head + many_bytes(entry_enc(), view.take(i as int)),
            decreases entries@.len() - i,
        {
            let e = entries[i];
            let ghost before = body@;
            put_le(&mut body, e.0 as u64, 4);
            put_le(&mut body, e.1.len() as u64, 4);
            put_bytes(&mut body, e.1);
            proof {
                assert(view[i as int] == (e.0, e.1@));
                lemma_many_step(entry_enc(), view, i as int);
                assert(body@ =~= before + entry_bytes((e.0, e.1@)));
                assert(body@ =~= head + many_bytes(entry_enc(), view.take(i + 1)));
            }
            i = i + 1;
        }
        proof {
            assert(view.take(i as int) =~= view);
            assert(body@ =~= intern_bytes(InternView { instance_id, entries: view }));
        }
        self.raw_section(SectionKind::Intern, body);
    }

    /// Adds a views section: opaque query DDL, stored verbatim.
    pub fn views(&mut self, sql: &str)
        ensures
            final(self)@ == old(self)@.push(SectionView { kind: 4, body: encode_utf8(sql@) }),
    {
        let mut body: Vec<u8> = Vec::new();
        put_bytes(&mut body, sql.as_bytes());
        assert(body@ =~= encode_utf8(sql@));
        self.raw_section(SectionKind::Views, body);
    }

    /// Adds a metadata section for one instance: its `instance_id` and an optional host label (pass
    /// `""` for none).
    pub fn meta(&mut self, instance_id: u64, host: &str)
        ensures
            final(self)@ == old(self)@.push(
                SectionView {
                    kind: 3,
                    body: meta_bytes(MetaView { instance_id, host: host@ }),
                },
            ),
    {
        let mut body: Vec<u8> = Vec::new();
        put_le(&mut body, instance_id, 8);
        put_str(&mut body, host);
        assert(body@ =~= meta_bytes(MetaView { instance_id, host: host@ }));
        self.raw_section(SectionKind::Meta, body);
    }

    /// Adds one shard section: the instance it belongs to, its id, write head, and raw ring region
    /// (length is its capacity).
    pub fn shard(&mut self, instance_id: u64, shard_id: u32, head: u64, region: &[u8])
        ensures
            final(self)@ == old(self)@.push(
                SectionView { kind: 2, body: shard_bytes(instance_id, shard_id, head, region@) },
            ),
    {
        let mut body: Vec<u8> = Vec::new();
        put_le(&mut body, instance_id, 8);
        put_le(&mut body, shard_id as u64, 4);
        put_le(&mut body, head, 8);
        put_le(&mut body, region.len() as u64, 8);
        put_bytes(&mut body, region);
        assert(body@ =~= shard_bytes(instance_id, shard_id, head, region@));
        self.raw_section(SectionKind::Shard, body);
    }

    /// Appends an already-serialized section body verbatim under `kind`.
    pub fn raw_section(&mut self, kind: SectionKind, body: Vec<u8>)
        ensures
            final(self)@ == old(self)@.push(SectionView { kind: kind.code(), body: body@ }),
    {
        self.sections.push(PendingSection { kind, body });
        assert(self@ =~= old(self)@.push(SectionView { kind: kind.code(), body: body@ }));
    }

    /// Serializes the whole dump: envelope header, section table, then each section body. The
    /// dump's length must be one that this machine can index.
    pub fn finish(self) -> (out: Vec<u8>)
        requires
            dump_len(self@) <= usize::MAX,
        ensures
            out@ == dump_bytes(self@),
    {
        let n: usize = self.sections.len();
        let ghost view = self@;
        let mut body_offset: usize = HEADER_LEN + n * SECTION_ENTRY_LEN;
        let mut out: Vec<u8> = Vec::new();
        put_bytes(&mut out, &MAGIC);
        put_le(&mut out, FORMAT_VERSION as u64, 2);
        put_le(&mut out, LITTLE_ENDIAN as u64, 2);
        put_le(&mut out, n as u64, 2);
        put_le(&mut out, 0, 2);
        let ghost head = header_bytes(n as nat);
        let ghost base = bodies_base(n as nat);
        assert(out@ =~= head);
        assert(head + table_bytes(view.take(0), base) =~= head);
        let mut i: usize = 0;
        while i < n
            invariant
                i <= n == self.sections@.len(),
                view == self@,
                base == bodies_base(n as nat),
                base + bodies_len(view) <= usize::MAX,
                body_offset == base + bodies_len(view.take(i as int)),
                out@ == head + table_bytes(view.take(i as int), base),
            decreases n - i,
        {
            let s = &self.sections[i];
            let ghost before = out@;
            put_le(&mut out, s.kind.to_u16() as u64, 2);
            put_le(&mut out, 0, 2);
            put_le(&mut out, body_offset as u64, 8);
            put_le(&mut out, s.body.len() as u64, 8);
            proof {
                assert(view[i as int] == (SectionView { kind: s.kind.code(), body: s.body@ }));
                assert(view.take(i + 1).drop_last() =~= view.take(i as int));
                lemma_bodies_len_prefix(view, i + 1);
                assert(out@ =~= before + table_entry_bytes(
                    s.kind.code(),
                    body_offset as nat,
                    s.body@.len(),
                ));
                assert(out@ =~= head + table_bytes(view.take(i + 1), base));
            }
            body_offset = body_offset + s.body.len();
            i = i + 1;
        }
        assert(view.take(n as int) =~= view);
        let ghost table = out@;
        assert(table + bodies_bytes(view.take(0)) =~= table);
        let mut j: usize = 0;
        while j < n
            invariant
                j <= n == self.sections@.len(),
                view == self@,
                out@ == table + bodies_bytes(view.take(j as int)),
            decreases n - j,
        {
            put_bytes(&mut out, self.sections[j].body.as_slice());
            proof {
                assert(view[j as int].body == self.sections@[j as int].body@);
                assert(view.take(j + 1).drop_last() =~= view.take(j as int));
                assert(out@ =~= table + bodies_bytes(view.take(j + 1)));
            }
            j = j + 1;
        }
        assert(view.take(n as int) =~= view);
        assert(out@ =~= dump_bytes(view));
        out
    }
}

impl DumpWriter {
    /// Serializes the whole dump, unless its length is one that this machine cannot index.
    pub fn checked_finish(self) -> (out: Option<Vec<u8>>)
        ensures
            match out {
                Some(b) => b@ == dump_bytes(self@) && dump_len(self@) <= usize::MAX,
                None => dump_len(self@) > usize::MAX,
            },
    {
        let ghost view = self@;
        let n: usize = self.sections.len();
        let mut total: usize = match n.checked_mul(SECTION_ENTRY_LEN) {
            Some(t) => t,
            None => return None,
        };
        total = match total.checked_add(HEADER_LEN) {
            Some(t) => t,
            None => return None,
        };
        let mut i: usize = 0;
        while i < n
            invariant
                i <= n == self.sections@.len(),
                view == self@,
                total == bodies_base(n as nat) + bodies_len(view.take(i as int)),
            decreases n - i,
        {
            proof {
                assert(view[i as int].body == self.sections@[i as int].body@);
                assert(view.take(i + 1).drop_last() =~= view.take(i as int));
                lemma_bodies_len_prefix(view, i + 1);
            }
            total = match total.checked_add(self.sections[i].body.len()) {
                Some(t) => t,
                None => return None,
            };
            i = i + 1;
        }
        assert(view.take(i as int) =~= view);
        Some(self.finish())
    }
}

/// The bodies of the first sections are no longer than all bodies.
pub proof fn lemma_bodies_len_prefix(sections: Seq<SectionView>, i: int)
    requires
        0 <= i <= sections.len(),
    ensures
        bodies_len(sections.take(i)) <= bodies_len(sections),
    decreases sections.len(),
{
    if i < sections.len() {
        assert(sections.drop_last().take(i) =~= sections.take(i));
        lemma_bodies_len_prefix(sections.drop_last(), i);
    } else {
        assert(sections.take(i) =~= sections);
    }
}

// ---------------------------------------------------------------------------
// Reading.
// ---------------------------------------------------------------------------

/// A bounds-checked forward cursor over a byte slice. Its view is the bytes that are left.
pub struct Cursor<'a> {
    bytes: &'a [u8],
    pos: usize,
}

impl<'a> View for Cursor<'a> {
    type V = Seq<u8>;

    closed spec fn view(&self) -> Seq<u8> {
        self.bytes@.skip(self.pos as int)
    }
}

impl<'a> Cursor<'a> {
    #[verifier::type_invariant]
    spec fn inv(self) -> bool {
        self.pos <= self.bytes@.len()
    }

    /// A cursor at the start of the bytes.
    pub fn new(bytes: &'a [u8]) -> (c: Self)
        ensures
            c@ == bytes@,
    {
        let c = Cursor { bytes, pos: 0 };
        assert(c@ =~= bytes@);
        c
    }

    /// The next `n` bytes.
    fn take(&mut self, n: usize) -> (r: Result<&'a [u8], Error>)
        ensures
            match r {
                Ok(b) => parse::p_take(old(self)@, n as nat) == Ok::<(Seq<u8>, Seq<u8>), Error>(
                    (b@, final(self)@),
                ),
                Err(e) => parse::p_take(old(self)@, n as nat) == Err::<(Seq<u8>, Seq<u8>), Error>(e),
            },
    {
        proof {
            use_type_invariant(&*self);
        }
        let left: usize = self.bytes.len() - self.pos;
        if n > left {
            return Err(Error::UnexpectedEof);
        }
        let end: usize = self.pos + n;
        let slice = slice_subrange(self.bytes, self.pos, end);
        proof {
            assert(slice@ =~= self@.take(n as int));
            assert(self.bytes@.skip(end as int) =~= self@.skip(n as int));
        }
        self.pos = end;
        Ok(slice)
    }

    /// Bytes left to read. It caps speculative pre-allocation against a forged element count: every
    /// element takes at least one byte.
    pub fn remaining(&self) -> (n: usize)
        ensures
            n == self@.len(),
    {
        proof {
            use_type_invariant(self);
        }
        self.bytes.len() - self.pos
    }

    /// An element count, capped by what the remaining bytes could hold.
    fn capped(&self, count: usize) -> (n: usize)
        ensures
            n == if count < self@.len() {
                count as nat
            } else {
                self@.len()
            },
    {
        let left: usize = self.remaining();
        if count < left {
            count
        } else {
            left
        }
    }

    fn u8(&mut self) -> (r: Result<u8, Error>)
        ensures
            match r {
                Ok(v) => parse::p_u8(old(self)@) == Ok::<(u8, Seq<u8>), Error>((v, final(self)@)),
                Err(e) => parse::p_u8(old(self)@) == Err::<(u8, Seq<u8>), Error>(e),
            },
    {
        match self.take(1) {
            Ok(b) => Ok(b[0]),
            Err(e) => Err(e),
        }
    }

    /// A number on `n` bytes, at most eight.
    fn uint(&mut self, n: usize) -> (r: Result<u64, Error>)
        requires
            n <= 8,
        ensures
            match r {
                Ok(v) => parse::p_uint(old(self)@, n as nat) == Ok::<(nat, Seq<u8>), Error>(
                    (v as nat, final(self)@),
                ) && v < crate::le::pow256(n as nat),
                Err(e) => parse::p_uint(old(self)@, n as nat) == Err::<(nat, Seq<u8>), Error>(e),
            },
    {
        match self.take(n) {
            Ok(b) => {
                proof {
                    lemma_le_value_bound(b@);
                }
                Ok(get_le(b))
            },
            Err(e) => Err(e),
        }
    }

    fn u16(&mut self) -> (r: Result<u16, Error>)
        ensures
            match r {
                Ok(v) => parse::p_uint(old(self)@, 2) == Ok::<(nat, Seq<u8>), Error>(
                    (v as nat, final(self)@),
                ),
                Err(e) => parse::p_uint(old(self)@, 2) == Err::<(nat, Seq<u8>), Error>(e),
            },
    {
        proof {
            lemma_pow256_values();
        }
        match self.uint(2) {
            Ok(v) => Ok(v as u16),
            Err(e) => Err(e),
        }
    }

    fn u32(&mut self) -> (r: Result<u32, Error>)
        ensures
            match r {
                Ok(v) => parse::p_uint(old(self)@, 4) == Ok::<(nat, Seq<u8>), Error>(
                    (v as nat, final(self)@),
                ),
                Err(e) => parse::p_uint(old(self)@, 4) == Err::<(nat, Seq<u8>), Error>(e),
            },
    {
        proof {
            lemma_pow256_values();
        }
        match self.uint(4) {
            Ok(v) => Ok(v as u32),
            Err(e) => Err(e),
        }
    }

    fn u64(&mut self) -> (r: Result<u64, Error>)
        ensures
            match r {
                Ok(v) => parse::p_uint(old(self)@, 8) == Ok::<(nat, Seq<u8>), Error>(
                    (v as nat, final(self)@),
                ),
                Err(e) => parse::p_uint(old(self)@, 8) == Err::<(nat, Seq<u8>), Error>(e),
            },
    {
        self.uint(8)
    }

    fn str(&mut self) -> (r: Result<String, Error>)
        ensures
            match r {
                Ok(v) => parse::p_str(old(self)@) == Ok::<(Seq<char>, Seq<u8>), Error>(
                    (v@, final(self)@),
                ),
                Err(e) => parse::p_str(old(self)@) == Err::<(Seq<char>, Seq<u8>), Error>(e),
            },
    {
        let len: u16 = match self.u16() {
            Ok(v) => v,
            Err(e) => return Err(e),
        };
        let bytes = match self.take(len as usize) {
            Ok(v) => v,
            Err(e) => return Err(e),
        };
        match utf8_string(bytes) {
            Some(t) => Ok(t),
            None => Err(Error::InvalidUtf8),
        }
    }

    fn opt_str(&mut self) -> (r: Result<Option<String>, Error>)
        ensures
            match r {
                Ok(v) => parse::p_opt_str(old(self)@) == Ok::<(Option<Seq<char>>, Seq<u8>), Error>(
                    (opt_string(v), final(self)@),
                ),
                Err(e) => parse::p_opt_str(old(self)@) == Err::<
                    (Option<Seq<char>>, Seq<u8>),
                    Error,
                >(e),
            },
    {
        let flag: u8 = match self.u8() {
            Ok(v) => v,
            Err(e) => return Err(e),
        };
        if flag == 0 {
            Ok(None)
        } else {
            match self.str() {
                Ok(v) => Ok(Some(v)),
                Err(e) => Err(e),
            }
        }
    }

    fn opt_u64(&mut self) -> (r: Result<Option<u64>, Error>)
        ensures
            match r {
                Ok(v) => parse::p_opt_u64(old(self)@) == Ok::<(Option<u64>, Seq<u8>), Error>(
                    (v, final(self)@),
                ),
                Err(e) => parse::p_opt_u64(old(self)@) == Err::<(Option<u64>, Seq<u8>), Error>(e),
            },
    {
        let flag: u8 = match self.u8() {
            Ok(v) => v,
            Err(e) => return Err(e),
        };
        if flag == 0 {
            Ok(None)
        } else {
            match self.u64() {
                Ok(v) => Ok(Some(v)),
                Err(e) => Err(e),
            }
        }
    }

    /// Reads a [`FieldRole`] tag. Unknown tags decode to [`FieldRole::Plain`], so a dump written by
    /// a newer producer degrades rather than failing.
    fn role(&mut self) -> (r: Result<FieldRole, Error>)
        ensures
            match r {
                Ok(v) => parse::p_role(old(self)@) == Ok::<(FieldRole, Seq<u8>), Error>(
                    (v, final(self)@),
                ),
                Err(e) => parse::p_role(old(self)@) == Err::<(FieldRole, Seq<u8>), Error>(e),
            },
    {
        match self.u8() {
            Ok(tag) => Ok(
                match tag {
                    1 => FieldRole::Key,
                    2 => FieldRole::SpanId,
                    3 => FieldRole::ParentSpanId,
                    _ => FieldRole::Plain,
                },
            ),
            Err(e) => Err(e),
        }
    }

    /// Reads a [`Phase`] tag. Unknown tags decode to [`Phase::Instant`].
    fn phase(&mut self) -> (r: Result<Phase, Error>)
        ensures
            match r {
                Ok(v) => parse::p_phase(old(self)@) == Ok::<(Phase, Seq<u8>), Error>(
                    (v, final(self)@),
                ),
                Err(e) => parse::p_phase(old(self)@) == Err::<(Phase, Seq<u8>), Error>(e),
            },
    {
        match self.u8() {
            Ok(tag) => Ok(
                match tag {
                    1 => Phase::Enter,
                    2 => Phase::Exit,
                    _ => Phase::Instant,
                },
            ),
            Err(e) => Err(e),
        }
    }

    fn field_type(&mut self) -> (r: Result<FieldType, Error>)
        ensures
            match r {
                Ok(v) => parse::p_field_type(old(self)@) == Ok::<(FieldType, Seq<u8>), Error>(
                    (v, final(self)@),
                ),
                Err(e) => parse::p_field_type(old(self)@) == Err::<(FieldType, Seq<u8>), Error>(e),
            },
    {
        let tag: u8 = match self.u8() {
            Ok(v) => v,
            Err(e) => return Err(e),
        };
        match tag {
            0 => Ok(FieldType::U8),
            1 => Ok(FieldType::U16),
            2 => Ok(FieldType::U32),
            3 => Ok(FieldType::U64),
            4 => Ok(FieldType::I8),
            5 => Ok(FieldType::I16),
            6 => Ok(FieldType::I32),
            7 => Ok(FieldType::I64),
            8 => Ok(FieldType::Bool),
            9 => Ok(FieldType::Bytes),
            10 => match self.u8() {
                Ok(repr) => Ok(FieldType::Enum { repr }),
                Err(e) => Err(e),
            },
            11 => match self.u8() {
                Ok(b) => Ok(FieldType::Interned { dynamic: b != 0 }),
                Err(e) => Err(e),
            },
            _ => Err(Error::BadTag(tag)),
        }
    }
}

/// Decodes a count and that many enum labels.
fn get_labels(cur: &mut Cursor) -> (r: Result<Vec<OwnedEnumLabel>, Error>)
    ensures
        match r {
            Ok(v) => parse::p_labels(old(cur)@) == Ok::<(Seq<LabelView>, Seq<u8>), Error>(
                (owned_labels_view(v@), final(cur)@),
            ),
            Err(e) => parse::p_labels(old(cur)@) == Err::<(Seq<LabelView>, Seq<u8>), Error>(e),
        },
{
    let count: u16 = match cur.u16() {
        Ok(v) => v,
        Err(e) => return Err(e),
    };
    let ghost start = cur@;
    let ghost p = parse::label_parser();
    let mut labels: Vec<OwnedEnumLabel> = Vec::with_capacity(cur.capped(count as usize));
    assert(owned_labels_view(labels@) =~= Seq::<LabelView>::empty());
    let mut i: u16 = 0;
    while i < count
        invariant
            i <= count,
            p == parse::label_parser(),
            parse::p_labels(old(cur)@) == parse::p_many(p, start, count as nat),
            parse::p_many(p, start, i as nat) == Ok::<(Seq<LabelView>, Seq<u8>), Error>(
                (owned_labels_view(labels@), cur@),
            ),
        decreases count - i,
    {
        let ghost here = cur@;
        let ghost before = labels@;
        let value: u64 = match cur.u64() {
            Ok(v) => v,
            Err(e) => {
                proof {
                    assert(p(here) == parse::p_label(here));
                    parse::lemma_many_error(p, start, (i + 1) as nat, count as nat);
                }
                return Err(e);
            },
        };
        let label = match cur.str() {
            Ok(v) => v,
            Err(e) => {
                proof {
                    assert(p(here) == parse::p_label(here));
                    parse::lemma_many_error(p, start, (i + 1) as nat, count as nat);
                }
                return Err(e);
            },
        };
        labels.push(OwnedEnumLabel { value, label });
        proof {
            assert(p(here) == parse::p_label(here));
            assert(owned_labels_view(labels@) =~= owned_labels_view(before).push(
                labels@.last()@,
            ));
        }
        i = i + 1;
    }
    Ok(labels)
}

/// Decodes one field of a registry entry.
fn get_field(cur: &mut Cursor) -> (r: Result<OwnedField, Error>)
    ensures
        match r {
            Ok(v) => parse::p_field(old(cur)@) == Ok::<(FieldView, Seq<u8>), Error>(
                (v@, final(cur)@),
            ),
            Err(e) => parse::p_field(old(cur)@) == Err::<(FieldView, Seq<u8>), Error>(e),
        },
{
    proof {
        reveal(parse::p_field);
    }
    let name = match cur.str() {
        Ok(v) => v,
        Err(e) => return Err(e),
    };
    let description = match cur.opt_str() {
        Ok(v) => v,
        Err(e) => return Err(e),
    };
    let ty = match cur.field_type() {
        Ok(v) => v,
        Err(e) => return Err(e),
    };
    let offset: u16 = match cur.u16() {
        Ok(v) => v,
        Err(e) => return Err(e),
    };
    let width: u16 = match cur.u16() {
        Ok(v) => v,
        Err(e) => return Err(e),
    };
    let role = match cur.role() {
        Ok(v) => v,
        Err(e) => return Err(e),
    };
    let unit = match cur.opt_str() {
        Ok(v) => v,
        Err(e) => return Err(e),
    };
    let sentinel = match cur.opt_u64() {
        Ok(v) => v,
        Err(e) => return Err(e),
    };
    let enum_labels = match get_labels(cur) {
        Ok(v) => v,
        Err(e) => return Err(e),
    };
    Ok(OwnedField { name, description, ty, offset, width, role, unit, sentinel, enum_labels })
}

/// Decodes a count and that many fields.
fn get_fields(cur: &mut Cursor) -> (r: Result<Vec<OwnedField>, Error>)
    ensures
        match r {
            Ok(v) => parse::p_fields(old(cur)@) == Ok::<(Seq<FieldView>, Seq<u8>), Error>(
                (owned_fields_view(v@), final(cur)@),
            ),
            Err(e) => parse::p_fields(old(cur)@) == Err::<(Seq<FieldView>, Seq<u8>), Error>(e),
        },
{
    let count: u16 = match cur.u16() {
        Ok(v) => v,
        Err(e) => return Err(e),
    };
    let ghost start = cur@;
    let ghost p = parse::field_parser();
    let mut fields: Vec<OwnedField> = Vec::with_capacity(cur.capped(count as usize));
    assert(owned_fields_view(fields@) =~= Seq::<FieldView>::empty());
    let mut i: u16 = 0;
    while i < count
        invariant
            i <= count,
            p == parse::field_parser(),
            parse::p_fields(old(cur)@) == parse::p_many(p, start, count as nat),
            parse::p_many(p, start, i as nat) == Ok::<(Seq<FieldView>, Seq<u8>), Error>(
                (owned_fields_view(fields@), cur@),
            ),
        decreases count - i,
    {
        let ghost here = cur@;
        let ghost before = fields@;
        assert(p(here) == parse::p_field(here));
        match get_field(cur) {
            Ok(f) => fields.push(f),
            Err(e) => {
                proof {
                    parse::lemma_many_error(p, start, (i + 1) as nat, count as nat);
                }
                return Err(e);
            },
        }
        assert(owned_fields_view(fields@) =~= owned_fields_view(before).push(fields@.last()@));
        i = i + 1;
    }
    Ok(fields)
}

/// Decodes one [`OwnedSchema`] from `cur` (inverse of [`put_schema`]).
pub fn get_schema(cur: &mut Cursor) -> (r: Result<OwnedSchema, Error>)
    ensures
        match r {
            Ok(v) => parse::p_schema(old(cur)@) == Ok::<(SchemaView, Seq<u8>), Error>(
                (v@, final(cur)@),
            ),
            Err(e) => parse::p_schema(old(cur)@) == Err::<(SchemaView, Seq<u8>), Error>(e),
        },
{
    proof {
        reveal(parse::p_schema);
    }
    let id = match cur.u64() {
        Ok(v) => EventId(v),
        Err(e) => return Err(e),
    };
    let qualified_name = match cur.str() {
        Ok(v) => v,
        Err(e) => return Err(e),
    };
    let description = match cur.opt_str() {
        Ok(v) => v,
        Err(e) => return Err(e),
    };
    let record_size: u16 = match cur.u16() {
        Ok(v) => v,
        Err(e) => return Err(e),
    };
    let phase = match cur.phase() {
        Ok(v) => v,
        Err(e) => return Err(e),
    };
    let fields = match get_fields(cur) {
        Ok(v) => v,
        Err(e) => return Err(e),
    };
    Ok(OwnedSchema { id, qualified_name, description, record_size, phase, fields })
}

/// Whether two slices hold the same bytes.
pub(crate) fn same_bytes(a: &[u8], b: &[u8]) -> (r: bool)
    ensures
        r == (a@ == b@),
{
    if a.len() != b.len() {
        return false;
    }
    let mut i: usize = 0;
    while i < a.len()
        invariant
            i <= a@.len() == b@.len(),
            forall|j: int| 0 <= j < i ==> a@[j] == b@[j],
        decreases a@.len() - i,
    {
        if a[i] != b[i] {
            return false;
        }
        i = i + 1;
    }
    assert(a@ =~= b@);
    true
}

/// A parsed dump: the validated envelope plus access to its sections. It owns the dump bytes, and
/// shard regions are handed out as slices of the same buffer.
pub struct DumpReader {
    bytes: Bytes,
    flags: u16,
    /// `(kind_raw, offset, len)` for each section, in file order.
    sections: Vec<(u16, usize, usize)>,
}

/// The sections that a table describes in the dump `whole`.
spec fn table_view(whole: Seq<u8>, table: Seq<(u16, usize, usize)>) -> Seq<SectionView> {
    table.map_values(
        |t: (u16, usize, usize)|
            SectionView { kind: t.0, body: whole.subrange(t.1 as int, t.1 + t.2) },
    )
}

impl View for DumpReader {
    type V = parse::DumpView;

    closed spec fn view(&self) -> parse::DumpView {
        parse::DumpView {
            flags: self.flags,
            sections: table_view(bytes_of(self.bytes), self.sections@),
        }
    }
}

impl DumpReader {
    #[verifier::type_invariant]
    spec fn inv(self) -> bool {
        forall|i: int|
            0 <= i < self.sections@.len() ==> (#[trigger] self.sections@[i]).1
                + self.sections@[i].2 <= bytes_of(self.bytes).len()
    }

    /// Parses and validates a dump's envelope and section table.
    pub fn new(bytes: Bytes) -> (r: Result<Self, Error>)
        ensures
            match r {
                Ok(d) => parse::p_dump(bytes_of(bytes)) == Ok::<parse::DumpView, Error>(d@),
                Err(e) => parse::p_dump(bytes_of(bytes)) == Err::<parse::DumpView, Error>(e),
            },
    {
        let ghost whole = bytes_of(bytes);
        let slice = bytes_as_slice(&bytes);
        let mut cur = Cursor::new(slice);
        let magic = match cur.take(8) {
            Ok(v) => v,
            Err(e) => return Err(e),
        };
        if !same_bytes(magic, &MAGIC) {
            return Err(Error::BadMagic);
        }
        let format: u16 = match cur.u16() {
            Ok(v) => v,
            Err(e) => return Err(e),
        };
        if format != FORMAT_VERSION {
            return Err(Error::UnsupportedVersion(format));
        }
        let flags: u16 = match cur.u16() {
            Ok(v) => v,
            Err(e) => return Err(e),
        };
        let section_count: u16 = match cur.u16() {
            Ok(v) => v,
            Err(e) => return Err(e),
        };
        let _reserved: u16 = match cur.u16() {
            Ok(v) => v,
            Err(e) => return Err(e),
        };
        let sections = match get_table(slice, &mut cur, section_count) {
            Ok(v) => v,
            Err(e) => return Err(e),
        };
        Ok(DumpReader { bytes, flags, sections })
    }

    /// The envelope flag bits.
    pub fn flags(&self) -> (f: u16)
        ensures
            f == self@.flags,
    {
        self.flags
    }

    /// The number of sections in the dump.
    pub fn section_count(&self) -> (n: usize)
        ensures
            n == self@.sections.len(),
    {
        self.sections.len()
    }

    /// Where the bodies of the sections of `kind` lie, in file order. Unknown section kinds are
    /// simply never matched.
    fn ranges_of(&self, kind: SectionKind) -> (v: Vec<(usize, usize)>)
        ensures
            v@.len() == parse::bodies_of(self@.sections, kind.code()).len(),
            forall|i: int|
                0 <= i < v@.len() ==> (#[trigger] v@[i]).0 + v@[i].1 <= bytes_of(self.bytes).len()
                    && parse::bodies_of(self@.sections, kind.code())[i] == bytes_of(
                    self.bytes,
                ).subrange(v@[i].0 as int, v@[i].0 + v@[i].1),
    {
        proof {
            use_type_invariant(self);
        }
        let code: u16 = kind.to_u16();
        let ghost all = self@.sections;
        let mut v: Vec<(usize, usize)> = Vec::new();
        let mut i: usize = 0;
        while i < self.sections.len()
            invariant
                i <= self.sections@.len(),
                all == self@.sections,
                self.inv(),
                code == kind.code(),
                v@.len() == parse::bodies_of(all.take(i as int), code).len(),
                forall|k: int|
                    0 <= k < v@.len() ==> (#[trigger] v@[k]).0 + v@[k].1 <= bytes_of(
                        self.bytes,
                    ).len() && parse::bodies_of(all.take(i as int), code)[k] == bytes_of(
                        self.bytes,
                    ).subrange(v@[k].0 as int, v@[k].0 + v@[k].1),
            decreases self.sections@.len() - i,
        {
            let t = self.sections[i];
            proof {
                assert(all.take(i + 1).drop_last() =~= all.take(i as int));
                assert(all[i as int].kind == t.0);
            }
            if t.0 == code {
                v.push((t.1, t.2));
            }
            i = i + 1;
        }
        assert(all.take(i as int) =~= all);
        v
    }

    /// The raw bodies of every section of `kind`, in file order.
    fn bodies_of(&self, kind: SectionKind) -> (v: Vec<&[u8]>)
        ensures
            slices_view(v@) == parse::bodies_of(self@.sections, kind.code()),
    {
        let ranges = self.ranges_of(kind);
        let whole = bytes_as_slice(&self.bytes);
        let mut v: Vec<&[u8]> = Vec::new();
        let ghost bodies = parse::bodies_of(self@.sections, kind.code());
        let mut i: usize = 0;
        while i < ranges.len()
            invariant
                i <= ranges@.len() == bodies.len(),
                whole@ == bytes_of(self.bytes),
                bodies == parse::bodies_of(self@.sections, kind.code()),
                forall|k: int|
                    0 <= k < ranges@.len() ==> (#[trigger] ranges@[k]).0 + ranges@[k].1
                        <= whole@.len() && bodies[k] == whole@.subrange(
                        ranges@[k].0 as int,
                        ranges@[k].0 + ranges@[k].1,
                    ),
                v@.len() == i,
                forall|k: int| 0 <= k < i ==> (#[trigger] v@[k])@ == bodies[k],
            decreases ranges@.len() - i,
        {
            let (off, len) = ranges[i];
            assert(off + len <= whole.len());
            v.push(slice_subrange(whole, off, off + len));
            i = i + 1;
        }
        assert(slices_view(v@) =~= bodies);
        v
    }

    /// Decodes the schema registry into owned schemas. Empty if the dump has no registry section.
    pub fn schemas(&self) -> (r: Result<Vec<OwnedSchema>, Error>)
        ensures
            match r {
                Ok(v) => parse::dump_schemas(self@.sections) == Ok::<Seq<SchemaView>, Error>(
                    owned_schemas_view(v@),
                ),
                Err(e) => parse::dump_schemas(self@.sections) == Err::<Seq<SchemaView>, Error>(e),
            },
    {
        let bodies = self.bodies_of(SectionKind::Schema);
        let mut out: Vec<OwnedSchema> = Vec::new();
        if bodies.len() == 0 {
            assert(owned_schemas_view(out@) =~= Seq::<SchemaView>::empty());
            return Ok(out);
        }
        let ghost body = parse::bodies_of(self@.sections, 0)[0];
        assert(slices_view(bodies@)[0] == bodies@[0]@);
        let mut cur = Cursor::new(bodies[0]);
        let count: u32 = match cur.u32() {
            Ok(v) => v,
            Err(e) => return Err(e),
        };
        let ghost start = cur@;
        let ghost p = parse::schema_parser();
        assert(owned_schemas_view(out@) =~= Seq::<SchemaView>::empty());
        let mut i: u32 = 0;
        while i < count
            invariant
                i <= count,
                p == parse::schema_parser(),
                body == parse::bodies_of(self@.sections, 0)[0],
                parse::bodies_of(self@.sections, 0).len() > 0,
                parse::p_uint(body, 4) == Ok::<(nat, Seq<u8>), Error>((count as nat, start)),
                parse::p_many(p, start, i as nat) == Ok::<(Seq<SchemaView>, Seq<u8>), Error>(
                    (owned_schemas_view(out@), cur@),
                ),
            decreases count - i,
        {
            let ghost here = cur@;
            let ghost before = out@;
            assert(p(here) == parse::p_schema(here));
            match get_schema(&mut cur) {
                Ok(s) => out.push(s),
                Err(e) => {
                    proof {
                        parse::lemma_many_error(p, start, (i + 1) as nat, count as nat);
                    }
                    return Err(e);
                },
            }
            assert(owned_schemas_view(out@) =~= owned_schemas_view(before).push(out@.last()@));
            i = i + 1;
        }
        Ok(out)
    }

    /// Decodes every intern table, one [`OwnedIntern`] per Intern section, in file order.
    pub fn intern_tables(&self) -> (r: Result<Vec<OwnedIntern>, Error>)
        ensures
            match r {
                Ok(v) => parse::dump_interns(self@.sections) == Ok::<Seq<InternView>, Error>(
                    interns_view(v@),
                ),
                Err(e) => parse::dump_interns(self@.sections) == Err::<Seq<InternView>, Error>(e),
            },
    {
        let bodies = self.bodies_of(SectionKind::Intern);
        let ghost p = |b: Seq<u8>| parse::p_intern(b);
        let ghost rs = parse::bodies_of(self@.sections, 1).map_values(p);
        let mut out: Vec<OwnedIntern> = Vec::new();
        assert(interns_view(out@) =~= Seq::<InternView>::empty());
        assert(rs.take(0) =~= Seq::<Result<InternView, Error>>::empty());
        let mut i: usize = 0;
        while i < bodies.len()
            invariant
                i <= bodies@.len(),
                p == (|b: Seq<u8>| parse::p_intern(b)),
                slices_view(bodies@) == parse::bodies_of(self@.sections, 1),
                rs == parse::bodies_of(self@.sections, 1).map_values(p),
                parse::all_ok(rs.take(i as int)) == Ok::<Seq<InternView>, Error>(
                    interns_view(out@),
                ),
            decreases bodies@.len() - i,
        {
            let ghost before = out@;
            proof {
                assert(slices_view(bodies@)[i as int] == bodies@[i as int]@);
                assert(rs[i as int] == parse::p_intern(bodies@[i as int]@));
                assert(rs.take(i + 1).drop_last() =~= rs.take(i as int));
            }
            match get_intern(bodies[i]) {
                Ok(t) => out.push(t),
                Err(e) => {
                    proof {
                        parse::lemma_all_ok_error(rs, i + 1);
                    }
                    return Err(e);
                },
            }
            assert(interns_view(out@) =~= interns_view(before).push(out@.last()@));
            i = i + 1;
        }
        assert(rs.take(i as int) =~= rs);
        Ok(out)
    }

    /// Decodes every instance's metadata, one [`OwnedMeta`] per Meta section, in file order.
    pub fn metas(&self) -> (r: Result<Vec<OwnedMeta>, Error>)
        ensures
            match r {
                Ok(v) => parse::dump_metas(self@.sections) == Ok::<Seq<MetaView>, Error>(
                    metas_view(v@),
                ),
                Err(e) => parse::dump_metas(self@.sections) == Err::<Seq<MetaView>, Error>(e),
            },
    {
        let bodies = self.bodies_of(SectionKind::Meta);
        let ghost p = |b: Seq<u8>| parse::p_meta(b);
        let ghost rs = parse::bodies_of(self@.sections, 3).map_values(p);
        let mut out: Vec<OwnedMeta> = Vec::new();
        assert(metas_view(out@) =~= Seq::<MetaView>::empty());
        assert(rs.take(0) =~= Seq::<Result<MetaView, Error>>::empty());
        let mut i: usize = 0;
        while i < bodies.len()
            invariant
                i <= bodies@.len(),
                p == (|b: Seq<u8>| parse::p_meta(b)),
                slices_view(bodies@) == parse::bodies_of(self@.sections, 3),
                rs == parse::bodies_of(self@.sections, 3).map_values(p),
                parse::all_ok(rs.take(i as int)) == Ok::<Seq<MetaView>, Error>(metas_view(out@)),
            decreases bodies@.len() - i,
        {
            let ghost before = out@;
            proof {
                assert(slices_view(bodies@)[i as int] == bodies@[i as int]@);
                assert(rs[i as int] == parse::p_meta(bodies@[i as int]@));
                assert(rs.take(i + 1).drop_last() =~= rs.take(i as int));
            }
            match get_meta(bodies[i]) {
                Ok(m) => out.push(m),
                Err(e) => {
                    proof {
                        parse::lemma_all_ok_error(rs, i + 1);
                    }
                    return Err(e);
                },
            }
            assert(metas_view(out@) =~= metas_view(before).push(out@.last()@));
            i = i + 1;
        }
        assert(rs.take(i as int) =~= rs);
        Ok(out)
    }

    /// Decodes every views section, one `String` per Views section, in file order.
    pub fn views(&self) -> (r: Result<Vec<String>, Error>)
        ensures
            match r {
                Ok(v) => parse::dump_views(self@.sections) == Ok::<Seq<Seq<char>>, Error>(
                    strings_view(v@),
                ),
                Err(e) => parse::dump_views(self@.sections) == Err::<Seq<Seq<char>>, Error>(e),
            },
    {
        let bodies = self.bodies_of(SectionKind::Views);
        let ghost p = |b: Seq<u8>| parse::p_view(b);
        let ghost rs = parse::bodies_of(self@.sections, 4).map_values(p);
        let mut out: Vec<String> = Vec::new();
        assert(strings_view(out@) =~= Seq::<Seq<char>>::empty());
        assert(rs.take(0) =~= Seq::<Result<Seq<char>, Error>>::empty());
        let mut i: usize = 0;
        while i < bodies.len()
            invariant
                i <= bodies@.len(),
                p == (|b: Seq<u8>| parse::p_view(b)),
                slices_view(bodies@) == parse::bodies_of(self@.sections, 4),
                rs == parse::bodies_of(self@.sections, 4).map_values(p),
                parse::all_ok(rs.take(i as int)) == Ok::<Seq<Seq<char>>, Error>(
                    strings_view(out@),
                ),
            decreases bodies@.len() - i,
        {
            let ghost before = out@;
            proof {
                assert(slices_view(bodies@)[i as int] == bodies@[i as int]@);
                assert(rs[i as int] == parse::p_view(bodies@[i as int]@));
                assert(rs.take(i + 1).drop_last() =~= rs.take(i as int));
            }
            match utf8_string(bodies[i]) {
                Some(t) => out.push(t),
                None => {
                    proof {
                        parse::lemma_all_ok_error(rs, i + 1);
                    }
                    return Err(Error::InvalidUtf8);
                },
            }
            assert(strings_view(out@) =~= strings_view(before).push(out@.last()@));
            i = i + 1;
        }
        assert(rs.take(i as int) =~= rs);
        Ok(out)
    }

    /// Decodes every shard section, in file order. Each `region` is a slice of the dump buffer.
    pub fn shards(&self) -> (r: Result<Vec<ShardData>, Error>)
        ensures
            match r {
                Ok(v) => parse::dump_shards(self@.sections) == Ok::<Seq<ShardView>, Error>(
                    shards_view(v@),
                ),
                Err(e) => parse::dump_shards(self@.sections) == Err::<Seq<ShardView>, Error>(e),
            },
    {
        let ranges = self.ranges_of(SectionKind::Shard);
        let ghost bodies = parse::bodies_of(self@.sections, 2);
        let ghost p = |b: Seq<u8>| parse::p_shard(b);
        let ghost rs = bodies.map_values(p);
        let mut out: Vec<ShardData> = Vec::new();
        assert(shards_view(out@) =~= Seq::<ShardView>::empty());
        assert(rs.take(0) =~= Seq::<Result<ShardView, Error>>::empty());
        let mut i: usize = 0;
        while i < ranges.len()
            invariant
                i <= ranges@.len() == bodies.len(),
                p == (|b: Seq<u8>| parse::p_shard(b)),
                bodies == parse::bodies_of(self@.sections, 2),
                rs == bodies.map_values(p),
                forall|k: int|
                    0 <= k < ranges@.len() ==> (#[trigger] ranges@[k]).0 + ranges@[k].1
                        <= bytes_of(self.bytes).len() && bodies[k] == bytes_of(
                        self.bytes,
                    ).subrange(ranges@[k].0 as int, ranges@[k].0 + ranges@[k].1),
                parse::all_ok(rs.take(i as int)) == Ok::<Seq<ShardView>, Error>(shards_view(out@)),
            decreases ranges@.len() - i,
        {
            let ghost before = out@;
            let (off, len) = ranges[i];
            proof {
                assert(ranges@[i as int].0 == off);
                assert(rs[i as int] == parse::p_shard(bodies[i as int]));
                assert(rs.take(i + 1).drop_last() =~= rs.take(i as int));
            }
            match get_shard(&self.bytes, off, len) {
                Ok(s) => out.push(s),
                Err(e) => {
                    proof {
                        parse::lemma_all_ok_error(rs, i + 1);
                    }
                    return Err(e);
                },
            }
            assert(shards_view(out@) =~= shards_view(before).push(out@.last()@));
            i = i + 1;
        }
        assert(rs.take(i as int) =~= rs);
        Ok(out)
    }

    /// The raw, undecoded body of every section of `kind`, in file order.
    pub fn raw_bodies(&self, kind: SectionKind) -> (v: Vec<Vec<u8>>)
        ensures
            vecs_view(v@) == parse::bodies_of(self@.sections, kind.code()),
    {
        let bodies = self.bodies_of(kind);
        let mut v: Vec<Vec<u8>> = Vec::new();
        let mut i: usize = 0;
        while i < bodies.len()
            invariant
                i <= bodies@.len(),
                v@.len() == i,
                forall|k: int| 0 <= k < i ==> (#[trigger] v@[k])@ == bodies@[k]@,
            decreases bodies@.len() - i,
        {
            let mut copy: Vec<u8> = Vec::new();
            put_bytes(&mut copy, bodies[i]);
            assert(copy@ =~= bodies@[i as int]@);
            v.push(copy);
            i = i + 1;
        }
        assert(vecs_view(v@) =~= slices_view(bodies@));
        v
    }
}

/// The contents of a run of slices.
pub open spec fn slices_view(v: Seq<&[u8]>) -> Seq<Seq<u8>> {
    v.map_values(|s: &[u8]| s@)
}

/// The contents of a run of vectors.
pub open spec fn vecs_view(v: Seq<Vec<u8>>) -> Seq<Seq<u8>> {
    v.map_values(|s: Vec<u8>| s@)
}

/// The contents of a run of strings.
pub open spec fn strings_view(v: Seq<String>) -> Seq<Seq<char>> {
    v.map_values(|s: String| s@)
}

/// The values of a run of intern tables.
pub open spec fn interns_view(v: Seq<OwnedIntern>) -> Seq<InternView> {
    v.map_values(|t: OwnedIntern| t@)
}

/// The values of a run of metadata.
pub open spec fn metas_view(v: Seq<OwnedMeta>) -> Seq<MetaView> {
    v.map_values(|m: OwnedMeta| m@)
}

/// The values of a run of shards.
pub open spec fn shards_view(v: Seq<ShardData>) -> Seq<ShardView> {
    v.map_values(|s: ShardData| s@)
}

/// Decodes the section table of the dump `whole`.
fn get_table(whole: &[u8], cur: &mut Cursor, count: u16) -> (r: Result<
    Vec<(u16, usize, usize)>,
    Error,
>)
    ensures
        match r {
            Ok(v) => {
                &&& parse::p_many(parse::table_parser(whole@), old(cur)@, count as nat) == Ok::<
                    (Seq<SectionView>, Seq<u8>),
                    Error,
                >((table_view(whole@, v@), final(cur)@))
                &&& forall|i: int|
                    0 <= i < v@.len() ==> (#[trigger] v@[i]).1 + v@[i].2 <= whole@.len()
            },
            Err(e) => parse::p_many(parse::table_parser(whole@), old(cur)@, count as nat) == Err::<
                (Seq<SectionView>, Seq<u8>),
                Error,
            >(e),
        },
{
    let ghost start = cur@;
    let ghost p = parse::table_parser(whole@);
    let mut sections: Vec<(u16, usize, usize)> = Vec::new();
    assert(table_view(whole@, sections@) =~= Seq::<SectionView>::empty());
    let mut i: u16 = 0;
    while i < count
        invariant
            i <= count,
            start == old(cur)@,
            p == parse::table_parser(whole@),
            parse::p_many(p, start, i as nat) == Ok::<(Seq<SectionView>, Seq<u8>), Error>(
                (table_view(whole@, sections@), cur@),
            ),
            forall|k: int|
                0 <= k < sections@.len() ==> (#[trigger] sections@[k]).1 + sections@[k].2
                    <= whole@.len(),
        decreases count - i,
    {
        let ghost here = cur@;
        let ghost before = sections@;
        assert(p(here) == parse::p_table_entry(whole@, here));
        match get_table_entry(whole, cur) {
            Ok(t) => {
                sections.push(t);
            },
            Err(e) => {
                proof {
                    parse::lemma_many_error(p, start, (i + 1) as nat, count as nat);
                }
                return Err(e);
            },
        }
        proof {
            let t = sections@.last();
            assert(table_view(whole@, sections@) =~= table_view(whole@, before).push(
                SectionView { kind: t.0, body: whole@.subrange(t.1 as int, t.1 + t.2) },
            ));
        }
        i = i + 1;
    }
    Ok(sections)
}

/// Decodes one entry of the section table of the dump `whole`, checking that its body lies within
/// the file.
fn get_table_entry(whole: &[u8], cur: &mut Cursor) -> (r: Result<(u16, usize, usize), Error>)
    ensures
        match r {
            Ok(t) => {
                &&& t.1 + t.2 <= whole@.len()
                &&& parse::p_table_entry(whole@, old(cur)@) == Ok::<(SectionView, Seq<u8>), Error>(
                    (
                        SectionView { kind: t.0, body: whole@.subrange(t.1 as int, t.1 + t.2) },
                        final(cur)@,
                    ),
                )
            },
            Err(e) => parse::p_table_entry(whole@, old(cur)@) == Err::<
                (SectionView, Seq<u8>),
                Error,
            >(e),
        },
{
    proof {
        reveal(parse::p_table_entry);
    }
    let kind: u16 = match cur.u16() {
        Ok(v) => v,
        Err(e) => return Err(e),
    };
    let _pad: u16 = match cur.u16() {
        Ok(v) => v,
        Err(e) => return Err(e),
    };
    let offset: usize = match cur.u64() {
        Ok(v) => v as usize,
        Err(e) => return Err(e),
    };
    let len: usize = match cur.u64() {
        Ok(v) => v as usize,
        Err(e) => return Err(e),
    };
    match offset.checked_add(len) {
        Some(end) => {
            if end > whole.len() {
                return Err(Error::SectionOutOfBounds);
            }
        },
        None => {
            assert(whole.len() <= usize::MAX);
            return Err(Error::SectionOutOfBounds);
        },
    }
    Ok((kind, offset, len))
}

/// Decodes the body of an Intern section.
fn get_intern(body: &[u8]) -> (r: Result<OwnedIntern, Error>)
    ensures
        match r {
            Ok(t) => parse::p_intern(body@) == Ok::<InternView, Error>(t@),
            Err(e) => parse::p_intern(body@) == Err::<InternView, Error>(e),
        },
{
    proof {
        reveal(parse::p_intern);
    }
    let mut cur = Cursor::new(body);
    let instance_id: u64 = match cur.u64() {
        Ok(v) => v,
        Err(e) => return Err(e),
    };
    let count: u32 = match cur.u32() {
        Ok(v) => v,
        Err(e) => return Err(e),
    };
    let ghost start = cur@;
    let ghost p = parse::entry_parser();
    let mut entries: Vec<(u32, Vec<u8>)> = Vec::new();
    assert(entries_view(entries@) =~= Seq::<(u32, Seq<u8>)>::empty());
    let mut i: u32 = 0;
    while i < count
        invariant
            i <= count,
            p == parse::entry_parser(),
            parse::p_many(p, start, i as nat) == Ok::<(Seq<(u32, Seq<u8>)>, Seq<u8>), Error>(
                (entries_view(entries@), cur@),
            ),
            parse::p_many(p, start, count as nat) is Err ==> parse::p_intern(body@) == Err::<
                InternView,
                Error,
            >(parse::p_many(p, start, count as nat)->Err_0),
        decreases count - i,
    {
        let ghost here = cur@;
        let ghost before = entries@;
        assert(p(here) == parse::p_entry(here));
        match get_entry(&mut cur) {
            Ok(e) => entries.push(e),
            Err(e) => {
                proof {
                    parse::lemma_many_error(p, start, (i + 1) as nat, count as nat);
                }
                return Err(e);
            },
        }
        proof {
            let e = entries@.last();
            assert(entries_view(entries@) =~= entries_view(before).push((e.0, e.1@)));
        }
        i = i + 1;
    }
    Ok(OwnedIntern { instance_id, entries })
}

/// Decodes one entry of an intern table.
fn get_entry(cur: &mut Cursor) -> (r: Result<(u32, Vec<u8>), Error>)
    ensures
        match r {
            Ok(e) => parse::p_entry(old(cur)@) == Ok::<((u32, Seq<u8>), Seq<u8>), Error>(
                ((e.0, e.1@), final(cur)@),
            ),
            Err(e) => parse::p_entry(old(cur)@) == Err::<((u32, Seq<u8>), Seq<u8>), Error>(e),
        },
{
    proof {
        reveal(parse::p_entry);
    }
    let id: u32 = match cur.u32() {
        Ok(v) => v,
        Err(e) => return Err(e),
    };
    let len: u32 = match cur.u32() {
        Ok(v) => v,
        Err(e) => return Err(e),
    };
    let slice = match cur.take(len as usize) {
        Ok(v) => v,
        Err(e) => return Err(e),
    };
    let mut value: Vec<u8> = Vec::new();
    put_bytes(&mut value, slice);
    assert(value@ =~= slice@);
    Ok((id, value))
}

/// Decodes the body of a Meta section.
fn get_meta(body: &[u8]) -> (r: Result<OwnedMeta, Error>)
    ensures
        match r {
            Ok(m) => parse::p_meta(body@) == Ok::<MetaView, Error>(m@),
            Err(e) => parse::p_meta(body@) == Err::<MetaView, Error>(e),
        },
{
    let mut cur = Cursor::new(body);
    let instance_id: u64 = match cur.u64() {
        Ok(v) => v,
        Err(e) => return Err(e),
    };
    let host = match cur.str() {
        Ok(v) => v,
        Err(e) => return Err(e),
    };
    Ok(OwnedMeta { instance_id, host })
}

/// Decodes the Shard section at `off` of the dump `whole`.
fn get_shard(whole: &Bytes, off: usize, len: usize) -> (r: Result<ShardData, Error>)
    requires
        off + len <= bytes_of(*whole).len(),
    ensures
        match r {
            Ok(s) => parse::p_shard(bytes_of(*whole).subrange(off as int, off + len)) == Ok::<
                ShardView,
                Error,
            >(s@),
            Err(e) => parse::p_shard(bytes_of(*whole).subrange(off as int, off + len)) == Err::<
                ShardView,
                Error,
            >(e),
        },
{
    proof {
        reveal(parse::p_shard);
    }
    let slice = bytes_as_slice(whole);
    assert(off + len <= slice.len());
    let body = slice_subrange(slice, off, off + len);
    let mut cur = Cursor::new(body);
    let instance_id: u64 = match cur.u64() {
        Ok(v) => v,
        Err(e) => return Err(e),
    };
    let shard_id: u32 = match cur.u32() {
        Ok(v) => v,
        Err(e) => return Err(e),
    };
    let head: u64 = match cur.u64() {
        Ok(v) => v,
        Err(e) => return Err(e),
    };
    let capacity: usize = match cur.u64() {
        Ok(v) => v as usize,
        Err(e) => return Err(e),
    };
    assert(cur@ =~= body@.skip(28));
    if capacity > len - SHARD_PREFIX {
        return Err(Error::SectionOutOfBounds);
    }
    let begin: usize = off + SHARD_PREFIX;
    let region = bytes_slice(whole, begin, begin + capacity);
    assert(bytes_of(region) =~= cur@.take(capacity as int));
    Ok(ShardData { instance_id, shard_id, head, capacity: capacity as u64, region })
}

impl OwnedSchema {
    /// The first field with the given role.
    fn with_role(&self, role: FieldRole) -> (f: Option<&OwnedField>)
        ensures
            match f {
                Some(f) => first_with_role(self@.fields, role) < self.fields@.len() && *f
                    == self.fields@[first_with_role(self@.fields, role) as int],
                None => first_with_role(self@.fields, role) == self.fields@.len(),
            },
    {
        let mut i: usize = 0;
        while i < self.fields.len()
            invariant
                i <= self.fields@.len(),
                forall|j: int| 0 <= j < i ==> (#[trigger] self@.fields[j]).role != role,
            decreases self.fields@.len() - i,
        {
            assert(self@.fields[i as int] == self.fields@[i as int]@);
            if self.fields[i].role == role {
                proof {
                    lemma_first_with_role(self@.fields, role, i as int);
                }
                return Some(&self.fields[i]);
            }
            i = i + 1;
        }
        proof {
            lemma_first_with_role(self@.fields, role, i as int);
        }
        None
    }

    /// The span-id field, if this event declares one.
    pub fn span_id(&self) -> (f: Option<&OwnedField>)
        ensures
            match f {
                Some(f) => first_with_role(self@.fields, FieldRole::SpanId) < self.fields@.len()
                    && *f == self.fields@[first_with_role(
                    self@.fields,
                    FieldRole::SpanId,
                ) as int],
                None => first_with_role(self@.fields, FieldRole::SpanId) == self.fields@.len(),
            },
    {
        self.with_role(FieldRole::SpanId)
    }

    /// The parent-span-id field, if this event declares one.
    pub fn parent_span(&self) -> (f: Option<&OwnedField>)
        ensures
            match f {
                Some(f) => first_with_role(self@.fields, FieldRole::ParentSpanId)
                    < self.fields@.len() && *f == self.fields@[first_with_role(
                    self@.fields,
                    FieldRole::ParentSpanId,
                ) as int],
                None => first_with_role(self@.fields, FieldRole::ParentSpanId)
                    == self.fields@.len(),
            },
    {
        self.with_role(FieldRole::ParentSpanId)
    }
}

impl Clone for OwnedEnumLabel {
    fn clone(&self) -> (r: Self)
        ensures
            r@ == self@,
    {
        OwnedEnumLabel { value: self.value, label: self.label.clone() }
    }
}

impl Clone for OwnedField {
    fn clone(&self) -> (r: Self)
        ensures
            r@ == self@,
    {
        let mut enum_labels: Vec<OwnedEnumLabel> = Vec::new();
        let mut i: usize = 0;
        while i < self.enum_labels.len()
            invariant
                i <= self.enum_labels@.len(),
                enum_labels@.len() == i,
                forall|k: int| 0 <= k < i ==> (#[trigger] enum_labels@[k])@ == self.enum_labels@[k]@,
            decreases self.enum_labels@.len() - i,
        {
            enum_labels.push(self.enum_labels[i].clone());
            i = i + 1;
        }
        assert(owned_labels_view(enum_labels@) =~= owned_labels_view(self.enum_labels@));
        OwnedField {
            name: self.name.clone(),
            description: clone_opt(&self.description),
            ty: self.ty,
            offset: self.offset,
            width: self.width,
            role: self.role,
            unit: clone_opt(&self.unit),
            sentinel: self.sentinel,
            enum_labels,
        }
    }
}

impl Clone for OwnedSchema {
    fn clone(&self) -> (r: Self)
        ensures
            r@ == self@,
    {
        let mut fields: Vec<OwnedField> = Vec::new();
        let mut i: usize = 0;
        while i < self.fields.len()
            invariant
                i <= self.fields@.len(),
                fields@.len() == i,
                forall|k: int| 0 <= k < i ==> (#[trigger] fields@[k])@ == self.fields@[k]@,
            decreases self.fields@.len() - i,
        {
            fields.push(self.fields[i].clone());
            i = i + 1;
        }
        assert(owned_fields_view(fields@) =~= owned_fields_view(self.fields@));
        OwnedSchema {
            id: self.id,
            qualified_name: self.qualified_name.clone(),
            description: clone_opt(&self.description),
            record_size: self.record_size,
            phase: self.phase,
            fields,
        }
    }
}

/// A copy of an optional string.
fn clone_opt(s: &Option<String>) -> (r: Option<String>)
    ensures
        opt_string(r) == opt_string(*s),
{
    match s {
        Some(t) => Some(t.clone()),
        None => None,
    }
}

/// Copies of a run of schemas.
pub(crate) fn clone_schemas(v: &Vec<OwnedSchema>) -> (r: Vec<OwnedSchema>)
    ensures
        owned_schemas_view(r@) == owned_schemas_view(v@),
{
    let mut r: Vec<OwnedSchema> = Vec::new();
    let mut i: usize = 0;
    while i < v.len()
        invariant
            i <= v@.len(),
            r@.len() == i,
            forall|k: int| 0 <= k < i ==> (#[trigger] r@[k])@ == v@[k]@,
        decreases v@.len() - i,
    {
        r.push(v[i].clone());
        i = i + 1;
    }
    assert(owned_schemas_view(r@) =~= owned_schemas_view(v@));
    r
}

/// Copies of a run of strings.
pub(crate) fn clone_strings(v: &Vec<String>) -> (r: Vec<String>)
    ensures
        strings_view(r@) == strings_view(v@),
{
    let mut r: Vec<String> = Vec::new();
    let mut i: usize = 0;
    while i < v.len()
        invariant
            i <= v@.len(),
            r@.len() == i,
            forall|k: int| 0 <= k < i ==> (#[trigger] r@[k])@ == v@[k]@,
        decreases v@.len() - i,
    {
        r.push(v[i].clone());
        i = i + 1;
    }
    assert(strings_view(r@) =~= strings_view(v@));
    r
}

} // verus!
