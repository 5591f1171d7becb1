//! A human-readable summary of a dump: its envelope, its schema registry and its per-shard record
//! counts.
//!
//! Everything here is driven by the dump's embedded registry. A record's event id is matched against
//! the registry to attribute it to an event and to validate its size.

use crate::buf::{bytes_as_slice, bytes_of};
use crate::model::{
    dump_parts, index_by_id, indexes, is_record, record_schema, record_validator, schema_of_id,
    shard_walk, DumpParts,
};
use crate::order::{insert_by, insert_pos, lemma_insert_pos, name_le, str_le};
use crate::parse::p_dump;
use crate::record::record_id;
use crate::ring::{decides, walk, payloads};
use crate::schema::{FieldRole, FieldType, FieldView, Phase, SchemaView};
use crate::id::{id_hex, push_id};
use crate::text::{
    chars_of, dec, dec_text, hex_text, pad_left, push_dec, push_dec_wide, push_hex, push_padded,
};
use crate::wire::{
    interns_view, metas_view, owned_fields_view, owned_schemas_view, shards_view, strings_view,
    DumpReader, Error, InternView, MetaView, OwnedField, OwnedIntern, OwnedMeta, OwnedSchema,
    ShardData, ShardView,
};
use bytes::Bytes;
use std::collections::HashMap;
use vstd::prelude::*;
use vstd::utf8::encode_utf8;

verus! {

// ---------------------------------------------------------------------------
// What the summary says.
// ---------------------------------------------------------------------------

/// The envelope.
pub open spec fn envelope_text(size: nat, flags: u16, sections: nat) -> Seq<char> {
    "envelope\n  size:      "@ + dec_text(size) + " bytes\n  flags:     0x"@ + hex_text(
        flags as nat,
        4,
    ) + "\n  sections:  "@ + dec_text(sections) + "\n"@
}

/// The note on an event's span phase.
pub open spec fn phase_note(phase: Phase) -> Seq<char> {
    match phase {
        Phase::Enter => "  [span enter]"@,
        Phase::Exit => "  [span exit]"@,
        Phase::Instant => ""@,
    }
}

/// A text between two others, if there is one.
pub open spec fn opt_note(open: Seq<char>, note: Option<Seq<char>>, close: Seq<char>) -> Seq<char> {
    match note {
        Some(t) => open + t + close,
        None => Seq::empty(),
    }
}

/// The mark of a field's role: `*` key, `$` span id, `^` parent span id.
pub open spec fn role_mark(role: FieldRole) -> Seq<char> {
    match role {
        FieldRole::Key => "*"@,
        FieldRole::SpanId => "$"@,
        FieldRole::ParentSpanId => "^"@,
        FieldRole::Plain => " "@,
    }
}

/// A field type by name.
pub open spec fn type_text(ty: FieldType) -> Seq<char> {
    match ty {
        FieldType::U8 => "U8"@,
        FieldType::U16 => "U16"@,
        FieldType::U32 => "U32"@,
        FieldType::U64 => "U64"@,
        FieldType::I8 => "I8"@,
        FieldType::I16 => "I16"@,
        FieldType::I32 => "I32"@,
        FieldType::I64 => "I64"@,
        FieldType::Bool => "Bool"@,
        FieldType::Bytes => "Bytes"@,
        FieldType::Enum { repr } => "Enum { repr: "@ + dec_text(repr as nat) + " }"@,
        FieldType::Interned { dynamic } => if dynamic {
            "Interned { dynamic: true }"@
        } else {
            "Interned { dynamic: false }"@
        },
    }
}

/// The line of one field.
pub open spec fn field_line(f: FieldView) -> Seq<char> {
    "      "@ + role_mark(f.role) + f.name + ": "@ + type_text(f.ty) + opt_note(
        " ["@,
        f.unit,
        "]"@,
    ) + opt_note(
        " (sentinel "@,
        match f.sentinel {
            Some(v) => Some(dec_text(v as nat)),
            None => None,
        },
        ")"@,
    ) + "\n"@
}

/// The lines of a run of fields.
pub open spec fn field_lines(fields: Seq<FieldView>) -> Seq<char>
    decreases fields.len(),
{
    if fields.len() == 0 {
        Seq::empty()
    } else {
        field_lines(fields.drop_last()) + field_line(fields.last())
    }
}

/// The line of one event.
pub open spec fn event_line(s: SchemaView) -> Seq<char> {
    "  "@ + id_hex(s.id) + "  "@ + s.name + "  ("@ + dec_text(s.record_size as nat) + " bytes, "@
        + dec_text(s.fields.len()) + " fields)"@ + phase_note(s.phase) + opt_note(
        "  — "@,
        s.description,
        ""@,
    ) + "\n"@
}

/// The lines of a run of events, each with its fields.
pub open spec fn event_lines(schemas: Seq<SchemaView>) -> Seq<char>
    decreases schemas.len(),
{
    if schemas.len() == 0 {
        Seq::empty()
    } else {
        event_lines(schemas.drop_last()) + (event_line(schemas.last()) + field_lines(
            schemas.last().fields,
        ))
    }
}

/// The schema registry.
pub open spec fn registry_text(schemas: Seq<SchemaView>) -> Seq<char> {
    "\nschema registry ("@ + dec_text(schemas.len()) + " events)\n"@ + event_lines(schemas)
        + "  (* = key, $ = span id, ^ = parent span id)\n"@
}

/// The number of intern entries of one instance.
pub open spec fn entry_count(tables: Seq<InternView>, id: u64) -> nat
    decreases tables.len(),
{
    if tables.len() == 0 {
        0
    } else if tables.last().instance_id == id {
        entry_count(tables.drop_last(), id) + tables.last().entries.len()
    } else {
        entry_count(tables.drop_last(), id)
    }
}

/// The number of intern entries of all instances.
pub open spec fn total_entries(tables: Seq<InternView>) -> nat
    decreases tables.len(),
{
    if tables.len() == 0 {
        0
    } else {
        total_entries(tables.drop_last()) + tables.last().entries.len()
    }
}

/// The line of one instance.
pub open spec fn instance_line(m: MetaView, tables: Seq<InternView>) -> Seq<char> {
    "  "@ + id_hex(m.instance_id) + "  "@ + (if m.host.len() == 0 {
        "(no host)"@
    } else {
        m.host
    }) + "  ("@ + dec_text(entry_count(tables, m.instance_id)) + " intern entries)\n"@
}

/// The lines of a run of instances.
pub open spec fn instance_lines(metas: Seq<MetaView>, tables: Seq<InternView>) -> Seq<char>
    decreases metas.len(),
{
    if metas.len() == 0 {
        Seq::empty()
    } else {
        instance_lines(metas.drop_last(), tables) + instance_line(metas.last(), tables)
    }
}

/// The instances and the intern tables.
pub open spec fn instances_text(metas: Seq<MetaView>, tables: Seq<InternView>) -> Seq<char> {
    "\ninstances ("@ + dec_text(metas.len()) + ")\n"@ + instance_lines(metas, tables)
        + "\nintern table: "@ + dec_text(total_entries(tables)) + " entries across "@ + dec_text(
        tables.len(),
    ) + " instance(s)\n"@
}

/// The number of lines of a text: its line breaks, and one more where something follows the last.
pub open spec fn line_count(text: Seq<char>) -> nat {
    break_count(text) + if text.len() > 0 && text.last() != '\n' {
        1nat
    } else {
        0nat
    }
}

/// The number of line breaks of a text.
pub open spec fn break_count(text: Seq<char>) -> nat
    decreases text.len(),
{
    if text.len() == 0 {
        0
    } else {
        break_count(text.drop_last()) + if text.last() == '\n' {
            1nat
        } else {
            0nat
        }
    }
}

/// The number of lines of all view sets.
pub open spec fn total_lines(views: Seq<Seq<char>>) -> nat
    decreases views.len(),
{
    if views.len() == 0 {
        0
    } else {
        total_lines(views.drop_last()) + line_count(views.last())
    }
}

/// The line of one view set.
pub open spec fn view_line(number: nat, text: Seq<char>) -> Seq<char> {
    "  #"@ + dec_text(number) + ": "@ + dec_text(encode_utf8(text).len()) + " bytes, "@ + dec_text(
        line_count(text),
    ) + " lines\n"@
}

/// The lines of a run of view sets.
pub open spec fn view_lines(views: Seq<Seq<char>>) -> Seq<char>
    decreases views.len(),
{
    if views.len() == 0 {
        Seq::empty()
    } else {
        view_lines(views.drop_last()) + view_line(views.len(), views.last())
    }
}

/// The registered view sets, if there are any.
pub open spec fn views_text(views: Seq<Seq<char>>) -> Seq<char> {
    if views.len() == 0 {
        Seq::empty()
    } else {
        "\nview sets ("@ + dec_text(views.len()) + ", "@ + dec_text(total_lines(views))
            + " lines of DDL)\n"@ + view_lines(views)
    }
}

/// The number of records that a walk of one shard accepts.
pub open spec fn shard_count(schemas: Seq<SchemaView>, shard: ShardView) -> nat {
    shard_walk(schemas, shard).len()
}

/// The number of records of all shards.
pub open spec fn total_count(schemas: Seq<SchemaView>, shards: Seq<ShardView>) -> nat
    decreases shards.len(),
{
    if shards.len() == 0 {
        0
    } else {
        total_count(schemas, shards.drop_last()) + shard_count(schemas, shards.last())
    }
}

/// The number of walked records of one event type.
pub open spec fn walk_count(schemas: Seq<SchemaView>, walk: Seq<Seq<u8>>, idx: nat) -> nat
    decreases walk.len(),
{
    if walk.len() == 0 {
        0
    } else {
        walk_count(schemas, walk.drop_last(), idx) + if schema_of_id(
            schemas,
            record_id(walk.last()),
        ) == Some(idx) {
            1nat
        } else {
            0nat
        }
    }
}

/// The number of records of one event type over all shards.
pub open spec fn event_count(schemas: Seq<SchemaView>, shards: Seq<ShardView>, idx: nat) -> nat
    decreases shards.len(),
{
    if shards.len() == 0 {
        0
    } else {
        event_count(schemas, shards.drop_last(), idx) + walk_count(
            schemas,
            payloads(shard_walk(schemas, shards.last())),
            idx,
        )
    }
}

/// The line of one shard.
pub open spec fn shard_line(schemas: Seq<SchemaView>, shard: ShardView) -> Seq<char> {
    "  instance "@ + id_hex(shard.instance_id) + "  shard "@ + pad_left(
        dec_text(shard.shard_id as nat),
        3,
    ) + ": head "@ + pad_left(dec_text(shard.head as nat), 10) + "  capacity "@ + pad_left(
        dec_text(shard.capacity as nat),
        10,
    ) + "  "@ + dec_text(shard_count(schemas, shard)) + " records\n"@
}

/// The lines of a run of shards.
pub open spec fn shard_lines(schemas: Seq<SchemaView>, shards: Seq<ShardView>) -> Seq<char>
    decreases shards.len(),
{
    if shards.len() == 0 {
        Seq::empty()
    } else {
        shard_lines(schemas, shards.drop_last()) + shard_line(schemas, shards.last())
    }
}

/// The order of names.
pub open spec fn tally_le() -> spec_fn((Seq<char>, nat), (Seq<char>, nat)) -> bool {
    |a: (Seq<char>, nat), b: (Seq<char>, nat)| name_le(a.0, b.0)
}

/// The first entry with the name.
pub open spec fn tally_pos(tally: Seq<(Seq<char>, nat)>, name: Seq<char>) -> nat
    decreases tally.len(),
{
    if tally.len() == 0 || tally[0].0 == name {
        0
    } else {
        1 + tally_pos(tally.skip(1), name)
    }
}

/// A tally with `n` more under a name.
pub open spec fn tally_add(tally: Seq<(Seq<char>, nat)>, name: Seq<char>, n: nat) -> Seq<
    (Seq<char>, nat),
> {
    let p = tally_pos(tally, name) as int;
    if p < tally.len() {
        tally.update(p, (name, tally[p].1 + n))
    } else {
        insert_by(tally, (name, n), tally_le())
    }
}

/// The record counts of the first `n` event types by name, in the order of names; names without
/// records are left out.
pub open spec fn tally(schemas: Seq<SchemaView>, shards: Seq<ShardView>, n: nat) -> Seq<
    (Seq<char>, nat),
>
    decreases n,
{
    if n == 0 {
        Seq::empty()
    } else {
        let before = tally(schemas, shards, (n - 1) as nat);
        let count = event_count(schemas, shards, (n - 1) as nat);
        if count == 0 {
            before
        } else {
            tally_add(before, schemas[n - 1].name, count)
        }
    }
}

/// The lines of a tally.
pub open spec fn tally_lines(t: Seq<(Seq<char>, nat)>) -> Seq<char>
    decreases t.len(),
{
    if t.len() == 0 {
        Seq::empty()
    } else {
        tally_lines(t.drop_last()) + ("  "@ + t.last().0 + ": "@ + dec_text(t.last().1) + "\n"@)
    }
}

/// The shards and the record counts.
pub open spec fn shards_text(schemas: Seq<SchemaView>, shards: Seq<ShardView>) -> Seq<char> {
    "\nshards ("@ + dec_text(shards.len()) + ")\n"@ + shard_lines(schemas, shards) + "\nrecords: "@
        + dec_text(total_count(schemas, shards)) + " total\n"@ + tally_lines(
        tally(schemas, shards, schemas.len()),
    )
}

/// The whole summary.
pub open spec fn summary(size: nat, flags: u16, sections: nat, parts: DumpParts) -> Seq<char> {
    envelope_text(size, flags, sections) + registry_text(parts.schemas) + instances_text(
        parts.metas,
        parts.interns,
    ) + views_text(parts.views) + shards_text(parts.schemas, parts.shards)
}

// ---------------------------------------------------------------------------
// Writing it.
// ---------------------------------------------------------------------------

/// Appends the envelope.
fn push_envelope(out: &mut String, size: usize, flags: u16, sections: usize)
    ensures
        final(out)@ == old(out)@ + envelope_text(size as nat, flags, sections as nat),
{
    out.append("envelope\n  size:      ");
    push_dec(out, size as u64);
    out.append(" bytes\n  flags:     0x");
    push_hex(out, flags as u64, 4);
    out.append("\n  sections:  ");
    push_dec(out, sections as u64);
    out.append("\n");
    assert(out@ =~= old(out)@ + envelope_text(size as nat, flags, sections as nat));
}

/// Appends a text between two others, if there is one.
fn push_note(out: &mut String, open: &str, note: &Option<String>, close: &str)
    ensures
        final(out)@ == old(out)@ + opt_note(open@, crate::wire::opt_string(*note), close@),
{
    match note {
        Some(t) => {
            out.append(open);
            out.append(t.as_str());
            out.append(close);
        },
        None => {},
    }
    assert(out@ =~= old(out)@ + opt_note(open@, crate::wire::opt_string(*note), close@));
}

/// Appends a field type by name.
fn push_type(out: &mut String, ty: FieldType)
    ensures
        final(out)@ == old(out)@ + type_text(ty),
{
    match ty {
        FieldType::U8 => out.append("U8"),
        FieldType::U16 => out.append("U16"),
        FieldType::U32 => out.append("U32"),
        FieldType::U64 => out.append("U64"),
        FieldType::I8 => out.append("I8"),
        FieldType::I16 => out.append("I16"),
        FieldType::I32 => out.append("I32"),
        FieldType::I64 => out.append("I64"),
        FieldType::Bool => out.append("Bool"),
        FieldType::Bytes => out.append("Bytes"),
        FieldType::Enum { repr } => {
            out.append("Enum { repr: ");
            push_dec(out, repr as u64);
            out.append(" }");
        },
        FieldType::Interned { dynamic } => if dynamic {
            out.append("Interned { dynamic: true }")
        } else {
            out.append("Interned { dynamic: false }")
        },
    }
    assert(out@ =~= old(out)@ + type_text(ty));
}

/// Appends the line of one field.
fn push_field(out: &mut String, f: &OwnedField)
    ensures
        final(out)@ == old(out)@ + field_line(f@),
{
    out.append("      ");
    match f.role {
        FieldRole::Key => out.append("*"),
        FieldRole::SpanId => out.append("$"),
        FieldRole::ParentSpanId => out.append("^"),
        FieldRole::Plain => out.append(" "),
    }
    out.append(f.name.as_str());
    out.append(": ");
    push_type(out, f.ty);
    push_note(out, " [", &f.unit, "]");
    let sentinel = match f.sentinel {
        Some(v) => Some(dec(v)),
        None => None,
    };
    push_note(out, " (sentinel ", &sentinel, ")");
    out.append("\n");
    assert(out@ =~= old(out)@ + field_line(f@));
}

/// Appends the line of one event.
fn push_event(out: &mut String, s: &OwnedSchema)
    ensures
        final(out)@ == old(out)@ + event_line(s@),
{
    out.append("  ");
    push_id(out, s.id.get());
    out.append("  ");
    out.append(s.qualified_name.as_str());
    out.append("  (");
    push_dec(out, s.record_size as u64);
    out.append(" bytes, ");
    push_dec(out, s.fields.len() as u64);
    out.append(" fields)");
    match s.phase {
        Phase::Enter => out.append("  [span enter]"),
        Phase::Exit => out.append("  [span exit]"),
        Phase::Instant => out.append(""),
    }
    push_note(out, "  — ", &s.description, "");
    out.append("\n");
    assert(out@ =~= old(out)@ + event_line(s@));
}

/// Appends the schema registry.
fn push_registry(out: &mut String, schemas: &Vec<OwnedSchema>)
    ensures
        final(out)@ == old(out)@ + registry_text(owned_schemas_view(schemas@)),
{
    let ghost view = owned_schemas_view(schemas@);
    out.append("\nschema registry (");
    push_dec(out, schemas.len() as u64);
    out.append(" events)\n");
    let ghost start = out@;
    assert(out@ =~= start + event_lines(view.take(0)));
    let mut i: usize = 0;
    while i < schemas.len()
        invariant
            i <= schemas@.len(),
            view == owned_schemas_view(schemas@),
            out@ == start + event_lines(view.take(i as int)),
        decreases schemas@.len() - i,
    {
        let s = &schemas[i];
        let ghost before = out@;
        push_event(out, s);
        let ghost fv = owned_fields_view(s.fields@);
        let ghost line = out@;
        assert(out@ =~= line + field_lines(fv.take(0)));
        let mut j: usize = 0;
        while j < s.fields.len()
            invariant
                j <= s.fields@.len(),
                fv == owned_fields_view(s.fields@),
                out@ == line + field_lines(fv.take(j as int)),
            decreases s.fields@.len() - j,
        {
            push_field(out, &s.fields[j]);
            proof {
                assert(fv[j as int] == s.fields@[j as int]@);
                assert(fv.take(j + 1).drop_last() =~= fv.take(j as int));
                assert(out@ =~= line + field_lines(fv.take(j + 1)));
            }
            j = j + 1;
        }
        proof {
            assert(fv.take(j as int) =~= fv);
            assert(view[i as int] == s@);
            assert(view.take(i + 1).drop_last() =~= view.take(i as int));
            assert(view.take(i + 1).last() == s@);
            assert(out@ =~= before + (event_line(s@) + field_lines(s@.fields)));
            assert(out@ =~= start + event_lines(view.take(i + 1)));
        }
        i = i + 1;
    }
    assert(view.take(i as int) =~= view);
    out.append("  (* = key, $ = span id, ^ = parent span id)\n");
    assert(out@ =~= old(out)@ + registry_text(view));
}

/// The number of intern entries of one instance.
fn count_entries(tables: &Vec<OwnedIntern>, id: u64) -> (n: u128)
    ensures
        n == entry_count(interns_view(tables@), id),
{
    let ghost view = interns_view(tables@);
    let mut n: u128 = 0;
    let mut i: usize = 0;
    while i < tables.len()
        invariant
            i <= tables@.len(),
            view == interns_view(tables@),
            n == entry_count(view.take(i as int), id),
            n <= i * usize::MAX,
        decreases tables@.len() - i,
    {
        proof {
            assert(view[i as int] == tables@[i as int]@);
            assert(view.take(i + 1).drop_last() =~= view.take(i as int));
            assert(view.take(i + 1).last() == tables@[i as int]@);
            lemma_wide(i);
        }
        if tables[i].instance_id == id {
            n = n + tables[i].entries.len() as u128;
        }
        i = i + 1;
    }
    assert(view.take(i as int) =~= view);
    n
}

/// A sum of `i + 1` numbers of this machine can be counted.
proof fn lemma_wide(i: usize)
    ensures
        i * usize::MAX + usize::MAX <= u128::MAX,
        (i + 1) * usize::MAX == i * usize::MAX + usize::MAX,
{
    assert(i * usize::MAX + usize::MAX <= u128::MAX && (i + 1) * usize::MAX == i * usize::MAX
        + usize::MAX) by (nonlinear_arith)
        requires
            0 <= i <= usize::MAX,
            0 <= usize::MAX <= 0xffff_ffff_ffff_ffff,
    ;
}

/// The number of intern entries of all instances.
fn count_all_entries(tables: &Vec<OwnedIntern>) -> (n: u128)
    ensures
        n == total_entries(interns_view(tables@)),
{
    let ghost view = interns_view(tables@);
    let mut n: u128 = 0;
    let mut i: usize = 0;
    while i < tables.len()
        invariant
            i <= tables@.len(),
            view == interns_view(tables@),
            n == total_entries(view.take(i as int)),
            n <= i * usize::MAX,
        decreases tables@.len() - i,
    {
        proof {
            assert(view[i as int] == tables@[i as int]@);
            assert(view.take(i + 1).drop_last() =~= view.take(i as int));
            assert(view.take(i + 1).last() == tables@[i as int]@);
            lemma_wide(i);
        }
        n = n + tables[i].entries.len() as u128;
        i = i + 1;
    }
    assert(view.take(i as int) =~= view);
    n
}

/// Appends the line of one instance.
fn push_instance(out: &mut String, m: &OwnedMeta, tables: &Vec<OwnedIntern>)
    ensures
        final(out)@ == old(out)@ + instance_line(m@, interns_view(tables@)),
{
    out.append("  ");
    push_id(out, m.instance_id);
    out.append("  ");
    if m.host.as_str().is_empty() {
        out.append("(no host)");
    } else {
        out.append(m.host.as_str());
    }
    out.append("  (");
    push_dec_wide(out, count_entries(tables, m.instance_id));
    out.append(" intern entries)\n");
    assert(out@ =~= old(out)@ + instance_line(m@, interns_view(tables@)));
}

/// Appends the instances and the intern tables.
fn push_instances(out: &mut String, metas: &Vec<OwnedMeta>, tables: &Vec<OwnedIntern>)
    ensures
        final(out)@ == old(out)@ + instances_text(metas_view(metas@), interns_view(tables@)),
{
    let ghost view = metas_view(metas@);
    let ghost tv = interns_view(tables@);
    out.append("\ninstances (");
    push_dec(out, metas.len() as u64);
    out.append(")\n");
    let ghost start = out@;
    assert(out@ =~= start + instance_lines(view.take(0), tv));
    let mut i: usize = 0;
    while i < metas.len()
        invariant
            i <= metas@.len(),
            view == metas_view(metas@),
            tv == interns_view(tables@),
            out@ == start + instance_lines(view.take(i as int), tv),
        decreases metas@.len() - i,
    {
        push_instance(out, &metas[i], tables);
        proof {
            assert(view[i as int] == metas@[i as int]@);
            assert(view.take(i + 1).drop_last() =~= view.take(i as int));
            assert(out@ =~= start + instance_lines(view.take(i + 1), tv));
        }
        i = i + 1;
    }
    assert(view.take(i as int) =~= view);
    out.append("\nintern table: ");
    push_dec_wide(out, count_all_entries(tables));
    out.append(" entries across ");
    push_dec(out, tables.len() as u64);
    out.append(" instance(s)\n");
    assert(out@ =~= old(out)@ + instances_text(view, tv));
}

/// The number of lines of a text.
pub fn count_lines(text: &str) -> (n: usize)
    ensures
        n == line_count(text@),
{
    let v = chars_of(text);
    let mut n: usize = 0;
    let mut i: usize = 0;
    while i < v.len()
        invariant
            i <= v@.len(),
            v@ == text@,
            n == break_count(text@.take(i as int)),
            n <= i,
        decreases v@.len() - i,
    {
        proof {
            assert(text@.take(i + 1).drop_last() =~= text@.take(i as int));
            assert(text@.take(i + 1).last() == v@[i as int]);
        }
        if v[i] == '\n' {
            n = n + 1;
        }
        i = i + 1;
    }
    assert(text@.take(i as int) =~= text@);
    if v.len() > 0 && v[v.len() - 1] != '\n' {
        proof {
            lemma_break_bound(text@);
        }
        n = n + 1;
    }
    n
}

/// A text that does not end in a line break has fewer line breaks than characters.
proof fn lemma_break_bound(text: Seq<char>)
    ensures
        break_count(text) <= text.len(),
        text.len() > 0 && text.last() != '\n' ==> break_count(text) < text.len(),
    decreases text.len(),
{
    if text.len() > 0 {
        lemma_break_bound(text.drop_last());
    }
}

/// Appends the registered view sets.
fn push_views(out: &mut String, views: &Vec<String>)
    ensures
        final(out)@ == old(out)@ + views_text(strings_view(views@)),
{
    let ghost view = strings_view(views@);
    if views.len() == 0 {
        assert(out@ =~= old(out)@ + views_text(view));
        return;
    }
    let mut total: u128 = 0;
    let mut k: usize = 0;
    while k < views.len()
        invariant
            k <= views@.len(),
            view == strings_view(views@),
            total == total_lines(view.take(k as int)),
            total <= k * usize::MAX,
        decreases views@.len() - k,
    {
        proof {
            assert(view[k as int] == views@[k as int]@);
            assert(view.take(k + 1).drop_last() =~= view.take(k as int));
            assert(view.take(k + 1).last() == views@[k as int]@);
            lemma_wide(k);
        }
        total = total + count_lines(views[k].as_str()) as u128;
        k = k + 1;
    }
    assert(view.take(k as int) =~= view);
    out.append("\nview sets (");
    push_dec(out, views.len() as u64);
    out.append(", ");
    push_dec_wide(out, total);
    out.append(" lines of DDL)\n");
    let ghost start = out@;
    assert(out@ =~= start + view_lines(view.take(0)));
    let mut i: usize = 0;
    while i < views.len()
        invariant
            i <= views@.len(),
            view == strings_view(views@),
            out@ == start + view_lines(view.take(i as int)),
        decreases views@.len() - i,
    {
        let text = views[i].as_str();
        let ghost before = out@;
        out.append("  #");
        push_dec(out, i as u64 + 1);
        out.append(": ");
        push_dec(out, text.as_bytes().len() as u64);
        out.append(" bytes, ");
        push_dec(out, count_lines(text) as u64);
        out.append(" lines\n");
        proof {
            assert(view[i as int] == views@[i as int]@);
            assert(out@ =~= before + view_line((i + 1) as nat, text@));
            assert(view.take(i + 1).drop_last() =~= view.take(i as int));
            assert(view.take(i + 1).last() == text@);
            assert(out@ =~= start + view_lines(view.take(i + 1)));
        }
        i = i + 1;
    }
    assert(view.take(i as int) =~= view);
    assert(out@ =~= old(out)@ + views_text(view));
}

/// Walks one shard.
fn walk_one(schemas: &Vec<OwnedSchema>, by_id: &HashMap<u64, usize>, shard: &ShardData) -> (recs: Vec<
    Bytes,
>)
    requires
        indexes(by_id@, owned_schemas_view(schemas@)),
    ensures
        recs@.map_values(|b: Bytes| bytes_of(b)) == payloads(
            shard_walk(owned_schemas_view(schemas@), shard@),
        ),
{
    let ghost view = owned_schemas_view(schemas@);
    let ghost valid = record_validator(view);
    let f = |payload: &[u8]| -> (r: bool)
        requires
            indexes(by_id@, owned_schemas_view(schemas@)),
        ensures
            r == is_record(owned_schemas_view(schemas@), payload@),
        {
            match record_schema(schemas, by_id, payload) {
                Some(_) => true,
                None => false,
            }
        };
    assert(decides(f, valid));
    walk(&shard.region, shard.head as usize, shard.capacity as usize, f)
}

/// The counts of the event types hold the records of the walked shards.
spec fn counts_hold(
    counts: Seq<u128>,
    schemas: Seq<SchemaView>,
    shards: Seq<ShardView>,
    walk: Seq<Seq<u8>>,
) -> bool {
    &&& counts.len() == schemas.len()
    &&& forall|k: int|
        0 <= k < counts.len() ==> #[trigger] counts[k] == event_count(schemas, shards, k as nat)
            + walk_count(schemas, walk, k as nat)
}

/// The records of one event type are no more than all records.
proof fn lemma_counts(schemas: Seq<SchemaView>, shards: Seq<ShardView>, walk: Seq<Seq<u8>>, idx: nat)
    ensures
        event_count(schemas, shards, idx) <= total_count(schemas, shards),
        walk_count(schemas, walk, idx) <= walk.len(),
    decreases shards.len(), walk.len(),
{
    if walk.len() > 0 {
        lemma_counts(schemas, shards, walk.drop_last(), idx);
    } else if shards.len() > 0 {
        let last = payloads(shard_walk(schemas, shards.last()));
        lemma_counts(schemas, shards.drop_last(), last, idx);
    }
}

/// Adds the records of one walk to the counts of the event types.
fn count_walk(
    counts: &mut Vec<u128>,
    schemas: &Vec<OwnedSchema>,
    by_id: &HashMap<u64, usize>,
    recs: &Vec<Bytes>,
    Ghost(shards): Ghost<Seq<ShardView>>,
    Ghost(shard): Ghost<ShardView>,
)
    requires
        indexes(by_id@, owned_schemas_view(schemas@)),
        recs@.map_values(|b: Bytes| bytes_of(b)) == payloads(
            shard_walk(owned_schemas_view(schemas@), shard),
        ),
        counts_hold(old(counts)@, owned_schemas_view(schemas@), shards, Seq::empty()),
        total_count(owned_schemas_view(schemas@), shards) + usize::MAX <= u128::MAX,
    ensures
        counts_hold(
            final(counts)@,
            owned_schemas_view(schemas@),
            shards.push(shard),
            Seq::empty(),
        ),
{
    let ghost view = owned_schemas_view(schemas@);
    let ghost walk = payloads(shard_walk(view, shard));
    assert(walk.take(0) =~= Seq::<Seq<u8>>::empty());
    let mut i: usize = 0;
    while i < recs.len()
        invariant
            i <= recs@.len(),
            view == owned_schemas_view(schemas@),
            indexes(by_id@, view),
            walk == recs@.map_values(|b: Bytes| bytes_of(b)),
            walk == payloads(shard_walk(view, shard)),
            counts_hold(counts@, view, shards, walk.take(i as int)),
            total_count(view, shards) + usize::MAX <= u128::MAX,
        decreases recs@.len() - i,
    {
        let ghost before = counts@;
        let payload = bytes_as_slice(&recs[i]);
        proof {
            assert(walk[i as int] == payload@);
            assert(walk.take(i + 1).drop_last() =~= walk.take(i as int));
            assert(walk.take(i + 1).last() == payload@);
            crate::model::lemma_shard_walk(view, shard);
            assert(walk.len() == recs@.len());
            assert(walk.len() == shard_walk(view, shard).len());
            assert(crate::model::walked_ok(
                record_validator(view),
                shard.region,
                shard_walk(view, shard)[i as int],
            ));
            assert(is_record(view, payload@));
        }
        match record_schema(schemas, by_id, payload) {
            Some(idx) => {
                proof {
                    lemma_counts(view, shards, walk.take(i as int), idx as nat);
                }
                let n: u128 = counts[idx];
                counts.set(idx, n + 1);
                assert forall|k: int| 0 <= k < counts@.len() implies #[trigger] counts@[k]
                    == event_count(view, shards, k as nat) + walk_count(
                    view,
                    walk.take(i + 1),
                    k as nat,
                ) by {
                    assert(before[k] == event_count(view, shards, k as nat) + walk_count(
                        view,
                        walk.take(i as int),
                        k as nat,
                    ));
                }
            },
            None => {
                assert(false);
            },
        }
        i = i + 1;
    }
    proof {
        assert(walk.take(i as int) =~= walk);
        assert(shards.push(shard).drop_last() =~= shards);
        assert forall|k: int| 0 <= k < counts@.len() implies #[trigger] counts@[k] == event_count(
            view,
            shards.push(shard),
            k as nat,
        ) + walk_count(view, Seq::empty(), k as nat) by {}
    }
}

/// Appends the line of one shard.
fn push_shard(out: &mut String, shard: &ShardData, count: usize, Ghost(schemas): Ghost<Seq<SchemaView>>)
    requires
        count == shard_count(schemas, shard@),
    ensures
        final(out)@ == old(out)@ + shard_line(schemas, shard@),
{
    out.append("  instance ");
    push_id(out, shard.instance_id);
    out.append("  shard ");
    push_padded(out, dec(shard.shard_id as u64).as_str(), 3);
    out.append(": head ");
    push_padded(out, dec(shard.head).as_str(), 10);
    out.append("  capacity ");
    push_padded(out, dec(shard.capacity).as_str(), 10);
    out.append("  ");
    push_dec(out, count as u64);
    out.append(" records\n");
    assert(out@ =~= old(out)@ + shard_line(schemas, shard@));
}

/// The value of a tally.
spec fn tally_view(t: Seq<(String, u128)>) -> Seq<(Seq<char>, nat)> {
    t.map_values(|e: (String, u128)| (e.0@, e.1 as nat))
}

/// The position of a name is the first index that has it.
proof fn lemma_tally_pos(t: Seq<(Seq<char>, nat)>, name: Seq<char>, i: int)
    requires
        0 <= i <= t.len(),
        forall|j: int| 0 <= j < i ==> (#[trigger] t[j]).0 != name,
        i < t.len() ==> t[i].0 == name,
    ensures
        tally_pos(t, name) == i,
    decreases t.len(),
{
    if i > 0 {
        let tail = t.skip(1);
        assert(t[0].0 != name);
        assert forall|j: int| 0 <= j < i - 1 implies (#[trigger] tail[j]).0 != name by {
            assert(tail[j] == t[j + 1]);
        }
        lemma_tally_pos(tail, name, i - 1);
    }
}

/// Adds a count under a name.
fn add_tally(t: &mut Vec<(String, u128)>, name: &String, n: u128)
    requires
        forall|i: int| 0 <= i < old(t)@.len() ==> (#[trigger] old(t)@[i]).1 + n <= u128::MAX,
    ensures
        tally_view(final(t)@) == tally_add(tally_view(old(t)@), name@, n as nat),
{
    let ghost view = tally_view(t@);
    let ghost t0 = t@;
    let mut i: usize = 0;
    while i < t.len()
        invariant
            i <= t@.len(),
            t@ == t0,
            view == tally_view(t0),
            forall|j: int| 0 <= j < i ==> (#[trigger] view[j]).0 != name@,
            forall|i: int| 0 <= i < t0.len() ==> (#[trigger] t0[i]).1 + n <= u128::MAX,
            t0 == old(t)@,
        decreases t@.len() - i,
    {
        assert(view[i as int] == (t@[i as int].0@, t@[i as int].1 as nat));
        if t[i].0 == *name {
            proof {
                lemma_tally_pos(view, name@, i as int);
                assert(t0[i as int].1 + n <= u128::MAX);
            }
            let sum: u128 = t[i].1 + n;
            t.set(i, (name.clone(), sum));
            assert(tally_view(t@) =~= tally_add(view, name@, n as nat));
            return;
        }
        i = i + 1;
    }
    proof {
        lemma_tally_pos(view, name@, view.len() as int);
    }
    let mut p: usize = 0;
    while p < t.len() && str_le(t[p].0.as_str(), name.as_str())
        invariant
            p <= t@.len(),
            t@ == t0,
            view == tally_view(t0),
            forall|j: int| 0 <= j < p ==> name_le((#[trigger] view[j]).0, name@),
        decreases t@.len() - p,
    {
        assert(view[p as int] == (t@[p as int].0@, t@[p as int].1 as nat));
        p = p + 1;
    }
    proof {
        let x = (name@, n as nat);
        let le = tally_le();
        if p < view.len() {
            assert(view[p as int] == (t0[p as int].0@, t0[p as int].1 as nat));
        }
        assert forall|j: int| 0 <= j < p implies le(#[trigger] view[j], x) by {}
        lemma_insert_pos(view, x, le, p as int);
    }
    t.insert(p, (name.clone(), n));
    assert(tally_view(t@) =~= tally_add(view, name@, n as nat));
}

/// Every count of a tally is at most `bound`.
spec fn counts_below(t: Seq<(Seq<char>, nat)>, bound: nat) -> bool {
    forall|i: int| 0 <= i < t.len() ==> (#[trigger] t[i]).1 <= bound
}

/// Adding to a tally raises its counts by what is added at most.
proof fn lemma_tally_below(t: Seq<(Seq<char>, nat)>, name: Seq<char>, n: nat, bound: nat)
    requires
        counts_below(t, bound),
    ensures
        counts_below(tally_add(t, name, n), bound + n),
{
    let p = tally_pos(t, name) as int;
    let all = tally_add(t, name, n);
    if p < t.len() {
        assert forall|i: int| 0 <= i < all.len() implies (#[trigger] all[i]).1 <= bound + n by {
            assert(t[i].1 <= bound);
        }
    } else {
        let q = insert_pos(t, (name, n), tally_le()) as int;
        crate::order::lemma_insert_pos_bound(t, (name, n), tally_le());
        assert forall|i: int| 0 <= i < all.len() implies (#[trigger] all[i]).1 <= bound + n by {
            if i < q {
                assert(all[i] == t[i]);
            } else if i > q {
                assert(all[i] == t[i - 1]);
            }
        }
    }
}

/// The records of the first `n` event types in a walk.
spec fn walk_sum(schemas: Seq<SchemaView>, walk: Seq<Seq<u8>>, n: nat) -> nat
    decreases n,
{
    if n == 0 {
        0
    } else {
        walk_sum(schemas, walk, (n - 1) as nat) + walk_count(schemas, walk, (n - 1) as nat)
    }
}

/// The records of the first `n` event types over all shards.
spec fn event_sum(schemas: Seq<SchemaView>, shards: Seq<ShardView>, n: nat) -> nat
    decreases n,
{
    if n == 0 {
        0
    } else {
        event_sum(schemas, shards, (n - 1) as nat) + event_count(schemas, shards, (n - 1) as nat)
    }
}

/// The last record of a walk counts once at most.
proof fn lemma_walk_sum_step(schemas: Seq<SchemaView>, walk: Seq<Seq<u8>>, n: nat)
    requires
        walk.len() > 0,
    ensures
        walk_sum(schemas, walk, n) <= walk_sum(schemas, walk.drop_last(), n) + (
        match schema_of_id(schemas, record_id(walk.last())) {
            Some(idx) => if idx < n {
                1nat
            } else {
                0nat
            },
            None => 0nat,
        }),
    decreases n,
{
    if n > 0 {
        lemma_walk_sum_step(schemas, walk, (n - 1) as nat);
    }
}

/// Each record of a walk counts for one event type at most.
proof fn lemma_walk_sum(schemas: Seq<SchemaView>, walk: Seq<Seq<u8>>, n: nat)
    ensures
        walk_sum(schemas, walk, n) <= walk.len(),
    decreases walk.len(), n,
{
    if walk.len() > 0 {
        lemma_walk_sum(schemas, walk.drop_last(), n);
        lemma_walk_sum_step(schemas, walk, n);
    } else if n > 0 {
        lemma_walk_sum(schemas, walk, (n - 1) as nat);
    }
}

/// The records of a shard add to those of the others.
proof fn lemma_event_sum_step(schemas: Seq<SchemaView>, shards: Seq<ShardView>, n: nat)
    requires
        shards.len() > 0,
    ensures
        event_sum(schemas, shards, n) == event_sum(schemas, shards.drop_last(), n) + walk_sum(
            schemas,
            payloads(shard_walk(schemas, shards.last())),
            n,
        ),
    decreases n,
{
    if n > 0 {
        lemma_event_sum_step(schemas, shards, (n - 1) as nat);
    }
}

/// The records of the event types are no more than all records.
proof fn lemma_event_sum(schemas: Seq<SchemaView>, shards: Seq<ShardView>, n: nat)
    ensures
        event_sum(schemas, shards, n) <= total_count(schemas, shards),
    decreases shards.len(), n,
{
    if shards.len() > 0 {
        lemma_event_sum(schemas, shards.drop_last(), n);
        lemma_event_sum_step(schemas, shards, n);
        lemma_walk_sum(schemas, payloads(shard_walk(schemas, shards.last())), n);
    } else if n > 0 {
        lemma_event_sum(schemas, shards, (n - 1) as nat);
    }
}

/// The record counts by name.
fn make_tally(
    schemas: &Vec<OwnedSchema>,
    counts: &Vec<u128>,
    Ghost(shards): Ghost<Seq<ShardView>>,
) -> (t: Vec<(String, u128)>)
    requires
        counts_hold(counts@, owned_schemas_view(schemas@), shards, Seq::empty()),
        total_count(owned_schemas_view(schemas@), shards) <= u128::MAX,
    ensures
        tally_view(t@) == tally(owned_schemas_view(schemas@), shards, schemas@.len()),
{
    let ghost view = owned_schemas_view(schemas@);
    let mut t: Vec<(String, u128)> = Vec::new();
    assert(tally_view(t@) =~= tally(view, shards, 0));
    let mut i: usize = 0;
    while i < schemas.len()
        invariant
            i <= schemas@.len(),
            view == owned_schemas_view(schemas@),
            counts_hold(counts@, view, shards, Seq::empty()),
            total_count(view, shards) <= u128::MAX,
            tally_view(t@) == tally(view, shards, i as nat),
            counts_below(tally_view(t@), event_sum(view, shards, i as nat)),
        decreases schemas@.len() - i,
    {
        let ghost tv = tally_view(t@);
        proof {
            assert(view[i as int] == schemas@[i as int]@);
            assert(counts@[i as int] == event_count(view, shards, i as nat) + walk_count(
                view,
                Seq::empty(),
                i as nat,
            ));
            lemma_event_sum(view, shards, (i + 1) as nat);
            assert forall|k: int| 0 <= k < t@.len() implies (#[trigger] t@[k]).1
                + counts@[i as int] <= u128::MAX by {
                assert(tv[k].1 <= event_sum(view, shards, i as nat));
            }
            lemma_tally_below(
                tv,
                schemas@[i as int].qualified_name@,
                counts@[i as int] as nat,
                event_sum(view, shards, i as nat),
            );
        }
        if counts[i] > 0 {
            add_tally(&mut t, &schemas[i].qualified_name, counts[i]);
        }
        i = i + 1;
    }
    t
}

/// Appends the shards and the record counts.
fn push_shards(out: &mut String, schemas: &Vec<OwnedSchema>, shards: &Vec<ShardData>)
    ensures
        final(out)@ == old(out)@ + shards_text(owned_schemas_view(schemas@), shards_view(shards@)),
{
    let ghost view = owned_schemas_view(schemas@);
    let ghost sv = shards_view(shards@);
    let by_id = index_by_id(schemas);
    out.append("\nshards (");
    push_dec(out, shards.len() as u64);
    out.append(")\n");
    let ghost start = out@;
    let mut counts: Vec<u128> = Vec::new();
    while counts.len() < schemas.len()
        invariant
            counts@.len() <= schemas@.len(),
            forall|k: int| 0 <= k < counts@.len() ==> #[trigger] counts@[k] == 0,
        decreases schemas@.len() - counts@.len(),
    {
        counts.push(0);
    }
    let mut total: u128 = 0;
    proof {
        assert(sv.take(0) =~= Seq::<ShardView>::empty());
        assert(out@ =~= start + shard_lines(view, sv.take(0)));
        assert(counts_hold(counts@, view, sv.take(0), Seq::empty()));
    }
    let mut i: usize = 0;
    while i < shards.len()
        invariant
            i <= shards@.len(),
            view == owned_schemas_view(schemas@),
            sv == shards_view(shards@),
            indexes(by_id@, view),
            counts_hold(counts@, view, sv.take(i as int), Seq::empty()),
            total == total_count(view, sv.take(i as int)),
            total <= i * usize::MAX,
            out@ == start + shard_lines(view, sv.take(i as int)),
        decreases shards@.len() - i,
    {
        let shard = &shards[i];
        let recs = walk_one(schemas, &by_id, shard);
        proof {
            assert(sv[i as int] == shard@);
            assert(sv.take(i + 1).drop_last() =~= sv.take(i as int));
            assert(sv.take(i + 1) =~= sv.take(i as int).push(shard@));
            lemma_wide(i);
            assert(recs@.map_values(|b: Bytes| bytes_of(b)).len() == recs@.len());
        }
        count_walk(&mut counts, schemas, &by_id, &recs, Ghost(sv.take(i as int)), Ghost(shard@));
        total = total + recs.len() as u128;
        push_shard(out, shard, recs.len(), Ghost(view));
        assert(out@ =~= start + shard_lines(view, sv.take(i + 1)));
        i = i + 1;
    }
    assert(sv.take(i as int) =~= sv);
    let t = make_tally(schemas, &counts, Ghost(sv));
    let ghost tv = tally_view(t@);
    out.append("\nrecords: ");
    push_dec_wide(out, total);
    out.append(" total\n");
    let ghost lines = out@;
    assert(out@ =~= lines + tally_lines(tv.take(0)));
    let mut k: usize = 0;
    while k < t.len()
        invariant
            k <= t@.len(),
            tv == tally_view(t@),
            out@ == lines + tally_lines(tv.take(k as int)),
        decreases t@.len() - k,
    {
        let ghost before = out@;
        out.append("  ");
        out.append(t[k].0.as_str());
        out.append(": ");
        push_dec_wide(out, t[k].1);
        out.append("\n");
        proof {
            assert(tv[k as int] == (t@[k as int].0@, t@[k as int].1 as nat));
            assert(tv.take(k + 1).drop_last() =~= tv.take(k as int));
            assert(tv.take(k + 1).last() == tv[k as int]);
            assert(out@ =~= before + ("  "@ + tv[k as int].0 + ": "@ + dec_text(tv[k as int].1)
                + "\n"@));
            assert(out@ =~= lines + tally_lines(tv.take(k + 1)));
        }
        k = k + 1;
    }
    assert(tv.take(k as int) =~= tv);
    assert(out@ =~= old(out)@ + shards_text(view, sv));
}

/// Reads a dump and summarizes it.
pub fn inspect(bytes: Bytes) -> (r: Result<String, Error>)
    ensures
        match p_dump(bytes_of(bytes)) {
            Err(e) => r matches Err(got) && got == e,
            Ok(d) => match dump_parts(d.sections) {
                Err(e) => r matches Err(got) && got == e,
                Ok(parts) => r matches Ok(text) && text@ == summary(
                    bytes_of(bytes).len(),
                    d.flags,
                    d.sections.len(),
                    parts,
                ),
            },
        },
{
    let size: usize = bytes_as_slice(&bytes).len();
    let reader = match DumpReader::new(bytes) {
        Ok(reader) => reader,
        Err(e) => return Err(e),
    };
    let schemas = match reader.schemas() {
        Ok(v) => v,
        Err(e) => return Err(e),
    };
    let interns = match reader.intern_tables() {
        Ok(v) => v,
        Err(e) => return Err(e),
    };
    let metas = match reader.metas() {
        Ok(v) => v,
        Err(e) => return Err(e),
    };
    let views = match reader.views() {
        Ok(v) => v,
        Err(e) => return Err(e),
    };
    let shards = match reader.shards() {
        Ok(v) => v,
        Err(e) => return Err(e),
    };
    let mut out = String::new();
    push_envelope(&mut out, size, reader.flags(), reader.section_count());
    push_registry(&mut out, &schemas);
    push_instances(&mut out, &metas, &interns);
    push_views(&mut out, &views);
    push_shards(&mut out, &schemas, &shards);
    proof {
        let parts = dump_parts(reader@.sections)->Ok_0;
        assert(out@ =~= summary(size as nat, reader@.flags, reader@.sections.len(), parts));
    }
    Ok(out)
}

} // verus!
