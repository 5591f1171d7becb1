//! Generates DuckDB query DDL from a dump's schema registry, and assembles it with the
//! consumer-registered view sets carried in the dump.
//!
//! The conversion writes one sparse-wide table. The DDL here turns it into an ergonomic query
//! surface: one view per event type and a `backbeat_keys` manifest of the promoted columns. All of
//! it builds on a base view `events`, so binding that one view activates everything.

use crate::schema::{FieldRole, FieldView, SchemaView};
use crate::text::{dec_text, doubled, hex_text, push_dec, push_doubled, push_hex};
use crate::wire::{owned_schemas_view, strings_view, OwnedField, OwnedSchema};
use vstd::prelude::*;

verus! {

/// What the generated DDL opens with.
pub const TIER1_HEAD: &'static str =
    "-- backbeat Tier-1 views (generated from the dump's schema registry).\n-- Everything below builds on a base view named `events`; create it over your Parquet\n-- before running these (the `.sql` sidecar convert writes does this for you).\n\n";

/// What stands ahead of the per-event views.
pub const EVENTS_HEAD: &'static str = "-- One view per event type.\n";

/// What stands ahead of the manifest.
pub const KEYS_HEAD: &'static str =
    "\n-- Discoverable key/span columns: (event, column, role).\n";

/// The manifest of a registry without promoted columns: a typed view of no rows.
pub const KEYS_EMPTY: &'static str =
    "CREATE OR REPLACE VIEW backbeat_keys AS\n  SELECT NULL::VARCHAR AS event, NULL::VARCHAR AS field, NULL::VARCHAR AS role WHERE false;\n";

/// What stands ahead of the rows of the manifest.
pub const KEYS_OPEN: &'static str =
    "CREATE OR REPLACE VIEW backbeat_keys AS\n  SELECT * FROM (VALUES\n";

/// What stands behind the rows of the manifest.
pub const KEYS_CLOSE: &'static str = "\n  ) AS t(event, field, role);\n";

/// A field with this role becomes a top-level column: keys and span ids.
pub open spec fn promoted(role: FieldRole) -> bool {
    role == FieldRole::Key || role == FieldRole::SpanId || role == FieldRole::ParentSpanId
}

/// Whether a field is promoted to a top-level column: keys and span ids become dense columns,
/// everything else nests in the per-event struct column.
pub fn is_promoted(role: FieldRole) -> (r: bool)
    ensures
        r == promoted(role),
{
    role == FieldRole::Key || role == FieldRole::SpanId || role == FieldRole::ParentSpanId
}

/// The role of a promoted column in words.
pub open spec fn role_text(role: FieldRole) -> Seq<char> {
    match role {
        FieldRole::Key => "key"@,
        FieldRole::SpanId => "span_id"@,
        FieldRole::ParentSpanId => "parent_span_id"@,
        _ => ""@,
    }
}

/// A short role label for the `backbeat_keys` manifest.
pub fn role_label(role: FieldRole) -> (s: &'static str)
    ensures
        s@ == role_text(role),
{
    match role {
        FieldRole::Key => "key",
        FieldRole::SpanId => "span_id",
        FieldRole::ParentSpanId => "parent_span_id",
        _ => "",
    }
}

/// A text between two `q`, every `q` in it written twice.
pub open spec fn quoted(s: Seq<char>, q: char) -> Seq<char> {
    seq![q] + doubled(s, q) + seq![q]
}

/// Appends a text between two `q`, every `q` in it written twice.
fn push_quoted(out: &mut String, s: &str, q: char)
    ensures
        final(out)@ == old(out)@ + quoted(s@, q),
{
    out.push(q);
    push_doubled(out, s, q);
    out.push(q);
    assert(out@ =~= old(out)@ + quoted(s@, q));
}

/// Quotes a SQL identifier. Embedded double quotes are doubled per SQL rules.
pub fn quote_ident(name: &str) -> (s: String)
    ensures
        s@ == quoted(name@, '"'),
{
    let mut s = String::new();
    push_quoted(&mut s, name, '"');
    assert(s@ =~= quoted(name@, '"'));
    s
}

/// Escapes a single-quoted SQL string literal.
pub fn quote_str(s: &str) -> (r: String)
    ensures
        r@ == quoted(s@, '\''),
{
    let mut r = String::new();
    push_quoted(&mut r, s, '\'');
    assert(r@ =~= quoted(s@, '\''));
    r
}

/// Another schema of the registry has the same name.
pub open spec fn collides(schemas: Seq<SchemaView>, i: int) -> bool {
    exists|j: int| 0 <= j < schemas.len() && j != i && (#[trigger] schemas[j]).name == schemas[i].name
}

/// The display name of a schema: its qualified name, followed by `#` and its id where another
/// schema has the same name.
pub open spec fn display_name(schemas: Seq<SchemaView>, i: int) -> Seq<char> {
    if collides(schemas, i) {
        schemas[i].name + "#"@ + hex_text(schemas[i].id as nat, 16)
    } else {
        schemas[i].name
    }
}

/// The display names of a registry.
pub open spec fn names_of(schemas: Seq<SchemaView>) -> Seq<Seq<char>> {
    Seq::new(schemas.len(), |i: int| display_name(schemas, i))
}

/// The per-schema display name used for the `event` column, the per-event struct column and the
/// per-event view: the `qualified_name`, suffixed with `#<id>` only when two schemas collide on it.
pub fn display_names(schemas: &[OwnedSchema]) -> (names: Vec<String>)
    ensures
        strings_view(names@) == names_of(owned_schemas_view(schemas@)),
{
    let ghost view = owned_schemas_view(schemas@);
    let mut names: Vec<String> = Vec::new();
    let mut i: usize = 0;
    while i < schemas.len()
        invariant
            i <= schemas@.len(),
            view == owned_schemas_view(schemas@),
            names@.len() == i,
            forall|k: int| 0 <= k < i ==> (#[trigger] names@[k])@ == display_name(view, k),
        decreases schemas@.len() - i,
    {
        let mut same = false;
        let mut j: usize = 0;
        assert(view[i as int] == schemas@[i as int]@);
        while j < schemas.len()
            invariant
                i < schemas@.len(),
                j <= schemas@.len(),
                view == owned_schemas_view(schemas@),
                same == exists|k: int|
                    0 <= k < j && k != i && (#[trigger] view[k]).name == view[i as int].name,
            decreases schemas@.len() - j,
        {
            assert(view[j as int] == schemas@[j as int]@);
            assert(view[i as int] == schemas@[i as int]@);
            if j != i && schemas[j].qualified_name == schemas[i].qualified_name {
                assert(view[j as int].name == view[i as int].name);
                same = true;
            }
            j = j + 1;
        }
        let mut name = schemas[i].qualified_name.clone();
        if same {
            name.append("#");
            push_hex(&mut name, schemas[i].id.get(), 16);
        }
        names.push(name);
        i = i + 1;
    }
    assert(strings_view(names@) =~= names_of(view));
    names
}

/// The view of one event type: the rows that have its id.
pub open spec fn event_view(name: Seq<char>, id: u64) -> Seq<char> {
    "CREATE OR REPLACE VIEW "@ + quoted(name, '"') + " AS SELECT * FROM events WHERE event_id = "@
        + dec_text(id as nat) + ";\n"@
}

/// The views of the first `n` event types.
pub open spec fn event_views(schemas: Seq<SchemaView>, n: nat) -> Seq<char>
    decreases n,
{
    if n == 0 {
        Seq::empty()
    } else {
        event_views(schemas, (n - 1) as nat) + event_view(
            display_name(schemas, n - 1),
            schemas[n - 1].id,
        )
    }
}

/// One row of the manifest.
pub open spec fn key_row(event: Seq<char>, f: FieldView) -> Seq<char> {
    "  ("@ + quoted(event, '\'') + ", "@ + quoted(f.name, '\'') + ", "@ + quoted(
        role_text(f.role),
        '\'',
    ) + ")"@
}

/// The rows of the manifest that a run of fields gives.
pub open spec fn field_rows(event: Seq<char>, fields: Seq<FieldView>) -> Seq<Seq<char>>
    decreases fields.len(),
{
    if fields.len() == 0 {
        Seq::empty()
    } else if promoted(fields.last().role) {
        field_rows(event, fields.drop_last()).push(key_row(event, fields.last()))
    } else {
        field_rows(event, fields.drop_last())
    }
}

/// The rows of the manifest that the first `n` event types give.
pub open spec fn key_rows(schemas: Seq<SchemaView>, n: nat) -> Seq<Seq<char>>
    decreases n,
{
    if n == 0 {
        Seq::empty()
    } else {
        key_rows(schemas, (n - 1) as nat) + field_rows(
            display_name(schemas, n - 1),
            schemas[n - 1].fields,
        )
    }
}

/// Texts one after the other, with a comma and a line break between two of them.
pub open spec fn join_rows(rows: Seq<Seq<char>>) -> Seq<char>
    decreases rows.len(),
{
    if rows.len() == 0 {
        Seq::empty()
    } else if rows.len() == 1 {
        rows[0]
    } else {
        join_rows(rows.drop_last()) + ",\n"@ + rows.last()
    }
}

/// The manifest of the promoted columns.
pub open spec fn keys_view(schemas: Seq<SchemaView>) -> Seq<char> {
    let rows = key_rows(schemas, schemas.len());
    if rows.len() == 0 {
        KEYS_EMPTY@
    } else {
        KEYS_OPEN@ + join_rows(rows) + KEYS_CLOSE@
    }
}

/// The DDL that a registry gives.
pub open spec fn tier1_text(schemas: Seq<SchemaView>) -> Seq<char> {
    TIER1_HEAD@ + EVENTS_HEAD@ + event_views(schemas, schemas.len()) + KEYS_HEAD@ + keys_view(
        schemas,
    )
}

/// Appends the row of the manifest for one promoted field.
fn push_key_row(out: &mut String, event: &str, f: &OwnedField)
    ensures
        final(out)@ == old(out)@ + key_row(event@, f@),
{
    out.append("  (");
    push_quoted(out, event, '\'');
    out.append(", ");
    push_quoted(out, f.name.as_str(), '\'');
    out.append(", ");
    push_quoted(out, role_label(f.role), '\'');
    out.append(")");
    assert(out@ =~= old(out)@ + key_row(event@, f@));
}

/// The rows of the manifest.
fn manifest_rows(schemas: &[OwnedSchema], names: &Vec<String>) -> (rows: Vec<String>)
    requires
        strings_view(names@) == names_of(owned_schemas_view(schemas@)),
    ensures
        strings_view(rows@) == key_rows(
            owned_schemas_view(schemas@),
            owned_schemas_view(schemas@).len(),
        ),
{
    let ghost view = owned_schemas_view(schemas@);
    let mut rows: Vec<String> = Vec::new();
    assert(strings_view(rows@) =~= key_rows(view, 0));
    assert(strings_view(names@).len() == names@.len());
    let mut i: usize = 0;
    while i < schemas.len()
        invariant
            i <= schemas@.len() == names@.len(),
            view == owned_schemas_view(schemas@),
            strings_view(names@) == names_of(view),
            strings_view(rows@) == key_rows(view, i as nat),
        decreases schemas@.len() - i,
    {
        let s = &schemas[i];
        let ghost name = display_name(view, i as int);
        let ghost base = strings_view(rows@);
        let ghost fields = view[i as int].fields;
        proof {
            assert(strings_view(names@)[i as int] == names@[i as int]@);
            assert(view[i as int] == s@);
            assert(base + field_rows(name, fields.take(0)) =~= base);
        }
        let mut j: usize = 0;
        while j < s.fields.len()
            invariant
                j <= s.fields@.len(),
                i < names@.len(),
                names@[i as int]@ == name,
                fields == s@.fields,
                strings_view(rows@) == base + field_rows(name, fields.take(j as int)),
            decreases s.fields@.len() - j,
        {
            let f = &s.fields[j];
            let ghost before = strings_view(rows@);
            proof {
                assert(fields[j as int] == f@);
                assert(fields.take(j + 1).drop_last() =~= fields.take(j as int));
            }
            if is_promoted(f.role) {
                let mut row = String::new();
                push_key_row(&mut row, names[i].as_str(), f);
                assert(row@ =~= key_row(name, f@));
                rows.push(row);
                assert(strings_view(rows@) =~= before.push(row@));
                assert((base + field_rows(name, fields.take(j as int))).push(row@) =~= base
                    + field_rows(name, fields.take(j as int)).push(row@));
            }
            j = j + 1;
        }
        assert(fields.take(j as int) =~= fields);
        i = i + 1;
    }
    rows
}

/// Generates the Tier-1 DDL from the unioned schema registry. It references a base view `events`
/// (see [`bootstrap`]) but does not define it, so this text is path-independent.
pub fn generate_tier1(schemas: &[OwnedSchema]) -> (out: String)
    ensures
        out@ == tier1_text(owned_schemas_view(schemas@)),
{
    let ghost view = owned_schemas_view(schemas@);
    let names = display_names(schemas);
    let mut out = String::new();
    out.append(TIER1_HEAD);
    out.append(EVENTS_HEAD);
    let ghost head = TIER1_HEAD@ + EVENTS_HEAD@;
    assert(out@ =~= head);
    assert(head + event_views(view, 0) =~= head);
    assert(strings_view(names@).len() == names@.len());
    let mut i: usize = 0;
    while i < schemas.len()
        invariant
            i <= schemas@.len() == names@.len(),
            view == owned_schemas_view(schemas@),
            strings_view(names@) == names_of(view),
            out@ == head + event_views(view, i as nat),
        decreases schemas@.len() - i,
    {
        let ghost before = out@;
        proof {
            assert(strings_view(names@)[i as int] == names@[i as int]@);
            assert(view[i as int] == schemas@[i as int]@);
        }
        out.append("CREATE OR REPLACE VIEW ");
        push_quoted(&mut out, names[i].as_str(), '"');
        out.append(" AS SELECT * FROM events WHERE event_id = ");
        push_dec(&mut out, schemas[i].id.get());
        out.append(";\n");
        proof {
            assert(out@ =~= before + event_view(names@[i as int]@, view[i as int].id));
            assert(out@ =~= head + event_views(view, (i + 1) as nat));
        }
        i = i + 1;
    }
    out.append(KEYS_HEAD);
    let ghost base = out@;
    let rows = manifest_rows(schemas, &names);
    let ghost rv = strings_view(rows@);
    if rows.len() == 0 {
        out.append(KEYS_EMPTY);
    } else {
        out.append(KEYS_OPEN);
        out.append(rows[0].as_str());
        let mut k: usize = 1;
        assert(rv.take(1)[0] == rows@[0]@);
        assert(out@ =~= base + KEYS_OPEN@ + join_rows(rv.take(1)));
        while k < rows.len()
            invariant
                1 <= k <= rows@.len(),
                rv == strings_view(rows@),
                out@ == base + KEYS_OPEN@ + join_rows(rv.take(k as int)),
            decreases rows@.len() - k,
        {
            proof {
                assert(rv.take(k + 1).drop_last() =~= rv.take(k as int));
                assert(rv.take(k + 1).last() == rows@[k as int]@);
            }
            out.append(",\n");
            out.append(rows[k].as_str());
            assert(out@ =~= base + KEYS_OPEN@ + join_rows(rv.take(k + 1)));
            k = k + 1;
        }
        assert(rv.take(k as int) =~= rv);
        out.append(KEYS_CLOSE);
    }
    assert(out@ =~= tier1_text(view));
    out
}

/// What stands ahead of the path in the bootstrap.
pub const BOOTSTRAP_OPEN: &'static str =
    "-- Bind the base table to this conversion's Parquet output.\nCREATE OR REPLACE VIEW events AS SELECT * FROM read_parquet(";

/// A one-line bootstrap that binds the base `events` view to a Parquet file, prepended to the
/// `.sql` sidecar. The footer-embedded copy omits this so it stays path-independent.
pub fn bootstrap(parquet_path: &str) -> (out: String)
    ensures
        out@ == BOOTSTRAP_OPEN@ + quoted(parquet_path@, '\'') + ");\n\n"@,
{
    let mut out = String::new();
    out.append(BOOTSTRAP_OPEN);
    push_quoted(&mut out, parquet_path, '\'');
    out.append(");\n\n");
    assert(out@ =~= BOOTSTRAP_OPEN@ + quoted(parquet_path@, '\'') + ");\n\n"@);
    out
}

/// A registered view set as it is appended: its number, then the text, with a line break at its
/// end.
pub open spec fn view_set_text(i: nat, sql: Seq<char>) -> Seq<char> {
    "\n-- Registered view set #"@ + dec_text(i + 1) + ".\n"@ + sql + (if sql.len() > 0 && sql.last()
        == '\n' {
        Seq::empty()
    } else {
        seq!['\n']
    })
}

/// The first `n` registered view sets, one after the other.
pub open spec fn view_sets_text(tier2: Seq<Seq<char>>, n: nat) -> Seq<char>
    decreases n,
{
    if n == 0 {
        Seq::empty()
    } else {
        view_sets_text(tier2, (n - 1) as nat) + view_set_text((n - 1) as nat, tier2[n - 1])
    }
}

/// The full DDL of a registry and its registered view sets.
pub open spec fn assembled_text(schemas: Seq<SchemaView>, tier2: Seq<Seq<char>>) -> Seq<char> {
    tier1_text(schemas) + view_sets_text(tier2, tier2.len())
}

/// Assembles the full DDL body: Tier-1 (generated) followed by each registered Tier-2 view set
/// (verbatim, in order).
pub fn assemble(schemas: &[OwnedSchema], tier2: &[String]) -> (out: String)
    ensures
        out@ == assembled_text(owned_schemas_view(schemas@), strings_view(tier2@)),
{
    let mut out = generate_tier1(schemas);
    let ghost head = out@;
    let ghost tv = strings_view(tier2@);
    assert(head + view_sets_text(tv, 0) =~= head);
    let mut i: usize = 0;
    while i < tier2.len()
        invariant
            i <= tier2@.len(),
            tv == strings_view(tier2@),
            out@ == head + view_sets_text(tv, i as nat),
        decreases tier2@.len() - i,
    {
        let ghost before = out@;
        let sql = tier2[i].as_str();
        assert(tv[i as int] == sql@);
        out.append("\n-- Registered view set #");
        push_dec(&mut out, i as u64 + 1);
        out.append(".\n");
        out.append(sql);
        let len: usize = sql.unicode_len();
        if len == 0 || sql.get_char(len - 1) != '\n' {
            out.push('\n');
        }
        proof {
            assert(out@ =~= before + view_set_text(i as nat, sql@));
            assert(out@ =~= head + view_sets_text(tv, (i + 1) as nat));
        }
        i = i + 1;
    }
    out
}

} // verus!
