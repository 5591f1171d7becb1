//! Converting loaded dumps to one sparse-wide table, driven entirely by their embedded schemas.
//!
//! The table has
//!
//! * dense common columns present on every row: `seq`, `ts_nanos`, `event`, `event_id`,
//!   `instance_id`;
//! * one nullable column per promoted field name (keys and span ids), unioned over all events;
//! * one nullable struct column per event type that has fields left, holding these.
//!
//! Each column carries its semantics (role, unit, sentinel, span phase, description) as metadata.

use crate::buf::{bytes_as_slice, bytes_of};
use crate::decode::{decode_field, decoded, opt_value, Value, ValueView};
use crate::intern::InternTable;
use crate::model::{
    index_by_id, indexes, lemma_schema_of_id, loaded_view, schema_leq, schema_of_id, sort_schemas,
    sorted_schemas, Loaded, LoadedView,
};
use crate::order::lemma_stable_sort_contains;
use crate::schema::{FieldType, FieldView, Phase, SchemaView};
use crate::stream::{all_wf, is_merge, merged_view, streams, unique_records, ItemView, MergedRec};
use crate::text::{dec, dec_text};
use crate::views::{
    assemble, assembled_text, display_name, display_names, is_promoted, names_of, promoted,
    role_label, role_text,
};
use crate::wire::{owned_fields_view, owned_schemas_view, strings_view, OwnedField, OwnedSchema};
use bytes::Bytes;
use vstd::prelude::*;

verus! {

/// The kind of a column.
#[derive(Clone, Copy, Debug, PartialEq, Eq, Structural)]
pub enum ColumnKind {
    UInt64,
    Int64,
    Boolean,
    Utf8,
}

/// A nullable column: its name, kind, metadata and one cell per row.
pub struct Column {
    pub name: String,
    pub kind: ColumnKind,
    pub metadata: Vec<(String, String)>,
    pub values: Vec<Option<Value>>,
}

/// The struct column of one event type: its children, and per row whether the row is one of this
/// event.
pub struct EventColumn {
    pub name: String,
    pub metadata: Vec<(String, String)>,
    pub valid: Vec<bool>,
    pub children: Vec<Column>,
}

/// The sparse-wide table.
pub struct Table {
    pub seq: Vec<u64>,
    pub ts_nanos: Vec<u64>,
    pub event: Vec<String>,
    pub event_id: Vec<u64>,
    pub instance_id: Vec<u64>,
    pub keys: Vec<Column>,
    pub events: Vec<EventColumn>,
}

/// One merged row across all input dumps.
pub struct Row<'a> {
    pub ts_nanos: u64,
    pub instance_id: u64,
    /// Index into the unioned schemas.
    pub schema_idx: usize,
    pub fields: Bytes,
    pub intern: &'a InternTable,
}

// ---------------------------------------------------------------------------
// Values.
// ---------------------------------------------------------------------------

/// The value of a column.
#[verifier::ext_equal]
pub struct ColumnView {
    pub name: Seq<char>,
    pub kind: ColumnKind,
    pub metadata: Seq<(Seq<char>, Seq<char>)>,
    pub values: Seq<Option<ValueView>>,
}

/// The value of an event's struct column.
#[verifier::ext_equal]
pub struct EventColumnView {
    pub name: Seq<char>,
    pub metadata: Seq<(Seq<char>, Seq<char>)>,
    pub valid: Seq<bool>,
    pub children: Seq<ColumnView>,
}

/// The value of a table.
#[verifier::ext_equal]
pub struct TableView {
    pub seq: Seq<u64>,
    pub ts_nanos: Seq<u64>,
    pub event: Seq<Seq<char>>,
    pub event_id: Seq<u64>,
    pub instance_id: Seq<u64>,
    pub keys: Seq<ColumnView>,
    pub events: Seq<EventColumnView>,
}

/// The value of a row.
#[verifier::ext_equal]
pub struct RowView {
    pub ts_nanos: u64,
    pub instance_id: u64,
    pub schema_idx: nat,
    pub fields: Seq<u8>,
    pub intern: Map<u32, Seq<char>>,
}

/// The value of metadata.
pub open spec fn meta_view(m: Seq<(String, String)>) -> Seq<(Seq<char>, Seq<char>)> {
    m.map_values(|p: (String, String)| (p.0@, p.1@))
}

/// The value of a run of cells.
pub open spec fn cells_view(v: Seq<Option<Value>>) -> Seq<Option<ValueView>> {
    v.map_values(|c: Option<Value>| opt_value(c))
}

impl View for Column {
    type V = ColumnView;

    open spec fn view(&self) -> ColumnView {
        ColumnView {
            name: self.name@,
            kind: self.kind,
            metadata: meta_view(self.metadata@),
            values: cells_view(self.values@),
        }
    }
}

/// The values of a run of columns.
pub open spec fn columns_view(v: Seq<Column>) -> Seq<ColumnView> {
    v.map_values(|c: Column| c@)
}

impl View for EventColumn {
    type V = EventColumnView;

    open spec fn view(&self) -> EventColumnView {
        EventColumnView {
            name: self.name@,
            metadata: meta_view(self.metadata@),
            valid: self.valid@,
            children: columns_view(self.children@),
        }
    }
}

/// The values of a run of event columns.
pub open spec fn event_columns_view(v: Seq<EventColumn>) -> Seq<EventColumnView> {
    v.map_values(|c: EventColumn| c@)
}

impl View for Table {
    type V = TableView;

    open spec fn view(&self) -> TableView {
        TableView {
            seq: self.seq@,
            ts_nanos: self.ts_nanos@,
            event: strings_view(self.event@),
            event_id: self.event_id@,
            instance_id: self.instance_id@,
            keys: columns_view(self.keys@),
            events: event_columns_view(self.events@),
        }
    }
}

impl<'a> View for Row<'a> {
    type V = RowView;

    open spec fn view(&self) -> RowView {
        RowView {
            ts_nanos: self.ts_nanos,
            instance_id: self.instance_id,
            schema_idx: self.schema_idx as nat,
            fields: bytes_of(self.fields),
            intern: self.intern@,
        }
    }
}

/// The values of a run of rows.
pub open spec fn rows_view(v: Seq<Row>) -> Seq<RowView> {
    v.map_values(|r: Row| r@)
}

// ---------------------------------------------------------------------------
// What the table holds.
// ---------------------------------------------------------------------------

/// The column kind that a field type decodes to.
pub open spec fn kind_of(ty: FieldType) -> ColumnKind {
    match ty {
        FieldType::U8 | FieldType::U16 | FieldType::U32 | FieldType::U64 => ColumnKind::UInt64,
        FieldType::I8 | FieldType::I16 | FieldType::I32 | FieldType::I64 => ColumnKind::Int64,
        FieldType::Bool => ColumnKind::Boolean,
        FieldType::Bytes | FieldType::Enum { .. } | FieldType::Interned { .. } => ColumnKind::Utf8,
    }
}

/// The column kind of a decoded value.
pub open spec fn value_kind(v: ValueView) -> ColumnKind {
    match v {
        ValueView::U64(_) => ColumnKind::UInt64,
        ValueView::I64(_) => ColumnKind::Int64,
        ValueView::Bool(_) => ColumnKind::Boolean,
        ValueView::Str(_) => ColumnKind::Utf8,
    }
}

/// The cell that a value makes in a column: the value, or null where its kind is another.
pub open spec fn cell(kind: ColumnKind, v: Option<ValueView>) -> Option<ValueView> {
    match v {
        Some(v) => if value_kind(v) == kind {
            Some(v)
        } else {
            None
        },
        None => None,
    }
}

/// One metadata entry, if there is a value for it.
pub open spec fn meta_entry(key: Seq<char>, value: Option<Seq<char>>) -> Seq<(Seq<char>, Seq<char>)> {
    match value {
        Some(v) => seq![(key, v)],
        None => Seq::empty(),
    }
}

/// The metadata of a field's column: role, unit, sentinel and description, as far as it has them.
pub open spec fn field_meta(f: FieldView) -> Seq<(Seq<char>, Seq<char>)> {
    meta_entry(
        "backbeat.role"@,
        if promoted(f.role) {
            Some(role_text(f.role))
        } else {
            None
        },
    ) + meta_entry("backbeat.unit"@, f.unit) + meta_entry(
        "backbeat.sentinel"@,
        match f.sentinel {
            Some(v) => Some(dec_text(v as nat)),
            None => None,
        },
    ) + meta_entry("backbeat.description"@, f.description)
}

/// The metadata of an event's struct column: span phase and description.
pub open spec fn event_meta(s: SchemaView) -> Seq<(Seq<char>, Seq<char>)> {
    meta_entry(
        "backbeat.span"@,
        match s.phase {
            Phase::Enter => Some("enter"@),
            Phase::Exit => Some("exit"@),
            Phase::Instant => None,
        },
    ) + meta_entry("backbeat.description"@, s.description)
}

/// The promoted columns that a run of fields adds to those there are: a name is taken once, with
/// the kind of its first declaration.
pub open spec fn with_keys(
    keys: Seq<(Seq<char>, ColumnKind)>,
    fields: Seq<FieldView>,
) -> Seq<(Seq<char>, ColumnKind)>
    decreases fields.len(),
{
    if fields.len() == 0 {
        keys
    } else {
        let before = with_keys(keys, fields.drop_last());
        let f = fields.last();
        if promoted(f.role) && !has_name(before, f.name) {
            before.push((f.name, kind_of(f.ty)))
        } else {
            before
        }
    }
}

/// A promoted column has the name.
pub open spec fn has_name(keys: Seq<(Seq<char>, ColumnKind)>, name: Seq<char>) -> bool {
    exists|i: int| 0 <= i < keys.len() && (#[trigger] keys[i]).0 == name
}

/// The promoted columns of the first `n` event types.
pub open spec fn key_columns(schemas: Seq<SchemaView>, n: nat) -> Seq<(Seq<char>, ColumnKind)>
    decreases n,
{
    if n == 0 {
        Seq::empty()
    } else {
        with_keys(key_columns(schemas, (n - 1) as nat), schemas[n - 1].fields)
    }
}

/// The first field with the given name, promoted ones only if so asked.
pub open spec fn field_named(
    fields: Seq<FieldView>,
    name: Seq<char>,
    only_promoted: bool,
) -> Option<FieldView>
    decreases fields.len(),
{
    if fields.len() == 0 {
        None
    } else if fields[0].name == name && (only_promoted ==> promoted(fields[0].role)) {
        Some(fields[0])
    } else {
        field_named(fields.skip(1), name, only_promoted)
    }
}

/// The first field of the registry that has the name.
pub open spec fn declaration(schemas: Seq<SchemaView>, name: Seq<char>) -> Option<FieldView>
    decreases schemas.len(),
{
    if schemas.len() == 0 {
        None
    } else {
        match field_named(schemas[0].fields, name, false) {
            Some(f) => Some(f),
            None => declaration(schemas.skip(1), name),
        }
    }
}

/// The cell of a promoted column in one row: the value of the row's own field of that name.
pub open spec fn key_cell(
    schemas: Seq<SchemaView>,
    row: RowView,
    key: (Seq<char>, ColumnKind),
) -> Option<ValueView> {
    match field_named(schemas[row.schema_idx as int].fields, key.0, true) {
        Some(f) => cell(key.1, decoded(f, row.fields, row.intern)),
        None => None,
    }
}

/// One promoted column.
pub open spec fn key_column(
    schemas: Seq<SchemaView>,
    rows: Seq<RowView>,
    key: (Seq<char>, ColumnKind),
) -> ColumnView {
    ColumnView {
        name: key.0,
        kind: key.1,
        metadata: match declaration(schemas, key.0) {
            Some(f) => field_meta(f),
            None => Seq::empty(),
        },
        values: rows.map_values(|r: RowView| key_cell(schemas, r, key)),
    }
}

/// The column of one field under its event's struct column: null in rows of other events.
pub open spec fn child_column(rows: Seq<RowView>, idx: nat, f: FieldView) -> ColumnView {
    ColumnView {
        name: f.name,
        kind: kind_of(f.ty),
        metadata: field_meta(f),
        values: rows.map_values(
            |r: RowView|
                if r.schema_idx == idx {
                    cell(kind_of(f.ty), decoded(f, r.fields, r.intern))
                } else {
                    None
                },
        ),
    }
}

/// The columns of a run of fields under their event's struct column; promoted fields have their own
/// top-level column instead.
pub open spec fn child_columns(rows: Seq<RowView>, idx: nat, fields: Seq<FieldView>) -> Seq<
    ColumnView,
>
    decreases fields.len(),
{
    if fields.len() == 0 {
        Seq::empty()
    } else if promoted(fields.last().role) {
        child_columns(rows, idx, fields.drop_last())
    } else {
        child_columns(rows, idx, fields.drop_last()).push(child_column(rows, idx, fields.last()))
    }
}

/// The struct column of one event type.
pub open spec fn event_column(schemas: Seq<SchemaView>, rows: Seq<RowView>, idx: nat) -> EventColumnView {
    EventColumnView {
        name: display_name(schemas, idx as int),
        metadata: event_meta(schemas[idx as int]),
        valid: rows.map_values(|r: RowView| r.schema_idx == idx),
        children: child_columns(rows, idx, schemas[idx as int].fields),
    }
}

/// The struct columns of the first `n` event types; an event without fields of its own has none.
pub open spec fn event_columns(schemas: Seq<SchemaView>, rows: Seq<RowView>, n: nat) -> Seq<
    EventColumnView,
>
    decreases n,
{
    if n == 0 {
        Seq::empty()
    } else {
        let c = event_column(schemas, rows, (n - 1) as nat);
        let before = event_columns(schemas, rows, (n - 1) as nat);
        if c.children.len() == 0 {
            before
        } else {
            before.push(c)
        }
    }
}

/// The table of a registry and rows.
pub open spec fn table_of(schemas: Seq<SchemaView>, rows: Seq<RowView>) -> TableView {
    TableView {
        seq: Seq::new(rows.len(), |i: int| i as u64),
        ts_nanos: rows.map_values(|r: RowView| r.ts_nanos),
        event: rows.map_values(|r: RowView| display_name(schemas, r.schema_idx as int)),
        event_id: rows.map_values(|r: RowView| schemas[r.schema_idx as int].id),
        instance_id: rows.map_values(|r: RowView| r.instance_id),
        keys: key_columns(schemas, schemas.len()).map_values(
            |k: (Seq<char>, ColumnKind)| key_column(schemas, rows, k),
        ),
        events: event_columns(schemas, rows, schemas.len()),
    }
}

/// A registry with the schemas of another added that have a new id.
pub open spec fn with_schemas(known: Seq<SchemaView>, more: Seq<SchemaView>) -> Seq<SchemaView>
    decreases more.len(),
{
    if more.len() == 0 {
        known
    } else {
        let before = with_schemas(known, more.drop_last());
        if has_id(before, more.last().id) {
            before
        } else {
            before.push(more.last())
        }
    }
}

/// A schema of the registry has the id.
pub open spec fn has_id(schemas: Seq<SchemaView>, id: u64) -> bool {
    exists|i: int| 0 <= i < schemas.len() && (#[trigger] schemas[i]).id == id
}

/// The union of the registries of all dumps by id, in the order in which the ids are first seen.
pub open spec fn union_of(dumps: Seq<LoadedView>) -> Seq<SchemaView>
    decreases dumps.len(),
{
    if dumps.len() == 0 {
        Seq::empty()
    } else {
        with_schemas(union_of(dumps.drop_last()), dumps.last().schemas)
    }
}

/// A merged record as a row over the given registry.
pub open spec fn row_of(
    dumps: Seq<LoadedView>,
    schemas: Seq<SchemaView>,
    item: ItemView,
) -> RowView {
    let l = dumps[item.dump as int];
    RowView {
        ts_nanos: item.key.ts_nanos,
        instance_id: item.key.instance_id,
        schema_idx: schema_of_id(schemas, l.schemas[item.schema_idx as int].id)->0,
        fields: item.fields,
        intern: l.intern,
    }
}

/// The registry of a conversion: the union of all, in the order of names.
pub open spec fn conversion_schemas(dumps: Seq<LoadedView>) -> Seq<SchemaView> {
    sorted_schemas(union_of(dumps))
}

/// The table of a conversion whose merged records are `items`.
pub open spec fn conversion_table(dumps: Seq<LoadedView>, items: Seq<ItemView>) -> TableView {
    let schemas = conversion_schemas(dumps);
    table_of(schemas, items.map_values(|i: ItemView| row_of(dumps, schemas, i)))
}

/// View sets with those of `more` added that are not there yet.
pub open spec fn with_views(known: Seq<Seq<char>>, more: Seq<Seq<char>>) -> Seq<Seq<char>>
    decreases more.len(),
{
    if more.len() == 0 {
        known
    } else {
        let before = with_views(known, more.drop_last());
        if before.contains(more.last()) {
            before
        } else {
            before.push(more.last())
        }
    }
}

/// The registered view sets of all dumps, each text once, in the order in which they are first seen.
pub open spec fn views_of(dumps: Seq<LoadedView>) -> Seq<Seq<char>>
    decreases dumps.len(),
{
    if dumps.len() == 0 {
        Seq::empty()
    } else {
        with_views(views_of(dumps.drop_last()), dumps.last().views)
    }
}

// ---------------------------------------------------------------------------
// Building the table.
// ---------------------------------------------------------------------------

/// The column kind a field decodes to.
pub fn column_kind(ty: FieldType) -> (k: ColumnKind)
    ensures
        k == kind_of(ty),
{
    match ty {
        FieldType::U8 | FieldType::U16 | FieldType::U32 | FieldType::U64 => ColumnKind::UInt64,
        FieldType::I8 | FieldType::I16 | FieldType::I32 | FieldType::I64 => ColumnKind::Int64,
        FieldType::Bool => ColumnKind::Boolean,
        FieldType::Bytes | FieldType::Enum { .. } | FieldType::Interned { .. } => ColumnKind::Utf8,
    }
}

/// The cell that a value makes in a column. Type drift between schema and value makes a null.
fn make_cell(kind: ColumnKind, v: Option<Value>) -> (c: Option<Value>)
    ensures
        opt_value(c) == cell(kind, opt_value(v)),
{
    match v {
        Some(v) => {
            let own = match &v {
                Value::U64(_) => ColumnKind::UInt64,
                Value::I64(_) => ColumnKind::Int64,
                Value::Bool(_) => ColumnKind::Boolean,
                Value::Str(_) => ColumnKind::Utf8,
            };
            if own == kind {
                Some(v)
            } else {
                None
            }
        },
        None => None,
    }
}

/// Adds one metadata entry, if there is a value for it.
fn put_meta(m: &mut Vec<(String, String)>, key: &str, value: Option<&str>)
    ensures
        meta_view(final(m)@) == meta_view(old(m)@) + meta_entry(
            key@,
            crate::id::opt_chars(value),
        ),
{
    let ghost before = m@;
    match value {
        Some(v) => {
            m.push((key.to_string(), v.to_string()));
            assert(meta_view(m@) =~= meta_view(before).push((key@, v@)));
        },
        None => {},
    }
    assert(meta_view(m@) =~= meta_view(before) + meta_entry(key@, crate::id::opt_chars(value)));
}

/// Column metadata mirroring a field's semantics.
pub fn field_metadata(f: &OwnedField) -> (m: Vec<(String, String)>)
    ensures
        meta_view(m@) == field_meta(f@),
{
    let mut m: Vec<(String, String)> = Vec::new();
    assert(meta_view(m@) =~= Seq::<(Seq<char>, Seq<char>)>::empty());
    let role = if is_promoted(f.role) {
        Some(role_label(f.role))
    } else {
        None
    };
    put_meta(&mut m, "backbeat.role", role);
    put_meta(&mut m, "backbeat.unit", crate::wire::as_deref(&f.unit));
    match f.sentinel {
        Some(v) => {
            let text = dec(v);
            put_meta(&mut m, "backbeat.sentinel", Some(text.as_str()));
        },
        None => put_meta(&mut m, "backbeat.sentinel", None),
    }
    put_meta(&mut m, "backbeat.description", crate::wire::as_deref(&f.description));
    assert(meta_view(m@) =~= field_meta(f@));
    m
}

/// Metadata of a per-event struct column: the span phase and the event's description.
pub fn event_metadata(s: &OwnedSchema) -> (m: Vec<(String, String)>)
    ensures
        meta_view(m@) == event_meta(s@),
{
    let mut m: Vec<(String, String)> = Vec::new();
    assert(meta_view(m@) =~= Seq::<(Seq<char>, Seq<char>)>::empty());
    let phase = match s.phase {
        Phase::Enter => Some("enter"),
        Phase::Exit => Some("exit"),
        Phase::Instant => None,
    };
    put_meta(&mut m, "backbeat.span", phase);
    put_meta(&mut m, "backbeat.description", crate::wire::as_deref(&s.description));
    assert(meta_view(m@) =~= event_meta(s@));
    m
}

/// The value of planned promoted columns.
pub open spec fn keys_view(v: Seq<(String, ColumnKind)>) -> Seq<(Seq<char>, ColumnKind)> {
    v.map_values(|k: (String, ColumnKind)| (k.0@, k.1))
}

/// Whether a planned promoted column has the name.
fn contains_name(keys: &Vec<(String, ColumnKind)>, name: &String) -> (r: bool)
    ensures
        r == has_name(keys_view(keys@), name@),
{
    let ghost view = keys_view(keys@);
    let mut i: usize = 0;
    while i < keys.len()
        invariant
            i <= keys@.len(),
            view == keys_view(keys@),
            forall|k: int| 0 <= k < i ==> (#[trigger] view[k]).0 != name@,
        decreases keys@.len() - i,
    {
        assert(view[i as int].0 == keys@[i as int].0@);
        if keys[i].0 == *name {
            return true;
        }
        i = i + 1;
    }
    false
}

/// Plans the promoted columns: unioned by name across all events, the first declaration wins the
/// kind.
fn plan_keys(schemas: &[OwnedSchema]) -> (keys: Vec<(String, ColumnKind)>)
    ensures
        keys_view(keys@) == key_columns(
            owned_schemas_view(schemas@),
            owned_schemas_view(schemas@).len(),
        ),
{
    let ghost view = owned_schemas_view(schemas@);
    let mut keys: Vec<(String, ColumnKind)> = Vec::new();
    assert(keys_view(keys@) =~= key_columns(view, 0));
    let mut i: usize = 0;
    while i < schemas.len()
        invariant
            i <= schemas@.len(),
            view == owned_schemas_view(schemas@),
            keys_view(keys@) == key_columns(view, i as nat),
        decreases schemas@.len() - i,
    {
        let s = &schemas[i];
        let ghost base = keys_view(keys@);
        let ghost fields = view[i as int].fields;
        assert(view[i as int] == s@);
        assert(fields.take(0) =~= Seq::<FieldView>::empty());
        let mut j: usize = 0;
        while j < s.fields.len()
            invariant
                j <= s.fields@.len(),
                fields == s@.fields,
                keys_view(keys@) == with_keys(base, fields.take(j as int)),
            decreases s.fields@.len() - j,
        {
            let f = &s.fields[j];
            let ghost before = keys_view(keys@);
            proof {
                assert(fields[j as int] == f@);
                assert(fields.take(j + 1).drop_last() =~= fields.take(j as int));
            }
            if is_promoted(f.role) && !contains_name(&keys, &f.name) {
                keys.push((f.name.clone(), column_kind(f.ty)));
                assert(keys_view(keys@) =~= before.push((f.name@, kind_of(f.ty))));
            }
            j = j + 1;
        }
        assert(fields.take(j as int) =~= fields);
        i = i + 1;
    }
    keys
}

/// The first field with the given name, promoted ones only if so asked.
fn find_field<'a>(fields: &'a Vec<OwnedField>, name: &String, only_promoted: bool) -> (r: Option<
    &'a OwnedField,
>)
    ensures
        match r {
            Some(f) => field_named(owned_fields_view(fields@), name@, only_promoted) == Some(f@),
            None => field_named(owned_fields_view(fields@), name@, only_promoted) is None,
        },
{
    let ghost view = owned_fields_view(fields@);
    let mut i: usize = 0;
    assert(view.skip(0) =~= view);
    while i < fields.len()
        invariant
            i <= fields@.len(),
            view == owned_fields_view(fields@),
            field_named(view, name@, only_promoted) == field_named(
                view.skip(i as int),
                name@,
                only_promoted,
            ),
        decreases fields@.len() - i,
    {
        let f = &fields[i];
        assert(view.skip(i as int)[0] == f@);
        if f.name == *name && (!only_promoted || is_promoted(f.role)) {
            return Some(f);
        }
        assert(view.skip(i as int).skip(1) =~= view.skip(i + 1));
        i = i + 1;
    }
    None
}

/// The metadata of the promoted column with the given name: that of its first declaration.
fn key_metadata(schemas: &[OwnedSchema], name: &String) -> (m: Vec<(String, String)>)
    ensures
        meta_view(m@) == (match declaration(owned_schemas_view(schemas@), name@) {
            Some(f) => field_meta(f),
            None => Seq::empty(),
        }),
{
    let ghost view = owned_schemas_view(schemas@);
    let mut i: usize = 0;
    assert(view.skip(0) =~= view);
    while i < schemas.len()
        invariant
            i <= schemas@.len(),
            view == owned_schemas_view(schemas@),
            declaration(view, name@) == declaration(view.skip(i as int), name@),
        decreases schemas@.len() - i,
    {
        assert(view.skip(i as int)[0] == schemas@[i as int]@);
        if let Some(f) = find_field(&schemas[i].fields, name, false) {
            return field_metadata(f);
        }
        assert(view.skip(i as int).skip(1) =~= view.skip(i + 1));
        i = i + 1;
    }
    let m: Vec<(String, String)> = Vec::new();
    assert(meta_view(m@) =~= Seq::<(Seq<char>, Seq<char>)>::empty());
    m
}

/// Every row names a schema of the registry.
pub open spec fn rows_ok(rows: Seq<Row>, n: nat) -> bool {
    forall|i: int| 0 <= i < rows.len() ==> (#[trigger] rows[i]).schema_idx < n
}

/// Fills one promoted column: a value if the row's event declares the column, else null.
fn fill_key(schemas: &[OwnedSchema], rows: &[Row], name: &String, kind: ColumnKind) -> (c: Column)
    requires
        rows_ok(rows@, schemas@.len()),
    ensures
        c@ == key_column(owned_schemas_view(schemas@), rows_view(rows@), (name@, kind)),
{
    let ghost view = owned_schemas_view(schemas@);
    let ghost rv = rows_view(rows@);
    let ghost key = (name@, kind);
    let mut values: Vec<Option<Value>> = Vec::new();
    let mut i: usize = 0;
    while i < rows.len()
        invariant
            i <= rows@.len(),
            view == owned_schemas_view(schemas@),
            rv == rows_view(rows@),
            key == (name@, kind),
            rows_ok(rows@, schemas@.len()),
            values@.len() == i,
            forall|k: int|
                0 <= k < i ==> opt_value(#[trigger] values@[k]) == key_cell(view, rv[k], key),
        decreases rows@.len() - i,
    {
        let row = &rows[i];
        assert(rv[i as int] == row@);
        assert(view[row.schema_idx as int] == schemas@[row.schema_idx as int]@);
        let v = match find_field(&schemas[row.schema_idx].fields, name, true) {
            Some(f) => make_cell(kind, decode_field(f, bytes_as_slice(&row.fields), row.intern)),
            None => None,
        };
        values.push(v);
        i = i + 1;
    }
    let c = Column { name: name.clone(), kind, metadata: key_metadata(schemas, name), values };
    assert(c@.values =~= key_column(view, rv, key).values);
    c
}

/// Fills the column of one field under its event's struct column.
fn fill_child(rows: &[Row], idx: usize, f: &OwnedField) -> (c: Column)
    ensures
        c@ == child_column(rows_view(rows@), idx as nat, f@),
{
    let ghost rv = rows_view(rows@);
    let kind = column_kind(f.ty);
    let mut values: Vec<Option<Value>> = Vec::new();
    let mut i: usize = 0;
    while i < rows.len()
        invariant
            i <= rows@.len(),
            rv == rows_view(rows@),
            kind == kind_of(f.ty),
            values@.len() == i,
            forall|k: int|
                0 <= k < i ==> opt_value(#[trigger] values@[k]) == (if rv[k].schema_idx == idx {
                    cell(kind, decoded(f@, rv[k].fields, rv[k].intern))
                } else {
                    None
                }),
        decreases rows@.len() - i,
    {
        let row = &rows[i];
        assert(rv[i as int] == row@);
        let v = if row.schema_idx == idx {
            make_cell(kind, decode_field(f, bytes_as_slice(&row.fields), row.intern))
        } else {
            None
        };
        values.push(v);
        i = i + 1;
    }
    let c = Column { name: f.name.clone(), kind, metadata: field_metadata(f), values };
    assert(c@.values =~= child_column(rv, idx as nat, f@).values);
    c
}

/// Fills the struct column of one event type.
fn fill_event(schemas: &[OwnedSchema], rows: &[Row], idx: usize, name: &String) -> (c: EventColumn)
    requires
        idx < schemas@.len(),
        name@ == display_name(owned_schemas_view(schemas@), idx as int),
    ensures
        c@ == event_column(owned_schemas_view(schemas@), rows_view(rows@), idx as nat),
{
    let ghost view = owned_schemas_view(schemas@);
    let ghost rv = rows_view(rows@);
    let s = &schemas[idx];
    let ghost fields = view[idx as int].fields;
    assert(view[idx as int] == s@);
    let mut valid: Vec<bool> = Vec::new();
    let mut i: usize = 0;
    while i < rows.len()
        invariant
            i <= rows@.len(),
            rv == rows_view(rows@),
            valid@.len() == i,
            forall|k: int| 0 <= k < i ==> (#[trigger] valid@[k]) == (rv[k].schema_idx == idx),
        decreases rows@.len() - i,
    {
        assert(rv[i as int] == rows@[i as int]@);
        valid.push(rows[i].schema_idx == idx);
        i = i + 1;
    }
    let mut children: Vec<Column> = Vec::new();
    assert(columns_view(children@) =~= child_columns(rv, idx as nat, fields.take(0)));
    let mut j: usize = 0;
    while j < s.fields.len()
        invariant
            j <= s.fields@.len(),
            rv == rows_view(rows@),
            fields == s@.fields,
            columns_view(children@) == child_columns(rv, idx as nat, fields.take(j as int)),
        decreases s.fields@.len() - j,
    {
        let f = &s.fields[j];
        let ghost before = columns_view(children@);
        proof {
            assert(fields[j as int] == f@);
            assert(fields.take(j + 1).drop_last() =~= fields.take(j as int));
        }
        if !is_promoted(f.role) {
            let c = fill_child(rows, idx, f);
            children.push(c);
            assert(columns_view(children@) =~= before.push(c@));
        }
        j = j + 1;
    }
    assert(fields.take(j as int) =~= fields);
    let c = EventColumn { name: name.clone(), metadata: event_metadata(s), valid, children };
    assert(c@.valid =~= event_column(view, rv, idx as nat).valid);
    c
}

/// Builds the sparse-wide table from the merged rows.
pub fn build_batch(schemas: &[OwnedSchema], rows: &[Row]) -> (t: Table)
    requires
        rows_ok(rows@, schemas@.len()),
    ensures
        t@ == table_of(owned_schemas_view(schemas@), rows_view(rows@)),
{
    let ghost view = owned_schemas_view(schemas@);
    let ghost rv = rows_view(rows@);
    let names = display_names(schemas);
    assert(strings_view(names@).len() == names@.len());
    let mut seq: Vec<u64> = Vec::new();
    let mut ts_nanos: Vec<u64> = Vec::new();
    let mut event: Vec<String> = Vec::new();
    let mut event_id: Vec<u64> = Vec::new();
    let mut instance_id: Vec<u64> = Vec::new();
    let mut i: usize = 0;
    while i < rows.len()
        invariant
            i <= rows@.len(),
            view == owned_schemas_view(schemas@),
            rv == rows_view(rows@),
            rows_ok(rows@, schemas@.len()),
            names@.len() == schemas@.len(),
            strings_view(names@) == names_of(view),
            seq@.len() == i,
            ts_nanos@.len() == i,
            event@.len() == i,
            event_id@.len() == i,
            instance_id@.len() == i,
            forall|k: int| 0 <= k < i ==> (#[trigger] seq@[k]) == k,
            forall|k: int| 0 <= k < i ==> (#[trigger] ts_nanos@[k]) == rv[k].ts_nanos,
            forall|k: int|
                0 <= k < i ==> (#[trigger] event@[k])@ == display_name(
                    view,
                    rv[k].schema_idx as int,
                ),
            forall|k: int|
                0 <= k < i ==> (#[trigger] event_id@[k]) == view[rv[k].schema_idx as int].id,
            forall|k: int| 0 <= k < i ==> (#[trigger] instance_id@[k]) == rv[k].instance_id,
        decreases rows@.len() - i,
    {
        let row = &rows[i];
        proof {
            assert(rv[i as int] == row@);
            assert(view[row.schema_idx as int] == schemas@[row.schema_idx as int]@);
            assert(strings_view(names@)[row.schema_idx as int]
                == names@[row.schema_idx as int]@);
        }
        seq.push(i as u64);
        ts_nanos.push(row.ts_nanos);
        event.push(names[row.schema_idx].clone());
        event_id.push(schemas[row.schema_idx].id.get());
        instance_id.push(row.instance_id);
        i = i + 1;
    }
    let plan = plan_keys(schemas);
    let ghost pv = keys_view(plan@);
    let mut keys: Vec<Column> = Vec::new();
    let mut k: usize = 0;
    while k < plan.len()
        invariant
            k <= plan@.len(),
            view == owned_schemas_view(schemas@),
            rv == rows_view(rows@),
            rows_ok(rows@, schemas@.len()),
            pv == keys_view(plan@),
            keys@.len() == k,
            forall|m: int| 0 <= m < k ==> (#[trigger] keys@[m])@ == key_column(view, rv, pv[m]),
        decreases plan@.len() - k,
    {
        assert(pv[k as int] == (plan@[k as int].0@, plan@[k as int].1));
        keys.push(fill_key(schemas, rows, &plan[k].0, plan[k].1));
        k = k + 1;
    }
    let mut events: Vec<EventColumn> = Vec::new();
    assert(event_columns_view(events@) =~= event_columns(view, rv, 0));
    let mut e: usize = 0;
    while e < schemas.len()
        invariant
            e <= schemas@.len() == names@.len(),
            view == owned_schemas_view(schemas@),
            rv == rows_view(rows@),
            strings_view(names@) == names_of(view),
            event_columns_view(events@) == event_columns(view, rv, e as nat),
        decreases schemas@.len() - e,
    {
        let ghost before = event_columns_view(events@);
        assert(strings_view(names@)[e as int] == names@[e as int]@);
        let c = fill_event(schemas, rows, e, &names[e]);
        assert(c@.children.len() == c.children@.len());
        // An event whose fields are all promoted, or that has none, has nothing left to nest.
        if c.children.len() > 0 {
            events.push(c);
            assert(event_columns_view(events@) =~= before.push(c@));
        }
        e = e + 1;
    }
    let t = Table { seq, ts_nanos, event, event_id, instance_id, keys, events };
    proof {
        let want = table_of(view, rv);
        assert(t@.seq =~= want.seq);
        assert(t@.ts_nanos =~= want.ts_nanos);
        assert(t@.event =~= want.event);
        assert(t@.event_id =~= want.event_id);
        assert(t@.instance_id =~= want.instance_id);
        assert(t@.keys =~= want.keys);
    }
    t
}

// ---------------------------------------------------------------------------
// Converting loaded dumps.
// ---------------------------------------------------------------------------

/// Whether a schema of the registry has the id.
fn contains_id(schemas: &Vec<OwnedSchema>, id: u64) -> (r: bool)
    ensures
        r == has_id(owned_schemas_view(schemas@), id),
{
    let ghost view = owned_schemas_view(schemas@);
    let mut i: usize = 0;
    while i < schemas.len()
        invariant
            i <= schemas@.len(),
            view == owned_schemas_view(schemas@),
            forall|k: int| 0 <= k < i ==> (#[trigger] view[k]).id != id,
        decreases schemas@.len() - i,
    {
        assert(view[i as int] == schemas@[i as int]@);
        if schemas[i].id.get() == id {
            return true;
        }
        i = i + 1;
    }
    false
}

/// Adds to a registry the schemas of another that have a new id.
pub(crate) fn add_schemas(known: &mut Vec<OwnedSchema>, more: &Vec<OwnedSchema>)
    ensures
        owned_schemas_view(final(known)@) == with_schemas(
            owned_schemas_view(old(known)@),
            owned_schemas_view(more@),
        ),
{
    let ghost base = owned_schemas_view(known@);
    let ghost mv = owned_schemas_view(more@);
    assert(mv.take(0) =~= Seq::<SchemaView>::empty());
    let mut i: usize = 0;
    while i < more.len()
        invariant
            i <= more@.len(),
            mv == owned_schemas_view(more@),
            owned_schemas_view(known@) == with_schemas(base, mv.take(i as int)),
        decreases more@.len() - i,
    {
        let ghost before = owned_schemas_view(known@);
        proof {
            assert(mv[i as int] == more@[i as int]@);
            assert(mv.take(i + 1).drop_last() =~= mv.take(i as int));
        }
        if !contains_id(known, more[i].id.get()) {
            let s = more[i].clone();
            known.push(s);
            assert(owned_schemas_view(known@) =~= before.push(s@));
        }
        i = i + 1;
    }
    assert(mv.take(i as int) =~= mv);
}

/// The union of the registries of all dumps by id, in the order in which the ids are first seen.
pub fn union_schemas(dumps: &[Loaded]) -> (out: Vec<OwnedSchema>)
    ensures
        owned_schemas_view(out@) == union_of(loaded_view(dumps@)),
{
    let ghost view = loaded_view(dumps@);
    let mut out: Vec<OwnedSchema> = Vec::new();
    assert(owned_schemas_view(out@) =~= union_of(view.take(0)));
    let mut i: usize = 0;
    while i < dumps.len()
        invariant
            i <= dumps@.len(),
            view == loaded_view(dumps@),
            owned_schemas_view(out@) == union_of(view.take(i as int)),
        decreases dumps@.len() - i,
    {
        proof {
            assert(view[i as int] == dumps@[i as int]@);
            assert(view.take(i + 1).drop_last() =~= view.take(i as int));
        }
        add_schemas(&mut out, &dumps[i].schemas);
        i = i + 1;
    }
    assert(view.take(i as int) =~= view);
    out
}

/// Whether a text is among others.
fn contains_text(v: &Vec<String>, t: &String) -> (r: bool)
    ensures
        r == strings_view(v@).contains(t@),
{
    let ghost view = strings_view(v@);
    let mut i: usize = 0;
    while i < v.len()
        invariant
            i <= v@.len(),
            view == strings_view(v@),
            forall|k: int| 0 <= k < i ==> (#[trigger] view[k]) != t@,
        decreases v@.len() - i,
    {
        assert(view[i as int] == v@[i as int]@);
        if v[i] == *t {
            assert(view.contains(t@));
            return true;
        }
        i = i + 1;
    }
    false
}

/// The registered view sets of all dumps, each text once, in the order in which they are first seen.
pub fn union_views(dumps: &[Loaded]) -> (out: Vec<String>)
    ensures
        strings_view(out@) == views_of(loaded_view(dumps@)),
{
    let ghost view = loaded_view(dumps@);
    let mut out: Vec<String> = Vec::new();
    assert(strings_view(out@) =~= views_of(view.take(0)));
    let mut i: usize = 0;
    while i < dumps.len()
        invariant
            i <= dumps@.len(),
            view == loaded_view(dumps@),
            strings_view(out@) == views_of(view.take(i as int)),
        decreases dumps@.len() - i,
    {
        let d = &dumps[i];
        let ghost base = strings_view(out@);
        let ghost mv = strings_view(d.views@);
        proof {
            assert(view[i as int] == dumps@[i as int]@);
            assert(view.take(i + 1).drop_last() =~= view.take(i as int));
            assert(mv.take(0) =~= Seq::<Seq<char>>::empty());
        }
        let mut j: usize = 0;
        while j < d.views.len()
            invariant
                j <= d.views@.len(),
                mv == strings_view(d.views@),
                strings_view(out@) == with_views(base, mv.take(j as int)),
            decreases d.views@.len() - j,
        {
            let ghost before = strings_view(out@);
            proof {
                assert(mv[j as int] == d.views@[j as int]@);
                assert(mv.take(j + 1).drop_last() =~= mv.take(j as int));
            }
            if !contains_text(&out, &d.views[j]) {
                let t = d.views[j].clone();
                out.push(t);
                assert(strings_view(out@) =~= before.push(t@));
            }
            j = j + 1;
        }
        assert(mv.take(j as int) =~= mv);
        i = i + 1;
    }
    assert(view.take(i as int) =~= view);
    out
}

/// Adding schemas keeps the ids there were, and adds every id.
pub proof fn lemma_with_schemas_ids(known: Seq<SchemaView>, more: Seq<SchemaView>, id: u64)
    ensures
        has_id(with_schemas(known, more), id) == (has_id(known, id) || has_id(more, id)),
    decreases more.len(),
{
    if more.len() > 0 {
        let init = more.drop_last();
        let before = with_schemas(known, init);
        lemma_with_schemas_ids(known, init, id);
        let after = with_schemas(known, more);
        if has_id(after, id) && after.len() > before.len() {
            let i = choose|i: int| 0 <= i < after.len() && (#[trigger] after[i]).id == id;
            if i < before.len() {
                assert(before[i].id == id);
            } else {
                assert(more[more.len() - 1].id == id);
            }
        }
        if has_id(before, id) {
            let i = choose|i: int| 0 <= i < before.len() && (#[trigger] before[i]).id == id;
            assert(after[i].id == id);
        }
        if has_id(init, id) {
            let i = choose|i: int| 0 <= i < init.len() && (#[trigger] init[i]).id == id;
            assert(more[i].id == id);
        }
        if has_id(more, id) {
            let i = choose|i: int| 0 <= i < more.len() && (#[trigger] more[i]).id == id;
            if i < more.len() - 1 {
                assert(init[i].id == id);
            } else if has_id(before, id) {
            } else {
                assert(after[after.len() - 1].id == id);
            }
        }
    }
}

/// Every schema id of a loaded dump is in the union.
pub proof fn lemma_union_ids(dumps: Seq<LoadedView>, d: int, i: int)
    requires
        0 <= d < dumps.len(),
        0 <= i < dumps[d].schemas.len(),
    ensures
        has_id(union_of(dumps), dumps[d].schemas[i].id),
    decreases dumps.len(),
{
    let id = dumps[d].schemas[i].id;
    lemma_with_schemas_ids(union_of(dumps.drop_last()), dumps.last().schemas, id);
    if d < dumps.len() - 1 {
        assert(dumps.drop_last()[d] == dumps[d]);
        lemma_union_ids(dumps.drop_last(), d, i);
    } else {
        assert(dumps.last().schemas[i].id == id);
    }
}

/// Sorting keeps the ids of a registry.
pub proof fn lemma_sorted_ids(schemas: Seq<SchemaView>, id: u64)
    ensures
        has_id(sorted_schemas(schemas), id) == has_id(schemas, id),
{
    let sorted = sorted_schemas(schemas);
    if has_id(schemas, id) {
        let i = choose|i: int| 0 <= i < schemas.len() && (#[trigger] schemas[i]).id == id;
        lemma_stable_sort_contains(schemas, schema_leq(), schemas[i]);
        let j = choose|j: int| 0 <= j < sorted.len() && sorted[j] == schemas[i];
        assert(sorted[j].id == id);
    }
    if has_id(sorted, id) {
        let i = choose|i: int| 0 <= i < sorted.len() && (#[trigger] sorted[i]).id == id;
        lemma_stable_sort_contains(schemas, schema_leq(), sorted[i]);
        let j = choose|j: int| 0 <= j < schemas.len() && schemas[j] == sorted[i];
        assert(schemas[j].id == id);
    }
}

/// An id of the registry has a schema.
pub proof fn lemma_has_schema(schemas: Seq<SchemaView>, id: u64)
    ensures
        (schema_of_id(schemas, id) is Some) == has_id(schemas, id),
{
    lemma_schema_of_id(schemas, id);
    if let Some(i) = schema_of_id(schemas, id) {
        assert(schemas[i as int].id == id);
    }
}

/// The merged records as rows over the registry of the conversion.
fn make_rows<'a>(
    dumps: &'a [Loaded],
    schemas: &Vec<OwnedSchema>,
    recs: &Vec<MergedRec<'a>>,
) -> (rows: Vec<Row<'a>>)
    requires
        owned_schemas_view(schemas@) == conversion_schemas(loaded_view(dumps@)),
        forall|i: int|
            0 <= i < recs@.len() ==> (#[trigger] recs@[i]).dump < dumps@.len() && *recs@[i].loaded
                == dumps@[recs@[i].dump as int] && recs@[i].schema_idx
                < recs@[i].loaded.schemas@.len(),
    ensures
        rows_view(rows@) == merged_view(recs@).map_values(
            |i: ItemView|
                row_of(loaded_view(dumps@), conversion_schemas(loaded_view(dumps@)), i),
        ),
        rows_ok(rows@, schemas@.len()),
{
    broadcast use vstd::std_specs::hash::group_hash_axioms;

    let ghost dv = loaded_view(dumps@);
    let ghost sv = conversion_schemas(dv);
    let by_id = index_by_id(schemas);
    let mut rows: Vec<Row<'a>> = Vec::new();
    let mut i: usize = 0;
    while i < recs.len()
        invariant
            i <= recs@.len(),
            dv == loaded_view(dumps@),
            sv == conversion_schemas(dv),
            sv == owned_schemas_view(schemas@),
            indexes(by_id@, sv),
            forall|k: int|
                0 <= k < recs@.len() ==> (#[trigger] recs@[k]).dump < dumps@.len()
                    && *recs@[k].loaded == dumps@[recs@[k].dump as int] && recs@[k].schema_idx
                    < recs@[k].loaded.schemas@.len(),
            rows@.len() == i,
            forall|k: int| 0 <= k < i ==> (#[trigger] rows@[k])@ == row_of(dv, sv, recs@[k]@),
            rows_ok(rows@, schemas@.len()),
        decreases recs@.len() - i,
    {
        let rec = &recs[i];
        let id: u64 = rec.loaded.schemas[rec.schema_idx].id.get();
        proof {
            let d = rec.dump as int;
            assert(dv[d] == dumps@[d]@);
            assert(dv[d].schemas[rec.schema_idx as int].id == id);
            lemma_union_ids(dv, d, rec.schema_idx as int);
            lemma_sorted_ids(union_of(dv), id);
            lemma_has_schema(sv, id);
            lemma_schema_of_id(sv, id);
            assert(by_id@.dom().contains(id));
        }
        let schema_idx: usize = match by_id.get(&id) {
            Some(idx) => *idx,
            None => 0,
        };
        let row = Row {
            ts_nanos: rec.ts_nanos,
            instance_id: rec.loaded.instance_id,
            schema_idx,
            fields: rec.fields.clone(),
            intern: &rec.loaded.intern,
        };
        assert(row@ == row_of(dv, sv, rec@));
        rows.push(row);
        i = i + 1;
    }
    assert(rows_view(rows@) =~= merged_view(recs@).map_values(
        |i: ItemView| row_of(dv, sv, i),
    ));
    rows
}

/// What a conversion writes: the table, the footer metadata and the query DDL.
pub struct Conversion {
    pub table: Table,
    pub footer: Vec<(String, String)>,
    pub ddl: String,
}

/// The host label of a conversion: the override, or that of the first dump.
pub open spec fn host_label(dumps: Seq<LoadedView>, host: Seq<char>) -> Seq<char> {
    if host.len() > 0 {
        host
    } else if dumps.len() > 0 {
        dumps[0].host
    } else {
        Seq::empty()
    }
}

/// The footer metadata of a conversion: the format, the host label unless it is empty, the DDL.
pub open spec fn footer_of(host: Seq<char>, ddl: Seq<char>) -> Seq<(Seq<char>, Seq<char>)> {
    seq![("backbeat.format"@, "1"@)] + meta_entry(
        "backbeat.host"@,
        if host.len() > 0 {
            Some(host)
        } else {
            None
        },
    ) + seq![("backbeat.views"@, ddl)]
}

/// The query DDL of a conversion.
pub open spec fn ddl_of(dumps: Seq<LoadedView>) -> Seq<char> {
    assembled_text(conversion_schemas(dumps), views_of(dumps))
}

/// Converts loaded dumps: the records of all of them in the global order, each once, as one table
/// over the union of their registries. `host` overrides the dumps' host label in the footer when
/// non-empty.
pub fn convert(dumps: &[Loaded], host: &str) -> (c: Conversion)
    requires
        all_wf(dumps@),
    ensures
        exists|items: Seq<ItemView>| #[trigger]
            is_merge(streams(loaded_view(dumps@)), items) && c.table@ == conversion_table(
                loaded_view(dumps@),
                items,
            ),
        c.ddl@ == ddl_of(loaded_view(dumps@)),
        meta_view(c.footer@) == footer_of(
            host_label(loaded_view(dumps@), host@),
            ddl_of(loaded_view(dumps@)),
        ),
{
    let ghost dv = loaded_view(dumps@);
    let schemas = sort_schemas(union_schemas(dumps));
    let recs = unique_records(dumps);
    let rows = make_rows(dumps, &schemas, &recs);
    let table = build_batch(schemas.as_slice(), rows.as_slice());
    let views = union_views(dumps);
    let ddl = assemble(schemas.as_slice(), views.as_slice());
    let label = if !host.is_empty() {
        host.to_string()
    } else if dumps.len() > 0 {
        dumps[0].host.clone()
    } else {
        String::new()
    };
    proof {
        if dumps@.len() > 0 {
            assert(dv[0] == dumps@[0]@);
        }
        assert(label@ =~= host_label(dv, host@));
    }
    let mut footer: Vec<(String, String)> = Vec::new();
    assert(meta_view(footer@) =~= Seq::<(Seq<char>, Seq<char>)>::empty());
    put_meta(&mut footer, "backbeat.format", Some("1"));
    if label.as_str().is_empty() {
        put_meta(&mut footer, "backbeat.host", None);
    } else {
        put_meta(&mut footer, "backbeat.host", Some(label.as_str()));
    }
    put_meta(&mut footer, "backbeat.views", Some(ddl.as_str()));
    assert(meta_view(footer@) =~= footer_of(label@, ddl@));
    assert(is_merge(streams(dv), merged_view(recs@)));
    Conversion { table, footer, ddl }
}

} // verus!
