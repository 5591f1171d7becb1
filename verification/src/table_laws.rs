//! What the table of a conversion says of the records it was made of.

use crate::convert::{
    child_column, child_columns, conversion_schemas, conversion_table, convert, declaration,
    event_column, event_columns, event_meta, field_meta, field_named, has_name, host_label,
    key_cell, key_column, key_columns, kind_of, lemma_has_schema, lemma_sorted_ids, lemma_union_ids,
    meta_entry, meta_view, row_of, union_of, value_kind, views_of, with_keys, ColumnKind,
    Conversion, RowView, TableView,
};
use crate::convert_laws::{distinct_ids, lemma_sorted_distinct, lemma_union_distinct};
use crate::decode::{decoded, ValueView};
use crate::merge_laws::{lemma_stream_item, lemma_union_member};
use crate::model::{lemma_schema_of_id, loaded_view, schema_leq, schema_of_id, Loaded, LoadedView};
use crate::order::lemma_stable_sort_contains;
use crate::schema::{FieldRole, FieldType, FieldView, Phase, SchemaView};
use crate::stream::{
    all_wf, at, first_at, is_first_of, is_merge, law_merge_unique, streams, ItemView,
};
use crate::text::{dec_text, has_part, hex_text, lemma_part_in_part, lemma_part_within};
use crate::trace_laws::schemas_agree;
use crate::view_laws::{
    is_promoted_at, lemma_strung_has, lemma_tier1_manifest, lemma_tier1_views, lists_promoted,
    manifest, strung, title, view_statement,
};
use crate::views::{collides, display_name, promoted, role_text, tier1_text, view_sets_text};
use vstd::prelude::*;

verus! {

// ---------------------------------------------------------------------------
// Records and their event types.
// ---------------------------------------------------------------------------

/// The loaded dump that a merged record comes from.
pub open spec fn dump_of(dumps: Seq<Loaded>, item: ItemView) -> LoadedView {
    dumps[item.dump as int]@
}

/// The event type that a merged record has in its dump.
pub open spec fn type_of(dumps: Seq<Loaded>, item: ItemView) -> SchemaView {
    dump_of(dumps, item).schemas[item.schema_idx as int]
}

/// A merged record is one of a loaded dump, of an event type of its registry.
pub proof fn lemma_item_known(dumps: Seq<Loaded>, items: Seq<ItemView>, i: int)
    requires
        all_wf(dumps),
        is_merge(streams(loaded_view(dumps)), items),
        0 <= i < items.len(),
    ensures
        items[i].dump < dumps.len(),
        items[i].schema_idx < dump_of(dumps, items[i]).schemas.len(),
        items[i].key.instance_id == dump_of(dumps, items[i]).instance_id,
        loaded_view(dumps)[items[i].dump as int] == dump_of(dumps, items[i]),
{
    let dv = loaded_view(dumps);
    let ss = streams(dv);
    assert(is_first_of(ss, items[i]));
    let (s, p) = choose|s: int, p: int|
        #![trigger ss[s][p]]
        at(ss, s, p) && ss[s][p] == items[i] && first_at(ss, s, p);
    let d = lemma_stream_item(dv, s, p);
    assert(dv[d.0] == dumps[d.0]@);
    assert(dumps[d.0].wf());
    let sh = dumps[d.0].shards@[d.1];
    assert(dv[d.0].shards[d.1] == sh.value(dv[d.0].schemas));
    assert(crate::model::loc_ok(
        dv[d.0].schemas,
        crate::buf::bytes_of(sh.region),
        crate::model::opt_bytes(sh.wrapped),
        sh.locs@[p],
    ));
}

/// The registry of a conversion has every event id of the dumps once; where the dumps agree on the
/// event types, it has the types themselves.
proof fn lemma_type_in_registry(dumps: Seq<LoadedView>, d: int, k: int) -> (idx: int)
    requires
        0 <= d < dumps.len(),
        0 <= k < dumps[d].schemas.len(),
    ensures
        0 <= idx < conversion_schemas(dumps).len(),
        schema_of_id(conversion_schemas(dumps), dumps[d].schemas[k].id) == Some(idx as nat),
        conversion_schemas(dumps)[idx].id == dumps[d].schemas[k].id,
        schemas_agree(dumps) ==> conversion_schemas(dumps)[idx] == dumps[d].schemas[k],
{
    let id = dumps[d].schemas[k].id;
    let all = union_of(dumps);
    let sorted = conversion_schemas(dumps);
    lemma_union_ids(dumps, d, k);
    lemma_sorted_ids(all, id);
    lemma_has_schema(sorted, id);
    lemma_schema_of_id(sorted, id);
    let idx = schema_of_id(sorted, id)->0 as int;
    lemma_stable_sort_contains(all, schema_leq(), sorted[idx]);
    assert(sorted.contains(sorted[idx]));
    let u = choose|u: int| 0 <= u < all.len() && all[u] == sorted[idx];
    let from = lemma_union_member(dumps, u);
    assert(dumps[from.0].schemas[from.1].id == dumps[d].schemas[k].id);
    idx
}

/// The event types of a conversion's registry come from the dumps, and no two have one id.
proof fn lemma_registry_type(dumps: Seq<LoadedView>, idx: int) -> (at: (int, int))
    requires
        0 <= idx < conversion_schemas(dumps).len(),
    ensures
        0 <= at.0 < dumps.len(),
        0 <= at.1 < dumps[at.0].schemas.len(),
        dumps[at.0].schemas[at.1] == conversion_schemas(dumps)[idx],
        distinct_ids(conversion_schemas(dumps)),
{
    let all = union_of(dumps);
    let sorted = conversion_schemas(dumps);
    lemma_union_distinct(dumps);
    lemma_sorted_distinct(all);
    lemma_stable_sort_contains(all, schema_leq(), sorted[idx]);
    assert(sorted.contains(sorted[idx]));
    let u = choose|u: int| 0 <= u < all.len() && all[u] == sorted[idx];
    lemma_union_member(dumps, u)
}

/// The row that a merged record makes.
proof fn lemma_row(dumps: &[Loaded], host: &str, c: Conversion, items: Seq<ItemView>, i: int) -> (idx:
    int)
    requires
        all_wf(dumps@),
        call_ensures(convert, (dumps, host), c),
        is_merge(streams(loaded_view(dumps@)), items),
        0 <= i < items.len(),
    ensures
        c.table@ == conversion_table(loaded_view(dumps@), items),
        items[i].dump < dumps@.len(),
        items[i].schema_idx < dump_of(dumps@, items[i]).schemas.len(),
        items[i].key.instance_id == dump_of(dumps@, items[i]).instance_id,
        0 <= idx < conversion_schemas(loaded_view(dumps@)).len(),
        row_of(
            loaded_view(dumps@),
            conversion_schemas(loaded_view(dumps@)),
            items[i],
        ).schema_idx == idx,
        conversion_schemas(loaded_view(dumps@))[idx].id == type_of(dumps@, items[i]).id,
        schemas_agree(loaded_view(dumps@)) ==> conversion_schemas(loaded_view(dumps@))[idx]
            == type_of(dumps@, items[i]),
        loaded_view(dumps@)[items[i].dump as int] == dump_of(dumps@, items[i]),
{
    let dv = loaded_view(dumps@);
    let got = choose|got: Seq<ItemView>| #[trigger]
        is_merge(streams(dv), got) && c.table@ == conversion_table(dv, got);
    law_merge_unique(streams(dv), got, items);
    lemma_item_known(dumps@, items, i);
    lemma_type_in_registry(dv, items[i].dump as int, items[i].schema_idx as int)
}

// ---------------------------------------------------------------------------
// The common columns.
// ---------------------------------------------------------------------------

/// A table has one row per merged record, in the global order: its number, the record's time, the
/// id of the process that captured it, and the id of the event that the record has in its dump.
pub proof fn law_rows_are_records(dumps: &[Loaded], host: &str, c: Conversion, items: Seq<ItemView>)
    requires
        all_wf(dumps@),
        call_ensures(convert, (dumps, host), c),
        is_merge(streams(loaded_view(dumps@)), items),
    ensures
        c.table.seq@.len() == items.len(),
        c.table.ts_nanos@.len() == items.len(),
        c.table.event@.len() == items.len(),
        c.table.event_id@.len() == items.len(),
        c.table.instance_id@.len() == items.len(),
        forall|i: int|
            #![trigger items[i]]
            0 <= i < items.len() ==> {
                &&& items[i].dump < dumps@.len()
                &&& items[i].schema_idx < dumps@[items[i].dump as int].schemas@.len()
                &&& c.table.seq@[i] == i as u64
                &&& c.table.ts_nanos@[i] == items[i].key.ts_nanos
                &&& c.table.instance_id@[i] == dumps@[items[i].dump as int].instance_id
                &&& c.table.event_id@[i] == dumps@[items[i].dump as int].schemas@[
                    items[i].schema_idx as int
                ].id.0
            },
        forall|i: int, j: int|
            #![trigger items[i], items[j]]
            0 <= i < items.len() && 0 <= j < items.len() ==> (c.table.event_id@[i]
                == c.table.event_id@[j] <==> dumps@[items[i].dump as int].schemas@[
                items[i].schema_idx as int
            ].id == dumps@[items[j].dump as int].schemas@[items[j].schema_idx as int].id),
{
    let dv = loaded_view(dumps@);
    let t = conversion_table(dv, items);
    let got = choose|got: Seq<ItemView>| #[trigger]
        is_merge(streams(dv), got) && c.table@ == conversion_table(dv, got);
    law_merge_unique(streams(dv), got, items);
    assert(c.table@.event.len() == c.table.event@.len());
    assert forall|i: int| #![trigger items[i]] 0 <= i < items.len() implies {
        &&& items[i].dump < dumps@.len()
        &&& items[i].schema_idx < dumps@[items[i].dump as int].schemas@.len()
        &&& c.table.seq@[i] == i as u64
        &&& c.table.ts_nanos@[i] == items[i].key.ts_nanos
        &&& c.table.instance_id@[i] == dumps@[items[i].dump as int].instance_id
        &&& c.table.event_id@[i] == dumps@[items[i].dump as int].schemas@[
            items[i].schema_idx as int
        ].id.0
    } by {
        let idx = lemma_row(dumps, host, c, items, i);
        assert(t.event_id[i] == conversion_schemas(dv)[idx].id);
    }
}

/// The dumps have another event type of the name: one of another id.
pub open spec fn name_taken(dumps: Seq<Loaded>, s: SchemaView) -> bool {
    exists|d: int, k: int|
        #![trigger dumps[d].schemas@[k]]
        0 <= d < dumps.len() && 0 <= k < dumps[d].schemas@.len()
            && dumps[d].schemas@[k].qualified_name@ == s.name && dumps[d].schemas@[k].id.0 != s.id
}

/// Each row names its record's event: by its qualified name, followed by `#` and the sixteen digits
/// of its id if and only if an event of another id has the same name.
pub proof fn law_rows_are_named(
    dumps: &[Loaded],
    host: &str,
    c: Conversion,
    items: Seq<ItemView>,
    i: int,
)
    requires
        all_wf(dumps@),
        schemas_agree(loaded_view(dumps@)),
        call_ensures(convert, (dumps, host), c),
        is_merge(streams(loaded_view(dumps@)), items),
        0 <= i < items.len(),
    ensures
        c.table@.event.len() == items.len(),
        c.table@.event[i] == if name_taken(dumps@, type_of(dumps@, items[i])) {
            type_of(dumps@, items[i]).name + "#"@ + hex_text(
                type_of(dumps@, items[i]).id as nat,
                16,
            )
        } else {
            type_of(dumps@, items[i]).name
        },
{
    let dv = loaded_view(dumps@);
    let idx = lemma_row(dumps, host, c, items, i);
    let sorted = conversion_schemas(dv);
    let s = type_of(dumps@, items[i]);
    assert(c.table@.event[i] == display_name(sorted, idx));
    if collides(sorted, idx) {
        let j = choose|j: int|
            0 <= j < sorted.len() && j != idx && (#[trigger] sorted[j]).name == sorted[idx].name;
        let from = lemma_registry_type(dv, j);
        assert(sorted[j].id != sorted[idx].id);
        assert(dv[from.0] == dumps@[from.0]@);
        let other = dumps@[from.0].schemas@[from.1];
        assert(dv[from.0].schemas[from.1] == other@);
        assert(name_taken(dumps@, s));
    }
    if name_taken(dumps@, s) {
        let (d, k) = choose|d: int, k: int|
            #![trigger dumps@[d].schemas@[k]]
            0 <= d < dumps@.len() && 0 <= k < dumps@[d].schemas@.len()
                && dumps@[d].schemas@[k].qualified_name@ == s.name && dumps@[d].schemas@[k].id.0
                != s.id;
        assert(dv[d] == dumps@[d]@);
        assert(dv[d].schemas[k] == dumps@[d].schemas@[k]@);
        let j = lemma_type_in_registry(dv, d, k);
        assert(sorted[j].name == sorted[idx].name && j != idx);
        assert(collides(sorted, idx));
    }
}

// ---------------------------------------------------------------------------
// The columns of the fields.
// ---------------------------------------------------------------------------

/// The event types that have a struct column, among the first `n`.
spec fn owners(schemas: Seq<SchemaView>, rows: Seq<RowView>, n: nat) -> Seq<int>
    decreases n,
{
    if n == 0 {
        Seq::empty()
    } else {
        let before = owners(schemas, rows, (n - 1) as nat);
        if event_column(schemas, rows, (n - 1) as nat).children.len() == 0 {
            before
        } else {
            before.push(n - 1)
        }
    }
}

/// Each struct column is that of one event type, and they stand in the order of these.
proof fn lemma_owners(schemas: Seq<SchemaView>, rows: Seq<RowView>, n: nat)
    ensures
        owners(schemas, rows, n).len() == event_columns(schemas, rows, n).len(),
        forall|e: int|
            0 <= e < owners(schemas, rows, n).len() ==> 0 <= #[trigger] owners(schemas, rows, n)[e]
                < n && event_columns(schemas, rows, n)[e] == event_column(
                schemas,
                rows,
                owners(schemas, rows, n)[e] as nat,
            ),
        forall|a: int, b: int|
            0 <= a < b < owners(schemas, rows, n).len() ==> owners(schemas, rows, n)[a] < owners(
                schemas,
                rows,
                n,
            )[b],
        forall|j: int|
            0 <= j < n && event_column(schemas, rows, j as nat).children.len() > 0 ==> owners(
                schemas,
                rows,
                n,
            ).contains(j),
    decreases n,
{
    if n > 0 {
        let m = (n - 1) as nat;
        lemma_owners(schemas, rows, m);
        let before = owners(schemas, rows, m);
        let all = owners(schemas, rows, n);
        assert forall|j: int|
            0 <= j < n && event_column(schemas, rows, j as nat).children.len()
                > 0 implies all.contains(j) by {
            if j < m {
                assert(before.contains(j));
                let e = choose|e: int| 0 <= e < before.len() && before[e] == j;
                assert(all[e] == j);
            } else {
                assert(all[all.len() - 1] == j);
            }
        }
    }
}

/// A plain field has a column among those of its event, and each of these is that of a plain field.
proof fn lemma_children(rows: Seq<RowView>, idx: nat, fields: Seq<FieldView>)
    ensures
        forall|k: int|
            0 <= k < fields.len() && (#[trigger] fields[k]).role == FieldRole::Plain
                ==> child_columns(rows, idx, fields).contains(child_column(rows, idx, fields[k])),
        forall|ch: int|
            #![trigger child_columns(rows, idx, fields)[ch]]
            0 <= ch < child_columns(rows, idx, fields).len() ==> exists|k: int|
                0 <= k < fields.len() && (#[trigger] fields[k]).role == FieldRole::Plain
                    && child_columns(rows, idx, fields)[ch] == child_column(rows, idx, fields[k]),
    decreases fields.len(),
{
    if fields.len() > 0 {
        let init = fields.drop_last();
        let n = fields.len() - 1;
        lemma_children(rows, idx, init);
        let before = child_columns(rows, idx, init);
        let all = child_columns(rows, idx, fields);
        assert forall|k: int|
            0 <= k < fields.len() && (#[trigger] fields[k]).role
                == FieldRole::Plain implies all.contains(child_column(rows, idx, fields[k])) by {
            if k < n {
                assert(init[k] == fields[k]);
                let ch = choose|ch: int|
                    0 <= ch < before.len() && before[ch] == child_column(rows, idx, fields[k]);
                assert(all[ch] == child_column(rows, idx, fields[k]));
            } else {
                assert(all[all.len() - 1] == child_column(rows, idx, fields[k]));
            }
        }
        assert forall|ch: int| #![trigger all[ch]] 0 <= ch < all.len() implies exists|k: int|
            0 <= k < fields.len() && (#[trigger] fields[k]).role == FieldRole::Plain && all[ch]
                == child_column(rows, idx, fields[k]) by {
            if ch < before.len() {
                assert(before[ch] == all[ch]);
                let k = choose|k: int|
                    0 <= k < init.len() && (#[trigger] init[k]).role == FieldRole::Plain
                        && before[ch] == child_column(rows, idx, init[k]);
                assert(fields[k] == init[k]);
            } else {
                assert(fields[n].role == FieldRole::Plain);
            }
        }
    }
}

/// What a field decodes to is of the kind of its type.
proof fn lemma_decoded_kind(f: FieldView, bytes: Seq<u8>, intern: Map<u32, Seq<char>>)
    ensures
        decoded(f, bytes, intern) matches Some(v) ==> value_kind(v) == kind_of(f.ty),
{
}

/// The kind of column that holds values of a field type.
pub open spec fn holds(kind: ColumnKind, ty: FieldType) -> bool {
    match ty {
        FieldType::U8 | FieldType::U16 | FieldType::U32 | FieldType::U64 => kind
            == ColumnKind::UInt64,
        FieldType::I8 | FieldType::I16 | FieldType::I32 | FieldType::I64 => kind
            == ColumnKind::Int64,
        FieldType::Bool => kind == ColumnKind::Boolean,
        FieldType::Bytes | FieldType::Enum { .. } | FieldType::Interned { .. } => kind
            == ColumnKind::Utf8,
    }
}

/// The metadata of a column that a field calls for: its role by name, its unit, its sentinel in base
/// 10 and its description, each if it has it.
pub open spec fn told_of_field(f: FieldView, key: Seq<char>, v: Seq<char>) -> bool {
    ||| key == "backbeat.role"@ && f.role == FieldRole::Key && v == "key"@
    ||| key == "backbeat.role"@ && f.role == FieldRole::SpanId && v == "span_id"@
    ||| key == "backbeat.role"@ && f.role == FieldRole::ParentSpanId && v == "parent_span_id"@
    ||| key == "backbeat.unit"@ && f.unit == Some(v)
    ||| key == "backbeat.sentinel"@ && f.sentinel is Some && v == dec_text(f.sentinel->0 as nat)
    ||| key == "backbeat.description"@ && f.description == Some(v)
}

/// Metadata says of a field what there is to say, and nothing else.
pub open spec fn tells_field(meta: Seq<(Seq<char>, Seq<char>)>, f: FieldView) -> bool {
    forall|key: Seq<char>, v: Seq<char>| #[trigger]
        meta.contains((key, v)) <==> told_of_field(f, key, v)
}

/// The metadata of a struct column that an event calls for: which half of a span it is, and its
/// description.
pub open spec fn told_of_event(s: SchemaView, key: Seq<char>, v: Seq<char>) -> bool {
    ||| key == "backbeat.span"@ && s.phase == Phase::Enter && v == "enter"@
    ||| key == "backbeat.span"@ && s.phase == Phase::Exit && v == "exit"@
    ||| key == "backbeat.description"@ && s.description == Some(v)
}

/// Metadata says of an event what there is to say, and nothing else.
pub open spec fn tells_event(meta: Seq<(Seq<char>, Seq<char>)>, s: SchemaView) -> bool {
    forall|key: Seq<char>, v: Seq<char>| #[trigger]
        meta.contains((key, v)) <==> told_of_event(s, key, v)
}

/// What one of two runs has, both have.
proof fn lemma_either<T>(a: Seq<T>, b: Seq<T>, x: T)
    ensures
        (a + b).contains(x) <==> a.contains(x) || b.contains(x),
{
    if a.contains(x) {
        let i = choose|i: int| 0 <= i < a.len() && a[i] == x;
        assert((a + b)[i] == x);
    }
    if b.contains(x) {
        let i = choose|i: int| 0 <= i < b.len() && b[i] == x;
        assert((a + b)[a.len() + i] == x);
    }
    if (a + b).contains(x) {
        let i = choose|i: int| 0 <= i < (a + b).len() && (a + b)[i] == x;
        if i < a.len() {
            assert(a[i] == x);
        } else {
            assert(b[i - a.len()] == x);
        }
    }
}

/// One entry is there if there is a value for it.
proof fn lemma_entry(key: Seq<char>, value: Option<Seq<char>>, k: Seq<char>, v: Seq<char>)
    ensures
        meta_entry(key, value).contains((k, v)) <==> k == key && value == Some(v),
{
    if let Some(x) = value {
        assert(meta_entry(key, value)[0] == (key, x));
    }
}

/// The metadata of a field's column.
proof fn lemma_field_meta(f: FieldView)
    ensures
        tells_field(field_meta(f), f),
{
    assert forall|key: Seq<char>, v: Seq<char>| #[trigger]
        field_meta(f).contains((key, v)) <==> told_of_field(f, key, v) by {
        let role = if promoted(f.role) {
            Some(role_text(f.role))
        } else {
            None
        };
        let sentinel = match f.sentinel {
            Some(v) => Some(dec_text(v as nat)),
            None => None,
        };
        let m0 = meta_entry("backbeat.role"@, role);
        let m1 = m0 + meta_entry("backbeat.unit"@, f.unit);
        let m2 = m1 + meta_entry("backbeat.sentinel"@, sentinel);
        lemma_entry("backbeat.role"@, role, key, v);
        lemma_entry("backbeat.unit"@, f.unit, key, v);
        lemma_entry("backbeat.sentinel"@, sentinel, key, v);
        lemma_entry("backbeat.description"@, f.description, key, v);
        lemma_either(m0, meta_entry("backbeat.unit"@, f.unit), (key, v));
        lemma_either(m1, meta_entry("backbeat.sentinel"@, sentinel), (key, v));
        lemma_either(m2, meta_entry("backbeat.description"@, f.description), (key, v));
        assert(field_meta(f) == m2 + meta_entry("backbeat.description"@, f.description));
    }
}

/// The metadata of an event's struct column.
proof fn lemma_event_meta(s: SchemaView)
    ensures
        tells_event(event_meta(s), s),
{
    assert forall|key: Seq<char>, v: Seq<char>| #[trigger]
        event_meta(s).contains((key, v)) <==> told_of_event(s, key, v) by {
        let span = match s.phase {
            Phase::Enter => Some("enter"@),
            Phase::Exit => Some("exit"@),
            Phase::Instant => None,
        };
        lemma_entry("backbeat.span"@, span, key, v);
        lemma_entry("backbeat.description"@, s.description, key, v);
        lemma_either(
            meta_entry("backbeat.span"@, span),
            meta_entry("backbeat.description"@, s.description),
            (key, v),
        );
    }
}

/// The table shows a field of a row in column `ch` of struct column `e`.
pub open spec fn shows_field(
    t: TableView,
    i: int,
    s: SchemaView,
    f: FieldView,
    value: Option<ValueView>,
    e: int,
    ch: int,
) -> bool {
    &&& 0 <= e < t.events.len()
    &&& t.events[e].name == t.event[i]
    &&& t.events[e].valid[i]
    &&& tells_event(t.events[e].metadata, s)
    &&& 0 <= ch < t.events[e].children.len()
    &&& t.events[e].children[ch].name == f.name
    &&& holds(t.events[e].children[ch].kind, f.ty)
    &&& tells_field(t.events[e].children[ch].metadata, f)
    &&& t.events[e].children[ch].values[i] == value
}

/// Every plain field of every record is in the table: in its row, under the struct column that has
/// the name of its event, in a column with the field's name, as what it decodes to.
pub proof fn law_plain_fields_shown(
    dumps: &[Loaded],
    host: &str,
    c: Conversion,
    items: Seq<ItemView>,
    i: int,
    k: int,
)
    requires
        all_wf(dumps@),
        schemas_agree(loaded_view(dumps@)),
        call_ensures(convert, (dumps, host), c),
        is_merge(streams(loaded_view(dumps@)), items),
        0 <= i < items.len(),
        0 <= k < type_of(dumps@, items[i]).fields.len(),
        type_of(dumps@, items[i]).fields[k].role == FieldRole::Plain,
    ensures
        exists|e: int, ch: int| #[trigger]
            shows_field(
                c.table@,
                i,
                type_of(dumps@, items[i]),
                type_of(dumps@, items[i]).fields[k],
                decoded(
                    type_of(dumps@, items[i]).fields[k],
                    items[i].fields,
                    dump_of(dumps@, items[i]).intern,
                ),
                e,
                ch,
            ),
{
    let dv = loaded_view(dumps@);
    let idx = lemma_row(dumps, host, c, items, i);
    let sorted = conversion_schemas(dv);
    let rows = items.map_values(|it: ItemView| row_of(dv, sorted, it));
    let t = c.table@;
    let s = type_of(dumps@, items[i]);
    let f = s.fields[k];
    assert(rows[i] == row_of(dv, sorted, items[i]));
    lemma_owners(sorted, rows, sorted.len());
    lemma_children(rows, idx as nat, s.fields);
    let col = event_column(sorted, rows, idx as nat);
    let want = child_column(rows, idx as nat, f);
    assert(col.children.contains(want));
    let ch = choose|ch: int| 0 <= ch < col.children.len() && col.children[ch] == want;
    let os = owners(sorted, rows, sorted.len());
    assert(os.contains(idx));
    let e = choose|e: int| 0 <= e < os.len() && os[e] == idx;
    assert(t.events[e] == col);
    lemma_decoded_kind(f, items[i].fields, dump_of(dumps@, items[i]).intern);
    lemma_field_meta(f);
    lemma_event_meta(s);
    assert(shows_field(
        t,
        i,
        s,
        f,
        decoded(f, items[i].fields, dump_of(dumps@, items[i]).intern),
        e,
        ch,
    ));
}

/// A struct column stands for one event: it is valid in the rows that have its name and in no other,
/// at most one is valid in a row, and in the other rows all its columns are null.
pub proof fn law_struct_columns_are_sparse(
    dumps: &[Loaded],
    host: &str,
    c: Conversion,
    items: Seq<ItemView>,
    i: int,
    e: int,
)
    requires
        all_wf(dumps@),
        call_ensures(convert, (dumps, host), c),
        is_merge(streams(loaded_view(dumps@)), items),
        0 <= i < items.len(),
        0 <= e < c.table@.events.len(),
    ensures
        c.table@.events[e].valid.len() == items.len(),
        c.table@.events[e].children.len() > 0,
        c.table@.events[e].valid[i] ==> c.table@.events[e].name == c.table@.event[i],
        forall|o: int|
            0 <= o < c.table@.events.len() && (#[trigger] c.table@.events[o]).valid[i]
                && c.table@.events[e].valid[i] ==> o == e,
        forall|ch: int|
            #![trigger c.table@.events[e].children[ch]]
            0 <= ch < c.table@.events[e].children.len() ==> c.table@.events[e].children[ch].values.len()
                == items.len() && (!c.table@.events[e].valid[i]
                ==> c.table@.events[e].children[ch].values[i] is None),
{
    let dv = loaded_view(dumps@);
    let idx = lemma_row(dumps, host, c, items, i);
    let sorted = conversion_schemas(dv);
    let rows = items.map_values(|it: ItemView| row_of(dv, sorted, it));
    assert(rows[i] == row_of(dv, sorted, items[i]));
    lemma_owners(sorted, rows, sorted.len());
    let os = owners(sorted, rows, sorted.len());
    let t = c.table@;
    assert(t.events[e] == event_column(sorted, rows, os[e] as nat));
    lemma_children(rows, os[e] as nat, sorted[os[e]].fields);
    assert forall|o: int|
        0 <= o < t.events.len() && (#[trigger] t.events[o]).valid[i]
            && t.events[e].valid[i] implies o == e by {
        assert(t.events[o] == event_column(sorted, rows, os[o] as nat));
        assert(os[o] == idx && os[e] == idx);
        if o < e {
            assert(os[o] < os[e]);
        } else if e < o {
            assert(os[e] < os[o]);
        }
    }
    assert forall|ch: int|
        #![trigger t.events[e].children[ch]]
        0 <= ch < t.events[e].children.len() implies t.events[e].children[ch].values.len()
        == items.len() && (!t.events[e].valid[i] ==> t.events[e].children[ch].values[i] is None) by {
        let fields = sorted[os[e]].fields;
        let col = child_columns(rows, os[e] as nat, fields)[ch];
        let k = choose|k: int|
            0 <= k < fields.len() && (#[trigger] fields[k]).role == FieldRole::Plain && col
                == child_column(rows, os[e] as nat, fields[k]);
        assert(fields[k].role == FieldRole::Plain);
    }
    lemma_nonempty(sorted, rows, sorted.len(), e);
}

/// An event without fields of its own has no struct column.
proof fn lemma_nonempty(schemas: Seq<SchemaView>, rows: Seq<RowView>, n: nat, e: int)
    requires
        0 <= e < event_columns(schemas, rows, n).len(),
    ensures
        event_columns(schemas, rows, n)[e].children.len() > 0,
    decreases n,
{
    if n > 0 && e < event_columns(schemas, rows, (n - 1) as nat).len() {
        lemma_nonempty(schemas, rows, (n - 1) as nat, e);
    }
}

// ---------------------------------------------------------------------------
// The promoted columns.
// ---------------------------------------------------------------------------

/// A run of fields has a promoted one of the name.
spec fn promotes(fields: Seq<FieldView>, name: Seq<char>) -> bool {
    exists|j: int|
        0 <= j < fields.len() && (#[trigger] fields[j]).role != FieldRole::Plain && fields[j].name
            == name
}

/// The names of promoted columns.
proof fn lemma_with_keys(keys: Seq<(Seq<char>, ColumnKind)>, fields: Seq<FieldView>)
    requires
        forall|a: int, b: int| 0 <= a < b < keys.len() ==> (#[trigger] keys[a]).0 != (
        #[trigger] keys[b]).0,
    ensures
        forall|a: int, b: int|
            0 <= a < b < with_keys(keys, fields).len() ==> (#[trigger] with_keys(keys, fields)[a]).0
                != (#[trigger] with_keys(keys, fields)[b]).0,
        forall|name: Seq<char>| #[trigger]
            has_name(with_keys(keys, fields), name) <==> has_name(keys, name) || promotes(
                fields,
                name,
            ),
        forall|a: int|
            0 <= a < with_keys(keys, fields).len() ==> keys.contains(
                #[trigger] with_keys(keys, fields)[a],
            ) || exists|j: int|
                0 <= j < fields.len() && (#[trigger] fields[j]).role != FieldRole::Plain
                    && with_keys(keys, fields)[a] == (fields[j].name, kind_of(fields[j].ty)),
    decreases fields.len(),
{
    let all = with_keys(keys, fields);
    if fields.len() == 0 {
        assert forall|a: int| 0 <= a < all.len() implies keys.contains(#[trigger] all[a]) by {}
    } else {
        let init = fields.drop_last();
        let n = fields.len() - 1;
        let before = with_keys(keys, init);
        lemma_with_keys(keys, init);
        assert forall|name: Seq<char>| #[trigger] has_name(all, name) <==> has_name(keys, name)
            || promotes(fields, name) by {
            if promotes(init, name) {
                let j = choose|j: int|
                    0 <= j < init.len() && (#[trigger] init[j]).role != FieldRole::Plain
                        && init[j].name == name;
                assert(fields[j].name == name);
            }
            if promotes(fields, name) {
                let j = choose|j: int|
                    0 <= j < fields.len() && (#[trigger] fields[j]).role != FieldRole::Plain
                        && fields[j].name == name;
                if j < n {
                    assert(init[j].name == name);
                }
            }
            if has_name(before, name) {
                let a = choose|a: int| 0 <= a < before.len() && (#[trigger] before[a]).0 == name;
                assert(all[a].0 == name);
            }
            if has_name(all, name) {
                let a = choose|a: int| 0 <= a < all.len() && (#[trigger] all[a]).0 == name;
                if a < before.len() {
                    assert(before[a].0 == name);
                } else {
                    assert(fields[n].name == name);
                }
            }
            if promoted(fields[n].role) && fields[n].name == name && !has_name(before, name) {
                assert(all[all.len() - 1].0 == name);
            }
        }
        assert forall|a: int, b: int| 0 <= a < b < all.len() implies (#[trigger] all[a]).0 != (
        #[trigger] all[b]).0 by {
            assert(before[a] == all[a]);
            if b < before.len() {
                assert(before[b] == all[b]);
            } else {
                assert(before[a].0 != fields[n].name);
            }
        }
        assert forall|a: int| 0 <= a < all.len() implies keys.contains(#[trigger] all[a]) || exists|
            j: int,
        |
            0 <= j < fields.len() && (#[trigger] fields[j]).role != FieldRole::Plain && all[a] == (
                fields[j].name,
                kind_of(fields[j].ty),
            ) by {
            if a < before.len() {
                assert(before[a] == all[a]);
                if !keys.contains(all[a]) {
                    let j = choose|j: int|
                        0 <= j < init.len() && (#[trigger] init[j]).role != FieldRole::Plain
                            && before[a] == (init[j].name, kind_of(init[j].ty));
                    assert(fields[j] == init[j]);
                }
            } else {
                assert(fields[n].role != FieldRole::Plain);
            }
        }
    }
}

/// The first `n` event types have a promoted field of the name.
spec fn types_promote(schemas: Seq<SchemaView>, n: nat, name: Seq<char>) -> bool {
    exists|i: int| 0 <= i < n && promotes((#[trigger] schemas[i]).fields, name)
}

/// A promoted field of the first `n` event types has the name and the kind.
spec fn types_declare(schemas: Seq<SchemaView>, n: nat, key: (Seq<char>, ColumnKind)) -> bool {
    exists|i: int, j: int|
        #![trigger schemas[i].fields[j]]
        0 <= i < n && 0 <= j < schemas[i].fields.len() && schemas[i].fields[j].role
            != FieldRole::Plain && key == (
            schemas[i].fields[j].name,
            kind_of(schemas[i].fields[j].ty),
        )
}

/// The promoted columns of event types.
proof fn lemma_key_columns(schemas: Seq<SchemaView>, n: nat)
    requires
        n <= schemas.len(),
    ensures
        forall|a: int, b: int|
            0 <= a < b < key_columns(schemas, n).len() ==> (#[trigger] key_columns(schemas, n)[a]).0
                != (#[trigger] key_columns(schemas, n)[b]).0,
        forall|name: Seq<char>| #[trigger]
            has_name(key_columns(schemas, n), name) <==> types_promote(schemas, n, name),
        forall|a: int|
            0 <= a < key_columns(schemas, n).len() ==> types_declare(
                schemas,
                n,
                #[trigger] key_columns(schemas, n)[a],
            ),
    decreases n,
{
    if n > 0 {
        let m = (n - 1) as nat;
        lemma_key_columns(schemas, m);
        let before = key_columns(schemas, m);
        let all = key_columns(schemas, n);
        let fields = schemas[m as int].fields;
        lemma_with_keys(before, fields);
        assert forall|name: Seq<char>| #[trigger] has_name(all, name) <==> types_promote(
            schemas,
            n,
            name,
        ) by {
            if types_promote(schemas, m, name) {
                let i = choose|i: int| 0 <= i < m && promotes((#[trigger] schemas[i]).fields, name);
                assert(promotes(schemas[i].fields, name));
            }
            if promotes(fields, name) {
                assert(promotes(schemas[m as int].fields, name));
            }
            if types_promote(schemas, n, name) {
                let i = choose|i: int| 0 <= i < n && promotes((#[trigger] schemas[i]).fields, name);
                if i < m {
                    assert(types_promote(schemas, m, name));
                }
            }
        }
        assert forall|a: int| 0 <= a < all.len() implies types_declare(
            schemas,
            n,
            #[trigger] all[a],
        ) by {
            if before.contains(all[a]) {
                let b = choose|b: int| 0 <= b < before.len() && before[b] == all[a];
                let (i, j) = choose|i: int, j: int|
                    #![trigger schemas[i].fields[j]]
                    0 <= i < m && 0 <= j < schemas[i].fields.len() && schemas[i].fields[j].role
                        != FieldRole::Plain && before[b] == (
                        schemas[i].fields[j].name,
                        kind_of(schemas[i].fields[j].ty),
                    );
                assert(schemas[i].fields[j].role != FieldRole::Plain);
            } else {
                let j = choose|j: int|
                    0 <= j < fields.len() && (#[trigger] fields[j]).role != FieldRole::Plain
                        && all[a] == (fields[j].name, kind_of(fields[j].ty));
                assert(schemas[m as int].fields[j].role != FieldRole::Plain);
            }
        }
    }
}

/// Looking a promoted field up by its name.
proof fn lemma_promoted_named(fields: Seq<FieldView>, name: Seq<char>)
    ensures
        field_named(fields, name, true) is Some <==> promotes(fields, name),
        forall|k: int|
            0 <= k < fields.len() && (#[trigger] fields[k]).name == name && fields[k].role
                != FieldRole::Plain && (forall|j: int|
                0 <= j < k && (#[trigger] fields[j]).role != FieldRole::Plain ==> fields[j].name
                    != name) ==> field_named(fields, name, true) == Some(fields[k]),
    decreases fields.len(),
{
    if fields.len() > 0 {
        let tail = fields.skip(1);
        lemma_promoted_named(tail, name);
        if promotes(tail, name) {
            let j = choose|j: int|
                0 <= j < tail.len() && (#[trigger] tail[j]).role != FieldRole::Plain
                    && tail[j].name == name;
            assert(fields[j + 1].name == name);
        }
        if promotes(fields, name) {
            let j = choose|j: int|
                0 <= j < fields.len() && (#[trigger] fields[j]).role != FieldRole::Plain
                    && fields[j].name == name;
            if j > 0 {
                assert(tail[j - 1].name == name);
            }
        }
        assert forall|k: int|
            0 <= k < fields.len() && (#[trigger] fields[k]).name == name && fields[k].role
                != FieldRole::Plain && (forall|j: int|
                0 <= j < k && (#[trigger] fields[j]).role != FieldRole::Plain ==> fields[j].name
                    != name) implies field_named(fields, name, true) == Some(fields[k]) by {
            if k > 0 {
                assert(tail[k - 1] == fields[k]);
                assert(fields[0].role != FieldRole::Plain ==> fields[0].name != name);
                assert forall|j: int|
                    0 <= j < k - 1 && (#[trigger] tail[j]).role
                        != FieldRole::Plain implies tail[j].name != name by {
                    assert(fields[j + 1] == tail[j]);
                }
            }
        }
    }
}

/// The promoted column `q` shows a field of a row: its value, or null where the column is of another
/// kind because another event declares the name first.
pub open spec fn shows_key(
    t: TableView,
    i: int,
    f: FieldView,
    value: Option<ValueView>,
    q: int,
) -> bool {
    &&& 0 <= q < t.keys.len()
    &&& t.keys[q].name == f.name
    &&& t.keys[q].values[i] == if holds(t.keys[q].kind, f.ty) {
        value
    } else {
        None
    }
}

/// Every key, span id and parent span id of every record is in the table: in its row, in the
/// top-level column that has the field's name. (Of two such fields of one name the first counts.)
pub proof fn law_promoted_fields_shown(
    dumps: &[Loaded],
    host: &str,
    c: Conversion,
    items: Seq<ItemView>,
    i: int,
    k: int,
)
    requires
        all_wf(dumps@),
        schemas_agree(loaded_view(dumps@)),
        call_ensures(convert, (dumps, host), c),
        is_merge(streams(loaded_view(dumps@)), items),
        0 <= i < items.len(),
        0 <= k < type_of(dumps@, items[i]).fields.len(),
        type_of(dumps@, items[i]).fields[k].role != FieldRole::Plain,
        forall|j: int|
            0 <= j < k && (#[trigger] type_of(dumps@, items[i]).fields[j]).role != FieldRole::Plain
                ==> type_of(dumps@, items[i]).fields[j].name != type_of(
                dumps@,
                items[i],
            ).fields[k].name,
    ensures
        exists|q: int| #[trigger]
            shows_key(
                c.table@,
                i,
                type_of(dumps@, items[i]).fields[k],
                decoded(
                    type_of(dumps@, items[i]).fields[k],
                    items[i].fields,
                    dump_of(dumps@, items[i]).intern,
                ),
                q,
            ),
{
    let dv = loaded_view(dumps@);
    let idx = lemma_row(dumps, host, c, items, i);
    let sorted = conversion_schemas(dv);
    let rows = items.map_values(|it: ItemView| row_of(dv, sorted, it));
    let t = c.table@;
    let s = type_of(dumps@, items[i]);
    let f = s.fields[k];
    let keys = key_columns(sorted, sorted.len());
    assert(rows[i] == row_of(dv, sorted, items[i]));
    lemma_key_columns(sorted, sorted.len());
    assert(promotes(sorted[idx].fields, f.name));
    assert(types_promote(sorted, sorted.len(), f.name));
    assert(has_name(keys, f.name));
    let q = choose|q: int| 0 <= q < keys.len() && (#[trigger] keys[q]).0 == f.name;
    assert(t.keys[q] == key_column(sorted, rows, keys[q]));
    lemma_promoted_named(s.fields, f.name);
    assert(field_named(s.fields, f.name, true) == Some(f));
    lemma_decoded_kind(f, items[i].fields, dump_of(dumps@, items[i]).intern);
    assert(t.keys[q].values[i] == key_cell(sorted, rows[i], keys[q]));
    assert(shows_key(
        t,
        i,
        f,
        decoded(f, items[i].fields, dump_of(dumps@, items[i]).intern),
        q,
    ));
}

/// Some event type of the dumps declares a key, a span id or a parent span id of the name whose
/// values a column of the kind holds.
pub open spec fn declared_as(dumps: Seq<Loaded>, name: Seq<char>, kind: ColumnKind) -> bool {
    exists|d: int, k: int, j: int|
        #![trigger dumps[d]@.schemas[k].fields[j]]
        0 <= d < dumps.len() && 0 <= k < dumps[d]@.schemas.len() && 0 <= j
            < dumps[d]@.schemas[k].fields.len() && dumps[d]@.schemas[k].fields[j].name == name
            && dumps[d]@.schemas[k].fields[j].role != FieldRole::Plain && holds(
            kind,
            dumps[d]@.schemas[k].fields[j].ty,
        )
}

/// Some field of the dumps has the name, and metadata says of it what there is to say.
pub open spec fn tells_some(
    dumps: Seq<Loaded>,
    name: Seq<char>,
    meta: Seq<(Seq<char>, Seq<char>)>,
) -> bool {
    exists|d: int, k: int, j: int|
        #![trigger dumps[d]@.schemas[k].fields[j]]
        0 <= d < dumps.len() && 0 <= k < dumps[d]@.schemas.len() && 0 <= j
            < dumps[d]@.schemas[k].fields.len() && dumps[d]@.schemas[k].fields[j].name == name
            && tells_field(meta, dumps[d]@.schemas[k].fields[j])
}

/// Looking a field up by its name in the registry.
proof fn lemma_declaration(schemas: Seq<SchemaView>, name: Seq<char>) -> (r: (int, int))
    requires
        exists|i: int, j: int|
            #![trigger schemas[i].fields[j]]
            0 <= i < schemas.len() && 0 <= j < schemas[i].fields.len() && schemas[i].fields[j].name
                == name,
    ensures
        0 <= r.0 < schemas.len(),
        0 <= r.1 < schemas[r.0].fields.len(),
        schemas[r.0].fields[r.1].name == name,
        declaration(schemas, name) == Some(schemas[r.0].fields[r.1]),
    decreases schemas.len(),
{
    let fields = schemas[0].fields;
    lemma_named(fields, name);
    if let Some(f) = field_named(fields, name, false) {
        let j = choose|j: int| 0 <= j < fields.len() && fields[j] == f && fields[j].name == name;
        (0, j)
    } else {
        let tail = schemas.skip(1);
        let (i, j) = choose|i: int, j: int|
            #![trigger schemas[i].fields[j]]
            0 <= i < schemas.len() && 0 <= j < schemas[i].fields.len() && schemas[i].fields[j].name
                == name;
        assert(i > 0);
        assert(tail[i - 1].fields[j].name == name);
        let r = lemma_declaration(tail, name);
        (r.0 + 1, r.1)
    }
}

/// Looking a field up by its name.
proof fn lemma_named(fields: Seq<FieldView>, name: Seq<char>)
    ensures
        field_named(fields, name, false) matches Some(f) ==> exists|j: int|
            0 <= j < fields.len() && fields[j] == f && fields[j].name == name,
        field_named(fields, name, false) is None ==> forall|j: int|
            0 <= j < fields.len() ==> (#[trigger] fields[j]).name != name,
    decreases fields.len(),
{
    if fields.len() > 0 {
        let tail = fields.skip(1);
        lemma_named(tail, name);
        if fields[0].name != name {
            if let Some(f) = field_named(tail, name, false) {
                let j = choose|j: int| 0 <= j < tail.len() && tail[j] == f && tail[j].name == name;
                assert(fields[j + 1] == f);
            } else {
                assert forall|j: int| 0 <= j < fields.len() implies (#[trigger] fields[j]).name
                    != name by {
                    if j > 0 {
                        assert(tail[j - 1] == fields[j]);
                    }
                }
            }
        } else {
            assert(field_named(fields, name, false) == Some(fields[0]));
        }
    }
}

/// Some event type of the dumps declares a key, a span id or a parent span id of the name.
pub open spec fn declared(dumps: Seq<Loaded>, name: Seq<char>) -> bool {
    exists|d: int, k: int, j: int|
        #![trigger dumps[d]@.schemas[k].fields[j]]
        0 <= d < dumps.len() && 0 <= k < dumps[d]@.schemas.len() && 0 <= j
            < dumps[d]@.schemas[k].fields.len() && dumps[d]@.schemas[k].fields[j].name == name
            && dumps[d]@.schemas[k].fields[j].role != FieldRole::Plain
}

/// The top-level columns are exactly the names that some event type declares as a key, a span id or a
/// parent span id, each once, of the kind of such a declaration and with the metadata of a field of
/// that name; and a column is null in the rows of events that do not declare it.
pub proof fn law_promoted_columns_declared(
    dumps: &[Loaded],
    host: &str,
    c: Conversion,
    items: Seq<ItemView>,
)
    requires
        all_wf(dumps@),
        schemas_agree(loaded_view(dumps@)),
        call_ensures(convert, (dumps, host), c),
        is_merge(streams(loaded_view(dumps@)), items),
    ensures
        forall|name: Seq<char>| #[trigger]
            declared(dumps@, name) <==> exists|q: int|
                0 <= q < c.table@.keys.len() && (#[trigger] c.table@.keys[q]).name == name,
        forall|a: int, b: int|
            0 <= a < b < c.table@.keys.len() ==> (#[trigger] c.table@.keys[a]).name != (
            #[trigger] c.table@.keys[b]).name,
        forall|q: int|
            0 <= q < c.table@.keys.len() ==> declared_as(
                dumps@,
                (#[trigger] c.table@.keys[q]).name,
                c.table@.keys[q].kind,
            ) && tells_some(dumps@, c.table@.keys[q].name, c.table@.keys[q].metadata),
        forall|q: int, i: int|
            #![trigger c.table@.keys[q], items[i]]
            0 <= q < c.table@.keys.len() && 0 <= i < items.len() ==> c.table@.keys[q].values.len()
                == items.len() && ((forall|k: int|
                0 <= k < type_of(dumps@, items[i]).fields.len() && (#[trigger] type_of(
                    dumps@,
                    items[i],
                ).fields[k]).role != FieldRole::Plain ==> type_of(dumps@, items[i]).fields[k].name
                    != c.table@.keys[q].name) ==> c.table@.keys[q].values[i] is None),
{
    let dv = loaded_view(dumps@);
    let sorted = conversion_schemas(dv);
    let rows = items.map_values(|it: ItemView| row_of(dv, sorted, it));
    let t = c.table@;
    let keys = key_columns(sorted, sorted.len());
    let got = choose|got: Seq<ItemView>| #[trigger]
        is_merge(streams(dv), got) && c.table@ == conversion_table(dv, got);
    law_merge_unique(streams(dv), got, items);
    lemma_key_columns(sorted, sorted.len());
    assert forall|q: int| 0 <= q < keys.len() implies #[trigger] t.keys[q] == key_column(
        sorted,
        rows,
        keys[q],
    ) by {}
    assert forall|name: Seq<char>| #[trigger] declared(dumps@, name) <==> exists|q: int|
        0 <= q < t.keys.len() && (#[trigger] t.keys[q]).name == name by {
        if declared(dumps@, name) {
            let (d, k, j) = choose|d: int, k: int, j: int|
                #![trigger dumps@[d]@.schemas[k].fields[j]]
                0 <= d < dumps@.len() && 0 <= k < dumps@[d]@.schemas.len() && 0 <= j
                    < dumps@[d]@.schemas[k].fields.len() && dumps@[d]@.schemas[k].fields[j].name
                    == name && dumps@[d]@.schemas[k].fields[j].role != FieldRole::Plain;
            assert(dv[d] == dumps@[d]@);
            let idx = lemma_type_in_registry(dv, d, k);
            assert(sorted[idx].fields[j].name == name);
            assert(promotes(sorted[idx].fields, name));
            assert(types_promote(sorted, sorted.len(), name));
            assert(has_name(keys, name));
            let q = choose|q: int| 0 <= q < keys.len() && (#[trigger] keys[q]).0 == name;
            assert(t.keys[q].name == name);
        }
        if exists|q: int| 0 <= q < t.keys.len() && (#[trigger] t.keys[q]).name == name {
            let q = choose|q: int| 0 <= q < t.keys.len() && (#[trigger] t.keys[q]).name == name;
            assert(keys[q].0 == name);
            assert(has_name(keys, name));
            let idx = choose|i: int|
                0 <= i < sorted.len() && promotes((#[trigger] sorted[i]).fields, name);
            let fields = sorted[idx].fields;
            let j = choose|j: int|
                0 <= j < fields.len() && (#[trigger] fields[j]).role != FieldRole::Plain
                    && fields[j].name == name;
            let from = lemma_registry_type(dv, idx);
            assert(dv[from.0] == dumps@[from.0]@);
            assert(dumps@[from.0]@.schemas[from.1].fields[j].name == name);
        }
    }
    assert forall|a: int, b: int| 0 <= a < b < t.keys.len() implies (#[trigger] t.keys[a]).name != (
    #[trigger] t.keys[b]).name by {
        assert(keys[a].0 != keys[b].0);
    }
    assert forall|q: int| 0 <= q < t.keys.len() implies declared_as(
        dumps@,
        (#[trigger] t.keys[q]).name,
        t.keys[q].kind,
    ) && tells_some(dumps@, t.keys[q].name, t.keys[q].metadata) by {
        assert(types_declare(sorted, sorted.len(), keys[q]));
        let (i, j) = choose|i: int, j: int|
            #![trigger sorted[i].fields[j]]
            0 <= i < sorted.len() && 0 <= j < sorted[i].fields.len() && sorted[i].fields[j].role
                != FieldRole::Plain && keys[q] == (
                sorted[i].fields[j].name,
                kind_of(sorted[i].fields[j].ty),
            );
        let from = lemma_registry_type(dv, i);
        assert(dv[from.0] == dumps@[from.0]@);
        assert(dumps@[from.0]@.schemas[from.1].fields[j] == sorted[i].fields[j]);
        let r = lemma_declaration(sorted, keys[q].0);
        let f = sorted[r.0].fields[r.1];
        lemma_field_meta(f);
        let at = lemma_registry_type(dv, r.0);
        assert(dv[at.0] == dumps@[at.0]@);
        assert(dumps@[at.0]@.schemas[at.1].fields[r.1] == f);
    }
    assert forall|q: int, i: int|
        #![trigger t.keys[q], items[i]]
        0 <= q < t.keys.len() && 0 <= i < items.len() implies t.keys[q].values.len() == items.len()
        && ((forall|k: int|
        0 <= k < type_of(dumps@, items[i]).fields.len() && (#[trigger] type_of(
            dumps@,
            items[i],
        ).fields[k]).role != FieldRole::Plain ==> type_of(dumps@, items[i]).fields[k].name
            != t.keys[q].name) ==> t.keys[q].values[i] is None) by {
        let idx = lemma_row(dumps, host, c, items, i);
        assert(rows[i] == row_of(dv, sorted, items[i]));
        lemma_promoted_named(sorted[idx].fields, keys[q].0);
        assert(t.keys[q].values[i] == key_cell(sorted, rows[i], keys[q]));
    }
}

// ---------------------------------------------------------------------------
// The table and the generated views.
// ---------------------------------------------------------------------------

/// The view of a row's event selects the row: the DDL of a conversion gives a view, under the name
/// that the row has in its `event` column, of the rows that have the row's `event_id`.
pub proof fn law_rows_have_views(
    dumps: &[Loaded],
    host: &str,
    c: Conversion,
    items: Seq<ItemView>,
    i: int,
)
    requires
        all_wf(dumps@),
        call_ensures(convert, (dumps, host), c),
        is_merge(streams(loaded_view(dumps@)), items),
        0 <= i < items.len(),
    ensures
        has_part(c.ddl@, view_statement(c.table@.event[i], c.table@.event_id[i])),
{
    let dv = loaded_view(dumps@);
    let idx = lemma_row(dumps, host, c, items, i);
    let sorted = conversion_schemas(dv);
    let texts = Seq::new(sorted.len(), |k: int| view_statement(title(sorted, k), sorted[k].id));
    let tier1 = tier1_text(sorted);
    let sets = views_of(dv);
    lemma_tier1_views(sorted);
    lemma_strung_has(texts, idx);
    lemma_part_in_part(tier1, strung(texts), texts[idx]);
    lemma_part_within(Seq::empty(), tier1, view_sets_text(sets, sets.len()), texts[idx]);
    assert(c.ddl@ =~= Seq::<char>::empty() + tier1 + view_sets_text(sets, sets.len()));
    assert(c.table@.event[i] == display_name(sorted, idx));
    assert(c.table@.event_id[i] == sorted[idx].id);
}

/// The names of the promoted columns are those of the places.
proof fn lemma_places_names(sorted: Seq<SchemaView>, places: Seq<(int, int)>)
    requires
        lists_promoted(sorted, places),
    ensures
        forall|r: int|
            0 <= r < places.len() ==> has_name(
                key_columns(sorted, sorted.len()),
                sorted[(#[trigger] places[r]).0].fields[places[r].1].name,
            ),
        forall|q: int|
            0 <= q < key_columns(sorted, sorted.len()).len() ==> place_named(
                sorted,
                places,
                (#[trigger] key_columns(sorted, sorted.len())[q]).0,
            ),
{
    let keys = key_columns(sorted, sorted.len());
    lemma_key_columns(sorted, sorted.len());
    assert forall|r: int| 0 <= r < places.len() implies has_name(
        keys,
        sorted[(#[trigger] places[r]).0].fields[places[r].1].name,
    ) by {
        let at = places[r];
        assert(is_promoted_at(sorted, at));
        let name = sorted[at.0].fields[at.1].name;
        assert(promotes(sorted[at.0].fields, name));
        assert(types_promote(sorted, sorted.len(), name));
    }
    assert forall|q: int| 0 <= q < keys.len() implies place_named(
        sorted,
        places,
        (#[trigger] keys[q]).0,
    ) by {
        assert(types_declare(sorted, sorted.len(), keys[q]));
        let (i, j) = choose|i: int, j: int|
            #![trigger sorted[i].fields[j]]
            0 <= i < sorted.len() && 0 <= j < sorted[i].fields.len() && sorted[i].fields[j].role
                != FieldRole::Plain && keys[q] == (
                sorted[i].fields[j].name,
                kind_of(sorted[i].fields[j].ty),
            );
        assert(is_promoted_at(sorted, (i, j)));
        assert(places.contains((i, j)));
        let r = choose|r: int| 0 <= r < places.len() && places[r] == (i, j);
        assert(sorted[places[r].0].fields[places[r].1].name == keys[q].0);
    }
}

/// The field at one of the places has the name.
pub open spec fn place_named(
    schemas: Seq<SchemaView>,
    places: Seq<(int, int)>,
    name: Seq<char>,
) -> bool {
    exists|r: int|
        0 <= r < places.len() && schemas[(#[trigger] places[r]).0].fields[places[r].1].name == name
}

/// A promoted column of the table has the name.
pub open spec fn column_named(t: TableView, name: Seq<char>) -> bool {
    exists|q: int| 0 <= q < t.keys.len() && (#[trigger] t.keys[q]).name == name
}

/// The manifest of a conversion names exactly the promoted columns of its table.
pub proof fn law_manifest_names_columns(
    dumps: &[Loaded],
    host: &str,
    c: Conversion,
    places: Seq<(int, int)>,
)
    requires
        all_wf(dumps@),
        call_ensures(convert, (dumps, host), c),
        lists_promoted(conversion_schemas(loaded_view(dumps@)), places),
    ensures
        has_part(c.ddl@, manifest(conversion_schemas(loaded_view(dumps@)), places)),
        forall|name: Seq<char>| #[trigger]
            column_named(c.table@, name) <==> place_named(
                conversion_schemas(loaded_view(dumps@)),
                places,
                name,
            ),
{
    let dv = loaded_view(dumps@);
    let sorted = conversion_schemas(dv);
    let t = c.table@;
    assert(has_part(c.ddl@, manifest(sorted, places))) by {
        let tier1 = tier1_text(sorted);
        let sets = views_of(dv);
        lemma_tier1_manifest(sorted, places);
        lemma_part_within(
            Seq::empty(),
            tier1,
            view_sets_text(sets, sets.len()),
            manifest(sorted, places),
        );
        assert(c.ddl@ =~= Seq::<char>::empty() + tier1 + view_sets_text(sets, sets.len()));
    }
    let keys = key_columns(sorted, sorted.len());
    assert(t.keys.len() == keys.len() && forall|q: int|
        0 <= q < keys.len() ==> (#[trigger] t.keys[q]).name == keys[q].0) by {
        let got = choose|got: Seq<ItemView>| #[trigger]
            is_merge(streams(dv), got) && c.table@ == conversion_table(dv, got);
        let rows = got.map_values(|it: ItemView| row_of(dv, sorted, it));
        assert forall|q: int| 0 <= q < keys.len() implies (#[trigger] t.keys[q]).name
            == keys[q].0 by {
            assert(t.keys[q] == key_column(sorted, rows, keys[q]));
        }
    }
    lemma_places_names(sorted, places);
    assert forall|name: Seq<char>| #[trigger] column_named(t, name) <==> place_named(
        sorted,
        places,
        name,
    ) by {
        if column_named(t, name) {
            let q = choose|q: int| 0 <= q < t.keys.len() && (#[trigger] t.keys[q]).name == name;
            assert(place_named(sorted, places, keys[q].0));
        }
        if place_named(sorted, places, name) {
            let r = choose|r: int|
                0 <= r < places.len() && sorted[(#[trigger] places[r]).0].fields[places[r].1].name
                    == name;
            assert(has_name(keys, sorted[places[r].0].fields[places[r].1].name));
            let q = choose|q: int| 0 <= q < keys.len() && (#[trigger] keys[q]).0 == name;
            assert(t.keys[q].name == name);
        }
    }
}

/// The footer says which format the file has and carries the DDL; it names the host where there is a
/// label: the one that was passed, or else that of the first dump.
pub proof fn law_footer_says(dumps: &[Loaded], host: &str, c: Conversion, key: Seq<char>, v: Seq<char>)
    requires
        call_ensures(convert, (dumps, host), c),
    ensures
        meta_view(c.footer@).contains((key, v)) <==> {
            ||| key == "backbeat.format"@ && v == "1"@
            ||| key == "backbeat.views"@ && v == c.ddl@
            ||| key == "backbeat.host"@ && v.len() > 0 && host@.len() > 0 && v == host@
            ||| key == "backbeat.host"@ && v.len() > 0 && host@.len() == 0 && dumps@.len() > 0 && v
                == dumps@[0].host@
        },
{
    let dv = loaded_view(dumps@);
    let label = host_label(dv, host@);
    if dumps@.len() > 0 {
        assert(dv[0] == dumps@[0]@);
    }
    let a = seq![("backbeat.format"@, "1"@)];
    let named = if label.len() > 0 {
        Some(label)
    } else {
        None
    };
    let b = meta_entry("backbeat.host"@, named);
    let d = seq![("backbeat.views"@, c.ddl@)];
    lemma_either(a, b, (key, v));
    lemma_either(a + b, d, (key, v));
    lemma_entry("backbeat.host"@, named, key, v);
    assert(a[0] == ("backbeat.format"@, "1"@));
    assert(d[0] == ("backbeat.views"@, c.ddl@));
    assert(meta_view(c.footer@) == a + b + d);
}

} // verus!
