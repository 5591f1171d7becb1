//! What a conversion depends on: the registry, and what the records say.

use crate::convert::{
    child_column, child_columns, conversion_schemas, conversion_table, event_column, event_columns,
    field_named, has_id, key_cell, key_column, key_columns, row_of, table_of, union_of,
    with_schemas, with_views, views_of, ColumnKind, RowView,
};
use crate::decode::decoded;
use crate::lookup::content_of;
use crate::model::{schema_leq, sorted_schemas, LoadedView};
use crate::order::{
    is_order, lemma_lex_total, lemma_lex_transitive, lemma_stable_sort_ordered,
    lemma_stable_sort_same,
};
use crate::schema::{FieldView, SchemaView};
use crate::stream::ItemView;
use vstd::prelude::*;
use vstd::utf8::encode_utf8;

verus! {

/// Every field of a record decodes to the same with either table of interned strings.
pub open spec fn reads_alike(
    schema: SchemaView,
    fields: Seq<u8>,
    a: Map<u32, Seq<char>>,
    b: Map<u32, Seq<char>>,
) -> bool {
    forall|i: int|
        0 <= i < schema.fields.len() ==> decoded(#[trigger] schema.fields[i], fields, a) == decoded(
            schema.fields[i],
            fields,
            b,
        )
}

/// Two rows say the same.
pub open spec fn row_alike(schemas: Seq<SchemaView>, a: RowView, b: RowView) -> bool {
    &&& a.ts_nanos == b.ts_nanos
    &&& a.instance_id == b.instance_id
    &&& a.schema_idx == b.schema_idx
    &&& a.fields == b.fields
    &&& reads_alike(schemas[a.schema_idx as int], a.fields, a.intern, b.intern)
}

/// Two runs of rows say the same.
pub open spec fn rows_alike(schemas: Seq<SchemaView>, a: Seq<RowView>, b: Seq<RowView>) -> bool {
    &&& a.len() == b.len()
    &&& forall|i: int|
        #![trigger a[i]]
        #![trigger b[i]]
        0 <= i < a.len() ==> row_alike(schemas, a[i], b[i])
}

/// The field found by a name is one of the fields.
proof fn lemma_field_named(fields: Seq<FieldView>, name: Seq<char>, only: bool) -> (i: int)
    ensures
        field_named(fields, name, only) matches Some(f) ==> 0 <= i < fields.len() && fields[i] == f,
    decreases fields.len(),
{
    if fields.len() == 0 || field_named(fields, name, only) == Some(fields[0]) {
        0
    } else {
        let tail = fields.skip(1);
        lemma_field_named(tail, name, only) + 1
    }
}

/// Rows that say the same make the same promoted columns.
proof fn lemma_key_column(
    schemas: Seq<SchemaView>,
    a: Seq<RowView>,
    b: Seq<RowView>,
    key: (Seq<char>, ColumnKind),
)
    requires
        rows_alike(schemas, a, b),
    ensures
        key_column(schemas, a, key) == key_column(schemas, b, key),
{
    let va = a.map_values(|r: RowView| key_cell(schemas, r, key));
    let vb = b.map_values(|r: RowView| key_cell(schemas, r, key));
    assert forall|i: int| 0 <= i < a.len() implies va[i] == vb[i] by {
        assert(row_alike(schemas, a[i], b[i]));
        let fields = schemas[a[i].schema_idx as int].fields;
        let k = lemma_field_named(fields, key.0, true);
        if let Some(f) = field_named(fields, key.0, true) {
            assert(fields[k] == f);
        }
    }
    assert(va =~= vb);
}

/// Rows that say the same make the same columns under an event's struct column.
proof fn lemma_child_columns(
    schemas: Seq<SchemaView>,
    a: Seq<RowView>,
    b: Seq<RowView>,
    idx: nat,
    n: nat,
)
    requires
        rows_alike(schemas, a, b),
        n <= schemas[idx as int].fields.len(),
    ensures
        child_columns(a, idx, schemas[idx as int].fields.take(n as int)) == child_columns(
            b,
            idx,
            schemas[idx as int].fields.take(n as int),
        ),
    decreases n,
{
    if n > 0 {
        let fields = schemas[idx as int].fields;
        lemma_child_columns(schemas, a, b, idx, (n - 1) as nat);
        assert(fields.take(n as int).drop_last() =~= fields.take(n - 1));
        let f = fields[n - 1];
        let ca = child_column(a, idx, f);
        let cb = child_column(b, idx, f);
        assert forall|i: int| 0 <= i < a.len() implies ca.values[i] == cb.values[i] by {
            assert(row_alike(schemas, a[i], b[i]));
            if a[i].schema_idx == idx {
                assert(decoded(fields[n - 1], a[i].fields, a[i].intern) == decoded(
                    fields[n - 1],
                    a[i].fields,
                    b[i].intern,
                ));
            }
        }
        assert(ca.values =~= cb.values);
        assert(ca == cb);
    }
}

/// Rows that say the same make the same struct columns.
proof fn lemma_event_columns(schemas: Seq<SchemaView>, a: Seq<RowView>, b: Seq<RowView>, n: nat)
    requires
        rows_alike(schemas, a, b),
    ensures
        event_columns(schemas, a, n) == event_columns(schemas, b, n),
    decreases n,
{
    if n > 0 {
        let idx = (n - 1) as nat;
        let fields = schemas[idx as int].fields;
        lemma_event_columns(schemas, a, b, idx);
        lemma_child_columns(schemas, a, b, idx, fields.len());
        assert(fields.take(fields.len() as int) =~= fields);
        let ca = event_column(schemas, a, idx);
        let cb = event_column(schemas, b, idx);
        assert forall|i: int| 0 <= i < a.len() implies ca.valid[i] == cb.valid[i] by {
            assert(row_alike(schemas, a[i], b[i]));
        }
        assert(ca.valid =~= cb.valid);
        assert(ca == cb);
    }
}

/// Rows that say the same make the same table.
pub proof fn lemma_same_table(schemas: Seq<SchemaView>, a: Seq<RowView>, b: Seq<RowView>)
    requires
        rows_alike(schemas, a, b),
    ensures
        table_of(schemas, a) == table_of(schemas, b),
{
    let ta = table_of(schemas, a);
    let tb = table_of(schemas, b);
    assert forall|i: int| 0 <= i < a.len() implies ta.ts_nanos[i] == tb.ts_nanos[i] && ta.event[i]
        == tb.event[i] && ta.event_id[i] == tb.event_id[i] && ta.instance_id[i]
        == tb.instance_id[i] by {
        assert(row_alike(schemas, a[i], b[i]));
    }
    assert(ta.seq =~= tb.seq);
    assert(ta.ts_nanos =~= tb.ts_nanos);
    assert(ta.event =~= tb.event);
    assert(ta.event_id =~= tb.event_id);
    assert(ta.instance_id =~= tb.instance_id);
    let keys = key_columns(schemas, schemas.len());
    assert forall|i: int| 0 <= i < keys.len() implies ta.keys[i] == tb.keys[i] by {
        lemma_key_column(schemas, a, b, keys[i]);
    }
    assert(ta.keys =~= tb.keys);
    lemma_event_columns(schemas, a, b, schemas.len());
}

/// Two merges of loaded dumps say the same.
pub open spec fn merges_alike(
    a: Seq<LoadedView>,
    items_a: Seq<ItemView>,
    b: Seq<LoadedView>,
    items_b: Seq<ItemView>,
) -> bool {
    &&& conversion_schemas(a) == conversion_schemas(b)
    &&& items_a.len() == items_b.len()
    &&& forall|i: int|
        #![trigger items_a[i]]
        #![trigger items_b[i]]
        0 <= i < items_a.len() ==> {
            &&& items_a[i].key.ts_nanos == items_b[i].key.ts_nanos
            &&& items_a[i].key.instance_id == items_b[i].key.instance_id
            &&& content_of(a, items_a[i]) == content_of(b, items_b[i])
            &&& reads_alike(
                conversion_schemas(a)[row_of(a, conversion_schemas(a), items_a[i]).schema_idx as int],
                items_a[i].fields,
                a[items_a[i].dump as int].intern,
                b[items_b[i].dump as int].intern,
            )
        }
}

/// Merges that say the same convert to the same table.
pub proof fn lemma_same_conversion(
    a: Seq<LoadedView>,
    items_a: Seq<ItemView>,
    b: Seq<LoadedView>,
    items_b: Seq<ItemView>,
)
    requires
        merges_alike(a, items_a, b, items_b),
    ensures
        conversion_table(a, items_a) == conversion_table(b, items_b),
{
    let schemas = conversion_schemas(a);
    let ra = items_a.map_values(|i: ItemView| row_of(a, schemas, i));
    let rb = items_b.map_values(|i: ItemView| row_of(b, schemas, i));
    assert forall|i: int| #![trigger ra[i]] #![trigger rb[i]] 0 <= i < ra.len() implies row_alike(
        schemas,
        ra[i],
        rb[i],
    ) by {
        assert(ra[i] == row_of(a, schemas, items_a[i]));
        assert(rb[i] == row_of(b, schemas, items_b[i]));
        assert(content_of(a, items_a[i]) == content_of(b, items_b[i]));
    }
    lemma_same_table(schemas, ra, rb);
}

// ---------------------------------------------------------------------------
// Registries.
// ---------------------------------------------------------------------------

/// The order of names is an order.
pub proof fn lemma_schema_order()
    ensures
        is_order(schema_leq()),
{
    let le = schema_leq();
    assert forall|a: SchemaView, b: SchemaView| #[trigger] le(a, b) || le(b, a) by {
        lemma_lex_total(encode_utf8(a.name), encode_utf8(b.name));
    }
    assert forall|a: SchemaView, b: SchemaView, c: SchemaView| #[trigger]
        le(a, b) && #[trigger] le(b, c) implies le(a, c) by {
        lemma_lex_transitive(encode_utf8(a.name), encode_utf8(b.name), encode_utf8(c.name));
    }
}

/// Ids occur once each in a registry.
pub open spec fn distinct_ids(schemas: Seq<SchemaView>) -> bool {
    forall|i: int, j: int|
        #![trigger schemas[i], schemas[j]]
        0 <= i < j < schemas.len() ==> schemas[i].id != schemas[j].id
}

/// Adding schemas with new ids keeps ids distinct.
pub proof fn lemma_with_schemas_distinct(known: Seq<SchemaView>, more: Seq<SchemaView>)
    requires
        distinct_ids(known),
    ensures
        distinct_ids(with_schemas(known, more)),
    decreases more.len(),
{
    if more.len() > 0 {
        let before = with_schemas(known, more.drop_last());
        let after = with_schemas(known, more);
        lemma_with_schemas_distinct(known, more.drop_last());
        if !has_id(before, more.last().id) {
            assert forall|i: int, j: int|
                #![trigger after[i], after[j]]
                0 <= i < j < after.len() implies after[i].id != after[j].id by {
                assert(after[i] == before[i]);
                if j < before.len() {
                    assert(after[j] == before[j]);
                } else {
                    assert(before[i].id != more.last().id);
                }
            }
        }
    }
}

/// The union of registries has distinct ids.
pub proof fn lemma_union_distinct(dumps: Seq<LoadedView>)
    ensures
        distinct_ids(union_of(dumps)),
    decreases dumps.len(),
{
    if dumps.len() > 0 {
        lemma_union_distinct(dumps.drop_last());
        lemma_with_schemas_distinct(union_of(dumps.drop_last()), dumps.last().schemas);
    }
}

/// Putting a schema with a new id in its place keeps ids distinct.
proof fn lemma_insert_distinct(s: Seq<SchemaView>, x: SchemaView)
    requires
        distinct_ids(s),
        !has_id(s, x.id),
    ensures
        distinct_ids(crate::order::insert_by(s, x, schema_leq())),
{
    let p = crate::order::insert_pos(s, x, schema_leq()) as int;
    let all = crate::order::insert_by(s, x, schema_leq());
    crate::order::lemma_insert_pos_bound(s, x, schema_leq());
    assert forall|i: int, j: int|
        #![trigger all[i], all[j]]
        0 <= i < j < all.len() implies all[i].id != all[j].id by {
        let i0 = if i < p {
            i
        } else {
            i - 1
        };
        let j0 = if j < p {
            j
        } else {
            j - 1
        };
        if i != p && j != p {
            assert(all[i] == s[i0] && all[j] == s[j0]);
        } else if i == p {
            assert(all[j] == s[j0]);
            assert(s[j0].id != x.id);
        } else {
            assert(all[i] == s[i0]);
            assert(s[i0].id != x.id);
        }
    }
}

/// Sorting keeps ids distinct.
pub proof fn lemma_sorted_distinct(schemas: Seq<SchemaView>)
    requires
        distinct_ids(schemas),
    ensures
        distinct_ids(sorted_schemas(schemas)),
    decreases schemas.len(),
{
    if schemas.len() > 0 {
        let init = schemas.drop_last();
        let n = schemas.len() - 1;
        assert(distinct_ids(init)) by {
            assert forall|i: int, j: int|
                #![trigger init[i], init[j]]
                0 <= i < j < init.len() implies init[i].id != init[j].id by {
                assert(init[i] == schemas[i] && init[j] == schemas[j]);
            }
        }
        lemma_sorted_distinct(init);
        assert(!has_id(init, schemas.last().id)) by {
            if has_id(init, schemas.last().id) {
                let i = choose|i: int|
                    0 <= i < init.len() && (#[trigger] init[i]).id == schemas.last().id;
                assert(schemas[i].id != schemas[n].id);
            }
        }
        crate::convert::lemma_sorted_ids(init, schemas.last().id);
        lemma_insert_distinct(sorted_schemas(init), schemas.last());
    }
}

/// Adding to a registry schemas whose ids it has changes nothing.
pub proof fn lemma_with_schemas_known(known: Seq<SchemaView>, more: Seq<SchemaView>)
    requires
        forall|i: int| 0 <= i < more.len() ==> has_id(known, (#[trigger] more[i]).id),
    ensures
        with_schemas(known, more) == known,
    decreases more.len(),
{
    if more.len() > 0 {
        let init = more.drop_last();
        assert forall|i: int| 0 <= i < init.len() implies has_id(
            known,
            (#[trigger] init[i]).id,
        ) by {
            assert(init[i] == more[i]);
        }
        lemma_with_schemas_known(known, init);
        assert(has_id(known, more[more.len() - 1].id));
    }
}

/// A registry with distinct ids, added to nothing, is the registry.
pub proof fn lemma_with_schemas_fresh(more: Seq<SchemaView>)
    requires
        distinct_ids(more),
    ensures
        with_schemas(Seq::empty(), more) == more,
    decreases more.len(),
{
    if more.len() > 0 {
        let init = more.drop_last();
        let n = more.len() - 1;
        assert(distinct_ids(init)) by {
            assert forall|i: int, j: int|
                #![trigger init[i], init[j]]
                0 <= i < j < init.len() implies init[i].id != init[j].id by {
                assert(init[i] == more[i] && init[j] == more[j]);
            }
        }
        lemma_with_schemas_fresh(init);
        if has_id(init, more.last().id) {
            let i = choose|i: int| 0 <= i < init.len() && (#[trigger] init[i]).id == more.last().id;
            assert(more[i].id != more[n].id);
        }
        assert(init.push(more.last()) =~= more);
    } else {
        assert(with_schemas(Seq::empty(), more) =~= more);
    }
}

/// The union over dumps that share one registry is this registry.
pub proof fn lemma_union_shared(dumps: Seq<LoadedView>, schemas: Seq<SchemaView>)
    requires
        dumps.len() > 0,
        distinct_ids(schemas),
        forall|i: int| 0 <= i < dumps.len() ==> (#[trigger] dumps[i]).schemas == schemas,
    ensures
        union_of(dumps) == schemas,
    decreases dumps.len(),
{
    let init = dumps.drop_last();
    assert(dumps[dumps.len() - 1].schemas == schemas);
    if init.len() > 0 {
        assert forall|i: int| 0 <= i < init.len() implies (#[trigger] init[i]).schemas == schemas by {
            assert(init[i] == dumps[i]);
        }
        lemma_union_shared(init, schemas);
        assert forall|i: int| 0 <= i < schemas.len() implies has_id(
            schemas,
            (#[trigger] schemas[i]).id,
        ) by {}
        lemma_with_schemas_known(schemas, schemas);
    } else {
        assert(union_of(init) =~= Seq::<SchemaView>::empty());
        lemma_with_schemas_fresh(schemas);
    }
}

/// Sorting a sorted registry changes nothing.
pub proof fn lemma_sorted_twice(schemas: Seq<SchemaView>)
    ensures
        sorted_schemas(sorted_schemas(schemas)) == sorted_schemas(schemas),
{
    lemma_schema_order();
    lemma_stable_sort_ordered(schemas, schema_leq());
    lemma_stable_sort_same(sorted_schemas(schemas), schema_leq());
}

// ---------------------------------------------------------------------------
// View sets.
// ---------------------------------------------------------------------------

/// Adding view sets keeps those there were, and adds each.
pub proof fn lemma_with_views_contains(known: Seq<Seq<char>>, more: Seq<Seq<char>>, v: Seq<char>)
    ensures
        with_views(known, more).contains(v) == (known.contains(v) || more.contains(v)),
    decreases more.len(),
{
    if more.len() == 0 {
        assert(!more.contains(v));
    } else {
        let init = more.drop_last();
        let before = with_views(known, init);
        let after = with_views(known, more);
        lemma_with_views_contains(known, init, v);
        assert(more =~= init.push(more.last()));
        assert(init.push(more.last()).contains(v) == (init.contains(v) || v == more.last())) by {
            if init.contains(v) {
                let i = choose|i: int| 0 <= i < init.len() && init[i] == v;
                assert(more[i] == v);
            }
            if more.contains(v) && v != more.last() {
                let i = choose|i: int| 0 <= i < more.len() && more[i] == v;
                assert(init[i] == v);
            }
            assert(more[more.len() - 1] == more.last());
        }
        if !before.contains(more.last()) {
            assert(after =~= before.push(more.last()));
            assert(after[after.len() - 1] == more.last());
            if before.contains(v) {
                let i = choose|i: int| 0 <= i < before.len() && before[i] == v;
                assert(after[i] == v);
            }
            if after.contains(v) && v != more.last() {
                let i = choose|i: int| 0 <= i < after.len() && after[i] == v;
                assert(before[i] == v);
            }
        }
    }
}

/// Adding view sets that are there changes nothing.
pub proof fn lemma_with_views_known(known: Seq<Seq<char>>, more: Seq<Seq<char>>)
    requires
        forall|i: int| 0 <= i < more.len() ==> known.contains(#[trigger] more[i]),
    ensures
        with_views(known, more) == known,
    decreases more.len(),
{
    if more.len() > 0 {
        let init = more.drop_last();
        assert forall|i: int| 0 <= i < init.len() implies known.contains(#[trigger] init[i]) by {
            assert(init[i] == more[i]);
        }
        lemma_with_views_known(known, init);
        assert(known.contains(more[more.len() - 1]));
    }
}

/// Adding two runs of view sets is adding the one and then the other.
pub proof fn lemma_with_views_concat(
    known: Seq<Seq<char>>,
    a: Seq<Seq<char>>,
    b: Seq<Seq<char>>,
)
    ensures
        with_views(known, a + b) == with_views(with_views(known, a), b),
    decreases b.len(),
{
    if b.len() == 0 {
        assert(a + b =~= a);
    } else {
        assert((a + b).drop_last() =~= a + b.drop_last());
        assert((a + b).last() == b.last());
        lemma_with_views_concat(known, a, b.drop_last());
    }
}

/// Adding view sets twice is adding them once.
pub proof fn lemma_with_views_twice(known: Seq<Seq<char>>, more: Seq<Seq<char>>)
    ensures
        with_views(with_views(known, more), more) == with_views(known, more),
{
    assert forall|i: int| 0 <= i < more.len() implies with_views(known, more).contains(
        #[trigger] more[i],
    ) by {
        lemma_with_views_contains(known, more, more[i]);
        assert(more.contains(more[i]));
    }
    lemma_with_views_known(with_views(known, more), more);
}

/// The view sets over dumps that share them are these, each once.
pub proof fn lemma_views_shared(dumps: Seq<LoadedView>, views: Seq<Seq<char>>)
    requires
        dumps.len() > 0,
        forall|i: int| 0 <= i < dumps.len() ==> (#[trigger] dumps[i]).views == views,
    ensures
        views_of(dumps) == with_views(Seq::empty(), views),
    decreases dumps.len(),
{
    let init = dumps.drop_last();
    assert(dumps[dumps.len() - 1].views == views);
    if init.len() > 0 {
        assert forall|i: int| 0 <= i < init.len() implies (#[trigger] init[i]).views == views by {
            assert(init[i] == dumps[i]);
        }
        lemma_views_shared(init, views);
        lemma_with_views_twice(Seq::empty(), views);
    } else {
        assert(views_of(init) =~= Seq::<Seq<char>>::empty());
    }
}

/// View sets of which each is there once, added to nothing, are the view sets.
pub proof fn lemma_with_views_fresh(known: Seq<Seq<char>>, more: Seq<Seq<char>>)
    ensures
        with_views(Seq::empty(), with_views(known, more)) == with_views(
            with_views(Seq::empty(), known),
            more,
        ),
    decreases more.len(),
{
    if more.len() > 0 {
        let init = more.drop_last();
        let before = with_views(known, init);
        lemma_with_views_fresh(known, init);
        lemma_with_views_contains(Seq::empty(), before, more.last());
        assert(!Seq::<Seq<char>>::empty().contains(more.last()));
        if !before.contains(more.last()) {
            assert(before.push(more.last()).drop_last() =~= before);
        }
    }
}

/// The view sets of dumps, added to nothing, are the same.
pub proof fn lemma_views_fresh(dumps: Seq<LoadedView>)
    ensures
        with_views(Seq::empty(), views_of(dumps)) == views_of(dumps),
    decreases dumps.len(),
{
    if dumps.len() > 0 {
        lemma_views_fresh(dumps.drop_last());
        lemma_with_views_fresh(views_of(dumps.drop_last()), dumps.last().views);
    } else {
        assert(with_views(Seq::empty(), views_of(dumps)) =~= views_of(dumps));
    }
}

} // verus!
