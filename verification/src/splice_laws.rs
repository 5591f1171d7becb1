//! A spliced dump converts to what its inputs convert to together.

use crate::convert::{
    conversion_schemas, conversion_table, ddl_of, footer_of, has_id, host_label,
    lemma_with_schemas_ids, row_of, union_of, views_of, with_schemas, with_views,
};
use crate::convert_laws::{
    lemma_same_conversion, lemma_schema_order, lemma_sorted_distinct, lemma_sorted_twice,
    lemma_union_shared, lemma_views_shared, lemma_with_schemas_distinct, lemma_with_schemas_known,
    lemma_with_views_concat, lemma_with_views_twice, distinct_ids, reads_alike,
};
use crate::fit_laws::law_spliced_registry_fits;
use crate::host_laws::{first_stays, lemma_splice_label};
use crate::lookup::{
    content_of, found, lemma_lookup_concat, lemma_merge_lookup, lemma_same_keys, lemma_sorted_found,
    lookup, or_else, Content,
};
use crate::merge::{
    all_spliced, sections_with, splice_part, splice_parts, splice_sections, spliced_registry,
    spliced_sections, SplicePart,
};
use crate::merge_laws::{
    lemma_bodies_concat, lemma_bodies_uniform, lemma_not_too_large, lemma_stream_item,
};
use crate::model::{
    dump_parts, instance_ids, intern_of, load_many_spec, load_spec, loaded_all, loaded_one,
    schema_leq, shard_walk, sorted_schemas, DumpParts, InputError, LoadError, LoadedView,
};
use crate::order::{
    insert_by, insert_pos, lemma_insert_split, lemma_stable_sort_contains, lemma_stable_sort_len,
    lemma_stable_sort_ordered, ordered,
};
use crate::parse::{
    all_ok, bodies_of, dump_interns, dump_metas, dump_shards, dump_views, lemma_shards_regions,
    p_intern, p_meta, p_shard, p_view,
};
use crate::reload::{
    lemma_addressable, lemma_file_lookup, lemma_instance_ids, parts_lookup, shard_ok, shards_ok,
};
use crate::schema::SchemaView;
use crate::stream::{at, first_at, is_first_of, is_merge, streams, ItemView, Key};
use crate::wire::{
    dump_bytes, dump_len, registry_bytes, Error, InternView, MetaView, SectionView, ShardView,
};
use crate::wire_laws::{law_dump_round_trip, law_registry_round_trip, registry_fits};
use vstd::prelude::*;

verus! {

// ---------------------------------------------------------------------------
// Registries that sort to the same.
// ---------------------------------------------------------------------------

/// Two schemas stand at the same place in the order of names.
pub open spec fn same_name(a: SchemaView, b: SchemaView) -> bool {
    let le = schema_leq();
    le(a, b) && le(b, a)
}

/// The schemas of a registry at the place of `t` in the order of names, as they stand.
pub open spec fn class_of(s: Seq<SchemaView>, t: SchemaView) -> Seq<SchemaView>
    decreases s.len(),
{
    if s.len() == 0 {
        Seq::empty()
    } else {
        let before = class_of(s.drop_last(), t);
        if same_name(s.last(), t) {
            before.push(s.last())
        } else {
            before
        }
    }
}

/// Two registries differ at most in how schemas of different names stand to each other.
pub open spec fn same_classes(a: Seq<SchemaView>, b: Seq<SchemaView>) -> bool {
    forall|t: SchemaView| #[trigger] class_of(a, t) == class_of(b, t)
}

/// The schemas of two runs are those of the one, then those of the other.
proof fn lemma_class_concat(a: Seq<SchemaView>, b: Seq<SchemaView>, t: SchemaView)
    ensures
        class_of(a + b, t) == class_of(a, t) + class_of(b, t),
    decreases b.len(),
{
    if b.len() == 0 {
        assert(a + b =~= a);
        assert(class_of(a, t) + class_of(b, t) =~= class_of(a, t));
    } else {
        assert((a + b).drop_last() =~= a + b.drop_last());
        assert((a + b).last() == b.last());
        lemma_class_concat(a, b.drop_last(), t);
        if same_name(b.last(), t) {
            assert((class_of(a, t) + class_of(b.drop_last(), t)).push(b.last()) =~= class_of(a, t)
                + class_of(b, t));
        }
    }
}

/// A class holds exactly the schemas of its name.
proof fn lemma_class_contains(s: Seq<SchemaView>, t: SchemaView, x: SchemaView)
    ensures
        class_of(s, t).contains(x) == (s.contains(x) && same_name(x, t)),
    decreases s.len(),
{
    if s.len() == 0 {
        assert(!s.contains(x));
        assert(!class_of(s, t).contains(x));
    } else {
        let init = s.drop_last();
        let before = class_of(init, t);
        let after = class_of(s, t);
        lemma_class_contains(init, t, x);
        assert(s.contains(x) == (init.contains(x) || x == s.last())) by {
            if init.contains(x) {
                let i = choose|i: int| 0 <= i < init.len() && init[i] == x;
                assert(s[i] == x);
            }
            if s.contains(x) && x != s.last() {
                let i = choose|i: int| 0 <= i < s.len() && s[i] == x;
                assert(init[i] == x);
            }
            assert(s[s.len() - 1] == s.last());
        }
        if same_name(s.last(), t) {
            assert(after.contains(x) == (before.contains(x) || x == s.last())) by {
                if before.contains(x) {
                    let i = choose|i: int| 0 <= i < before.len() && before[i] == x;
                    assert(after[i] == x);
                }
                if after.contains(x) && x != s.last() {
                    let i = choose|i: int| 0 <= i < after.len() && after[i] == x;
                    assert(before[i] == x);
                }
                assert(after[after.len() - 1] == s.last());
            }
        }
    }
}

/// Schemas of which none has the name make no class.
proof fn lemma_class_empty(s: Seq<SchemaView>, t: SchemaView)
    requires
        forall|i: int| 0 <= i < s.len() ==> !same_name(#[trigger] s[i], t),
    ensures
        class_of(s, t) == Seq::<SchemaView>::empty(),
    decreases s.len(),
{
    if s.len() > 0 {
        let init = s.drop_last();
        assert forall|i: int| 0 <= i < init.len() implies !same_name(#[trigger] init[i], t) by {
            assert(init[i] == s[i]);
        }
        lemma_class_empty(init, t);
        assert(!same_name(s[s.len() - 1], t));
    }
}

/// A schema put in its place stands behind those of its name.
proof fn lemma_class_insert(s: Seq<SchemaView>, x: SchemaView, t: SchemaView)
    requires
        ordered(s, schema_leq()),
    ensures
        class_of(insert_by(s, x, schema_leq()), t) == class_of(s.push(x), t),
{
    let le = schema_leq();
    let p = insert_pos(s, x, le) as int;
    lemma_insert_split(s, x, le);
    lemma_schema_order();
    let a = s.take(p);
    let b = s.skip(p);
    let one = seq![x];
    assert(s =~= a + b);
    assert(insert_by(s, x, le) =~= (a + one) + b);
    assert(s.push(x) =~= (a + b) + one);
    lemma_class_concat(a + one, b, t);
    lemma_class_concat(a, one, t);
    lemma_class_concat(a + b, one, t);
    lemma_class_concat(a, b, t);
    if same_name(x, t) {
        assert forall|i: int| 0 <= i < b.len() implies !same_name(#[trigger] b[i], t) by {
            assert(b[i] == s[p + i]);
            assert(!le(s[p], x));
            if i > 0 {
                assert(le(s[p], s[p + i]));
            }
            if same_name(b[i], t) {
                assert(le(b[i], t) && le(t, x));
                assert(le(b[i], x));
                assert(le(s[p], x));
            }
        }
        lemma_class_empty(b, t);
        assert(class_of(insert_by(s, x, le), t) =~= class_of(s.push(x), t));
    } else {
        assert forall|i: int| 0 <= i < one.len() implies !same_name(#[trigger] one[i], t) by {}
        lemma_class_empty(one, t);
        assert(class_of(insert_by(s, x, le), t) =~= class_of(s.push(x), t));
    }
}

/// Sorting keeps classes.
proof fn lemma_class_sorted(s: Seq<SchemaView>, t: SchemaView)
    ensures
        class_of(sorted_schemas(s), t) == class_of(s, t),
    decreases s.len(),
{
    if s.len() > 0 {
        let init = s.drop_last();
        let sorted = sorted_schemas(init);
        lemma_class_sorted(init, t);
        lemma_schema_order();
        lemma_stable_sort_ordered(init, schema_leq());
        lemma_class_insert(sorted, s.last(), t);
        assert(sorted.push(s.last()).drop_last() =~= sorted);
    }
}

/// Ordered registries with the same classes are the same.
proof fn lemma_classes_ordered(a: Seq<SchemaView>, b: Seq<SchemaView>)
    requires
        ordered(a, schema_leq()),
        ordered(b, schema_leq()),
        same_classes(a, b),
    ensures
        a == b,
    decreases a.len() + b.len(),
{
    let le = schema_leq();
    lemma_schema_order();
    if a.len() == 0 && b.len() == 0 {
        assert(a =~= b);
    } else if a.len() == 0 {
        let y = b.last();
        assert(b[b.len() - 1] == y);
        lemma_class_contains(b, y, y);
        assert(le(y, y));
        assert(class_of(a, y) == class_of(b, y));
        assert(false);
    } else if b.len() == 0 {
        let x = a.last();
        assert(a[a.len() - 1] == x);
        lemma_class_contains(a, x, x);
        assert(le(x, x));
        assert(class_of(a, x) == class_of(b, x));
        assert(false);
    } else {
        let x = a.last();
        let y = b.last();
        let an = a.len() - 1;
        let bn = b.len() - 1;
        assert(a[an] == x && b[bn] == y);
        assert(le(x, x) && le(y, y));
        assert(le(y, x)) by {
            lemma_class_contains(b, y, y);
            lemma_class_contains(a, y, y);
            assert(class_of(a, y) == class_of(b, y));
            assert(a.contains(y));
            let i = choose|i: int| 0 <= i < a.len() && a[i] == y;
            if i < an {
                assert(le(a[i], a[an]));
            }
        }
        assert(le(x, y)) by {
            lemma_class_contains(a, x, x);
            lemma_class_contains(b, x, x);
            assert(class_of(a, x) == class_of(b, x));
            assert(b.contains(x));
            let i = choose|i: int| 0 <= i < b.len() && b[i] == x;
            if i < bn {
                assert(le(b[i], b[bn]));
            }
        }
        assert(same_name(y, x));
        let ca = class_of(a, x);
        let cb = class_of(b, x);
        assert(ca == cb);
        assert(ca.last() == x);
        assert(cb.last() == y);
        let a0 = a.drop_last();
        let b0 = b.drop_last();
        assert forall|t: SchemaView| #[trigger] class_of(a0, t) == class_of(b0, t) by {
            assert(class_of(a, t) == class_of(b, t));
            if same_name(x, t) {
                assert(class_of(a0, t) =~= class_of(a, t).drop_last());
                assert(class_of(b0, t) =~= class_of(b, t).drop_last());
            }
        }
        assert(ordered(a0, le)) by {
            assert forall|i: int, j: int|
                #![trigger a0[i], a0[j]]
                0 <= i < j < a0.len() implies le(a0[i], a0[j]) by {
                assert(a0[i] == a[i] && a0[j] == a[j]);
            }
        }
        assert(ordered(b0, le)) by {
            assert forall|i: int, j: int|
                #![trigger b0[i], b0[j]]
                0 <= i < j < b0.len() implies le(b0[i], b0[j]) by {
                assert(b0[i] == b[i] && b0[j] == b[j]);
            }
        }
        lemma_classes_ordered(a0, b0);
        assert(a =~= a0.push(x));
        assert(b =~= b0.push(y));
    }
}

/// Registries with the same classes sort to the same.
proof fn lemma_classes_sort(a: Seq<SchemaView>, b: Seq<SchemaView>)
    requires
        same_classes(a, b),
    ensures
        sorted_schemas(a) == sorted_schemas(b),
{
    lemma_schema_order();
    lemma_stable_sort_ordered(a, schema_leq());
    lemma_stable_sort_ordered(b, schema_leq());
    assert forall|t: SchemaView| #[trigger] class_of(sorted_schemas(a), t) == class_of(
        sorted_schemas(b),
        t,
    ) by {
        lemma_class_sorted(a, t);
        lemma_class_sorted(b, t);
        assert(class_of(a, t) == class_of(b, t));
    }
    lemma_classes_ordered(sorted_schemas(a), sorted_schemas(b));
}

/// Registries with the same classes have the same ids.
proof fn lemma_classes_ids(a: Seq<SchemaView>, b: Seq<SchemaView>, id: u64)
    requires
        same_classes(a, b),
    ensures
        has_id(a, id) == has_id(b, id),
{
    let le = schema_leq();
    lemma_schema_order();
    if has_id(a, id) {
        let i = choose|i: int| 0 <= i < a.len() && (#[trigger] a[i]).id == id;
        let x = a[i];
        assert(le(x, x));
        lemma_class_contains(a, x, x);
        lemma_class_contains(b, x, x);
        assert(class_of(a, x) == class_of(b, x));
        let j = choose|j: int| 0 <= j < b.len() && b[j] == x;
        assert(b[j].id == id);
    }
    if has_id(b, id) {
        let i = choose|i: int| 0 <= i < b.len() && (#[trigger] b[i]).id == id;
        let x = b[i];
        assert(le(x, x));
        lemma_class_contains(a, x, x);
        lemma_class_contains(b, x, x);
        assert(class_of(a, x) == class_of(b, x));
        let j = choose|j: int| 0 <= j < a.len() && a[j] == x;
        assert(a[j].id == id);
    }
}

/// A registry does not describe one id in two ways.
pub open spec fn ids_agree(s: Seq<SchemaView>) -> bool {
    forall|i: int, j: int|
        #![trigger s[i], s[j]]
        0 <= i < s.len() && 0 <= j < s.len() && s[i].id == s[j].id ==> s[i] == s[j]
}

/// The schemas of `y` whose ids `a` has not, each once.
spec fn fresh(a: Seq<SchemaView>, y: Seq<SchemaView>) -> Seq<SchemaView>
    decreases y.len(),
{
    if y.len() == 0 {
        Seq::empty()
    } else {
        let before = fresh(a, y.drop_last());
        if has_id(a, y.last().id) || has_id(before, y.last().id) {
            before
        } else {
            before.push(y.last())
        }
    }
}

/// The ids of the fresh schemas.
proof fn lemma_fresh_ids(a: Seq<SchemaView>, y: Seq<SchemaView>, id: u64)
    ensures
        has_id(fresh(a, y), id) == (has_id(y, id) && !has_id(a, id)),
    decreases y.len(),
{
    if y.len() > 0 {
        let init = y.drop_last();
        let before = fresh(a, init);
        let after = fresh(a, y);
        lemma_fresh_ids(a, init, id);
        assert(has_id(y, id) == (has_id(init, id) || y.last().id == id)) by {
            if has_id(init, id) {
                let i = choose|i: int| 0 <= i < init.len() && (#[trigger] init[i]).id == id;
                assert(y[i].id == id);
            }
            if has_id(y, id) && y.last().id != id {
                let i = choose|i: int| 0 <= i < y.len() && (#[trigger] y[i]).id == id;
                assert(init[i].id == id);
            }
            assert(y[y.len() - 1] == y.last());
        }
        if after.len() > before.len() {
            assert(has_id(after, id) == (has_id(before, id) || y.last().id == id)) by {
                if has_id(before, id) {
                    let i = choose|i: int| 0 <= i < before.len() && (#[trigger] before[i]).id == id;
                    assert(after[i].id == id);
                }
                if has_id(after, id) && y.last().id != id {
                    let i = choose|i: int| 0 <= i < after.len() && (#[trigger] after[i]).id == id;
                    assert(before[i].id == id);
                }
                assert(after[after.len() - 1] == y.last());
            }
        }
    }
}

/// The classes of a registry with another added.
proof fn lemma_class_added(a: Seq<SchemaView>, x: Seq<SchemaView>, t: SchemaView)
    requires
        ids_agree(x),
    ensures
        class_of(with_schemas(a, x), t) == class_of(a, t) + fresh(a, class_of(x, t)),
    decreases x.len(),
{
    if x.len() == 0 {
        assert(class_of(with_schemas(a, x), t) =~= class_of(a, t) + fresh(a, class_of(x, t)));
    } else {
        let init = x.drop_last();
        let l = x.last();
        let n = x.len() - 1;
        assert(x[n] == l);
        assert(ids_agree(init)) by {
            assert forall|i: int, j: int|
                #![trigger init[i], init[j]]
                0 <= i < init.len() && 0 <= j < init.len() && init[i].id == init[j].id implies init[i]
                == init[j] by {
                assert(init[i] == x[i] && init[j] == x[j]);
            }
        }
        lemma_class_added(a, init, t);
        let before = with_schemas(a, init);
        let y = class_of(init, t);
        lemma_with_schemas_ids(a, init, l.id);
        lemma_fresh_ids(a, y, l.id);
        if !has_id(before, l.id) {
            assert(before.push(l).drop_last() =~= before);
        }
        if same_name(l, t) {
            assert(y.push(l).drop_last() =~= y);
            assert(has_id(init, l.id) == has_id(y, l.id)) by {
                if has_id(init, l.id) {
                    let i = choose|i: int| 0 <= i < init.len() && (#[trigger] init[i]).id == l.id;
                    assert(x[i] == init[i]);
                    assert(x[i] == x[n]);
                    assert(init.contains(l));
                    lemma_class_contains(init, t, l);
                    let j = choose|j: int| 0 <= j < y.len() && y[j] == l;
                    assert(y[j].id == l.id);
                }
                if has_id(y, l.id) {
                    let i = choose|i: int| 0 <= i < y.len() && (#[trigger] y[i]).id == l.id;
                    assert(y.contains(y[i]));
                    lemma_class_contains(init, t, y[i]);
                    let j = choose|j: int| 0 <= j < init.len() && init[j] == y[i];
                    assert(init[j].id == l.id);
                }
            }
            assert(class_of(with_schemas(a, x), t) =~= class_of(a, t) + fresh(a, y.push(l)));
        }
    }
}

/// Sorting a registry keeps it from describing one id in two ways.
proof fn lemma_sorted_agree(x: Seq<SchemaView>)
    requires
        ids_agree(x),
    ensures
        ids_agree(sorted_schemas(x)),
{
    let s = sorted_schemas(x);
    assert forall|i: int, j: int|
        #![trigger s[i], s[j]]
        0 <= i < s.len() && 0 <= j < s.len() && s[i].id == s[j].id implies s[i] == s[j] by {
        lemma_stable_sort_contains(x, schema_leq(), s[i]);
        lemma_stable_sort_contains(x, schema_leq(), s[j]);
        assert(s.contains(s[i]) && s.contains(s[j]));
        let a = choose|a: int| 0 <= a < x.len() && x[a] == s[i];
        let b = choose|b: int| 0 <= b < x.len() && x[b] == s[j];
        assert(x[a].id == x[b].id);
    }
}

/// Adding a registry or its sorted form to registries with the same classes gives the same classes.
proof fn lemma_added_same(a: Seq<SchemaView>, b: Seq<SchemaView>, x: Seq<SchemaView>)
    requires
        same_classes(a, b),
        ids_agree(x),
    ensures
        same_classes(with_schemas(a, sorted_schemas(x)), with_schemas(b, x)),
{
    let s = sorted_schemas(x);
    lemma_sorted_agree(x);
    assert forall|t: SchemaView| #[trigger] class_of(with_schemas(a, s), t) == class_of(
        with_schemas(b, x),
        t,
    ) by {
        lemma_class_added(a, s, t);
        lemma_class_added(b, x, t);
        lemma_class_sorted(x, t);
        lemma_fresh_same(a, b, class_of(x, t));
        assert(class_of(a, t) == class_of(b, t));
    }
}

/// Which schemas are fresh depends on the ids that are there.
proof fn lemma_fresh_same(a: Seq<SchemaView>, b: Seq<SchemaView>, y: Seq<SchemaView>)
    requires
        same_classes(a, b),
    ensures
        fresh(a, y) == fresh(b, y),
    decreases y.len(),
{
    if y.len() > 0 {
        lemma_fresh_same(a, b, y.drop_last());
        lemma_classes_ids(a, b, y.last().id);
    }
}

// ---------------------------------------------------------------------------
// The parts of a spliced dump.
// ---------------------------------------------------------------------------

/// The decoded parts of one input.
pub open spec fn file_parts(part: SplicePart) -> DumpParts {
    dump_parts(part.sections)->Ok_0
}

/// The decoded parts of all inputs, one behind the other, under the united registry.
pub open spec fn joined(parts: Seq<SplicePart>) -> DumpParts
    decreases parts.len(),
{
    if parts.len() == 0 {
        DumpParts {
            schemas: Seq::empty(),
            interns: Seq::empty(),
            metas: Seq::empty(),
            views: Seq::empty(),
            shards: Seq::empty(),
        }
    } else {
        let before = joined(parts.drop_last());
        let f = file_parts(parts.last());
        DumpParts {
            schemas: spliced_registry(parts),
            interns: before.interns + f.interns,
            metas: before.metas + f.metas,
            views: before.views + f.views,
            shards: before.shards + f.shards,
        }
    }
}

/// Every input can be decoded, and its shards are addressable.
pub open spec fn files_ok(parts: Seq<SplicePart>) -> bool {
    forall|i: int| 0 <= i < parts.len() ==> file_ok(#[trigger] parts[i])
}

/// The input can be decoded, and its shards are addressable.
pub open spec fn file_ok(part: SplicePart) -> bool {
    &&& dump_parts(part.sections) is Ok
    &&& file_parts(part).schemas == part.schemas
    &&& shards_ok(file_parts(part).shards)
    &&& part.schemas.len() < 0x1_0000_0000
}

/// Values behind values are values.
pub proof fn lemma_all_ok_concat<T>(a: Seq<Result<T, Error>>, b: Seq<Result<T, Error>>)
    requires
        all_ok(a) is Ok,
        all_ok(b) is Ok,
    ensures
        all_ok(a + b) == Ok::<Seq<T>, Error>(all_ok(a)->Ok_0 + all_ok(b)->Ok_0),
    decreases b.len(),
{
    if b.len() == 0 {
        assert(a + b =~= a);
        assert(all_ok(a)->Ok_0 + all_ok(b)->Ok_0 =~= all_ok(a)->Ok_0);
    } else {
        assert((a + b).drop_last() =~= a + b.drop_last());
        assert((a + b).last() == b.last());
        lemma_all_ok_concat(a, b.drop_last());
        assert((all_ok(a)->Ok_0 + all_ok(b.drop_last())->Ok_0).push(b.last()->Ok_0) =~= all_ok(
            a,
        )->Ok_0 + all_ok(b)->Ok_0);
    }
}

/// The bodies that a splice copies from one input.
pub proof fn lemma_spliced_bodies(sections: Seq<SectionView>, kind: u16)
    ensures
        bodies_of(spliced_sections(sections), kind) == if 1 <= kind <= 4 {
            bodies_of(sections, kind)
        } else {
            Seq::empty()
        },
{
    let s3 = sections_with(3, bodies_of(sections, 3));
    let s1 = sections_with(1, bodies_of(sections, 1));
    let s4 = sections_with(4, bodies_of(sections, 4));
    let s2 = sections_with(2, bodies_of(sections, 2));
    lemma_bodies_concat(s3 + s1 + s4, s2, kind);
    lemma_bodies_concat(s3 + s1, s4, kind);
    lemma_bodies_concat(s3, s1, kind);
    lemma_bodies_uniform(s3, 3, kind);
    lemma_bodies_uniform(s1, 1, kind);
    lemma_bodies_uniform(s4, 4, kind);
    lemma_bodies_uniform(s2, 2, kind);
    assert(bodies_of(spliced_sections(sections), kind) =~= if 1 <= kind <= 4 {
        bodies_of(sections, kind)
    } else {
        Seq::empty()
    });
}

/// Decoding what a splice copied gives the parts of all inputs, one behind the other.
proof fn lemma_spliced_parts(parts: Seq<SplicePart>)
    requires
        files_ok(parts),
    ensures
        dump_interns(all_spliced(parts)) == Ok::<Seq<InternView>, Error>(joined(parts).interns),
        dump_metas(all_spliced(parts)) == Ok::<Seq<MetaView>, Error>(joined(parts).metas),
        dump_views(all_spliced(parts)) == Ok::<Seq<Seq<char>>, Error>(joined(parts).views),
        dump_shards(all_spliced(parts)) == Ok::<Seq<ShardView>, Error>(joined(parts).shards),
        bodies_of(all_spliced(parts), 0) == Seq::<Seq<u8>>::empty(),
    decreases parts.len(),
{
    let pi = |b: Seq<u8>| p_intern(b);
    let pm = |b: Seq<u8>| p_meta(b);
    let pv = |b: Seq<u8>| p_view(b);
    let ps = |b: Seq<u8>| p_shard(b);
    let all = all_spliced(parts);
    if parts.len() == 0 {
        assert(bodies_of(all, 1).map_values(pi) =~= Seq::<Result<InternView, Error>>::empty());
        assert(bodies_of(all, 3).map_values(pm) =~= Seq::<Result<MetaView, Error>>::empty());
        assert(bodies_of(all, 4).map_values(pv) =~= Seq::<Result<Seq<char>, Error>>::empty());
        assert(bodies_of(all, 2).map_values(ps) =~= Seq::<Result<ShardView, Error>>::empty());
    } else {
        let init = parts.drop_last();
        let last = parts.last();
        assert(files_ok(init)) by {
            assert forall|i: int| 0 <= i < init.len() implies file_ok(#[trigger] init[i]) by {
                assert(init[i] == parts[i]);
            }
        }
        assert(file_ok(parts[parts.len() - 1]));
        lemma_spliced_parts(init);
        let a = all_spliced(init);
        let b = spliced_sections(last.sections);
        lemma_bodies_concat(a, b, 0);
        lemma_bodies_concat(a, b, 1);
        lemma_bodies_concat(a, b, 2);
        lemma_bodies_concat(a, b, 3);
        lemma_bodies_concat(a, b, 4);
        lemma_spliced_bodies(last.sections, 0);
        lemma_spliced_bodies(last.sections, 1);
        lemma_spliced_bodies(last.sections, 2);
        lemma_spliced_bodies(last.sections, 3);
        lemma_spliced_bodies(last.sections, 4);
        assert(bodies_of(all, 0) =~= Seq::<Seq<u8>>::empty());
        let s = last.sections;
        assert(bodies_of(all, 1).map_values(pi) =~= bodies_of(a, 1).map_values(pi) + bodies_of(
            s,
            1,
        ).map_values(pi));
        lemma_all_ok_concat(bodies_of(a, 1).map_values(pi), bodies_of(s, 1).map_values(pi));
        assert(bodies_of(all, 3).map_values(pm) =~= bodies_of(a, 3).map_values(pm) + bodies_of(
            s,
            3,
        ).map_values(pm));
        lemma_all_ok_concat(bodies_of(a, 3).map_values(pm), bodies_of(s, 3).map_values(pm));
        assert(bodies_of(all, 4).map_values(pv) =~= bodies_of(a, 4).map_values(pv) + bodies_of(
            s,
            4,
        ).map_values(pv));
        lemma_all_ok_concat(bodies_of(a, 4).map_values(pv), bodies_of(s, 4).map_values(pv));
        assert(bodies_of(all, 2).map_values(ps) =~= bodies_of(a, 2).map_values(ps) + bodies_of(
            s,
            2,
        ).map_values(ps));
        lemma_all_ok_concat(bodies_of(a, 2).map_values(ps), bodies_of(s, 2).map_values(ps));
    }
}

/// Reading the sections of a spliced dump gives its parts.
proof fn lemma_splice_dump_parts(parts: Seq<SplicePart>)
    requires
        files_ok(parts),
        registry_fits(spliced_registry(parts)),
    ensures
        dump_parts(splice_sections(parts)) == Ok::<DumpParts, Error>(joined(parts)),
{
    let registry = seq![
        SectionView { kind: 0, body: registry_bytes(spliced_registry(parts)) },
    ];
    let rest = all_spliced(parts);
    let all = splice_sections(parts);
    lemma_spliced_parts(parts);
    lemma_bodies_concat(registry, rest, 0);
    lemma_bodies_concat(registry, rest, 1);
    lemma_bodies_concat(registry, rest, 2);
    lemma_bodies_concat(registry, rest, 3);
    lemma_bodies_concat(registry, rest, 4);
    lemma_bodies_uniform(registry, 0, 0);
    lemma_bodies_uniform(registry, 0, 1);
    lemma_bodies_uniform(registry, 0, 2);
    lemma_bodies_uniform(registry, 0, 3);
    lemma_bodies_uniform(registry, 0, 4);
    assert(bodies_of(all, 0)[0] == registry_bytes(spliced_registry(parts)));
    assert(bodies_of(all, 1) =~= bodies_of(rest, 1));
    assert(bodies_of(all, 2) =~= bodies_of(rest, 2));
    assert(bodies_of(all, 3) =~= bodies_of(rest, 3));
    assert(bodies_of(all, 4) =~= bodies_of(rest, 4));
    law_registry_round_trip(spliced_registry(parts));
}

// ---------------------------------------------------------------------------
// The inputs, loaded together.
// ---------------------------------------------------------------------------

/// What the inputs have under a key, each by its own registry.
pub open spec fn files_lookup(parts: Seq<SplicePart>, key: Key) -> Option<Content>
    decreases parts.len(),
{
    if parts.len() == 0 {
        None
    } else {
        or_else(
            files_lookup(parts.drop_last(), key),
            parts_lookup(
                sorted_schemas(parts.last().schemas),
                file_parts(parts.last()).shards,
                key,
            ),
        )
    }
}

/// Adding dumps that share a registry adds this registry.
proof fn lemma_union_concat(a: Seq<LoadedView>, b: Seq<LoadedView>, schemas: Seq<SchemaView>)
    requires
        b.len() > 0,
        forall|i: int| 0 <= i < b.len() ==> (#[trigger] b[i]).schemas == schemas,
    ensures
        union_of(a + b) == with_schemas(union_of(a), schemas),
    decreases b.len(),
{
    let init = b.drop_last();
    assert((a + b).drop_last() =~= a + init);
    assert((a + b).last() == b[b.len() - 1]);
    if init.len() == 0 {
        assert(a + init =~= a);
    } else {
        assert forall|i: int| 0 <= i < init.len() implies (#[trigger] init[i]).schemas == schemas by {
            assert(init[i] == b[i]);
        }
        lemma_union_concat(a, init, schemas);
        let u = with_schemas(union_of(a), schemas);
        assert forall|i: int| 0 <= i < schemas.len() implies has_id(
            u,
            (#[trigger] schemas[i]).id,
        ) by {
            lemma_with_schemas_ids(union_of(a), schemas, schemas[i].id);
        }
        lemma_with_schemas_known(u, schemas);
    }
}

/// Adding dumps that share view sets adds these view sets.
proof fn lemma_views_concat(a: Seq<LoadedView>, b: Seq<LoadedView>, views: Seq<Seq<char>>)
    requires
        b.len() > 0,
        forall|i: int| 0 <= i < b.len() ==> (#[trigger] b[i]).views == views,
    ensures
        views_of(a + b) == with_views(views_of(a), views),
    decreases b.len(),
{
    let init = b.drop_last();
    assert((a + b).drop_last() =~= a + init);
    assert((a + b).last() == b[b.len() - 1]);
    if init.len() == 0 {
        assert(a + init =~= a);
    } else {
        assert forall|i: int| 0 <= i < init.len() implies (#[trigger] init[i]).views == views by {
            assert(init[i] == b[i]);
        }
        lemma_views_concat(a, init, views);
        lemma_with_views_twice(views_of(a), views);
    }
}

/// An input that can be loaded and spliced.
pub proof fn lemma_file(path: Seq<char>, bytes: Seq<u8>)
    requires
        splice_part(bytes) is Ok,
        load_spec(path, bytes) is Ok,
    ensures
        file_ok(splice_part(bytes)->Ok_0),
        load_spec(path, bytes)->Ok_0 == loaded_all(path, file_parts(splice_part(bytes)->Ok_0)),
{
    let part = splice_part(bytes)->Ok_0;
    let f = file_parts(part);
    lemma_shards_regions(part.sections);
    lemma_addressable(f.shards);
    crate::parse::lemma_schemas_len(part.sections);
}

/// No input describes one id in two ways.
pub open spec fn registries_agree(parts: Seq<SplicePart>) -> bool {
    forall|i: int| 0 <= i < parts.len() ==> ids_agree((#[trigger] parts[i]).schemas)
}

/// What the inputs give when they are loaded together, in terms of their parts.
proof fn lemma_files(
    inputs: Seq<(Seq<char>, Seq<u8>)>,
    parts: Seq<SplicePart>,
    dumps: Seq<LoadedView>,
    key: Key,
)
    requires
        splice_parts(inputs) == Ok::<Seq<SplicePart>, InputError>(parts),
        load_many_spec(inputs) == Ok::<Seq<LoadedView>, InputError>(dumps),
        registries_agree(parts),
    ensures
        files_ok(parts),
        lookup(dumps, key) == files_lookup(parts, key),
        same_classes(union_of(dumps), spliced_registry(parts)),
        views_of(dumps) == with_views(Seq::empty(), joined(parts).views),
    decreases inputs.len(),
{
    if inputs.len() > 0 {
        let (path, bytes) = inputs.last();
        let before = load_many_spec(inputs.drop_last())->Ok_0;
        let p0 = splice_parts(inputs.drop_last())->Ok_0;
        let part = splice_part(bytes)->Ok_0;
        let f = file_parts(part);
        let more = loaded_all(path, f);
        assert(parts.drop_last() =~= p0);
        assert(parts.last() == part);
        assert(registries_agree(p0)) by {
            assert forall|i: int| 0 <= i < p0.len() implies ids_agree((#[trigger] p0[i]).schemas) by {
                assert(p0[i] == parts[i]);
            }
        }
        assert(ids_agree(parts[parts.len() - 1].schemas));
        lemma_files(inputs.drop_last(), p0, before, key);
        lemma_file(path, bytes);
        assert(files_ok(parts)) by {
            assert forall|i: int| 0 <= i < parts.len() implies file_ok(#[trigger] parts[i]) by {
                if i < p0.len() {
                    assert(file_ok(p0[i]));
                }
            }
        }
        assert(dumps == before + more);
        lemma_lookup_concat(before, more, key);
        lemma_stable_sort_len(f.schemas, schema_leq());
        lemma_file_lookup(path, f, key);
        let ids = instance_ids(f.metas, f.shards);
        lemma_instance_ids(f.metas, f.shards);
        let schemas = sorted_schemas(f.schemas);
        assert forall|i: int| 0 <= i < more.len() implies (#[trigger] more[i]).schemas == schemas
            && more[i].views == f.views by {
            assert(more[i] == loaded_one(path, f, ids[i]));
        }
        lemma_union_concat(before, more, schemas);
        lemma_added_same(union_of(before), spliced_registry(p0), f.schemas);
        lemma_views_concat(before, more, f.views);
        lemma_with_views_concat(Seq::empty(), joined(p0).views, f.views);
    } else {
        assert(dumps =~= Seq::<LoadedView>::empty());
        assert(parts =~= Seq::<SplicePart>::empty());
    }
}

// ---------------------------------------------------------------------------
// Loading a spliced dump.
// ---------------------------------------------------------------------------

/// Of two runs of shards, the first is looked through first.
proof fn lemma_parts_concat(
    schemas: Seq<SchemaView>,
    a: Seq<ShardView>,
    b: Seq<ShardView>,
    key: Key,
)
    ensures
        parts_lookup(schemas, a + b, key) == or_else(
            parts_lookup(schemas, a, key),
            parts_lookup(schemas, b, key),
        ),
    decreases b.len(),
{
    if b.len() == 0 {
        assert(a + b =~= a);
    } else {
        assert((a + b).drop_last() =~= a + b.drop_last());
        assert((a + b).last() == b.last());
        lemma_parts_concat(schemas, a, b.drop_last(), key);
    }
}

/// Shards that walk alike by two registries have the same under each key.
proof fn lemma_parts_same(
    a: Seq<SchemaView>,
    b: Seq<SchemaView>,
    shards: Seq<ShardView>,
    key: Key,
)
    requires
        forall|i: int|
            0 <= i < shards.len() ==> shard_walk(a, #[trigger] shards[i]) == shard_walk(b, shards[i]),
    ensures
        parts_lookup(a, shards, key) == parts_lookup(b, shards, key),
    decreases shards.len(),
{
    if shards.len() > 0 {
        let init = shards.drop_last();
        assert forall|i: int| 0 <= i < init.len() implies shard_walk(a, #[trigger] init[i])
            == shard_walk(b, init[i]) by {
            assert(init[i] == shards[i]);
        }
        lemma_parts_same(a, b, init, key);
        assert(shard_walk(a, shards[shards.len() - 1]) == shard_walk(b, shards[shards.len() - 1]));
    }
}

/// No torn bytes of an input read as a record of an event that only another input registers: every
/// shard walks alike by its own registry and by the given one.
pub open spec fn walks_agree(schemas: Seq<SchemaView>, parts: Seq<SplicePart>) -> bool {
    forall|i: int| 0 <= i < parts.len() ==> file_walks_agree(schemas, #[trigger] parts[i])
}

/// Every shard of an input walks alike by its own registry and by the given one.
pub open spec fn file_walks_agree(schemas: Seq<SchemaView>, part: SplicePart) -> bool {
    forall|j: int|
        0 <= j < file_parts(part).shards.len() ==> shard_walk(
            schemas,
            #[trigger] file_parts(part).shards[j],
        ) == shard_walk(sorted_schemas(part.schemas), file_parts(part).shards[j])
}

/// The shards of a spliced dump have under each key what the inputs have.
proof fn lemma_joined_lookup(schemas: Seq<SchemaView>, parts: Seq<SplicePart>, key: Key)
    requires
        files_ok(parts),
        walks_agree(schemas, parts),
    ensures
        shards_ok(joined(parts).shards),
        parts_lookup(schemas, joined(parts).shards, key) == files_lookup(parts, key),
    decreases parts.len(),
{
    if parts.len() > 0 {
        let init = parts.drop_last();
        let last = parts.last();
        let n = parts.len() - 1;
        assert(parts[n] == last);
        assert forall|i: int| 0 <= i < init.len() implies file_ok(#[trigger] init[i])
            && file_walks_agree(schemas, init[i]) by {
            assert(init[i] == parts[i]);
        }
        lemma_joined_lookup(schemas, init, key);
        assert(file_ok(parts[n]));
        assert(file_walks_agree(schemas, parts[n]));
        let a = joined(init).shards;
        let b = file_parts(last).shards;
        let all = joined(parts).shards;
        assert forall|i: int| 0 <= i < all.len() implies shard_ok(#[trigger] all[i]) by {
            if i < a.len() {
                assert(all[i] == a[i]);
            } else {
                assert(all[i] == b[i - a.len()]);
            }
        }
        lemma_parts_concat(schemas, a, b, key);
        lemma_parts_same(schemas, sorted_schemas(last.schemas), b, key);
    }
}

/// The united registry has distinct ids.
proof fn lemma_registry_distinct(parts: Seq<SplicePart>)
    ensures
        distinct_ids(spliced_registry(parts)),
    decreases parts.len(),
{
    if parts.len() > 0 {
        lemma_registry_distinct(parts.drop_last());
        lemma_with_schemas_distinct(spliced_registry(parts.drop_last()), parts.last().schemas);
    }
}

/// The registry of the joined parts is the united registry.
proof fn lemma_joined_registry(parts: Seq<SplicePart>)
    ensures
        joined(parts).schemas == spliced_registry(parts),
{
}

/// Every merged record decodes to the same with its own dump's interned strings as with those of
/// its instance in the spliced dump.
pub open spec fn spliced_strings_agree(
    dumps: Seq<LoadedView>,
    items: Seq<ItemView>,
    parts: Seq<SplicePart>,
) -> bool {
    let schemas = conversion_schemas(dumps);
    forall|i: int|
        0 <= i < items.len() ==> reads_alike(
            schemas[row_of(dumps, schemas, items[i]).schema_idx as int],
            (#[trigger] items[i]).fields,
            dumps[items[i].dump as int].intern,
            intern_of(joined(parts).interns, items[i].key.instance_id),
        )
}

/// The limits of the file format that the spliced dump must keep to.
pub open spec fn splice_fits(parts: Seq<SplicePart>) -> bool {
    &&& spliced_registry(parts).len() < 0x1_0000_0000
    &&& splice_sections(parts).len() < 0x1_0000
    &&& dump_len(splice_sections(parts)) <= usize::MAX
}

/// A spliced dump can be loaded: what its instances hold.
pub proof fn lemma_splice_loads(
    path: Seq<char>,
    inputs: Seq<(Seq<char>, Seq<u8>)>,
    parts: Seq<SplicePart>,
    dumps: Seq<LoadedView>,
)
    requires
        splice_parts(inputs) == Ok::<Seq<SplicePart>, InputError>(parts),
        load_many_spec(inputs) == Ok::<Seq<LoadedView>, InputError>(dumps),
        registries_agree(parts),
        walks_agree(sorted_schemas(spliced_registry(parts)), parts),
        splice_fits(parts),
    ensures
        load_spec(path, dump_bytes(splice_sections(parts))) == Ok::<Seq<LoadedView>, LoadError>(
            loaded_all(path, joined(parts)),
        ),
        conversion_schemas(dumps) == sorted_schemas(spliced_registry(parts)),
        joined(parts).schemas == spliced_registry(parts),
        forall|i: int|
            0 <= i < loaded_all(path, joined(parts)).len() ==> (#[trigger] loaded_all(
                path,
                joined(parts),
            )[i]) == loaded_one(
                path,
                joined(parts),
                instance_ids(joined(parts).metas, joined(parts).shards)[i],
            ),
{
    let all = joined(parts);
    let registry = spliced_registry(parts);
    let any = Key { ts_nanos: 0, instance_id: 0, shard_id: 0, offset: 0 };
    lemma_files(inputs, parts, dumps, any);
    lemma_joined_lookup(sorted_schemas(registry), parts, any);
    lemma_joined_registry(parts);
    law_spliced_registry_fits(inputs, parts);
    law_dump_round_trip(splice_sections(parts));
    lemma_splice_dump_parts(parts);
    lemma_not_too_large(all.shards);
    lemma_classes_sort(union_of(dumps), registry);
}

/// The instances of a spliced dump have under each key what the inputs have.
proof fn lemma_splice_lookup(
    path: Seq<char>,
    inputs: Seq<(Seq<char>, Seq<u8>)>,
    parts: Seq<SplicePart>,
    dumps: Seq<LoadedView>,
    key: Key,
)
    requires
        splice_parts(inputs) == Ok::<Seq<SplicePart>, InputError>(parts),
        load_many_spec(inputs) == Ok::<Seq<LoadedView>, InputError>(dumps),
        registries_agree(parts),
        walks_agree(sorted_schemas(spliced_registry(parts)), parts),
        splice_fits(parts),
    ensures
        lookup(loaded_all(path, joined(parts)), key) == lookup(dumps, key),
{
    let registry = spliced_registry(parts);
    lemma_files(inputs, parts, dumps, key);
    lemma_joined_registry(parts);
    lemma_stable_sort_len(registry, schema_leq());
    lemma_joined_lookup(sorted_schemas(registry), parts, key);
    lemma_file_lookup(path, joined(parts), key);
}

/// A record of a loaded file is one of its instance's, with the strings of the instance.
proof fn lemma_item_instance(
    path: Seq<char>,
    parts: DumpParts,
    out: Seq<ItemView>,
    i: int,
)
    requires
        is_merge(streams(loaded_all(path, parts)), out),
        0 <= i < out.len(),
    ensures
        out[i].dump < loaded_all(path, parts).len(),
        loaded_all(path, parts)[out[i].dump as int].intern == intern_of(
            parts.interns,
            out[i].key.instance_id,
        ),
{
    let again = loaded_all(path, parts);
    let ids = instance_ids(parts.metas, parts.shards);
    let ss = streams(again);
    assert(is_first_of(ss, out[i]));
    let (s, p) = choose|s: int, p: int|
        #![trigger ss[s][p]]
        at(ss, s, p) && ss[s][p] == out[i] && first_at(ss, s, p);
    let at = lemma_stream_item(again, s, p);
    let d = out[i].dump as int;
    assert(again[d] == loaded_one(path, parts, ids[d]));
}

/// Each record of a spliced dump, in the global order, is that of the inputs at the same place: with
/// the same key, the same event and the same fields, and with the strings of its instance in the
/// spliced dump.
pub proof fn lemma_splice_records(
    path: Seq<char>,
    inputs: Seq<(Seq<char>, Seq<u8>)>,
    parts: Seq<SplicePart>,
    dumps: Seq<LoadedView>,
    items: Seq<ItemView>,
    out: Seq<ItemView>,
)
    requires
        splice_parts(inputs) == Ok::<Seq<SplicePart>, InputError>(parts),
        load_many_spec(inputs) == Ok::<Seq<LoadedView>, InputError>(dumps),
        is_merge(streams(dumps), items),
        registries_agree(parts),
        walks_agree(sorted_schemas(spliced_registry(parts)), parts),
        splice_fits(parts),
        is_merge(streams(loaded_all(path, joined(parts))), out),
    ensures
        out.len() == items.len(),
        forall|i: int|
            #![trigger items[i]]
            #![trigger out[i]]
            0 <= i < items.len() ==> {
                &&& items[i].key == out[i].key
                &&& content_of(dumps, items[i]) == content_of(
                    loaded_all(path, joined(parts)),
                    out[i],
                )
                &&& out[i].dump < loaded_all(path, joined(parts)).len()
                &&& loaded_all(path, joined(parts))[out[i].dump as int].intern == intern_of(
                    joined(parts).interns,
                    items[i].key.instance_id,
                )
            },
{
    let again = loaded_all(path, joined(parts));
    assert forall|key: Key| #[trigger] found(out, key) is Some == found(items, key) is Some by {
        lemma_merge_lookup(again, out, key);
        lemma_merge_lookup(dumps, items, key);
        lemma_splice_lookup(path, inputs, parts, dumps, key);
    }
    lemma_same_keys(out, items);
    assert forall|i: int| #![trigger items[i]] #![trigger out[i]] 0 <= i < items.len() implies {
        &&& items[i].key == out[i].key
        &&& content_of(dumps, items[i]) == content_of(again, out[i])
        &&& out[i].dump < again.len()
        &&& again[out[i].dump as int].intern == intern_of(
            joined(parts).interns,
            items[i].key.instance_id,
        )
    } by {
        let key = out[i].key;
        lemma_sorted_found(out, i);
        lemma_sorted_found(items, i);
        lemma_merge_lookup(again, out, key);
        lemma_merge_lookup(dumps, items, key);
        lemma_splice_lookup(path, inputs, parts, dumps, key);
        lemma_item_instance(path, joined(parts), out, i);
    }
}

/// A spliced dump can be loaded, and converting it, which drops duplicates, gives the same table and
/// the same query DDL as converting the inputs together.
///
/// No input may describe one id in two ways or hold torn bytes that read as a record of an event
/// that only another input registers, and a record must read the same interned strings in its own
/// dump as in the spliced one. The spliced dump must keep to the limits of the file format.
///
/// The footer is the same too where a host label is given. Without one it has that of the first
/// instance, and loading orders the instances of one file by their ids: it is the same where the
/// first instance of the inputs is the least and stays, under one host.
pub proof fn law_splice_converts_alike(
    path: Seq<char>,
    inputs: Seq<(Seq<char>, Seq<u8>)>,
    parts: Seq<SplicePart>,
    dumps: Seq<LoadedView>,
    items: Seq<ItemView>,
)
    requires
        splice_parts(inputs) == Ok::<Seq<SplicePart>, InputError>(parts),
        load_many_spec(inputs) == Ok::<Seq<LoadedView>, InputError>(dumps),
        is_merge(streams(dumps), items),
        registries_agree(parts),
        walks_agree(sorted_schemas(spliced_registry(parts)), parts),
        spliced_strings_agree(dumps, items, parts),
        splice_fits(parts),
    ensures
        load_spec(path, dump_bytes(splice_sections(parts))) matches Ok(again) && ddl_of(again)
            == ddl_of(dumps) && (forall|out: Seq<ItemView>| #[trigger]
            is_merge(streams(again), out) ==> conversion_table(again, out) == conversion_table(
                dumps,
                items,
            )) && (forall|host: Seq<char>|
            host.len() > 0 || first_stays(dumps, again) ==> footer_of(
                #[trigger] host_label(again, host),
                ddl_of(again),
            ) == footer_of(host_label(dumps, host), ddl_of(dumps))),
{
    let all = joined(parts);
    let again = loaded_all(path, all);
    let registry = spliced_registry(parts);
    let schemas = sorted_schemas(registry);
    let any = Key { ts_nanos: 0, instance_id: 0, shard_id: 0, offset: 0 };
    lemma_files(inputs, parts, dumps, any);
    lemma_splice_loads(path, inputs, parts, dumps);
    lemma_instance_ids(all.metas, all.shards);
    lemma_registry_distinct(parts);
    lemma_sorted_distinct(registry);
    lemma_union_shared(again, schemas);
    lemma_sorted_twice(registry);
    assert(conversion_schemas(again) == schemas);
    lemma_views_shared(again, all.views);
    assert forall|out: Seq<ItemView>| #[trigger]
        is_merge(streams(again), out) implies conversion_table(again, out) == conversion_table(
        dumps,
        items,
    ) by {
        lemma_splice_records(path, inputs, parts, dumps, items, out);
        lemma_same_conversion(dumps, items, again, out);
    }
    if first_stays(dumps, again) {
        lemma_splice_label(path, inputs, parts, dumps);
    }
}

} // verus!
