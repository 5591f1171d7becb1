//! Where what a loaded or a merged dump holds comes from: the strings, the hosts, the event types and
//! the view sets of its instances.

use crate::buf::bytes_of;
use crate::convert::{has_id, union_of, views_of, with_schemas, with_views};
use crate::convert_laws::{
    distinct_ids, lemma_schema_order, lemma_sorted_distinct, lemma_union_distinct,
    lemma_with_views_contains,
};
use crate::fit_laws::law_spliced_registry_fits;
use crate::host_laws::{lemma_file_ids_ascend, lemma_merged_host};
use crate::kept_laws::{instances, lemma_merged_instances, lemma_splice_part_at};
use crate::merge::{
    all_spliced, dedup_sections, first_host, loaded_ids, merge, merged_in, merged_intern,
    spliced_registry, spliced_sections, splice_parts, splice_sections, written, Merged, MergeError,
    SplicePart,
};
use crate::merge_laws::{
    dedup_fits, lemma_bodies_concat, lemma_dedup_loads, lemma_loaded_ids, lemma_merged_intern,
    lemma_sound, merged_parts,
};
use crate::model::{
    inputs_view, instance_ids, load, load_many, load_many_spec, loaded_all, loaded_one, loaded_view,
    schema_leq, sorted_schemas, Input, InputError, LoadError, Loaded, LoadedView,
};
use crate::order::{lemma_stable_sort_contains, lemma_stable_sort_ordered, name_le};
use crate::parse::{bodies_of, dump_schemas, p_dump};
use crate::reload::law_loaded_records_whole;
use crate::schema::SchemaView;
use crate::splice_laws::{lemma_spliced_bodies, splice_fits};
use crate::stream::{is_merge, law_merge_unique, streams, ItemView};
use crate::wire::{registry_bytes, Error, SectionView};
use crate::wire_laws::{law_dump_round_trip, law_registry_round_trip};
use bytes::Bytes;
use vstd::prelude::*;

verus! {

// ---------------------------------------------------------------------------
// Merging with de-duplication.
// ---------------------------------------------------------------------------

/// Dump `d` is the first of the instance that gives the id a string.
pub open spec fn gives_first(dumps: Seq<LoadedView>, instance: u64, id: u32, d: int) -> bool {
    &&& 0 <= d < dumps.len()
    &&& dumps[d].instance_id == instance
    &&& dumps[d].intern.dom().contains(id)
    &&& forall|e: int|
        0 <= e < d && (#[trigger] dumps[e]).instance_id == instance
            ==> !dumps[e].intern.dom().contains(id)
}

/// The strings of an instance are those that its dumps give, the first one of an id, and no others.
pub open spec fn strings_of_own(dumps: Seq<LoadedView>, got: LoadedView) -> bool {
    &&& forall|id: u32, d: int| #[trigger]
        gives_first(dumps, got.instance_id, id, d) ==> got.intern.dom().contains(id)
            && got.intern[id] == dumps[d].intern[id]
    &&& forall|id: u32| #[trigger]
        got.intern.dom().contains(id) ==> exists|d: int| #[trigger]
            gives_first(dumps, got.instance_id, id, d)
}

/// The strings of an instance over all dumps.
proof fn lemma_own_strings(dumps: Seq<LoadedView>, instance: u64)
    ensures
        forall|id: u32, d: int| #[trigger]
            gives_first(dumps, instance, id, d) ==> merged_intern(dumps, instance).dom().contains(id)
                && merged_intern(dumps, instance)[id] == dumps[d].intern[id],
        forall|id: u32| #[trigger]
            merged_intern(dumps, instance).dom().contains(id) ==> exists|d: int| #[trigger]
                gives_first(dumps, instance, id, d),
    decreases dumps.len(),
{
    if dumps.len() > 0 {
        let init = dumps.drop_last();
        let n = dumps.len() - 1;
        let before = merged_intern(init, instance);
        let all = merged_intern(dumps, instance);
        lemma_own_strings(init, instance);
        assert forall|id: u32, d: int| gives_first(init, instance, id, d) implies #[trigger]
            gives_first(dumps, instance, id, d) by {
            assert(init[d] == dumps[d]);
            assert forall|e: int|
                0 <= e < d && (#[trigger] dumps[e]).instance_id
                    == instance implies !dumps[e].intern.dom().contains(id) by {
                assert(init[e] == dumps[e]);
            }
        }
        assert forall|id: u32, d: int| #[trigger]
            gives_first(dumps, instance, id, d) implies all.dom().contains(id) && all[id]
            == dumps[d].intern[id] by {
            if d < n {
                assert(init[d] == dumps[d]);
                assert forall|e: int|
                    0 <= e < d && (#[trigger] init[e]).instance_id
                        == instance implies !init[e].intern.dom().contains(id) by {
                    assert(init[e] == dumps[e]);
                }
                assert(gives_first(init, instance, id, d));
            } else {
                if before.dom().contains(id) {
                    let e = choose|e: int| #[trigger] gives_first(init, instance, id, e);
                    assert(init[e] == dumps[e]);
                    assert(!dumps[e].intern.dom().contains(id));
                }
            }
        }
        assert forall|id: u32| #[trigger] all.dom().contains(id) implies exists|d: int| #[trigger]
            gives_first(dumps, instance, id, d) by {
            if before.dom().contains(id) {
                let d = choose|d: int| #[trigger] gives_first(init, instance, id, d);
                assert(gives_first(dumps, instance, id, d));
            } else {
                assert(dumps[n].intern.dom().contains(id));
                assert forall|e: int|
                    0 <= e < n && (#[trigger] dumps[e]).instance_id
                        == instance implies !dumps[e].intern.dom().contains(id) by {
                    assert(init[e] == dumps[e]);
                    if dumps[e].intern.dom().contains(id) {
                        lemma_some_first(init, instance, id, e);
                    }
                }
                assert(gives_first(dumps, instance, id, n));
            }
        }
    }
}

/// Where some dump of the instance gives the id a string, one is the first.
proof fn lemma_some_first(dumps: Seq<LoadedView>, instance: u64, id: u32, e: int)
    requires
        0 <= e < dumps.len(),
        dumps[e].instance_id == instance,
        dumps[e].intern.dom().contains(id),
    ensures
        exists|d: int| #[trigger] gives_first(dumps, instance, id, d),
    decreases e,
{
    if !gives_first(dumps, instance, id, e) {
        let f = choose|f: int|
            0 <= f < e && (#[trigger] dumps[f]).instance_id == instance
                && dumps[f].intern.dom().contains(id);
        lemma_some_first(dumps, instance, id, f);
    }
}

/// Dump `d` is the first of the instance.
pub open spec fn is_first_dump(dumps: Seq<LoadedView>, instance: u64, d: int) -> bool {
    &&& 0 <= d < dumps.len()
    &&& dumps[d].instance_id == instance
    &&& forall|e: int| 0 <= e < d ==> (#[trigger] dumps[e]).instance_id != instance
}

/// The host of an instance over all dumps.
proof fn lemma_first_host(dumps: Seq<LoadedView>, instance: u64, d: int)
    requires
        is_first_dump(dumps, instance, d),
    ensures
        first_host(dumps, instance) == dumps[d].host,
    decreases dumps.len(),
{
    if d > 0 {
        let tail = dumps.skip(1);
        assert(dumps[0].instance_id != instance);
        assert forall|e: int| 0 <= e < d - 1 implies (#[trigger] tail[e]).instance_id != instance by {
            assert(tail[e] == dumps[e + 1]);
        }
        lemma_first_host(tail, instance, d - 1);
    }
}

/// Schema `k` of dump `d` is the first of its id.
pub open spec fn is_first_type(dumps: Seq<LoadedView>, d: int, k: int) -> bool {
    &&& 0 <= d < dumps.len()
    &&& 0 <= k < dumps[d].schemas.len()
    &&& forall|e: int, j: int|
        #![trigger dumps[e].schemas[j]]
        0 <= e < dumps.len() && 0 <= j < dumps[e].schemas.len() && (e < d || (e == d && j < k))
            ==> dumps[e].schemas[j].id != dumps[d].schemas[k].id
}

/// The registry has the first schema of each id of the dumps, and no others, each once, in the order
/// of names.
pub open spec fn types_of_all(dumps: Seq<LoadedView>, schemas: Seq<SchemaView>) -> bool {
    &&& forall|s: SchemaView| #[trigger]
        schemas.contains(s) <==> exists|d: int, k: int| #[trigger]
            is_first_type(dumps, d, k) && dumps[d].schemas[k] == s
    &&& distinct_ids(schemas)
    &&& forall|a: int, b: int|
        #![trigger schemas[a], schemas[b]]
        0 <= a < b < schemas.len() ==> name_le(schemas[a].name, schemas[b].name)
}

/// Schema `k` of a registry is the first of its id.
spec fn is_first_in(more: Seq<SchemaView>, k: int) -> bool {
    &&& 0 <= k < more.len()
    &&& forall|j: int| 0 <= j < k ==> (#[trigger] more[j]).id != more[k].id
}

/// A registry has the schema as the first of its id.
spec fn has_first(more: Seq<SchemaView>, s: SchemaView) -> bool {
    exists|k: int| #[trigger] is_first_in(more, k) && more[k] == s
}

/// The first of an id in a longer registry.
proof fn lemma_has_first(more: Seq<SchemaView>, s: SchemaView)
    requires
        more.len() > 0,
    ensures
        has_first(more, s) <==> has_first(more.drop_last(), s) || (more.last() == s && !has_id(
            more.drop_last(),
            s.id,
        )),
{
    let init = more.drop_last();
    let n = more.len() - 1;
    if has_first(more, s) {
        let k = choose|k: int| #[trigger] is_first_in(more, k) && more[k] == s;
        if k < n {
            assert forall|j: int| 0 <= j < k implies (#[trigger] init[j]).id != init[k].id by {
                assert(init[j] == more[j]);
            }
            assert(is_first_in(init, k));
        } else if has_id(init, s.id) {
            let j = choose|j: int| 0 <= j < init.len() && (#[trigger] init[j]).id == s.id;
            assert(more[j].id != more[k].id);
        }
    }
    if has_first(init, s) {
        let k = choose|k: int| #[trigger] is_first_in(init, k) && init[k] == s;
        assert forall|j: int| 0 <= j < k implies (#[trigger] more[j]).id != more[k].id by {
            assert(init[j] == more[j]);
        }
        assert(is_first_in(more, k));
    }
    if more.last() == s && !has_id(init, s.id) {
        assert forall|j: int| 0 <= j < n implies (#[trigger] more[j]).id != more[n].id by {
            assert(init[j] == more[j]);
        }
        assert(is_first_in(more, n));
    }
}

/// What adding schemas gives.
proof fn lemma_added(known: Seq<SchemaView>, more: Seq<SchemaView>, s: SchemaView)
    ensures
        with_schemas(known, more).contains(s) <==> known.contains(s) || (!has_id(known, s.id)
            && has_first(more, s)),
    decreases more.len(),
{
    let all = with_schemas(known, more);
    if more.len() > 0 {
        let init = more.drop_last();
        let before = with_schemas(known, init);
        lemma_added(known, init, s);
        lemma_has_first(more, s);
        crate::convert::lemma_with_schemas_ids(known, init, more.last().id);
        if all.contains(s) {
            let i = choose|i: int| 0 <= i < all.len() && all[i] == s;
            if i < before.len() {
                assert(before[i] == s);
            }
        }
        if before.contains(s) {
            let i = choose|i: int| 0 <= i < before.len() && before[i] == s;
            assert(all[i] == s);
        }
        if more.last() == s && !has_id(before, s.id) {
            assert(all[all.len() - 1] == s);
        }
    }
}

/// The union of registries.
proof fn lemma_union_types(dumps: Seq<LoadedView>, s: SchemaView)
    ensures
        union_of(dumps).contains(s) <==> exists|d: int, k: int| #[trigger]
            is_first_type(dumps, d, k) && dumps[d].schemas[k] == s,
    decreases dumps.len(),
{
    if dumps.len() > 0 {
        let init = dumps.drop_last();
        let n = dumps.len() - 1;
        let last = dumps[n].schemas;
        lemma_union_types(init, s);
        lemma_added(union_of(init), last, s);
        if union_of(dumps).contains(s) {
            if union_of(init).contains(s) {
                let (d, k) = choose|d: int, k: int| #[trigger]
                    is_first_type(init, d, k) && init[d].schemas[k] == s;
                assert(init[d] == dumps[d]);
                assert forall|e: int, j: int|
                    #![trigger dumps[e].schemas[j]]
                    0 <= e < dumps.len() && 0 <= j < dumps[e].schemas.len() && (e < d || (e == d
                        && j < k)) implies dumps[e].schemas[j].id != dumps[d].schemas[k].id by {
                    assert(init[e] == dumps[e]);
                    assert(init[e].schemas[j].id != init[d].schemas[k].id);
                }
                assert(is_first_type(dumps, d, k));
            } else {
                let k = choose|k: int| #[trigger] is_first_in(last, k) && last[k] == s;
                assert forall|e: int, j: int|
                    #![trigger dumps[e].schemas[j]]
                    0 <= e < dumps.len() && 0 <= j < dumps[e].schemas.len() && (e < n || (e == n
                        && j < k)) implies dumps[e].schemas[j].id != dumps[n].schemas[k].id by {
                    if e < n {
                        assert(init[e] == dumps[e]);
                        crate::convert::lemma_union_ids(init, e, j);
                    } else {
                        assert(last[j].id != s.id);
                    }
                }
                assert(is_first_type(dumps, n, k));
            }
        }
        if exists|d: int, k: int| #[trigger]
            is_first_type(dumps, d, k) && dumps[d].schemas[k] == s {
            let (d, k) = choose|d: int, k: int| #[trigger]
                is_first_type(dumps, d, k) && dumps[d].schemas[k] == s;
            if d < n {
                assert(init[d] == dumps[d]);
                assert forall|e: int, j: int|
                    #![trigger init[e].schemas[j]]
                    0 <= e < init.len() && 0 <= j < init[e].schemas.len() && (e < d || (e == d && j
                        < k)) implies init[e].schemas[j].id != init[d].schemas[k].id by {
                    assert(init[e] == dumps[e]);
                    assert(dumps[e].schemas[j].id != dumps[d].schemas[k].id);
                }
                assert(is_first_type(init, d, k));
            } else {
                if has_id(union_of(init), s.id) {
                    let u = choose|u: int|
                        0 <= u < union_of(init).len() && (#[trigger] union_of(init)[u]).id == s.id;
                    let at = crate::merge_laws::lemma_union_member(init, u);
                    assert(init[at.0] == dumps[at.0]);
                    assert(dumps[at.0].schemas[at.1].id != dumps[d].schemas[k].id);
                }
                assert(last[k] == s);
                assert forall|j: int| 0 <= j < k implies (#[trigger] last[j]).id != s.id by {
                    assert(dumps[n].schemas[j].id != dumps[n].schemas[k].id);
                }
                assert(is_first_in(last, k));
            }
        }
    } else {
        assert(!union_of(dumps).contains(s));
    }
}

/// The registry of a conversion and of a merged dump.
pub proof fn lemma_types_of_all(dumps: Seq<LoadedView>)
    ensures
        types_of_all(dumps, sorted_schemas(union_of(dumps))),
{
    let all = union_of(dumps);
    let sorted = sorted_schemas(all);
    lemma_union_distinct(dumps);
    lemma_sorted_distinct(all);
    lemma_schema_order();
    lemma_stable_sort_ordered(all, schema_leq());
    assert forall|s: SchemaView| #[trigger] sorted.contains(s) <==> exists|d: int, k: int| #[trigger]
        is_first_type(dumps, d, k) && dumps[d].schemas[k] == s by {
        lemma_stable_sort_contains(all, schema_leq(), s);
        lemma_union_types(dumps, s);
    }
    let le = schema_leq();
    assert forall|a: int, b: int|
        #![trigger sorted[a], sorted[b]]
        0 <= a < b < sorted.len() implies name_le(sorted[a].name, sorted[b].name) by {
        assert(le(sorted[a], sorted[b]));
    }
}

/// The view sets are those of the dumps, each once.
pub open spec fn views_of_all(dumps: Seq<LoadedView>, views: Seq<Seq<char>>) -> bool {
    &&& forall|v: Seq<char>| #[trigger]
        views.contains(v) <==> exists|d: int|
            0 <= d < dumps.len() && (#[trigger] dumps[d]).views.contains(v)
    &&& forall|a: int, b: int|
        0 <= a < b < views.len() ==> #[trigger] views[a] != #[trigger] views[b]
}

/// Adding view sets adds none twice.
proof fn lemma_views_distinct(known: Seq<Seq<char>>, more: Seq<Seq<char>>)
    requires
        forall|a: int, b: int| 0 <= a < b < known.len() ==> #[trigger] known[a] != #[trigger] known[b],
    ensures
        forall|a: int, b: int|
            0 <= a < b < with_views(known, more).len() ==> #[trigger] with_views(known, more)[a]
                != #[trigger] with_views(known, more)[b],
    decreases more.len(),
{
    if more.len() > 0 {
        let before = with_views(known, more.drop_last());
        let all = with_views(known, more);
        lemma_views_distinct(known, more.drop_last());
        assert forall|a: int, b: int| 0 <= a < b < all.len() implies #[trigger] all[a]
            != #[trigger] all[b] by {
            assert(all[a] == before[a]);
            if b < before.len() {
                assert(all[b] == before[b]);
            } else {
                assert(before.contains(before[a]));
            }
        }
    }
}

/// The view sets of dumps.
pub proof fn lemma_views_of_all(dumps: Seq<LoadedView>)
    ensures
        views_of_all(dumps, views_of(dumps)),
    decreases dumps.len(),
{
    if dumps.len() > 0 {
        let init = dumps.drop_last();
        let n = dumps.len() - 1;
        lemma_views_of_all(init);
        lemma_views_distinct(views_of(init), dumps[n].views);
        assert forall|v: Seq<char>| #[trigger] views_of(dumps).contains(v) <==> exists|d: int|
            0 <= d < dumps.len() && (#[trigger] dumps[d]).views.contains(v) by {
            lemma_with_views_contains(views_of(init), dumps[n].views, v);
            if views_of(init).contains(v) {
                let d = choose|d: int|
                    0 <= d < init.len() && (#[trigger] init[d]).views.contains(v);
                assert(dumps[d].views.contains(v));
            }
            if exists|d: int| 0 <= d < dumps.len() && (#[trigger] dumps[d]).views.contains(v) {
                let d = choose|d: int|
                    0 <= d < dumps.len() && (#[trigger] dumps[d]).views.contains(v);
                if d < n {
                    assert(init[d].views.contains(v));
                }
            }
        }
    } else {
        assert forall|v: Seq<char>| #[trigger] views_of(dumps).contains(v) <==> exists|d: int|
            0 <= d < dumps.len() && (#[trigger] dumps[d]).views.contains(v) by {}
    }
}

/// What a merged dump keeps of an instance:
///
/// * its strings are those that the dumps of that same instance give, the first one of an id, and no
///   others, whatever other instances hold;
/// * its host is that of the first dump of the instance;
/// * the registry has the first event type of each id of the dumps, and no others, in the order of
///   names;
/// * the view sets are those of the dumps, each once.
pub open spec fn keeps_own(dumps: Seq<LoadedView>, got: LoadedView) -> bool {
    &&& strings_of_own(dumps, got)
    &&& forall|d: int| #[trigger]
        is_first_dump(dumps, got.instance_id, d) ==> got.host == dumps[d].host
    &&& types_of_all(dumps, got.schemas)
    &&& views_of_all(dumps, got.views)
}

/// One instance of a merged dump.
proof fn lemma_merged_one(
    path: Seq<char>,
    dumps: Seq<LoadedView>,
    items: Seq<ItemView>,
    id: u64,
)
    requires
        loaded_ids(dumps).contains(id),
    ensures
        keeps_own(dumps, loaded_one(path, merged_parts(dumps, items), id)),
{
    let got = loaded_one(path, merged_parts(dumps, items), id);
    lemma_loaded_ids(dumps);
    lemma_merged_intern(dumps, loaded_ids(dumps), id);
    assert(got.intern == merged_intern(dumps, id) && got.instance_id == id);
    assert(strings_of_own(dumps, got)) by {
        lemma_own_strings(dumps, id);
        assert forall|k: u32| #[trigger] got.intern.dom().contains(k) implies exists|d: int| #[trigger]
            gives_first(dumps, got.instance_id, k, d) by {
            assert(merged_intern(dumps, id).dom().contains(k));
        }
    }
    assert forall|d: int| #[trigger] is_first_dump(dumps, got.instance_id, d) implies got.host
        == dumps[d].host by {
        lemma_merged_host(dumps, loaded_ids(dumps), id);
        lemma_first_host(dumps, id, d);
    }
    lemma_types_of_all(dumps);
    lemma_views_of_all(dumps);
}

/// The instances of a merged dump.
proof fn lemma_merged_all(
    path: Seq<char>,
    inputs: Seq<(Seq<char>, Seq<u8>)>,
    dumps: Seq<LoadedView>,
    items: Seq<ItemView>,
)
    requires
        inputs.len() > 0,
        load_many_spec(inputs) == Ok::<Seq<LoadedView>, InputError>(dumps),
        is_merge(streams(dumps), items),
    ensures
        instances(loaded_all(path, merged_parts(dumps, items))) == instances(dumps),
        forall|a: int, b: int|
            0 <= a < b < loaded_all(path, merged_parts(dumps, items)).len() ==> (
            #[trigger] loaded_all(path, merged_parts(dumps, items))[a]).instance_id < (
            #[trigger] loaded_all(path, merged_parts(dumps, items))[b]).instance_id,
        forall|a: int|
            0 <= a < loaded_all(path, merged_parts(dumps, items)).len() ==> keeps_own(
                dumps,
                #[trigger] loaded_all(path, merged_parts(dumps, items))[a],
            ),
{
    let parts = merged_parts(dumps, items);
    let again = loaded_all(path, parts);
    let ids = instance_ids(parts.metas, parts.shards);
    law_loaded_records_whole(inputs);
    lemma_sound(dumps, items);
    let d = crate::kept_laws::lemma_input_instance(inputs, 0);
    lemma_merged_instances(path, dumps, items);
    lemma_file_ids_ascend(parts.metas, parts.shards);
    assert forall|a: int| 0 <= a < again.len() implies keeps_own(dumps, #[trigger] again[a]) by {
        let f = |l: LoadedView| l.instance_id;
        let id = ids[a];
        assert(again[a] == loaded_one(path, parts, id));
        assert(again.map_values(f)[a] == id);
        assert(instances(again).contains(id));
        let d = choose|d: int| 0 <= d < dumps.len() && dumps.map_values(f)[d] == id;
        assert(dumps[d].instance_id == id);
        lemma_loaded_ids(dumps);
        assert(loaded_ids(dumps).contains(dumps[d].instance_id));
        lemma_merged_one(path, dumps, items, id);
    }
    assert forall|a: int, b: int| 0 <= a < b < again.len() implies (#[trigger] again[a]).instance_id
        < (#[trigger] again[b]).instance_id by {
        assert(again[a] == loaded_one(path, parts, ids[a]));
        assert(again[b] == loaded_one(path, parts, ids[b]));
    }
}

/// Merging with de-duplication gives a dump that can be loaded; it has the instances of the inputs,
/// each once, in the order of their ids, and of each it keeps what is its own.
pub proof fn law_merged_instances(
    inputs: &[Input],
    dumps: Vec<Loaded>,
    m: Merged,
    path: &str,
    bytes: Bytes,
    again: Vec<Loaded>,
    items: Seq<ItemView>,
)
    requires
        inputs@.len() > 0,
        call_ensures(load_many, (inputs,), Ok::<Vec<Loaded>, InputError>(dumps)),
        call_ensures(merge, (inputs, true), Ok::<Merged, MergeError>(m)),
        bytes_of(bytes) == m.bytes@,
        call_ensures(load, (path, bytes), Ok::<Vec<Loaded>, LoadError>(again)),
        is_merge(streams(loaded_view(dumps@)), items),
        dedup_fits(loaded_view(dumps@), items),
    ensures
        instances(loaded_view(again@)) == instances(loaded_view(dumps@)),
        forall|a: int, b: int|
            0 <= a < b < again@.len() ==> (#[trigger] again@[a]).instance_id < (
            #[trigger] again@[b]).instance_id,
        forall|a: int|
            0 <= a < again@.len() ==> keeps_own(loaded_view(dumps@), (#[trigger] again@[a])@),
{
    let dv = loaded_view(dumps@);
    let av = loaded_view(again@);
    lemma_merge_loads(inputs, dumps, m, path, bytes, again, items);
    lemma_merged_all(path@, inputs_view(inputs@), dv, items);
    assert forall|a: int| 0 <= a < again@.len() implies av[a] == (#[trigger] again@[a])@ by {}
    assert forall|a: int| 0 <= a < again@.len() implies keeps_own(dv, (#[trigger] again@[a])@) by {
        assert(keeps_own(dv, av[a]));
    }
    assert forall|a: int, b: int| 0 <= a < b < again@.len() implies (
    #[trigger] again@[a]).instance_id < (#[trigger] again@[b]).instance_id by {
        assert(av[a].instance_id < av[b].instance_id);
    }
}

/// What loading the result of a merge gives.
proof fn lemma_merge_loads(
    inputs: &[Input],
    dumps: Vec<Loaded>,
    m: Merged,
    path: &str,
    bytes: Bytes,
    again: Vec<Loaded>,
    items: Seq<ItemView>,
)
    requires
        call_ensures(load_many, (inputs,), Ok::<Vec<Loaded>, InputError>(dumps)),
        call_ensures(merge, (inputs, true), Ok::<Merged, MergeError>(m)),
        bytes_of(bytes) == m.bytes@,
        call_ensures(load, (path, bytes), Ok::<Vec<Loaded>, LoadError>(again)),
        is_merge(streams(loaded_view(dumps@)), items),
        dedup_fits(loaded_view(dumps@), items),
    ensures
        load_many_spec(inputs_view(inputs@)) == Ok::<Seq<LoadedView>, InputError>(
            loaded_view(dumps@),
        ),
        loaded_view(again@) == loaded_all(path@, merged_parts(loaded_view(dumps@), items)),
{
    let dv = loaded_view(dumps@);
    let iv = inputs_view(inputs@);
    assert(load_many_spec(iv) == Ok::<Seq<LoadedView>, InputError>(dv));
    let got = choose|got: Seq<ItemView>|
        is_merge(streams(dv), got) && #[trigger] written(
            dedup_sections(dv, got),
            union_of(dv).len(),
            merged_in(Ok::<Merged, MergeError>(m)),
        );
    law_merge_unique(streams(dv), got, items);
    lemma_dedup_loads(path@, iv, dv, items);
}

// ---------------------------------------------------------------------------
// Merging without de-duplication.
// ---------------------------------------------------------------------------

/// The sections of all files, one file behind the other.
pub open spec fn end_to_end(files: Seq<Seq<SectionView>>) -> Seq<SectionView>
    decreases files.len(),
{
    if files.len() == 0 {
        Seq::empty()
    } else {
        end_to_end(files.drop_last()) + files.last()
    }
}

/// Schema `k` of registry `d` is the first of its id.
pub open spec fn is_first_listed(registries: Seq<Seq<SchemaView>>, d: int, k: int) -> bool {
    &&& 0 <= d < registries.len()
    &&& 0 <= k < registries[d].len()
    &&& forall|e: int, j: int|
        #![trigger registries[e][j]]
        0 <= e < registries.len() && 0 <= j < registries[e].len() && (e < d || (e == d && j < k))
            ==> registries[e][j].id != registries[d][k].id
}

/// The registry has the first schema of each id of the registries, and no others, each once.
pub open spec fn first_listed(registries: Seq<Seq<SchemaView>>, schemas: Seq<SchemaView>) -> bool {
    &&& forall|s: SchemaView| #[trigger]
        schemas.contains(s) <==> exists|d: int, k: int| #[trigger]
            is_first_listed(registries, d, k) && registries[d][k] == s
    &&& distinct_ids(schemas)
}

/// A registry as that of a dump.
spec fn with_registry(schemas: Seq<SchemaView>) -> LoadedView {
    LoadedView {
        path: Seq::empty(),
        instance_id: 0,
        host: Seq::empty(),
        schemas,
        views: Seq::empty(),
        intern: Map::empty(),
        shards: Seq::empty(),
    }
}

/// The registries as those of dumps.
spec fn with_registries(parts: Seq<SplicePart>) -> Seq<LoadedView> {
    parts.map_values(|p: SplicePart| with_registry(p.schemas))
}

/// The united registry of spliced files is that of dumps.
proof fn lemma_spliced_union(parts: Seq<SplicePart>)
    ensures
        spliced_registry(parts) == union_of(with_registries(parts)),
    decreases parts.len(),
{
    if parts.len() > 0 {
        lemma_spliced_union(parts.drop_last());
        assert(with_registries(parts).drop_last() =~= with_registries(parts.drop_last()));
        assert(with_registries(parts).last() == with_registry(parts.last().schemas));
    }
}

/// The united registry of spliced files.
proof fn lemma_first_listed(parts: Seq<SplicePart>, registries: Seq<Seq<SchemaView>>)
    requires
        registries.len() == parts.len(),
        forall|i: int| 0 <= i < parts.len() ==> #[trigger] registries[i] == parts[i].schemas,
    ensures
        first_listed(registries, spliced_registry(parts)),
{
    let dumps = with_registries(parts);
    let all = spliced_registry(parts);
    lemma_spliced_union(parts);
    lemma_union_distinct(dumps);
    assert forall|d: int| 0 <= d < dumps.len() implies (#[trigger] dumps[d]).schemas
        == registries[d] by {}
    assert forall|d: int, k: int| is_first_type(dumps, d, k) implies #[trigger] is_first_listed(
        registries,
        d,
        k,
    ) by {
        assert(dumps[d].schemas == registries[d]);
        assert forall|e: int, j: int|
            #![trigger registries[e][j]]
            0 <= e < registries.len() && 0 <= j < registries[e].len() && (e < d || (e == d && j
                < k)) implies registries[e][j].id != registries[d][k].id by {
            assert(dumps[e].schemas[j] == registries[e][j]);
        }
    }
    assert forall|d: int, k: int| is_first_listed(registries, d, k) implies #[trigger] is_first_type(
        dumps,
        d,
        k,
    ) by {
        assert(dumps[d].schemas == registries[d]);
        assert forall|e: int, j: int|
            #![trigger dumps[e].schemas[j]]
            0 <= e < dumps.len() && 0 <= j < dumps[e].schemas.len() && (e < d || (e == d && j
                < k)) implies dumps[e].schemas[j].id != dumps[d].schemas[k].id by {
            assert(dumps[e].schemas[j] == registries[e][j]);
        }
    }
    assert forall|s: SchemaView| #[trigger] all.contains(s) <==> exists|d: int, k: int| #[trigger]
        is_first_listed(registries, d, k) && registries[d][k] == s by {
        lemma_union_types(dumps, s);
        if all.contains(s) {
            let (d, k) = choose|d: int, k: int| #[trigger]
                is_first_type(dumps, d, k) && dumps[d].schemas[k] == s;
            assert(is_first_listed(registries, d, k) && registries[d][k] == s);
        }
        if exists|d: int, k: int| #[trigger]
            is_first_listed(registries, d, k) && registries[d][k] == s {
            let (d, k) = choose|d: int, k: int| #[trigger]
                is_first_listed(registries, d, k) && registries[d][k] == s;
            assert(is_first_type(dumps, d, k) && dumps[d].schemas[k] == s);
        }
    }
}

/// What a splice copies is what the files have, one behind the other.
proof fn lemma_copied(parts: Seq<SplicePart>, files: Seq<Seq<SectionView>>, kind: u16)
    requires
        files.len() == parts.len(),
        forall|i: int| 0 <= i < parts.len() ==> #[trigger] files[i] == parts[i].sections,
    ensures
        bodies_of(all_spliced(parts), kind) == if 1 <= kind <= 4 {
            bodies_of(end_to_end(files), kind)
        } else {
            Seq::empty()
        },
    decreases parts.len(),
{
    if parts.len() > 0 {
        let init = files.drop_last();
        assert forall|i: int| 0 <= i < init.len() implies #[trigger] init[i]
            == parts.drop_last()[i].sections by {
            assert(files[i] == parts[i].sections);
        }
        lemma_copied(parts.drop_last(), init, kind);
        assert(files[files.len() - 1] == parts[parts.len() - 1].sections);
        lemma_spliced_bodies(parts.last().sections, kind);
        lemma_bodies_concat(
            all_spliced(parts.drop_last()),
            spliced_sections(parts.last().sections),
            kind,
        );
        lemma_bodies_concat(end_to_end(init), files.last(), kind);
        assert(Seq::<Seq<u8>>::empty() + Seq::<Seq<u8>>::empty() =~= Seq::<Seq<u8>>::empty());
    }
}

/// Merging without de-duplication copies every table of strings, shard, metadata and view set of
/// every input, byte for byte, in the order of the inputs and of their sections, and nothing else. In
/// front stands one registry, which has the first schema of each id of the inputs, and no others, each
/// once; their number is reported.
pub proof fn law_spliced_verbatim(
    inputs: &[Input],
    m: Merged,
    parts: Seq<SplicePart>,
    files: Seq<Seq<SectionView>>,
    registries: Seq<Seq<SchemaView>>,
)
    requires
        call_ensures(merge, (inputs, false), Ok::<Merged, MergeError>(m)),
        files.len() == inputs@.len(),
        registries.len() == inputs@.len(),
        forall|i: int|
            0 <= i < files.len() ==> (p_dump(inputs_view(inputs@)[i].1) matches Ok(d) && d.sections
                == #[trigger] files[i]),
        forall|i: int|
            0 <= i < registries.len() ==> dump_schemas(files[i]) == Ok::<Seq<SchemaView>, Error>(
                #[trigger] registries[i],
            ),
        splice_parts(inputs_view(inputs@)) == Ok::<Seq<SplicePart>, InputError>(parts),
        splice_fits(parts),
    ensures
        p_dump(m.bytes@) matches Ok(out) && {
            &&& forall|kind: u16|
                1 <= kind <= 4 ==> #[trigger] bodies_of(out.sections, kind) == bodies_of(
                    end_to_end(files),
                    kind,
                )
            &&& forall|kind: u16| kind > 4 ==> #[trigger] bodies_of(out.sections, kind).len() == 0
            &&& bodies_of(out.sections, 0).len() == 1
            &&& dump_schemas(out.sections) matches Ok(schemas) && first_listed(registries, schemas)
                && m.schemas == schemas.len()
        },
{
    let iv = inputs_view(inputs@);
    let sections = splice_sections(parts);
    let all = spliced_registry(parts);
    let front = seq![SectionView { kind: 0, body: registry_bytes(all) }];
    assert(written(sections, all.len(), Some(m)));
    law_dump_round_trip(sections);
    law_spliced_registry_fits(iv, parts);
    law_registry_round_trip(all);
    if iv.len() > 0 {
        lemma_splice_part_at(iv, parts, 0);
    }
    assert(parts.len() == iv.len());
    assert forall|i: int| 0 <= i < parts.len() implies #[trigger] files[i] == parts[i].sections by {
        lemma_splice_part_at(iv, parts, i);
    }
    assert forall|i: int| 0 <= i < parts.len() implies #[trigger] registries[i]
        == parts[i].schemas by {
        lemma_splice_part_at(iv, parts, i);
        assert(files[i] == parts[i].sections);
    }
    lemma_first_listed(parts, registries);
    assert forall|kind: u16| #[trigger] bodies_of(sections, kind) == if kind == 0 {
        seq![registry_bytes(all)]
    } else if kind <= 4 {
        bodies_of(end_to_end(files), kind)
    } else {
        Seq::<Seq<u8>>::empty()
    } by {
        lemma_copied(parts, files, kind);
        lemma_bodies_concat(front, all_spliced(parts), kind);
        lemma_one_body(front[0], kind);
        assert(Seq::<Seq<u8>>::empty() + bodies_of(all_spliced(parts), kind) =~= bodies_of(
            all_spliced(parts),
            kind,
        ));
        assert(seq![registry_bytes(all)] + Seq::<Seq<u8>>::empty() =~= seq![registry_bytes(all)]);
    }
}

/// The bodies of one section.
proof fn lemma_one_body(section: SectionView, kind: u16)
    ensures
        bodies_of(seq![section], kind) == if section.kind == kind {
            seq![section.body]
        } else {
            Seq::empty()
        },
{
    let one = seq![section];
    assert(one.drop_last() =~= Seq::<SectionView>::empty());
    assert(bodies_of(one.drop_last(), kind) =~= Seq::<Seq<u8>>::empty());
    assert(bodies_of(one, kind) =~= if section.kind == kind {
        seq![section.body]
    } else {
        Seq::empty()
    });
}

} // verus!
