//! The trace of a merged dump is the trace of its inputs together.

use crate::convert::{conversion_schemas, union_of};
use crate::kept_laws::{lemma_input_instance, lemma_splice_part_at};
use crate::lookup::content_of;
use crate::merge::{
    dedup_sections, merged_intern, spliced_registry, splice_parts, splice_sections, SplicePart,
};
use crate::merge_laws::{
    all_sound, dedup_fits, is_sound, lemma_dedup_loads, lemma_dedup_records, lemma_sound,
    lemma_union_member, merged_parts, sizes_agree,
};
use crate::model::{
    intern_of, load_many_spec, load_spec, loaded_all, schema_leq, sorted_schemas, InputError,
    LoadError, LoadedView,
};
use crate::order::lemma_stable_sort_contains;
use crate::reload::{all_whole, law_loaded_records_whole};
use crate::schema::SchemaView;
use crate::splice_laws::{
    ids_agree, joined, lemma_splice_loads, lemma_splice_records, registries_agree, splice_fits,
    walks_agree,
};
use crate::stream::{is_merge, streams, ItemView};
use crate::trace::{flat_of, flats_of, json_of, record_args, trace_events};
use crate::wire::dump_bytes;
use vstd::prelude::*;

verus! {

/// Event types of one id are the same over all inputs.
pub open spec fn schemas_agree(dumps: Seq<LoadedView>) -> bool {
    forall|a: int, i: int, b: int, j: int|
        #![trigger dumps[a].schemas[i], dumps[b].schemas[j]]
        0 <= a < dumps.len() && 0 <= b < dumps.len() && 0 <= i < dumps[a].schemas.len() && 0 <= j
            < dumps[b].schemas.len() && dumps[a].schemas[i].id == dumps[b].schemas[j].id
            ==> dumps[a].schemas[i] == dumps[b].schemas[j]
}

/// Every field of a record is rendered the same with either table of interned strings.
pub open spec fn renders_alike(
    schema: SchemaView,
    fields: Seq<u8>,
    a: Map<u32, Seq<char>>,
    b: Map<u32, Seq<char>>,
) -> bool {
    forall|i: int|
        0 <= i < schema.fields.len() ==> json_of(#[trigger] schema.fields[i], fields, a) == json_of(
            schema.fields[i],
            fields,
            b,
        )
}

/// Every record is rendered the same with its own dump's interned strings as with the given ones of
/// its instance.
pub open spec fn texts_agree(
    dumps: Seq<LoadedView>,
    items: Seq<ItemView>,
    strings: spec_fn(u64) -> Map<u32, Seq<char>>,
) -> bool {
    forall|i: int|
        0 <= i < items.len() ==> renders_alike(
            dumps[(#[trigger] items[i]).dump as int].schemas[items[i].schema_idx as int],
            items[i].fields,
            dumps[items[i].dump as int].intern,
            strings(items[i].key.instance_id),
        )
}

/// Two merges whose records are of the same time, instance, shard and event, with the same fields,
/// are rendered alike, where the other's instances have the united registry of the one's.
proof fn lemma_same_trace(
    dumps: Seq<LoadedView>,
    items: Seq<ItemView>,
    again: Seq<LoadedView>,
    out: Seq<ItemView>,
)
    requires
        schemas_agree(dumps),
        all_sound(dumps, items),
        all_sound(again, out),
        items.len() == out.len(),
        forall|d: int|
            0 <= d < again.len() ==> (#[trigger] again[d]).schemas == conversion_schemas(dumps),
        forall|i: int|
            #![trigger items[i]]
            #![trigger out[i]]
            0 <= i < items.len() ==> {
                &&& items[i].key.ts_nanos == out[i].key.ts_nanos
                &&& items[i].key.instance_id == out[i].key.instance_id
                &&& items[i].key.shard_id == out[i].key.shard_id
                &&& content_of(dumps, items[i]) == content_of(again, out[i])
                &&& renders_alike(
                    dumps[items[i].dump as int].schemas[items[i].schema_idx as int],
                    items[i].fields,
                    dumps[items[i].dump as int].intern,
                    again[out[i].dump as int].intern,
                )
            },
    ensures
        flats_of(again, out) == flats_of(dumps, items),
{
    let all = union_of(dumps);
    let sorted = sorted_schemas(all);
    assert forall|i: int| 0 <= i < items.len() implies flat_of(again, #[trigger] out[i]) == flat_of(
        dumps,
        items[i],
    ) by {
        assert(is_sound(dumps, items[i]));
        assert(is_sound(again, out[i]));
        let s = dumps[items[i].dump as int].schemas[items[i].schema_idx as int];
        let t = sorted[out[i].schema_idx as int];
        assert(again[out[i].dump as int].schemas == sorted);
        assert(content_of(dumps, items[i]) == content_of(again, out[i]));
        lemma_stable_sort_contains(all, schema_leq(), t);
        assert(sorted.contains(t));
        let u = choose|u: int| 0 <= u < all.len() && all[u] == t;
        let at = lemma_union_member(dumps, u);
        assert(dumps[at.0].schemas[at.1] == dumps[items[i].dump as int].schemas[
            items[i].schema_idx as int
        ]);
        assert(s == t);
        let a = record_args(s, items[i].fields, dumps[items[i].dump as int].intern);
        let b = record_args(s, items[i].fields, again[out[i].dump as int].intern);
        assert(a =~= b);
    }
    assert(flats_of(again, out) =~= flats_of(dumps, items));
}

/// The records of one loaded file are sound.
proof fn lemma_file_sound(
    path: Seq<char>,
    bytes: Seq<u8>,
    again: Seq<LoadedView>,
    out: Seq<ItemView>,
)
    requires
        load_spec(path, bytes) == Ok::<Seq<LoadedView>, LoadError>(again),
        is_merge(streams(again), out),
    ensures
        all_sound(again, out),
{
    let one = seq![(path, bytes)];
    assert(one.drop_last() =~= Seq::<(Seq<char>, Seq<u8>)>::empty());
    assert(load_many_spec(one.drop_last())->Ok_0 =~= Seq::<LoadedView>::empty());
    assert(load_many_spec(one)->Ok_0 =~= again);
    law_loaded_records_whole(one);
    assert(all_whole(again));
    lemma_sound(again, out);
}

/// Event types of one id that are the same have the same record size.
proof fn lemma_sizes_agree(dumps: Seq<LoadedView>)
    requires
        schemas_agree(dumps),
    ensures
        sizes_agree(dumps),
{
}

/// Event types of one id that are the same over all inputs are the same within each.
proof fn lemma_registries_agree(
    inputs: Seq<(Seq<char>, Seq<u8>)>,
    parts: Seq<SplicePart>,
    dumps: Seq<LoadedView>,
)
    requires
        splice_parts(inputs) == Ok::<Seq<SplicePart>, InputError>(parts),
        load_many_spec(inputs) == Ok::<Seq<LoadedView>, InputError>(dumps),
        schemas_agree(dumps),
    ensures
        registries_agree(parts),
{
    if inputs.len() > 0 {
        lemma_splice_part_at(inputs, parts, 0);
    } else {
        assert(parts =~= Seq::<SplicePart>::empty());
    }
    assert forall|k: int| 0 <= k < parts.len() implies ids_agree((#[trigger] parts[k]).schemas) by {
        let s = parts[k].schemas;
        let sorted = sorted_schemas(s);
        lemma_splice_part_at(inputs, parts, k);
        let d = lemma_input_instance(inputs, k);
        assert(dumps[d].schemas == sorted);
        assert forall|i: int, j: int|
            #![trigger s[i], s[j]]
            0 <= i < s.len() && 0 <= j < s.len() && s[i].id == s[j].id implies s[i] == s[j] by {
            lemma_stable_sort_contains(s, schema_leq(), s[i]);
            lemma_stable_sort_contains(s, schema_leq(), s[j]);
            assert(s.contains(s[i]) && s.contains(s[j]));
            let a = choose|a: int| 0 <= a < sorted.len() && sorted[a] == s[i];
            let b = choose|b: int| 0 <= b < sorted.len() && sorted[b] == s[j];
            assert(dumps[d].schemas[a].id == dumps[d].schemas[b].id);
        }
    }
}

/// A dump merged with de-duplication can be loaded, and its trace is that of the inputs together.
///
/// The inputs must agree on the event type of each id, and a record must not read an interned string
/// that its own dump lacks and another dump of its instance has. The merged dump must keep to the
/// limits of the file format.
pub proof fn law_dedup_traces_alike(
    path: Seq<char>,
    inputs: Seq<(Seq<char>, Seq<u8>)>,
    dumps: Seq<LoadedView>,
    items: Seq<ItemView>,
)
    requires
        load_many_spec(inputs) == Ok::<Seq<LoadedView>, InputError>(dumps),
        is_merge(streams(dumps), items),
        schemas_agree(dumps),
        texts_agree(dumps, items, |id: u64| merged_intern(dumps, id)),
        dedup_fits(dumps, items),
    ensures
        load_spec(path, dump_bytes(dedup_sections(dumps, items))) matches Ok(again) && forall|
            out: Seq<ItemView>,
        | #[trigger]
            is_merge(streams(again), out) ==> trace_events(flats_of(again, out), out.len())
                == trace_events(flats_of(dumps, items), items.len()),
{
    let bytes = dump_bytes(dedup_sections(dumps, items));
    let again = loaded_all(path, merged_parts(dumps, items));
    lemma_sizes_agree(dumps);
    lemma_dedup_loads(path, inputs, dumps, items);
    assert forall|out: Seq<ItemView>| #[trigger] is_merge(streams(again), out) implies trace_events(
        flats_of(again, out),
        out.len(),
    ) == trace_events(flats_of(dumps, items), items.len()) by {
        lemma_dedup_records(path, inputs, dumps, items, out);
        lemma_file_sound(path, bytes, again, out);
        lemma_same_trace(dumps, items, again, out);
    }
}

/// A spliced dump can be loaded, and its trace, which drops duplicates, is that of the inputs
/// together.
///
/// The inputs must agree on the event type of each id. None may hold torn bytes that read as a record
/// of an event that only another input registers, and a record must read the same interned strings in
/// its own dump as in the spliced one. The spliced dump must keep to the limits of the file format.
pub proof fn law_splice_traces_alike(
    path: Seq<char>,
    inputs: Seq<(Seq<char>, Seq<u8>)>,
    parts: Seq<SplicePart>,
    dumps: Seq<LoadedView>,
    items: Seq<ItemView>,
)
    requires
        splice_parts(inputs) == Ok::<Seq<SplicePart>, InputError>(parts),
        load_many_spec(inputs) == Ok::<Seq<LoadedView>, InputError>(dumps),
        is_merge(streams(dumps), items),
        schemas_agree(dumps),
        walks_agree(sorted_schemas(spliced_registry(parts)), parts),
        texts_agree(dumps, items, |id: u64| intern_of(joined(parts).interns, id)),
        splice_fits(parts),
    ensures
        load_spec(path, dump_bytes(splice_sections(parts))) matches Ok(again) && forall|
            out: Seq<ItemView>,
        | #[trigger]
            is_merge(streams(again), out) ==> trace_events(flats_of(again, out), out.len())
                == trace_events(flats_of(dumps, items), items.len()),
{
    let bytes = dump_bytes(splice_sections(parts));
    let again = loaded_all(path, joined(parts));
    law_loaded_records_whole(inputs);
    lemma_sound(dumps, items);
    lemma_registries_agree(inputs, parts, dumps);
    lemma_splice_loads(path, inputs, parts, dumps);
    assert forall|out: Seq<ItemView>| #[trigger] is_merge(streams(again), out) implies trace_events(
        flats_of(again, out),
        out.len(),
    ) == trace_events(flats_of(dumps, items), items.len()) by {
        lemma_splice_records(path, inputs, parts, dumps, items, out);
        lemma_file_sound(path, bytes, again, out);
        lemma_same_trace(dumps, items, again, out);
    }
}

} // verus!
