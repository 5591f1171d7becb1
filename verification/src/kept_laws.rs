//! A merged dump keeps what its inputs hold: their view sets, their instances and their records.

use crate::convert::{union_of, views_of};
use crate::convert_laws::{lemma_union_distinct, lemma_with_views_contains};
use crate::lookup::content_of;
use crate::merge::{
    all_spliced, dedup_sections, loaded_ids, shard_key_le, shard_keys, spliced_sections,
    splice_part, splice_parts, splice_sections, SplicePart,
};
use crate::merge_laws::{
    dedup_fits, is_sound, lemma_bodies_concat, lemma_bodies_uniform, lemma_dedup_loads,
    lemma_dedup_merge_exists, lemma_dedup_records, lemma_dedup_views, lemma_keys_distinct,
    lemma_loaded_ids, merged_parts, shard_of, sizes_agree,
};
use crate::model::{
    dump_parts, instance_ids, load_many_spec, load_spec, loaded_all, loaded_one, meta_ids,
    schema_leq, shard_value, shards_of, sorted_schemas, with_shard_ids, DumpParts, InputError,
    LoadedView,
};
use crate::parse::{bodies_of, dump_schemas, dump_views, p_dump, p_view};
use crate::recorder_laws::lemma_map_multiset;
use crate::reload::{ids_distinct, lemma_id_insert, lemma_shard_keys_distinct, shard_ok, shards_ok};
use crate::splice_laws::{lemma_all_ok_concat, lemma_spliced_bodies};
use crate::stream::{
    at, first_at, is_first_of, is_merge, has_key, key_lt, dump_streams, stream_of, streams,
    ItemView,
};
use crate::schema::SchemaView;
use crate::wire::{dump_bytes, dump_len, registry_bytes, Error, MetaView, SectionView, ShardView};
use crate::wire_laws::law_dump_round_trip;
use vstd::multiset::Multiset;
use vstd::prelude::*;

verus! {

// ---------------------------------------------------------------------------
// View sets.
// ---------------------------------------------------------------------------

/// The view sets of every loaded dump are among those of all.
proof fn lemma_views_of_contains(dumps: Seq<LoadedView>, d: int, v: Seq<char>)
    requires
        0 <= d < dumps.len(),
        dumps[d].views.contains(v),
    ensures
        views_of(dumps).contains(v),
    decreases dumps.len(),
{
    lemma_with_views_contains(views_of(dumps.drop_last()), dumps.last().views, v);
    if d < dumps.len() - 1 {
        assert(dumps.drop_last()[d] == dumps[d]);
        lemma_views_of_contains(dumps.drop_last(), d, v);
    }
}

/// Every input gives a loaded instance with the input's registry and view sets.
pub proof fn lemma_input_instance(inputs: Seq<(Seq<char>, Seq<u8>)>, j: int) -> (d: int)
    requires
        load_many_spec(inputs) is Ok,
        0 <= j < inputs.len(),
    ensures
        0 <= d < load_many_spec(inputs)->Ok_0.len(),
        p_dump(inputs[j].1) matches Ok(f) && dump_views(f.sections) matches Ok(views)
            && load_many_spec(inputs)->Ok_0[d].views == views,
        p_dump(inputs[j].1) matches Ok(f) && dump_schemas(f.sections) matches Ok(schemas)
            && load_many_spec(inputs)->Ok_0[d].schemas == sorted_schemas(schemas),
    decreases inputs.len(),
{
    let init = inputs.drop_last();
    let before = load_many_spec(init)->Ok_0;
    if j < inputs.len() - 1 {
        assert(init[j] == inputs[j]);
        lemma_input_instance(init, j)
    } else {
        let (path, bytes) = inputs.last();
        let parts = dump_parts(p_dump(bytes)->Ok_0.sections)->Ok_0;
        let ids = instance_ids(parts.metas, parts.shards);
        let more = loaded_all(path, parts);
        crate::reload::lemma_instance_ids(parts.metas, parts.shards);
        assert(more[0] == loaded_one(path, parts, ids[0]));
        assert((before + more)[before.len() as int] == more[0]);
        before.len() as int
    }
}

/// A dump merged with de-duplication has every view set of every input, as long as its sections can
/// be counted.
pub proof fn law_dedup_keeps_views(
    inputs: Seq<(Seq<char>, Seq<u8>)>,
    dumps: Seq<LoadedView>,
    items: Seq<ItemView>,
    j: int,
    v: Seq<char>,
)
    requires
        load_many_spec(inputs) == Ok::<Seq<LoadedView>, InputError>(dumps),
        dedup_sections(dumps, items).len() < 0x1_0000,
        dump_len(dedup_sections(dumps, items)) <= usize::MAX,
        0 <= j < inputs.len(),
        p_dump(inputs[j].1) matches Ok(f) && dump_views(f.sections) matches Ok(views)
            && views.contains(v),
    ensures
        p_dump(dump_bytes(dedup_sections(dumps, items))) matches Ok(m) && dump_views(m.sections)
            matches Ok(kept) && kept.contains(v),
{
    let d = lemma_input_instance(inputs, j);
    lemma_views_of_contains(dumps, d, v);
    law_dump_round_trip(dedup_sections(dumps, items));
    lemma_dedup_views(dumps, items);
}

/// The view sets of every input can be read.
pub open spec fn views_read(parts: Seq<SplicePart>) -> bool {
    forall|i: int| 0 <= i < parts.len() ==> dump_views((#[trigger] parts[i]).sections) is Ok
}

/// What a splice copied has every view set of every input.
proof fn lemma_spliced_views(parts: Seq<SplicePart>)
    requires
        views_read(parts),
    ensures
        dump_views(all_spliced(parts)) is Ok,
        forall|j: int, v: Seq<char>|
            0 <= j < parts.len() && #[trigger] dump_views(parts[j].sections)->Ok_0.contains(v)
                ==> dump_views(all_spliced(parts))->Ok_0.contains(v),
    decreases parts.len(),
{
    let pv = |b: Seq<u8>| p_view(b);
    let all = all_spliced(parts);
    if parts.len() == 0 {
        assert(bodies_of(all, 4).map_values(pv) =~= Seq::<Result<Seq<char>, Error>>::empty());
    } else {
        let init = parts.drop_last();
        let n = parts.len() - 1;
        assert(views_read(init)) by {
            assert forall|i: int| 0 <= i < init.len() implies dump_views(
                (#[trigger] init[i]).sections,
            ) is Ok by {
                assert(init[i] == parts[i]);
            }
        }
        lemma_spliced_views(init);
        let a = all_spliced(init);
        let s = parts[n].sections;
        let b = spliced_sections(s);
        lemma_bodies_concat(a, b, 4);
        lemma_spliced_bodies(s, 4);
        assert(bodies_of(all, 4).map_values(pv) =~= bodies_of(a, 4).map_values(pv) + bodies_of(
            s,
            4,
        ).map_values(pv));
        assert(dump_views(parts[n].sections) is Ok);
        lemma_all_ok_concat(bodies_of(a, 4).map_values(pv), bodies_of(s, 4).map_values(pv));
        let va = dump_views(a)->Ok_0;
        let vs = dump_views(s)->Ok_0;
        let kept = dump_views(all)->Ok_0;
        assert(kept == va + vs);
        assert forall|j: int, v: Seq<char>|
            0 <= j < parts.len() && #[trigger] dump_views(
                parts[j].sections,
            )->Ok_0.contains(v) implies kept.contains(v) by {
            if j < n {
                assert(init[j] == parts[j]);
                assert(dump_views(init[j].sections)->Ok_0.contains(v));
                assert(va.contains(v));
                let k = choose|k: int| 0 <= k < va.len() && va[k] == v;
                assert(kept[k] == v);
            } else {
                let k = choose|k: int| 0 <= k < vs.len() && vs[k] == v;
                assert(kept[va.len() + k] == v);
            }
        }
    }
}

/// What a splice reads of an input is what the input holds.
pub proof fn lemma_splice_part_at(inputs: Seq<(Seq<char>, Seq<u8>)>, parts: Seq<SplicePart>, j: int)
    requires
        splice_parts(inputs) == Ok::<Seq<SplicePart>, InputError>(parts),
        0 <= j < inputs.len(),
    ensures
        parts.len() == inputs.len(),
        splice_part(inputs[j].1) == Ok::<SplicePart, Error>(parts[j]),
    decreases inputs.len(),
{
    let init = inputs.drop_last();
    let before = splice_parts(init)->Ok_0;
    assert(parts =~= before.push(splice_part(inputs.last().1)->Ok_0));
    if init.len() > 0 {
        lemma_splice_part_at(init, before, if j < init.len() {
            j
        } else {
            0
        });
    }
    if j < init.len() {
        assert(init[j] == inputs[j]);
    }
}

/// A spliced dump has every view set of every input, as long as its sections can be counted and the
/// view sets of all inputs can be read.
pub proof fn law_splice_keeps_views(
    inputs: Seq<(Seq<char>, Seq<u8>)>,
    parts: Seq<SplicePart>,
    j: int,
    v: Seq<char>,
)
    requires
        splice_parts(inputs) == Ok::<Seq<SplicePart>, InputError>(parts),
        views_read(parts),
        splice_sections(parts).len() < 0x1_0000,
        dump_len(splice_sections(parts)) <= usize::MAX,
        0 <= j < inputs.len(),
        p_dump(inputs[j].1) matches Ok(f) && dump_views(f.sections) matches Ok(views)
            && views.contains(v),
    ensures
        p_dump(dump_bytes(splice_sections(parts))) matches Ok(m) && dump_views(m.sections) matches Ok(
            kept,
        ) && kept.contains(v),
{
    let registry = seq![
        SectionView { kind: 0, body: registry_bytes(crate::merge::spliced_registry(parts)) },
    ];
    law_dump_round_trip(splice_sections(parts));
    lemma_splice_part_at(inputs, parts, j);
    lemma_spliced_views(parts);
    lemma_bodies_concat(registry, all_spliced(parts), 4);
    lemma_bodies_uniform(registry, 0, 4);
    assert(bodies_of(splice_sections(parts), 4) =~= bodies_of(all_spliced(parts), 4));
    assert(dump_views(parts[j].sections)->Ok_0.contains(v));
}

// ---------------------------------------------------------------------------
// Instances.
// ---------------------------------------------------------------------------

/// The instances of loaded dumps.
pub open spec fn instances(dumps: Seq<LoadedView>) -> Set<u64> {
    dumps.map_values(|l: LoadedView| l.instance_id).to_set()
}

/// The instances of loaded dumps, in a run.
proof fn lemma_loaded_ids_are(dumps: Seq<LoadedView>, id: u64)
    ensures
        loaded_ids(dumps).contains(id) == instances(dumps).contains(id),
    decreases dumps.len(),
{
    let f = |l: LoadedView| l.instance_id;
    if dumps.len() > 0 {
        let init = dumps.drop_last();
        lemma_loaded_ids_are(init, id);
        lemma_loaded_ids(init);
        lemma_id_insert(loaded_ids(init), dumps.last().instance_id);
        let all = dumps.map_values(f);
        let before = init.map_values(f);
        assert(all =~= before.push(dumps.last().instance_id));
        if all.contains(id) && id != dumps.last().instance_id {
            let i = choose|i: int| 0 <= i < all.len() && all[i] == id;
            assert(before[i] == id);
        }
        if before.contains(id) {
            let i = choose|i: int| 0 <= i < before.len() && before[i] == id;
            assert(all[i] == id);
        }
        assert(all[dumps.len() - 1] == dumps.last().instance_id);
    } else {
        assert(dumps.map_values(f) =~= Seq::<u64>::empty());
    }
}

/// The instances that metadata names.
pub proof fn lemma_meta_ids_are(metas: Seq<MetaView>, id: u64)
    ensures
        ids_distinct(meta_ids(metas)),
        meta_ids(metas).contains(id) == exists|i: int|
            0 <= i < metas.len() && (#[trigger] metas[i]).instance_id == id,
    decreases metas.len(),
{
    if metas.len() > 0 {
        let init = metas.drop_last();
        let n = metas.len() - 1;
        lemma_meta_ids_are(init, id);
        lemma_id_insert(meta_ids(init), metas[n].instance_id);
        if exists|i: int| 0 <= i < metas.len() && (#[trigger] metas[i]).instance_id == id {
            let i = choose|i: int| 0 <= i < metas.len() && (#[trigger] metas[i]).instance_id == id;
            if i < n {
                assert(init[i].instance_id == id);
            }
        }
        if exists|i: int| 0 <= i < init.len() && (#[trigger] init[i]).instance_id == id {
            let i = choose|i: int| 0 <= i < init.len() && (#[trigger] init[i]).instance_id == id;
            assert(metas[i].instance_id == id);
        }
    }
}

/// Shards of known instances add none.
proof fn lemma_shard_ids_known(ids: Seq<u64>, shards: Seq<ShardView>)
    requires
        forall|i: int| 0 <= i < shards.len() ==> ids.contains((#[trigger] shards[i]).instance_id),
    ensures
        with_shard_ids(ids, shards) == ids,
    decreases shards.len(),
{
    if shards.len() > 0 {
        let init = shards.drop_last();
        assert forall|i: int| 0 <= i < init.len() implies ids.contains(
            (#[trigger] init[i]).instance_id,
        ) by {
            assert(init[i] == shards[i]);
        }
        lemma_shard_ids_known(ids, init);
        assert(ids.contains(shards[shards.len() - 1].instance_id));
    }
}

/// A shard with a merged record is that of one of the records.
proof fn lemma_shard_key_origin(items: Seq<ItemView>, k: int) -> (i: int)
    requires
        0 <= k < shard_keys(items).len(),
    ensures
        0 <= i < items.len(),
        shard_of(items[i]) == shard_keys(items)[k],
    decreases items.len(),
{
    let init = items.drop_last();
    let before = shard_keys(init);
    let key = shard_of(items.last());
    if before.contains(key) {
        lemma_shard_key_origin(init, k)
    } else {
        let p = crate::order::insert_pos(before, key, shard_key_le()) as int;
        crate::order::lemma_insert_pos_bound(before, key, shard_key_le());
        if k == p {
            items.len() - 1
        } else {
            let k0 = if k < p {
                k
            } else {
                k - 1
            };
            assert(shard_keys(items)[k] == before[k0]);
            lemma_shard_key_origin(init, k0)
        }
    }
}

/// The instances of a merged dump are those of its inputs.
pub proof fn lemma_merged_instances(path: Seq<char>, dumps: Seq<LoadedView>, items: Seq<ItemView>)
    requires
        dumps.len() > 0,
        crate::merge_laws::all_sound(dumps, items),
    ensures
        instances(loaded_all(path, merged_parts(dumps, items))) == instances(dumps),
{
    let parts = merged_parts(dumps, items);
    let again = loaded_all(path, parts);
    let ids = loaded_ids(dumps);
    let keys = shard_keys(items);
    let named = meta_ids(parts.metas);
    lemma_loaded_ids(dumps);
    assert forall|id: u64| #[trigger] named.contains(id) == ids.contains(id) by {
        lemma_meta_ids_are(parts.metas, id);
        if named.contains(id) {
            let i = choose|i: int|
                0 <= i < parts.metas.len() && (#[trigger] parts.metas[i]).instance_id == id;
            assert(ids[i] == id);
        }
        if ids.contains(id) {
            let i = choose|i: int| 0 <= i < ids.len() && ids[i] == id;
            assert(parts.metas[i].instance_id == id);
        }
    }
    assert forall|k: int| 0 <= k < parts.shards.len() implies named.contains(
        (#[trigger] parts.shards[k]).instance_id,
    ) by {
        let i = lemma_shard_key_origin(items, k);
        assert(is_sound(dumps, items[i]));
        assert(ids.contains(dumps[items[i].dump as int].instance_id));
        assert(parts.shards[k].instance_id == keys[k].0);
    }
    lemma_shard_ids_known(named, parts.shards);
    assert(ids.contains(dumps[0].instance_id));
    assert(named.contains(dumps[0].instance_id));
    assert(instance_ids(parts.metas, parts.shards) == named);
    let got = again.map_values(|l: LoadedView| l.instance_id);
    assert(got =~= named) by {
        assert forall|i: int| 0 <= i < got.len() implies got[i] == named[i] by {
            assert(again[i] == loaded_one(path, parts, named[i]));
        }
    }
    assert forall|id: u64| instances(again).contains(id) == instances(dumps).contains(id) by {
        lemma_loaded_ids_are(dumps, id);
        assert(named.contains(id) == ids.contains(id));
    }
    assert(instances(again) =~= instances(dumps));
}

// ---------------------------------------------------------------------------
// Records.
// ---------------------------------------------------------------------------

/// A record as it was captured: where, when, of which event type, and its fields.
#[verifier::ext_equal]
pub struct Occurrence {
    pub instance_id: u64,
    pub shard_id: u32,
    pub ts_nanos: u64,
    pub event_id: u64,
    pub fields: Seq<u8>,
}

/// What was captured of a record of loaded dumps.
pub open spec fn occurrence_in(dumps: Seq<LoadedView>) -> spec_fn(ItemView) -> Occurrence {
    |item: ItemView|
        Occurrence {
            instance_id: item.key.instance_id,
            shard_id: item.key.shard_id,
            ts_nanos: item.key.ts_nanos,
            event_id: dumps[item.dump as int].schemas[item.schema_idx as int].id,
            fields: item.fields,
        }
}

/// What was captured of a run of records of loaded dumps.
pub open spec fn occurrences(dumps: Seq<LoadedView>, items: Seq<ItemView>) -> Multiset<Occurrence> {
    items.map_values(occurrence_in(dumps)).to_multiset()
}

/// All items of the streams, stream by stream.
pub open spec fn all_items(ss: Seq<Seq<ItemView>>) -> Seq<ItemView>
    decreases ss.len(),
{
    if ss.len() == 0 {
        Seq::empty()
    } else {
        all_items(ss.drop_last()) + ss.last()
    }
}

/// No two items of the streams have one key.
pub open spec fn keys_distinct(ss: Seq<Seq<ItemView>>) -> bool {
    forall|s: int, p: int, t: int, q: int|
        #![trigger ss[s][p], ss[t][q]]
        at(ss, s, p) && at(ss, t, q) && ss[s][p].key == ss[t][q].key ==> s == t && p == q
}

/// The items of the streams are those at their places.
proof fn lemma_all_items_contains(ss: Seq<Seq<ItemView>>, x: ItemView)
    ensures
        all_items(ss).contains(x) == exists|s: int, p: int|
            #![trigger ss[s][p]]
            at(ss, s, p) && ss[s][p] == x,
    decreases ss.len(),
{
    if ss.len() > 0 {
        let init = ss.drop_last();
        let n = ss.len() - 1;
        let before = all_items(init);
        let all = all_items(ss);
        lemma_all_items_contains(init, x);
        if all.contains(x) {
            let i = choose|i: int| 0 <= i < all.len() && all[i] == x;
            if i < before.len() {
                assert(before[i] == x);
                assert(before.contains(x));
                let (s, p) = choose|s: int, p: int|
                    #![trigger init[s][p]]
                    at(init, s, p) && init[s][p] == x;
                assert(at(ss, s, p) && ss[s][p] == x);
            } else {
                assert(at(ss, n, i - before.len()) && ss[n][i - before.len()] == x);
            }
        }
        if exists|s: int, p: int| #![trigger ss[s][p]] at(ss, s, p) && ss[s][p] == x {
            let (s, p) = choose|s: int, p: int| #![trigger ss[s][p]] at(ss, s, p) && ss[s][p] == x;
            if s < n {
                assert(at(init, s, p) && init[s][p] == x);
                let i = choose|i: int| 0 <= i < before.len() && before[i] == x;
                assert(all[i] == x);
            } else {
                assert(all[before.len() + p] == x);
            }
        }
    }
}

/// The items of streams with distinct keys are distinct.
proof fn lemma_all_items_distinct(ss: Seq<Seq<ItemView>>)
    requires
        keys_distinct(ss),
    ensures
        all_items(ss).no_duplicates(),
    decreases ss.len(),
{
    if ss.len() > 0 {
        let init = ss.drop_last();
        let n = ss.len() - 1;
        let before = all_items(init);
        let all = all_items(ss);
        assert(keys_distinct(init)) by {
            assert forall|s: int, p: int, t: int, q: int|
                #![trigger init[s][p], init[t][q]]
                at(init, s, p) && at(init, t, q) && init[s][p].key == init[t][q].key implies s == t
                && p == q by {
                assert(init[s][p] == ss[s][p] && init[t][q] == ss[t][q]);
                assert(at(ss, s, p) && at(ss, t, q));
            }
        }
        lemma_all_items_distinct(init);
        assert forall|i: int, j: int|
            0 <= i < all.len() && 0 <= j < all.len() && i != j implies all[i] != all[j] by {
            if all[i] == all[j] {
                let lo = if i < j {
                    i
                } else {
                    j
                };
                let hi = if i < j {
                    j
                } else {
                    i
                };
                if hi >= before.len() {
                    let q = hi - before.len();
                    assert(at(ss, n, q) && ss[n][q] == all[hi]);
                    if lo < before.len() {
                        let x = before[lo];
                        lemma_all_items_contains(init, x);
                        assert(before.contains(x));
                        let (s, p) = choose|s: int, p: int|
                            #![trigger init[s][p]]
                            at(init, s, p) && init[s][p] == x;
                        assert(at(ss, s, p) && ss[s][p] == x);
                        assert(ss[s][p].key == ss[n][q].key);
                    } else {
                        let p = lo - before.len();
                        assert(at(ss, n, p) && ss[n][p] == all[lo]);
                        assert(ss[n][p].key == ss[n][q].key);
                    }
                } else {
                    assert(before[lo] == before[hi]);
                }
            }
        }
    }
}

/// Of streams with distinct keys, the merge has every item once.
proof fn lemma_merge_has_all(ss: Seq<Seq<ItemView>>, out: Seq<ItemView>)
    requires
        keys_distinct(ss),
        is_merge(ss, out),
    ensures
        all_items(ss).to_multiset() == out.to_multiset(),
{
    let all = all_items(ss);
    lemma_all_items_distinct(ss);
    assert(out.no_duplicates()) by {
        assert forall|i: int, j: int|
            0 <= i < out.len() && 0 <= j < out.len() && i != j implies out[i] != out[j] by {
            if i < j {
                assert(key_lt(out[i].key, out[j].key));
            } else {
                assert(key_lt(out[j].key, out[i].key));
            }
        }
    }
    all.lemma_multiset_has_no_duplicates();
    out.lemma_multiset_has_no_duplicates();
    all.to_multiset_ensures();
    out.to_multiset_ensures();
    assert forall|x: ItemView| all.contains(x) == out.contains(x) by {
        lemma_all_items_contains(ss, x);
        if all.contains(x) {
            let (s, p) = choose|s: int, p: int| #![trigger ss[s][p]] at(ss, s, p) && ss[s][p] == x;
            assert(has_key(out, x.key));
            let i = choose|i: int| 0 <= i < out.len() && (#[trigger] out[i]).key == x.key;
            assert(is_first_of(ss, out[i]));
            let (t, q) = choose|t: int, q: int|
                #![trigger ss[t][q]]
                at(ss, t, q) && ss[t][q] == out[i] && first_at(ss, t, q);
            assert(ss[s][p].key == ss[t][q].key);
            assert(out[i] == x);
        }
        if out.contains(x) {
            let i = choose|i: int| 0 <= i < out.len() && out[i] == x;
            assert(is_first_of(ss, out[i]));
            let (t, q) = choose|t: int, q: int|
                #![trigger ss[t][q]]
                at(ss, t, q) && ss[t][q] == out[i] && first_at(ss, t, q);
            assert(at(ss, t, q) && ss[t][q] == x);
        }
    }
    assert forall|x: ItemView| all.to_multiset().count(x) == out.to_multiset().count(x) by {
        assert(all.contains(x) == out.contains(x));
        assert(all.contains(x) <==> all.to_multiset().count(x) > 0);
        assert(out.contains(x) <==> out.to_multiset().count(x) > 0);
    }
    assert(all.to_multiset() =~= out.to_multiset());
}

/// Each stream of loaded dumps is that of one shard of one of them, and of no other.
proof fn lemma_streams_origin(dumps: Seq<LoadedView>) -> (ds: Seq<(int, int)>)
    ensures
        ds.len() == streams(dumps).len(),
        ds.no_duplicates(),
        forall|s: int|
            0 <= s < ds.len() ==> 0 <= (#[trigger] ds[s]).0 < dumps.len() && 0 <= ds[s].1
                < dumps[ds[s].0].shards.len() && streams(dumps)[s] == stream_of(
                dumps[ds[s].0],
                ds[s].0 as nat,
                dumps[ds[s].0].shards[ds[s].1],
            ),
    decreases dumps.len(),
{
    if dumps.len() == 0 {
        Seq::empty()
    } else {
        let init = dumps.drop_last();
        let n = dumps.len() - 1;
        let before = lemma_streams_origin(init);
        let more = Seq::new(dumps[n].shards.len(), |j: int| (n, j));
        let ds = before + more;
        let ss = streams(dumps);
        assert forall|s: int| 0 <= s < ds.len() implies 0 <= (#[trigger] ds[s]).0 < dumps.len() && 0
            <= ds[s].1 < dumps[ds[s].0].shards.len() && ss[s] == stream_of(
            dumps[ds[s].0],
            ds[s].0 as nat,
            dumps[ds[s].0].shards[ds[s].1],
        ) by {
            if s < before.len() {
                assert(ds[s] == before[s]);
                assert(init[before[s].0] == dumps[before[s].0]);
                assert(ss[s] == streams(init)[s]);
            } else {
                let j = s - before.len();
                assert(ds[s] == (n, j));
                assert(ss[s] == dump_streams(dumps[n], n as nat)[j]);
            }
        }
        assert forall|s: int, t: int|
            0 <= s < ds.len() && 0 <= t < ds.len() && s != t implies ds[s] != ds[t] by {
            if s < before.len() {
                assert(ds[s] == before[s]);
            }
            if t < before.len() {
                assert(ds[t] == before[t]);
            }
        }
        ds
    }
}

/// Each recovered shard of an instance is that of one section of the instance, and of no other.
proof fn lemma_shards_origin(schemas: Seq<SchemaView>, shards: Seq<ShardView>, id: u64) -> (ks: Seq<
    int,
>)
    ensures
        ks.len() == shards_of(schemas, shards, id).len(),
        ks.no_duplicates(),
        forall|j: int|
            0 <= j < ks.len() ==> 0 <= #[trigger] ks[j] < shards.len() && shards[ks[j]].instance_id
                == id && shards_of(schemas, shards, id)[j] == shard_value(schemas, shards[ks[j]]),
    decreases shards.len(),
{
    if shards.len() == 0 {
        Seq::empty()
    } else {
        let init = shards.drop_last();
        let n = shards.len() - 1;
        let before = lemma_shards_origin(schemas, init, id);
        let old = shards_of(schemas, init, id);
        let all = shards_of(schemas, shards, id);
        assert forall|j: int| 0 <= j < before.len() implies 0 <= #[trigger] before[j] < n
            && shards[before[j]].instance_id == id && old[j] == shard_value(
            schemas,
            shards[before[j]],
        ) by {
            assert(init[before[j]] == shards[before[j]]);
        }
        if shards[n].instance_id == id {
            let x = shard_value(schemas, shards[n]);
            let p = crate::order::insert_pos(old, x, crate::model::shard_leq()) as int;
            crate::order::lemma_insert_pos_bound(old, x, crate::model::shard_leq());
            let ks = before.insert(p, n);
            assert forall|j: int| 0 <= j < ks.len() implies 0 <= #[trigger] ks[j] < shards.len()
                && shards[ks[j]].instance_id == id && all[j] == shard_value(
                schemas,
                shards[ks[j]],
            ) by {
                if j < p {
                    assert(ks[j] == before[j]);
                    assert(all[j] == old[j]);
                } else if j > p {
                    assert(ks[j] == before[j - 1]);
                    assert(all[j] == old[j - 1]);
                }
            }
            assert forall|i: int, j: int|
                0 <= i < ks.len() && 0 <= j < ks.len() && i != j implies ks[i] != ks[j] by {
                let i0 = if i < p {
                    i
                } else {
                    i - 1
                };
                let j0 = if j < p {
                    j
                } else {
                    j - 1
                };
                if i != p {
                    assert(ks[i] == before[i0]);
                }
                if j != p {
                    assert(ks[j] == before[j0]);
                }
            }
            ks
        } else {
            before
        }
    }
}

/// No two sections are of one shard of one instance.
pub open spec fn shards_distinct(shards: Seq<ShardView>) -> bool {
    forall|i: int, j: int|
        #![trigger shards[i], shards[j]]
        0 <= i < shards.len() && 0 <= j < shards.len() && shards[i].instance_id
            == shards[j].instance_id && shards[i].shard_id == shards[j].shard_id ==> i == j
}

/// The records of a loaded file have distinct keys, where its shards are distinct.
proof fn lemma_file_keys_distinct(path: Seq<char>, parts: DumpParts)
    requires
        sorted_schemas(parts.schemas).len() < 0x1_0000_0000,
        shards_ok(parts.shards),
        shards_distinct(parts.shards),
    ensures
        keys_distinct(streams(loaded_all(path, parts))),
{
    let again = loaded_all(path, parts);
    let ids = instance_ids(parts.metas, parts.shards);
    let schemas = sorted_schemas(parts.schemas);
    let ss = streams(again);
    let ds = lemma_streams_origin(again);
    crate::reload::lemma_instance_ids(parts.metas, parts.shards);
    assert forall|s: int, p: int, t: int, q: int|
        #![trigger ss[s][p], ss[t][q]]
        at(ss, s, p) && at(ss, t, q) && ss[s][p].key == ss[t][q].key implies s == t && p == q by {
        let (d, j) = ds[s];
        let (e, k) = ds[t];
        assert(again[d] == loaded_one(path, parts, ids[d]));
        assert(again[e] == loaded_one(path, parts, ids[e]));
        if d < e {
            assert(ids[d] != ids[e]);
        } else if e < d {
            assert(ids[e] != ids[d]);
        }
        let ks = lemma_shards_origin(schemas, parts.shards, ids[d]);
        let x = parts.shards[ks[j]];
        let y = parts.shards[ks[k]];
        assert(again[d].shards[j] == shard_value(schemas, x));
        assert(again[d].shards[k] == shard_value(schemas, y));
        assert(x.instance_id == y.instance_id && x.shard_id == y.shard_id);
        assert(ks[j] == ks[k]);
        assert(j == k);
        assert(ds[s] == ds[t]);
        assert(s == t);
        assert(shard_ok(x));
        lemma_shard_keys_distinct(schemas, x, p, q);
    }
}

/// Merging with de-duplication keeps every record once, and the instances: loading the merged dump
/// gives the instances of the inputs, and its records, all of them, are those of the inputs without
/// the duplicates, each of the same instance, shard, time and event, with the same fields.
///
/// The inputs must agree on the record size of each event id, and the merged dump must keep to the
/// limits of the file format.
pub proof fn law_dedup_keeps_records(
    path: Seq<char>,
    inputs: Seq<(Seq<char>, Seq<u8>)>,
    dumps: Seq<LoadedView>,
    items: Seq<ItemView>,
)
    requires
        inputs.len() > 0,
        load_many_spec(inputs) == Ok::<Seq<LoadedView>, InputError>(dumps),
        is_merge(streams(dumps), items),
        sizes_agree(dumps),
        dedup_fits(dumps, items),
    ensures
        load_spec(path, dump_bytes(dedup_sections(dumps, items))) matches Ok(again) && instances(
            again,
        ) == instances(dumps) && occurrences(again, all_items(streams(again))) == occurrences(
            dumps,
            items,
        ),
{
    let parts = merged_parts(dumps, items);
    let again = loaded_all(path, parts);
    let keys = shard_keys(items);
    lemma_dedup_loads(path, inputs, dumps, items);
    let out = lemma_dedup_merge_exists(path, inputs, dumps, items);
    lemma_dedup_records(path, inputs, dumps, items, out);
    let d = lemma_input_instance(inputs, 0);
    lemma_merged_instances(path, dumps, items);
    lemma_keys_distinct(items);
    assert(shards_distinct(parts.shards)) by {
        assert forall|i: int, j: int|
            #![trigger parts.shards[i], parts.shards[j]]
            0 <= i < parts.shards.len() && 0 <= j < parts.shards.len()
                && parts.shards[i].instance_id == parts.shards[j].instance_id
                && parts.shards[i].shard_id == parts.shards[j].shard_id implies i == j by {
            assert(keys[i] == keys[j]);
        }
    }
    crate::order::lemma_stable_sort_len(parts.schemas, schema_leq());
    lemma_file_keys_distinct(path, parts);
    lemma_merge_has_all(streams(again), out);
    lemma_map_multiset(all_items(streams(again)), out, occurrence_in(again));
    let a = out.map_values(occurrence_in(again));
    let b = items.map_values(occurrence_in(dumps));
    assert forall|i: int| 0 <= i < items.len() implies a[i] == b[i] by {
        assert(content_of(dumps, items[i]) == content_of(again, out[i]));
    }
    assert(a =~= b);
}

// ---------------------------------------------------------------------------
// Event types.
// ---------------------------------------------------------------------------

/// The event ids of the registries of loaded dumps.
pub open spec fn registered(dumps: Seq<LoadedView>) -> Set<u64> {
    Set::new(
        |id: u64|
            exists|d: int, i: int|
                #![trigger dumps[d].schemas[i]]
                0 <= d < dumps.len() && 0 <= i < dumps[d].schemas.len() && dumps[d].schemas[i].id
                    == id,
    )
}

/// A merged dump has as many event types as the inputs have event ids.
pub proof fn law_merged_types_counted(dumps: Seq<LoadedView>)
    ensures
        registered(dumps).finite(),
        union_of(dumps).len() == registered(dumps).len(),
{
    let all = union_of(dumps);
    let ids = all.map_values(|s: SchemaView| s.id);
    lemma_union_distinct(dumps);
    assert(ids.no_duplicates()) by {
        assert forall|i: int, j: int|
            0 <= i < ids.len() && 0 <= j < ids.len() && i != j implies ids[i] != ids[j] by {
            assert(all[i].id == ids[i] && all[j].id == ids[j]);
        }
    }
    ids.unique_seq_to_set();
    vstd::seq_lib::seq_to_set_is_finite(ids);
    assert forall|id: u64| ids.to_set().contains(id) == registered(dumps).contains(id) by {
        if ids.contains(id) {
            let i = choose|i: int| 0 <= i < ids.len() && ids[i] == id;
            let at = crate::merge_laws::lemma_union_member(dumps, i);
            assert(dumps[at.0].schemas[at.1].id == id);
        }
        if registered(dumps).contains(id) {
            let (d, i) = choose|d: int, i: int|
                #![trigger dumps[d].schemas[i]]
                0 <= d < dumps.len() && 0 <= i < dumps[d].schemas.len() && dumps[d].schemas[i].id
                    == id;
            crate::convert::lemma_union_ids(dumps, d, i);
            let k = choose|k: int| 0 <= k < all.len() && (#[trigger] all[k]).id == id;
            assert(ids[k] == id);
        }
    }
    assert(ids.to_set() =~= registered(dumps));
}

} // verus!
