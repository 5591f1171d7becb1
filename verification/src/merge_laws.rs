//! A merged dump converts to what its inputs convert to together.

use crate::convert::{
    conversion_schemas, conversion_table, ddl_of, footer_of, host_label, lemma_has_schema,
    lemma_sorted_ids, lemma_union_ids, row_of, union_of, views_of, with_schemas,
};
use crate::convert_laws::{
    lemma_same_conversion, lemma_sorted_distinct, lemma_sorted_twice, lemma_union_distinct,
    lemma_union_shared, lemma_views_fresh, lemma_views_shared, reads_alike,
};
use crate::fit_laws::law_union_fits;
use crate::host_laws::{least_first, lemma_dedup_label};
use crate::lookup::{
    content_of, found, found_in, lemma_found, lemma_found_in, lemma_lookup, lemma_merge_lookup,
    lemma_same_keys, lemma_sorted_found, lookup, opt_content, Content,
};
use crate::merge::{
    dedup_sections, entries_below, entries_of, first_host, in_shard, instances_sections, loaded_ids,
    merged_intern, packed_region, packed_section, packed_sections, payload_of, shard_keys,
    shard_key_le, shard_payloads, view_sections,
};
use crate::model::{
    dump_parts, instance_ids, intern_of, is_record, lemma_schema_of_id, load_many_spec, load_spec,
    loaded_all, loaded_one, record_validator, schema_of_id, shard_walk, sorted_schemas, too_large,
    with_entries, DumpParts, InputError, LoadError, LoadedView,
};
use crate::order::{
    insert_pos, lemma_insert_pos_bound, lemma_stable_sort_contains, lemma_stable_sort_len,
};
use crate::parse::{
    all_ok, bodies_of, dump_interns, dump_metas, dump_schemas, dump_shards, dump_views, p_dump,
    p_intern, p_meta, p_shard, p_view,
};
use crate::record::{law_record_round_trip, record_id, record_ts};
use crate::reload::{
    all_whole, is_whole, law_loaded_records_whole, whole_instance, whole_shard, lemma_file_lookup,
    lemma_id_insert, lemma_instance_ids, parts_lookup, payload_content, shard_ok, shards_ok,
    walk_lookup,
};
use crate::ring::{
    candidate_record, framed, lemma_doubled_from, lemma_mod_small, lemma_ring_read_concat, pow2_for,
    ring_read, valid_low, walk_from,
};
use crate::ring_laws::{framed_all, framed_len, lemma_candidate, lemma_framed_all_len};
use crate::schema::SchemaView;
use crate::stream::{
    at, dump_streams, first_at, has_key, is_first_of, is_merge, item_of, key_lt, streams, strictly_sorted,
    ItemView, Key,
};
use crate::wire::{
    dump_bytes, dump_len, intern_bytes, lemma_bodies_len_prefix, meta_bytes, registry_bytes, Error,
    InternView, MetaView, SectionView, ShardView,
};
use crate::wire_laws::{
    intern_fits, law_dump_round_trip, law_intern_round_trip, law_meta_round_trip,
    law_registry_round_trip, law_shard_round_trip, law_view_round_trip, registry_fits, str_fits,
};
use vstd::arithmetic::power2::is_pow2;
use vstd::prelude::*;
use vstd::utf8::{encode_utf8, encode_utf8_decode_utf8, encode_utf8_valid_utf8};

verus! {

// ---------------------------------------------------------------------------
// Re-packed shards.
// ---------------------------------------------------------------------------

/// What the newest of the packed records with the time and the place of the key says.
pub open spec fn lane_lookup(payloads: Seq<Seq<u8>>, key: Key) -> Option<Content>
    decreases payloads.len(),
{
    if payloads.len() == 0 {
        None
    } else if record_ts(payloads.last()) == key.ts_nanos && framed_len(payloads.drop_last())
        == key.offset {
        Some(payload_content(payloads.last()))
    } else {
        lane_lookup(payloads.drop_last(), key)
    }
}

/// No packed record stands behind the last one.
proof fn lemma_lane_bound(payloads: Seq<Seq<u8>>, key: Key)
    requires
        framed_len(payloads) <= key.offset,
    ensures
        lane_lookup(payloads, key) is None,
    decreases payloads.len(),
{
    if payloads.len() > 0 {
        lemma_lane_bound(payloads.drop_last(), key);
    }
}

/// A walk from behind the last of the packed records has under each key what the records have.
proof fn lemma_walk_lane(
    valid: spec_fn(Seq<u8>) -> bool,
    region: Seq<u8>,
    recs: Seq<Seq<u8>>,
    key: Key,
)
    requires
        framed_len(recs) <= region.len() <= 0xffff_ffff,
        ring_read(region, 0, framed_len(recs)) == framed_all(recs),
        forall|i: int| 0 <= i < recs.len() ==> (#[trigger] recs[i]).len() <= 65535 && valid(recs[i]),
    ensures
        walk_lookup(walk_from(valid, region, 0, framed_len(recs)), key) == lane_lookup(recs, key),
    decreases recs.len(),
{
    if recs.len() > 0 {
        let init = recs.drop_last();
        let last = recs.last();
        let start = framed_len(init);
        let abs = framed_len(recs);
        let fl = last.len() + 2;
        lemma_framed_all_len(init);
        crate::le::lemma_le_bytes_len(last.len(), 2);
        lemma_ring_read_concat(region, 0, start, fl);
        let a = ring_read(region, 0, start);
        let b = ring_read(region, start as int, fl);
        assert(a =~= (a + b).take(start as int));
        assert(b =~= (a + b).skip(start as int));
        assert(framed_all(recs).take(start as int) =~= framed_all(init));
        assert(framed_all(recs).skip(start as int) =~= framed(last));
        assert(last == recs[recs.len() - 1]);
        assert(abs - last.len() - 2 == start);
        lemma_candidate(region, 0, abs, last);
        assert forall|i: int| 0 <= i < init.len() implies (#[trigger] init[i]).len() <= 65535
            && valid(init[i]) by {
            assert(init[i] == recs[i]);
        }
        lemma_walk_lane(valid, region, init, key);
        lemma_mod_small(start as int, region.len() as int);
        let w = candidate_record(region, abs);
        let rest = walk_from(valid, region, 0, start);
        let all = walk_from(valid, region, 0, abs);
        assert(all == seq![w] + rest);
        assert(all.skip(1) =~= rest);
        assert(all[0] == w);
        assert(w.payload == last);
        assert(w.at == Some(start));
    }
}

/// The ring of packed records.
pub open spec fn packed_shard(shard: (u64, u32), payloads: Seq<Seq<u8>>) -> ShardView {
    ShardView {
        instance_id: shard.0,
        shard_id: shard.1,
        head: framed_all(payloads).len() as u64,
        capacity: packed_region(payloads).len() as u64,
        region: packed_region(payloads),
    }
}

/// The capacity of packed records holds them.
proof fn lemma_packed_len(payloads: Seq<Seq<u8>>)
    ensures
        packed_region(payloads).len() == pow2_for(framed_len(payloads)),
        framed_all(payloads).len() == framed_len(payloads),
        framed_len(payloads) <= pow2_for(framed_len(payloads)),
        is_pow2(pow2_for(framed_len(payloads)) as int),
{
    lemma_framed_all_len(payloads);
    assert(is_pow2(1)) by {
        reveal(is_pow2);
    }
    lemma_doubled_from(1, framed_len(payloads));
}

/// The walk of a ring of packed records has under each key what the records have.
proof fn lemma_packed_walk(
    schemas: Seq<SchemaView>,
    shard: (u64, u32),
    payloads: Seq<Seq<u8>>,
    key: Key,
)
    requires
        packed_region(payloads).len() <= 0xffff_ffff,
        packed_region(payloads).len() <= usize::MAX,
        forall|i: int|
            0 <= i < payloads.len() ==> (#[trigger] payloads[i]).len() <= 65535 && is_record(
                schemas,
                payloads[i],
            ),
    ensures
        walk_lookup(shard_walk(schemas, packed_shard(shard, payloads)), key) == lane_lookup(
            payloads,
            key,
        ),
{
    let region = packed_region(payloads);
    let n = framed_len(payloads);
    let valid = record_validator(schemas);
    lemma_packed_len(payloads);
    let got = ring_read(region, 0, n);
    assert forall|i: int| 0 <= i < n implies got[i] == framed_all(payloads)[i] by {
        lemma_mod_small(i, region.len() as int);
    }
    assert(got =~= framed_all(payloads));
    lemma_walk_lane(valid, region, payloads, key);
    assert(valid_low(n, region.len()) == 0);
}

// ---------------------------------------------------------------------------
// Re-packed records.
// ---------------------------------------------------------------------------

/// The payload of a merged record says what the record says.
proof fn lemma_payload(dumps: Seq<LoadedView>, item: ItemView)
    ensures
        payload_content(payload_of(dumps, item)) == content_of(dumps, item),
        record_ts(payload_of(dumps, item)) == item.key.ts_nanos,
        payload_of(dumps, item).len() == 16 + item.fields.len(),
{
    law_record_round_trip(
        item.key.ts_nanos,
        dumps[item.dump as int].schemas[item.schema_idx as int].id,
        item.fields,
    );
    crate::le::lemma_le_bytes_len(item.key.ts_nanos as nat, 8);
    crate::le::lemma_le_bytes_len(
        dumps[item.dump as int].schemas[item.schema_idx as int].id as nat,
        8,
    );
    assert(payload_of(dumps, item).skip(16) =~= item.fields);
}

/// The shard of a merged record.
pub open spec fn shard_of(item: ItemView) -> (u64, u32) {
    (item.key.instance_id, item.key.shard_id)
}

/// The merged records, each with its place in its re-packed shard.
pub open spec fn repacked(dumps: Seq<LoadedView>, items: Seq<ItemView>) -> Seq<ItemView>
    decreases items.len(),
{
    if items.len() == 0 {
        Seq::empty()
    } else {
        let item = items.last();
        let offset = framed_len(shard_payloads(dumps, items.drop_last(), shard_of(item)));
        repacked(dumps, items.drop_last()).push(
            ItemView { key: Key { offset: offset as u32, ..item.key }, ..item },
        )
    }
}

/// Every re-packed shard's places can be written.
pub open spec fn lanes_fit(dumps: Seq<LoadedView>, items: Seq<ItemView>) -> bool {
    forall|shard: (u64, u32)| framed_len(#[trigger] shard_payloads(dumps, items, shard)) <= 0xffff_ffff
}

/// Fewer records take up no more.
proof fn lemma_lane_grows(dumps: Seq<LoadedView>, items: Seq<ItemView>, i: int, shard: (u64, u32))
    requires
        0 <= i <= items.len(),
    ensures
        framed_len(shard_payloads(dumps, items.take(i), shard)) <= framed_len(
            shard_payloads(dumps, items, shard),
        ),
    decreases items.len(),
{
    if i < items.len() {
        let init = items.drop_last();
        assert(init.take(i) =~= items.take(i));
        lemma_lane_grows(dumps, init, i, shard);
        let before = shard_payloads(dumps, init, shard);
        if in_shard(items.last(), shard) {
            assert(before.push(payload_of(dumps, items.last())).drop_last() =~= before);
        }
    } else {
        assert(items.take(i) =~= items);
    }
}

/// Prefixes of records that fit fit.
proof fn lemma_lanes_prefix(dumps: Seq<LoadedView>, items: Seq<ItemView>)
    requires
        items.len() > 0,
        lanes_fit(dumps, items),
    ensures
        lanes_fit(dumps, items.drop_last()),
{
    let init = items.drop_last();
    assert forall|shard: (u64, u32)|
        framed_len(#[trigger] shard_payloads(dumps, init, shard)) <= 0xffff_ffff by {
        lemma_lane_grows(dumps, items, items.len() - 1, shard);
        assert(items.take(items.len() - 1) =~= init);
        assert(framed_len(shard_payloads(dumps, items, shard)) <= 0xffff_ffff);
    }
}

/// Re-packing keeps the number of records.
proof fn lemma_repacked_len(dumps: Seq<LoadedView>, items: Seq<ItemView>)
    ensures
        repacked(dumps, items).len() == items.len(),
    decreases items.len(),
{
    if items.len() > 0 {
        lemma_repacked_len(dumps, items.drop_last());
    }
}

/// Each re-packed record is the merged record at the same place, with its new place in the ring.
proof fn lemma_repacked_at(dumps: Seq<LoadedView>, items: Seq<ItemView>, i: int)
    requires
        0 <= i < items.len(),
    ensures
        repacked(dumps, items).len() == items.len(),
        repacked(dumps, items)[i] == (ItemView {
            key: Key {
                offset: framed_len(
                    shard_payloads(dumps, items.take(i), shard_of(items[i])),
                ) as u32,
                ..items[i].key
            },
            ..items[i]
        }),
    decreases items.len(),
{
    let init = items.drop_last();
    lemma_repacked_len(dumps, items);
    lemma_repacked_len(dumps, init);
    if i < items.len() - 1 {
        lemma_repacked_at(dumps, init, i);
        assert(init.take(i) =~= items.take(i));
    } else {
        assert(items.take(i) =~= init);
    }
}

/// Re-packing keeps the order of records, and each has a place of its own.
proof fn lemma_repacked_sorted(dumps: Seq<LoadedView>, items: Seq<ItemView>)
    requires
        strictly_sorted(items),
        lanes_fit(dumps, items),
    ensures
        repacked(dumps, items).len() == items.len(),
        strictly_sorted(repacked(dumps, items)),
{
    let out = repacked(dumps, items);
    lemma_repacked_len(dumps, items);
    assert forall|i: int, j: int|
        #![trigger out[i], out[j]]
        0 <= i < j < out.len() implies key_lt(out[i].key, out[j].key) by {
        lemma_repacked_at(dumps, items, i);
        lemma_repacked_at(dumps, items, j);
        assert(key_lt(items[i].key, items[j].key));
        if items[i].key.ts_nanos == items[j].key.ts_nanos && shard_of(items[i]) == shard_of(
            items[j],
        ) {
            let shard = shard_of(items[i]);
            let upto = items.take(j);
            lemma_lane_grows(dumps, upto, i + 1, shard);
            assert(upto.take(i + 1) =~= items.take(i + 1));
            assert(items.take(i + 1).drop_last() =~= items.take(i));
            let before = shard_payloads(dumps, items.take(i), shard);
            assert(before.push(payload_of(dumps, items[i])).drop_last() =~= before);
            lemma_lane_grows(dumps, items, j, shard);
            assert(framed_len(shard_payloads(dumps, items, shard)) <= 0xffff_ffff);
        }
    }
}

/// The re-packed records hold under each key what the re-packed shards have under it.
proof fn lemma_repacked_lookup(dumps: Seq<LoadedView>, items: Seq<ItemView>, key: Key)
    requires
        lanes_fit(dumps, items),
    ensures
        opt_content(dumps, found(repacked(dumps, items), key)) == lane_lookup(
            shard_payloads(dumps, items, (key.instance_id, key.shard_id)),
            key,
        ),
    decreases items.len(),
{
    let shard = (key.instance_id, key.shard_id);
    if items.len() > 0 {
        let init = items.drop_last();
        let item = items.last();
        lemma_lanes_prefix(dumps, items);
        lemma_repacked_lookup(dumps, init, key);
        let out = repacked(dumps, items);
        assert(out.drop_last() =~= repacked(dumps, init));
        let lane = shard_payloads(dumps, init, shard);
        if in_shard(item, shard) {
            assert(shard_of(item) == shard);
            assert(framed_len(shard_payloads(dumps, init, shard)) <= 0xffff_ffff);
            let pushed = lane.push(payload_of(dumps, item));
            assert(pushed.drop_last() =~= lane);
            lemma_payload(dumps, item);
            if framed_len(lane) == key.offset {
                lemma_lane_bound(lane, key);
            }
        }
    }
}

// ---------------------------------------------------------------------------
// The sections of a merged dump.
// ---------------------------------------------------------------------------

/// The bodies of two runs of sections are those of the one, then those of the other.
pub proof fn lemma_bodies_concat(a: Seq<SectionView>, b: Seq<SectionView>, kind: u16)
    ensures
        bodies_of(a + b, kind) == bodies_of(a, kind) + bodies_of(b, kind),
    decreases b.len(),
{
    if b.len() == 0 {
        assert(a + b =~= a);
        assert(bodies_of(a, kind) + bodies_of(b, kind) =~= bodies_of(a, kind));
    } else {
        assert((a + b).drop_last() =~= a + b.drop_last());
        assert((a + b).last() == b.last());
        lemma_bodies_concat(a, b.drop_last(), kind);
        if b.last().kind == kind {
            assert((bodies_of(a, kind) + bodies_of(b.drop_last(), kind)).push(b.last().body)
                =~= bodies_of(a, kind) + bodies_of(b, kind));
        }
    }
}

/// The bodies of sections of one kind.
pub proof fn lemma_bodies_uniform(sections: Seq<SectionView>, of: u16, kind: u16)
    requires
        forall|i: int| 0 <= i < sections.len() ==> (#[trigger] sections[i]).kind == of,
    ensures
        bodies_of(sections, kind) == if kind == of {
            sections.map_values(|s: SectionView| s.body)
        } else {
            Seq::empty()
        },
    decreases sections.len(),
{
    if sections.len() > 0 {
        let init = sections.drop_last();
        assert forall|i: int| 0 <= i < init.len() implies (#[trigger] init[i]).kind == of by {
            assert(init[i] == sections[i]);
        }
        lemma_bodies_uniform(init, of, kind);
        assert(sections[sections.len() - 1].kind == of);
        if kind == of {
            assert(init.map_values(|s: SectionView| s.body).push(sections.last().body)
                =~= sections.map_values(|s: SectionView| s.body));
        }
    } else {
        assert(bodies_of(sections, kind) =~= sections.map_values(|s: SectionView| s.body));
    }
}

/// Results that are all values are these values.
pub proof fn lemma_all_ok<T>(rs: Seq<Result<T, Error>>, xs: Seq<T>)
    requires
        rs.len() == xs.len(),
        forall|i: int| 0 <= i < rs.len() ==> #[trigger] rs[i] == Ok::<T, Error>(xs[i]),
    ensures
        all_ok(rs) == Ok::<Seq<T>, Error>(xs),
    decreases rs.len(),
{
    if rs.len() > 0 {
        let init = rs.drop_last();
        let xi = xs.drop_last();
        assert forall|i: int| 0 <= i < init.len() implies #[trigger] init[i] == Ok::<T, Error>(
            xi[i],
        ) by {
            assert(init[i] == rs[i]);
        }
        lemma_all_ok(init, xi);
        assert(rs[rs.len() - 1] == Ok::<T, Error>(xs[xs.len() - 1]));
        assert(xi.push(xs.last()) =~= xs);
    } else {
        assert(xs =~= Seq::<T>::empty());
    }
}

/// The metadata of the given instances.
pub open spec fn merged_metas(dumps: Seq<LoadedView>, ids: Seq<u64>) -> Seq<MetaView> {
    ids.map_values(|id: u64| MetaView { instance_id: id, host: first_host(dumps, id) })
}

/// The intern table of an instance.
pub open spec fn merged_table(dumps: Seq<LoadedView>, id: u64) -> InternView {
    InternView { instance_id: id, entries: entries_of(merged_intern(dumps, id)) }
}

/// The intern tables of the given instances that are not empty.
pub open spec fn merged_tables(dumps: Seq<LoadedView>, ids: Seq<u64>) -> Seq<InternView>
    decreases ids.len(),
{
    if ids.len() == 0 {
        Seq::empty()
    } else {
        let before = merged_tables(dumps, ids.drop_last());
        let t = merged_table(dumps, ids.last());
        if t.entries.len() == 0 {
            before
        } else {
            before.push(t)
        }
    }
}

/// The shards of the given keys.
pub open spec fn merged_shards(
    dumps: Seq<LoadedView>,
    items: Seq<ItemView>,
    keys: Seq<(u64, u32)>,
) -> Seq<ShardView> {
    keys.map_values(|k: (u64, u32)| packed_shard(k, shard_payloads(dumps, items, k)))
}

/// The parts of a merged dump.
pub open spec fn merged_parts(dumps: Seq<LoadedView>, items: Seq<ItemView>) -> DumpParts {
    DumpParts {
        schemas: union_of(dumps),
        interns: merged_tables(dumps, loaded_ids(dumps)),
        metas: merged_metas(dumps, loaded_ids(dumps)),
        views: views_of(dumps),
        shards: merged_shards(dumps, items, shard_keys(items)),
    }
}

/// How metadata is written.
pub open spec fn meta_enc() -> spec_fn(MetaView) -> Seq<u8> {
    |m: MetaView| meta_bytes(m)
}

/// How intern tables are written.
pub open spec fn intern_enc() -> spec_fn(InternView) -> Seq<u8> {
    |t: InternView| intern_bytes(t)
}

/// The bodies of the instances' sections.
proof fn lemma_instance_bodies(dumps: Seq<LoadedView>, ids: Seq<u64>)
    ensures
        bodies_of(instances_sections(dumps, ids), 3) == merged_metas(dumps, ids).map_values(
            meta_enc(),
        ),
        bodies_of(instances_sections(dumps, ids), 1) == merged_tables(dumps, ids).map_values(
            intern_enc(),
        ),
        bodies_of(instances_sections(dumps, ids), 0) == Seq::<Seq<u8>>::empty(),
        bodies_of(instances_sections(dumps, ids), 2) == Seq::<Seq<u8>>::empty(),
        bodies_of(instances_sections(dumps, ids), 4) == Seq::<Seq<u8>>::empty(),
    decreases ids.len(),
{
    let fm = meta_enc();
    let ft = intern_enc();
    if ids.len() == 0 {
        assert(merged_metas(dumps, ids).map_values(fm) =~= Seq::<Seq<u8>>::empty());
        assert(merged_tables(dumps, ids).map_values(ft) =~= Seq::<Seq<u8>>::empty());
    } else {
        let init = ids.drop_last();
        let id = ids.last();
        lemma_instance_bodies(dumps, init);
        let before = instances_sections(dumps, init);
        let t = merged_table(dumps, id);
        let m = MetaView { instance_id: id, host: first_host(dumps, id) };
        let s1 = SectionView { kind: 3, body: meta_bytes(m) };
        let s2 = SectionView { kind: 1, body: intern_bytes(t) };
        let one = before.push(s1);
        assert(one.drop_last() =~= before);
        assert(one.last() == s1);
        assert(bodies_of(one, 3) == bodies_of(before, 3).push(meta_bytes(m)));
        assert(bodies_of(one, 1) == bodies_of(before, 1));
        assert(bodies_of(one, 0) == bodies_of(before, 0));
        assert(bodies_of(one, 2) == bodies_of(before, 2));
        assert(bodies_of(one, 4) == bodies_of(before, 4));
        assert(merged_metas(dumps, ids).map_values(fm) =~= merged_metas(dumps, init).map_values(
            fm,
        ).push(meta_bytes(m)));
        if t.entries.len() == 0 {
            assert(instances_sections(dumps, ids) =~= one);
        } else {
            let two = one.push(s2);
            assert(instances_sections(dumps, ids) =~= two);
            assert(two.drop_last() =~= one);
            assert(two.last() == s2);
            assert(bodies_of(two, 1) == bodies_of(one, 1).push(intern_bytes(t)));
            assert(bodies_of(two, 3) == bodies_of(one, 3));
            assert(merged_tables(dumps, ids).map_values(ft) =~= merged_tables(
                dumps,
                init,
            ).map_values(ft).push(intern_bytes(t)));
        }
    }
}

/// The bodies of a merged dump's sections of one kind.
proof fn lemma_dedup_bodies(dumps: Seq<LoadedView>, items: Seq<ItemView>, kind: u16)
    ensures
        ({
            let registry = seq![
                SectionView { kind: 0, body: registry_bytes(union_of(dumps)) },
            ];
            let views = view_sections(views_of(dumps));
            let instances = instances_sections(dumps, loaded_ids(dumps));
            let packed = packed_sections(dumps, items, shard_keys(items));
            bodies_of(dedup_sections(dumps, items), kind) == bodies_of(registry, kind) + bodies_of(
                views,
                kind,
            ) + bodies_of(instances, kind) + bodies_of(packed, kind)
        }),
{
    let registry = seq![SectionView { kind: 0, body: registry_bytes(union_of(dumps)) }];
    let views = view_sections(views_of(dumps));
    let instances = instances_sections(dumps, loaded_ids(dumps));
    let packed = packed_sections(dumps, items, shard_keys(items));
    lemma_bodies_concat(registry + views + instances, packed, kind);
    lemma_bodies_concat(registry + views, instances, kind);
    lemma_bodies_concat(registry, views, kind);
}

/// The limits of the file format that the merged dump must keep to: its counts, the sizes of its
/// shards, and the interned strings, where text in place of bytes that are not valid UTF-8 can be
/// longer than they were.
pub open spec fn dedup_fits(dumps: Seq<LoadedView>, items: Seq<ItemView>) -> bool {
    &&& dedup_sections(dumps, items).len() < 0x1_0000
    &&& dump_len(dedup_sections(dumps, items)) <= usize::MAX
    &&& union_of(dumps).len() < 0x1_0000_0000
    &&& forall|id: u64| intern_fits(#[trigger] merged_table(dumps, id))
    &&& forall|shard: (u64, u32)|
        packed_region(#[trigger] shard_payloads(dumps, items, shard)).len() <= 0xffff_ffff
}

/// Everything that the merged dump holds can be framed.
spec fn frames_fit(dumps: Seq<LoadedView>, items: Seq<ItemView>) -> bool {
    &&& dedup_fits(dumps, items)
    &&& registry_fits(union_of(dumps))
    &&& forall|id: u64| str_fits(#[trigger] first_host(dumps, id))
}

/// A merged dump's shards are no longer than the dump.
proof fn lemma_packed_fits(dumps: Seq<LoadedView>, items: Seq<ItemView>, k: int)
    requires
        frames_fit(dumps, items),
        0 <= k < shard_keys(items).len(),
    ensures
        packed_region(shard_payloads(dumps, items, shard_keys(items)[k])).len() <= usize::MAX,
{
    let keys = shard_keys(items);
    let all = dedup_sections(dumps, items);
    let packed = packed_sections(dumps, items, keys);
    let i = all.len() - packed.len() + k;
    assert(all[i] == packed[k]);
    lemma_bodies_len_prefix(all, i + 1);
    assert(all.take(i + 1).drop_last() =~= all.take(i));
    assert(packed[k] == packed_section(keys[k], shard_payloads(dumps, items, keys[k])));
    crate::le::lemma_le_bytes_len(keys[k].0 as nat, 8);
}

/// Reading the view sets of a merged dump gives those of the inputs.
pub proof fn lemma_dedup_views(dumps: Seq<LoadedView>, items: Seq<ItemView>)
    ensures
        dump_views(dedup_sections(dumps, items)) == Ok::<Seq<Seq<char>>, Error>(views_of(dumps)),
{
    let all = dedup_sections(dumps, items);
    let views = views_of(dumps);
    let registry = seq![SectionView { kind: 0, body: registry_bytes(union_of(dumps)) }];
    let vs = view_sections(views);
    let packed = packed_sections(dumps, items, shard_keys(items));
    lemma_instance_bodies(dumps, loaded_ids(dumps));
    lemma_dedup_bodies(dumps, items, 4);
    lemma_bodies_uniform(registry, 0, 4);
    lemma_bodies_uniform(vs, 4, 4);
    lemma_bodies_uniform(packed, 2, 4);
    let bv = bodies_of(all, 4);
    assert(bv =~= vs.map_values(|s: SectionView| s.body));
    let rs = bv.map_values(|b: Seq<u8>| p_view(b));
    assert forall|i: int| 0 <= i < rs.len() implies #[trigger] rs[i] == Ok::<Seq<char>, Error>(
        views[i],
    ) by {
        assert(bv[i] == vs[i].body);
        assert(vs[i].body == encode_utf8(views[i]));
        law_view_round_trip(views[i]);
    }
    lemma_all_ok(rs, views);
}

/// Reading the sections of a merged dump gives its parts.
proof fn lemma_dedup_parts(dumps: Seq<LoadedView>, items: Seq<ItemView>)
    requires
        frames_fit(dumps, items),
    ensures
        dump_parts(dedup_sections(dumps, items)) == Ok::<DumpParts, Error>(
            merged_parts(dumps, items),
        ),
{
    let all = dedup_sections(dumps, items);
    let ids = loaded_ids(dumps);
    let keys = shard_keys(items);
    let registry = seq![SectionView { kind: 0, body: registry_bytes(union_of(dumps)) }];
    let vs = view_sections(views_of(dumps));
    let instances = instances_sections(dumps, ids);
    let packed = packed_sections(dumps, items, keys);
    lemma_instance_bodies(dumps, ids);
    lemma_dedup_bodies(dumps, items, 0);
    lemma_dedup_bodies(dumps, items, 1);
    lemma_dedup_bodies(dumps, items, 2);
    lemma_dedup_bodies(dumps, items, 3);
    lemma_dedup_bodies(dumps, items, 4);
    lemma_bodies_uniform(registry, 0, 0);
    lemma_bodies_uniform(registry, 0, 1);
    lemma_bodies_uniform(registry, 0, 2);
    lemma_bodies_uniform(registry, 0, 3);
    lemma_bodies_uniform(registry, 0, 4);
    lemma_bodies_uniform(vs, 4, 0);
    lemma_bodies_uniform(vs, 4, 1);
    lemma_bodies_uniform(vs, 4, 2);
    lemma_bodies_uniform(vs, 4, 3);
    lemma_bodies_uniform(vs, 4, 4);
    lemma_bodies_uniform(packed, 2, 0);
    lemma_bodies_uniform(packed, 2, 1);
    lemma_bodies_uniform(packed, 2, 2);
    lemma_bodies_uniform(packed, 2, 3);
    lemma_bodies_uniform(packed, 2, 4);

    assert(bodies_of(all, 0)[0] == registry_bytes(union_of(dumps)));
    law_registry_round_trip(union_of(dumps));
    assert(dump_schemas(all) == Ok::<Seq<SchemaView>, Error>(union_of(dumps)));

    let metas = merged_metas(dumps, ids);
    let bm = bodies_of(all, 3);
    assert(bm =~= metas.map_values(meta_enc()));
    assert(dump_metas(all) == Ok::<Seq<MetaView>, Error>(metas)) by {
        let rs = bm.map_values(|b: Seq<u8>| p_meta(b));
        assert forall|i: int| 0 <= i < rs.len() implies #[trigger] rs[i] == Ok::<MetaView, Error>(
            metas[i],
        ) by {
            assert(bm[i] == meta_bytes(metas[i]));
            assert(str_fits(first_host(dumps, ids[i])));
            law_meta_round_trip(metas[i]);
        }
        lemma_all_ok(rs, metas);
    }

    let tables = merged_tables(dumps, ids);
    let bt = bodies_of(all, 1);
    assert(bt =~= tables.map_values(intern_enc()));
    lemma_tables_of(dumps, ids);
    assert(dump_interns(all) == Ok::<Seq<InternView>, Error>(tables)) by {
        let rs = bt.map_values(|b: Seq<u8>| p_intern(b));
        assert forall|i: int| 0 <= i < rs.len() implies #[trigger] rs[i] == Ok::<InternView, Error>(
            tables[i],
        ) by {
            assert(bt[i] == intern_bytes(tables[i]));
            assert(tables[i] == merged_table(dumps, tables[i].instance_id));
            law_intern_round_trip(tables[i]);
        }
        lemma_all_ok(rs, tables);
    }

    lemma_dedup_views(dumps, items);

    let shards = merged_shards(dumps, items, keys);
    let bs = bodies_of(all, 2);
    assert(bs =~= packed.map_values(|s: SectionView| s.body));
    assert(dump_shards(all) == Ok::<Seq<ShardView>, Error>(shards)) by {
        let rs = bs.map_values(|b: Seq<u8>| p_shard(b));
        assert forall|i: int| 0 <= i < rs.len() implies #[trigger] rs[i] == Ok::<ShardView, Error>(
            shards[i],
        ) by {
            let payloads = shard_payloads(dumps, items, keys[i]);
            assert(bs[i] == packed[i].body);
            assert(packed[i] == packed_section(keys[i], payloads));
            lemma_packed_fits(dumps, items, i);
            law_shard_round_trip(
                keys[i].0,
                keys[i].1,
                framed_all(payloads).len() as u64,
                packed_region(payloads),
            );
            assert(shards[i] == packed_shard(keys[i], payloads));
        }
        lemma_all_ok(rs, shards);
    }
}

/// Each intern table of a merged dump is that of its instance.
proof fn lemma_tables_of(dumps: Seq<LoadedView>, ids: Seq<u64>)
    ensures
        forall|i: int|
            0 <= i < merged_tables(dumps, ids).len() ==> (#[trigger] merged_tables(dumps, ids)[i])
                == merged_table(dumps, merged_tables(dumps, ids)[i].instance_id),
    decreases ids.len(),
{
    if ids.len() > 0 {
        lemma_tables_of(dumps, ids.drop_last());
        let before = merged_tables(dumps, ids.drop_last());
        let after = merged_tables(dumps, ids);
        assert forall|i: int| 0 <= i < after.len() implies (#[trigger] after[i]) == merged_table(
            dumps,
            after[i].instance_id,
        ) by {
            if i < before.len() {
                assert(after[i] == before[i]);
            }
        }
    }
}

// ---------------------------------------------------------------------------
// Loading a merged dump.
// ---------------------------------------------------------------------------

/// The entries of a map with ids below `n`, put into an empty map, are the map's own.
proof fn lemma_entries_map(map: Map<u32, Seq<char>>, n: nat)
    requires
        n <= 0x1_0000_0000,
    ensures
        with_entries(Map::empty(), entries_below(map, n)) == map.restrict(
            Set::new(|id: u32| id < n),
        ),
    decreases n,
{
    let got = with_entries(Map::empty(), entries_below(map, n));
    if n == 0 {
        assert(got =~= map.restrict(Set::new(|id: u32| id < n)));
    } else {
        let id = (n - 1) as u32;
        let before = entries_below(map, (n - 1) as nat);
        lemma_entries_map(map, (n - 1) as nat);
        if map.dom().contains(id) {
            let e = (id, encode_utf8(map[id]));
            assert(before.push(e).drop_last() =~= before);
            encode_utf8_valid_utf8(map[id]);
            encode_utf8_decode_utf8(map[id]);
        }
        assert(got =~= map.restrict(Set::new(|id: u32| id < n)));
    }
}

/// The intern table of an instance reads back as its strings.
proof fn lemma_table_map(dumps: Seq<LoadedView>, id: u64)
    ensures
        with_entries(Map::empty(), merged_table(dumps, id).entries) == merged_intern(dumps, id),
{
    let map = merged_intern(dumps, id);
    lemma_entries_map(map, 0x1_0000_0000);
    assert(map.restrict(Set::new(|id: u32| id < 0x1_0000_0000)) =~= map);
}

/// The strings of an instance in a merged dump are those of the instance over all inputs.
pub proof fn lemma_merged_intern(dumps: Seq<LoadedView>, ids: Seq<u64>, id: u64)
    requires
        crate::reload::ids_distinct(ids),
    ensures
        intern_of(merged_tables(dumps, ids), id) == if ids.contains(id) {
            merged_intern(dumps, id)
        } else {
            Map::empty()
        },
    decreases ids.len(),
{
    if ids.len() > 0 {
        let init = ids.drop_last();
        let n = ids.len() - 1;
        assert(crate::reload::ids_distinct(init)) by {
            assert forall|i: int, j: int|
                #![trigger init[i], init[j]]
                0 <= i < j < init.len() implies init[i] != init[j] by {
                assert(init[i] == ids[i] && init[j] == ids[j]);
            }
        }
        lemma_merged_intern(dumps, init, id);
        let t = merged_table(dumps, ids[n]);
        let before = merged_tables(dumps, init);
        if ids[n] == id {
            lemma_table_map(dumps, id);
            assert(!init.contains(id)) by {
                if init.contains(id) {
                    let i = choose|i: int| 0 <= i < init.len() && init[i] == id;
                    assert(ids[i] != ids[n]);
                }
            }
            assert(ids.contains(id));
        } else if ids.contains(id) {
            let i = choose|i: int| 0 <= i < ids.len() && ids[i] == id;
            assert(init[i] == id);
        } else if init.contains(id) {
            let i = choose|i: int| 0 <= i < init.len() && init[i] == id;
            assert(ids[i] == id);
        }
        if t.entries.len() > 0 {
            assert(before.push(t).drop_last() =~= before);
        }
    }
}

/// The instances of the inputs are distinct, and each input's is there.
pub proof fn lemma_loaded_ids(dumps: Seq<LoadedView>)
    ensures
        crate::reload::ids_distinct(loaded_ids(dumps)),
        forall|i: int|
            0 <= i < dumps.len() ==> loaded_ids(dumps).contains((#[trigger] dumps[i]).instance_id),
    decreases dumps.len(),
{
    if dumps.len() > 0 {
        let init = dumps.drop_last();
        lemma_loaded_ids(init);
        lemma_id_insert(loaded_ids(init), dumps.last().instance_id);
        assert forall|i: int| 0 <= i < dumps.len() implies loaded_ids(dumps).contains(
            (#[trigger] dumps[i]).instance_id,
        ) by {
            if i < init.len() {
                assert(init[i] == dumps[i]);
            }
        }
    }
}

/// Shards that are addressable are not too large.
pub proof fn lemma_not_too_large(shards: Seq<ShardView>)
    requires
        shards_ok(shards),
    ensures
        too_large(shards) is None,
    decreases shards.len(),
{
    if shards.len() > 0 {
        let init = shards.drop_last();
        assert(shards_ok(init)) by {
            assert forall|i: int| 0 <= i < init.len() implies shard_ok(#[trigger] init[i]) by {
                assert(init[i] == shards[i]);
            }
        }
        lemma_not_too_large(init);
        assert(shard_ok(shards[shards.len() - 1]));
    }
}

/// A schema that adding gives was there or was added.
pub proof fn lemma_with_schemas_member(known: Seq<SchemaView>, more: Seq<SchemaView>, i: int)
    requires
        0 <= i < with_schemas(known, more).len(),
    ensures
        known.contains(with_schemas(known, more)[i]) || more.contains(with_schemas(known, more)[i]),
    decreases more.len(),
{
    if more.len() == 0 {
        assert(known.contains(known[i]));
    } else {
        let init = more.drop_last();
        let before = with_schemas(known, init);
        let s = with_schemas(known, more)[i];
        if i < before.len() {
            lemma_with_schemas_member(known, init, i);
            assert(before[i] == s);
            if init.contains(s) {
                let j = choose|j: int| 0 <= j < init.len() && init[j] == s;
                assert(more[j] == s);
            }
        } else {
            assert(more[more.len() - 1] == s);
        }
    }
}

/// A schema of the union is one of an input.
pub proof fn lemma_union_member(dumps: Seq<LoadedView>, i: int) -> (at: (int, int))
    requires
        0 <= i < union_of(dumps).len(),
    ensures
        0 <= at.0 < dumps.len(),
        0 <= at.1 < dumps[at.0].schemas.len(),
        dumps[at.0].schemas[at.1] == union_of(dumps)[i],
    decreases dumps.len(),
{
    let init = dumps.drop_last();
    let s = union_of(dumps)[i];
    lemma_with_schemas_member(union_of(init), dumps.last().schemas, i);
    if dumps.last().schemas.contains(s) {
        let j = choose|j: int|
            0 <= j < dumps.last().schemas.len() && dumps.last().schemas[j] == s;
        (dumps.len() - 1, j)
    } else {
        let j = choose|j: int| 0 <= j < union_of(init).len() && union_of(init)[j] == s;
        let at = lemma_union_member(init, j);
        assert(init[at.0] == dumps[at.0]);
        at
    }
}

/// Event types of one id have one record size over all inputs.
pub open spec fn sizes_agree(dumps: Seq<LoadedView>) -> bool {
    forall|a: int, i: int, b: int, j: int|
        #![trigger dumps[a].schemas[i], dumps[b].schemas[j]]
        0 <= a < dumps.len() && 0 <= b < dumps.len() && 0 <= i < dumps[a].schemas.len() && 0 <= j
            < dumps[b].schemas.len() && dumps[a].schemas[i].id == dumps[b].schemas[j].id
            ==> dumps[a].schemas[i].record_size == dumps[b].schemas[j].record_size
}

/// A record is one of its dump's registry, and one that a ring can hold.
pub open spec fn is_sound(dumps: Seq<LoadedView>, item: ItemView) -> bool {
    &&& item.dump < dumps.len()
    &&& dumps[item.dump as int].instance_id == item.key.instance_id
    &&& item.schema_idx < dumps[item.dump as int].schemas.len()
    &&& item.fields.len() == dumps[item.dump as int].schemas[item.schema_idx as int].record_size
    &&& 16 + item.fields.len() <= 65535
}

/// Every merged record is.
pub open spec fn all_sound(dumps: Seq<LoadedView>, items: Seq<ItemView>) -> bool {
    forall|i: int| 0 <= i < items.len() ==> is_sound(dumps, #[trigger] items[i])
}

/// The payload of a merged record is a record of the union of registries.
proof fn lemma_payload_is_record(dumps: Seq<LoadedView>, item: ItemView)
    requires
        sizes_agree(dumps),
        is_sound(dumps, item),
    ensures
        payload_of(dumps, item).len() <= 65535,
        is_record(sorted_schemas(union_of(dumps)), payload_of(dumps, item)),
{
    let d = item.dump as int;
    let i = item.schema_idx as int;
    let id = dumps[d].schemas[i].id;
    let all = union_of(dumps);
    let sorted = sorted_schemas(all);
    lemma_payload(dumps, item);
    lemma_union_ids(dumps, d, i);
    lemma_sorted_ids(all, id);
    lemma_has_schema(sorted, id);
    lemma_schema_of_id(sorted, id);
    let k = schema_of_id(sorted, id)->0 as int;
    assert(record_id(payload_of(dumps, item)) == id) by {
        assert(payload_content(payload_of(dumps, item)).id == id);
    }
    lemma_stable_sort_contains(all, crate::model::schema_leq(), sorted[k]);
    assert(sorted.contains(sorted[k]));
    let u = choose|u: int| 0 <= u < all.len() && all[u] == sorted[k];
    let at = lemma_union_member(dumps, u);
    assert(dumps[at.0].schemas[at.1].id == dumps[d].schemas[i].id);
}

/// The payloads of a shard are records of the union of registries.
proof fn lemma_lane_records(dumps: Seq<LoadedView>, items: Seq<ItemView>, shard: (u64, u32))
    requires
        sizes_agree(dumps),
        all_sound(dumps, items),
    ensures
        forall|i: int|
            0 <= i < shard_payloads(dumps, items, shard).len() ==> (#[trigger] shard_payloads(
                dumps,
                items,
                shard,
            )[i]).len() <= 65535 && is_record(
                sorted_schemas(union_of(dumps)),
                shard_payloads(dumps, items, shard)[i],
            ),
    decreases items.len(),
{
    if items.len() > 0 {
        let init = items.drop_last();
        assert(all_sound(dumps, init)) by {
            assert forall|i: int| 0 <= i < init.len() implies is_sound(
                dumps,
                #[trigger] init[i],
            ) by {
                assert(init[i] == items[i]);
            }
        }
        lemma_lane_records(dumps, init, shard);
        assert(is_sound(dumps, items[items.len() - 1]));
        lemma_payload_is_record(dumps, items.last());
        let before = shard_payloads(dumps, init, shard);
        let after = shard_payloads(dumps, items, shard);
        assert forall|i: int| 0 <= i < after.len() implies (#[trigger] after[i]).len() <= 65535
            && is_record(sorted_schemas(union_of(dumps)), after[i]) by {
            if i < before.len() {
                assert(after[i] == before[i]);
            }
        }
    }
}

/// Shards that occur once have under a key what the shard of the key has.
proof fn lemma_merged_lookup(
    schemas: Seq<SchemaView>,
    dumps: Seq<LoadedView>,
    items: Seq<ItemView>,
    keys: Seq<(u64, u32)>,
    key: Key,
)
    requires
        keys.no_duplicates(),
    ensures
        parts_lookup(schemas, merged_shards(dumps, items, keys), key) == if keys.contains(
            (key.instance_id, key.shard_id),
        ) {
            walk_lookup(
                shard_walk(
                    schemas,
                    packed_shard(
                        (key.instance_id, key.shard_id),
                        shard_payloads(dumps, items, (key.instance_id, key.shard_id)),
                    ),
                ),
                key,
            )
        } else {
            None
        },
    decreases keys.len(),
{
    let shard = (key.instance_id, key.shard_id);
    if keys.len() > 0 {
        let init = keys.drop_last();
        let n = keys.len() - 1;
        assert(init.no_duplicates()) by {
            assert forall|i: int, j: int|
                0 <= i < init.len() && 0 <= j < init.len() && i != j implies init[i] != init[j] by {
                assert(init[i] == keys[i] && init[j] == keys[j]);
            }
        }
        lemma_merged_lookup(schemas, dumps, items, init, key);
        let all = merged_shards(dumps, items, keys);
        assert(all.drop_last() =~= merged_shards(dumps, items, init));
        assert(all.last() == packed_shard(keys[n], shard_payloads(dumps, items, keys[n])));
        if keys[n] == shard {
            assert(keys.contains(shard));
            if init.contains(shard) {
                let i = choose|i: int| 0 <= i < init.len() && init[i] == shard;
                assert(keys[i] == keys[n]);
            }
        } else if keys.contains(shard) {
            let i = choose|i: int| 0 <= i < keys.len() && keys[i] == shard;
            assert(init[i] == shard);
        } else if init.contains(shard) {
            let i = choose|i: int| 0 <= i < init.len() && init[i] == shard;
            assert(keys[i] == shard);
        }
    }
}

/// Each shard with a merged record is listed once.
pub proof fn lemma_keys_distinct(items: Seq<ItemView>)
    ensures
        shard_keys(items).no_duplicates(),
    decreases items.len(),
{
    if items.len() > 0 {
        let before = shard_keys(items.drop_last());
        let key = shard_of(items.last());
        lemma_keys_distinct(items.drop_last());
        if !before.contains(key) {
            let p = insert_pos(before, key, shard_key_le()) as int;
            lemma_insert_pos_bound(before, key, shard_key_le());
            let all = before.insert(p, key);
            assert forall|i: int, j: int|
                0 <= i < all.len() && 0 <= j < all.len() && i != j implies all[i] != all[j] by {
                let i0 = if i < p {
                    i
                } else {
                    i - 1
                };
                let j0 = if j < p {
                    j
                } else {
                    j - 1
                };
                if i != p {
                    assert(all[i] == before[i0]);
                    assert(before.contains(before[i0]));
                }
                if j != p {
                    assert(all[j] == before[j0]);
                    assert(before.contains(before[j0]));
                }
            }
        }
    }
}

/// The instances of a merged dump have under each key what the re-packed shards have.
proof fn lemma_merged_file_lookup(
    path: Seq<char>,
    dumps: Seq<LoadedView>,
    items: Seq<ItemView>,
    key: Key,
)
    requires
        frames_fit(dumps, items),
        sizes_agree(dumps),
        all_sound(dumps, items),
    ensures
        lookup(loaded_all(path, merged_parts(dumps, items)), key) == lane_lookup(
            shard_payloads(dumps, items, (key.instance_id, key.shard_id)),
            key,
        ),
{
    let parts = merged_parts(dumps, items);
    let keys = shard_keys(items);
    let schemas = sorted_schemas(parts.schemas);
    let shard = (key.instance_id, key.shard_id);
    lemma_stable_sort_len(parts.schemas, crate::model::schema_leq());
    lemma_merged_shards_ok(dumps, items);
    lemma_file_lookup(path, parts, key);
    lemma_keys_distinct(items);
    lemma_merged_lookup(schemas, dumps, items, keys, key);
    if keys.contains(shard) {
        let k = choose|k: int| 0 <= k < keys.len() && keys[k] == shard;
        lemma_packed_fits(dumps, items, k);
        lemma_lane_records(dumps, items, shard);
        assert(packed_region(shard_payloads(dumps, items, shard)).len() <= 0xffff_ffff);
        lemma_packed_walk(schemas, shard, shard_payloads(dumps, items, shard), key);
    } else {
        crate::merge::lemma_no_payloads(dumps, items, shard);
    }
}

/// The shards of a merged dump are addressable.
proof fn lemma_merged_shards_ok(dumps: Seq<LoadedView>, items: Seq<ItemView>)
    requires
        frames_fit(dumps, items),
    ensures
        shards_ok(merged_shards(dumps, items, shard_keys(items))),
{
    let keys = shard_keys(items);
    let shards = merged_shards(dumps, items, keys);
    assert forall|i: int| 0 <= i < shards.len() implies shard_ok(#[trigger] shards[i]) by {
        assert(shards[i] == packed_shard(keys[i], shard_payloads(dumps, items, keys[i])));
        assert(packed_region(shard_payloads(dumps, items, keys[i])).len() <= 0xffff_ffff);
    }
}

/// An item of the streams of loaded dumps is a record of one of their shards.
pub proof fn lemma_stream_item(dumps: Seq<LoadedView>, s: int, p: int) -> (d: (int, int))
    requires
        at(streams(dumps), s, p),
    ensures
        0 <= d.0 < dumps.len(),
        0 <= d.1 < dumps[d.0].shards.len(),
        p < dumps[d.0].shards[d.1].recs.len(),
        streams(dumps)[s][p] == item_of(
            dumps[d.0],
            d.0 as nat,
            dumps[d.0].shards[d.1],
            dumps[d.0].shards[d.1].recs[p],
        ),
    decreases dumps.len(),
{
    let init = dumps.drop_last();
    let n = dumps.len() - 1;
    let before = streams(init);
    if s < before.len() {
        assert(streams(dumps)[s] == before[s]);
        let d = lemma_stream_item(init, s, p);
        assert(init[d.0] == dumps[d.0]);
        d
    } else {
        let j = s - before.len();
        assert(streams(dumps)[s] == dump_streams(dumps.last(), n as nat)[j]);
        (n, j)
    }
}

/// The merged records of dumps whose records are whole are sound.
pub proof fn lemma_sound(dumps: Seq<LoadedView>, items: Seq<ItemView>)
    requires
        all_whole(dumps),
        is_merge(streams(dumps), items),
    ensures
        all_sound(dumps, items),
{
    let ss = streams(dumps);
    assert forall|i: int| 0 <= i < items.len() implies is_sound(dumps, #[trigger] items[i]) by {
        assert(is_first_of(ss, items[i]));
        let (s, p) = choose|s: int, p: int|
            #![trigger ss[s][p]]
            at(ss, s, p) && ss[s][p] == items[i] && first_at(ss, s, p);
        let d = lemma_stream_item(dumps, s, p);
        assert(whole_instance(dumps[d.0]));
        assert(whole_shard(dumps[d.0].schemas, dumps[d.0].shards[d.1]));
        assert(is_whole(dumps[d.0].schemas, dumps[d.0].shards[d.1].recs[p]));
    }
}

/// Every record of a merge decodes to the same with its own dump's interned strings as with those
/// of its instance over all inputs.
pub open spec fn strings_agree(dumps: Seq<LoadedView>, items: Seq<ItemView>) -> bool {
    let schemas = conversion_schemas(dumps);
    forall|i: int|
        0 <= i < items.len() ==> reads_alike(
            schemas[row_of(dumps, schemas, items[i]).schema_idx as int],
            (#[trigger] items[i]).fields,
            dumps[items[i].dump as int].intern,
            merged_intern(dumps, items[i].key.instance_id),
        )
}

/// Places in shards that fit can be written.
proof fn lemma_lanes_fit(dumps: Seq<LoadedView>, items: Seq<ItemView>)
    requires
        dedup_fits(dumps, items),
    ensures
        lanes_fit(dumps, items),
{
    assert forall|shard: (u64, u32)|
        framed_len(#[trigger] shard_payloads(dumps, items, shard)) <= 0xffff_ffff by {
        assert(packed_region(shard_payloads(dumps, items, shard)).len() <= 0xffff_ffff);
        lemma_packed_len(shard_payloads(dumps, items, shard));
    }
}

/// A dump merged with de-duplication can be loaded: what its instances hold.
pub proof fn lemma_dedup_loads(
    path: Seq<char>,
    inputs: Seq<(Seq<char>, Seq<u8>)>,
    dumps: Seq<LoadedView>,
    items: Seq<ItemView>,
)
    requires
        load_many_spec(inputs) == Ok::<Seq<LoadedView>, InputError>(dumps),
        dedup_fits(dumps, items),
    ensures
        load_spec(path, dump_bytes(dedup_sections(dumps, items))) == Ok::<
            Seq<LoadedView>,
            LoadError,
        >(loaded_all(path, merged_parts(dumps, items))),
        p_dump(dump_bytes(dedup_sections(dumps, items))) matches Ok(d) && d.sections
            == dedup_sections(dumps, items),
        dump_parts(dedup_sections(dumps, items)) == Ok::<DumpParts, Error>(
            merged_parts(dumps, items),
        ),
        shards_ok(merged_parts(dumps, items).shards),
        union_of(dumps).len() < 0x1_0000_0000,
        forall|i: int|
            0 <= i < loaded_all(path, merged_parts(dumps, items)).len() ==> (
            #[trigger] loaded_all(path, merged_parts(dumps, items))[i]) == loaded_one(
                path,
                merged_parts(dumps, items),
                instance_ids(
                    merged_parts(dumps, items).metas,
                    merged_parts(dumps, items).shards,
                )[i],
            ),
{
    let parts = merged_parts(dumps, items);
    law_union_fits(inputs, dumps);
    assert(frames_fit(dumps, items));
    law_dump_round_trip(dedup_sections(dumps, items));
    lemma_dedup_parts(dumps, items);
    lemma_merged_shards_ok(dumps, items);
    lemma_not_too_large(parts.shards);
}

/// The records of a dump merged with de-duplication have a global order.
pub proof fn lemma_dedup_merge_exists(
    path: Seq<char>,
    inputs: Seq<(Seq<char>, Seq<u8>)>,
    dumps: Seq<LoadedView>,
    items: Seq<ItemView>,
) -> (out: Seq<ItemView>)
    requires
        load_many_spec(inputs) == Ok::<Seq<LoadedView>, InputError>(dumps),
        is_merge(streams(dumps), items),
        sizes_agree(dumps),
        dedup_fits(dumps, items),
    ensures
        is_merge(streams(loaded_all(path, merged_parts(dumps, items))), out),
{
    let again = loaded_all(path, merged_parts(dumps, items));
    let ss = streams(again);
    law_union_fits(inputs, dumps);
    law_loaded_records_whole(inputs);
    lemma_sound(dumps, items);
    lemma_lanes_fit(dumps, items);
    let packed = repacked(dumps, items);
    lemma_repacked_sorted(dumps, items);
    let out = packed.map_values(|x: ItemView| found_in(ss, x.key)->0);
    assert forall|key: Key| #[trigger] found(packed, key) is Some == found_in(ss, key) is Some by {
        lemma_lookup(again, key);
        lemma_merged_file_lookup(path, dumps, items, key);
        lemma_repacked_lookup(dumps, items, key);
    }
    assert forall|i: int| 0 <= i < out.len() implies (#[trigger] out[i]).key == packed[i].key
        && is_first_of(ss, out[i]) by {
        lemma_sorted_found(packed, i);
        assert(found(packed, packed[i].key) is Some);
        lemma_found_in(ss, packed[i].key);
    }
    assert forall|i: int, j: int|
        #![trigger out[i], out[j]]
        0 <= i < j < out.len() implies key_lt(out[i].key, out[j].key) by {
        assert(key_lt(packed[i].key, packed[j].key));
    }
    assert forall|s: int, p: int| #![trigger ss[s][p]] at(ss, s, p) implies has_key(
        out,
        ss[s][p].key,
    ) by {
        let key = ss[s][p].key;
        lemma_found_in(ss, key);
        assert(found(packed, key) is Some);
        lemma_found(packed, key);
        let i = choose|i: int| 0 <= i < packed.len() && (#[trigger] packed[i]).key == key;
        assert(out[i].key == key);
    }
    out
}

/// Each record of a dump merged with de-duplication, in the global order, is that of the inputs at
/// the same place: of the same time, instance and shard, with the same event and fields, and with
/// the strings of its instance over all inputs.
pub proof fn lemma_dedup_records(
    path: Seq<char>,
    inputs: Seq<(Seq<char>, Seq<u8>)>,
    dumps: Seq<LoadedView>,
    items: Seq<ItemView>,
    out: Seq<ItemView>,
)
    requires
        load_many_spec(inputs) == Ok::<Seq<LoadedView>, InputError>(dumps),
        is_merge(streams(dumps), items),
        sizes_agree(dumps),
        dedup_fits(dumps, items),
        is_merge(streams(loaded_all(path, merged_parts(dumps, items))), out),
    ensures
        all_sound(dumps, items),
        out.len() == items.len(),
        forall|i: int|
            #![trigger items[i]]
            #![trigger out[i]]
            0 <= i < items.len() ==> {
                &&& items[i].key.ts_nanos == out[i].key.ts_nanos
                &&& items[i].key.instance_id == out[i].key.instance_id
                &&& items[i].key.shard_id == out[i].key.shard_id
                &&& content_of(dumps, items[i]) == content_of(
                    loaded_all(path, merged_parts(dumps, items)),
                    out[i],
                )
                &&& out[i].dump < loaded_all(path, merged_parts(dumps, items)).len()
                &&& loaded_all(path, merged_parts(dumps, items))[out[i].dump as int].intern
                    == merged_intern(dumps, items[i].key.instance_id)
            },
{
    let parts = merged_parts(dumps, items);
    let again = loaded_all(path, parts);
    let ids = instance_ids(parts.metas, parts.shards);
    lemma_dedup_loads(path, inputs, dumps, items);
    law_union_fits(inputs, dumps);
    law_loaded_records_whole(inputs);
    lemma_sound(dumps, items);
    lemma_lanes_fit(dumps, items);
    let packed = repacked(dumps, items);
    lemma_repacked_sorted(dumps, items);
    assert forall|key: Key| #[trigger] found(out, key) is Some == found(packed, key) is Some by {
        lemma_merge_lookup(again, out, key);
        lemma_merged_file_lookup(path, dumps, items, key);
        lemma_repacked_lookup(dumps, items, key);
    }
    lemma_same_keys(out, packed);
    assert forall|i: int| #![trigger items[i]] #![trigger out[i]] 0 <= i < items.len() implies {
        &&& items[i].key.ts_nanos == out[i].key.ts_nanos
        &&& items[i].key.instance_id == out[i].key.instance_id
        &&& items[i].key.shard_id == out[i].key.shard_id
        &&& content_of(dumps, items[i]) == content_of(again, out[i])
        &&& out[i].dump < again.len()
        &&& again[out[i].dump as int].intern == merged_intern(dumps, items[i].key.instance_id)
    } by {
        let key = out[i].key;
        lemma_repacked_at(dumps, items, i);
        lemma_sorted_found(out, i);
        lemma_sorted_found(packed, i);
        lemma_merge_lookup(again, out, key);
        lemma_merged_file_lookup(path, dumps, items, key);
        lemma_repacked_lookup(dumps, items, key);
        assert(content_of(dumps, packed[i]) == content_of(dumps, items[i]));
        let ss = streams(again);
        assert(is_first_of(ss, out[i]));
        let (s, p) = choose|s: int, p: int|
            #![trigger ss[s][p]]
            at(ss, s, p) && ss[s][p] == out[i] && first_at(ss, s, p);
        let at = lemma_stream_item(again, s, p);
        let d = out[i].dump as int;
        assert(again[d] == loaded_one(path, parts, ids[d]));
        lemma_loaded_ids(dumps);
        assert(is_sound(dumps, items[i]));
        assert(loaded_ids(dumps).contains(dumps[items[i].dump as int].instance_id));
        lemma_merged_intern(dumps, loaded_ids(dumps), key.instance_id);
    }
}

/// A dump merged with de-duplication can be loaded, and converting it gives the same table and the
/// same query DDL as converting the inputs together.
///
/// The inputs must agree on the record size of each event id, and a record must not read an
/// interned string that its own dump lacks and another dump of its instance has. The merged dump
/// must keep to the limits of the file format.
///
/// The footer is the same too where a host label is given. Without one it has that of the first
/// instance, and loading orders the instances of one file by their ids: it is the same where the
/// first instance of the inputs is the least.
pub proof fn law_dedup_converts_alike(
    path: Seq<char>,
    inputs: Seq<(Seq<char>, Seq<u8>)>,
    dumps: Seq<LoadedView>,
    items: Seq<ItemView>,
)
    requires
        load_many_spec(inputs) == Ok::<Seq<LoadedView>, InputError>(dumps),
        is_merge(streams(dumps), items),
        sizes_agree(dumps),
        strings_agree(dumps, items),
        dedup_fits(dumps, items),
    ensures
        load_spec(path, dump_bytes(dedup_sections(dumps, items))) matches Ok(again) && ddl_of(again)
            == ddl_of(dumps) && (forall|out: Seq<ItemView>| #[trigger]
            is_merge(streams(again), out) ==> conversion_table(again, out) == conversion_table(
                dumps,
                items,
            )) && (forall|host: Seq<char>|
            host.len() > 0 || least_first(dumps) ==> footer_of(
                #[trigger] host_label(again, host),
                ddl_of(again),
            ) == footer_of(host_label(dumps, host), ddl_of(dumps))),
{
    let parts = merged_parts(dumps, items);
    let again = loaded_all(path, parts);
    let schemas = conversion_schemas(dumps);
    lemma_dedup_loads(path, inputs, dumps, items);
    lemma_instance_ids(parts.metas, parts.shards);
    lemma_union_distinct(dumps);
    lemma_sorted_distinct(union_of(dumps));
    lemma_union_shared(again, schemas);
    lemma_sorted_twice(union_of(dumps));
    assert(conversion_schemas(again) == schemas);
    lemma_views_shared(again, parts.views);
    lemma_views_fresh(dumps);
    assert forall|out: Seq<ItemView>| #[trigger]
        is_merge(streams(again), out) implies conversion_table(again, out) == conversion_table(
        dumps,
        items,
    ) by {
        lemma_dedup_records(path, inputs, dumps, items, out);
        lemma_same_conversion(dumps, items, again, out);
    }
    law_loaded_records_whole(inputs);
    lemma_sound(dumps, items);
    if least_first(dumps) {
        lemma_dedup_label(path, dumps, items);
    }
}

} // verus!
