//! What the instances of one loaded file have under each key, in terms of the file's shards.

use crate::lookup::{
    instance_lookup, lookup, or_else, rec_lookup, shard_lookup, shards_lookup, Content,
};
use crate::model::{
    dump_parts, instance_ids, lemma_schema_of_id, lemma_shard_walk, lemma_walked_loc,
    load_many_spec, load_spec, loaded_all, loaded_one, loc_leq, loc_rec, meta_ids, schema_leq,
    shard_leq, shard_value, shard_walk, shards_of, sorted_schemas, too_large, walked_loc,
    walked_locs, with_shard_ids, wrapped_payload, DumpParts, LoadedView, RecView, ShardRecsView,
    WRAPPED,
};
use crate::order::{
    id_insert, id_le, insert_by, insert_pos, lemma_insert_pos_bound, lemma_insert_split,
    lemma_stable_sort_len,
};
use crate::record::{record_id, record_ts};
use crate::le::{lemma_le_value_bound, lemma_pow256_values};
use crate::parse::{lemma_schemas_len, lemma_shards_regions, p_dump};
use crate::ring::{
    candidate, is_candidate, ring_read, suffix_len, valid_low, walk_from, WalkedView,
};
use crate::ring_laws::law_walk_places_distinct;
use crate::schema::SchemaView;
use crate::stream::Key;
use crate::wire::{MetaView, ShardView};
use vstd::arithmetic::power2::is_pow2;
use vstd::prelude::*;

verus! {

/// The place of a walked record as a locator writes it.
pub open spec fn place(w: WalkedView) -> u32 {
    match w.at {
        Some(p) => p as u32,
        None => WRAPPED,
    }
}

/// The walked record has the time and the place of the key.
pub open spec fn is_at(w: WalkedView, key: Key) -> bool {
    record_ts(w.payload) == key.ts_nanos && place(w) == key.offset
}

/// What a payload says.
pub open spec fn payload_content(payload: Seq<u8>) -> Content {
    Content { id: record_id(payload), fields: payload.skip(16) }
}

/// What the first walked record with the time and the place of the key says.
pub open spec fn walk_lookup(walk: Seq<WalkedView>, key: Key) -> Option<Content>
    decreases walk.len(),
{
    if walk.len() == 0 {
        None
    } else if is_at(walk[0], key) {
        Some(payload_content(walk[0].payload))
    } else {
        walk_lookup(walk.skip(1), key)
    }
}

/// What one shard of a file has under a key.
pub open spec fn part_lookup(schemas: Seq<SchemaView>, shard: ShardView, key: Key) -> Option<
    Content,
> {
    if shard.instance_id == key.instance_id && shard.shard_id == key.shard_id {
        walk_lookup(shard_walk(schemas, shard), key)
    } else {
        None
    }
}

/// What the shards of a file have under a key.
pub open spec fn parts_lookup(schemas: Seq<SchemaView>, shards: Seq<ShardView>, key: Key) -> Option<
    Content,
>
    decreases shards.len(),
{
    if shards.len() == 0 {
        None
    } else {
        or_else(
            parts_lookup(schemas, shards.drop_last(), key),
            part_lookup(schemas, shards.last(), key),
        )
    }
}

/// A shard whose region is as long as it says, and addressable.
pub open spec fn shard_ok(shard: ShardView) -> bool {
    shard.region.len() == shard.capacity && shard.capacity <= 0xffff_ffff
}

/// Every shard of a run is.
pub open spec fn shards_ok(shards: Seq<ShardView>) -> bool {
    forall|i: int| 0 <= i < shards.len() ==> shard_ok(#[trigger] shards[i])
}

// ---------------------------------------------------------------------------
// One shard.
// ---------------------------------------------------------------------------

/// What is looked up among records is what one of them says; nothing is where none matches.
proof fn lemma_rec_lookup(schemas: Seq<SchemaView>, recs: Seq<RecView>, key: Key)
    ensures
        match rec_lookup(schemas, recs, key) {
            Some(c) => exists|i: int|
                0 <= i < recs.len() && (#[trigger] recs[i]).ts_nanos == key.ts_nanos
                    && recs[i].offset == key.offset && c == (Content {
                    id: schemas[recs[i].schema_idx as int].id,
                    fields: recs[i].fields,
                }),
            None => forall|i: int|
                0 <= i < recs.len() ==> (#[trigger] recs[i]).ts_nanos != key.ts_nanos
                    || recs[i].offset != key.offset,
        },
    decreases recs.len(),
{
    if recs.len() > 0 {
        let init = recs.drop_last();
        lemma_rec_lookup(schemas, init, key);
        let n = recs.len() - 1;
        assert(recs[n] == recs.last());
        match rec_lookup(schemas, init, key) {
            Some(c) => {
                let i = choose|i: int|
                    0 <= i < init.len() && (#[trigger] init[i]).ts_nanos == key.ts_nanos
                        && init[i].offset == key.offset && c == (Content {
                        id: schemas[init[i].schema_idx as int].id,
                        fields: init[i].fields,
                    });
                assert(recs[i] == init[i]);
            },
            None => {
                assert forall|i: int| 0 <= i < n implies (#[trigger] recs[i]).ts_nanos
                    != key.ts_nanos || recs[i].offset != key.offset by {
                    assert(init[i] == recs[i]);
                }
            },
        }
    }
}

/// What is looked up in a walk is what one of its records says; nothing is where none matches.
pub proof fn lemma_walk_lookup(walk: Seq<WalkedView>, key: Key)
    ensures
        match walk_lookup(walk, key) {
            Some(c) => exists|i: int|
                0 <= i < walk.len() && is_at(#[trigger] walk[i], key) && c == payload_content(
                    walk[i].payload,
                ),
            None => forall|i: int| 0 <= i < walk.len() ==> !is_at(#[trigger] walk[i], key),
        },
    decreases walk.len(),
{
    if walk.len() > 0 && !is_at(walk[0], key) {
        let tail = walk.skip(1);
        lemma_walk_lookup(tail, key);
        match walk_lookup(tail, key) {
            Some(c) => {
                let i = choose|i: int|
                    0 <= i < tail.len() && is_at(#[trigger] tail[i], key) && c == payload_content(
                        tail[i].payload,
                    );
                assert(walk[i + 1] == tail[i]);
            },
            None => {
                assert forall|i: int| 0 <= i < walk.len() implies !is_at(#[trigger] walk[i], key) by {
                    if i > 0 {
                        assert(tail[i - 1] == walk[i]);
                    }
                }
            },
        }
    }
}

/// The records of a walked shard have distinct places.
proof fn lemma_places(schemas: Seq<SchemaView>, shard: ShardView, i: int, j: int)
    requires
        schemas.len() < 0x1_0000_0000,
        shard_ok(shard),
        0 <= i < shard_walk(schemas, shard).len(),
        0 <= j < shard_walk(schemas, shard).len(),
        place(shard_walk(schemas, shard)[i]) == place(shard_walk(schemas, shard)[j]),
    ensures
        i == j,
{
    let walk = shard_walk(schemas, shard);
    let head = (shard.head as usize) as nat;
    let capacity = (shard.capacity as usize) as nat;
    lemma_walked_loc(schemas, shard, i);
    lemma_walked_loc(schemas, shard, j);
    assert(capacity > 0) by {
        reveal(is_pow2);
    }
    law_walk_places_distinct(
        crate::model::record_validator(schemas),
        shard.region,
        valid_low(head, capacity),
        head,
    );
    if i < j {
        assert(walk[i].at != walk[j].at);
    } else if j < i {
        assert(walk[j].at != walk[i].at);
    }
}

/// A record of a loaded shard is one of the walk of the shard.
proof fn lemma_rec_origin(schemas: Seq<SchemaView>, shard: ShardView, i: int) -> (k: int)
    requires
        0 <= i < shard_value(schemas, shard).recs.len(),
    ensures
        0 <= k < shard_walk(schemas, shard).len(),
        shard_value(schemas, shard).recs[i] == loc_rec(
            schemas,
            shard.region,
            wrapped_payload(shard_walk(schemas, shard)),
            walked_loc(schemas, shard_walk(schemas, shard)[k]),
        ),
{
    let walk = shard_walk(schemas, shard);
    let locs = walked_locs(schemas, walk);
    let sorted = locs.sort_by(loc_leq());
    crate::model::lemma_loc_order();
    locs.lemma_sort_by_ensures(loc_leq());
    assert(sorted.contains(sorted[i]));
    assert(locs.contains(sorted[i]));
    let k = choose|k: int| 0 <= k < locs.len() && locs[k] == sorted[i];
    assert(locs[k] == walked_loc(schemas, walk[k]));
    k
}

/// The records of a loaded shard have distinct places.
pub proof fn lemma_shard_keys_distinct(schemas: Seq<SchemaView>, shard: ShardView, i: int, j: int)
    requires
        schemas.len() < 0x1_0000_0000,
        shard_ok(shard),
        0 <= i < shard_value(schemas, shard).recs.len(),
        0 <= j < shard_value(schemas, shard).recs.len(),
        shard_value(schemas, shard).recs[i].offset == shard_value(schemas, shard).recs[j].offset,
    ensures
        i == j,
{
    let walk = shard_walk(schemas, shard);
    let locs = walked_locs(schemas, walk);
    let sorted = locs.sort_by(loc_leq());
    crate::model::lemma_loc_order();
    locs.lemma_sort_by_ensures(loc_leq());
    assert forall|a: int, b: int|
        0 <= a < locs.len() && 0 <= b < locs.len() && a != b implies locs[a] != locs[b] by {
        if locs[a] == locs[b] {
            assert(place(walk[a]) == locs[a].offset && place(walk[b]) == locs[b].offset);
            lemma_places(schemas, shard, a, b);
        }
    }
    locs.lemma_multiset_has_no_duplicates();
    sorted.lemma_multiset_has_no_duplicates_conv();
    assert(sorted.contains(sorted[i]) && sorted.contains(sorted[j]));
    assert(locs.contains(sorted[i]) && locs.contains(sorted[j]));
    let a = choose|a: int| 0 <= a < locs.len() && locs[a] == sorted[i];
    let b = choose|b: int| 0 <= b < locs.len() && locs[b] == sorted[j];
    assert(place(walk[a]) == locs[a].offset && place(walk[b]) == locs[b].offset);
    lemma_places(schemas, shard, a, b);
}

/// What a loaded shard has under a time and a place is what the walk of the shard has there.
pub proof fn lemma_shard_lookup(schemas: Seq<SchemaView>, shard: ShardView, key: Key)
    requires
        schemas.len() < 0x1_0000_0000,
        shard_ok(shard),
    ensures
        rec_lookup(schemas, shard_value(schemas, shard).recs, key) == walk_lookup(
            shard_walk(schemas, shard),
            key,
        ),
{
    let walk = shard_walk(schemas, shard);
    let locs = walked_locs(schemas, walk);
    let sorted = locs.sort_by(loc_leq());
    let wrapped = wrapped_payload(walk);
    let recs = shard_value(schemas, shard).recs;
    crate::model::lemma_loc_order();
    locs.lemma_sort_by_ensures(loc_leq());
    lemma_rec_lookup(schemas, recs, key);
    lemma_walk_lookup(walk, key);
    if let Some(c) = rec_lookup(schemas, recs, key) {
        let i = choose|i: int|
            0 <= i < recs.len() && (#[trigger] recs[i]).ts_nanos == key.ts_nanos && recs[i].offset
                == key.offset && c == (Content {
                id: schemas[recs[i].schema_idx as int].id,
                fields: recs[i].fields,
            });
        let k = lemma_rec_origin(schemas, shard, i);
        lemma_walked_loc(schemas, shard, k);
        lemma_shard_walk(schemas, shard);
        assert(crate::model::walked_ok(
            crate::model::record_validator(schemas),
            shard.region,
            walk[k],
        ));
        lemma_schema_of_id(schemas, record_id(walk[k].payload));
        assert(is_at(walk[k], key));
        assert(c == payload_content(walk[k].payload));
        let m = choose|m: int|
            0 <= m < walk.len() && is_at(#[trigger] walk[m], key) && walk_lookup(walk, key)
                == Some(payload_content(walk[m].payload));
        lemma_places(schemas, shard, k, m);
    } else if walk_lookup(walk, key) is Some {
        let m = choose|m: int|
            0 <= m < walk.len() && is_at(#[trigger] walk[m], key) && walk_lookup(walk, key)
                == Some(payload_content(walk[m].payload));
        lemma_walked_loc(schemas, shard, m);
        let loc = walked_loc(schemas, walk[m]);
        assert(locs[m] == loc);
        assert(locs.to_multiset().count(loc) > 0) by {
            locs.to_multiset_ensures();
            assert(locs.contains(loc));
        }
        assert(sorted.contains(loc)) by {
            sorted.to_multiset_ensures();
        }
        let i = choose|i: int| 0 <= i < sorted.len() && sorted[i] == loc;
        assert(recs[i] == loc_rec(schemas, shard.region, wrapped, loc));
        assert(false);
    }
}

// ---------------------------------------------------------------------------
// The shards of one instance.
// ---------------------------------------------------------------------------

/// Of two runs of shards, the first is looked through first.
proof fn lemma_shards_concat(
    schemas: Seq<SchemaView>,
    a: Seq<ShardRecsView>,
    b: Seq<ShardRecsView>,
    key: Key,
)
    ensures
        shards_lookup(schemas, a + b, key) == or_else(
            shards_lookup(schemas, a, key),
            shards_lookup(schemas, b, key),
        ),
    decreases b.len(),
{
    if b.len() == 0 {
        assert(a + b =~= a);
    } else {
        assert((a + b).drop_last() =~= a + b.drop_last());
        assert((a + b).last() == b.last());
        lemma_shards_concat(schemas, a, b.drop_last(), key);
    }
}

/// Shards ascend by id.
spec fn shards_ascend(shards: Seq<ShardRecsView>) -> bool {
    forall|i: int, j: int|
        #![trigger shards[i], shards[j]]
        0 <= i < j < shards.len() ==> shards[i].shard_id <= shards[j].shard_id
}

/// Shards with other ids than the key's have nothing under it.
proof fn lemma_shards_none(schemas: Seq<SchemaView>, shards: Seq<ShardRecsView>, key: Key)
    requires
        forall|i: int| 0 <= i < shards.len() ==> (#[trigger] shards[i]).shard_id != key.shard_id,
    ensures
        shards_lookup(schemas, shards, key) is None,
    decreases shards.len(),
{
    if shards.len() > 0 {
        let init = shards.drop_last();
        assert forall|i: int| 0 <= i < init.len() implies (#[trigger] init[i]).shard_id
            != key.shard_id by {
            assert(init[i] == shards[i]);
        }
        lemma_shards_none(schemas, init, key);
        assert(shards[shards.len() - 1].shard_id != key.shard_id);
    }
}

/// A shard put in its place is looked through after those that were there.
proof fn lemma_shards_insert(
    schemas: Seq<SchemaView>,
    shards: Seq<ShardRecsView>,
    sh: ShardRecsView,
    key: Key,
)
    requires
        shards_ascend(shards),
    ensures
        shards_ascend(insert_by(shards, sh, shard_leq())),
        shards_lookup(schemas, insert_by(shards, sh, shard_leq()), key) == or_else(
            shards_lookup(schemas, shards, key),
            shard_lookup(schemas, sh, key),
        ),
{
    let p = insert_pos(shards, sh, shard_leq()) as int;
    let all = insert_by(shards, sh, shard_leq());
    lemma_insert_split(shards, sh, shard_leq());
    let a = shards.take(p);
    let b = shards.skip(p);
    let leq = shard_leq();
    assert forall|i: int| p <= i < shards.len() implies (#[trigger] shards[i]).shard_id
        > sh.shard_id by {
        assert(!leq(shards[p], sh));
        if i > p {
            assert(shards[p].shard_id <= shards[i].shard_id);
        }
    }
    assert forall|i: int| 0 <= i < p implies (#[trigger] shards[i]).shard_id <= sh.shard_id by {
        assert(leq(shards[i], sh));
    }
    assert forall|i: int, j: int|
        #![trigger all[i], all[j]]
        0 <= i < j < all.len() implies all[i].shard_id <= all[j].shard_id by {
        let i0 = if i < p {
            i
        } else {
            i - 1
        };
        let j0 = if j < p {
            j
        } else {
            j - 1
        };
        if i != p && j != p {
            assert(all[i] == shards[i0] && all[j] == shards[j0]);
        } else if i == p {
            assert(all[j] == shards[j0]);
        } else {
            assert(all[i] == shards[i0]);
        }
    }
    assert(shards =~= a + b);
    assert(all =~= a + seq![sh] + b);
    lemma_shards_concat(schemas, a, b, key);
    lemma_shards_concat(schemas, a + seq![sh], b, key);
    lemma_shards_concat(schemas, a, seq![sh], key);
    let one = seq![sh];
    assert(shards_lookup(schemas, one.drop_last(), key) is None);
    assert(one.last() == sh);
    assert(shards_lookup(schemas, one, key) == shard_lookup(schemas, sh, key));
    if sh.shard_id == key.shard_id {
        assert forall|i: int| 0 <= i < b.len() implies (#[trigger] b[i]).shard_id != key.shard_id by {
            assert(b[i] == shards[p + i]);
        }
        lemma_shards_none(schemas, b, key);
    }
}

/// What the loaded shards of an instance have under a key is what the file's shards have.
proof fn lemma_shards_of_lookup(schemas: Seq<SchemaView>, shards: Seq<ShardView>, key: Key)
    requires
        schemas.len() < 0x1_0000_0000,
        shards_ok(shards),
    ensures
        shards_ascend(shards_of(schemas, shards, key.instance_id)),
        shards_lookup(schemas, shards_of(schemas, shards, key.instance_id), key) == parts_lookup(
            schemas,
            shards,
            key,
        ),
    decreases shards.len(),
{
    if shards.len() > 0 {
        let init = shards.drop_last();
        let last = shards.last();
        assert(last == shards[shards.len() - 1]);
        assert(shards_ok(init)) by {
            assert forall|i: int| 0 <= i < init.len() implies shard_ok(#[trigger] init[i]) by {
                assert(init[i] == shards[i]);
            }
        }
        lemma_shards_of_lookup(schemas, init, key);
        if last.instance_id == key.instance_id {
            lemma_shards_insert(
                schemas,
                shards_of(schemas, init, key.instance_id),
                shard_value(schemas, last),
                key,
            );
            lemma_shard_lookup(schemas, last, key);
        }
    }
}

// ---------------------------------------------------------------------------
// The instances of one file.
// ---------------------------------------------------------------------------

/// Ids occur once each.
pub open spec fn ids_distinct(ids: Seq<u64>) -> bool {
    forall|i: int, j: int|
        #![trigger ids[i], ids[j]]
        0 <= i < j < ids.len() ==> ids[i] != ids[j]
}

/// Putting an id in keeps ids distinct and those that were there.
pub proof fn lemma_id_insert(ids: Seq<u64>, id: u64)
    requires
        ids_distinct(ids),
    ensures
        ids_distinct(id_insert(ids, id)),
        forall|x: u64| #[trigger] id_insert(ids, id).contains(x) <==> ids.contains(x) || x == id,
{
    let p = insert_pos(ids, id, id_le()) as int;
    let all = id_insert(ids, id);
    lemma_insert_pos_bound(ids, id, id_le());
    if !ids.contains(id) {
        assert forall|x: u64| #[trigger] all.contains(x) <==> ids.contains(x) || x == id by {
            if all.contains(x) && x != id {
                let i = choose|i: int| 0 <= i < all.len() && all[i] == x;
                assert(ids[if i < p {
                    i
                } else {
                    i - 1
                }] == x);
            }
            if ids.contains(x) {
                let i = choose|i: int| 0 <= i < ids.len() && ids[i] == x;
                assert(all[if i < p {
                    i
                } else {
                    i + 1
                }] == x);
            }
            assert(all[p] == id);
        }
        assert forall|i: int, j: int|
            #![trigger all[i], all[j]]
            0 <= i < j < all.len() implies all[i] != all[j] by {
            let i0 = if i < p {
                i
            } else {
                i - 1
            };
            let j0 = if j < p {
                j
            } else {
                j - 1
            };
            if i != p && j != p {
                assert(all[i] == ids[i0] && all[j] == ids[j0]);
            } else if i == p {
                assert(all[j] == ids[j0]);
            } else {
                assert(all[i] == ids[i0]);
            }
        }
    }
}

/// The instances that metadata names are distinct, and each is named.
pub proof fn lemma_meta_ids(metas: Seq<MetaView>)
    ensures
        ids_distinct(meta_ids(metas)),
        forall|i: int|
            0 <= i < metas.len() ==> meta_ids(metas).contains((#[trigger] metas[i]).instance_id),
    decreases metas.len(),
{
    if metas.len() > 0 {
        let init = metas.drop_last();
        lemma_meta_ids(init);
        lemma_id_insert(meta_ids(init), metas.last().instance_id);
        assert forall|i: int| 0 <= i < metas.len() implies meta_ids(metas).contains(
            (#[trigger] metas[i]).instance_id,
        ) by {
            if i < init.len() {
                assert(init[i] == metas[i]);
            }
        }
    }
}

/// Putting the instances of shards in keeps ids distinct; each shard's instance is there then, and
/// so is each that was there.
pub proof fn lemma_shard_ids(ids: Seq<u64>, shards: Seq<ShardView>)
    requires
        ids_distinct(ids),
    ensures
        ids_distinct(with_shard_ids(ids, shards)),
        forall|i: int|
            0 <= i < shards.len() ==> with_shard_ids(ids, shards).contains(
                (#[trigger] shards[i]).instance_id,
            ),
        forall|x: u64| ids.contains(x) ==> #[trigger] with_shard_ids(ids, shards).contains(x),
    decreases shards.len(),
{
    if shards.len() > 0 {
        let init = shards.drop_last();
        lemma_shard_ids(ids, init);
        lemma_id_insert(with_shard_ids(ids, init), shards.last().instance_id);
        assert forall|i: int| 0 <= i < shards.len() implies with_shard_ids(ids, shards).contains(
            (#[trigger] shards[i]).instance_id,
        ) by {
            if i < init.len() {
                assert(init[i] == shards[i]);
            }
        }
    }
}

/// Shards of other instances have nothing under a key.
proof fn lemma_parts_none(schemas: Seq<SchemaView>, shards: Seq<ShardView>, key: Key)
    requires
        forall|i: int| 0 <= i < shards.len() ==> (#[trigger] shards[i]).instance_id != key.instance_id,
    ensures
        parts_lookup(schemas, shards, key) is None,
    decreases shards.len(),
{
    if shards.len() > 0 {
        let init = shards.drop_last();
        assert forall|i: int| 0 <= i < init.len() implies (#[trigger] init[i]).instance_id
            != key.instance_id by {
            assert(init[i] == shards[i]);
        }
        lemma_parts_none(schemas, init, key);
        assert(shards[shards.len() - 1].instance_id != key.instance_id);
    }
}

/// Of loaded instances, only the key's own has anything under it.
proof fn lemma_lookup_ids(path: Seq<char>, parts: DumpParts, ids: Seq<u64>, key: Key)
    requires
        ids_distinct(ids),
    ensures
        lookup(ids.map_values(|id: u64| loaded_one(path, parts, id)), key) == if ids.contains(
            key.instance_id,
        ) {
            instance_lookup(loaded_one(path, parts, key.instance_id), key)
        } else {
            None
        },
    decreases ids.len(),
{
    let dumps = ids.map_values(|id: u64| loaded_one(path, parts, id));
    if ids.len() > 0 {
        let init = ids.drop_last();
        assert(ids_distinct(init)) by {
            assert forall|i: int, j: int|
                #![trigger init[i], init[j]]
                0 <= i < j < init.len() implies init[i] != init[j] by {
                assert(init[i] == ids[i] && init[j] == ids[j]);
            }
        }
        lemma_lookup_ids(path, parts, init, key);
        assert(init.map_values(|id: u64| loaded_one(path, parts, id)) =~= dumps.drop_last());
        let n = ids.len() - 1;
        assert(dumps.last() == loaded_one(path, parts, ids[n]));
        if init.contains(key.instance_id) {
            let i = choose|i: int| 0 <= i < init.len() && init[i] == key.instance_id;
            assert(ids[i] == key.instance_id);
            assert(ids[i] != ids[n]);
        }
        if ids.contains(key.instance_id) && ids[n] != key.instance_id {
            let i = choose|i: int| 0 <= i < ids.len() && ids[i] == key.instance_id;
            assert(init[i] == key.instance_id);
        }
        if ids[n] == key.instance_id {
            assert(ids.contains(key.instance_id));
        }
    }
}

/// The instances of a file are distinct, and each shard's instance is one of them.
pub proof fn lemma_instance_ids(metas: Seq<MetaView>, shards: Seq<ShardView>)
    ensures
        ids_distinct(instance_ids(metas, shards)),
        instance_ids(metas, shards).len() > 0,
        forall|i: int|
            0 <= i < shards.len() ==> instance_ids(metas, shards).contains(
                (#[trigger] shards[i]).instance_id,
            ),
{
    lemma_meta_ids(metas);
    lemma_shard_ids(meta_ids(metas), shards);
    let ids = with_shard_ids(meta_ids(metas), shards);
    if ids.len() == 0 && shards.len() > 0 {
        assert(ids.contains(shards[0].instance_id));
    }
}

/// What the instances of a loaded file have under a key is what the file's shards have.
pub proof fn lemma_file_lookup(path: Seq<char>, parts: DumpParts, key: Key)
    requires
        sorted_schemas(parts.schemas).len() < 0x1_0000_0000,
        shards_ok(parts.shards),
    ensures
        lookup(loaded_all(path, parts), key) == parts_lookup(
            sorted_schemas(parts.schemas),
            parts.shards,
            key,
        ),
{
    let ids = instance_ids(parts.metas, parts.shards);
    let schemas = sorted_schemas(parts.schemas);
    lemma_instance_ids(parts.metas, parts.shards);
    lemma_lookup_ids(path, parts, ids, key);
    lemma_shards_of_lookup(schemas, parts.shards, key);
    if !ids.contains(key.instance_id) {
        assert forall|i: int| 0 <= i < parts.shards.len() implies (
        #[trigger] parts.shards[i]).instance_id != key.instance_id by {
            assert(ids.contains(parts.shards[i].instance_id));
        }
        lemma_parts_none(schemas, parts.shards, key);
    }
}

// ---------------------------------------------------------------------------
// Loaded records are whole.
// ---------------------------------------------------------------------------

/// A record is one of the registry, and one that a ring can hold.
pub open spec fn is_whole(schemas: Seq<SchemaView>, r: RecView) -> bool {
    &&& r.schema_idx < schemas.len()
    &&& r.fields.len() == schemas[r.schema_idx as int].record_size
    &&& 16 + r.fields.len() <= 65535
}

/// Every record of a shard is.
pub open spec fn whole_shard(schemas: Seq<SchemaView>, sh: ShardRecsView) -> bool {
    forall|i: int| 0 <= i < sh.recs.len() ==> is_whole(schemas, #[trigger] sh.recs[i])
}

/// Every record of an instance is.
pub open spec fn whole_instance(l: LoadedView) -> bool {
    forall|j: int| 0 <= j < l.shards.len() ==> whole_shard(l.schemas, #[trigger] l.shards[j])
}

/// Every record of loaded dumps is.
pub open spec fn all_whole(dumps: Seq<LoadedView>) -> bool {
    forall|d: int| 0 <= d < dumps.len() ==> whole_instance(#[trigger] dumps[d])
}

/// A walked record is no longer than its suffix can say.
proof fn lemma_walk_sizes(
    valid: spec_fn(Seq<u8>) -> bool,
    region: Seq<u8>,
    low: nat,
    abs: nat,
    i: int,
)
    requires
        0 <= i < walk_from(valid, region, low, abs).len(),
    ensures
        walk_from(valid, region, low, abs)[i].payload.len() <= 65535,
    decreases abs,
{
    if is_candidate(region, low, abs) && valid(candidate(region, abs)) {
        let start = (abs - 2 - suffix_len(region, abs)) as nat;
        let rest = walk_from(valid, region, low, start);
        let all = walk_from(valid, region, low, abs);
        if i > 0 {
            assert(all[i] == rest[i - 1]);
            lemma_walk_sizes(valid, region, low, start, i - 1);
        } else {
            lemma_le_value_bound(ring_read(region, abs - 2, 2));
            lemma_pow256_values();
        }
    } else {
        lemma_walk_sizes(valid, region, low, (abs - 1) as nat, i);
    }
}

/// The records of a loaded shard are whole.
proof fn lemma_whole_shard(schemas: Seq<SchemaView>, shard: ShardView)
    requires
        schemas.len() < 0x1_0000_0000,
        shard_ok(shard),
    ensures
        whole_shard(schemas, shard_value(schemas, shard)),
{
    let sh = shard_value(schemas, shard);
    let walk = shard_walk(schemas, shard);
    assert forall|i: int| 0 <= i < sh.recs.len() implies is_whole(schemas, #[trigger] sh.recs[i]) by {
        let k = lemma_rec_origin(schemas, shard, i);
        lemma_walked_loc(schemas, shard, k);
        lemma_shard_walk(schemas, shard);
        assert(crate::model::walked_ok(
            crate::model::record_validator(schemas),
            shard.region,
            walk[k],
        ));
        lemma_schema_of_id(schemas, record_id(walk[k].payload));
        let head = (shard.head as usize) as nat;
        let capacity = (shard.capacity as usize) as nat;
        lemma_walk_sizes(
            crate::model::record_validator(schemas),
            shard.region,
            valid_low(head, capacity),
            head,
            k,
        );
    }
}

/// The records of a loaded instance are whole.
proof fn lemma_whole_shards(schemas: Seq<SchemaView>, shards: Seq<ShardView>, id: u64)
    requires
        schemas.len() < 0x1_0000_0000,
        shards_ok(shards),
    ensures
        forall|j: int|
            0 <= j < shards_of(schemas, shards, id).len() ==> whole_shard(
                schemas,
                #[trigger] shards_of(schemas, shards, id)[j],
            ),
    decreases shards.len(),
{
    if shards.len() > 0 {
        let init = shards.drop_last();
        let last = shards.last();
        assert(shards_ok(init)) by {
            assert forall|i: int| 0 <= i < init.len() implies shard_ok(#[trigger] init[i]) by {
                assert(init[i] == shards[i]);
            }
        }
        assert(shard_ok(shards[shards.len() - 1]));
        lemma_whole_shards(schemas, init, id);
        lemma_whole_shard(schemas, last);
        let before = shards_of(schemas, init, id);
        let after = shards_of(schemas, shards, id);
        if last.instance_id == id {
            let x = shard_value(schemas, last);
            let p = insert_pos(before, x, shard_leq()) as int;
            lemma_insert_pos_bound(before, x, shard_leq());
            assert forall|j: int| 0 <= j < after.len() implies whole_shard(
                schemas,
                #[trigger] after[j],
            ) by {
                if j < p {
                    assert(after[j] == before[j]);
                } else if j > p {
                    assert(after[j] == before[j - 1]);
                }
            }
        }
    }
}

/// Shards that are not too large are addressable.
pub proof fn lemma_addressable(shards: Seq<ShardView>)
    requires
        too_large(shards) is None,
        forall|i: int| 0 <= i < shards.len() ==> (#[trigger] shards[i]).region.len()
            == shards[i].capacity,
    ensures
        shards_ok(shards),
    decreases shards.len(),
{
    if shards.len() > 0 {
        let init = shards.drop_last();
        assert forall|i: int| 0 <= i < init.len() implies (#[trigger] init[i]).region.len()
            == init[i].capacity by {
            assert(init[i] == shards[i]);
        }
        lemma_addressable(init);
        assert forall|i: int| 0 <= i < shards.len() implies shard_ok(#[trigger] shards[i]) by {
            if i < init.len() {
                assert(shard_ok(init[i]));
            }
        }
    }
}

/// Loading recovers whole records only: each is one of its dump's registry, has as many field bytes
/// as its event's record size, and is one that a ring can hold.
pub proof fn law_loaded_records_whole(inputs: Seq<(Seq<char>, Seq<u8>)>)
    ensures
        load_many_spec(inputs) matches Ok(dumps) ==> all_whole(dumps),
    decreases inputs.len(),
{
    if inputs.len() > 0 && load_many_spec(inputs) is Ok {
        let (path, bytes) = inputs.last();
        law_loaded_records_whole(inputs.drop_last());
        let before = load_many_spec(inputs.drop_last())->Ok_0;
        let more = load_spec(path, bytes)->Ok_0;
        let sections = p_dump(bytes)->Ok_0.sections;
        let parts = dump_parts(sections)->Ok_0;
        let ids = instance_ids(parts.metas, parts.shards);
        let schemas = sorted_schemas(parts.schemas);
        lemma_shards_regions(sections);
        lemma_addressable(parts.shards);
        lemma_schemas_len(sections);
        lemma_stable_sort_len(parts.schemas, schema_leq());
        assert forall|d: int| 0 <= d < more.len() implies whole_instance(#[trigger] more[d]) by {
            assert(more[d] == loaded_one(path, parts, ids[d]));
            lemma_whole_shards(schemas, parts.shards, ids[d]);
        }
        let dumps = before + more;
        assert forall|d: int| 0 <= d < dumps.len() implies whole_instance(#[trigger] dumps[d]) by {
            if d < before.len() {
                assert(dumps[d] == before[d]);
            } else {
                assert(dumps[d] == more[d - before.len()]);
            }
        }
    }
}

} // verus!
