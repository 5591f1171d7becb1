//! Which host label a merged dump hands on: that of the instance that loading it gives first.

use crate::convert::host_label;
use crate::kept_laws::{instances, lemma_merged_instances, lemma_meta_ids_are};
use crate::merge::{first_host, loaded_ids, splice_part, splice_parts, SplicePart};
use crate::merge_laws::{all_sound, lemma_loaded_ids, merged_metas, merged_parts};
use crate::model::{
    host_of, instance_ids, load_many_spec, loaded_all, loaded_one, meta_ids, with_shard_ids,
    DumpParts, InputError, LoadedView,
};
use crate::order::{id_insert, id_le, insert_pos};
use crate::reload::{ids_distinct, lemma_id_insert, lemma_instance_ids};
use crate::splice_laws::{file_parts, joined, lemma_file};
use crate::stream::ItemView;
use crate::wire::{MetaView, ShardView};
use vstd::prelude::*;

verus! {

// ---------------------------------------------------------------------------
// The instances of one file stand in ascending order.
// ---------------------------------------------------------------------------

/// Ascending, each once.
pub open spec fn ids_ascend(ids: Seq<u64>) -> bool {
    forall|i: int, j: int| 0 <= i < j < ids.len() ==> ids[i] < ids[j]
}

/// Where an id goes: behind those at or before it, in front of one that is not.
proof fn lemma_insert_place(ids: Seq<u64>, id: u64)
    ensures
        insert_pos(ids, id, id_le()) <= ids.len(),
        forall|j: int| 0 <= j < insert_pos(ids, id, id_le()) ==> #[trigger] ids[j] <= id,
        insert_pos(ids, id, id_le()) < ids.len() ==> ids[insert_pos(ids, id, id_le()) as int] > id,
    decreases ids.len(),
{
    if ids.len() > 0 && ids[0] <= id {
        let tail = ids.skip(1);
        lemma_insert_place(tail, id);
        assert forall|j: int| 0 <= j < insert_pos(ids, id, id_le()) implies #[trigger] ids[j]
            <= id by {
            if j > 0 {
                assert(ids[j] == tail[j - 1]);
            }
        }
    }
}

/// Putting an id in keeps the order.
proof fn lemma_insert_ascends(ids: Seq<u64>, id: u64)
    requires
        ids_ascend(ids),
    ensures
        ids_ascend(id_insert(ids, id)),
{
    if !ids.contains(id) {
        lemma_insert_place(ids, id);
        let p = insert_pos(ids, id, id_le()) as int;
        let all = id_insert(ids, id);
        assert forall|i: int, j: int| 0 <= i < j < all.len() implies all[i] < all[j] by {
            if i < p {
                assert(ids.contains(ids[i]));
            }
        }
    }
}

/// The instances that metadata names ascend.
proof fn lemma_meta_ids_ascend(metas: Seq<MetaView>)
    ensures
        ids_ascend(meta_ids(metas)),
    decreases metas.len(),
{
    if metas.len() > 0 {
        lemma_meta_ids_ascend(metas.drop_last());
        lemma_insert_ascends(meta_ids(metas.drop_last()), metas.last().instance_id);
    }
}

/// The instances of shards, put in, keep the order.
proof fn lemma_shard_ids_ascend(ids: Seq<u64>, shards: Seq<ShardView>)
    requires
        ids_ascend(ids),
    ensures
        ids_ascend(with_shard_ids(ids, shards)),
    decreases shards.len(),
{
    if shards.len() > 0 {
        lemma_shard_ids_ascend(ids, shards.drop_last());
        lemma_insert_ascends(
            with_shard_ids(ids, shards.drop_last()),
            shards.last().instance_id,
        );
    }
}

/// The instances of a file ascend.
pub proof fn lemma_file_ids_ascend(metas: Seq<MetaView>, shards: Seq<ShardView>)
    ensures
        ids_ascend(instance_ids(metas, shards)),
{
    lemma_meta_ids_ascend(metas);
    lemma_shard_ids_ascend(meta_ids(metas), shards);
}

/// An instance at or before every other of a file is the first that loading gives.
proof fn lemma_least_is_first(path: Seq<char>, parts: DumpParts, id: u64)
    requires
        instance_ids(parts.metas, parts.shards).contains(id),
        forall|i: int|
            0 <= i < instance_ids(parts.metas, parts.shards).len() ==> id <= #[trigger] instance_ids(
                parts.metas,
                parts.shards,
            )[i],
    ensures
        loaded_all(path, parts).len() > 0,
        loaded_all(path, parts)[0].host == host_of(parts.metas, id),
{
    let ids = instance_ids(parts.metas, parts.shards);
    lemma_file_ids_ascend(parts.metas, parts.shards);
    let k = choose|k: int| 0 <= k < ids.len() && ids[k] == id;
    assert(id <= ids[0]);
    assert(k == 0);
    assert(loaded_all(path, parts)[0] == loaded_one(path, parts, ids[0]));
}

// ---------------------------------------------------------------------------
// A dump merged with de-duplication.
// ---------------------------------------------------------------------------

/// No loaded dump has a lesser instance id than the first.
pub open spec fn least_first(dumps: Seq<LoadedView>) -> bool {
    forall|d: int|
        0 <= d < dumps.len() ==> dumps[0].instance_id <= (#[trigger] dumps[d]).instance_id
}

/// The host in the metadata of a merged dump.
pub proof fn lemma_merged_host(dumps: Seq<LoadedView>, ids: Seq<u64>, id: u64)
    requires
        ids.contains(id),
    ensures
        host_of(merged_metas(dumps, ids), id) == first_host(dumps, id),
    decreases ids.len(),
{
    let metas = merged_metas(dumps, ids);
    assert(metas.last() == MetaView {
        instance_id: ids.last(),
        host: first_host(dumps, ids.last()),
    });
    if ids.last() != id {
        let init = ids.drop_last();
        assert(metas.drop_last() =~= merged_metas(dumps, init));
        let k = choose|k: int| 0 <= k < ids.len() && ids[k] == id;
        assert(init[k] == id);
        lemma_merged_host(dumps, init, id);
    }
}

/// Where the first loaded dump has the least instance id, a dump merged with de-duplication has its
/// host label.
pub proof fn lemma_dedup_label(path: Seq<char>, dumps: Seq<LoadedView>, items: Seq<ItemView>)
    requires
        all_sound(dumps, items),
        least_first(dumps),
    ensures
        forall|host: Seq<char>| #[trigger]
            host_label(loaded_all(path, merged_parts(dumps, items)), host) == host_label(dumps, host),
{
    let parts = merged_parts(dumps, items);
    let again = loaded_all(path, parts);
    let ids = instance_ids(parts.metas, parts.shards);
    lemma_instance_ids(parts.metas, parts.shards);
    assert forall|i: int| 0 <= i < again.len() implies #[trigger] again[i] == loaded_one(
        path,
        parts,
        ids[i],
    ) by {}
    if dumps.len() == 0 {
        assert(again[0] == loaded_one(path, parts, ids[0]));
        assert(parts.metas.len() == 0);
    } else {
        let id = dumps[0].instance_id;
        let f = |l: LoadedView| l.instance_id;
        lemma_merged_instances(path, dumps, items);
        lemma_loaded_ids(dumps);
        assert(instances(dumps).contains(id)) by {
            assert(dumps.map_values(f)[0] == id);
        }
        assert(instances(again).contains(id));
        let k = choose|k: int| 0 <= k < again.len() && again.map_values(f)[k] == id;
        assert(again[k] == loaded_one(path, parts, ids[k]));
        assert(ids[k] == id);
        assert forall|i: int| 0 <= i < ids.len() implies id <= #[trigger] ids[i] by {
            assert(again[i] == loaded_one(path, parts, ids[i]));
            assert(again.map_values(f)[i] == ids[i]);
            assert(instances(again).contains(ids[i]));
            assert(instances(dumps).contains(ids[i]));
            let d = choose|d: int| 0 <= d < dumps.len() && dumps.map_values(f)[d] == ids[i];
            assert(dumps[d].instance_id == ids[i]);
        }
        lemma_least_is_first(path, parts, id);
        lemma_merged_host(dumps, loaded_ids(dumps), id);
    }
}

// ---------------------------------------------------------------------------
// A spliced dump.
// ---------------------------------------------------------------------------

/// The first loaded dump has the least instance id, all loaded dumps of its instance have its host,
/// and `again` has its instance.
pub open spec fn first_stays(dumps: Seq<LoadedView>, again: Seq<LoadedView>) -> bool {
    &&& least_first(dumps)
    &&& forall|d: int|
        0 <= d < dumps.len() && (#[trigger] dumps[d]).instance_id == dumps[0].instance_id
            ==> dumps[d].host == dumps[0].host
    &&& dumps.len() > 0 ==> instances(again).contains(dumps[0].instance_id)
}

/// Whether metadata names an instance.
spec fn names(metas: Seq<MetaView>, id: u64) -> bool {
    exists|i: int| 0 <= i < metas.len() && (#[trigger] metas[i]).instance_id == id
}

/// An instance that no metadata names has no host.
proof fn lemma_unnamed_host(metas: Seq<MetaView>, id: u64)
    requires
        !names(metas, id),
    ensures
        host_of(metas, id) == Seq::<char>::empty(),
    decreases metas.len(),
{
    if metas.len() > 0 {
        let init = metas.drop_last();
        assert(metas[metas.len() - 1].instance_id != id);
        assert(!names(init, id)) by {
            if names(init, id) {
                let i = choose|i: int| 0 <= i < init.len() && (#[trigger] init[i]).instance_id == id;
                assert(metas[i].instance_id == id);
            }
        }
        lemma_unnamed_host(init, id);
    }
}

/// Of two runs of metadata, the second counts where it names the instance.
proof fn lemma_host_concat(a: Seq<MetaView>, b: Seq<MetaView>, id: u64)
    ensures
        host_of(a + b, id) == if names(b, id) {
            host_of(b, id)
        } else {
            host_of(a, id)
        },
    decreases b.len(),
{
    if b.len() == 0 {
        assert(a + b =~= a);
    } else {
        let init = b.drop_last();
        assert((a + b).drop_last() =~= a + init);
        assert((a + b).last() == b.last());
        if b.last().instance_id == id {
            assert(b[b.len() - 1].instance_id == id);
        } else {
            lemma_host_concat(a, init, id);
            if names(init, id) {
                let i = choose|i: int| 0 <= i < init.len() && (#[trigger] init[i]).instance_id == id;
                assert(b[i].instance_id == id);
            }
            if names(b, id) {
                let i = choose|i: int| 0 <= i < b.len() && (#[trigger] b[i]).instance_id == id;
                assert(init[i].instance_id == id);
            }
        }
    }
}

/// Whether a loaded dump is of the instance.
spec fn has_instance(dumps: Seq<LoadedView>, id: u64) -> bool {
    exists|d: int| 0 <= d < dumps.len() && (#[trigger] dumps[d]).instance_id == id
}

/// All loaded dumps of the instance have the host.
spec fn hosted(dumps: Seq<LoadedView>, id: u64, host: Seq<char>) -> bool {
    forall|d: int|
        0 <= d < dumps.len() && (#[trigger] dumps[d]).instance_id == id ==> dumps[d].host == host
}

/// The loaded instances of one file: each that it names or has shards of, with its host.
proof fn lemma_file_instances(path: Seq<char>, f: DumpParts, id: u64)
    ensures
        names(f.metas, id) ==> has_instance(loaded_all(path, f), id),
        (exists|i: int| 0 <= i < f.shards.len() && (#[trigger] f.shards[i]).instance_id == id)
            ==> has_instance(loaded_all(path, f), id),
        forall|d: int|
            0 <= d < loaded_all(path, f).len() && (#[trigger] loaded_all(path, f)[d]).instance_id
                == id ==> loaded_all(path, f)[d].host == host_of(f.metas, id),
{
    let ids = instance_ids(f.metas, f.shards);
    let more = loaded_all(path, f);
    lemma_instance_ids(f.metas, f.shards);
    crate::reload::lemma_meta_ids(f.metas);
    crate::reload::lemma_shard_ids(meta_ids(f.metas), f.shards);
    assert forall|d: int| 0 <= d < more.len() implies #[trigger] more[d] == loaded_one(
        path,
        f,
        ids[d],
    ) by {}
    if names(f.metas, id) {
        let i = choose|i: int| 0 <= i < f.metas.len() && (#[trigger] f.metas[i]).instance_id == id;
        assert(meta_ids(f.metas).contains(f.metas[i].instance_id));
        assert(with_shard_ids(meta_ids(f.metas), f.shards).contains(id));
        assert(ids.contains(id));
        let d = choose|d: int| 0 <= d < ids.len() && ids[d] == id;
        assert(more[d].instance_id == id);
    }
    if exists|i: int| 0 <= i < f.shards.len() && (#[trigger] f.shards[i]).instance_id == id {
        let i = choose|i: int| 0 <= i < f.shards.len() && (#[trigger] f.shards[i]).instance_id == id;
        assert(ids.contains(f.shards[i].instance_id));
        let d = choose|d: int| 0 <= d < ids.len() && ids[d] == id;
        assert(more[d].instance_id == id);
    }
}

/// The host of an instance in a spliced dump is the one that all its loaded dumps have; what the
/// spliced dump names or has shards of is of a loaded dump.
proof fn lemma_joined_host(
    inputs: Seq<(Seq<char>, Seq<u8>)>,
    parts: Seq<SplicePart>,
    dumps: Seq<LoadedView>,
    id: u64,
    host: Seq<char>,
)
    requires
        splice_parts(inputs) == Ok::<Seq<SplicePart>, InputError>(parts),
        load_many_spec(inputs) == Ok::<Seq<LoadedView>, InputError>(dumps),
    ensures
        hosted(dumps, id, host) ==> host_of(joined(parts).metas, id) == if has_instance(dumps, id) {
            host
        } else {
            Seq::empty()
        },
        names(joined(parts).metas, id) ==> has_instance(dumps, id),
        (exists|i: int|
            0 <= i < joined(parts).shards.len() && (#[trigger] joined(parts).shards[i]).instance_id
                == id) ==> has_instance(dumps, id),
    decreases inputs.len(),
{
    if inputs.len() > 0 {
        let (path, bytes) = inputs.last();
        let before = load_many_spec(inputs.drop_last())->Ok_0;
        let p0 = splice_parts(inputs.drop_last())->Ok_0;
        let part = splice_part(bytes)->Ok_0;
        let f = file_parts(part);
        let more = loaded_all(path, f);
        let a = joined(p0);
        assert(parts.drop_last() =~= p0);
        assert(parts.last() == part);
        lemma_file(path, bytes);
        assert(dumps == before + more);
        lemma_joined_host(inputs.drop_last(), p0, before, id, host);
        lemma_file_instances(path, f, id);
        lemma_host_concat(a.metas, f.metas, id);
        if has_instance(before, id) {
            let d = choose|d: int|
                0 <= d < before.len() && (#[trigger] before[d]).instance_id == id;
            assert(dumps[d].instance_id == id);
        }
        if has_instance(more, id) {
            let d = choose|d: int| 0 <= d < more.len() && (#[trigger] more[d]).instance_id == id;
            assert(dumps[before.len() + d] == more[d]);
        }
        if has_instance(dumps, id) && !has_instance(before, id) {
            let d = choose|d: int| 0 <= d < dumps.len() && (#[trigger] dumps[d]).instance_id == id;
            if d < before.len() {
                assert(before[d].instance_id == id);
            }
            assert(more[d - before.len()].instance_id == id);
        }
        if names(joined(parts).metas, id) {
            let m = joined(parts).metas;
            let i = choose|i: int| 0 <= i < m.len() && (#[trigger] m[i]).instance_id == id;
            if i < a.metas.len() {
                assert(a.metas[i].instance_id == id);
            } else {
                assert(f.metas[i - a.metas.len()].instance_id == id);
            }
        }
        if exists|i: int|
            0 <= i < joined(parts).shards.len() && (#[trigger] joined(parts).shards[i]).instance_id
                == id {
            let i = choose|i: int|
                0 <= i < joined(parts).shards.len() && (#[trigger] joined(
                    parts,
                ).shards[i]).instance_id == id;
            if i < a.shards.len() {
                assert(a.shards[i].instance_id == id);
            } else {
                assert(f.shards[i - a.shards.len()].instance_id == id);
            }
        }
        if hosted(dumps, id, host) {
            assert(hosted(before, id, host)) by {
                assert forall|d: int|
                    0 <= d < before.len() && (#[trigger] before[d]).instance_id
                        == id implies before[d].host == host by {
                    assert(dumps[d] == before[d]);
                }
            }
            if has_instance(more, id) {
                let d = choose|d: int|
                    0 <= d < more.len() && (#[trigger] more[d]).instance_id == id;
                assert(dumps[before.len() + d] == more[d]);
                assert(host_of(f.metas, id) == host);
            }
            if !names(f.metas, id) {
                lemma_unnamed_host(f.metas, id);
            }
        }
    } else {
        assert(dumps =~= Seq::<LoadedView>::empty());
        assert(parts =~= Seq::<SplicePart>::empty());
    }
}

/// Shards bring in their own instances only.
pub proof fn lemma_shard_ids_origin(ids: Seq<u64>, shards: Seq<ShardView>, id: u64)
    requires
        ids_distinct(ids),
        with_shard_ids(ids, shards).contains(id),
    ensures
        ids.contains(id) || exists|i: int|
            0 <= i < shards.len() && (#[trigger] shards[i]).instance_id == id,
    decreases shards.len(),
{
    if shards.len() > 0 {
        let init = shards.drop_last();
        crate::reload::lemma_shard_ids(ids, init);
        lemma_id_insert(with_shard_ids(ids, init), shards.last().instance_id);
        if with_shard_ids(ids, init).contains(id) {
            lemma_shard_ids_origin(ids, init, id);
            if !ids.contains(id) {
                let i = choose|i: int|
                    0 <= i < init.len() && (#[trigger] init[i]).instance_id == id;
                assert(shards[i].instance_id == id);
            }
        } else {
            assert(shards[shards.len() - 1].instance_id == id);
        }
    }
}

/// Where the first loaded dump stays the first, a spliced dump has its host label.
pub proof fn lemma_splice_label(
    path: Seq<char>,
    inputs: Seq<(Seq<char>, Seq<u8>)>,
    parts: Seq<SplicePart>,
    dumps: Seq<LoadedView>,
)
    requires
        splice_parts(inputs) == Ok::<Seq<SplicePart>, InputError>(parts),
        load_many_spec(inputs) == Ok::<Seq<LoadedView>, InputError>(dumps),
        first_stays(dumps, loaded_all(path, joined(parts))),
    ensures
        forall|host: Seq<char>| #[trigger]
            host_label(loaded_all(path, joined(parts)), host) == host_label(dumps, host),
{
    let all = joined(parts);
    let again = loaded_all(path, all);
    let ids = instance_ids(all.metas, all.shards);
    lemma_instance_ids(all.metas, all.shards);
    assert(again[0] == loaded_one(path, all, ids[0]));
    if dumps.len() == 0 {
        lemma_joined_host(inputs, parts, dumps, ids[0], Seq::empty());
    } else {
        let id = dumps[0].instance_id;
        let f = |l: LoadedView| l.instance_id;
        let k = choose|k: int| 0 <= k < again.len() && again.map_values(f)[k] == id;
        assert(again[k] == loaded_one(path, all, ids[k]));
        assert(ids[k] == id);
        assert forall|i: int| 0 <= i < ids.len() implies id <= #[trigger] ids[i] by {
            let known = with_shard_ids(meta_ids(all.metas), all.shards);
            if known.len() > 0 {
                assert(known.contains(ids[i]));
                lemma_meta_ids_are(all.metas, ids[i]);
                lemma_shard_ids_origin(meta_ids(all.metas), all.shards, ids[i]);
                lemma_joined_host(inputs, parts, dumps, ids[i], Seq::empty());
                assert(names(all.metas, ids[i]) == meta_ids(all.metas).contains(ids[i]));
                assert(has_instance(dumps, ids[i]));
                let d = choose|d: int|
                    0 <= d < dumps.len() && (#[trigger] dumps[d]).instance_id == ids[i];
                assert(dumps[d].instance_id >= id);
            }
        }
        lemma_least_is_first(path, all, id);
        lemma_joined_host(inputs, parts, dumps, id, dumps[0].host);
        assert(hosted(dumps, id, dumps[0].host));
        assert(has_instance(dumps, id));
    }
}

} // verus!
