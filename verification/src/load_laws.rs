//! What loading a dump gives, told from the dump's sections.

use crate::buf::bytes_of;
use crate::convert_laws::lemma_schema_order;
use crate::host_laws::{lemma_file_ids_ascend, lemma_shard_ids_origin};
use crate::kept_laws::lemma_meta_ids_are;
use crate::le::le_value;
use crate::model::{
    dump_parts, host_of, instance_ids, intern_of, is_record, lemma_schema_of_id, load, loaded_all,
    loaded_one, loaded_view, meta_ids, schema_leq, schema_of_id, shard_leq, shard_value, shards_of,
    sorted_schemas, too_large, with_entries, with_shard_ids, DumpParts, LoadError, Loaded,
    LoadedView, ShardRecsView,
};
use crate::order::{
    insert_pos, is_order, lemma_insert_ordered, lemma_insert_pos_bound, lemma_stable_sort_contains,
    lemma_stable_sort_len, lemma_stable_sort_ordered, name_le, ordered,
};
use crate::parse::{
    all_ok, bodies_of, decode_all, p_dump, p_intern, p_meta, p_registry, p_shard, p_view,
};
use crate::reload::{lemma_instance_ids, lemma_meta_ids, lemma_shard_ids};
use crate::schema::SchemaView;
use crate::text::text_of;
use crate::wire::{Error, InternView, MetaView, SectionView, ShardView};
use bytes::Bytes;
use vstd::prelude::*;

verus! {

// ---------------------------------------------------------------------------
// The sections of a dump.
// ---------------------------------------------------------------------------

/// The places of the sections of one kind, from the front, each once.
pub open spec fn lists(sections: Seq<SectionView>, kind: u16, at: Seq<int>) -> bool {
    &&& forall|i: int| 0 <= i < at.len() ==> 0 <= #[trigger] at[i] < sections.len()
    &&& forall|i: int| 0 <= i < at.len() ==> sections[#[trigger] at[i]].kind == kind
    &&& forall|i: int, j: int| 0 <= i < j < at.len() ==> at[i] < at[j]
    &&& forall|k: int|
        0 <= k < sections.len() && (#[trigger] sections[k]).kind == kind ==> at.contains(k)
}

/// The places of the sections of one kind.
spec fn places(sections: Seq<SectionView>, kind: u16) -> Seq<int>
    decreases sections.len(),
{
    if sections.len() == 0 {
        Seq::empty()
    } else if sections.last().kind == kind {
        places(sections.drop_last(), kind).push(sections.len() - 1)
    } else {
        places(sections.drop_last(), kind)
    }
}

/// The places of the sections of one kind, and what they read as.
proof fn lemma_places<T>(
    sections: Seq<SectionView>,
    kind: u16,
    p: spec_fn(Seq<u8>) -> Result<T, Error>,
    xs: Seq<T>,
)
    requires
        decode_all(sections, kind, p) == Ok::<Seq<T>, Error>(xs),
    ensures
        lists(sections, kind, places(sections, kind)),
        places(sections, kind).len() == xs.len(),
        forall|i: int|
            #![trigger xs[i]]
            0 <= i < xs.len() ==> p(sections[places(sections, kind)[i]].body) == Ok::<T, Error>(
                xs[i],
            ),
    decreases sections.len(),
{
    let at = places(sections, kind);
    let all = bodies_of(sections, kind).map_values(p);
    if sections.len() > 0 {
        let init = sections.drop_last();
        let n = sections.len() - 1;
        let before = places(init, kind);
        let some = bodies_of(init, kind).map_values(p);
        if sections[n].kind == kind {
            assert(all.drop_last() =~= some);
            assert(all.last() == p(sections[n].body));
            let ys = all_ok(some)->Ok_0;
            lemma_places(init, kind, p, ys);
            assert(xs == ys.push(xs.last()));
            assert forall|i: int| #![trigger xs[i]] 0 <= i < xs.len() implies p(sections[at[i]].body)
                == Ok::<T, Error>(xs[i]) by {
                if i < ys.len() {
                    assert(ys[i] == xs[i]);
                    assert(at[i] == before[i]);
                    assert(init[before[i]] == sections[before[i]]);
                }
            }
        } else {
            lemma_places(init, kind, p, xs);
            assert forall|i: int| #![trigger xs[i]] 0 <= i < xs.len() implies p(sections[at[i]].body)
                == Ok::<T, Error>(xs[i]) by {
                assert(init[before[i]] == sections[before[i]]);
            }
        }
        assert forall|i: int| 0 <= i < at.len() implies 0 <= #[trigger] at[i] < sections.len()
            && sections[at[i]].kind == kind by {
            if i < before.len() {
                assert(at[i] == before[i]);
                assert(init[before[i]] == sections[before[i]]);
            }
        }
        assert forall|i: int, j: int| 0 <= i < j < at.len() implies at[i] < at[j] by {
            assert(at[i] == before[i]);
            if j < before.len() {
                assert(at[j] == before[j]);
            }
        }
        assert forall|k: int|
            0 <= k < sections.len() && (#[trigger] sections[k]).kind
                == kind implies at.contains(k) by {
            if k < n {
                assert(init[k] == sections[k]);
                let i = choose|i: int| 0 <= i < before.len() && before[i] == k;
                assert(at[i] == k);
            } else {
                assert(at[at.len() - 1] == k);
            }
        }
    }
}

/// Section `k` is the first of its kind.
pub open spec fn is_first_section(sections: Seq<SectionView>, kind: u16, k: int) -> bool {
    &&& 0 <= k < sections.len()
    &&& sections[k].kind == kind
    &&& forall|j: int| 0 <= j < k ==> (#[trigger] sections[j]).kind != kind
}

/// The first body of a kind is that of the first section of the kind.
proof fn lemma_first_body(sections: Seq<SectionView>, kind: u16, k: int)
    requires
        is_first_section(sections, kind, k),
    ensures
        bodies_of(sections, kind).len() > 0,
        bodies_of(sections, kind)[0] == sections[k].body,
    decreases sections.len(),
{
    let init = sections.drop_last();
    if k < sections.len() - 1 {
        assert(init[k] == sections[k]);
        assert forall|j: int| 0 <= j < k implies (#[trigger] init[j]).kind != kind by {
            assert(init[j] == sections[j]);
        }
        lemma_first_body(init, kind, k);
    } else {
        lemma_no_bodies(init, kind);
    }
}

/// Where there are no sections of a kind, there are no bodies of it.
proof fn lemma_no_bodies(sections: Seq<SectionView>, kind: u16)
    requires
        forall|j: int| 0 <= j < sections.len() ==> (#[trigger] sections[j]).kind != kind,
    ensures
        bodies_of(sections, kind).len() == 0,
    decreases sections.len(),
{
    if sections.len() > 0 {
        let init = sections.drop_last();
        assert(sections[sections.len() - 1].kind != kind);
        assert forall|j: int| 0 <= j < init.len() implies (#[trigger] init[j]).kind != kind by {
            assert(init[j] == sections[j]);
        }
        lemma_no_bodies(init, kind);
    }
}

/// The parts of a dump are those of its sections, in file order, and no others: one table of strings
/// for each section of kind 1, one shard for each of kind 2, one metadata for each of kind 3, one
/// view set for each of kind 4. The registry is that of the first section of kind 0, and empty where
/// there is none.
pub proof fn law_parts_are_sections(sections: Seq<SectionView>, parts: DumpParts)
    requires
        dump_parts(sections) == Ok::<DumpParts, Error>(parts),
    ensures
        forall|k: int| #[trigger]
            is_first_section(sections, 0, k) ==> p_registry(sections[k].body) == Ok::<
                Seq<SchemaView>,
                Error,
            >(parts.schemas),
        (forall|k: int| 0 <= k < sections.len() ==> (#[trigger] sections[k]).kind != 0)
            ==> parts.schemas.len() == 0,
        exists|at: Seq<int>| #[trigger]
            lists(sections, 1, at) && at.len() == parts.interns.len() && forall|i: int|
                #![trigger parts.interns[i]]
                0 <= i < at.len() ==> p_intern(sections[at[i]].body) == Ok::<InternView, Error>(
                    parts.interns[i],
                ),
        exists|at: Seq<int>| #[trigger]
            lists(sections, 2, at) && at.len() == parts.shards.len() && forall|i: int|
                #![trigger parts.shards[i]]
                0 <= i < at.len() ==> p_shard(sections[at[i]].body) == Ok::<ShardView, Error>(
                    parts.shards[i],
                ),
        exists|at: Seq<int>| #[trigger]
            lists(sections, 3, at) && at.len() == parts.metas.len() && forall|i: int|
                #![trigger parts.metas[i]]
                0 <= i < at.len() ==> p_meta(sections[at[i]].body) == Ok::<MetaView, Error>(
                    parts.metas[i],
                ),
        exists|at: Seq<int>| #[trigger]
            lists(sections, 4, at) && at.len() == parts.views.len() && forall|i: int|
                #![trigger parts.views[i]]
                0 <= i < at.len() ==> p_view(sections[at[i]].body) == Ok::<Seq<char>, Error>(
                    parts.views[i],
                ),
{
    assert forall|k: int| #[trigger] is_first_section(sections, 0, k) implies p_registry(
        sections[k].body,
    ) == Ok::<Seq<SchemaView>, Error>(parts.schemas) by {
        lemma_first_body(sections, 0, k);
    }
    if forall|k: int| 0 <= k < sections.len() ==> (#[trigger] sections[k]).kind != 0 {
        lemma_no_bodies(sections, 0);
    }
    lemma_places(sections, 1, |b: Seq<u8>| p_intern(b), parts.interns);
    lemma_places(sections, 2, |b: Seq<u8>| p_shard(b), parts.shards);
    lemma_places(sections, 3, |b: Seq<u8>| p_meta(b), parts.metas);
    lemma_places(sections, 4, |b: Seq<u8>| p_view(b), parts.views);
}

// ---------------------------------------------------------------------------
// The instances of a dump.
// ---------------------------------------------------------------------------

/// The dump has metadata or a shard of the instance.
pub open spec fn has_instance(parts: DumpParts, id: u64) -> bool {
    ||| exists|i: int| 0 <= i < parts.metas.len() && (#[trigger] parts.metas[i]).instance_id == id
    ||| exists|i: int| 0 <= i < parts.shards.len() && (#[trigger] parts.shards[i]).instance_id == id
}

/// Metadata `i` is the last of the instance.
pub open spec fn is_last_meta(metas: Seq<MetaView>, id: u64, i: int) -> bool {
    &&& 0 <= i < metas.len()
    &&& metas[i].instance_id == id
    &&& forall|j: int| i < j < metas.len() ==> (#[trigger] metas[j]).instance_id != id
}

/// Entry `e` of table `t` gives a string of the instance its id.
pub open spec fn gives(tables: Seq<InternView>, instance: u64, id: u32, t: int, e: int) -> bool {
    &&& 0 <= t < tables.len()
    &&& tables[t].instance_id == instance
    &&& 0 <= e < tables[t].entries.len()
    &&& tables[t].entries[e].0 == id
}

/// Entry `e` of table `t` is the last that gives a string of the instance its id.
pub open spec fn gives_last(
    tables: Seq<InternView>,
    instance: u64,
    id: u32,
    t: int,
    e: int,
) -> bool {
    &&& gives(tables, instance, id, t, e)
    &&& forall|u: int, f: int| #[trigger]
        gives(tables, instance, id, u, f) ==> u < t || (u == t && f <= e)
}

/// The shards are those of the instance, each once, in the order of their ids, each with the records
/// that are recovered from it.
pub open spec fn shards_from(
    schemas: Seq<SchemaView>,
    shards: Seq<ShardView>,
    id: u64,
    got: Seq<ShardRecsView>,
    at: Seq<int>,
) -> bool {
    &&& at.len() == got.len()
    &&& forall|i: int|
        0 <= i < at.len() ==> 0 <= #[trigger] at[i] < shards.len() && shards[at[i]].instance_id == id
            && got[i].shard_id == shards[at[i]].shard_id && got[i] == shard_value(
            schemas,
            shards[at[i]],
        )
    &&& forall|i: int, j: int| 0 <= i < j < at.len() ==> at[i] != at[j]
    &&& forall|k: int|
        0 <= k < shards.len() && (#[trigger] shards[k]).instance_id == id ==> at.contains(k)
    &&& forall|i: int, j: int| 0 <= i < j < got.len() ==> got[i].shard_id <= got[j].shard_id
}

/// The host of an instance.
proof fn lemma_last_host(metas: Seq<MetaView>, id: u64, i: int)
    requires
        is_last_meta(metas, id, i),
    ensures
        host_of(metas, id) == metas[i].host,
    decreases metas.len(),
{
    if i < metas.len() - 1 {
        let init = metas.drop_last();
        assert(metas[metas.len() - 1].instance_id != id);
        assert forall|j: int| i < j < init.len() implies (#[trigger] init[j]).instance_id != id by {
            assert(init[j] == metas[j]);
        }
        lemma_last_host(init, id, i);
    }
}

/// An instance without metadata has no host.
proof fn lemma_no_host(metas: Seq<MetaView>, id: u64)
    requires
        forall|i: int| 0 <= i < metas.len() ==> (#[trigger] metas[i]).instance_id != id,
    ensures
        host_of(metas, id).len() == 0,
    decreases metas.len(),
{
    if metas.len() > 0 {
        let init = metas.drop_last();
        assert(metas[metas.len() - 1].instance_id != id);
        assert forall|i: int| 0 <= i < init.len() implies (#[trigger] init[i]).instance_id != id by {
            assert(init[i] == metas[i]);
        }
        lemma_no_host(init, id);
    }
}

/// The last entry of an id is what a map has of it.
proof fn lemma_last_entry(map: Map<u32, Seq<char>>, entries: Seq<(u32, Seq<u8>)>, e: int)
    requires
        0 <= e < entries.len(),
        forall|f: int| e < f < entries.len() ==> (#[trigger] entries[f]).0 != entries[e].0,
    ensures
        with_entries(map, entries).dom().contains(entries[e].0),
        with_entries(map, entries)[entries[e].0] == text_of(entries[e].1),
    decreases entries.len(),
{
    if e < entries.len() - 1 {
        let init = entries.drop_last();
        assert(entries[entries.len() - 1].0 != entries[e].0);
        assert forall|f: int| e < f < init.len() implies (#[trigger] init[f]).0 != init[e].0 by {
            assert(init[f] == entries[f]);
        }
        lemma_last_entry(map, init, e);
    }
}

/// Entries of other ids leave what a map has of an id.
proof fn lemma_other_entries(map: Map<u32, Seq<char>>, entries: Seq<(u32, Seq<u8>)>, id: u32)
    requires
        forall|f: int| 0 <= f < entries.len() ==> (#[trigger] entries[f]).0 != id,
    ensures
        with_entries(map, entries).dom().contains(id) == map.dom().contains(id),
        map.dom().contains(id) ==> with_entries(map, entries)[id] == map[id],
    decreases entries.len(),
{
    if entries.len() > 0 {
        let init = entries.drop_last();
        assert(entries[entries.len() - 1].0 != id);
        assert forall|f: int| 0 <= f < init.len() implies (#[trigger] init[f]).0 != id by {
            assert(init[f] == entries[f]);
        }
        lemma_other_entries(map, init, id);
    }
}

/// The last entry of an id is what an instance has of it.
proof fn lemma_last_string(tables: Seq<InternView>, instance: u64, id: u32, t: int, e: int)
    requires
        gives_last(tables, instance, id, t, e),
    ensures
        intern_of(tables, instance).dom().contains(id),
        intern_of(tables, instance)[id] == text_of(tables[t].entries[e].1),
    decreases tables.len(),
{
    let n = tables.len() - 1;
    let init = tables.drop_last();
    let last = tables[n].entries;
    if t == n {
        assert forall|f: int| e < f < last.len() implies (#[trigger] last[f]).0 != last[e].0 by {
            if last[f].0 == id {
                assert(gives(tables, instance, id, n, f));
            }
        }
        lemma_last_entry(intern_of(init, instance), last, e);
    } else {
        assert(init[t] == tables[t]);
        assert forall|u: int, f: int| #[trigger] gives(init, instance, id, u, f) implies u < t || (u
            == t && f <= e) by {
            assert(init[u] == tables[u]);
            assert(gives(tables, instance, id, u, f));
        }
        lemma_last_string(init, instance, id, t, e);
        if tables[n].instance_id == instance {
            assert forall|f: int| 0 <= f < last.len() implies (#[trigger] last[f]).0 != id by {
                if last[f].0 == id {
                    assert(gives(tables, instance, id, n, f));
                }
            }
            lemma_other_entries(intern_of(init, instance), last, id);
        }
    }
}

/// An instance has no string that none of its tables gives.
proof fn lemma_no_string(tables: Seq<InternView>, instance: u64, id: u32)
    requires
        forall|t: int, e: int| !#[trigger] gives(tables, instance, id, t, e),
    ensures
        !intern_of(tables, instance).dom().contains(id),
    decreases tables.len(),
{
    if tables.len() > 0 {
        let n = tables.len() - 1;
        let init = tables.drop_last();
        let last = tables[n].entries;
        assert forall|t: int, e: int| !#[trigger] gives(init, instance, id, t, e) by {
            if gives(init, instance, id, t, e) {
                assert(init[t] == tables[t]);
                assert(gives(tables, instance, id, t, e));
            }
        }
        lemma_no_string(init, instance, id);
        if tables[n].instance_id == instance {
            assert forall|f: int| 0 <= f < last.len() implies (#[trigger] last[f]).0 != id by {
                if last[f].0 == id {
                    assert(gives(tables, instance, id, n, f));
                }
            }
            lemma_other_entries(intern_of(init, instance), last, id);
        }
    }
}

/// The order of shards is one.
proof fn lemma_shard_order()
    ensures
        is_order(shard_leq()),
{
}

/// The shards of an instance.
proof fn lemma_shards_from(schemas: Seq<SchemaView>, shards: Seq<ShardView>, id: u64) -> (at: Seq<
    int,
>)
    ensures
        shards_from(schemas, shards, id, shards_of(schemas, shards, id), at),
        ordered(shards_of(schemas, shards, id), shard_leq()),
    decreases shards.len(),
{
    let got = shards_of(schemas, shards, id);
    let le = shard_leq();
    if shards.len() == 0 {
        Seq::empty()
    } else {
        let n = shards.len() - 1;
        let init = shards.drop_last();
        let before = shards_of(schemas, init, id);
        let old_at = lemma_shards_from(schemas, init, id);
        assert forall|k: int| 0 <= k < n implies #[trigger] init[k] == shards[k] by {}
        if shards[n].instance_id == id {
            let x = shard_value(schemas, shards[n]);
            let p = insert_pos(before, x, le) as int;
            lemma_insert_pos_bound(before, x, le);
            lemma_shard_order();
            lemma_insert_ordered(before, x, le);
            let at = old_at.insert(p, n);
            assert(got == before.insert(p, x));
            assert forall|i: int| 0 <= i < at.len() implies 0 <= #[trigger] at[i] < shards.len()
                && shards[at[i]].instance_id == id && got[i].shard_id == shards[at[i]].shard_id
                && got[i] == shard_value(schemas, shards[at[i]]) by {
                if i < p {
                    assert(at[i] == old_at[i] && got[i] == before[i]);
                } else if i > p {
                    assert(at[i] == old_at[i - 1] && got[i] == before[i - 1]);
                }
            }
            assert forall|i: int, j: int| 0 <= i < j < at.len() implies at[i] != at[j] by {
                let i0 = if i < p {
                    i
                } else {
                    i - 1
                };
                let j0 = if j < p {
                    j
                } else {
                    j - 1
                };
                if i != p {
                    assert(at[i] == old_at[i0]);
                }
                if j != p {
                    assert(at[j] == old_at[j0]);
                }
            }
            assert forall|k: int|
                0 <= k < shards.len() && (#[trigger] shards[k]).instance_id
                    == id implies at.contains(k) by {
                if k < n {
                    assert(init[k].instance_id == id);
                    let i = choose|i: int| 0 <= i < old_at.len() && old_at[i] == k;
                    if i < p {
                        assert(at[i] == k);
                    } else {
                        assert(at[i + 1] == k);
                    }
                } else {
                    assert(at[p] == k);
                }
            }
            assert forall|i: int, j: int| 0 <= i < j < got.len() implies got[i].shard_id
                <= got[j].shard_id by {
                assert(le(got[i], got[j]));
            }
            at
        } else {
            assert forall|k: int|
                0 <= k < shards.len() && (#[trigger] shards[k]).instance_id
                    == id implies old_at.contains(k) by {
                assert(init[k].instance_id == id);
            }
            old_at
        }
    }
}

/// The host of an instance is that of its last metadata, or empty.
pub open spec fn has_host(metas: Seq<MetaView>, id: u64, host: Seq<char>) -> bool {
    &&& forall|i: int| #[trigger] is_last_meta(metas, id, i) ==> host == metas[i].host
    &&& (forall|i: int| 0 <= i < metas.len() ==> (#[trigger] metas[i]).instance_id != id)
        ==> host.len() == 0
}

/// The strings of an instance are those of the last entries of its tables, and no others.
pub open spec fn has_strings(
    tables: Seq<InternView>,
    instance: u64,
    strings: Map<u32, Seq<char>>,
) -> bool {
    &&& forall|id: u32, t: int, e: int| #[trigger]
        gives_last(tables, instance, id, t, e) ==> strings.dom().contains(id) && strings[id]
            == text_of(tables[t].entries[e].1)
    &&& forall|id: u32| #[trigger]
        strings.dom().contains(id) ==> exists|t: int, e: int| #[trigger]
            gives(tables, instance, id, t, e)
}

/// The registry is the dump's, in the order of names.
pub open spec fn has_registry(schemas: Seq<SchemaView>, got: Seq<SchemaView>) -> bool {
    &&& got.len() == schemas.len()
    &&& forall|s: SchemaView| #[trigger] got.contains(s) == schemas.contains(s)
    &&& forall|a: int, b: int|
        #![trigger got[a], got[b]]
        0 <= a < b < got.len() ==> name_le(got[a].name, got[b].name)
}

/// The host of an instance.
proof fn lemma_has_host(metas: Seq<MetaView>, id: u64)
    ensures
        has_host(metas, id, host_of(metas, id)),
{
    assert forall|i: int| #[trigger] is_last_meta(metas, id, i) implies host_of(metas, id)
        == metas[i].host by {
        lemma_last_host(metas, id, i);
    }
    if forall|i: int| 0 <= i < metas.len() ==> (#[trigger] metas[i]).instance_id != id {
        lemma_no_host(metas, id);
    }
}

/// The strings of an instance.
proof fn lemma_has_strings(tables: Seq<InternView>, instance: u64)
    ensures
        has_strings(tables, instance, intern_of(tables, instance)),
{
    let strings = intern_of(tables, instance);
    assert forall|id: u32, t: int, e: int| #[trigger]
        gives_last(tables, instance, id, t, e) implies strings.dom().contains(id) && strings[id]
        == text_of(tables[t].entries[e].1) by {
        lemma_last_string(tables, instance, id, t, e);
    }
    assert forall|id: u32| #[trigger] strings.dom().contains(id) implies exists|t: int, e: int|
        #[trigger] gives(tables, instance, id, t, e) by {
        if forall|t: int, e: int| !#[trigger] gives(tables, instance, id, t, e) {
            lemma_no_string(tables, instance, id);
        }
    }
}

/// The registry of an instance.
proof fn lemma_has_registry(schemas: Seq<SchemaView>)
    ensures
        has_registry(schemas, sorted_schemas(schemas)),
{
    let got = sorted_schemas(schemas);
    let le = schema_leq();
    lemma_stable_sort_len(schemas, le);
    lemma_schema_order();
    lemma_stable_sort_ordered(schemas, le);
    assert forall|s: SchemaView| #[trigger] got.contains(s) == schemas.contains(s) by {
        lemma_stable_sort_contains(schemas, le, s);
    }
    assert forall|a: int, b: int|
        #![trigger got[a], got[b]]
        0 <= a < b < got.len() implies name_le(got[a].name, got[b].name) by {
        assert(le(got[a], got[b]));
    }
}

/// What an instance has of a dump.
pub open spec fn is_instance(path: Seq<char>, parts: DumpParts, got: LoadedView) -> bool {
    &&& got.path == path
    &&& got.views == parts.views
    &&& has_host(parts.metas, got.instance_id, got.host)
    &&& has_strings(parts.interns, got.instance_id, got.intern)
    &&& has_registry(parts.schemas, got.schemas)
    &&& exists|at: Seq<int>| #[trigger]
        shards_from(got.schemas, parts.shards, got.instance_id, got.shards, at)
}

/// One instance of a dump.
proof fn lemma_is_instance(path: Seq<char>, parts: DumpParts, id: u64)
    ensures
        is_instance(path, parts, loaded_one(path, parts, id)),
{
    let got = loaded_one(path, parts, id);
    lemma_has_host(parts.metas, id);
    lemma_has_strings(parts.interns, id);
    lemma_has_registry(parts.schemas);
    let at = lemma_shards_from(got.schemas, parts.shards, id);
    assert(shards_from(got.schemas, parts.shards, id, got.shards, at));
    assert(got.path == path);
    assert(got.views == parts.views);
    assert(got.instance_id == id);
    assert(has_host(parts.metas, got.instance_id, got.host));
    assert(has_strings(parts.interns, got.instance_id, got.intern));
    assert(has_registry(parts.schemas, got.schemas));
    assert(exists|at: Seq<int>| #[trigger]
        shards_from(got.schemas, parts.shards, got.instance_id, got.shards, at));
    assert(is_instance(path, parts, got));
}

/// Loading a dump gives one instance for each that has metadata or a shard in it, ascending by
/// instance id, or the one instance 0 where there is neither. Each has the path, the dump's view
/// sets, and the dump's registry in the order of names; the host of its last metadata, or none; of
/// each interned id the string of the last entry of its tables, and no others; and its shards, in the
/// order of their ids.
pub proof fn law_loaded_instances(
    path: &str,
    bytes: Bytes,
    v: Vec<Loaded>,
    sections: Seq<SectionView>,
    parts: DumpParts,
)
    requires
        call_ensures(load, (path, bytes), Ok::<Vec<Loaded>, LoadError>(v)),
        p_dump(bytes_of(bytes)) matches Ok(d) && d.sections == sections,
        dump_parts(sections) == Ok::<DumpParts, Error>(parts),
    ensures
        v@.len() > 0,
        forall|i: int| 0 <= i < v@.len() ==> is_instance(path@, parts, (#[trigger] v@[i])@),
        forall|i: int, j: int| 0 <= i < j < v@.len() ==> v@[i].instance_id < v@[j].instance_id,
        forall|id: u64| #[trigger]
            has_instance(parts, id) ==> exists|i: int|
                0 <= i < v@.len() && (#[trigger] v@[i]).instance_id == id,
        forall|i: int|
            0 <= i < v@.len() ==> has_instance(parts, (#[trigger] v@[i]).instance_id) || (v@.len()
                == 1 && v@[i].instance_id == 0),
{
    let ids = instance_ids(parts.metas, parts.shards);
    let named = meta_ids(parts.metas);
    let held = with_shard_ids(named, parts.shards);
    let got = loaded_all(path@, parts);
    assert(loaded_view(v@) == got);
    assert(got.len() == ids.len());
    lemma_file_ids_ascend(parts.metas, parts.shards);
    lemma_instance_ids(parts.metas, parts.shards);
    lemma_meta_ids(parts.metas);
    lemma_shard_ids(named, parts.shards);
    assert forall|i: int| 0 <= i < v@.len() implies (#[trigger] v@[i])@ == loaded_one(
        path@,
        parts,
        ids[i],
    ) by {
        assert(loaded_view(v@)[i] == got[i]);
    }
    assert forall|i: int| 0 <= i < v@.len() implies is_instance(path@, parts, (#[trigger] v@[i])@) by {
        lemma_is_instance(path@, parts, ids[i]);
    }
    assert forall|i: int| 0 <= i < v@.len() implies (#[trigger] v@[i]).instance_id == ids[i] by {
        assert(v@[i]@.instance_id == ids[i]);
    }
    assert forall|id: u64| #[trigger] has_instance(parts, id) implies exists|i: int|
        0 <= i < v@.len() && (#[trigger] v@[i]).instance_id == id by {
        lemma_meta_ids_are(parts.metas, id);
        assert(held.contains(id));
        let i = choose|i: int| 0 <= i < ids.len() && ids[i] == id;
        assert(v@[i].instance_id == id);
    }
    assert forall|i: int| 0 <= i < v@.len() implies has_instance(
        parts,
        (#[trigger] v@[i]).instance_id,
    ) || (v@.len() == 1 && v@[i].instance_id == 0) by {
        let id = ids[i];
        if held.len() > 0 {
            assert(held.contains(id));
            lemma_shard_ids_origin(named, parts.shards, id);
            lemma_meta_ids_are(parts.metas, id);
        }
    }
}

/// A dump with a shard that is too large to be addressed is refused with the capacity of the first
/// such shard; one that loads has none.
pub proof fn law_large_shards_refused(
    path: &str,
    bytes: Bytes,
    r: Result<Vec<Loaded>, LoadError>,
    sections: Seq<SectionView>,
    parts: DumpParts,
)
    requires
        call_ensures(load, (path, bytes), r),
        p_dump(bytes_of(bytes)) matches Ok(d) && d.sections == sections,
        dump_parts(sections) == Ok::<DumpParts, Error>(parts),
    ensures
        forall|k: int|
            #![trigger parts.shards[k]]
            0 <= k < parts.shards.len() && parts.shards[k].capacity > 0xffff_ffff && (forall|j: int|
                0 <= j < k ==> (#[trigger] parts.shards[j]).capacity <= 0xffff_ffff) ==> r == Err::<
                Vec<Loaded>,
                LoadError,
            >(LoadError::ShardTooLarge(parts.shards[k].capacity)),
        (forall|j: int|
            0 <= j < parts.shards.len() ==> (#[trigger] parts.shards[j]).capacity <= 0xffff_ffff)
            ==> r is Ok,
{
    assert forall|k: int|
        #![trigger parts.shards[k]]
        0 <= k < parts.shards.len() && parts.shards[k].capacity > 0xffff_ffff && (forall|j: int|
            0 <= j < k ==> (#[trigger] parts.shards[j]).capacity <= 0xffff_ffff) implies r == Err::<
        Vec<Loaded>,
        LoadError,
    >(LoadError::ShardTooLarge(parts.shards[k].capacity)) by {
        lemma_too_large(parts.shards, k);
    }
    if forall|j: int|
        0 <= j < parts.shards.len() ==> (#[trigger] parts.shards[j]).capacity <= 0xffff_ffff {
        lemma_none_too_large(parts.shards);
    }
}

/// The first shard that is too large.
proof fn lemma_too_large(shards: Seq<ShardView>, k: int)
    requires
        0 <= k < shards.len(),
        shards[k].capacity > 0xffff_ffff,
        forall|j: int| 0 <= j < k ==> (#[trigger] shards[j]).capacity <= 0xffff_ffff,
    ensures
        too_large(shards) == Some(shards[k].capacity),
    decreases shards.len(),
{
    let init = shards.drop_last();
    assert forall|j: int| 0 <= j < init.len() implies #[trigger] init[j] == shards[j] by {}
    if k < shards.len() - 1 {
        assert forall|j: int| 0 <= j < k implies (#[trigger] init[j]).capacity <= 0xffff_ffff by {
            assert(shards[j].capacity <= 0xffff_ffff);
        }
        lemma_too_large(init, k);
    } else {
        assert forall|j: int| 0 <= j < init.len() implies (#[trigger] init[j]).capacity
            <= 0xffff_ffff by {
            assert(shards[j].capacity <= 0xffff_ffff);
        }
        lemma_none_too_large(init);
    }
}

/// Shards of which none is too large.
proof fn lemma_none_too_large(shards: Seq<ShardView>)
    requires
        forall|j: int| 0 <= j < shards.len() ==> (#[trigger] shards[j]).capacity <= 0xffff_ffff,
    ensures
        too_large(shards) is None,
    decreases shards.len(),
{
    if shards.len() > 0 {
        let init = shards.drop_last();
        assert(shards[shards.len() - 1].capacity <= 0xffff_ffff);
        assert forall|j: int| 0 <= j < init.len() implies (#[trigger] init[j]).capacity
            <= 0xffff_ffff by {
            assert(shards[j].capacity <= 0xffff_ffff);
        }
        lemma_none_too_large(init);
    }
}

// ---------------------------------------------------------------------------
// Which bytes are a record.
// ---------------------------------------------------------------------------

/// Where ids are distinct, a payload is taken for a record exactly if, behind the time, it has the id
/// of a registered event, and behind that as many bytes as that event's records have.
pub proof fn law_record_is_recognised(schemas: Seq<SchemaView>, payload: Seq<u8>)
    requires
        forall|i: int, j: int|
            #![trigger schemas[i], schemas[j]]
            0 <= i < j < schemas.len() ==> schemas[i].id != schemas[j].id,
    ensures
        is_record(schemas, payload) <==> exists|k: int|
            #![trigger schemas[k]]
            0 <= k < schemas.len() && payload.len() == 16 + schemas[k].record_size && le_value(
                payload.subrange(8, 16),
            ) == schemas[k].id,
{
    if payload.len() >= 16 {
        let id = crate::record::record_id(payload);
        lemma_schema_of_id(schemas, id);
        crate::le::lemma_le_value_bound(payload.subrange(8, 16));
        crate::le::lemma_pow256_values();
        assert(id == le_value(payload.subrange(8, 16)));
        if let Some(k) = schema_of_id(schemas, id) {
            assert(schemas[k as int].id == id);
        }
    }
}

} // verus!
