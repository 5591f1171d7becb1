//! Combining several dumps into one multi-instance dump.
//!
//! * With de-duplication: decode each input's records, drop duplicates, and re-pack the survivors
//!   into fresh, compact shards: one record per distinct event.
//! * Without: copy every input's section bodies through verbatim and union the registries. Nothing
//!   is decoded but the registries, so overlapping dumps keep their duplicates.
//!
//! Either way the registry is unioned by id and instance ids are preserved.

use crate::buf::{bytes_as_slice, bytes_of};
use crate::convert::{add_schemas, union_of, union_schemas, union_views, views_of, with_schemas};
use crate::format::SectionKind;
use crate::intern::{ascending, lemma_pairs_map, pairs_map, InternTable};
use crate::le::{lemma_le_bytes_len, put_bytes, put_le};
use crate::model::{
    inputs_view, load_many, load_many_spec, loaded_view, Input, InputError, LoadError, Loaded,
    LoadedView,
};
use crate::order::{id_insert, insert_by, insert_id, insert_pos, lemma_insert_pos};
use crate::parse::{bodies_of, dump_schemas, p_dump};
use crate::record::record_bytes;
use crate::ring::{checked_power_of_two, framed, pow2_for};
use crate::ring_laws::framed_all;
use crate::schema::SchemaView;
use crate::stream::{all_wf, is_merge, merged_view, streams, unique_records, ItemView, MergedRec};
use crate::wire::{
    bodies_len, dump_bytes, dump_len, entry_refs_view, intern_bytes, lemma_bodies_len_prefix,
    meta_bytes, owned_refs_view, owned_schemas_view, registry_bytes, shard_bytes, strings_view,
    vecs_view, DumpReader, DumpWriter, Error, InternView, MetaView, OwnedSchema, SectionView,
};
use vstd::prelude::*;
use vstd::utf8::encode_utf8;

verus! {

/// An error merging dumps.
#[derive(Clone, Copy, Debug, PartialEq, Eq, Structural)]
pub enum MergeError {
    /// An input cannot be loaded.
    Load(InputError),
    /// The merged dump would be longer than this machine can index.
    TooLarge,
}

/// A merged dump and the number of distinct event schemas in its registry.
pub struct Merged {
    pub bytes: Vec<u8>,
    pub schemas: usize,
}

// ---------------------------------------------------------------------------
// What the merges write.
// ---------------------------------------------------------------------------

/// Sections of one kind with the given bodies.
pub open spec fn sections_with(kind: u16, bodies: Seq<Seq<u8>>) -> Seq<SectionView> {
    bodies.map_values(|b: Seq<u8>| SectionView { kind, body: b })
}

/// What a splice copies from one input: metadata, intern tables, view sets and shards, verbatim.
pub open spec fn spliced_sections(sections: Seq<SectionView>) -> Seq<SectionView> {
    sections_with(3, bodies_of(sections, 3)) + sections_with(1, bodies_of(sections, 1))
        + sections_with(4, bodies_of(sections, 4)) + sections_with(2, bodies_of(sections, 2))
}

/// What a splice reads of one input: its registry and all its sections.
#[verifier::ext_equal]
pub struct SplicePart {
    pub schemas: Seq<SchemaView>,
    pub sections: Seq<SectionView>,
}

/// What a splice reads of one input, or why it cannot.
pub open spec fn splice_part(bytes: Seq<u8>) -> Result<SplicePart, Error> {
    match p_dump(bytes) {
        Ok(d) => match dump_schemas(d.sections) {
            Ok(schemas) => Ok(SplicePart { schemas, sections: d.sections }),
            Err(e) => Err(e),
        },
        Err(e) => Err(e),
    }
}

/// What a splice reads of all inputs, or the first error.
pub open spec fn splice_parts(inputs: Seq<(Seq<char>, Seq<u8>)>) -> Result<
    Seq<SplicePart>,
    InputError,
>
    decreases inputs.len(),
{
    if inputs.len() == 0 {
        Ok(Seq::empty())
    } else {
        match splice_parts(inputs.drop_last()) {
            Err(e) => Err(e),
            Ok(parts) => match splice_part(inputs.last().1) {
                Ok(part) => Ok(parts.push(part)),
                Err(e) => Err(
                    InputError {
                        input: (inputs.len() - 1) as usize,
                        error: LoadError::Decode(e),
                    },
                ),
            },
        }
    }
}

/// What a splice copies from all inputs.
pub open spec fn all_spliced(parts: Seq<SplicePart>) -> Seq<SectionView>
    decreases parts.len(),
{
    if parts.len() == 0 {
        Seq::empty()
    } else {
        all_spliced(parts.drop_last()) + spliced_sections(parts.last().sections)
    }
}

/// The registry of a splice: the union by id of the inputs' registries, as they are first seen.
pub open spec fn spliced_registry(parts: Seq<SplicePart>) -> Seq<SchemaView>
    decreases parts.len(),
{
    if parts.len() == 0 {
        Seq::empty()
    } else {
        with_schemas(spliced_registry(parts.drop_last()), parts.last().schemas)
    }
}

/// The sections of a splice.
pub open spec fn splice_sections(parts: Seq<SplicePart>) -> Seq<SectionView> {
    seq![SectionView { kind: 0, body: registry_bytes(spliced_registry(parts)) }] + all_spliced(
        parts,
    )
}

/// The payload of a merged record.
pub open spec fn payload_of(dumps: Seq<LoadedView>, item: ItemView) -> Seq<u8> {
    record_bytes(
        item.key.ts_nanos,
        dumps[item.dump as int].schemas[item.schema_idx as int].id,
        item.fields,
    )
}

/// The record belongs to the shard.
pub open spec fn in_shard(item: ItemView, shard: (u64, u32)) -> bool {
    item.key.instance_id == shard.0 && item.key.shard_id == shard.1
}

/// The payloads of the merged records of one shard, in order.
pub open spec fn shard_payloads(
    dumps: Seq<LoadedView>,
    items: Seq<ItemView>,
    shard: (u64, u32),
) -> Seq<Seq<u8>>
    decreases items.len(),
{
    if items.len() == 0 {
        Seq::empty()
    } else if in_shard(items.last(), shard) {
        shard_payloads(dumps, items.drop_last(), shard).push(payload_of(dumps, items.last()))
    } else {
        shard_payloads(dumps, items.drop_last(), shard)
    }
}

/// The order of shards: by instance, then by shard id.
pub open spec fn shard_key_le() -> spec_fn((u64, u32), (u64, u32)) -> bool {
    |a: (u64, u32), b: (u64, u32)| a.0 < b.0 || (a.0 == b.0 && a.1 <= b.1)
}

/// The shards that have a merged record, ascending.
pub open spec fn shard_keys(items: Seq<ItemView>) -> Seq<(u64, u32)>
    decreases items.len(),
{
    if items.len() == 0 {
        Seq::empty()
    } else {
        let before = shard_keys(items.drop_last());
        let key = (items.last().key.instance_id, items.last().key.shard_id);
        if before.contains(key) {
            before
        } else {
            insert_by(before, key, shard_key_le())
        }
    }
}

/// A ring region that holds the given records from its start on and is filled up with zeros.
pub open spec fn packed_region(payloads: Seq<Seq<u8>>) -> Seq<u8> {
    framed_all(payloads) + Seq::new(
        (pow2_for(framed_all(payloads).len()) - framed_all(payloads).len()) as nat,
        |i: int| 0u8,
    )
}

/// The section of one re-packed shard.
pub open spec fn packed_section(shard: (u64, u32), payloads: Seq<Seq<u8>>) -> SectionView {
    SectionView {
        kind: 2,
        body: shard_bytes(
            shard.0,
            shard.1,
            framed_all(payloads).len() as u64,
            packed_region(payloads),
        ),
    }
}

/// The sections of the re-packed shards.
pub open spec fn packed_sections(
    dumps: Seq<LoadedView>,
    items: Seq<ItemView>,
    keys: Seq<(u64, u32)>,
) -> Seq<SectionView> {
    keys.map_values(
        |k: (u64, u32)| packed_section(k, shard_payloads(dumps, items, k)),
    )
}

/// The instances of the loaded dumps, ascending.
pub open spec fn loaded_ids(dumps: Seq<LoadedView>) -> Seq<u64>
    decreases dumps.len(),
{
    if dumps.len() == 0 {
        Seq::empty()
    } else {
        id_insert(loaded_ids(dumps.drop_last()), dumps.last().instance_id)
    }
}

/// The host of an instance: that of the first loaded dump of the instance.
pub open spec fn first_host(dumps: Seq<LoadedView>, id: u64) -> Seq<char>
    decreases dumps.len(),
{
    if dumps.len() == 0 {
        Seq::empty()
    } else if dumps[0].instance_id == id {
        dumps[0].host
    } else {
        first_host(dumps.skip(1), id)
    }
}

/// The interned strings of an instance over all loaded dumps; the first string of an id counts.
pub open spec fn merged_intern(dumps: Seq<LoadedView>, id: u64) -> Map<u32, Seq<char>>
    decreases dumps.len(),
{
    if dumps.len() == 0 {
        Map::empty()
    } else {
        let before = merged_intern(dumps.drop_last(), id);
        if dumps.last().instance_id == id {
            dumps.last().intern.union_prefer_right(before)
        } else {
            before
        }
    }
}

/// The entries of a map whose ids are below `n`, ascending by id.
pub open spec fn entries_below(map: Map<u32, Seq<char>>, n: nat) -> Seq<(u32, Seq<u8>)>
    decreases n,
{
    if n == 0 {
        Seq::empty()
    } else {
        let before = entries_below(map, (n - 1) as nat);
        let id = (n - 1) as u32;
        if map.dom().contains(id) {
            before.push((id, encode_utf8(map[id])))
        } else {
            before
        }
    }
}

/// The entries of a map, ascending by id.
pub open spec fn entries_of(map: Map<u32, Seq<char>>) -> Seq<(u32, Seq<u8>)> {
    entries_below(map, 0x1_0000_0000)
}

/// The sections of one instance: its metadata, and its intern table unless it is empty.
pub open spec fn instance_sections(dumps: Seq<LoadedView>, id: u64) -> Seq<SectionView> {
    let entries = entries_of(merged_intern(dumps, id));
    seq![
        SectionView {
            kind: 3,
            body: meta_bytes(MetaView { instance_id: id, host: first_host(dumps, id) }),
        },
    ] + if entries.len() == 0 {
        Seq::<SectionView>::empty()
    } else {
        seq![
            SectionView { kind: 1, body: intern_bytes(InternView { instance_id: id, entries }) },
        ]
    }
}

/// The sections of the given instances.
pub open spec fn instances_sections(dumps: Seq<LoadedView>, ids: Seq<u64>) -> Seq<SectionView>
    decreases ids.len(),
{
    if ids.len() == 0 {
        Seq::empty()
    } else {
        instances_sections(dumps, ids.drop_last()) + instance_sections(dumps, ids.last())
    }
}

/// The sections of the view sets.
pub open spec fn view_sections(views: Seq<Seq<char>>) -> Seq<SectionView> {
    views.map_values(|v: Seq<char>| SectionView { kind: 4, body: encode_utf8(v) })
}

/// The sections of a merge with de-duplication whose merged records are `items`.
pub open spec fn dedup_sections(dumps: Seq<LoadedView>, items: Seq<ItemView>) -> Seq<SectionView> {
    seq![SectionView { kind: 0, body: registry_bytes(union_of(dumps)) }] + view_sections(
        views_of(dumps),
    ) + instances_sections(dumps, loaded_ids(dumps)) + packed_sections(
        dumps,
        items,
        shard_keys(items),
    )
}

/// The result of a merge holds the dump with the given sections and a registry of `n` schemas, or
/// says that the dump is too long.
pub open spec fn written(sections: Seq<SectionView>, n: nat, r: Option<Merged>) -> bool {
    match r {
        Some(m) => m.bytes@ == dump_bytes(sections) && m.schemas == n,
        None => dump_len(sections) > usize::MAX,
    }
}

/// The merged dump that a result holds.
pub open spec fn merged_in(r: Result<Merged, MergeError>) -> Option<Merged> {
    match r {
        Ok(m) => Some(m),
        Err(_) => None,
    }
}

// ---------------------------------------------------------------------------
// Splice: copy section bodies through verbatim.
// ---------------------------------------------------------------------------

/// The schemas of a registry, borrowed.
fn schema_refs(schemas: &Vec<OwnedSchema>) -> (refs: Vec<&OwnedSchema>)
    ensures
        owned_refs_view(refs@) == owned_schemas_view(schemas@),
{
    let mut refs: Vec<&OwnedSchema> = Vec::new();
    let mut i: usize = 0;
    while i < schemas.len()
        invariant
            i <= schemas@.len(),
            refs@.len() == i,
            forall|k: int| 0 <= k < i ==> *(#[trigger] refs@[k]) == schemas@[k],
        decreases schemas@.len() - i,
    {
        refs.push(&schemas[i]);
        i = i + 1;
    }
    assert(owned_refs_view(refs@) =~= owned_schemas_view(schemas@));
    refs
}

/// Copies section bodies of one kind into the writer.
fn put_bodies(writer: &mut DumpWriter, kind: SectionKind, bodies: Vec<Vec<u8>>)
    ensures
        final(writer)@ == old(writer)@ + sections_with(kind.code(), vecs_view(bodies@)),
{
    let ghost base = writer@;
    let ghost all = sections_with(kind.code(), vecs_view(bodies@));
    assert(writer@ =~= base + all.take(0));
    let mut i: usize = 0;
    while i < bodies.len()
        invariant
            i <= bodies@.len(),
            all == sections_with(kind.code(), vecs_view(bodies@)),
            writer@ == base + all.take(i as int),
        decreases bodies@.len() - i,
    {
        let mut copy: Vec<u8> = Vec::new();
        put_bytes(&mut copy, bodies[i].as_slice());
        assert(copy@ =~= bodies@[i as int]@);
        writer.raw_section(kind, copy);
        proof {
            assert(all[i as int] == (SectionView { kind: kind.code(), body: bodies@[i as int]@ }));
            assert(writer@ =~= base + all.take(i + 1));
        }
        i = i + 1;
    }
    assert(all.take(i as int) =~= all);
}

/// Copies what a splice takes from one input.
fn put_spliced(writer: &mut DumpWriter, reader: &DumpReader)
    ensures
        final(writer)@ == old(writer)@ + spliced_sections(reader@.sections),
{
    put_bodies(writer, SectionKind::Meta, reader.raw_bodies(SectionKind::Meta));
    put_bodies(writer, SectionKind::Intern, reader.raw_bodies(SectionKind::Intern));
    put_bodies(writer, SectionKind::Views, reader.raw_bodies(SectionKind::Views));
    put_bodies(writer, SectionKind::Shard, reader.raw_bodies(SectionKind::Shard));
    assert(writer@ =~= old(writer)@ + spliced_sections(reader@.sections));
}

/// An input that cannot be spliced stands for all inputs from it on.
proof fn lemma_splice_error(inputs: Seq<(Seq<char>, Seq<u8>)>, i: int)
    requires
        0 <= i <= inputs.len(),
        splice_parts(inputs.take(i)) is Err,
    ensures
        splice_parts(inputs) == splice_parts(inputs.take(i)),
    decreases inputs.len(),
{
    if i < inputs.len() {
        assert(inputs.drop_last().take(i) =~= inputs.take(i));
        lemma_splice_error(inputs.drop_last(), i);
    } else {
        assert(inputs.take(i) =~= inputs);
    }
}

/// Raw concatenation: unions the registries and copies every instance-tagged section and every view
/// set through verbatim.
pub fn merge_splice(inputs: &[Input]) -> (r: Result<Merged, MergeError>)
    ensures
        match splice_parts(inputs_view(inputs@)) {
            Err(e) => r matches Err(got) && got == MergeError::Load(e),
            Ok(parts) => match r {
                Ok(m) => written(splice_sections(parts), spliced_registry(parts).len(), Some(m)),
                Err(e) => e == MergeError::TooLarge && written(
                    splice_sections(parts),
                    spliced_registry(parts).len(),
                    None,
                ),
            },
        },
{
    let ghost iv = inputs_view(inputs@);
    let mut registry: Vec<OwnedSchema> = Vec::new();
    let ghost mut parts: Seq<SplicePart> = Seq::empty();
    assert(owned_schemas_view(registry@) =~= Seq::<SchemaView>::empty());
    let mut readers: Vec<DumpReader> = Vec::new();
    let mut i: usize = 0;
    while i < inputs.len()
        invariant
            i <= inputs@.len(),
            iv == inputs_view(inputs@),
            splice_parts(iv.take(i as int)) == Ok::<Seq<SplicePart>, InputError>(parts),
            owned_schemas_view(registry@) == spliced_registry(parts),
            readers@.len() == parts.len(),
            forall|k: int|
                0 <= k < parts.len() ==> (#[trigger] readers@[k])@.sections == parts[k].sections,
        decreases inputs@.len() - i,
    {
        proof {
            assert(iv.take(i + 1).drop_last() =~= iv.take(i as int));
            assert(iv.take(i + 1).last() == iv[i as int]);
            if splice_part(iv[i as int].1) is Err {
                lemma_splice_error(iv, i + 1);
            }
        }
        let reader = match DumpReader::new(inputs[i].bytes.clone()) {
            Ok(reader) => reader,
            Err(e) => return Err(
                MergeError::Load(InputError { input: i, error: LoadError::Decode(e) }),
            ),
        };
        let schemas = match reader.schemas() {
            Ok(schemas) => schemas,
            Err(e) => return Err(
                MergeError::Load(InputError { input: i, error: LoadError::Decode(e) }),
            ),
        };
        add_schemas(&mut registry, &schemas);
        proof {
            let part = splice_part(iv[i as int].1)->Ok_0;
            assert(parts.push(part).drop_last() =~= parts);
            parts = parts.push(part);
        }
        readers.push(reader);
        i = i + 1;
    }
    assert(iv.take(i as int) =~= iv);

    let mut writer = DumpWriter::new();
    writer.schema_registry_owned(schema_refs(&registry).as_slice());
    let ghost head = writer@;
    assert(parts.take(0) =~= Seq::<SplicePart>::empty());
    assert(writer@ =~= head + all_spliced(parts.take(0)));
    let mut k: usize = 0;
    while k < readers.len()
        invariant
            k <= readers@.len(),
            readers@.len() == parts.len(),
            forall|k: int|
                0 <= k < parts.len() ==> (#[trigger] readers@[k])@.sections == parts[k].sections,
            writer@ == head + all_spliced(parts.take(k as int)),
        decreases readers@.len() - k,
    {
        put_spliced(&mut writer, &readers[k]);
        proof {
            assert(parts.take(k + 1).drop_last() =~= parts.take(k as int));
            assert(writer@ =~= head + all_spliced(parts.take(k + 1)));
        }
        k = k + 1;
    }
    proof {
        assert(parts.take(k as int) =~= parts);
        assert(writer@ =~= splice_sections(parts));
    }
    let schemas: usize = registry.len();
    match writer.checked_finish() {
        Some(bytes) => Ok(Merged { bytes, schemas }),
        None => Err(MergeError::TooLarge),
    }
}

// ---------------------------------------------------------------------------
// De-duplication: decode, drop duplicates, re-pack compact shards.
// ---------------------------------------------------------------------------

/// Appends one record payload and its length suffix.
fn write_record(out: &mut Vec<u8>, ts_nanos: u64, event_id: u64, fields: &[u8])
    requires
        fields@.len() + 16 <= usize::MAX,
    ensures
        final(out)@ == old(out)@ + framed(record_bytes(ts_nanos, event_id, fields@)),
{
    let payload_len: usize = fields.len() + 16;
    put_le(out, ts_nanos, 8);
    put_le(out, event_id, 8);
    put_bytes(out, fields);
    put_le(out, payload_len as u64, 2);
    proof {
        lemma_le_bytes_len(ts_nanos as nat, 8);
        lemma_le_bytes_len(event_id as nat, 8);
        assert(out@ =~= old(out)@ + framed(record_bytes(ts_nanos, event_id, fields@)));
    }
}

/// The surviving records of one shard, as they will stand in its re-packed ring.
struct Group {
    instance_id: u64,
    shard_id: u32,
    region: Vec<u8>,
}

/// The shards of a run of groups.
spec fn group_keys(groups: Seq<Group>) -> Seq<(u64, u32)> {
    groups.map_values(|g: Group| (g.instance_id, g.shard_id))
}

/// Shards strictly ascend.
spec fn keys_ascend(keys: Seq<(u64, u32)>) -> bool {
    let le = shard_key_le();
    forall|i: int, j: int|
        #![trigger keys[i], keys[j]]
        0 <= i < j < keys.len() ==> le(keys[i], keys[j]) && keys[i] != keys[j]
}

/// Each group holds the records of its shard, and every shard with a record has a group.
spec fn grouped(dumps: Seq<LoadedView>, items: Seq<ItemView>, groups: Seq<Group>) -> bool {
    &&& group_keys(groups) == shard_keys(items)
    &&& keys_ascend(group_keys(groups))
    &&& forall|g: int|
        0 <= g < groups.len() ==> (#[trigger] groups[g]).region@ == framed_all(
            shard_payloads(dumps, items, (groups[g].instance_id, groups[g].shard_id)),
        )
}

/// A shard without a group has no record.
pub proof fn lemma_no_payloads(dumps: Seq<LoadedView>, items: Seq<ItemView>, shard: (u64, u32))
    requires
        !shard_keys(items).contains(shard),
    ensures
        shard_payloads(dumps, items, shard) == Seq::<Seq<u8>>::empty(),
    decreases items.len(),
{
    if items.len() > 0 {
        let before = shard_keys(items.drop_last());
        let key = (items.last().key.instance_id, items.last().key.shard_id);
        let after = shard_keys(items);
        if before.contains(shard) {
            let i = choose|i: int| 0 <= i < before.len() && before[i] == shard;
            if !before.contains(key) {
                let p = insert_pos(before, key, shard_key_le()) as int;
                crate::order::lemma_insert_pos_bound(before, key, shard_key_le());
                assert(after[if i < p {
                    i
                } else {
                    i + 1
                }] == shard);
            }
        }
        if key == shard && !before.contains(key) {
            let p = insert_pos(before, key, shard_key_le()) as int;
            crate::order::lemma_insert_pos_bound(before, key, shard_key_le());
            assert(after[p] == key);
        }
        lemma_no_payloads(dumps, items.drop_last(), shard);
    }
}

/// Puts a record into the group of its shard.
fn add_to_group(
    groups: &mut Vec<Group>,
    rec: &MergedRec,
    event_id: u64,
    Ghost(dumps): Ghost<Seq<LoadedView>>,
    Ghost(items): Ghost<Seq<ItemView>>,
)
    requires
        items.len() > 0,
        items.last() == rec@,
        event_id == dumps[rec.dump as int].schemas[rec.schema_idx as int].id,
        grouped(dumps, items.drop_last(), old(groups)@),
        bytes_of(rec.fields).len() + 16 <= usize::MAX,
    ensures
        grouped(dumps, items, final(groups)@),
{
    let ghost g0 = groups@;
    let ghost keys = group_keys(groups@);
    let ghost init = items.drop_last();
    let ghost key = (rec.loaded.instance_id, rec.shard_id);
    let ghost le = shard_key_le();
    let instance_id: u64 = rec.loaded.instance_id;
    let shard_id: u32 = rec.shard_id;
    let mut p: usize = 0;
    while p < groups.len() && (groups[p].instance_id < instance_id || (groups[p].instance_id
        == instance_id && groups[p].shard_id < shard_id))
        invariant
            p <= groups@.len(),
            groups@ == g0,
            keys == group_keys(g0),
            key == (instance_id, shard_id),
            le == shard_key_le(),
            forall|j: int| 0 <= j < p ==> le(#[trigger] keys[j], key) && keys[j] != key,
        decreases groups@.len() - p,
    {
        assert(keys[p as int] == (groups@[p as int].instance_id, groups@[p as int].shard_id));
        p = p + 1;
    }
    let fields = bytes_as_slice(&rec.fields);
    if p < groups.len() && groups[p].instance_id == instance_id && groups[p].shard_id == shard_id {
        assert(keys[p as int] == key);
        assert(shard_keys(init).contains(key));
        write_record(&mut groups[p].region, rec.ts_nanos, event_id, fields);
        proof {
            assert(group_keys(groups@) =~= keys);
            assert forall|g: int| 0 <= g < groups@.len() implies (#[trigger] groups@[g]).region@
                == framed_all(
                shard_payloads(dumps, items, (groups@[g].instance_id, groups@[g].shard_id)),
            ) by {
                let k = (groups@[g].instance_id, groups@[g].shard_id);
                assert(k == keys[g]);
                if g == p {
                    let before = shard_payloads(dumps, init, k);
                    assert(before.push(payload_of(dumps, rec@)).drop_last() =~= before);
                } else {
                    assert(groups@[g] == g0[g]);
                    assert(k != key) by {
                        assert(keys[g] != keys[p as int]);
                    }
                }
            }
        }
    } else {
        let mut region: Vec<u8> = Vec::new();
        write_record(&mut region, rec.ts_nanos, event_id, fields);
        let group = Group { instance_id, shard_id, region };
        proof {
            assert(!keys.contains(key)) by {
                if keys.contains(key) {
                    let i = choose|i: int| 0 <= i < keys.len() && keys[i] == key;
                    assert(keys[p as int] == (g0[p as int].instance_id, g0[p as int].shard_id));
                    if p < i {
                        assert(le(keys[p as int], keys[i]));
                    }
                }
            }
            if p < keys.len() {
                assert(keys[p as int] == (g0[p as int].instance_id, g0[p as int].shard_id));
            }
            lemma_insert_pos(keys, key, le, p as int);
            lemma_no_payloads(dumps, init, key);
        }
        groups.insert(p, group);
        proof {
            let after = group_keys(groups@);
            assert(after =~= keys.insert(p as int, key));
            assert forall|i: int, j: int|
                #![trigger after[i], after[j]]
                0 <= i < j < after.len() implies le(after[i], after[j]) && after[i] != after[j] by {
                let i0 = if i < p {
                    i
                } else {
                    i - 1
                };
                let j0 = if j < p {
                    j
                } else {
                    j - 1
                };
                if i != p && j != p {
                    assert(after[i] == keys[i0] && after[j] == keys[j0]);
                } else if i == p {
                    assert(after[j] == keys[j0]);
                    assert(keys[p as int] == (g0[p as int].instance_id, g0[p as int].shard_id));
                    if p < j0 {
                        assert(le(keys[p as int], keys[j0]));
                    }
                } else {
                    assert(after[i] == keys[i0]);
                }
            }
            assert forall|g: int| 0 <= g < groups@.len() implies (#[trigger] groups@[g]).region@
                == framed_all(
                shard_payloads(dumps, items, (groups@[g].instance_id, groups@[g].shard_id)),
            ) by {
                let k = (groups@[g].instance_id, groups@[g].shard_id);
                if g == p {
                    let before = shard_payloads(dumps, init, k);
                    assert(before =~= Seq::<Seq<u8>>::empty());
                    assert(before.push(payload_of(dumps, rec@)).drop_last() =~= before);
                    assert(groups@[g].region@ =~= framed_all(before) + framed(
                        payload_of(dumps, rec@),
                    ));
                } else {
                    let g1 = if g < p {
                        g
                    } else {
                        g - 1
                    };
                    assert(groups@[g] == g0[g1]);
                    assert(keys[g1] == k);
                    assert(keys.contains(k));
                }
            }
        }
    }
}

/// A section's body is no longer than all bodies.
proof fn lemma_body_le(sections: Seq<SectionView>, i: int)
    requires
        0 <= i < sections.len(),
    ensures
        sections[i].body.len() <= bodies_len(sections),
{
    lemma_bodies_len_prefix(sections, i + 1);
    assert(sections.take(i + 1).drop_last() =~= sections.take(i));
}

/// Fills the region of a re-packed shard up to its capacity, unless no machine word counts it.
fn fill_region(region: Vec<u8>, Ghost(payloads): Ghost<Seq<Seq<u8>>>) -> (r: Option<Vec<u8>>)
    requires
        region@ == framed_all(payloads),
    ensures
        match r {
            Some(v) => v@ == packed_region(payloads),
            None => packed_region(payloads).len() > usize::MAX,
        },
{
    let mut region = region;
    let ghost start = region@;
    match checked_power_of_two(region.len()) {
        Some(c) => {
            while region.len() < c
                invariant
                    start.len() <= region@.len() <= c,
                    region@ == start + Seq::new((region@.len() - start.len()) as nat, |i: int| 0u8),
                decreases c - region@.len(),
            {
                region.push(0);
                assert(region@ =~= start + Seq::new(
                    (region@.len() - start.len()) as nat,
                    |i: int| 0u8,
                ));
            }
            Some(region)
        },
        None => None,
    }
}

/// The host of an instance: that of the first loaded dump of the instance.
fn host_for(dumps: &[Loaded], id: u64) -> (host: &str)
    ensures
        host@ == first_host(loaded_view(dumps@), id),
{
    let ghost view = loaded_view(dumps@);
    assert(view.skip(0) =~= view);
    let mut i: usize = 0;
    while i < dumps.len()
        invariant
            i <= dumps@.len(),
            view == loaded_view(dumps@),
            first_host(view, id) == first_host(view.skip(i as int), id),
        decreases dumps@.len() - i,
    {
        assert(view.skip(i as int)[0] == dumps@[i as int]@);
        if dumps[i].instance_id == id {
            return dumps[i].host.as_str();
        }
        assert(view.skip(i as int).skip(1) =~= view.skip(i + 1));
        i = i + 1;
    }
    proof {
        reveal_strlit("");
        assert(""@ =~= Seq::<char>::empty());
    }
    ""
}

/// The interned strings of an instance over all loaded dumps; the first string of an id counts.
fn intern_for(dumps: &[Loaded], id: u64) -> (table: InternTable)
    ensures
        table@ == merged_intern(loaded_view(dumps@), id),
{
    let ghost view = loaded_view(dumps@);
    let mut table = InternTable::new();
    assert(table@ =~= merged_intern(view.take(0), id));
    let mut i: usize = 0;
    while i < dumps.len()
        invariant
            i <= dumps@.len(),
            view == loaded_view(dumps@),
            table@ == merged_intern(view.take(i as int), id),
        decreases dumps@.len() - i,
    {
        proof {
            assert(view[i as int] == dumps@[i as int]@);
            assert(view.take(i + 1).drop_last() =~= view.take(i as int));
        }
        if dumps[i].instance_id == id {
            let entries = dumps[i].intern.entries();
            let ghost before = table@;
            let ghost ev = entries@;
            assert(ev.take(0) =~= Seq::<(u32, &String)>::empty());
            assert(table@ =~= pairs_map(ev.take(0)).union_prefer_right(before));
            let mut j: usize = 0;
            while j < entries.len()
                invariant
                    j <= entries@.len(),
                    ev == entries@,
                    ascending(ev),
                    table@ == pairs_map(ev.take(j as int)).union_prefer_right(before),
                decreases entries@.len() - j,
            {
                let ghost seen = pairs_map(ev.take(j as int));
                let ghost at = table@;
                proof {
                    assert(ev.take(j + 1).drop_last() =~= ev.take(j as int));
                    lemma_pairs_map(ev.take(j as int));
                    assert(!seen.dom().contains(ev[j as int].0));
                }
                let present = table.get(entries[j].0).is_some();
                if !present {
                    let text = entries[j].1.clone();
                    table.insert(entries[j].0, text);
                }
                assert(table@ =~= pairs_map(ev.take(j + 1)).union_prefer_right(before));
                j = j + 1;
            }
            assert(ev.take(j as int) =~= ev);
        }
        i = i + 1;
    }
    assert(view.take(i as int) =~= view);
    table
}

/// The bytes of a run of interned strings.
spec fn encoded(entries: Seq<(u32, &String)>) -> Seq<(u32, Seq<u8>)> {
    entries.map_values(|e: (u32, &String)| (e.0, encode_utf8(e.1@)))
}

/// The entries of a table are those of its map.
proof fn lemma_entries_below(
    entries: Seq<(u32, &String)>,
    map: Map<u32, Seq<char>>,
    n: nat,
    k: int,
)
    requires
        ascending(entries),
        pairs_map(entries) == map,
        n <= 0x1_0000_0000,
        0 <= k <= entries.len(),
        forall|j: int| 0 <= j < k ==> (#[trigger] entries[j]).0 < n,
        forall|j: int| k <= j < entries.len() ==> (#[trigger] entries[j]).0 >= n,
    ensures
        entries_below(map, n) == encoded(entries).take(k),
    decreases n,
{
    lemma_pairs_map(entries);
    if n == 0 {
        if k > 0 {
            assert(entries[0].0 < n);
        }
        assert(encoded(entries).take(k) =~= Seq::<(u32, Seq<u8>)>::empty());
    } else {
        let id = (n - 1) as u32;
        if k > 0 && entries[k - 1].0 == id {
            lemma_entries_below(entries, map, (n - 1) as nat, k - 1);
            assert(map.dom().contains(entries[k - 1].0));
            assert(encoded(entries).take(k) =~= encoded(entries).take(k - 1).push(
                (id, encode_utf8(map[id])),
            ));
        } else {
            assert forall|j: int| 0 <= j < k implies (#[trigger] entries[j]).0 < n - 1 by {
                if j < k - 1 {
                    assert(entries[j].0 < entries[k - 1].0);
                }
            }
            if map.dom().contains(id) {
                let j = choose|j: int| 0 <= j < entries.len() && entries[j].0 == id;
                if j < k {
                    assert(entries[j].0 < n - 1);
                }
            }
            lemma_entries_below(entries, map, (n - 1) as nat, k);
        }
    }
}

/// Writes the metadata of one instance, and its intern table unless it is empty.
fn put_instance(writer: &mut DumpWriter, dumps: &[Loaded], id: u64)
    ensures
        final(writer)@ == old(writer)@ + instance_sections(loaded_view(dumps@), id),
{
    let ghost view = loaded_view(dumps@);
    let ghost base = writer@;
    writer.meta(id, host_for(dumps, id));
    let table = intern_for(dumps, id);
    let entries = table.entries();
    let mut refs: Vec<(u32, &[u8])> = Vec::new();
    let mut i: usize = 0;
    while i < entries.len()
        invariant
            i <= entries@.len(),
            refs@.len() == i,
            forall|k: int|
                0 <= k < i ==> (#[trigger] refs@[k]).0 == entries@[k].0 && refs@[k].1@
                    == encode_utf8(entries@[k].1@),
        decreases entries@.len() - i,
    {
        refs.push((entries[i].0, entries[i].1.as_str().as_bytes()));
        i = i + 1;
    }
    proof {
        lemma_entries_below(entries@, table@, 0x1_0000_0000, entries@.len() as int);
        assert(encoded(entries@).take(entries@.len() as int) =~= encoded(entries@));
        assert(entry_refs_view(refs@) =~= encoded(entries@));
        assert(entry_refs_view(refs@) == entries_of(merged_intern(view, id)));
    }
    if refs.len() > 0 {
        writer.intern_table(id, refs.as_slice());
    }
    assert(writer@ =~= base + instance_sections(view, id));
}

/// The instances of the loaded dumps, ascending.
fn ids_of(dumps: &[Loaded]) -> (ids: Vec<u64>)
    ensures
        ids@ == loaded_ids(loaded_view(dumps@)),
{
    let ghost view = loaded_view(dumps@);
    let mut ids: Vec<u64> = Vec::new();
    assert(ids@ =~= loaded_ids(view.take(0)));
    let mut i: usize = 0;
    while i < dumps.len()
        invariant
            i <= dumps@.len(),
            view == loaded_view(dumps@),
            ids@ == loaded_ids(view.take(i as int)),
            forall|a: int, b: int| 0 <= a < b < ids@.len() ==> ids@[a] < ids@[b],
        decreases dumps@.len() - i,
    {
        proof {
            assert(view[i as int] == dumps@[i as int]@);
            assert(view.take(i + 1).drop_last() =~= view.take(i as int));
        }
        insert_id(&mut ids, dumps[i].instance_id);
        i = i + 1;
    }
    assert(view.take(i as int) =~= view);
    ids
}

/// The surviving records of all loaded dumps, shard by shard.
fn group_records(dumps: &[Loaded]) -> (r: (Vec<Group>, Ghost<Seq<ItemView>>))
    requires
        all_wf(dumps@),
    ensures
        is_merge(streams(loaded_view(dumps@)), r.1@),
        grouped(loaded_view(dumps@), r.1@, r.0@),
{
    let ghost view = loaded_view(dumps@);
    let recs = unique_records(dumps);
    let ghost items = merged_view(recs@);
    let mut groups: Vec<Group> = Vec::new();
    assert(group_keys(groups@) =~= shard_keys(items.take(0)));
    let mut i: usize = 0;
    while i < recs.len()
        invariant
            i <= recs@.len(),
            view == loaded_view(dumps@),
            items == merged_view(recs@),
            grouped(view, items.take(i as int), groups@),
            forall|i: int|
                0 <= i < recs@.len() ==> (#[trigger] recs@[i]).dump < dumps@.len()
                    && *recs@[i].loaded == dumps@[recs@[i].dump as int] && recs@[i].schema_idx
                    < recs@[i].loaded.schemas@.len() && bytes_of(recs@[i].fields).len()
                    == recs@[i].loaded.schemas@[recs@[i].schema_idx as int].record_size,
        decreases recs@.len() - i,
    {
        let rec = &recs[i];
        let event_id: u64 = rec.loaded.schemas[rec.schema_idx].id.get();
        proof {
            assert(items.take(i + 1).drop_last() =~= items.take(i as int));
            assert(items[i as int] == rec@);
            assert(view[rec.dump as int] == dumps@[rec.dump as int]@);
        }
        add_to_group(&mut groups, rec, event_id, Ghost(view), Ghost(items.take(i + 1)));
        i = i + 1;
    }
    assert(items.take(i as int) =~= items);
    (groups, Ghost(items))
}

/// Drops duplicate records and re-encodes compact rings, one per instance and shard. Every instance
/// keeps its metadata even where it is left with no records.
pub fn merge_dedup(dumps: &[Loaded]) -> (r: Option<Merged>)
    requires
        all_wf(dumps@),
    ensures
        exists|items: Seq<ItemView>|
            is_merge(streams(loaded_view(dumps@)), items) && #[trigger] written(
                dedup_sections(loaded_view(dumps@), items),
                union_of(loaded_view(dumps@)).len(),
                r,
            ),
{
    let ghost view = loaded_view(dumps@);
    let mut writer = DumpWriter::new();

    let registry = union_schemas(dumps);
    writer.schema_registry_owned(schema_refs(&registry).as_slice());
    let ghost head = seq![SectionView { kind: 0, body: registry_bytes(union_of(view)) }];
    assert(writer@ =~= head);

    let sets = union_views(dumps);
    let ghost vs = view_sections(views_of(view));
    assert(writer@ =~= head + vs.take(0));
    let mut v: usize = 0;
    while v < sets.len()
        invariant
            v <= sets@.len(),
            strings_view(sets@) == views_of(view),
            vs == view_sections(views_of(view)),
            writer@ == head + vs.take(v as int),
        decreases sets@.len() - v,
    {
        writer.views(sets[v].as_str());
        proof {
            assert(strings_view(sets@)[v as int] == sets@[v as int]@);
            assert(writer@ =~= head + vs.take(v + 1));
        }
        v = v + 1;
    }
    assert(vs.take(v as int) =~= vs);

    let ids = ids_of(dumps);
    let ghost base = writer@;
    assert(ids@.take(0) =~= Seq::<u64>::empty());
    assert(writer@ =~= base + instances_sections(view, ids@.take(0)));
    let mut i: usize = 0;
    while i < ids.len()
        invariant
            i <= ids@.len(),
            view == loaded_view(dumps@),
            writer@ == base + instances_sections(view, ids@.take(i as int)),
        decreases ids@.len() - i,
    {
        put_instance(&mut writer, dumps, ids[i]);
        proof {
            assert(ids@.take(i + 1).drop_last() =~= ids@.take(i as int));
            assert(writer@ =~= base + instances_sections(view, ids@.take(i + 1)));
        }
        i = i + 1;
    }
    assert(ids@.take(i as int) =~= ids@);

    let (mut groups, Ghost(items)) = group_records(dumps);
    let ghost g0 = groups@;
    let ghost keys = shard_keys(items);
    let ghost packed = packed_sections(view, items, keys);
    let ghost before = writer@;
    let ghost sections = dedup_sections(view, items);
    assert(before + packed =~= sections);
    assert(writer@ =~= before + packed.take(0));
    let n: usize = groups.len();
    let mut g: usize = 0;
    while g < n
        invariant
            g <= n,
            n == g0.len(),
            keys == shard_keys(items),
            packed == packed_sections(view, items, keys),
            sections == before + packed,
            is_merge(streams(loaded_view(dumps@)), items),
            view == loaded_view(dumps@),
            sections == dedup_sections(view, items),
            grouped(view, items, g0),
            groups@ == g0.skip(g as int),
            writer@ == before + packed.take(g as int),
        decreases n - g,
    {
        let group = groups.remove(0);
        let ghost key = (group.instance_id, group.shard_id);
        let ghost payloads = shard_payloads(view, items, key);
        proof {
            assert(group == g0[g as int]);
            assert(group_keys(g0)[g as int] == key);
            assert(keys[g as int] == key);
            assert(packed[g as int] == packed_section(key, payloads));
        }
        let head_bytes: usize = group.region.len();
        match fill_region(group.region, Ghost(payloads)) {
            Some(region) => {
                writer.shard(
                    group.instance_id,
                    group.shard_id,
                    head_bytes as u64,
                    region.as_slice(),
                );
                assert(writer@ =~= before + packed.take(g + 1));
            },
            None => {
                proof {
                    assert(sections[before.len() + g] == packed[g as int]);
                    lemma_body_le(sections, before.len() + g);
                    assert(written(sections, union_of(view).len(), None));
                }
                return None;
            },
        }
        assert(groups@ =~= g0.skip(g + 1));
        g = g + 1;
    }
    assert(packed.take(g as int) =~= packed);
    let schemas: usize = registry.len();
    assert(schemas == union_of(view).len()) by {
        assert(owned_schemas_view(registry@).len() == registry@.len());
    }
    assert(writer@ == sections);
    match writer.checked_finish() {
        Some(bytes) => {
            let m = Merged { bytes, schemas };
            assert(written(sections, union_of(view).len(), Some(m)));
            Some(m)
        },
        None => {
            assert(written(sections, union_of(view).len(), None));
            None
        },
    }
}

/// Merges dumps into one multi-instance dump.
///
/// With `dedup`, records are decoded, de-duplicated and re-packed into compact shards. Without, the
/// inputs' sections are spliced through verbatim.
pub fn merge(inputs: &[Input], dedup: bool) -> (r: Result<Merged, MergeError>)
    ensures
        dedup ==> match load_many_spec(inputs_view(inputs@)) {
            Err(e) => r matches Err(got) && got == MergeError::Load(e),
            Ok(view) => exists|items: Seq<ItemView>|
                is_merge(streams(view), items) && #[trigger] written(
                    dedup_sections(view, items),
                    union_of(view).len(),
                    merged_in(r),
                ) && (r matches Err(e) ==> e == MergeError::TooLarge),
        },
        !dedup ==> match splice_parts(inputs_view(inputs@)) {
            Err(e) => r matches Err(got) && got == MergeError::Load(e),
            Ok(parts) => match r {
                Ok(m) => written(splice_sections(parts), spliced_registry(parts).len(), Some(m)),
                Err(e) => e == MergeError::TooLarge && written(
                    splice_sections(parts),
                    spliced_registry(parts).len(),
                    None,
                ),
            },
        },
{
    if dedup {
        match load_many(inputs) {
            Err(e) => Err(MergeError::Load(e)),
            Ok(dumps) => match merge_dedup(dumps.as_slice()) {
                Some(m) => Ok(m),
                None => Err(MergeError::TooLarge),
            },
        }
    } else {
        merge_splice(inputs)
    }
}

} // verus!
