//! Decoded dumps, and the merge of their records.
//!
//! A dump is decoded into one [`Loaded`] per instance it contains: its `instance_id`, the shared
//! schema registry, that instance's intern table, and the records recovered from its shards. Each
//! shard keeps its raw ring region and a compact, sorted list of [`Locator`]s into it; a record's
//! field bytes are sliced out of the region on demand.
//!
//! [`merge_records`] merges the shards of all loaded dumps into the global order and drops
//! duplicates on the fly.

use crate::buf::{bytes_as_slice, bytes_of, bytes_slice};
use crate::intern::InternTable;
use crate::order::{
    id_insert, insert_by, insert_id, lemma_insert_pos, lemma_stable_sort_len, name_le, stable_sort,
    str_le,
};
use crate::parse::{
    dump_interns, dump_metas, dump_schemas, dump_shards, dump_views, p_dump,
};
use crate::record::{record_id, record_ts, RecordView, FIELDS_OFFSET};
use crate::ring::{
    candidate, candidate_record, decides, is_candidate, lemma_read_contiguous, suffix_len,
    valid_low, walk_all, walk_from, walk_indexed, walked_view, WalkedView,
};
use crate::ring_laws::law_walk_wraps_at_most_once;
use crate::schema::SchemaView;
use crate::text::{text_of, utf8_lossy};
use crate::wire::{
    clone_schemas, clone_strings, entries_view, interns_view, metas_view, owned_schemas_view,
    shards_view, strings_view, DumpReader, Error, InternView, MetaView, OwnedIntern, OwnedMeta,
    OwnedSchema, SectionView, ShardData, ShardView,
};
pub use crate::stream::{merge_records, unique_records, MergeIter, MergedRec};
use bytes::Bytes;
use std::collections::HashMap;
use vstd::arithmetic::power2::is_pow2;
use vstd::prelude::*;
use vstd::relations::{sorted_by, total_ordering};
use vstd::seq_lib::{lemma_multiset_commutative, lemma_sorted_unique};

verus! {

/// The [`Locator::offset`] of the at-most-one record per shard that wraps the physical ring
/// boundary: its payload is held out-of-line in [`ShardRecs::wrapped`].
pub const WRAPPED: u32 = 0xffff_ffff;

/// A compact pointer to one record within a [`ShardRecs::region`].
#[derive(Clone, Copy)]
pub struct Locator {
    pub ts_nanos: u64,
    /// Physical offset of the record payload in `region`, or [`WRAPPED`] for the boundary record.
    pub offset: u32,
    /// Index into the owning [`Loaded::schemas`].
    pub schema_idx: u32,
}

/// One shard's recovered records: its id, the raw ring region, the reconstructed payload of the
/// single boundary-wrapping record (if any), and a sorted list of [`Locator`]s.
pub struct ShardRecs {
    pub shard_id: u32,
    pub region: Bytes,
    /// Reconstructed payload of the one record that wraps the ring boundary, if present.
    pub wrapped: Option<Bytes>,
    pub locs: Vec<Locator>,
}

/// A single decoded instance: its identity, the (shared) registry, its intern table, and its
/// recovered records grouped per shard.
pub struct Loaded {
    /// Where it was read from (for error messages).
    pub path: String,
    /// The producing process's id.
    pub instance_id: u64,
    /// Host label from this instance's metadata (empty if unset).
    pub host: String,
    /// The dump's schema registry, sorted by `qualified_name`. Shared by every instance in the same
    /// file.
    pub schemas: Vec<OwnedSchema>,
    /// The dump's registered query-DDL view sets (verbatim text), in file order.
    pub views: Vec<String>,
    /// This instance's interned `id` to string, for `Interned` fields.
    pub intern: InternTable,
    /// This instance's shards, ascending by `shard_id`.
    pub shards: Vec<ShardRecs>,
}

/// One file to load: where it was read from, and its bytes.
pub struct Input {
    pub path: String,
    pub bytes: Bytes,
}

/// A decoded record from a [`Loaded`].
pub struct RecRef {
    pub ts_nanos: u64,
    pub shard_id: u32,
    pub schema_idx: usize,
    pub fields: Bytes,
}

/// An error loading a dump.
#[derive(Clone, Copy, Debug, PartialEq, Eq, Structural)]
pub enum LoadError {
    /// The dump cannot be decoded.
    Decode(Error),
    /// A shard region of this many bytes exceeds the 4 GiB that a [`Locator`] can address.
    ShardTooLarge(u64),
}

/// The first of several inputs that cannot be loaded, and why.
#[derive(Clone, Copy, Debug, PartialEq, Eq, Structural)]
pub struct InputError {
    pub input: usize,
    pub error: LoadError,
}

// ---------------------------------------------------------------------------
// Values.
// ---------------------------------------------------------------------------

/// The value of one recovered record.
#[verifier::ext_equal]
pub struct RecView {
    pub ts_nanos: u64,
    pub offset: u32,
    pub schema_idx: nat,
    pub fields: Seq<u8>,
}

/// The value of one shard's recovered records.
#[verifier::ext_equal]
pub struct ShardRecsView {
    pub shard_id: u32,
    pub recs: Seq<RecView>,
}

/// The value of one decoded instance.
#[verifier::ext_equal]
pub struct LoadedView {
    pub path: Seq<char>,
    pub instance_id: u64,
    pub host: Seq<char>,
    pub schemas: Seq<SchemaView>,
    pub views: Seq<Seq<char>>,
    pub intern: Map<u32, Seq<char>>,
    pub shards: Seq<ShardRecsView>,
}

/// The payload bytes that a locator points at, to the end of the buffer that holds them.
pub open spec fn loc_buffer(region: Seq<u8>, wrapped: Option<Seq<u8>>, loc: Locator) -> Seq<u8> {
    if loc.offset == WRAPPED {
        match wrapped {
            Some(p) => p,
            None => Seq::empty(),
        }
    } else {
        region.skip(loc.offset as int)
    }
}

/// The record that a locator points at.
pub open spec fn loc_rec(
    schemas: Seq<SchemaView>,
    region: Seq<u8>,
    wrapped: Option<Seq<u8>>,
    loc: Locator,
) -> RecView {
    RecView {
        ts_nanos: loc.ts_nanos,
        offset: loc.offset,
        schema_idx: loc.schema_idx as nat,
        fields: loc_buffer(region, wrapped, loc).subrange(
            16,
            16 + schemas[loc.schema_idx as int].record_size,
        ),
    }
}

/// The records that a run of locators points at.
pub open spec fn loc_recs(
    schemas: Seq<SchemaView>,
    region: Seq<u8>,
    wrapped: Option<Seq<u8>>,
    locs: Seq<Locator>,
) -> Seq<RecView> {
    locs.map_values(|l: Locator| loc_rec(schemas, region, wrapped, l))
}

/// A locator that points at a whole record of its event.
pub open spec fn loc_ok(
    schemas: Seq<SchemaView>,
    region: Seq<u8>,
    wrapped: Option<Seq<u8>>,
    loc: Locator,
) -> bool {
    &&& loc.schema_idx < schemas.len()
    &&& (loc.offset == WRAPPED ==> wrapped is Some)
    &&& (loc.offset != WRAPPED ==> loc.offset <= region.len())
    &&& 16 + schemas[loc.schema_idx as int].record_size <= loc_buffer(region, wrapped, loc).len()
}

/// The bytes of an optional buffer.
pub open spec fn opt_bytes(b: Option<Bytes>) -> Option<Seq<u8>> {
    match b {
        Some(b) => Some(bytes_of(b)),
        None => None,
    }
}

impl ShardRecs {
    /// The value of the shard, given the registry that its locators index.
    pub open spec fn value(&self, schemas: Seq<SchemaView>) -> ShardRecsView {
        ShardRecsView {
            shard_id: self.shard_id,
            recs: loc_recs(schemas, bytes_of(self.region), opt_bytes(self.wrapped), self.locs@),
        }
    }

    /// Every locator points at a whole record, and the locators are in order.
    pub open spec fn wf(&self, schemas: Seq<SchemaView>) -> bool {
        &&& forall|i: int|
            0 <= i < self.locs@.len() ==> loc_ok(
                schemas,
                bytes_of(self.region),
                opt_bytes(self.wrapped),
                #[trigger] self.locs@[i],
            )
        &&& sorted_by(self.locs@, loc_leq())
    }
}

/// The values of a run of shards.
pub open spec fn shard_recs_view(
    shards: Seq<ShardRecs>,
    schemas: Seq<SchemaView>,
) -> Seq<ShardRecsView> {
    shards.map_values(|s: ShardRecs| s.value(schemas))
}

impl View for Loaded {
    type V = LoadedView;

    open spec fn view(&self) -> LoadedView {
        LoadedView {
            path: self.path@,
            instance_id: self.instance_id,
            host: self.host@,
            schemas: owned_schemas_view(self.schemas@),
            views: strings_view(self.views@),
            intern: self.intern@,
            shards: shard_recs_view(self.shards@, owned_schemas_view(self.schemas@)),
        }
    }
}

impl Loaded {
    /// Every shard is well formed over this instance's registry.
    pub open spec fn wf(&self) -> bool {
        forall|i: int|
            0 <= i < self.shards@.len() ==> (#[trigger] self.shards@[i]).wf(
                owned_schemas_view(self.schemas@),
            )
    }
}

/// The values of a run of decoded instances.
pub open spec fn loaded_view(v: Seq<Loaded>) -> Seq<LoadedView> {
    v.map_values(|l: Loaded| l@)
}

// ---------------------------------------------------------------------------
// What loading gives.
// ---------------------------------------------------------------------------

/// The order of locators: by time, then by place.
pub open spec fn loc_le(a: Locator, b: Locator) -> bool {
    a.ts_nanos < b.ts_nanos || (a.ts_nanos == b.ts_nanos && (a.offset < b.offset || (a.offset
        == b.offset && a.schema_idx <= b.schema_idx)))
}

/// The order of locators, as a relation.
pub open spec fn loc_leq() -> spec_fn(Locator, Locator) -> bool {
    |a: Locator, b: Locator| loc_le(a, b)
}

/// The order of schemas: by name.
pub open spec fn schema_leq() -> spec_fn(SchemaView, SchemaView) -> bool {
    |a: SchemaView, b: SchemaView| name_le(a.name, b.name)
}

/// The order of shards: by id.
pub open spec fn shard_leq() -> spec_fn(ShardRecsView, ShardRecsView) -> bool {
    |a: ShardRecsView, b: ShardRecsView| a.shard_id <= b.shard_id
}

/// The last schema of a registry that has the given id.
pub open spec fn schema_of_id(schemas: Seq<SchemaView>, id: u64) -> Option<nat>
    decreases schemas.len(),
{
    if schemas.len() == 0 {
        None
    } else if schemas.last().id == id {
        Some((schemas.len() - 1) as nat)
    } else {
        schema_of_id(schemas.drop_last(), id)
    }
}

/// A payload is a record of the registry: its id is registered and its field bytes are as many as
/// the event's record size. This is the torn-record guard.
pub open spec fn is_record(schemas: Seq<SchemaView>, payload: Seq<u8>) -> bool {
    payload.len() >= 16 && match schema_of_id(schemas, record_id(payload)) {
        Some(idx) => payload.len() - 16 == schemas[idx as int].record_size,
        None => false,
    }
}

/// The validator of a registry.
pub open spec fn record_validator(schemas: Seq<SchemaView>) -> spec_fn(Seq<u8>) -> bool {
    |payload: Seq<u8>| is_record(schemas, payload)
}

/// The records that a walk of a shard accepts, newest first.
pub open spec fn shard_walk(schemas: Seq<SchemaView>, shard: ShardView) -> Seq<WalkedView> {
    walk_all(
        record_validator(schemas),
        shard.region,
        (shard.head as usize) as nat,
        (shard.capacity as usize) as nat,
    )
}

/// The locator of a walked record.
pub open spec fn walked_loc(schemas: Seq<SchemaView>, w: WalkedView) -> Locator {
    Locator {
        ts_nanos: record_ts(w.payload),
        offset: match w.at {
            Some(p) => p as u32,
            None => WRAPPED,
        },
        schema_idx: match schema_of_id(schemas, record_id(w.payload)) {
            Some(idx) => idx as u32,
            None => 0,
        },
    }
}

/// The locators of a run of walked records.
pub open spec fn walked_locs(schemas: Seq<SchemaView>, walk: Seq<WalkedView>) -> Seq<Locator> {
    walk.map_values(|w: WalkedView| walked_loc(schemas, w))
}

/// The payload of the walked record that wraps the boundary.
pub open spec fn wrapped_payload(walk: Seq<WalkedView>) -> Option<Seq<u8>>
    decreases walk.len(),
{
    if walk.len() == 0 {
        None
    } else if walk.last().at is None {
        Some(walk.last().payload)
    } else {
        wrapped_payload(walk.drop_last())
    }
}

/// The recovered records of a shard.
pub open spec fn shard_value(schemas: Seq<SchemaView>, shard: ShardView) -> ShardRecsView {
    let walk = shard_walk(schemas, shard);
    ShardRecsView {
        shard_id: shard.shard_id,
        recs: loc_recs(
            schemas,
            shard.region,
            wrapped_payload(walk),
            walked_locs(schemas, walk).sort_by(loc_leq()),
        ),
    }
}

/// The recovered shards of one instance, ascending by shard id.
pub open spec fn shards_of(
    schemas: Seq<SchemaView>,
    shards: Seq<ShardView>,
    instance_id: u64,
) -> Seq<ShardRecsView>
    decreases shards.len(),
{
    if shards.len() == 0 {
        Seq::empty()
    } else if shards.last().instance_id == instance_id {
        insert_by(
            shards_of(schemas, shards.drop_last(), instance_id),
            shard_value(schemas, shards.last()),
            shard_leq(),
        )
    } else {
        shards_of(schemas, shards.drop_last(), instance_id)
    }
}

/// The host of one instance: that of its last metadata section, or empty.
pub open spec fn host_of(metas: Seq<MetaView>, instance_id: u64) -> Seq<char>
    decreases metas.len(),
{
    if metas.len() == 0 {
        Seq::empty()
    } else if metas.last().instance_id == instance_id {
        metas.last().host
    } else {
        host_of(metas.drop_last(), instance_id)
    }
}

/// A map with the entries of an intern table put in, later entries in place of earlier ones.
pub open spec fn with_entries(
    map: Map<u32, Seq<char>>,
    entries: Seq<(u32, Seq<u8>)>,
) -> Map<u32, Seq<char>>
    decreases entries.len(),
{
    if entries.len() == 0 {
        map
    } else {
        with_entries(map, entries.drop_last()).insert(
            entries.last().0,
            text_of(entries.last().1),
        )
    }
}

/// The interned strings of one instance.
pub open spec fn intern_of(tables: Seq<InternView>, instance_id: u64) -> Map<u32, Seq<char>>
    decreases tables.len(),
{
    if tables.len() == 0 {
        Map::empty()
    } else if tables.last().instance_id == instance_id {
        with_entries(intern_of(tables.drop_last(), instance_id), tables.last().entries)
    } else {
        intern_of(tables.drop_last(), instance_id)
    }
}

/// The instances that a run of metadata names, ascending.
pub open spec fn meta_ids(metas: Seq<MetaView>) -> Seq<u64>
    decreases metas.len(),
{
    if metas.len() == 0 {
        Seq::empty()
    } else {
        id_insert(meta_ids(metas.drop_last()), metas.last().instance_id)
    }
}

/// `ids` with the instances of a run of shards put in, ascending.
pub open spec fn with_shard_ids(ids: Seq<u64>, shards: Seq<ShardView>) -> Seq<u64>
    decreases shards.len(),
{
    if shards.len() == 0 {
        ids
    } else {
        id_insert(with_shard_ids(ids, shards.drop_last()), shards.last().instance_id)
    }
}

/// The instances of a dump, ascending: those with metadata or a shard, or the one instance 0 where
/// there is neither.
pub open spec fn instance_ids(metas: Seq<MetaView>, shards: Seq<ShardView>) -> Seq<u64> {
    let ids = with_shard_ids(meta_ids(metas), shards);
    if ids.len() == 0 {
        seq![0u64]
    } else {
        ids
    }
}

/// The decoded parts of a dump.
#[verifier::ext_equal]
pub struct DumpParts {
    pub schemas: Seq<SchemaView>,
    pub interns: Seq<InternView>,
    pub metas: Seq<MetaView>,
    pub views: Seq<Seq<char>>,
    pub shards: Seq<ShardView>,
}

/// The decoded parts of a dump, or the first error: registry, intern tables, metadata, views,
/// shards.
pub open spec fn dump_parts(sections: Seq<SectionView>) -> Result<DumpParts, Error> {
    match dump_schemas(sections) {
        Ok(schemas) => match dump_interns(sections) {
            Ok(interns) => match dump_metas(sections) {
                Ok(metas) => match dump_views(sections) {
                    Ok(views) => match dump_shards(sections) {
                        Ok(shards) => Ok(DumpParts { schemas, interns, metas, views, shards }),
                        Err(e) => Err(e),
                    },
                    Err(e) => Err(e),
                },
                Err(e) => Err(e),
            },
            Err(e) => Err(e),
        },
        Err(e) => Err(e),
    }
}

/// The capacity of the first shard that a locator cannot address.
pub open spec fn too_large(shards: Seq<ShardView>) -> Option<u64>
    decreases shards.len(),
{
    if shards.len() == 0 {
        None
    } else {
        match too_large(shards.drop_last()) {
            Some(c) => Some(c),
            None => if shards.last().capacity > 0xffff_ffff {
                Some(shards.last().capacity)
            } else {
                None
            },
        }
    }
}

/// The registry of a dump in the order of names.
pub open spec fn sorted_schemas(schemas: Seq<SchemaView>) -> Seq<SchemaView> {
    stable_sort(schemas, schema_leq())
}

/// One instance of a dump.
pub open spec fn loaded_one(path: Seq<char>, parts: DumpParts, instance_id: u64) -> LoadedView {
    let schemas = sorted_schemas(parts.schemas);
    LoadedView {
        path,
        instance_id,
        host: host_of(parts.metas, instance_id),
        schemas,
        views: parts.views,
        intern: intern_of(parts.interns, instance_id),
        shards: shards_of(schemas, parts.shards, instance_id),
    }
}

/// Every instance of a dump, ascending by instance id.
pub open spec fn loaded_all(path: Seq<char>, parts: DumpParts) -> Seq<LoadedView> {
    instance_ids(parts.metas, parts.shards).map_values(
        |id: u64| loaded_one(path, parts, id),
    )
}

/// What loading the decoded parts of a dump gives.
pub open spec fn load_parts(path: Seq<char>, parts: DumpParts) -> Result<
    Seq<LoadedView>,
    LoadError,
> {
    match too_large(parts.shards) {
        Some(c) => Err(LoadError::ShardTooLarge(c)),
        None => Ok(loaded_all(path, parts)),
    }
}

/// What loading a dump gives.
pub open spec fn load_spec(path: Seq<char>, bytes: Seq<u8>) -> Result<Seq<LoadedView>, LoadError> {
    match p_dump(bytes) {
        Ok(d) => match dump_parts(d.sections) {
            Ok(parts) => load_parts(path, parts),
            Err(e) => Err(LoadError::Decode(e)),
        },
        Err(e) => Err(LoadError::Decode(e)),
    }
}

// ---------------------------------------------------------------------------
// Facts about walked records.
// ---------------------------------------------------------------------------

/// A walked record as it stands in the region.
pub open spec fn walked_ok(
    valid: spec_fn(Seq<u8>) -> bool,
    region: Seq<u8>,
    w: WalkedView,
) -> bool {
    &&& valid(w.payload)
    &&& w.at matches Some(p) ==> p < region.len() && p + w.payload.len() <= region.len()
        && w.payload == region.subrange(p as int, (p + w.payload.len()) as int)
}

/// Every record of a walk is accepted by the validator and, unless it wraps, is the slice of the
/// region at its place.
pub proof fn lemma_walk_items(
    valid: spec_fn(Seq<u8>) -> bool,
    region: Seq<u8>,
    low: nat,
    abs: nat,
)
    requires
        region.len() > 0,
    ensures
        forall|i: int|
            0 <= i < walk_from(valid, region, low, abs).len() ==> walked_ok(
                valid,
                region,
                #[trigger] walk_from(valid, region, low, abs)[i],
            ),
    decreases abs,
{
    if low + 2 <= abs {
        if is_candidate(region, low, abs) && valid(candidate(region, abs)) {
            let len = suffix_len(region, abs);
            let start = (abs - 2 - len) as nat;
            lemma_walk_items(valid, region, low, start);
            let item = candidate_record(region, abs);
            vstd::arithmetic::div_mod::lemma_mod_bound(start as int, region.len() as int);
            if item.at is Some {
                lemma_read_contiguous(region, start as int, len);
            }
            assert(walked_ok(valid, region, item));
            let rest = walk_from(valid, region, low, start);
            let all = walk_from(valid, region, low, abs);
            assert forall|i: int| 0 <= i < all.len() implies walked_ok(
                valid,
                region,
                #[trigger] all[i],
            ) by {
                if i > 0 {
                    assert(all[i] == rest[i - 1]);
                }
            }
        } else {
            lemma_walk_items(valid, region, low, (abs - 1) as nat);
            let rest = walk_from(valid, region, low, (abs - 1) as nat);
            assert(walk_from(valid, region, low, abs) == rest);
            assert forall|i: int| 0 <= i < rest.len() implies walked_ok(
                valid,
                region,
                #[trigger] rest[i],
            ) by {}
        }
    }
}

/// What a walk of a whole shard gives: every record is one of the registry and stands at its place,
/// and at most one wraps.
pub proof fn lemma_shard_walk(schemas: Seq<SchemaView>, shard: ShardView)
    ensures
        forall|i: int|
            0 <= i < shard_walk(schemas, shard).len() ==> walked_ok(
                record_validator(schemas),
                shard.region,
                #[trigger] shard_walk(schemas, shard)[i],
            ),
        forall|i: int, j: int|
            #![trigger shard_walk(schemas, shard)[i], shard_walk(schemas, shard)[j]]
            0 <= i < j < shard_walk(schemas, shard).len() ==> shard_walk(schemas, shard)[i].at
                is Some || shard_walk(schemas, shard)[j].at is Some,
{
    let valid = record_validator(schemas);
    let head = (shard.head as usize) as nat;
    let capacity = (shard.capacity as usize) as nat;
    if shard.region.len() == capacity && is_pow2(capacity as int) {
        assert(capacity > 0) by {
            reveal(is_pow2);
        }
        let low = valid_low(head, capacity);
        lemma_walk_items(valid, shard.region, low, head);
        law_walk_wraps_at_most_once(valid, shard.region, low, head);
    }
}

/// The wrapped payload of a walk is that of its wrapping record.
pub proof fn lemma_wrapped_payload(walk: Seq<WalkedView>, i: int)
    requires
        0 <= i < walk.len(),
        walk[i].at is None,
        forall|a: int, b: int|
            #![trigger walk[a], walk[b]]
            0 <= a < b < walk.len() ==> walk[a].at is Some || walk[b].at is Some,
    ensures
        wrapped_payload(walk) == Some(walk[i].payload),
    decreases walk.len(),
{
    if i < walk.len() - 1 {
        assert(walk[i].at is Some || walk[walk.len() - 1].at is Some);
        let init = walk.drop_last();
        assert forall|a: int, b: int|
            #![trigger init[a], init[b]]
            0 <= a < b < init.len() implies init[a].at is Some || init[b].at is Some by {
            assert(init[a] == walk[a] && init[b] == walk[b]);
        }
        lemma_wrapped_payload(init, i);
    }
}

/// The schema of a registered id is one of the registry that has the id.
pub proof fn lemma_schema_of_id(schemas: Seq<SchemaView>, id: u64)
    ensures
        schema_of_id(schemas, id) matches Some(idx) ==> idx < schemas.len() && schemas[idx as int].id
            == id,
        schema_of_id(schemas, id) is None ==> forall|i: int|
            0 <= i < schemas.len() ==> (#[trigger] schemas[i]).id != id,
    decreases schemas.len(),
{
    if schemas.len() > 0 {
        let init = schemas.drop_last();
        lemma_schema_of_id(init, id);
        if schema_of_id(schemas, id) is None {
            assert forall|i: int| 0 <= i < schemas.len() implies (#[trigger] schemas[i]).id != id by {
                if i < init.len() {
                    assert(init[i] == schemas[i]);
                }
            }
        }
    }
}

/// The locator of a walked record points at the record, and reading it gives the record's own
/// fields.
pub proof fn lemma_walked_loc(schemas: Seq<SchemaView>, shard: ShardView, i: int)
    requires
        0 <= i < shard_walk(schemas, shard).len(),
        schemas.len() < 0x1_0000_0000,
        shard.capacity <= 0xffff_ffff,
        shard.region.len() == shard.capacity,
    ensures
        ({
            let walk = shard_walk(schemas, shard);
            let w = walk[i];
            let loc = walked_loc(schemas, w);
            &&& loc_ok(schemas, shard.region, wrapped_payload(walk), loc)
            &&& loc_rec(schemas, shard.region, wrapped_payload(walk), loc) == RecView {
                ts_nanos: record_ts(w.payload),
                offset: loc.offset,
                schema_idx: schema_of_id(schemas, record_id(w.payload))->0,
                fields: w.payload.skip(16),
            }
            &&& loc.offset == WRAPPED <==> w.at is None
            &&& w.at matches Some(p) ==> loc.offset == p
        }),
{
    let walk = shard_walk(schemas, shard);
    let w = walk[i];
    let loc = walked_loc(schemas, w);
    lemma_shard_walk(schemas, shard);
    assert(walked_ok(record_validator(schemas), shard.region, walk[i]));
    assert(is_record(schemas, w.payload));
    lemma_schema_of_id(schemas, record_id(w.payload));
    let size = schemas[loc.schema_idx as int].record_size;
    match w.at {
        Some(p) => {
            assert(p < 0xffff_ffff);
            let buffer = shard.region.skip(p as int);
            assert(buffer.subrange(16, 16 + size) =~= w.payload.skip(16));
        },
        None => {
            lemma_wrapped_payload(walk, i);
            assert(w.payload.subrange(16, 16 + size) =~= w.payload.skip(16));
        },
    }
}

// ---------------------------------------------------------------------------
// Loading.
// ---------------------------------------------------------------------------

/// The order of locators.
fn locator_le(a: &Locator, b: &Locator) -> (r: bool)
    ensures
        r == loc_le(*a, *b),
{
    a.ts_nanos < b.ts_nanos || (a.ts_nanos == b.ts_nanos && (a.offset < b.offset || (a.offset
        == b.offset && a.schema_idx <= b.schema_idx)))
}

/// The order of locators is total.
pub proof fn lemma_loc_order()
    ensures
        total_ordering(loc_leq()),
{
}

/// Taking the first element off a run takes it off the multiset.
proof fn lemma_multiset_head(s: Seq<Locator>)
    requires
        s.len() > 0,
    ensures
        s.to_multiset() == s.skip(1).to_multiset().insert(s[0]),
{
    broadcast use vstd::multiset::group_multiset_axioms;

    assert(s =~= seq![s[0]] + s.skip(1));
    lemma_multiset_commutative(seq![s[0]], s.skip(1));
    assert(seq![s[0]] =~= Seq::<Locator>::empty().push(s[0]));
    vstd::seq_lib::to_multiset_build(Seq::<Locator>::empty(), s[0]);
    vstd::seq_lib::to_multiset_len(Seq::<Locator>::empty());
    assert(s.to_multiset() =~= s.skip(1).to_multiset().insert(s[0]));
}

/// Merges two sorted runs of locators.
fn merge_locs(a: &Vec<Locator>, b: &Vec<Locator>) -> (out: Vec<Locator>)
    requires
        sorted_by(a@, loc_leq()),
        sorted_by(b@, loc_leq()),
    ensures
        sorted_by(out@, loc_leq()),
        out@.to_multiset() == a@.to_multiset().add(b@.to_multiset()),
{
    broadcast use vstd::multiset::group_multiset_axioms;

    let ghost leq = loc_leq();
    let ghost all = a@.to_multiset().add(b@.to_multiset());
    let mut out: Vec<Locator> = Vec::new();
    let mut i: usize = 0;
    let mut j: usize = 0;
    proof {
        assert(a@.skip(0) =~= a@);
        assert(b@.skip(0) =~= b@);
        vstd::seq_lib::to_multiset_len(out@);
        assert(out@.to_multiset().add(a@.to_multiset()).add(b@.to_multiset()) =~= all);
    }
    while i < a.len() || j < b.len()
        invariant
            i <= a@.len(),
            j <= b@.len(),
            leq == loc_leq(),
            sorted_by(a@, leq),
            sorted_by(b@, leq),
            sorted_by(out@, leq),
            forall|k: int, l: int|
                #![trigger out@[k], a@[l]]
                0 <= k < out@.len() && i <= l < a@.len() ==> loc_le(out@[k], a@[l]),
            forall|k: int, l: int|
                #![trigger out@[k], b@[l]]
                0 <= k < out@.len() && j <= l < b@.len() ==> loc_le(out@[k], b@[l]),
            all == a@.to_multiset().add(b@.to_multiset()),
            out@.to_multiset().add(a@.skip(i as int).to_multiset()).add(
                b@.skip(j as int).to_multiset(),
            ) == all,
        decreases a@.len() - i + b@.len() - j,
    {
        let ghost before = out@;
        if j >= b.len() || (i < a.len() && locator_le(&a[i], &b[j])) {
            proof {
                lemma_multiset_head(a@.skip(i as int));
                assert(a@.skip(i as int).skip(1) =~= a@.skip(i + 1));
                vstd::seq_lib::to_multiset_build(out@, a@[i as int]);
                assert forall|l: int| i <= l < a@.len() implies loc_le(
                    a@[i as int],
                    #[trigger] a@[l],
                ) by {
                    assert(i < l ==> leq(a@[i as int], a@[l]));
                }
                assert forall|l: int| j <= l < b@.len() implies loc_le(
                    a@[i as int],
                    #[trigger] b@[l],
                ) by {
                    assert(j < l ==> leq(b@[j as int], b@[l]));
                }
                assert(sorted_by(out@.push(a@[i as int]), leq));
            }
            out.push(a[i]);
            i = i + 1;
        } else {
            proof {
                lemma_multiset_head(b@.skip(j as int));
                assert(b@.skip(j as int).skip(1) =~= b@.skip(j + 1));
                vstd::seq_lib::to_multiset_build(out@, b@[j as int]);
                assert forall|l: int| j <= l < b@.len() implies loc_le(
                    b@[j as int],
                    #[trigger] b@[l],
                ) by {
                    assert(j < l ==> leq(b@[j as int], b@[l]));
                }
                assert forall|l: int| i <= l < a@.len() implies loc_le(
                    b@[j as int],
                    #[trigger] a@[l],
                ) by {
                    assert(i < l ==> leq(a@[i as int], a@[l]));
                }
                assert(sorted_by(out@.push(b@[j as int]), leq));
            }
            out.push(b[j]);
            j = j + 1;
        }
        assert(out@.to_multiset().add(a@.skip(i as int).to_multiset()).add(
            b@.skip(j as int).to_multiset(),
        ) =~= all);
    }
    proof {
        assert(a@.skip(i as int) =~= Seq::<Locator>::empty());
        assert(b@.skip(j as int) =~= Seq::<Locator>::empty());
        vstd::seq_lib::to_multiset_len(Seq::<Locator>::empty());
        assert(out@.to_multiset() =~= all);
    }
    out
}

/// Sorts locators by merging.
fn sort_locs(v: Vec<Locator>) -> (r: Vec<Locator>)
    ensures
        r@ == v@.sort_by(loc_leq()),
        r@.to_multiset() == v@.to_multiset(),
        sorted_by(r@, loc_leq()),
    decreases v@.len(),
{
    let ghost leq = loc_leq();
    proof {
        lemma_loc_order();
        v@.lemma_sort_by_ensures(leq);
    }
    if v.len() <= 1 {
        proof {
            lemma_sorted_unique(v@, v@.sort_by(leq), leq);
        }
        return v;
    }
    let mid: usize = v.len() / 2;
    let mut left = v;
    let right = left.split_off(mid);
    proof {
        assert(v@ =~= left@ + right@);
        lemma_multiset_commutative(left@, right@);
    }
    let left = sort_locs(left);
    let right = sort_locs(right);
    let out = merge_locs(&left, &right);
    proof {
        lemma_sorted_unique(out@, v@.sort_by(leq), leq);
    }
    out
}

/// The registry in the order of names.
pub(crate) fn sort_schemas(v: Vec<OwnedSchema>) -> (out: Vec<OwnedSchema>)
    ensures
        owned_schemas_view(out@) == sorted_schemas(owned_schemas_view(v@)),
{
    let ghost view = owned_schemas_view(v@);
    let ghost le = schema_leq();
    let mut out: Vec<OwnedSchema> = Vec::new();
    assert(owned_schemas_view(out@) =~= stable_sort(view.take(0), le));
    let mut i: usize = 0;
    while i < v.len()
        invariant
            i <= v@.len(),
            view == owned_schemas_view(v@),
            le == schema_leq(),
            owned_schemas_view(out@) == stable_sort(view.take(i as int), le),
        decreases v@.len() - i,
    {
        let s = v[i].clone();
        let ghost before = owned_schemas_view(out@);
        let mut p: usize = 0;
        while p < out.len() && str_le(out[p].qualified_name.as_str(), s.qualified_name.as_str())
            invariant
                p <= out@.len(),
                le == schema_leq(),
                before == owned_schemas_view(out@),
                forall|k: int| 0 <= k < p ==> le(#[trigger] before[k], s@),
            decreases out@.len() - p,
        {
            assert(before[p as int] == out@[p as int]@);
            p = p + 1;
        }
        proof {
            if p < out@.len() {
                assert(before[p as int] == out@[p as int]@);
            }
            lemma_insert_pos(before, s@, le, p as int);
            assert(view.take(i + 1).drop_last() =~= view.take(i as int));
            assert(view[i as int] == s@);
        }
        out.insert(p, s);
        assert(owned_schemas_view(out@) =~= before.insert(p as int, s@));
        i = i + 1;
    }
    assert(view.take(i as int) =~= view);
    out
}

/// A registry indexed by event id.
pub open spec fn indexes(by_id: Map<u64, usize>, schemas: Seq<SchemaView>) -> bool {
    forall|id: u64|
        #![trigger by_id.dom().contains(id)]
        #![trigger schema_of_id(schemas, id)]
        match schema_of_id(schemas, id) {
            Some(idx) => by_id.dom().contains(id) && by_id[id] == idx,
            None => !by_id.dom().contains(id),
        }
}

/// Indexes a registry by event id; of schemas with the same id the last one counts.
pub(crate) fn index_by_id(schemas: &Vec<OwnedSchema>) -> (by_id: HashMap<u64, usize>)
    ensures
        indexes(by_id@, owned_schemas_view(schemas@)),
{
    broadcast use vstd::std_specs::hash::group_hash_axioms;

    let ghost view = owned_schemas_view(schemas@);
    let mut by_id: HashMap<u64, usize> = HashMap::new();
    let mut i: usize = 0;
    assert(view.take(0) =~= Seq::<SchemaView>::empty());
    while i < schemas.len()
        invariant
            i <= schemas@.len(),
            view == owned_schemas_view(schemas@),
            indexes(by_id@, view.take(i as int)),
        decreases schemas@.len() - i,
    {
        let ghost before = by_id@;
        let id: u64 = schemas[i].id.get();
        by_id.insert(id, i);
        proof {
            assert(view.take(i + 1).drop_last() =~= view.take(i as int));
            assert(view[i as int] == schemas@[i as int]@);
            assert forall|k: u64|
                #![trigger by_id@.dom().contains(k)]
                #![trigger schema_of_id(view.take(i + 1), k)]
                match schema_of_id(view.take(i + 1), k) {
                    Some(idx) => by_id@.dom().contains(k) && by_id@[k] == idx,
                    None => !by_id@.dom().contains(k),
                } by {
                assert(before.dom().contains(k) == (schema_of_id(view.take(i as int), k) is Some));
            }
        }
        i = i + 1;
    }
    assert(view.take(i as int) =~= view);
    by_id
}

/// Whether a payload is a record of the registry; if so, the index of its schema.
pub(crate) fn record_schema(
    schemas: &Vec<OwnedSchema>,
    by_id: &HashMap<u64, usize>,
    payload: &[u8],
) -> (r: Option<usize>)
    requires
        indexes(by_id@, owned_schemas_view(schemas@)),
    ensures
        r is Some == is_record(owned_schemas_view(schemas@), payload@),
        r matches Some(i) ==> schema_of_id(
            owned_schemas_view(schemas@),
            record_id(payload@),
        ) == Some(i as nat) && i < schemas@.len(),
{
    broadcast use vstd::std_specs::hash::group_hash_axioms;

    let ghost view = owned_schemas_view(schemas@);
    match RecordView::parse(payload) {
        Some(rec) => {
            proof {
                lemma_schema_of_id(view, rec.event_id.0);
                assert(by_id@.dom().contains(rec.event_id.0) == (schema_of_id(
                    view,
                    rec.event_id.0,
                ) is Some));
            }
            match by_id.get(&rec.event_id.get()) {
                Some(idx) => {
                    assert(view[*idx as int] == schemas@[*idx as int]@);
                    if rec.fields.len() == schemas[*idx].record_size as usize {
                        Some(*idx)
                    } else {
                        None
                    }
                },
                None => None,
            }
        },
        None => None,
    }
}

/// Walks one shard, attributing each record to a schema and recording a locator into the shard's
/// region. The validator accepts a candidate only if its event id is registered and the declared
/// record size matches the field bytes, so the walk resynchronizes past torn data.
fn walk_shard(
    schemas: &Vec<OwnedSchema>,
    by_id: &HashMap<u64, usize>,
    shard: &ShardData,
) -> (sh: ShardRecs)
    requires
        indexes(by_id@, owned_schemas_view(schemas@)),
        schemas@.len() < 0x1_0000_0000,
        shard.capacity <= 0xffff_ffff,
        bytes_of(shard.region).len() == shard.capacity,
    ensures
        sh.value(owned_schemas_view(schemas@)) == shard_value(owned_schemas_view(schemas@), shard@),
        sh.wf(owned_schemas_view(schemas@)),
{
    let ghost view = owned_schemas_view(schemas@);
    let ghost valid = record_validator(view);
    let f = |payload: &[u8]| -> (r: bool)
        requires
            indexes(by_id@, owned_schemas_view(schemas@)),
        ensures
            r == is_record(owned_schemas_view(schemas@), payload@),
        {
            match record_schema(schemas, by_id, payload) {
                Some(_) => true,
                None => false,
            }
        };
    assert(decides(f, valid));
    let walked = walk_indexed(&shard.region, shard.head as usize, shard.capacity as usize, f);
    let ghost walk = shard_walk(view, shard@);
    assert(walked_view(walked@) == walk);
    let mut locs: Vec<Locator> = Vec::new();
    let mut wrapped: Option<Bytes> = None;
    assert(walked_locs(view, walk.take(0)) =~= locs@);
    assert(walk.take(0) =~= Seq::<WalkedView>::empty());
    let mut i: usize = 0;
    while i < walked.len()
        invariant
            i <= walked@.len(),
            view == owned_schemas_view(schemas@),
            indexes(by_id@, view),
            schemas@.len() < 0x1_0000_0000,
            shard.capacity <= 0xffff_ffff,
            bytes_of(shard.region).len() == shard.capacity,
            walk == shard_walk(view, shard@),
            walk == walked_view(walked@),
            locs@ == walked_locs(view, walk.take(i as int)),
            opt_bytes(wrapped) == wrapped_payload(walk.take(i as int)),
        decreases walked@.len() - i,
    {
        let w = &walked[i];
        proof {
            assert(walk[i as int] == w@);
            lemma_walked_loc(view, shard@, i as int);
            lemma_shard_walk(view, shard@);
            assert(walked_ok(record_validator(view), shard@.region, walk[i as int]));
            assert(walk.take(i + 1).drop_last() =~= walk.take(i as int));
        }
        let payload = bytes_as_slice(&w.payload);
        let idx: usize = match record_schema(schemas, by_id, payload) {
            Some(v) => v,
            None => 0,
        };
        let ts_nanos: u64 = match RecordView::parse(payload) {
            Some(rec) => rec.ts_nanos,
            None => 0,
        };
        let offset: u32 = match w.offset {
            Some(p) => p as u32,
            None => {
                wrapped = Some(w.payload.clone());
                WRAPPED
            },
        };
        locs.push(Locator { ts_nanos, offset, schema_idx: idx as u32 });
        proof {
            assert(walked_locs(view, walk.take(i + 1)) =~= walked_locs(view, walk.take(i as int)).push(
                walked_loc(view, walk[i as int]),
            ));
        }
        i = i + 1;
    }
    assert(walk.take(i as int) =~= walk);
    let ghost unsorted = locs@;
    let locs = sort_locs(locs);
    let sh = ShardRecs { shard_id: shard.shard_id, region: shard.region.clone(), wrapped, locs };
    proof {
        broadcast use vstd::seq_lib::group_to_multiset_ensures;

        assert forall|k: int| 0 <= k < sh.locs@.len() implies loc_ok(
            view,
            bytes_of(sh.region),
            opt_bytes(sh.wrapped),
            #[trigger] sh.locs@[k],
        ) by {
            assert(sh.locs@.to_multiset().count(sh.locs@[k]) > 0);
            assert(unsorted.contains(sh.locs@[k]));
            let m = choose|m: int| 0 <= m < unsorted.len() && unsorted[m] == sh.locs@[k];
            assert(unsorted[m] == walked_loc(view, walk[m]));
            lemma_walked_loc(view, shard@, m);
        }
    }
    sh
}

/// The recovered shards of one instance, ascending by shard id.
fn shards_for(
    schemas: &Vec<OwnedSchema>,
    by_id: &HashMap<u64, usize>,
    shards: &Vec<ShardData>,
    instance_id: u64,
) -> (out: Vec<ShardRecs>)
    requires
        indexes(by_id@, owned_schemas_view(schemas@)),
        schemas@.len() < 0x1_0000_0000,
        forall|i: int|
            0 <= i < shards@.len() ==> (#[trigger] shards@[i]).capacity <= 0xffff_ffff && bytes_of(
                shards@[i].region,
            ).len() == shards@[i].capacity,
    ensures
        shard_recs_view(out@, owned_schemas_view(schemas@)) == shards_of(
            owned_schemas_view(schemas@),
            shards_view(shards@),
            instance_id,
        ),
        forall|i: int|
            0 <= i < out@.len() ==> (#[trigger] out@[i]).wf(owned_schemas_view(schemas@)),
{
    let ghost view = owned_schemas_view(schemas@);
    let ghost all = shards_view(shards@);
    let ghost le = shard_leq();
    let mut out: Vec<ShardRecs> = Vec::new();
    assert(shard_recs_view(out@, view) =~= shards_of(view, all.take(0), instance_id));
    let mut i: usize = 0;
    while i < shards.len()
        invariant
            i <= shards@.len(),
            view == owned_schemas_view(schemas@),
            all == shards_view(shards@),
            le == shard_leq(),
            indexes(by_id@, view),
            schemas@.len() < 0x1_0000_0000,
            forall|k: int|
                0 <= k < shards@.len() ==> (#[trigger] shards@[k]).capacity <= 0xffff_ffff
                    && bytes_of(shards@[k].region).len() == shards@[k].capacity,
            shard_recs_view(out@, view) == shards_of(view, all.take(i as int), instance_id),
            forall|k: int| 0 <= k < out@.len() ==> (#[trigger] out@[k]).wf(view),
        decreases shards@.len() - i,
    {
        proof {
            assert(all.take(i + 1).drop_last() =~= all.take(i as int));
            assert(all[i as int] == shards@[i as int]@);
        }
        if shards[i].instance_id == instance_id {
            let sh = walk_shard(schemas, by_id, &shards[i]);
            let ghost before = shard_recs_view(out@, view);
            let ghost x = sh.value(view);
            let mut p: usize = 0;
            while p < out.len() && out[p].shard_id <= sh.shard_id
                invariant
                    p <= out@.len(),
                    le == shard_leq(),
                    x == sh.value(view),
                    before == shard_recs_view(out@, view),
                    forall|k: int| 0 <= k < p ==> le(#[trigger] before[k], x),
                decreases out@.len() - p,
            {
                assert(before[p as int] == out@[p as int].value(view));
                p = p + 1;
            }
            proof {
                if p < out@.len() {
                    assert(before[p as int] == out@[p as int].value(view));
                }
                lemma_insert_pos(before, x, le, p as int);
            }
            out.insert(p, sh);
            assert(shard_recs_view(out@, view) =~= before.insert(p as int, x));
        }
        i = i + 1;
    }
    assert(all.take(i as int) =~= all);
    out
}

/// The host label of one instance.
fn host_for(metas: &Vec<OwnedMeta>, instance_id: u64) -> (host: String)
    ensures
        host@ == host_of(metas_view(metas@), instance_id),
{
    let ghost view = metas_view(metas@);
    let mut i: usize = metas.len();
    assert(view.take(i as int) =~= view);
    while i > 0
        invariant
            i <= metas@.len(),
            view == metas_view(metas@),
            host_of(view, instance_id) == host_of(view.take(i as int), instance_id),
        decreases i,
    {
        i = i - 1;
        proof {
            assert(view.take(i + 1).drop_last() =~= view.take(i as int));
            assert(view[i as int] == metas@[i as int]@);
        }
        if metas[i].instance_id == instance_id {
            return metas[i].host.clone();
        }
    }
    String::new()
}

/// The interned strings of one instance.
fn intern_for(tables: &Vec<OwnedIntern>, instance_id: u64) -> (map: InternTable)
    ensures
        map@ == intern_of(interns_view(tables@), instance_id),
{
    let ghost view = interns_view(tables@);
    let mut map = InternTable::new();
    let mut i: usize = 0;
    assert(view.take(0) =~= Seq::<InternView>::empty());
    while i < tables.len()
        invariant
            i <= tables@.len(),
            view == interns_view(tables@),
            map@ == intern_of(view.take(i as int), instance_id),
        decreases tables@.len() - i,
    {
        let t = &tables[i];
        proof {
            assert(view.take(i + 1).drop_last() =~= view.take(i as int));
            assert(view[i as int] == t@);
        }
        if t.instance_id == instance_id {
            let ghost base = map@;
            let ghost entries = entries_view(t.entries@);
            assert(entries.take(0) =~= Seq::<(u32, Seq<u8>)>::empty());
            let mut j: usize = 0;
            while j < t.entries.len()
                invariant
                    j <= t.entries@.len(),
                    entries == entries_view(t.entries@),
                    map@ == with_entries(base, entries.take(j as int)),
                decreases t.entries@.len() - j,
            {
                let text = utf8_lossy(t.entries[j].1.as_slice());
                map.insert(t.entries[j].0, text);
                proof {
                    assert(entries.take(j + 1).drop_last() =~= entries.take(j as int));
                    assert(entries[j as int] == (
                        t.entries@[j as int].0,
                        t.entries@[j as int].1@,
                    ));
                }
                j = j + 1;
            }
            assert(entries.take(j as int) =~= entries);
        }
        i = i + 1;
    }
    assert(view.take(i as int) =~= view);
    map
}

/// The instances of a dump, ascending.
fn instances(metas: &Vec<OwnedMeta>, shards: &Vec<ShardData>) -> (ids: Vec<u64>)
    ensures
        ids@ == instance_ids(metas_view(metas@), shards_view(shards@)),
{
    let ghost mv = metas_view(metas@);
    let ghost sv = shards_view(shards@);
    let mut ids: Vec<u64> = Vec::new();
    let mut i: usize = 0;
    assert(mv.take(0) =~= Seq::<MetaView>::empty());
    while i < metas.len()
        invariant
            i <= metas@.len(),
            mv == metas_view(metas@),
            ids@ == meta_ids(mv.take(i as int)),
            forall|a: int, b: int| 0 <= a < b < ids@.len() ==> ids@[a] < ids@[b],
        decreases metas@.len() - i,
    {
        proof {
            assert(mv.take(i + 1).drop_last() =~= mv.take(i as int));
            assert(mv[i as int] == metas@[i as int]@);
        }
        insert_id(&mut ids, metas[i].instance_id);
        i = i + 1;
    }
    assert(mv.take(i as int) =~= mv);
    assert(sv.take(0) =~= Seq::<ShardView>::empty());
    let mut j: usize = 0;
    while j < shards.len()
        invariant
            j <= shards@.len(),
            sv == shards_view(shards@),
            ids@ == with_shard_ids(meta_ids(mv), sv.take(j as int)),
            forall|a: int, b: int| 0 <= a < b < ids@.len() ==> ids@[a] < ids@[b],
        decreases shards@.len() - j,
    {
        proof {
            assert(sv.take(j + 1).drop_last() =~= sv.take(j as int));
            assert(sv[j as int] == shards@[j as int]@);
        }
        insert_id(&mut ids, shards[j].instance_id);
        j = j + 1;
    }
    assert(sv.take(j as int) =~= sv);
    if ids.len() == 0 {
        ids.push(0);
        assert(ids@ =~= seq![0u64]);
    }
    ids
}

/// The capacity of the first shard that a locator cannot address.
fn first_too_large(shards: &Vec<ShardData>) -> (c: Option<u64>)
    ensures
        c == too_large(shards_view(shards@)),
        c is None ==> forall|i: int|
            0 <= i < shards@.len() ==> (#[trigger] shards@[i]).capacity <= 0xffff_ffff,
{
    let ghost sv = shards_view(shards@);
    let mut found: Option<u64> = None;
    let mut i: usize = 0;
    assert(sv.take(0) =~= Seq::<ShardView>::empty());
    while i < shards.len()
        invariant
            i <= shards@.len(),
            sv == shards_view(shards@),
            found == too_large(sv.take(i as int)),
            found is None ==> forall|k: int|
                0 <= k < i ==> (#[trigger] shards@[k]).capacity <= 0xffff_ffff,
        decreases shards@.len() - i,
    {
        proof {
            assert(sv.take(i + 1).drop_last() =~= sv.take(i as int));
            assert(sv[i as int] == shards@[i as int]@);
        }
        if found.is_none() && shards[i].capacity > 0xffff_ffff {
            found = Some(shards[i].capacity);
        }
        i = i + 1;
    }
    assert(sv.take(i as int) =~= sv);
    found
}

/// Loads and decodes a dump from `bytes`, returning one [`Loaded`] per instance it contains.
/// `path` is carried for diagnostics. A single-process dump yields a one-element vec; a merged dump
/// yields one entry per process it bundles, each with its own intern table, host, and shards.
pub fn load(path: &str, bytes: Bytes) -> (r: Result<Vec<Loaded>, LoadError>)
    ensures
        match r {
            Ok(v) => load_spec(path@, bytes_of(bytes)) == Ok::<Seq<LoadedView>, LoadError>(
                loaded_view(v@),
            ) && forall|i: int| 0 <= i < v@.len() ==> (#[trigger] v@[i]).wf(),
            Err(e) => load_spec(path@, bytes_of(bytes)) == Err::<Seq<LoadedView>, LoadError>(e),
        },
{
    let reader = match DumpReader::new(bytes) {
        Ok(v) => v,
        Err(e) => return Err(LoadError::Decode(e)),
    };
    let schemas = match reader.schemas() {
        Ok(v) => v,
        Err(e) => return Err(LoadError::Decode(e)),
    };
    let tables = match reader.intern_tables() {
        Ok(v) => v,
        Err(e) => return Err(LoadError::Decode(e)),
    };
    let metas = match reader.metas() {
        Ok(v) => v,
        Err(e) => return Err(LoadError::Decode(e)),
    };
    let views = match reader.views() {
        Ok(v) => v,
        Err(e) => return Err(LoadError::Decode(e)),
    };
    let shards = match reader.shards() {
        Ok(v) => v,
        Err(e) => return Err(LoadError::Decode(e)),
    };
    let ghost parts = DumpParts {
        schemas: owned_schemas_view(schemas@),
        interns: interns_view(tables@),
        metas: metas_view(metas@),
        views: strings_view(views@),
        shards: shards_view(shards@),
    };
    proof {
        crate::parse::lemma_schemas_len(reader@.sections);
        crate::parse::lemma_shards_regions(reader@.sections);
        lemma_stable_sort_len(parts.schemas, schema_leq());
        assert(dump_parts(reader@.sections) == Ok::<DumpParts, Error>(parts));
    }
    if let Some(c) = first_too_large(&shards) {
        return Err(LoadError::ShardTooLarge(c));
    }
    let schemas = sort_schemas(schemas);
    let by_id = index_by_id(&schemas);
    let ids = instances(&metas, &shards);
    let ghost sorted = sorted_schemas(parts.schemas);
    proof {
        assert(owned_schemas_view(schemas@).len() == schemas@.len());
        assert forall|k: int| 0 <= k < shards@.len() implies bytes_of(
            (#[trigger] shards@[k]).region,
        ).len() == shards@[k].capacity by {
            assert(parts.shards[k] == shards@[k]@);
        }
    }
    let mut out: Vec<Loaded> = Vec::new();
    let mut i: usize = 0;
    while i < ids.len()
        invariant
            i <= ids@.len(),
            out@.len() == i,
            ids@ == instance_ids(parts.metas, parts.shards),
            parts.interns == interns_view(tables@),
            parts.metas == metas_view(metas@),
            parts.views == strings_view(views@),
            parts.shards == shards_view(shards@),
            sorted == sorted_schemas(parts.schemas),
            sorted == owned_schemas_view(schemas@),
            indexes(by_id@, sorted),
            schemas@.len() < 0x1_0000_0000,
            forall|k: int|
                0 <= k < shards@.len() ==> (#[trigger] shards@[k]).capacity <= 0xffff_ffff
                    && bytes_of(shards@[k].region).len() == shards@[k].capacity,
            forall|k: int|
                0 <= k < i ==> (#[trigger] out@[k])@ == loaded_one(path@, parts, ids@[k])
                    && out@[k].wf(),
        decreases ids@.len() - i,
    {
        let instance_id: u64 = ids[i];
        let own = clone_schemas(&schemas);
        let shs = shards_for(&schemas, &by_id, &shards, instance_id);
        let l = Loaded {
            path: path.to_string(),
            instance_id,
            host: host_for(&metas, instance_id),
            schemas: own,
            views: clone_strings(&views),
            intern: intern_for(&tables, instance_id),
            shards: shs,
        };
        assert(l@ == loaded_one(path@, parts, instance_id));
        out.push(l);
        i = i + 1;
    }
    assert(loaded_view(out@) =~= loaded_all(path@, parts));
    Ok(out)
}

// ---------------------------------------------------------------------------
// Records of one instance.
// ---------------------------------------------------------------------------

/// The paths and bytes of a run of inputs.
pub open spec fn inputs_view(inputs: Seq<Input>) -> Seq<(Seq<char>, Seq<u8>)> {
    inputs.map_values(|i: Input| (i.path@, bytes_of(i.bytes)))
}

/// What loading several dumps gives: the instances of all, file by file, or the first error.
pub open spec fn load_many_spec(inputs: Seq<(Seq<char>, Seq<u8>)>) -> Result<
    Seq<LoadedView>,
    InputError,
>
    decreases inputs.len(),
{
    if inputs.len() == 0 {
        Ok(Seq::empty())
    } else {
        match load_many_spec(inputs.drop_last()) {
            Err(e) => Err(e),
            Ok(loaded) => match load_spec(inputs.last().0, inputs.last().1) {
                Ok(more) => Ok(loaded + more),
                Err(error) => Err(InputError { input: (inputs.len() - 1) as usize, error }),
            },
        }
    }
}

/// An input that cannot be loaded stands for all inputs from it on.
proof fn lemma_load_many_error(inputs: Seq<(Seq<char>, Seq<u8>)>, i: int)
    requires
        0 <= i <= inputs.len(),
        load_many_spec(inputs.take(i)) is Err,
    ensures
        load_many_spec(inputs) == load_many_spec(inputs.take(i)),
    decreases inputs.len(),
{
    if i < inputs.len() {
        assert(inputs.drop_last().take(i) =~= inputs.take(i));
        lemma_load_many_error(inputs.drop_last(), i);
    } else {
        assert(inputs.take(i) =~= inputs);
    }
}

/// Loads several dumps, flattening the instances of each into one list.
pub fn load_many(inputs: &[Input]) -> (r: Result<Vec<Loaded>, InputError>)
    ensures
        match load_many_spec(inputs_view(inputs@)) {
            Ok(want) => r matches Ok(v) && loaded_view(v@) == want && forall|i: int|
                0 <= i < v@.len() ==> (#[trigger] v@[i]).wf(),
            Err(e) => r matches Err(got) && got == e,
        },
{
    let ghost iv = inputs_view(inputs@);
    let mut out: Vec<Loaded> = Vec::new();
    assert(loaded_view(out@) =~= Seq::<LoadedView>::empty());
    let mut i: usize = 0;
    while i < inputs.len()
        invariant
            i <= inputs@.len(),
            iv == inputs_view(inputs@),
            load_many_spec(iv.take(i as int)) == Ok::<Seq<LoadedView>, InputError>(
                loaded_view(out@),
            ),
            forall|k: int| 0 <= k < out@.len() ==> (#[trigger] out@[k]).wf(),
        decreases inputs@.len() - i,
    {
        let ghost before = loaded_view(out@);
        proof {
            assert(iv.take(i + 1).drop_last() =~= iv.take(i as int));
            assert(iv.take(i + 1).last() == iv[i as int]);
        }
        match load(inputs[i].path.as_str(), inputs[i].bytes.clone()) {
            Ok(mut more) => {
                let ghost mv = more@;
                let ghost ov = out@;
                out.append(&mut more);
                assert(loaded_view(out@) =~= before + loaded_view(mv));
                assert forall|k: int| 0 <= k < out@.len() implies (#[trigger] out@[k]).wf() by {
                    if k >= ov.len() {
                        assert(out@[k] == mv[k - ov.len()]);
                    } else {
                        assert(out@[k] == ov[k]);
                    }
                }
            },
            Err(error) => {
                proof {
                    lemma_load_many_error(iv, i + 1);
                }
                return Err(InputError { input: i, error });
            },
        }
        i = i + 1;
    }
    assert(iv.take(i as int) =~= iv);
    Ok(out)
}

/// The value of one record of an instance, with the shard it comes from.
#[verifier::ext_equal]
pub struct RecRefView {
    pub ts_nanos: u64,
    pub shard_id: u32,
    pub schema_idx: nat,
    pub fields: Seq<u8>,
}

impl View for RecRef {
    type V = RecRefView;

    open spec fn view(&self) -> RecRefView {
        RecRefView {
            ts_nanos: self.ts_nanos,
            shard_id: self.shard_id,
            schema_idx: self.schema_idx as nat,
            fields: bytes_of(self.fields),
        }
    }
}

/// The values of a run of records.
pub open spec fn rec_refs_view(v: Seq<RecRef>) -> Seq<RecRefView> {
    v.map_values(|r: RecRef| r@)
}

/// The records of one shard.
pub open spec fn shard_rec_refs(sh: ShardRecsView) -> Seq<RecRefView> {
    sh.recs.map_values(
        |r: RecView|
            RecRefView {
                ts_nanos: r.ts_nanos,
                shard_id: sh.shard_id,
                schema_idx: r.schema_idx,
                fields: r.fields,
            },
    )
}

/// The records of a run of shards, shard by shard.
pub open spec fn all_rec_refs(shards: Seq<ShardRecsView>) -> Seq<RecRefView>
    decreases shards.len(),
{
    if shards.len() == 0 {
        Seq::empty()
    } else {
        all_rec_refs(shards.drop_last()) + shard_rec_refs(shards.last())
    }
}

impl ShardRecs {
    /// The field bytes of the record at `loc`, sliced from `region` (or from the out-of-line
    /// `wrapped` payload for the boundary record). `schemas` supplies the `record_size` that bounds
    /// the fields.
    pub(crate) fn fields(&self, loc: &Locator, schemas: &Vec<OwnedSchema>) -> (b: Bytes)
        requires
            loc_ok(
                owned_schemas_view(schemas@),
                bytes_of(self.region),
                opt_bytes(self.wrapped),
                *loc,
            ),
        ensures
            bytes_of(b) == loc_rec(
                owned_schemas_view(schemas@),
                bytes_of(self.region),
                opt_bytes(self.wrapped),
                *loc,
            ).fields,
    {
        let ghost view = owned_schemas_view(schemas@);
        assert(view[loc.schema_idx as int] == schemas@[loc.schema_idx as int]@);
        let rec_size: usize = schemas[loc.schema_idx as usize].record_size as usize;
        if loc.offset == WRAPPED {
            match &self.wrapped {
                Some(payload) => bytes_slice(payload, FIELDS_OFFSET, FIELDS_OFFSET + rec_size),
                None => self.region.clone(),
            }
        } else {
            let ghost buffer = bytes_of(self.region).skip(loc.offset as int);
            let whole = bytes_as_slice(&self.region);
            assert(loc.offset + 16 + rec_size <= whole.len());
            let start: usize = loc.offset as usize + FIELDS_OFFSET;
            let b = bytes_slice(&self.region, start, start + rec_size);
            assert(bytes_of(b) =~= buffer.subrange(16, 16 + rec_size));
            b
        }
    }
}

impl Loaded {
    /// The total number of recovered records across all of this instance's shards.
    pub fn record_count(&self) -> (n: usize)
        requires
            all_rec_refs(self@.shards).len() <= usize::MAX,
        ensures
            n == all_rec_refs(self@.shards).len(),
    {
        let ghost view = self@.shards;
        let mut n: usize = 0;
        let mut i: usize = 0;
        assert(view.take(0) =~= Seq::<ShardRecsView>::empty());
        while i < self.shards.len()
            invariant
                i <= self.shards@.len(),
                view == self@.shards,
                all_rec_refs(view).len() <= usize::MAX,
                n == all_rec_refs(view.take(i as int)).len(),
            decreases self.shards@.len() - i,
        {
            proof {
                assert(view.take(i + 1).drop_last() =~= view.take(i as int));
                assert(view[i as int].recs.len() == self.shards@[i as int].locs@.len());
                lemma_rec_refs_prefix(view, i + 1);
            }
            n = n + self.shards[i].locs.len();
            i = i + 1;
        }
        assert(view.take(i as int) =~= view);
        n
    }

    /// This instance's records in per-shard order: shards ascending, then each shard's own order.
    pub fn records(&self) -> (v: Vec<RecRef>)
        requires
            self.wf(),
        ensures
            rec_refs_view(v@) == all_rec_refs(self@.shards),
    {
        let ghost view = self@.shards;
        let ghost schemas = owned_schemas_view(self.schemas@);
        let mut v: Vec<RecRef> = Vec::new();
        let mut i: usize = 0;
        assert(view.take(0) =~= Seq::<ShardRecsView>::empty());
        assert(rec_refs_view(v@) =~= all_rec_refs(view.take(0)));
        while i < self.shards.len()
            invariant
                i <= self.shards@.len(),
                view == self@.shards,
                schemas == owned_schemas_view(self.schemas@),
                self.wf(),
                rec_refs_view(v@) == all_rec_refs(view.take(i as int)),
            decreases self.shards@.len() - i,
        {
            let sh = &self.shards[i];
            let ghost base = all_rec_refs(view.take(i as int));
            let ghost recs = shard_rec_refs(view[i as int]);
            assert(view[i as int] == sh.value(schemas));
            assert(base + recs.take(0) =~= base);
            assert(sh.wf(schemas));
            let mut j: usize = 0;
            while j < sh.locs.len()
                invariant
                    j <= sh.locs@.len(),
                    schemas == owned_schemas_view(self.schemas@),
                    sh.wf(schemas),
                    recs == shard_rec_refs(sh.value(schemas)),
                    rec_refs_view(v@) == base + recs.take(j as int),
                decreases sh.locs@.len() - j,
            {
                let loc = &sh.locs[j];
                let ghost before = rec_refs_view(v@);
                let r = RecRef {
                    ts_nanos: loc.ts_nanos,
                    shard_id: sh.shard_id,
                    schema_idx: loc.schema_idx as usize,
                    fields: sh.fields(loc, &self.schemas),
                };
                assert(r@ == recs[j as int]);
                v.push(r);
                proof {
                    assert(rec_refs_view(v@) =~= before.push(recs[j as int]));
                    assert(base + recs.take(j + 1) =~= (base + recs.take(j as int)).push(
                        recs[j as int],
                    ));
                }
                j = j + 1;
            }
            proof {
                assert(recs.take(j as int) =~= recs);
                assert(view.take(i + 1).drop_last() =~= view.take(i as int));
            }
            i = i + 1;
        }
        assert(view.take(i as int) =~= view);
        v
    }
}

/// The records of the first shards are no more than those of all.
proof fn lemma_rec_refs_prefix(shards: Seq<ShardRecsView>, i: int)
    requires
        0 <= i <= shards.len(),
    ensures
        all_rec_refs(shards.take(i)).len() <= all_rec_refs(shards).len(),
    decreases shards.len(),
{
    if i < shards.len() {
        assert(shards.drop_last().take(i) =~= shards.take(i));
        lemma_rec_refs_prefix(shards.drop_last(), i);
    } else {
        assert(shards.take(i) =~= shards);
    }
}

} // verus!
