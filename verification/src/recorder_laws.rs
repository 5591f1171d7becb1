//! What was recorded reads back: from the rings of a recorder, through a dump, to loaded records.

use crate::cpu::shard_for;
use crate::event::Event;
use crate::id::EventId;
use crate::le::{le_bytes, lemma_le_bytes_len};
use crate::model::{
    is_record, lemma_loc_order, lemma_schema_of_id, lemma_walked_loc, load_spec, loaded_all,
    loaded_one, loc_leq, loc_rec, meta_ids, record_validator, shard_leq, shard_value, shard_walk,
    shards_of, sorted_schemas, too_large, walked_loc, walked_locs, with_shard_ids, wrapped_payload,
    Locator, RecView,
};
use crate::order::{lemma_insert_pos, lemma_stable_sort_len};
use crate::record::{record_bytes, record_id, record_ts};
use crate::recorder::{
    entered, law_dump_reads_back, recorded, recorder_parts, recorder_sections, with_record, Clock,
    Recorder, RecorderView, SpanGuard,
};
use crate::ring::{payloads, ring_empty, ring_push, RingView};
use crate::ring_laws::{
    framed_len, law_walk_recovers_newest, law_walk_round_trip, lemma_push_all_shape, push_all,
    pushable,
};
use crate::schema::SchemaView;
use crate::span::SpanIds;
use crate::wire::{dump_bytes, dump_len, InternView, MetaView, ShardView};
use crate::wire_laws::{intern_fits, registry_fits, str_fits};
use vstd::arithmetic::power2::is_pow2;
use vstd::prelude::*;
use vstd::seq_lib::{to_multiset_build, to_multiset_contains, to_multiset_len, to_multiset_remove};

verus! {

/// One event that was recorded: when, of which type, and its fields.
#[verifier::ext_equal]
pub struct Recorded {
    pub ts_nanos: u64,
    pub event_id: u64,
    pub fields: Seq<u8>,
}

/// Reads a record's payload as the event that was recorded.
pub open spec fn event_reader() -> spec_fn(Seq<u8>) -> Recorded {
    |p: Seq<u8>| Recorded { ts_nanos: record_ts(p), event_id: record_id(p), fields: p.skip(16) }
}

/// The events of a run of payloads.
pub open spec fn recorded_events(hist: Seq<Seq<u8>>) -> Seq<Recorded> {
    hist.map_values(event_reader())
}

/// Reads a loaded record as the event that was recorded.
pub open spec fn record_reader(schemas: Seq<SchemaView>) -> spec_fn(RecView) -> Recorded {
    |r: RecView|
        Recorded {
            ts_nanos: r.ts_nanos,
            event_id: schemas[r.schema_idx as int].id,
            fields: r.fields,
        }
}

/// The events of a run of loaded records.
pub open spec fn loaded_events(schemas: Seq<SchemaView>, recs: Seq<RecView>) -> Seq<Recorded> {
    recs.map_values(record_reader(schemas))
}

/// The limits of the file format that a recorder's dump must keep to.
pub open spec fn recorder_fits(
    r: RecorderView,
    schemas: Seq<SchemaView>,
    intern: Seq<(u32, Seq<u8>)>,
    views: Seq<&str>,
    host: Seq<char>,
) -> bool {
    &&& registry_fits(schemas)
    &&& intern_fits(InternView { instance_id: r.instance_id, entries: intern })
    &&& str_fits(host)
    &&& recorder_sections(r, schemas, intern, views, host).len() < 0x1_0000
    &&& dump_len(recorder_sections(r, schemas, intern, views, host)) <= usize::MAX
    &&& forall|i: int|
        0 <= i < r.rings.len() ==> (#[trigger] r.rings[i]).region.len() <= 0xffff_ffff
            && r.rings[i].head <= usize::MAX
}

// ---------------------------------------------------------------------------
// One shard.
// ---------------------------------------------------------------------------

/// Runs with the same elements have the same images.
pub proof fn lemma_map_multiset<A, B>(a: Seq<A>, b: Seq<A>, f: spec_fn(A) -> B)
    requires
        a.to_multiset() == b.to_multiset(),
    ensures
        a.map_values(f).to_multiset() == b.map_values(f).to_multiset(),
    decreases a.len(),
{
    broadcast use vstd::multiset::group_multiset_axioms;

    to_multiset_len(a);
    to_multiset_len(b);
    if a.len() == 0 {
        assert(a.map_values(f) =~= b.map_values(f));
    } else {
        let x = a.last();
        let init = a.drop_last();
        assert(a =~= init.push(x));
        to_multiset_build(init, x);
        to_multiset_contains(a, x);
        to_multiset_contains(b, x);
        assert(a.contains(x));
        let k = choose|k: int| 0 <= k < b.len() && b[k] == x;
        let rest = b.remove(k);
        to_multiset_remove(b, k);
        assert(init.to_multiset() =~= rest.to_multiset());
        lemma_map_multiset(init, rest, f);
        let fb = b.map_values(f);
        assert(a.map_values(f) =~= init.map_values(f).push(f(x)));
        assert(fb.remove(k) =~= rest.map_values(f));
        to_multiset_build(init.map_values(f), f(x));
        to_multiset_remove(fb, k);
        to_multiset_contains(fb, f(x));
        assert(fb[k] == f(x));
        assert(fb.contains(f(x)));
        assert(fb.to_multiset() =~= fb.remove(k).to_multiset().insert(f(x)));
    }
}

/// A loaded shard holds the events that the walk of its ring accepts.
proof fn lemma_shard_events(schemas: Seq<SchemaView>, shard: ShardView)
    requires
        schemas.len() < 0x1_0000_0000,
        shard.capacity <= 0xffff_ffff,
        shard.region.len() == shard.capacity,
    ensures
        loaded_events(schemas, shard_value(schemas, shard).recs).to_multiset() == recorded_events(
            payloads(shard_walk(schemas, shard)),
        ).to_multiset(),
{
    let walk = shard_walk(schemas, shard);
    let wrapped = wrapped_payload(walk);
    let locs = walked_locs(schemas, walk);
    let sorted = locs.sort_by(loc_leq());
    let recs = shard_value(schemas, shard).recs;
    let g = |l: Locator| record_reader(schemas)(loc_rec(schemas, shard.region, wrapped, l));
    lemma_loc_order();
    locs.lemma_sort_by_ensures(loc_leq());
    lemma_map_multiset(sorted, locs, g);
    assert(loaded_events(schemas, recs) =~= sorted.map_values(g));
    let want = recorded_events(payloads(walk));
    assert forall|i: int| 0 <= i < walk.len() implies #[trigger] locs.map_values(g)[i] == want[i] by {
        lemma_walked_loc(schemas, shard, i);
        crate::model::lemma_shard_walk(schemas, shard);
        assert(crate::model::walked_ok(record_validator(schemas), shard.region, walk[i]));
        assert(is_record(schemas, walk[i].payload));
        lemma_schema_of_id(schemas, record_id(walk[i].payload));
        assert(locs[i] == walked_loc(schemas, walk[i]));
        assert(payloads(walk)[i] == walk[i].payload);
    }
    assert(locs.map_values(g) =~= want);
}

// ---------------------------------------------------------------------------
// The whole dump.
// ---------------------------------------------------------------------------

/// The shards of one instance, with ascending ids, are loaded in their order.
proof fn lemma_shards_in_order(schemas: Seq<SchemaView>, shards: Seq<ShardView>, id: u64)
    requires
        shards.len() <= 0x1_0000_0000,
        forall|i: int|
            0 <= i < shards.len() ==> (#[trigger] shards[i]).instance_id == id && shards[i].shard_id
                == i,
    ensures
        shards_of(schemas, shards, id).len() == shards.len(),
        forall|i: int|
            0 <= i < shards.len() ==> #[trigger] shards_of(schemas, shards, id)[i] == shard_value(
                schemas,
                shards[i],
            ),
    decreases shards.len(),
{
    if shards.len() > 0 {
        let init = shards.drop_last();
        let last = shards.last();
        assert forall|i: int| 0 <= i < init.len() implies (#[trigger] init[i]).instance_id == id
            && init[i].shard_id == i by {
            assert(init[i] == shards[i]);
        }
        lemma_shards_in_order(schemas, init, id);
        let before = shards_of(schemas, init, id);
        let x = shard_value(schemas, last);
        assert(last == shards[shards.len() - 1]);
        assert forall|j: int| 0 <= j < before.len() implies shard_leq()(
            #[trigger] before[j],
            x,
        ) by {
            assert(before[j] == shard_value(schemas, init[j]));
            assert(init[j].shard_id == j);
        }
        lemma_insert_pos(before, x, shard_leq(), before.len() as int);
        assert forall|i: int| 0 <= i < shards.len() implies #[trigger] shards_of(
            schemas,
            shards,
            id,
        )[i] == shard_value(schemas, shards[i]) by {
            if i < init.len() {
                assert(before[i] == shard_value(schemas, init[i]));
                assert(init[i] == shards[i]);
            }
        }
    }
}

/// The shards of one instance add no other.
proof fn lemma_one_instance(id: u64, shards: Seq<ShardView>)
    requires
        forall|i: int| 0 <= i < shards.len() ==> (#[trigger] shards[i]).instance_id == id,
    ensures
        with_shard_ids(seq![id], shards) == seq![id],
    decreases shards.len(),
{
    if shards.len() > 0 {
        let init = shards.drop_last();
        assert forall|i: int| 0 <= i < init.len() implies (#[trigger] init[i]).instance_id == id by {
            assert(init[i] == shards[i]);
        }
        lemma_one_instance(id, init);
        assert(shards[shards.len() - 1].instance_id == id);
        assert(seq![id][0] == id);
        assert(seq![id].contains(id));
    }
}

/// No shard is too large to be addressed.
proof fn lemma_none_too_large(shards: Seq<ShardView>)
    requires
        forall|i: int| 0 <= i < shards.len() ==> (#[trigger] shards[i]).capacity <= 0xffff_ffff,
    ensures
        too_large(shards) is None,
    decreases shards.len(),
{
    if shards.len() > 0 {
        let init = shards.drop_last();
        assert forall|i: int| 0 <= i < init.len() implies (#[trigger] init[i]).capacity
            <= 0xffff_ffff by {
            assert(init[i] == shards[i]);
        }
        lemma_none_too_large(init);
        assert(shards[shards.len() - 1].capacity <= 0xffff_ffff);
    }
}

/// The shard of a ring, as it stands in the dump.
spec fn ring_shard(r: RecorderView, i: int) -> ShardView {
    ShardView {
        instance_id: r.instance_id,
        shard_id: i as u32,
        head: r.rings[i].head as u64,
        capacity: r.rings[i].region.len() as u64,
        region: r.rings[i].region,
    }
}

/// Loading a recorder's dump gives one instance, with a shard for each ring.
proof fn lemma_loaded(
    path: Seq<char>,
    r: RecorderView,
    schemas: Seq<SchemaView>,
    intern: Seq<(u32, Seq<u8>)>,
    views: Seq<&str>,
    host: Seq<char>,
)
    requires
        recorder_fits(r, schemas, intern, views, host),
    ensures
        load_spec(path, dump_bytes(recorder_sections(r, schemas, intern, views, host))) matches Ok(
            dumps,
        ) && dumps.len() == 1 && dumps[0].instance_id == r.instance_id && dumps[0].host == host
            && dumps[0].schemas == sorted_schemas(schemas) && dumps[0].shards.len()
            == r.rings.len() && forall|i: int|
            0 <= i < r.rings.len() ==> #[trigger] dumps[0].shards[i] == shard_value(
                sorted_schemas(schemas),
                ring_shard(r, i),
            ),
{
    law_dump_reads_back(r, schemas, intern, views, host);
    let parts = recorder_parts(r, schemas, intern, views, host);
    let shards = parts.shards;
    assert(shards.len() == r.rings.len());
    assert forall|i: int| 0 <= i < shards.len() implies #[trigger] shards[i] == ring_shard(r, i) by {}
    assert forall|i: int| 0 <= i < shards.len() implies (#[trigger] shards[i]).capacity
        <= 0xffff_ffff && shards[i].instance_id == r.instance_id && shards[i].shard_id == i by {
        assert(shards[i] == ring_shard(r, i));
        assert(r.rings[i].region.len() <= 0xffff_ffff);
    }
    lemma_none_too_large(shards);
    let m = MetaView { instance_id: r.instance_id, host };
    assert(parts.metas =~= seq![m]);
    assert(meta_ids(parts.metas) == seq![r.instance_id]) by {
        assert(parts.metas.drop_last() =~= Seq::<MetaView>::empty());
        assert(meta_ids(parts.metas.drop_last()) =~= Seq::<u64>::empty());
        assert(meta_ids(parts.metas) =~= seq![r.instance_id]);
    }
    lemma_one_instance(r.instance_id, shards);
    lemma_shards_in_order(sorted_schemas(schemas), shards, r.instance_id);
    let all = loaded_all(path, parts);
    assert(all =~= seq![loaded_one(path, parts, r.instance_id)]);
    assert(parts.metas.last() == m);
}

/// The rings hold exactly these records, of which none has been overwritten and each is one of the
/// registry.
pub open spec fn rings_hold(
    r: RecorderView,
    schemas: Seq<SchemaView>,
    hists: Seq<Seq<Seq<u8>>>,
) -> bool {
    &&& hists.len() == r.rings.len()
    &&& forall|i: int|
        0 <= i < hists.len() ==> ring_holds(
            r.rings[i],
            sorted_schemas(schemas),
            #[trigger] hists[i],
        )
}

/// A ring holds exactly these records, of which none has been overwritten and each is one of the
/// registry.
pub open spec fn ring_holds(
    ring: RingView,
    schemas: Seq<SchemaView>,
    hist: Seq<Seq<u8>>,
) -> bool {
    &&& is_pow2(ring.region.len() as int)
    &&& ring == push_all(ring_empty(ring.region.len()), hist)
    &&& pushable(hist, ring.region.len())
    &&& framed_len(hist) <= ring.region.len()
    &&& forall|j: int| 0 <= j < hist.len() ==> is_record(schemas, #[trigger] hist[j])
}

/// What was recorded reads back: loading a recorder's dump gives one instance with the recorder's id
/// and host label, and each shard has exactly the events that were recorded in its ring, as long as
/// none has been overwritten.
pub proof fn law_recorded_events_read_back(
    path: Seq<char>,
    r: RecorderView,
    schemas: Seq<SchemaView>,
    intern: Seq<(u32, Seq<u8>)>,
    views: Seq<&str>,
    host: Seq<char>,
    hists: Seq<Seq<Seq<u8>>>,
)
    requires
        recorder_fits(r, schemas, intern, views, host),
        rings_hold(r, schemas, hists),
    ensures
        load_spec(path, dump_bytes(recorder_sections(r, schemas, intern, views, host))) matches Ok(
            dumps,
        ) && dumps.len() == 1 && dumps[0].instance_id == r.instance_id && dumps[0].host == host
            && dumps[0].shards.len() == r.rings.len() && forall|i: int|
            0 <= i < r.rings.len() ==> (#[trigger] dumps[0].shards[i]).shard_id == i
                && loaded_events(dumps[0].schemas, dumps[0].shards[i].recs).to_multiset()
                == recorded_events(hists[i]).to_multiset(),
{
    lemma_loaded(path, r, schemas, intern, views, host);
    let dumps = load_spec(
        path,
        dump_bytes(recorder_sections(r, schemas, intern, views, host)),
    )->Ok_0;
    let known = sorted_schemas(schemas);
    assert forall|i: int| 0 <= i < r.rings.len() implies (#[trigger] dumps[0].shards[i]).shard_id == i
        && loaded_events(known, dumps[0].shards[i].recs).to_multiset() == recorded_events(
        hists[i],
    ).to_multiset() by {
        let hist = hists[i];
        let ring = r.rings[i];
        let shard = ring_shard(r, i);
        assert(ring_holds(ring, known, hist));
        assert(ring.region.len() <= 0xffff_ffff);
        lemma_push_all_shape(ring_empty(ring.region.len()), hist);
        assert forall|j: int| 0 <= j < hist.len() implies record_validator(known)(
            #[trigger] hist[j],
        ) by {
            assert(is_record(known, hist[j]));
        }
        law_walk_round_trip(record_validator(known), ring.region.len(), hist);
        lemma_stable_sort_len(schemas, crate::model::schema_leq());
        lemma_shard_events(known, shard);
        assert(payloads(shard_walk(known, shard)) == hist.reverse());
        hist.lemma_reverse_to_multiset();
        lemma_map_multiset(hist.reverse(), hist, event_reader());
        assert(dumps[0].shards[i] == shard_value(known, shard));
    }
}

/// The newest records read back, whatever was overwritten before them: of a ring that has taken the
/// records `hist`, each of the newest `k` is in its loaded shard, as long as together they fit in the
/// ring.
pub proof fn law_newest_events_read_back(
    path: Seq<char>,
    r: RecorderView,
    schemas: Seq<SchemaView>,
    intern: Seq<(u32, Seq<u8>)>,
    views: Seq<&str>,
    host: Seq<char>,
    i: int,
    hist: Seq<Seq<u8>>,
    k: nat,
    j: int,
)
    requires
        recorder_fits(r, schemas, intern, views, host),
        0 <= i < r.rings.len(),
        is_pow2(r.rings[i].region.len() as int),
        r.rings[i] == push_all(ring_empty(r.rings[i].region.len()), hist),
        pushable(hist, r.rings[i].region.len()),
        k <= hist.len(),
        framed_len(hist.skip(hist.len() - k)) <= r.rings[i].region.len(),
        framed_len(hist) <= usize::MAX,
        forall|m: int|
            hist.len() - k <= m < hist.len() ==> is_record(
                sorted_schemas(schemas),
                #[trigger] hist[m],
            ),
        hist.len() - k <= j < hist.len(),
    ensures
        load_spec(path, dump_bytes(recorder_sections(r, schemas, intern, views, host))) matches Ok(
            dumps,
        ) && dumps.len() == 1 && dumps[0].instance_id == r.instance_id && dumps[0].shards.len()
            == r.rings.len() && dumps[0].shards[i].shard_id == i && loaded_events(
            dumps[0].schemas,
            dumps[0].shards[i].recs,
        ).contains(event_reader()(hist[j])),
{
    lemma_loaded(path, r, schemas, intern, views, host);
    let dumps = load_spec(
        path,
        dump_bytes(recorder_sections(r, schemas, intern, views, host)),
    )->Ok_0;
    let known = sorted_schemas(schemas);
    let ring = r.rings[i];
    let shard = ring_shard(r, i);
    let valid = record_validator(known);
    assert(ring.region.len() <= 0xffff_ffff && ring.head <= usize::MAX);
    assert forall|m: int| hist.len() - k <= m < hist.len() implies valid(#[trigger] hist[m]) by {
        assert(is_record(known, hist[m]));
    }
    law_walk_recovers_newest(valid, ring.region.len(), hist, k);
    lemma_stable_sort_len(schemas, crate::model::schema_leq());
    lemma_shard_events(known, shard);
    let walked = payloads(shard_walk(known, shard));
    let newest = hist.skip(hist.len() - k);
    let at = hist.len() - 1 - j;
    assert(newest.reverse()[at] == hist[j]);
    assert(walked[at] == hist[j]);
    let events = recorded_events(walked);
    let e = event_reader()(hist[j]);
    assert(events[at] == e);
    assert(events.contains(e));
    to_multiset_contains(events, e);
    assert(dumps[0].shards[i] == shard_value(known, shard));
    to_multiset_contains(loaded_events(known, dumps[0].shards[i].recs), e);
}

/// A ring has taken one more record: the clock's reading on eight bytes, the event's id on eight, then
/// the event's bytes.
pub open spec fn took_record<C: Clock, E: Event>(
    before: RingView,
    after: RingView,
    clock: C,
    event: &E,
) -> bool {
    exists|payload: Seq<u8>, ts: u64, id: EventId, b: &[u8]|
        #![trigger ring_push(before, payload), call_ensures(C::now_nanos, (&clock,), ts), call_ensures(E::id, (), id), call_ensures(E::as_bytes, (event,), b)]
        {
            &&& after == ring_push(before, payload)
            &&& call_ensures(C::now_nanos, (&clock,), ts)
            &&& call_ensures(E::id, (), id)
            &&& call_ensures(E::as_bytes, (event,), b)
            &&& payload.len() == 16 + b@.len()
            &&& payload.take(8) == le_bytes(ts as nat, 8)
            &&& payload.subrange(8, 16) == le_bytes(id.0 as nat, 8)
            &&& payload.skip(16) == b@
        }
}

/// Recording an event does nothing while capture is disabled. Otherwise the ring whose place is the
/// number of the CPU, or what is left of it over the number of rings, takes one record of the event;
/// the other rings, the instance id and the clock stay.
pub proof fn law_record_fills_one_ring<C: Clock, E: Event>(
    r: &mut Recorder<C>,
    cpu: usize,
    event: &E,
)
    requires
        old(r)@.rings.len() > 0,
        call_ensures(Recorder::<C>::record::<E>, (r, cpu, event), ()),
    ensures
        !old(r)@.enabled ==> final(r)@ == old(r)@,
        final(r)@.enabled == old(r)@.enabled,
        final(r)@.instance_id == old(r)@.instance_id,
        final(r).installed() == old(r).installed(),
        final(r)@.rings.len() == old(r)@.rings.len(),
        forall|i: int|
            0 <= i < old(r)@.rings.len() && i != cpu as int % old(r)@.rings.len() as int
                ==> #[trigger] final(r)@.rings[i] == old(r)@.rings[i],
        old(r)@.enabled ==> took_record(
            old(r)@.rings[cpu as int % old(r)@.rings.len() as int],
            final(r)@.rings[cpu as int % old(r)@.rings.len() as int],
            old(r).installed(),
            event,
        ),
{
    lemma_recorded(old(r)@, final(r)@, old(r).installed(), cpu, event);
}

/// What recording an event on the ring of a CPU does.
proof fn lemma_recorded<C: Clock, E: Event>(
    before: RecorderView,
    after: RecorderView,
    clock: C,
    cpu: usize,
    event: &E,
)
    requires
        before.rings.len() > 0,
        recorded(before, after, clock, event, shard_for(cpu as nat, before.rings.len())),
    ensures
        0 <= (cpu as int % before.rings.len() as int) < before.rings.len(),
        !before.enabled ==> after == before,
        after.enabled == before.enabled,
        after.instance_id == before.instance_id,
        after.rings.len() == before.rings.len(),
        forall|i: int|
            0 <= i < before.rings.len() && i != cpu as int % before.rings.len() as int
                ==> #[trigger] after.rings[i] == before.rings[i],
        before.enabled ==> took_record(
            before.rings[cpu as int % before.rings.len() as int],
            after.rings[cpu as int % before.rings.len() as int],
            clock,
            event,
        ),
{
    let n = before.rings.len();
    let shard = shard_for(cpu as nat, n);
    assert(shard == cpu as int % n as int && 0 <= shard < n) by {
        if n == 1 {
            assert(cpu as int % 1 == 0);
        }
    }
    if before.enabled {
        let (ts, id, b) = choose|ts: u64, id: EventId, b: &[u8]|
            #![trigger call_ensures(C::now_nanos, (&clock,), ts), call_ensures(E::id, (), id), call_ensures(E::as_bytes, (event,), b)]
            call_ensures(C::now_nanos, (&clock,), ts) && call_ensures(E::id, (), id)
                && call_ensures(E::as_bytes, (event,), b) && after == with_record(
                before,
                shard,
                ts,
                id.0,
                b@,
            );
        let payload = record_bytes(ts, id.0, b@);
        lemma_le_bytes_len(ts as nat, 8);
        lemma_le_bytes_len(id.0 as nat, 8);
        assert(payload.take(8) =~= le_bytes(ts as nat, 8));
        assert(payload.subrange(8, 16) =~= le_bytes(id.0 as nat, 8));
        assert(payload.skip(16) =~= b@);
        assert(after.rings[shard as int] == ring_push(before.rings[shard as int], payload));
        assert(took_record(before.rings[shard as int], after.rings[shard as int], clock, event));
    }
}

/// A span's two halves carry its id: while capture is enabled, opening a span puts into the ring of the
/// CPU the event that is made for the span's id, and ending it the event that the other maker makes
/// for the same id.
pub proof fn law_halves_share_id<C, En, Ex, MkEn, MkEx>(
    r: &mut Recorder<C>,
    cpu: usize,
    ids: &mut SpanIds,
    make_enter: MkEn,
    make_exit: MkEx,
    g: SpanGuard<Ex, MkEx>,
    id: u64,
    later: &mut Recorder<C>,
    later_cpu: usize,
) where C: Clock, En: Event, Ex: Event, MkEn: FnOnce(u64) -> En, MkEx: FnOnce(u64) -> Ex
    requires
        old(r)@.rings.len() > 0,
        old(r)@.enabled,
        old(later)@.rings.len() > 0,
        old(later)@.enabled,
        call_ensures(
            Recorder::<C>::enter::<En, Ex, MkEn, MkEx>,
            (r, cpu, ids, make_enter, make_exit),
            g,
        ),
        call_ensures(SpanGuard::<Ex, MkEx>::id, (&g,), id),
        call_ensures(SpanGuard::<Ex, MkEx>::exit::<C>, (g, later_cpu, later), ()),
    ensures
        exists|e: En| #[trigger]
            call_ensures(make_enter, (id,), e) && took_record(
                old(r)@.rings[cpu as int % old(r)@.rings.len() as int],
                final(r)@.rings[cpu as int % old(r)@.rings.len() as int],
                old(r).installed(),
                &e,
            ),
        exists|e: Ex| #[trigger]
            call_ensures(make_exit, (id,), e) && took_record(
                old(later)@.rings[later_cpu as int % old(later)@.rings.len() as int],
                final(later)@.rings[later_cpu as int % old(later)@.rings.len() as int],
                old(later).installed(),
                &e,
            ),
{
    let shard = shard_for(cpu as nat, old(r)@.rings.len());
    assert(entered(old(r)@, final(r)@, old(r).installed(), make_enter, id, shard));
    let e = choose|e: En|
        #![trigger call_ensures(make_enter, (id,), e)]
        call_ensures(make_enter, (id,), e) && recorded(
            old(r)@,
            final(r)@,
            old(r).installed(),
            &e,
            shard,
        );
    lemma_recorded(old(r)@, final(r)@, old(r).installed(), cpu, &e);
    let later_shard = shard_for(later_cpu as nat, old(later)@.rings.len());
    let x = choose|x: Ex|
        #![trigger call_ensures(make_exit, (id,), x)]
        call_ensures(make_exit, (id,), x) && recorded(
            old(later)@,
            final(later)@,
            old(later).installed(),
            &x,
            later_shard,
        );
    lemma_recorded(old(later)@, final(later)@, old(later).installed(), later_cpu, &x);
}

} // verus!
