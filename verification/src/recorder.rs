//! The recorder: sharded capture rings and the dumper.
//!
//! A [`Recorder`] owns one [`Ring`] per shard. [`Recorder::record`] checks that capture is on, picks
//! the shard of the caller's CPU, reads the [`Clock`], and pushes `[ts][event_id][fields]` into the
//! shard's ring. Shards fill independently, and the global order is reconstructed at read time.
//!
//! A span is a pair of events that carry the same span id. [`Recorder::enter`] mints the id from the
//! current thread's source, records the enter event, and returns a [`SpanGuard`] that records the exit
//! event.

use crate::cpu::{current_hint, shard_for};
use crate::event::Event;
use crate::id::EventId;
use crate::le::{le_bytes, lemma_le_bytes_len, put_le};
use crate::record::record_bytes;
use crate::ring::{flat, parts_view, pow2_for, ring_empty, ring_push, Ring, RingView};
use crate::schema::{EventSchema, SchemaView};
use crate::span::{gen_instance_id, may_draw, span_id_of, SpanIds};
use crate::merge_laws::{lemma_all_ok, lemma_bodies_concat, lemma_bodies_uniform};
use crate::model::{dump_parts, DumpParts};
use crate::parse::{bodies_of, p_dump, p_intern, p_meta, p_shard, p_view};
use crate::wire::{
    dump_bytes, dump_len, entry_refs_view, intern_bytes, meta_bytes, registry_bytes,
    lemma_bodies_len_prefix, schema_refs_view, shard_bytes, DumpWriter, Error, InternView,
    MetaView, SectionView, ShardView,
};
use crate::wire_laws::{
    intern_fits, law_dump_round_trip, law_intern_round_trip, law_meta_round_trip,
    law_registry_round_trip, law_shard_round_trip, law_view_round_trip, registry_fits, str_fits,
};
use std::sync::Arc;
use vstd::prelude::*;
use vstd::utf8::encode_utf8;

verus! {

// ---------------------------------------------------------------------------
// Clocks.
// ---------------------------------------------------------------------------

/// A source of capture timestamps in nanoseconds.
pub trait Clock {
    /// The current time in nanoseconds. Must be cheap; it is on the record hot path.
    fn now_nanos(&self) -> u64;
}

/// A shared clock is itself a clock.
impl<C: Clock> Clock for Arc<C> {
    fn now_nanos(&self) -> (t: u64)
        ensures
            call_ensures(C::now_nanos, (&**self,), t),
    {
        (**self).now_nanos()
    }
}

/// The monotonic instant of the standard library.
#[verifier::external_type_specification]
#[verifier::external_body]
pub struct ExInstant(std::time::Instant);

/// Calls `Instant::now`. Nothing is claimed of it.
#[verifier::external_body]
fn instant_now() -> std::time::Instant {
    std::time::Instant::now()
}

/// Calls `Instant::elapsed`: the nanoseconds since the instant, of which the low 64 bits are taken.
/// Nothing is claimed of them.
#[verifier::external_body]
fn elapsed_nanos(start: &std::time::Instant) -> u64 {
    start.elapsed().as_nanos() as u64
}

/// The wall-clock time of the standard library.
#[verifier::external_type_specification]
#[verifier::external_body]
pub struct ExSystemTime(std::time::SystemTime);

/// Calls `SystemTime::now`. Nothing is claimed of it.
#[verifier::external_body]
fn wall_clock() -> std::time::SystemTime {
    std::time::SystemTime::now()
}

/// Calls `SystemTime::duration_since`: the nanoseconds since the Unix epoch, of which the low 64 bits
/// are taken, or `None` before it. Nothing is claimed of them.
#[verifier::external_body]
fn unix_nanos(now: &std::time::SystemTime) -> Option<u64> {
    now.duration_since(std::time::UNIX_EPOCH).ok().map(|d| d.as_nanos() as u64)
}

/// Calls `bach::time::Instant::try_now`: the nanoseconds since the start of the simulation that the
/// caller runs in, of which the low 64 bits are taken, or `None` outside of one. Nothing is claimed
/// of them.
#[verifier::external_body]
fn simulated_nanos() -> Option<u64> {
    bach::time::Instant::try_now().map(|t| t.elapsed_since_start().as_nanos() as u64)
}

/// Wall-clock based [`Clock`]: nanoseconds since the Unix epoch, read from a monotonic instant plus
/// a base latched at construction. Inside a simulation it reads the simulated time instead, which
/// starts at the epoch.
pub struct SystemClock {
    base_nanos: u64,
    start: std::time::Instant,
}

/// The base that a clock latches: the time since the epoch, or 0 where the wall clock is before it.
pub fn base_from(unix: Option<u64>) -> (base: u64)
    ensures
        base == match unix {
            Some(n) => n,
            None => 0,
        },
{
    match unix {
        Some(n) => n,
        None => 0,
    }
}

/// The reading of a clock with the given base after some time has passed: the simulated time, if
/// there is one.
pub fn reading(simulated: Option<u64>, base_nanos: u64, elapsed: u64) -> (t: u64)
    ensures
        t == match simulated {
            Some(now) => now as int,
            None => (base_nanos + elapsed) % 0x1_0000_0000_0000_0000,
        },
{
    match simulated {
        Some(now) => now,
        None => base_nanos.wrapping_add(elapsed),
    }
}

impl SystemClock {
    /// The clock latched a reading of the wall clock as its base, and the instant of its start.
    pub closed spec fn latched(&self) -> bool {
        &&& exists|now: std::time::SystemTime, unix: Option<u64>|
            #![trigger call_ensures(unix_nanos, (&now,), unix)]
            call_ensures(wall_clock, (), now) && call_ensures(unix_nanos, (&now,), unix)
                && self.base_nanos == match unix {
                Some(n) => n,
                None => 0,
            }
        &&& call_ensures(instant_now, (), self.start)
    }

    /// A reading that the clock may give: the simulated time, or else its base and the time that
    /// has passed since its start.
    pub closed spec fn may_read(&self, t: u64) -> bool {
        exists|simulated: Option<u64>, elapsed: u64|
            #![trigger call_ensures(simulated_nanos, (), simulated), call_ensures(elapsed_nanos, (&self.start,), elapsed)]
            call_ensures(simulated_nanos, (), simulated) && call_ensures(
                elapsed_nanos,
                (&self.start,),
                elapsed,
            ) && t == match simulated {
                Some(now) => now as int,
                None => (self.base_nanos + elapsed) % 0x1_0000_0000_0000_0000,
            }
    }

    /// Latches the current wall-clock as the base for subsequent monotonic reads.
    pub fn new() -> (c: Self)
        ensures
            c.latched(),
    {
        let base_nanos: u64 = base_from(unix_nanos(&wall_clock()));
        SystemClock { base_nanos, start: instant_now() }
    }
}

impl Default for SystemClock {
    fn default() -> (c: Self)
        ensures
            c.latched(),
    {
        SystemClock::new()
    }
}

impl Clock for SystemClock {
    /// The [`reading`] of what the clocks of the machine and the simulation say.
    fn now_nanos(&self) -> (t: u64)
        ensures
            self.may_read(t),
    {
        reading(simulated_nanos(), self.base_nanos, elapsed_nanos(&self.start))
    }
}

/// A deterministic [`Clock`] returning a manually advanced counter, for simulation and tests.
pub struct ManualClock(u64);

impl View for ManualClock {
    type V = u64;

    closed spec fn view(&self) -> u64 {
        self.0
    }
}

impl ManualClock {
    /// A clock starting at `start` nanoseconds.
    pub fn new(start: u64) -> (c: Self)
        ensures
            c@ == start,
    {
        ManualClock(start)
    }

    /// Advances the clock by `delta` nanoseconds and returns the new value, which must be countable.
    pub fn advance(&mut self, delta: u64) -> (now: u64)
        requires
            old(self)@ + delta <= u64::MAX,
        ensures
            final(self)@ == old(self)@ + delta,
            now == final(self)@,
    {
        self.0 = self.0 + delta;
        self.0
    }
}

impl Clock for ManualClock {
    fn now_nanos(&self) -> (t: u64)
        ensures
            t == self@,
    {
        self.0
    }
}

// ---------------------------------------------------------------------------
// The recorder.
// ---------------------------------------------------------------------------

/// A sharded, in-memory flight recorder.
///
/// Generic over the [`Clock`], so reading the timestamp is a direct call. Defaults to
/// [`SystemClock`]; a simulation installs a deterministic clock with
/// [`with_clock`](Recorder::with_clock).
pub struct Recorder<C: Clock = SystemClock> {
    enabled: bool,
    shards: Vec<Ring>,
    clock: C,
    instance_id: u64,
}

/// The value of a recorder.
#[verifier::ext_equal]
pub struct RecorderView {
    pub enabled: bool,
    pub rings: Seq<RingView>,
    pub instance_id: u64,
}

/// The values of a run of rings.
pub open spec fn rings_view(v: Seq<Ring>) -> Seq<RingView> {
    v.map_values(|r: Ring| r@)
}

impl<C: Clock> View for Recorder<C> {
    type V = RecorderView;

    closed spec fn view(&self) -> RecorderView {
        RecorderView {
            enabled: self.enabled,
            rings: rings_view(self.shards@),
            instance_id: self.instance_id,
        }
    }
}

/// A record with `n` field bytes fits into each of the rings.
pub open spec fn record_fits(rings: Seq<RingView>, n: nat) -> bool {
    &&& n + 16 <= 65535
    &&& forall|i: int|
        0 <= i < rings.len() ==> n + 18 <= (#[trigger] rings[i]).region.len()
}

/// Every way the event gives its bytes fits into each of the rings.
pub open spec fn event_fits<E: Event>(rings: Seq<RingView>, event: &E) -> bool {
    forall|b: &[u8]| #[trigger]
        call_ensures(E::as_bytes, (event,), b) ==> record_fits(rings, b@.len())
}

/// A recorder after one record of the given shard.
pub open spec fn with_record(
    r: RecorderView,
    shard: nat,
    ts_nanos: u64,
    event_id: u64,
    fields: Seq<u8>,
) -> RecorderView {
    RecorderView {
        rings: r.rings.update(
            shard as int,
            ring_push(r.rings[shard as int], record_bytes(ts_nanos, event_id, fields)),
        ),
        ..r
    }
}

/// What recording an event on a shard does: nothing while capture is off; otherwise it puts the
/// clock's reading, the event's id and its bytes into the shard's ring.
pub open spec fn recorded<C: Clock, E: Event>(
    before: RecorderView,
    after: RecorderView,
    clock: C,
    event: &E,
    shard: nat,
) -> bool {
    if !before.enabled {
        after == before
    } else {
        exists|ts: u64, id: EventId, b: &[u8]|
            #![trigger call_ensures(C::now_nanos, (&clock,), ts), call_ensures(E::id, (), id), call_ensures(E::as_bytes, (event,), b)]
            call_ensures(C::now_nanos, (&clock,), ts) && call_ensures(E::id, (), id)
                && call_ensures(E::as_bytes, (event,), b) && after == with_record(
                before,
                shard,
                ts,
                id.0,
                b@,
            )
    }
}

/// What opening a span on a shard does to a recorder: nothing while capture is off; otherwise it
/// records the enter event that is made for the span's id.
pub open spec fn entered<C: Clock, En: Event, MkEn: FnOnce(u64) -> En>(
    before: RecorderView,
    after: RecorderView,
    clock: C,
    make_enter: MkEn,
    id: u64,
    shard: nat,
) -> bool {
    if !before.enabled {
        after == before
    } else {
        exists|e: En|
            #![trigger call_ensures(make_enter, (id,), e)]
            call_ensures(make_enter, (id,), e) && recorded(before, after, clock, &e, shard)
    }
}

/// The sections of a recorder's view sets.
pub open spec fn set_sections(views: Seq<&str>) -> Seq<SectionView> {
    views.map_values(|v: &str| SectionView { kind: 4, body: encode_utf8(v@) })
}

/// The sections of a recorder's shards.
pub open spec fn ring_sections(r: RecorderView) -> Seq<SectionView> {
    Seq::new(
        r.rings.len(),
        |i: int|
            SectionView {
                kind: 2,
                body: shard_bytes(
                    r.instance_id,
                    i as u32,
                    r.rings[i].head as u64,
                    r.rings[i].region,
                ),
            },
    )
}

/// The sections of a recorder's dump: the registry, the intern table, the view sets, the shards and
/// the metadata.
pub open spec fn recorder_sections(
    r: RecorderView,
    schemas: Seq<SchemaView>,
    intern: Seq<(u32, Seq<u8>)>,
    views: Seq<&str>,
    host: Seq<char>,
) -> Seq<SectionView> {
    seq![
        SectionView { kind: 0, body: registry_bytes(schemas) },
        SectionView {
            kind: 1,
            body: intern_bytes(InternView { instance_id: r.instance_id, entries: intern }),
        },
    ] + set_sections(views) + ring_sections(r) + seq![
        SectionView {
            kind: 3,
            body: meta_bytes(MetaView { instance_id: r.instance_id, host }),
        },
    ]
}

impl Recorder {
    /// Creates a recorder with `num_shards` rings of `bytes_per_shard` each (rounded up to a power
    /// of two), the wall clock and a freshly drawn instance id. Starts disabled; call
    /// [`set_enabled`](Recorder::set_enabled). There must be a shard, and its size must be one that a
    /// ring can have.
    pub fn new(num_shards: usize, bytes_per_shard: usize) -> (r: Self)
        requires
            num_shards > 0,
            0 < bytes_per_shard <= isize::MAX / 2 + 1,
        ensures
            !r@.enabled,
            r@.rings == Seq::new(num_shards as nat, |i: int| ring_empty(pow2_for(bytes_per_shard as nat))),
            may_draw(r@.instance_id),
            r.installed().latched(),
    {
        let mut shards: Vec<Ring> = Vec::new();
        while shards.len() < num_shards
            invariant
                shards@.len() <= num_shards,
                0 < bytes_per_shard <= isize::MAX / 2 + 1,
                forall|i: int|
                    0 <= i < shards@.len() ==> (#[trigger] shards@[i])@ == ring_empty(
                        pow2_for(bytes_per_shard as nat),
                    ),
            decreases num_shards - shards@.len(),
        {
            shards.push(Ring::new(bytes_per_shard));
        }
        let r = Recorder {
            enabled: false,
            shards,
            clock: SystemClock::new(),
            instance_id: gen_instance_id(),
        };
        assert(r@.rings =~= Seq::new(
            num_shards as nat,
            |i: int| ring_empty(pow2_for(bytes_per_shard as nat)),
        ));
        r
    }
}

impl<C: Clock> Recorder<C> {
    /// The installed clock.
    pub closed spec fn installed(&self) -> C {
        self.clock
    }

    /// Installs another clock.
    pub fn with_clock<NewClock: Clock>(self, clock: NewClock) -> (r: Recorder<NewClock>)
        ensures
            r@ == self@,
            r.installed() == clock,
    {
        Recorder {
            enabled: self.enabled,
            shards: self.shards,
            clock,
            instance_id: self.instance_id,
        }
    }

    /// The installed clock, to be advanced.
    pub fn clock(&mut self) -> (c: &mut C)
        ensures
            *c == old(self).installed(),
            final(self)@ == old(self)@,
            final(self).installed() == *final(c),
    {
        &mut self.clock
    }

    /// Enables or disables capture at runtime. While disabled, [`record`](Self::record) returns
    /// immediately.
    pub fn set_enabled(&mut self, on: bool)
        ensures
            final(self)@ == (RecorderView { enabled: on, ..old(self)@ }),
            final(self).installed() == old(self).installed(),
    {
        self.enabled = on;
    }

    /// Whether capture is currently enabled.
    pub fn is_enabled(&self) -> (on: bool)
        ensures
            on == self@.enabled,
    {
        self.enabled
    }

    /// The number of shards.
    pub fn num_shards(&self) -> (n: usize)
        ensures
            n == self@.rings.len(),
    {
        self.shards.len()
    }

    /// The process id written into the dump's metadata. Spans are keyed by
    /// `(instance_id, span_id)`, so merging dumps from different processes never confuses ids.
    pub fn instance_id(&self) -> (id: u64)
        ensures
            id == self@.instance_id,
    {
        self.instance_id
    }

    /// Records one event as `[ts_nanos][event_id][fields]` on the shard of `cpu`, the CPU that the
    /// caller is running on. Does nothing when disabled. The record must fit into the rings.
    pub fn record<E: Event>(&mut self, cpu: usize, event: &E)
        requires
            old(self)@.rings.len() > 0,
            old(self)@.enabled ==> event_fits(old(self)@.rings, event),
        ensures
            recorded(
                old(self)@,
                final(self)@,
                old(self).installed(),
                event,
                shard_for(cpu as nat, old(self)@.rings.len()),
            ),
            final(self).installed() == old(self).installed(),
    {
        if !self.enabled {
            return;
        }
        let ghost before = self@;
        let shard: usize = current_hint(cpu, self.shards.len());
        let ts: u64 = self.clock.now_nanos();
        let id = E::id();
        let fields = event.as_bytes();
        let mut ts_bytes: Vec<u8> = Vec::new();
        put_le(&mut ts_bytes, ts, 8);
        let mut id_bytes: Vec<u8> = Vec::new();
        put_le(&mut id_bytes, id.get(), 8);
        let parts: [&[u8]; 3] = [ts_bytes.as_slice(), id_bytes.as_slice(), fields];
        proof {
            assert(call_ensures(E::as_bytes, (event,), fields));
            assert(ts_bytes@ =~= le_bytes(ts as nat, 8));
            assert(id_bytes@ =~= le_bytes(id.0 as nat, 8));
            lemma_le_bytes_len(ts as nat, 8);
            lemma_le_bytes_len(id.0 as nat, 8);
            let view = parts_view(parts@);
            assert(view =~= seq![ts_bytes@, id_bytes@, fields@]);
            assert(view.drop_last() =~= seq![ts_bytes@, id_bytes@]);
            assert(view.drop_last().drop_last() =~= seq![ts_bytes@]);
            assert(view.drop_last().drop_last().drop_last() =~= Seq::<Seq<u8>>::empty());
            reveal_with_fuel(flat, 4);
            assert(flat(view) =~= record_bytes(ts, id.0, fields@));
            assert(before.rings[shard as int] == self.shards@[shard as int]@);
        }
        self.shards[shard].push_parts(&parts);
        proof {
            assert(self@.rings =~= with_record(before, shard as nat, ts, id.0, fields@).rings);
            assert(self@ == with_record(before, shard as nat, ts, id.0, fields@));
        }
    }

    /// Mints a fresh span id from the source of the current thread, cheaply and without
    /// coordination: a counter in the high 48 bits and the thread's seed in the low 16. All recorders
    /// that a thread uses mint from its one source.
    pub fn new_span_id(&self, ids: &mut SpanIds) -> (id: u64)
        ensures
            final(ids).seed() == old(ids).seed(),
            final(ids).counter() == (old(ids).counter() + 1) % 0x1_0000_0000_0000_0000,
            id == span_id_of(final(ids).counter() as nat, old(ids).seed()),
    {
        ids.mint()
    }

    /// Opens a span: mints an id from the source of the current thread, records the enter event on
    /// the shard of `cpu`, the CPU that the caller is running on, and returns a [`SpanGuard`] that
    /// records the exit event.
    ///
    /// Both closures receive the freshly minted span id, so that they can stamp it into their events.
    /// `make_exit` runs when the span ends, so it can capture end-of-span state.
    pub fn enter<En, Ex, MkEn, MkEx>(
        &mut self,
        cpu: usize,
        ids: &mut SpanIds,
        make_enter: MkEn,
        make_exit: MkEx,
    ) -> (g: SpanGuard<Ex, MkEx>) where
        En: Event,
        Ex: Event,
        MkEn: FnOnce(u64) -> En,
        MkEx: FnOnce(u64) -> Ex,

        requires
            old(self)@.rings.len() > 0,
            forall|id: u64| #[trigger] call_requires(make_enter, (id,)),
            old(self)@.enabled ==> forall|id: u64, e: En|
                #![trigger call_ensures(make_enter, (id,), e)]
                call_ensures(make_enter, (id,), e) ==> event_fits(old(self)@.rings, &e),
        ensures
            final(ids).seed() == old(ids).seed(),
            final(ids).counter() == (old(ids).counter() + 1) % 0x1_0000_0000_0000_0000,
            g.span() == span_id_of(final(ids).counter() as nat, old(ids).seed()),
            g.closing() == make_exit,
            final(self).installed() == old(self).installed(),
            entered(
                old(self)@,
                final(self)@,
                old(self).installed(),
                make_enter,
                g.span(),
                shard_for(cpu as nat, old(self)@.rings.len()),
            ),
    {
        let id: u64 = self.new_span_id(ids);
        if self.is_enabled() {
            let event = make_enter(id);
            assert(call_ensures(make_enter, (id,), event));
            self.record(cpu, &event);
        }
        let g = SpanGuard { id, make_exit };
        assert(g.span() == id);
        g
    }

    /// Serializes the current state to a `.bb` dump: the schema registry, the given intern-table
    /// entries and view sets, one shard section per ring, and a metadata section. Pass `""` for
    /// `host` if no host label is wanted. The dump's length must be one that this machine can index.
    pub fn dump(
        &self,
        schemas: &[&EventSchema],
        intern: &[(u32, &[u8])],
        views: &[&str],
        host: &str,
    ) -> (out: Vec<u8>)
        requires
            dump_len(
                recorder_sections(
                    self@,
                    schema_refs_view(schemas@),
                    entry_refs_view(intern@),
                    views@,
                    host@,
                ),
            ) <= usize::MAX,
        ensures
            out@ == dump_bytes(
                recorder_sections(
                    self@,
                    schema_refs_view(schemas@),
                    entry_refs_view(intern@),
                    views@,
                    host@,
                ),
            ),
    {
        let ghost view = self@;
        let mut w = DumpWriter::new();
        w.schema_registry(schemas);
        w.intern_table(self.instance_id, intern);
        let ghost head = w@;
        let ghost vs = set_sections(views@);
        assert(w@ =~= head + vs.take(0));
        let mut v: usize = 0;
        while v < views.len()
            invariant
                v <= views@.len(),
                vs == set_sections(views@),
                w@ == head + vs.take(v as int),
            decreases views@.len() - v,
        {
            w.views(views[v]);
            assert(w@ =~= head + vs.take(v + 1));
            v = v + 1;
        }
        assert(vs.take(v as int) =~= vs);
        let ghost base = w@;
        let ghost rs = ring_sections(view);
        assert(w@ =~= base + rs.take(0));
        let mut i: usize = 0;
        while i < self.shards.len()
            invariant
                i <= self.shards@.len(),
                view == self@,
                rs == ring_sections(view),
                w@ == base + rs.take(i as int),
            decreases self.shards@.len() - i,
        {
            let ring = &self.shards[i];
            assert(view.rings[i as int] == ring@);
            let mut region: Vec<u8> = vec![0u8; ring.capacity()];
            let head: usize = ring.snapshot_into(region.as_mut_slice());
            w.shard(self.instance_id, i as u32, head as u64, region.as_slice());
            assert(w@ =~= base + rs.take(i + 1));
            i = i + 1;
        }
        assert(rs.take(i as int) =~= rs);
        w.meta(self.instance_id, host);
        assert(w@ =~= recorder_sections(
            view,
            schema_refs_view(schemas@),
            entry_refs_view(intern@),
            views@,
            host@,
        ));
        w.finish()
    }
}

/// An open span. Returned by [`Recorder::enter`]; hold it for the duration of the span, read
/// [`id`](Self::id) to stamp child events, and end the span with [`exit`](Self::exit).
#[must_use]
#[verifier::reject_recursive_types(Ex)]
#[verifier::reject_recursive_types(MkEx)]
pub struct SpanGuard<Ex: Event, MkEx: FnOnce(u64) -> Ex> {
    id: u64,
    make_exit: MkEx,
}

impl<Ex: Event, MkEx: FnOnce(u64) -> Ex> SpanGuard<Ex, MkEx> {
    /// The id of the span.
    pub closed spec fn span(&self) -> u64 {
        self.id
    }

    /// What makes the exit event.
    pub closed spec fn closing(&self) -> MkEx {
        self.make_exit
    }

    /// This span's id, to be threaded into child events.
    pub fn id(&self) -> (id: u64)
        ensures
            id == self.span(),
    {
        self.id
    }

    /// Ends the span: builds the exit event with the span id and records it on the shard of `cpu`, the
    /// CPU that the caller is running on. A recorder that is disabled by then writes nothing.
    pub fn exit<C: Clock>(self, cpu: usize, recorder: &mut Recorder<C>)
        requires
            old(recorder)@.rings.len() > 0,
            call_requires(self.closing(), (self.span(),)),
            old(recorder)@.enabled ==> forall|e: Ex|
                #![trigger call_ensures(self.closing(), (self.span(),), e)]
                call_ensures(self.closing(), (self.span(),), e) ==> event_fits(
                    old(recorder)@.rings,
                    &e,
                ),
        ensures
            final(recorder).installed() == old(recorder).installed(),
            exists|e: Ex|
                #![trigger call_ensures(self.closing(), (self.span(),), e)]
                call_ensures(self.closing(), (self.span(),), e) && recorded(
                    old(recorder)@,
                    final(recorder)@,
                    old(recorder).installed(),
                    &e,
                    shard_for(cpu as nat, old(recorder)@.rings.len()),
                ),
    {
        let event = (self.make_exit)(self.id);
        recorder.record(cpu, &event);
    }
}

/// An id that one recorder mints from a thread's source, and one that another, or the same, mints
/// from it later, have the thread's seed in their low 16 bits, and the later one has the larger
/// counter above it, which is never 0. So no id of a thread is repeated, and none is 0.
pub proof fn law_recorders_share_ids<C: Clock, D: Clock>(
    first: &Recorder<C>,
    second: &Recorder<D>,
    early: &mut SpanIds,
    late: &mut SpanIds,
    a: u64,
    b: u64,
)
    requires
        call_ensures(Recorder::<C>::new_span_id, (first, early), a),
        call_ensures(Recorder::<D>::new_span_id, (second, late), b),
        old(late).seed() == final(early).seed(),
        final(early).counter() <= old(late).counter(),
        old(early).counter() + 1 < 0x1_0000_0000_0000,
        old(late).counter() + 1 < 0x1_0000_0000_0000,
    ensures
        a & 0xffff == old(early).seed(),
        b & 0xffff == old(early).seed(),
        0 < a >> 16u64 < b >> 16u64,
{
    assert(a == span_id_of(final(early).counter() as nat, old(early).seed()));
    assert(b == span_id_of(final(late).counter() as nat, old(late).seed()));
    assert(a & 0xffff == a % 0x1_0000 && a >> 16u64 == a / 0x1_0000) by (bit_vector);
    assert(b & 0xffff == b % 0x1_0000 && b >> 16u64 == b / 0x1_0000) by (bit_vector);
}

/// What reading a recorder's dump gives.
pub open spec fn recorder_parts(
    r: RecorderView,
    schemas: Seq<SchemaView>,
    intern: Seq<(u32, Seq<u8>)>,
    views: Seq<&str>,
    host: Seq<char>,
) -> DumpParts {
    DumpParts {
        schemas,
        interns: seq![InternView { instance_id: r.instance_id, entries: intern }],
        metas: seq![MetaView { instance_id: r.instance_id, host }],
        views: views.map_values(|v: &str| v@),
        shards: Seq::new(
            r.rings.len(),
            |i: int|
                ShardView {
                    instance_id: r.instance_id,
                    shard_id: i as u32,
                    head: r.rings[i].head as u64,
                    capacity: r.rings[i].region.len() as u64,
                    region: r.rings[i].region,
                },
        ),
    }
}

/// A dump carries all that the recorder held: reading it gives back the schema registry, the intern
/// table and the view sets that were passed, the recorder's instance id with the host label, and
/// every ring with its head and its bytes.
pub proof fn law_dump_reads_back(
    r: RecorderView,
    schemas: Seq<SchemaView>,
    intern: Seq<(u32, Seq<u8>)>,
    views: Seq<&str>,
    host: Seq<char>,
)
    requires
        registry_fits(schemas),
        intern_fits(InternView { instance_id: r.instance_id, entries: intern }),
        str_fits(host),
        recorder_sections(r, schemas, intern, views, host).len() < 0x1_0000,
        dump_len(recorder_sections(r, schemas, intern, views, host)) <= usize::MAX,
    ensures
        p_dump(dump_bytes(recorder_sections(r, schemas, intern, views, host))) matches Ok(d)
            && dump_parts(d.sections) == Ok::<DumpParts, Error>(
            recorder_parts(r, schemas, intern, views, host),
        ),
{
    let all = recorder_sections(r, schemas, intern, views, host);
    let parts = recorder_parts(r, schemas, intern, views, host);
    let s0 = seq![SectionView { kind: 0, body: registry_bytes(schemas) }];
    let s1 = seq![
        SectionView {
            kind: 1,
            body: intern_bytes(InternView { instance_id: r.instance_id, entries: intern }),
        },
    ];
    let s4 = set_sections(views);
    let s2 = ring_sections(r);
    let s3 = seq![
        SectionView {
            kind: 3,
            body: meta_bytes(MetaView { instance_id: r.instance_id, host }),
        },
    ];
    law_dump_round_trip(all);
    assert(all =~= s0 + s1 + s4 + s2 + s3);
    lemma_five(s0, s1, s4, s2, s3, 0);
    lemma_five(s0, s1, s4, s2, s3, 1);
    lemma_five(s0, s1, s4, s2, s3, 2);
    lemma_five(s0, s1, s4, s2, s3, 3);
    lemma_five(s0, s1, s4, s2, s3, 4);
    law_registry_round_trip(schemas);
    law_intern_round_trip(parts.interns[0]);
    law_meta_round_trip(parts.metas[0]);
    lemma_all_ok(bodies_of(all, 1).map_values(|b: Seq<u8>| p_intern(b)), parts.interns);
    lemma_all_ok(bodies_of(all, 3).map_values(|b: Seq<u8>| p_meta(b)), parts.metas);
    let rv = bodies_of(all, 4).map_values(|b: Seq<u8>| p_view(b));
    assert forall|i: int| 0 <= i < rv.len() implies #[trigger] rv[i] == Ok::<Seq<char>, Error>(
        parts.views[i],
    ) by {
        law_view_round_trip(views[i]@);
    }
    lemma_all_ok(rv, parts.views);
    let rs = bodies_of(all, 2).map_values(|b: Seq<u8>| p_shard(b));
    assert forall|i: int| 0 <= i < rs.len() implies #[trigger] rs[i] == Ok::<ShardView, Error>(
        parts.shards[i],
    ) by {
        let k = 2 + views.len() + i;
        assert(all[k] == s2[i]);
        lemma_bodies_len_prefix(all, k + 1);
        assert(all.take(k + 1).drop_last() =~= all.take(k));
        law_shard_round_trip(
            r.instance_id,
            i as u32,
            r.rings[i].head as u64,
            r.rings[i].region,
        );
    }
    lemma_all_ok(rs, parts.shards);
}

/// The bodies of one kind of five runs of sections, each run of its own kind.
proof fn lemma_five(
    s0: Seq<SectionView>,
    s1: Seq<SectionView>,
    s4: Seq<SectionView>,
    s2: Seq<SectionView>,
    s3: Seq<SectionView>,
    kind: u16,
)
    requires
        forall|i: int| 0 <= i < s0.len() ==> (#[trigger] s0[i]).kind == 0,
        forall|i: int| 0 <= i < s1.len() ==> (#[trigger] s1[i]).kind == 1,
        forall|i: int| 0 <= i < s2.len() ==> (#[trigger] s2[i]).kind == 2,
        forall|i: int| 0 <= i < s3.len() ==> (#[trigger] s3[i]).kind == 3,
        forall|i: int| 0 <= i < s4.len() ==> (#[trigger] s4[i]).kind == 4,
        kind <= 4,
    ensures
        bodies_of(s0 + s1 + s4 + s2 + s3, kind) == (if kind == 0 {
            s0
        } else if kind == 1 {
            s1
        } else if kind == 2 {
            s2
        } else if kind == 3 {
            s3
        } else {
            s4
        }).map_values(|s: SectionView| s.body),
{
    lemma_bodies_concat(s0 + s1 + s4 + s2, s3, kind);
    lemma_bodies_concat(s0 + s1 + s4, s2, kind);
    lemma_bodies_concat(s0 + s1, s4, kind);
    lemma_bodies_concat(s0, s1, kind);
    lemma_bodies_uniform(s0, 0, kind);
    lemma_bodies_uniform(s1, 1, kind);
    lemma_bodies_uniform(s2, 2, kind);
    lemma_bodies_uniform(s3, 3, kind);
    lemma_bodies_uniform(s4, 4, kind);
    let f = |s: SectionView| s.body;
    let got = bodies_of(s0 + s1 + s4 + s2 + s3, kind);
    assert(got =~= (if kind == 0 {
        s0
    } else if kind == 1 {
        s1
    } else if kind == 2 {
        s2
    } else if kind == 3 {
        s3
    } else {
        s4
    }).map_values(f));
}

} // verus!
