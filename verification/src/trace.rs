//! Records as Trace Event Format events.
//!
//! Spans become async events (`b`/`e`, paired by `id`), not duration events: spans carry explicit
//! ids, can overlap, may be emitted across different shards, and may be orphaned by ring eviction.
//! Plain events become instants (`i`).
//!
//! Pairing is by `(instance_id, span_id)`, so merged multi-process dumps never collide. Orphans are
//! surfaced rather than dropped: an enter with no exit gets a synthetic close at the trace's last
//! timestamp; an exit with no enter becomes an instant.

use crate::buf::bytes_as_slice;
use crate::decode::{
    field_slice, find_label, get_signed, interned_text, label_of, read_uint, resolve, signed,
    slice_of,
};
use crate::id::{id_hex, push_id};
use crate::intern::InternTable;
use crate::le::{get_le, le_value, lemma_le_value_bound, lemma_pow256_values};
use crate::model::{loaded_view, Loaded, LoadedView};
use crate::schema::{first_with_role, FieldRole, FieldType, FieldView, Phase, SchemaView};
use crate::stream::{all_wf, is_merge, merged_view, streams, unique_records, ItemView, MergedRec};
use crate::text::{chars_of, hex, hex_bytes, hex_text};
use crate::wire::{OwnedField, OwnedSchema};
use std::collections::HashSet;
use vstd::prelude::*;
use vstd::slice::slice_subrange;

verus! {

/// A value of an event's arguments.
#[derive(Clone, Debug, PartialEq, Eq)]
pub enum Json {
    Null,
    U64(u64),
    I64(i64),
    Bool(bool),
    Str(String),
}

/// The value of an argument.
#[verifier::ext_equal]
pub enum JsonView {
    Null,
    U64(u64),
    I64(i64),
    Bool(bool),
    Str(Seq<char>),
}

impl View for Json {
    type V = JsonView;

    open spec fn view(&self) -> JsonView {
        match self {
            Json::Null => JsonView::Null,
            Json::U64(v) => JsonView::U64(*v),
            Json::I64(v) => JsonView::I64(*v),
            Json::Bool(v) => JsonView::Bool(*v),
            Json::Str(v) => JsonView::Str(v@),
        }
    }
}

/// The kind of a trace event.
#[derive(Clone, Copy, Debug, PartialEq, Eq, Structural)]
pub enum TraceKind {
    /// An async event that opens a span (`b`).
    Begin,
    /// An async event that closes a span (`e`).
    End,
    /// A thread-scoped instant (`i`).
    Instant,
}

impl TraceKind {
    /// The letter that stands for the kind in the format.
    pub open spec fn letter(self) -> Seq<char> {
        match self {
            TraceKind::Begin => "b"@,
            TraceKind::End => "e"@,
            TraceKind::Instant => "i"@,
        }
    }

    /// The letter that stands for the kind in the format.
    pub fn ph(self) -> (s: &'static str)
        ensures
            s@ == self.letter(),
    {
        match self {
            TraceKind::Begin => "b",
            TraceKind::End => "e",
            TraceKind::Instant => "i",
        }
    }
}

/// One trace event. Its process is the instance, its thread the shard.
pub struct TraceEvent {
    pub kind: TraceKind,
    pub name: String,
    pub cat: String,
    /// The pairing id of an async event.
    pub id: Option<String>,
    pub pid: u64,
    pub tid: u32,
    pub ts_nanos: u64,
    /// The decoded fields by name; where a name occurs twice the later value counts.
    pub args: Vec<(String, Json)>,
}

/// The value of a trace event.
#[verifier::ext_equal]
pub struct TraceEventView {
    pub kind: TraceKind,
    pub name: Seq<char>,
    pub cat: Seq<char>,
    pub id: Option<Seq<char>>,
    pub pid: u64,
    pub tid: u32,
    pub ts_nanos: u64,
    pub args: Seq<(Seq<char>, JsonView)>,
}

/// The value of arguments.
pub open spec fn args_view(args: Seq<(String, Json)>) -> Seq<(Seq<char>, JsonView)> {
    args.map_values(|a: (String, Json)| (a.0@, a.1@))
}

impl View for TraceEvent {
    type V = TraceEventView;

    open spec fn view(&self) -> TraceEventView {
        TraceEventView {
            kind: self.kind,
            name: self.name@,
            cat: self.cat@,
            id: match self.id {
                Some(s) => Some(s@),
                None => None,
            },
            pid: self.pid,
            tid: self.tid,
            ts_nanos: self.ts_nanos,
            args: args_view(self.args@),
        }
    }
}

/// The values of a run of trace events.
pub open spec fn events_view(v: Seq<TraceEvent>) -> Seq<TraceEventView> {
    v.map_values(|e: TraceEvent| e@)
}

// ---------------------------------------------------------------------------
// What the trace holds.
// ---------------------------------------------------------------------------

/// What the bytes of a field read as; null where they are too short for its type.
pub open spec fn slice_json(f: FieldView, slice: Seq<u8>, intern: Map<u32, Seq<char>>) -> JsonView {
    match f.ty {
        FieldType::U8 => json_uint(slice, 1),
        FieldType::U16 => json_uint(slice, 2),
        FieldType::U32 => json_uint(slice, 4),
        FieldType::U64 => json_uint(slice, 8),
        FieldType::I8 => json_int(slice, 1),
        FieldType::I16 => json_int(slice, 2),
        FieldType::I32 => json_int(slice, 4),
        FieldType::I64 => json_int(slice, 8),
        FieldType::Bool => if slice.len() >= 1 {
            JsonView::Bool(slice[0] != 0)
        } else {
            JsonView::Null
        },
        FieldType::Bytes => JsonView::Str(hex_bytes(slice)),
        FieldType::Enum { repr } => if repr <= 8 && repr <= slice.len() {
            let raw = le_value(slice.take(repr as int)) as u64;
            match label_of(f.labels, raw) {
                Some(t) => JsonView::Str(t),
                None => JsonView::U64(raw),
            }
        } else {
            JsonView::Null
        },
        FieldType::Interned { .. } => if slice.len() >= 4 {
            JsonView::Str(interned_text(intern, le_value(slice.take(4)) as u32))
        } else {
            JsonView::Null
        },
    }
}

/// The unsigned number that the first `n` bytes hold.
pub open spec fn json_uint(slice: Seq<u8>, n: nat) -> JsonView {
    if slice.len() >= n {
        JsonView::U64(le_value(slice.take(n as int)) as u64)
    } else {
        JsonView::Null
    }
}

/// The signed number that the first `n` bytes hold.
pub open spec fn json_int(slice: Seq<u8>, n: nat) -> JsonView {
    if slice.len() >= n {
        JsonView::I64(signed(slice.take(n as int)) as i64)
    } else {
        JsonView::Null
    }
}

/// What a field reads as; null where its bytes are not all there.
pub open spec fn json_of(f: FieldView, fields: Seq<u8>, intern: Map<u32, Seq<char>>) -> JsonView {
    match field_slice(f, fields) {
        Some(slice) => slice_json(f, slice, intern),
        None => JsonView::Null,
    }
}

/// The fields of a record by name.
pub open spec fn record_args(s: SchemaView, fields: Seq<u8>, intern: Map<u32, Seq<char>>) -> Seq<
    (Seq<char>, JsonView),
> {
    s.fields.map_values(|f: FieldView| (f.name, json_of(f, fields, intern)))
}

/// The little-endian number of eight bytes at an offset.
pub open spec fn u64_at(bytes: Seq<u8>, offset: nat) -> Option<u64> {
    if offset + 8 <= bytes.len() {
        Some(le_value(bytes.subrange(offset as int, offset as int + 8)) as u64)
    } else {
        None
    }
}

/// The span id that a record carries.
pub open spec fn span_of(s: SchemaView, fields: Seq<u8>) -> Option<u64> {
    let i = first_with_role(s.fields, FieldRole::SpanId);
    if i < s.fields.len() {
        u64_at(fields, s.fields[i as int].offset as nat)
    } else {
        None
    }
}

/// The name up to the first `::`.
pub open spec fn category(name: Seq<char>) -> Seq<char>
    decreases name.len(),
{
    if name.len() == 0 || (name.len() >= 2 && name[0] == ':' && name[1] == ':') {
        Seq::empty()
    } else {
        seq![name[0]] + category(name.skip(1))
    }
}

/// A merged record with what is needed to render it.
#[verifier::ext_equal]
pub struct FlatView {
    pub instance_id: u64,
    pub shard_id: u32,
    pub ts_nanos: u64,
    pub phase: Phase,
    pub span_id: Option<u64>,
    pub name: Seq<char>,
    pub args: Seq<(Seq<char>, JsonView)>,
}

/// A merged record as it is rendered.
pub open spec fn flat_of(dumps: Seq<LoadedView>, item: ItemView) -> FlatView {
    let l = dumps[item.dump as int];
    let s = l.schemas[item.schema_idx as int];
    FlatView {
        instance_id: item.key.instance_id,
        shard_id: item.key.shard_id,
        ts_nanos: item.key.ts_nanos,
        phase: s.phase,
        span_id: span_of(s, item.fields),
        name: s.name,
        args: record_args(s, item.fields, l.intern),
    }
}

/// The merged records as they are rendered.
pub open spec fn flats_of(dumps: Seq<LoadedView>, items: Seq<ItemView>) -> Seq<FlatView> {
    items.map_values(|i: ItemView| flat_of(dumps, i))
}

/// A record of the given phase carries the span of the instance.
pub open spec fn has_half(flats: Seq<FlatView>, phase: Phase, instance_id: u64, span: u64) -> bool {
    exists|i: int|
        0 <= i < flats.len() && (#[trigger] flats[i]).phase == phase && flats[i].instance_id
            == instance_id && flats[i].span_id == Some(span)
}

/// The last timestamp of records, or 0.
pub open spec fn last_ts(flats: Seq<FlatView>) -> u64
    decreases flats.len(),
{
    if flats.len() == 0 {
        0
    } else if flats.last().ts_nanos > last_ts(flats.drop_last()) {
        flats.last().ts_nanos
    } else {
        last_ts(flats.drop_last())
    }
}

/// An event of a record.
pub open spec fn event_of(
    f: FlatView,
    kind: TraceKind,
    id: Option<Seq<char>>,
    ts_nanos: u64,
    args: Seq<(Seq<char>, JsonView)>,
) -> TraceEventView {
    TraceEventView {
        kind,
        name: f.name,
        cat: category(f.name),
        id,
        pid: f.instance_id,
        tid: f.shard_id,
        ts_nanos,
        args,
    }
}

/// The events of one record among others.
pub open spec fn record_events(flats: Seq<FlatView>, f: FlatView) -> Seq<TraceEventView> {
    match (f.phase, f.span_id) {
        (Phase::Enter, Some(span)) => {
            let begin = event_of(f, TraceKind::Begin, Some(id_hex(span)), f.ts_nanos, f.args);
            if has_half(flats, Phase::Exit, f.instance_id, span) {
                seq![begin]
            } else {
                seq![
                    begin,
                    event_of(
                        f,
                        TraceKind::End,
                        Some(id_hex(span)),
                        last_ts(flats),
                        f.args.push(("backbeat_open"@, JsonView::Bool(true))),
                    ),
                ]
            }
        },
        (Phase::Exit, Some(span)) => if has_half(flats, Phase::Enter, f.instance_id, span) {
            seq![event_of(f, TraceKind::End, Some(id_hex(span)), f.ts_nanos, f.args)]
        } else {
            seq![
                event_of(
                    f,
                    TraceKind::Instant,
                    None,
                    f.ts_nanos,
                    f.args.push(("backbeat_orphan_exit"@, JsonView::Bool(true))),
                ),
            ]
        },
        _ => seq![event_of(f, TraceKind::Instant, None, f.ts_nanos, f.args)],
    }
}

/// The events of the first `n` records, in order.
pub open spec fn trace_events(flats: Seq<FlatView>, n: nat) -> Seq<TraceEventView>
    decreases n,
{
    if n == 0 {
        Seq::empty()
    } else {
        trace_events(flats, (n - 1) as nat) + record_events(flats, flats[n - 1])
    }
}

// ---------------------------------------------------------------------------
// Rendering.
// ---------------------------------------------------------------------------

/// Reads the unsigned number that the first `n` bytes hold.
fn read_json_uint(slice: &[u8], n: usize) -> (j: Json)
    requires
        n <= 8,
    ensures
        j@ == json_uint(slice@, n as nat),
{
    match read_uint(slice, n) {
        Some(v) => Json::U64(v),
        None => Json::Null,
    }
}

/// Reads the signed number that the first `n` bytes hold.
fn read_json_int(slice: &[u8], n: usize) -> (j: Json)
    requires
        n == 1 || n == 2 || n == 4 || n == 8,
    ensures
        j@ == json_int(slice@, n as nat),
{
    if slice.len() >= n {
        let part = slice_subrange(slice, 0, n);
        assert(part@ =~= slice@.take(n as int));
        Json::I64(get_signed(part))
    } else {
        Json::Null
    }
}

/// Decodes a field to a JSON value using only its schema descriptor.
pub fn decode_json(field: &OwnedField, bytes: &[u8], intern: &InternTable) -> (j: Json)
    ensures
        j@ == json_of(field@, bytes@, intern@),
{
    let slice = match slice_of(field, bytes) {
        Some(s) => s,
        None => return Json::Null,
    };
    match field.ty {
        FieldType::U8 => read_json_uint(slice, 1),
        FieldType::U16 => read_json_uint(slice, 2),
        FieldType::U32 => read_json_uint(slice, 4),
        FieldType::U64 => read_json_uint(slice, 8),
        FieldType::I8 => read_json_int(slice, 1),
        FieldType::I16 => read_json_int(slice, 2),
        FieldType::I32 => read_json_int(slice, 4),
        FieldType::I64 => read_json_int(slice, 8),
        FieldType::Bool => if slice.len() >= 1 {
            Json::Bool(slice[0] != 0)
        } else {
            Json::Null
        },
        FieldType::Bytes => Json::Str(hex(slice)),
        FieldType::Enum { repr } => match read_uint(slice, repr as usize) {
            Some(raw) => match find_label(&field.enum_labels, raw) {
                Some(t) => Json::Str(t.clone()),
                None => Json::U64(raw),
            },
            None => Json::Null,
        },
        FieldType::Interned { .. } => match read_uint(slice, 4) {
            Some(id) => {
                proof {
                    lemma_le_value_bound(slice@.take(4));
                    lemma_pow256_values();
                }
                Json::Str(resolve(intern, id as u32))
            },
            None => Json::Null,
        },
    }
}

/// Reads a little-endian `u64` at `offset`, or `None` if out of range.
pub fn read_u64(bytes: &[u8], offset: usize) -> (r: Option<u64>)
    ensures
        r == u64_at(bytes@, offset as nat),
{
    if bytes.len() >= 8 && offset <= bytes.len() - 8 {
        Some(get_le(slice_subrange(bytes, offset, offset + 8)))
    } else {
        None
    }
}

/// The name up to the first `::`.
pub fn category_of(name: &str) -> (cat: String)
    ensures
        cat@ == category(name@),
{
    let v = chars_of(name);
    let mut cat = String::new();
    let mut i: usize = 0;
    assert(v@.skip(0) =~= v@);
    while i < v.len() && !(v.len() - i >= 2 && v[i] == ':' && v[i + 1] == ':')
        invariant
            i <= v@.len(),
            v@ == name@,
            category(name@) == cat@ + category(v@.skip(i as int)),
        decreases v@.len() - i,
    {
        let ghost before = cat@;
        cat.push(v[i]);
        proof {
            let rest = v@.skip(i as int);
            assert(rest.skip(1) =~= v@.skip(i + 1));
            assert(before + (seq![rest[0]] + category(rest.skip(1))) =~= cat@ + category(
                v@.skip(i + 1),
            ));
        }
        i = i + 1;
    }
    assert(cat@ =~= category(name@));
    cat
}

/// A record flattened with what is needed to render it.
struct Flat {
    instance_id: u64,
    shard_id: u32,
    ts_nanos: u64,
    phase: Phase,
    span_id: Option<u64>,
    name: String,
    args: Vec<(String, Json)>,
}

impl View for Flat {
    type V = FlatView;

    closed spec fn view(&self) -> FlatView {
        FlatView {
            instance_id: self.instance_id,
            shard_id: self.shard_id,
            ts_nanos: self.ts_nanos,
            phase: self.phase,
            span_id: self.span_id,
            name: self.name@,
            args: args_view(self.args@),
        }
    }
}

/// The values of flattened records.
spec fn flats_view(v: Seq<Flat>) -> Seq<FlatView> {
    v.map_values(|f: Flat| f@)
}

/// Decodes all fields of a record.
fn decode_args(schema: &OwnedSchema, fields: &[u8], intern: &InternTable) -> (args: Vec<
    (String, Json),
>)
    ensures
        args_view(args@) == record_args(schema@, fields@, intern@),
{
    let mut args: Vec<(String, Json)> = Vec::new();
    let ghost want = record_args(schema@, fields@, intern@);
    let mut i: usize = 0;
    while i < schema.fields.len()
        invariant
            i <= schema.fields@.len(),
            want == record_args(schema@, fields@, intern@),
            args@.len() == i,
            forall|k: int|
                0 <= k < i ==> (#[trigger] args@[k]).0@ == want[k].0 && args@[k].1@ == want[k].1,
        decreases schema.fields@.len() - i,
    {
        let f = &schema.fields[i];
        assert(schema@.fields[i as int] == f@);
        args.push((f.name.clone(), decode_json(f, fields, intern)));
        i = i + 1;
    }
    assert(args_view(args@) =~= want);
    args
}

/// Flattens a merged record.
fn flatten(rec: &MergedRec, Ghost(dumps): Ghost<Seq<LoadedView>>) -> (f: Flat)
    requires
        rec.schema_idx < rec.loaded.schemas@.len(),
        dumps[rec.dump as int] == rec.loaded@,
    ensures
        f@ == flat_of(dumps, rec@),
{
    let schema = &rec.loaded.schemas[rec.schema_idx];
    let fields = bytes_as_slice(&rec.fields);
    assert(rec.loaded@.schemas[rec.schema_idx as int] == schema@);
    let span_id = match schema.span_id() {
        Some(f) => {
            proof {
                let i = first_with_role(schema@.fields, FieldRole::SpanId);
                assert(schema@.fields[i as int] == schema.fields@[i as int]@);
            }
            read_u64(fields, f.offset as usize)
        },
        None => None,
    };
    Flat {
        instance_id: rec.loaded.instance_id,
        shard_id: rec.shard_id,
        ts_nanos: rec.ts_nanos,
        phase: schema.phase,
        span_id,
        name: schema.qualified_name.clone(),
        args: decode_args(schema, fields, &rec.loaded.intern),
    }
}

/// The spans of which a half was seen, instance by instance.
struct SpanSet {
    groups: Vec<(u64, HashSet<u64>)>,
}

/// Some group of the instance has the span.
spec fn group_has(groups: Seq<(u64, HashSet<u64>)>, instance_id: u64, span: u64) -> bool {
    exists|g: int|
        0 <= g < groups.len() && (#[trigger] groups[g]).0 == instance_id && groups[g].1@.contains(
            span,
        )
}

impl SpanSet {
    spec fn has(&self, instance_id: u64, span: u64) -> bool {
        group_has(self.groups@, instance_id, span)
    }

    fn insert(&mut self, instance_id: u64, span: u64)
        ensures
            forall|i: u64, s: u64| #[trigger]
                final(self).has(i, s) == (old(self).has(i, s) || (i == instance_id && s == span)),
    {
        broadcast use vstd::std_specs::hash::group_hash_axioms;

        let ghost before = self.groups@;
        let mut g: usize = 0;
        while g < self.groups.len() && self.groups[g].0 != instance_id
            invariant
                g <= self.groups@.len(),
                self.groups@ == before,
            decreases self.groups@.len() - g,
        {
            g = g + 1;
        }
        if g == self.groups.len() {
            self.groups.push((instance_id, HashSet::new()));
        }
        let ghost mid = self.groups@;
        proof {
            assert forall|i: u64, s: u64| #[trigger] group_has(mid, i, s) == group_has(
                before,
                i,
                s,
            ) by {
                if group_has(before, i, s) {
                    let k = choose|k: int|
                        0 <= k < before.len() && (#[trigger] before[k]).0 == i
                            && before[k].1@.contains(s);
                    assert(mid[k] == before[k]);
                }
                if group_has(mid, i, s) {
                    let k = choose|k: int|
                        0 <= k < mid.len() && (#[trigger] mid[k]).0 == i && mid[k].1@.contains(s);
                    if k < before.len() {
                        assert(mid[k] == before[k]);
                    }
                }
            }
        }
        self.groups[g].1.insert(span);
        proof {
            let after = self.groups@;
            assert forall|i: u64, s: u64| #[trigger]
                self.has(i, s) == (group_has(before, i, s) || (i == instance_id && s == span)) by {
                assert(group_has(mid, i, s) == group_has(before, i, s));
                if group_has(mid, i, s) {
                    let k = choose|k: int|
                        0 <= k < mid.len() && (#[trigger] mid[k]).0 == i && mid[k].1@.contains(s);
                    assert(after[k].0 == i && after[k].1@.contains(s));
                }
                if i == instance_id && s == span {
                    assert(after[g as int].0 == i && after[g as int].1@.contains(s));
                }
                if self.has(i, s) {
                    let k = choose|k: int|
                        0 <= k < after.len() && (#[trigger] after[k]).0 == i
                            && after[k].1@.contains(s);
                    if k != g {
                        assert(after[k] == mid[k]);
                    } else if s != span {
                        assert(mid[k].0 == i && mid[k].1@.contains(s));
                    }
                }
            }
        }
    }

    fn contains(&self, instance_id: u64, span: u64) -> (r: bool)
        ensures
            r == self.has(instance_id, span),
    {
        broadcast use vstd::std_specs::hash::group_hash_axioms;

        let mut g: usize = 0;
        while g < self.groups.len()
            invariant
                g <= self.groups@.len(),
                forall|k: int|
                    0 <= k < g ==> !((#[trigger] self.groups@[k]).0 == instance_id
                        && self.groups@[k].1@.contains(span)),
            decreases self.groups@.len() - g,
        {
            if self.groups[g].0 == instance_id && self.groups[g].1.contains(&span) {
                assert(self.groups@[g as int].0 == instance_id);
                return true;
            }
            g = g + 1;
        }
        false
    }
}

/// A copy of arguments.
fn copy_args(args: &Vec<(String, Json)>) -> (r: Vec<(String, Json)>)
    ensures
        args_view(r@) == args_view(args@),
{
    let mut r: Vec<(String, Json)> = Vec::new();
    let mut i: usize = 0;
    while i < args.len()
        invariant
            i <= args@.len(),
            r@.len() == i,
            forall|k: int|
                0 <= k < i ==> (#[trigger] r@[k]).0@ == args@[k].0@ && r@[k].1@ == args@[k].1@,
        decreases args@.len() - i,
    {
        let value = match &args[i].1 {
            Json::Null => Json::Null,
            Json::U64(v) => Json::U64(*v),
            Json::I64(v) => Json::I64(*v),
            Json::Bool(v) => Json::Bool(*v),
            Json::Str(v) => Json::Str(v.clone()),
        };
        r.push((args[i].0.clone(), value));
        i = i + 1;
    }
    assert(args_view(r@) =~= args_view(args@));
    r
}

/// A copy of a record's arguments with one more that is true.
fn marked_args(args: &Vec<(String, Json)>, mark: &str) -> (r: Vec<(String, Json)>)
    ensures
        args_view(r@) == args_view(args@).push((mark@, JsonView::Bool(true))),
{
    let mut r = copy_args(args);
    r.push((mark.to_string(), Json::Bool(true)));
    assert(args_view(r@) =~= args_view(args@).push((mark@, JsonView::Bool(true))));
    r
}

/// An async event of a record.
fn async_event(f: &Flat, kind: TraceKind, span: u64, ts_nanos: u64, args: Vec<(String, Json)>) -> (e:
    TraceEvent)
    ensures
        e@ == event_of(f@, kind, Some(id_hex(span)), ts_nanos, args_view(args@)),
{
    let mut id = String::new();
    push_id(&mut id, span);
    assert(id@ =~= id_hex(span));
    TraceEvent {
        kind,
        name: f.name.clone(),
        cat: category_of(f.name.as_str()),
        id: Some(id),
        pid: f.instance_id,
        tid: f.shard_id,
        ts_nanos,
        args,
    }
}

/// An instant event of a record.
fn instant_event(f: &Flat, args: Vec<(String, Json)>) -> (e: TraceEvent)
    ensures
        e@ == event_of(f@, TraceKind::Instant, None, f@.ts_nanos, args_view(args@)),
{
    TraceEvent {
        kind: TraceKind::Instant,
        name: f.name.clone(),
        cat: category_of(f.name.as_str()),
        id: None,
        pid: f.instance_id,
        tid: f.shard_id,
        ts_nanos: f.ts_nanos,
        args,
    }
}

/// The set holds the spans of which the first `n` records hold a half of the phase.
spec fn holds_halves(set: SpanSet, flats: Seq<FlatView>, n: int, phase: Phase) -> bool {
    forall|i: u64, s: u64| #[trigger] set.has(i, s) == has_half(flats.take(n), phase, i, s)
}

/// One more record is one more half at most.
proof fn lemma_half_step(flats: Seq<FlatView>, n: int, phase: Phase, i: u64, s: u64)
    requires
        0 <= n < flats.len(),
    ensures
        has_half(flats.take(n + 1), phase, i, s) == (has_half(flats.take(n), phase, i, s) || (
        flats[n].phase == phase && flats[n].instance_id == i && flats[n].span_id == Some(s))),
{
    let a = flats.take(n);
    let b = flats.take(n + 1);
    if has_half(a, phase, i, s) {
        let k = choose|k: int|
            0 <= k < a.len() && (#[trigger] a[k]).phase == phase && a[k].instance_id == i
                && a[k].span_id == Some(s);
        assert(b[k] == a[k]);
    }
    if has_half(b, phase, i, s) {
        let k = choose|k: int|
            0 <= k < b.len() && (#[trigger] b[k]).phase == phase && b[k].instance_id == i
                && b[k].span_id == Some(s);
        if k < n {
            assert(a[k] == b[k]);
        }
    }
    assert(b[n] == flats[n]);
}

/// The spans that have an enter and those that have an exit, and the last timestamp.
fn scan(flats: &Vec<Flat>) -> (r: (SpanSet, SpanSet, u64))
    ensures
        holds_halves(r.0, flats_view(flats@), flats@.len() as int, Phase::Enter),
        holds_halves(r.1, flats_view(flats@), flats@.len() as int, Phase::Exit),
        r.2 == last_ts(flats_view(flats@)),
{
    let ghost view = flats_view(flats@);
    let mut enters = SpanSet { groups: Vec::new() };
    let mut exits = SpanSet { groups: Vec::new() };
    let mut max_ts: u64 = 0;
    let mut n: usize = 0;
    while n < flats.len()
        invariant
            n <= flats@.len(),
            view == flats_view(flats@),
            holds_halves(enters, view, n as int, Phase::Enter),
            holds_halves(exits, view, n as int, Phase::Exit),
            max_ts == last_ts(view.take(n as int)),
        decreases flats@.len() - n,
    {
        let f = &flats[n];
        proof {
            assert(view[n as int] == f@);
            assert(view.take(n + 1).drop_last() =~= view.take(n as int));
            assert(view.take(n + 1).last() == f@);
            assert forall|i: u64, s: u64| true implies #[trigger] has_half(
                view.take(n + 1),
                Phase::Enter,
                i,
                s,
            ) == (has_half(view.take(n as int), Phase::Enter, i, s) || (f@.phase == Phase::Enter
                && f@.instance_id == i && f@.span_id == Some(s))) by {
                lemma_half_step(view, n as int, Phase::Enter, i, s);
            }
            assert forall|i: u64, s: u64| true implies #[trigger] has_half(
                view.take(n + 1),
                Phase::Exit,
                i,
                s,
            ) == (has_half(view.take(n as int), Phase::Exit, i, s) || (f@.phase == Phase::Exit
                && f@.instance_id == i && f@.span_id == Some(s))) by {
                lemma_half_step(view, n as int, Phase::Exit, i, s);
            }
        }
        if f.ts_nanos > max_ts {
            max_ts = f.ts_nanos;
        }
        if let Some(span) = f.span_id {
            match f.phase {
                Phase::Enter => enters.insert(f.instance_id, span),
                Phase::Exit => exits.insert(f.instance_id, span),
                Phase::Instant => {},
            }
        }
        n = n + 1;
    }
    assert(view.take(n as int) =~= view);
    (enters, exits, max_ts)
}

/// Appends the events of one record.
fn put_events(
    out: &mut Vec<TraceEvent>,
    f: &Flat,
    enters: &SpanSet,
    exits: &SpanSet,
    max_ts: u64,
    Ghost(flats): Ghost<Seq<FlatView>>,
)
    requires
        forall|i: u64, s: u64| #[trigger] enters.has(i, s) == has_half(flats, Phase::Enter, i, s),
        forall|i: u64, s: u64| #[trigger] exits.has(i, s) == has_half(flats, Phase::Exit, i, s),
        max_ts == last_ts(flats),
    ensures
        events_view(final(out)@) == events_view(old(out)@) + record_events(flats, f@),
{
    let ghost before = events_view(out@);
    match (f.phase, f.span_id) {
        (Phase::Enter, Some(span)) => {
            let args = copy_args(&f.args);
            out.push(async_event(f, TraceKind::Begin, span, f.ts_nanos, args));
            if !exits.contains(f.instance_id, span) {
                let args = marked_args(&f.args, "backbeat_open");
                out.push(async_event(f, TraceKind::End, span, max_ts, args));
            }
        },
        (Phase::Exit, Some(span)) => {
            if enters.contains(f.instance_id, span) {
                let args = copy_args(&f.args);
                out.push(async_event(f, TraceKind::End, span, f.ts_nanos, args));
            } else {
                let args = marked_args(&f.args, "backbeat_orphan_exit");
                out.push(instant_event(f, args));
            }
        },
        _ => {
            let args = copy_args(&f.args);
            out.push(instant_event(f, args));
        },
    }
    assert(events_view(out@) =~= before + record_events(flats, f@));
}

/// The trace events of loaded dumps: the records of all of them in the global order, each once.
pub fn build_events(dumps: &[Loaded]) -> (out: Vec<TraceEvent>)
    requires
        all_wf(dumps@),
    ensures
        exists|items: Seq<ItemView>| #[trigger]
            is_merge(streams(loaded_view(dumps@)), items) && events_view(out@) == trace_events(
                flats_of(loaded_view(dumps@), items),
                items.len(),
            ),
{
    let ghost dv = loaded_view(dumps@);
    let recs = unique_records(dumps);
    let ghost items = merged_view(recs@);
    let mut flats: Vec<Flat> = Vec::new();
    let mut i: usize = 0;
    while i < recs.len()
        invariant
            i <= recs@.len(),
            flats@.len() == i,
            dv == loaded_view(dumps@),
            items == merged_view(recs@),
            forall|i: int|
                0 <= i < recs@.len() ==> (#[trigger] recs@[i]).dump < dumps@.len()
                    && *recs@[i].loaded == dumps@[recs@[i].dump as int] && recs@[i].schema_idx
                    < recs@[i].loaded.schemas@.len(),
            forall|k: int| 0 <= k < i ==> (#[trigger] flats@[k])@ == flat_of(dv, items[k]),
        decreases recs@.len() - i,
    {
        let rec = &recs[i];
        assert(dv[rec.dump as int] == dumps@[rec.dump as int]@);
        flats.push(flatten(rec, Ghost(dv)));
        i = i + 1;
    }
    let ghost view = flats_of(dv, items);
    assert(flats_view(flats@) =~= view);
    let (enters, exits, max_ts) = scan(&flats);
    assert(view.take(flats@.len() as int) =~= view);
    let mut out: Vec<TraceEvent> = Vec::new();
    assert(events_view(out@) =~= trace_events(view, 0));
    let mut k: usize = 0;
    while k < flats.len()
        invariant
            k <= flats@.len(),
            view == flats_view(flats@),
            holds_halves(enters, view, flats@.len() as int, Phase::Enter),
            holds_halves(exits, view, flats@.len() as int, Phase::Exit),
            view.take(flats@.len() as int) == view,
            max_ts == last_ts(view),
            events_view(out@) == trace_events(view, k as nat),
        decreases flats@.len() - k,
    {
        assert(view[k as int] == flats@[k as int]@);
        put_events(&mut out, &flats[k], &enters, &exits, max_ts, Ghost(view));
        k = k + 1;
    }
    assert(is_merge(streams(dv), items));
    out
}

// ---------------------------------------------------------------------------
// Spans pair up.
// ---------------------------------------------------------------------------

/// The events of each record are events of the trace.
proof fn lemma_trace_has(flats: Seq<FlatView>, n: nat, i: int, k: int)
    requires
        0 <= i < n <= flats.len(),
        0 <= k < record_events(flats, flats[i]).len(),
    ensures
        trace_events(flats, n).contains(record_events(flats, flats[i])[k]),
    decreases n,
{
    let before = trace_events(flats, (n - 1) as nat);
    let last = record_events(flats, flats[n - 1]);
    let all = trace_events(flats, n);
    let e = record_events(flats, flats[i])[k];
    if i == n - 1 {
        assert(all[before.len() + k] == e);
    } else {
        lemma_trace_has(flats, (n - 1) as nat, i, k);
        let j = choose|j: int| 0 <= j < before.len() && before[j] == e;
        assert(all[j] == e);
    }
}

/// An event of the trace is one of a record.
proof fn lemma_trace_origin(flats: Seq<FlatView>, n: nat, e: TraceEventView) -> (r: (int, int))
    requires
        n <= flats.len(),
        trace_events(flats, n).contains(e),
    ensures
        0 <= r.0 < n,
        0 <= r.1 < record_events(flats, flats[r.0]).len(),
        record_events(flats, flats[r.0])[r.1] == e,
    decreases n,
{
    let before = trace_events(flats, (n - 1) as nat);
    let last = record_events(flats, flats[n - 1]);
    let all = trace_events(flats, n);
    let j = choose|j: int| 0 <= j < all.len() && all[j] == e;
    if j < before.len() {
        assert(before[j] == e);
        lemma_trace_origin(flats, (n - 1) as nat, e)
    } else {
        assert(last[j - before.len()] == e);
        (n - 1, j - before.len())
    }
}

/// Two events are the two ends of one span: they have the same process and the same id.
pub open spec fn pairs_with(a: TraceEventView, b: TraceEventView) -> bool {
    a.pid == b.pid && a.id == b.id && a.id is Some
}

/// Spans pair up: every event that opens a span has one that closes it, and every event that closes
/// a span has one that opens it.
pub proof fn law_spans_pair(flats: Seq<FlatView>, e: TraceEventView)
    requires
        trace_events(flats, flats.len()).contains(e),
    ensures
        e.kind == TraceKind::Begin ==> exists|c: TraceEventView| #[trigger]
            trace_events(flats, flats.len()).contains(c) && c.kind == TraceKind::End && pairs_with(
                e,
                c,
            ),
        e.kind == TraceKind::End ==> exists|b: TraceEventView| #[trigger]
            trace_events(flats, flats.len()).contains(b) && b.kind == TraceKind::Begin
                && pairs_with(e, b),
{
    let n = flats.len();
    let (i, k) = lemma_trace_origin(flats, n, e);
    let f = flats[i];
    if e.kind == TraceKind::Begin {
        let span = f.span_id->0;
        if has_half(flats, Phase::Exit, f.instance_id, span) {
            let j = choose|j: int|
                0 <= j < flats.len() && (#[trigger] flats[j]).phase == Phase::Exit
                    && flats[j].instance_id == f.instance_id && flats[j].span_id == Some(span);
            assert(has_half(flats, Phase::Enter, f.instance_id, span));
            lemma_trace_has(flats, n, j, 0);
            let c = record_events(flats, flats[j])[0];
            assert(c.kind == TraceKind::End && pairs_with(e, c));
        } else {
            lemma_trace_has(flats, n, i, 1);
            let c = record_events(flats, f)[1];
            assert(c.kind == TraceKind::End && pairs_with(e, c));
        }
    }
    if e.kind == TraceKind::End {
        let span = f.span_id->0;
        if f.phase == Phase::Exit {
            let j = choose|j: int|
                0 <= j < flats.len() && (#[trigger] flats[j]).phase == Phase::Enter
                    && flats[j].instance_id == f.instance_id && flats[j].span_id == Some(span);
            lemma_trace_has(flats, n, j, 0);
            let b = record_events(flats, flats[j])[0];
            assert(b.kind == TraceKind::Begin && pairs_with(e, b));
        } else {
            lemma_trace_has(flats, n, i, 0);
            let b = record_events(flats, f)[0];
            assert(b.kind == TraceKind::Begin && pairs_with(e, b));
        }
    }
}

/// No record is dropped: each has an event at its own time, in its process and its thread.
pub proof fn law_records_surface(flats: Seq<FlatView>, i: int)
    requires
        0 <= i < flats.len(),
    ensures
        exists|e: TraceEventView| #[trigger]
            trace_events(flats, flats.len()).contains(e) && e.ts_nanos == flats[i].ts_nanos && e.pid
                == flats[i].instance_id && e.tid == flats[i].shard_id && e.name == flats[i].name,
{
    lemma_trace_has(flats, flats.len(), i, 0);
}

/// A span becomes a slice from its enter to its exit: where both halves were recorded, the trace has
/// an event that opens it at the time of the one and an event that closes it at the time of the
/// other, with one id.
pub proof fn law_span_is_a_slice(flats: Seq<FlatView>, i: int, j: int, span: u64)
    requires
        0 <= i < flats.len(),
        0 <= j < flats.len(),
        flats[i].phase == Phase::Enter,
        flats[j].phase == Phase::Exit,
        flats[i].instance_id == flats[j].instance_id,
        flats[i].span_id == Some(span),
        flats[j].span_id == Some(span),
    ensures
        exists|b: TraceEventView, e: TraceEventView|
            #![trigger pairs_with(b, e)]
            trace_events(flats, flats.len()).contains(b) && trace_events(
                flats,
                flats.len(),
            ).contains(e) && b.kind == TraceKind::Begin && e.kind == TraceKind::End && b.ts_nanos
                == flats[i].ts_nanos && e.ts_nanos == flats[j].ts_nanos && pairs_with(b, e),
{
    let n = flats.len();
    assert(has_half(flats, Phase::Exit, flats[i].instance_id, span));
    assert(has_half(flats, Phase::Enter, flats[j].instance_id, span));
    lemma_trace_has(flats, n, i, 0);
    lemma_trace_has(flats, n, j, 0);
    let b = record_events(flats, flats[i])[0];
    let e = record_events(flats, flats[j])[0];
    assert(pairs_with(b, e));
}

/// Sixteen to a power.
spec fn sixteen(width: nat) -> nat
    decreases width,
{
    if width == 0 {
        1
    } else {
        16 * sixteen((width - 1) as nat)
    }
}

/// The digits of a number in base 16 tell the number, if it fits.
proof fn lemma_hex_back(a: nat, b: nat, width: nat)
    requires
        hex_text(a, width) == hex_text(b, width),
        a < sixteen(width),
        b < sixteen(width),
    ensures
        a == b,
    decreases width,
{
    if width > 0 {
        let w = (width - 1) as nat;
        let x = hex_text(a, width);
        let y = hex_text(b, width);
        assert(x.drop_last() =~= hex_text(a / 16, w));
        assert(y.drop_last() =~= hex_text(b / 16, w));
        assert(x.last() == crate::text::digit(a % 16));
        assert(y.last() == crate::text::digit(b % 16));
        lemma_hex_back(a / 16, b / 16, w);
        assert(a % 16 == b % 16);
    }
}

/// The ids of two spans are the same only where the spans are: spans of one process are never
/// confused.
pub proof fn law_pairing_ids_distinct(a: u64, b: u64)
    requires
        id_hex(a) == id_hex(b),
    ensures
        a == b,
{
    reveal_strlit("0x");
    reveal_with_fuel(sixteen, 17);
    assert(hex_text(a as nat, 16) =~= id_hex(a).skip(2));
    assert(hex_text(b as nat, 16) =~= id_hex(b).skip(2));
    lemma_hex_back(a as nat, b as nat, 16);
}

} // verus!
