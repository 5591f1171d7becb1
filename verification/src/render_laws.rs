//! What a trace shows of each record.

use crate::decode_laws::stores;
use crate::id::id_hex;
use crate::le::{le_bytes, lemma_le_bytes_len, lemma_le_round_trip, lemma_pow256_values};
use crate::model::{loaded_view, Loaded, LoadedView};
use crate::schema::{lemma_first_with_role, FieldRole, Phase, SchemaView};
use crate::stream::{all_wf, is_merge, law_merge_unique, streams, ItemView};
use crate::table_laws::{dump_of, lemma_item_known, type_of};
use crate::trace::{
    build_events, category, category_of, events_view, flat_of, flats_of, has_half, json_of, last_ts,
    record_args, record_events, span_of, trace_events, JsonView, TraceEvent, TraceEventView,
    TraceKind,
};
use vstd::prelude::*;

verus! {

/// The category of a name: what stands before its first `::`, or all of it.
pub open spec fn is_category(cat: Seq<char>, name: Seq<char>) -> bool {
    &&& cat.len() <= name.len()
    &&& name.take(cat.len() as int) == cat
    &&& cat.len() == name.len() || (cat.len() + 2 <= name.len() && name[cat.len() as int] == ':'
        && name[cat.len() as int + 1] == ':')
    &&& forall|k: int|
        0 <= k < cat.len() && k + 1 < name.len() ==> !(#[trigger] name[k] == ':' && name[k + 1]
            == ':')
}

/// Categories.
proof fn lemma_category(name: Seq<char>)
    ensures
        is_category(category(name), name),
    decreases name.len(),
{
    let cat = category(name);
    if name.len() == 0 || (name.len() >= 2 && name[0] == ':' && name[1] == ':') {
        assert(name.take(0) =~= cat);
    } else {
        let tail = name.skip(1);
        let sub = category(tail);
        lemma_category(tail);
        assert(name.take(cat.len() as int) =~= seq![name[0]] + tail.take(sub.len() as int));
        if sub.len() < tail.len() {
            assert(tail[sub.len() as int] == name[cat.len() as int]);
            assert(tail[sub.len() as int + 1] == name[cat.len() as int + 1]);
        }
        assert forall|k: int| 0 <= k < cat.len() && k + 1 < name.len() implies !(
        #[trigger] name[k] == ':' && name[k + 1] == ':') by {
            if k > 0 {
                assert(tail[k - 1] == name[k] && tail[k - 1 + 1] == name[k + 1]);
            }
        }
    }
}

/// A name's category is what stands before its first `::`.
pub proof fn law_category_is_prefix(name: &str, cat: String)
    requires
        call_ensures(category_of, (name,), cat),
    ensures
        is_category(cat@, name@),
{
    lemma_category(name@);
}

/// The span id of a record is the number that its first span id field stores.
pub proof fn law_span_id_is_read(s: SchemaView, fields: Seq<u8>, k: int, v: u64)
    requires
        0 <= k < s.fields.len(),
        s.fields[k].role == FieldRole::SpanId,
        forall|j: int| 0 <= j < k ==> (#[trigger] s.fields[j]).role != FieldRole::SpanId,
        s.fields[k].width == 8,
        stores(s.fields[k], fields, le_bytes(v as nat, 8)),
    ensures
        span_of(s, fields) == Some(v),
{
    lemma_first_with_role(s.fields, FieldRole::SpanId, k);
    lemma_le_bytes_len(v as nat, 8);
    lemma_pow256_values();
    lemma_le_round_trip(v as nat, 8);
    let f = s.fields[k];
    assert(fields.subrange(f.offset as int, f.offset as int + 8) =~= le_bytes(v as nat, 8));
}

/// A record without a span id field has no span id.
pub proof fn law_no_span_id(s: SchemaView, fields: Seq<u8>)
    requires
        forall|j: int| 0 <= j < s.fields.len() ==> (#[trigger] s.fields[j]).role
            != FieldRole::SpanId,
    ensures
        span_of(s, fields) is None,
{
    lemma_first_with_role(s.fields, FieldRole::SpanId, s.fields.len() as int);
}

/// The span id of a merged record.
pub open spec fn span_in(dumps: Seq<Loaded>, item: ItemView) -> Option<u64> {
    span_of(type_of(dumps, item), item.fields)
}

/// The other half of a record's span was recorded too: a record of the given phase of the same
/// process with the same span id.
pub open spec fn counterpart(
    dumps: Seq<Loaded>,
    items: Seq<ItemView>,
    item: ItemView,
    phase: Phase,
) -> bool {
    exists|m: int|
        0 <= m < items.len() && type_of(dumps, #[trigger] items[m]).phase == phase
            && items[m].key.instance_id == item.key.instance_id && span_in(dumps, items[m])
            == span_in(dumps, item)
}

/// An event has the name, the category, the process and the thread of a record, and all its fields by
/// name among its arguments.
pub open spec fn shows_record(dumps: Seq<Loaded>, item: ItemView, e: TraceEventView) -> bool {
    let s = type_of(dumps, item);
    &&& e.name == s.name
    &&& is_category(e.cat, s.name)
    &&& e.pid == item.key.instance_id
    &&& e.tid == item.key.shard_id
    &&& e.args.len() >= s.fields.len()
    &&& forall|k: int|
        #![trigger s.fields[k]]
        0 <= k < s.fields.len() ==> e.args[k] == (
            s.fields[k].name,
            json_of(s.fields[k], item.fields, dump_of(dumps, item).intern),
        )
}

/// Behind the fields an event has no argument.
pub open spec fn unmarked(dumps: Seq<Loaded>, item: ItemView, e: TraceEventView) -> bool {
    e.args.len() == type_of(dumps, item).fields.len()
}

/// Behind the fields an event has one argument, which says that something is so.
pub open spec fn marked(
    dumps: Seq<Loaded>,
    item: ItemView,
    e: TraceEventView,
    mark: Seq<char>,
) -> bool {
    &&& e.args.len() == type_of(dumps, item).fields.len() + 1
    &&& e.args.last() == (mark, JsonView::Bool(true))
}

/// The event that stands for a record at the record's own time: the opening or the closing of its
/// span, or an instant.
pub open spec fn stands_for(
    dumps: Seq<Loaded>,
    items: Seq<ItemView>,
    item: ItemView,
    e: TraceEventView,
) -> bool {
    &&& shows_record(dumps, item, e)
    &&& e.ts_nanos == item.key.ts_nanos
    &&& match (type_of(dumps, item).phase, span_in(dumps, item)) {
        (Phase::Enter, Some(span)) => e.kind == TraceKind::Begin && e.id == Some(id_hex(span))
            && unmarked(dumps, item, e),
        (Phase::Exit, Some(span)) => if counterpart(dumps, items, item, Phase::Enter) {
            e.kind == TraceKind::End && e.id == Some(id_hex(span)) && unmarked(dumps, item, e)
        } else {
            e.kind == TraceKind::Instant && e.id is None && marked(
                dumps,
                item,
                e,
                "backbeat_orphan_exit"@,
            )
        },
        _ => e.kind == TraceKind::Instant && e.id is None && unmarked(dumps, item, e),
    }
}

/// A record opened a span that was never closed.
pub open spec fn left_open(dumps: Seq<Loaded>, items: Seq<ItemView>, item: ItemView) -> bool {
    &&& type_of(dumps, item).phase == Phase::Enter
    &&& span_in(dumps, item) is Some
    &&& !counterpart(dumps, items, item, Phase::Exit)
}

/// The time is the last of all records.
pub open spec fn is_last_time(items: Seq<ItemView>, ts: u64) -> bool {
    &&& forall|m: int| 0 <= m < items.len() ==> (#[trigger] items[m]).key.ts_nanos <= ts
    &&& exists|m: int| 0 <= m < items.len() && (#[trigger] items[m]).key.ts_nanos == ts
}

/// The event that closes the span that a record left open, at the time of the last record.
pub open spec fn closes_open(
    dumps: Seq<Loaded>,
    items: Seq<ItemView>,
    item: ItemView,
    e: TraceEventView,
) -> bool {
    &&& shows_record(dumps, item, e)
    &&& is_last_time(items, e.ts_nanos)
    &&& e.kind == TraceKind::End
    &&& span_in(dumps, item) is Some
    &&& e.id == Some(id_hex(span_in(dumps, item)->0))
    &&& marked(dumps, item, e, "backbeat_open"@)
}

/// The last time of records.
proof fn lemma_last_time(dumps: Seq<LoadedView>, items: Seq<ItemView>)
    requires
        items.len() > 0,
    ensures
        is_last_time(items, last_ts(flats_of(dumps, items))),
    decreases items.len(),
{
    let flats = flats_of(dumps, items);
    let init = items.drop_last();
    let n = items.len() - 1;
    assert(flats.drop_last() =~= flats_of(dumps, init));
    assert(flats.last().ts_nanos == items[n].key.ts_nanos);
    let ts = last_ts(flats);
    if init.len() > 0 {
        lemma_last_time(dumps, init);
        let before = last_ts(flats_of(dumps, init));
        if ts == before {
            let m = choose|m: int| 0 <= m < init.len() && (#[trigger] init[m]).key.ts_nanos
                == before;
            assert(items[m].key.ts_nanos == ts);
        } else {
            assert(items[n].key.ts_nanos == ts);
        }
        assert forall|m: int| 0 <= m < items.len() implies (#[trigger] items[m]).key.ts_nanos
            <= ts by {
            if m < n {
                assert(init[m] == items[m]);
            }
        }
    } else {
        assert(last_ts(flats.drop_last()) == 0);
        assert(items[n].key.ts_nanos == ts);
    }
}

/// The other half, in terms of flattened records.
proof fn lemma_counterpart(dumps: Seq<Loaded>, items: Seq<ItemView>, i: int, phase: Phase)
    requires
        all_wf(dumps),
        is_merge(streams(loaded_view(dumps)), items),
        0 <= i < items.len(),
        span_in(dumps, items[i]) is Some,
    ensures
        has_half(
            flats_of(loaded_view(dumps), items),
            phase,
            items[i].key.instance_id,
            span_in(dumps, items[i])->0,
        ) == counterpart(dumps, items, items[i], phase),
{
    let dv = loaded_view(dumps);
    let flats = flats_of(dv, items);
    let span = span_in(dumps, items[i])->0;
    if has_half(flats, phase, items[i].key.instance_id, span) {
        let m = choose|m: int|
            0 <= m < flats.len() && (#[trigger] flats[m]).phase == phase && flats[m].instance_id
                == items[i].key.instance_id && flats[m].span_id == Some(span);
        lemma_item_known(dumps, items, m);
        assert(flats[m] == flat_of(dv, items[m]));
        assert(type_of(dumps, items[m]).phase == phase);
    }
    if counterpart(dumps, items, items[i], phase) {
        let m = choose|m: int|
            0 <= m < items.len() && type_of(dumps, #[trigger] items[m]).phase == phase
                && items[m].key.instance_id == items[i].key.instance_id && span_in(
                dumps,
                items[m],
            ) == span_in(dumps, items[i]);
        lemma_item_known(dumps, items, m);
        assert(flats[m] == flat_of(dv, items[m]));
    }
}

/// The events of one record.
proof fn lemma_record_events(dumps: Seq<Loaded>, items: Seq<ItemView>, i: int)
    requires
        all_wf(dumps),
        is_merge(streams(loaded_view(dumps)), items),
        0 <= i < items.len(),
    ensures
        ({
            let flats = flats_of(loaded_view(dumps), items);
            let es = record_events(flats, flats[i]);
            &&& es.len() == if left_open(dumps, items, items[i]) {
                2nat
            } else {
                1nat
            }
            &&& stands_for(dumps, items, items[i], es[0])
            &&& es.len() == 2 ==> closes_open(dumps, items, items[i], es[1])
        }),
{
    let dv = loaded_view(dumps);
    let flats = flats_of(dv, items);
    let es = record_events(flats, flats[i]);
    let item = items[i];
    lemma_item_known(dumps, items, i);
    assert(flats[i] == flat_of(dv, item));
    let s = type_of(dumps, item);
    lemma_category(s.name);
    let args = record_args(s, item.fields, dump_of(dumps, item).intern);
    assert forall|k: int| #![trigger s.fields[k]] 0 <= k < s.fields.len() implies args[k] == (
        s.fields[k].name,
        json_of(s.fields[k], item.fields, dump_of(dumps, item).intern),
    ) by {}
    if span_in(dumps, item) is Some {
        lemma_counterpart(dumps, items, i, Phase::Enter);
        lemma_counterpart(dumps, items, i, Phase::Exit);
    }
    lemma_last_time(dv, items);
    assert(es[0].args =~= args || es[0].args.drop_last() =~= args);
    assert(shows_record(dumps, item, es[0]));
    if left_open(dumps, items, item) {
        assert(es[1].args.drop_last() =~= args);
        assert(shows_record(dumps, item, es[1]));
    }
}

/// Every record of every dump is in the trace, at its own time, in its process and its thread, under
/// its name, with all its decoded fields: as an instant, or as the opening or closing of its span.
/// This holds of plain events, of both halves of spans, and of halves whose other half is missing.
pub proof fn law_records_rendered(
    dumps: &[Loaded],
    out: Vec<TraceEvent>,
    items: Seq<ItemView>,
    i: int,
)
    requires
        all_wf(dumps@),
        call_ensures(build_events, (dumps,), out),
        is_merge(streams(loaded_view(dumps@)), items),
        0 <= i < items.len(),
    ensures
        exists|j: int|
            0 <= j < out@.len() && stands_for(dumps@, items, items[i], (#[trigger] out@[j])@),
        left_open(dumps@, items, items[i]) ==> exists|j: int|
            0 <= j < out@.len() && closes_open(dumps@, items, items[i], (#[trigger] out@[j])@),
{
    let all = lemma_owned(dumps, out, items);
    assert(all.contains((i, 0int)));
    let j = choose|j: int| 0 <= j < all.len() && all[j] == (i, 0int);
    assert(stands_for(dumps@, items, items[i], out@[j]@));
    if left_open(dumps@, items, items[i]) {
        assert(all.contains((i, 1int)));
        let j = choose|j: int| 0 <= j < all.len() && all[j] == (i, 1int);
        assert(closes_open(dumps@, items, items[i], out@[j]@));
    }
}

/// Which record each event is of, and whether it is its own event or the one that closes its span.
spec fn owned(dumps: Seq<Loaded>, items: Seq<ItemView>, n: nat) -> Seq<(int, int)>
    decreases n,
{
    if n == 0 {
        Seq::empty()
    } else {
        let before = owned(dumps, items, (n - 1) as nat);
        if left_open(dumps, items, items[n - 1]) {
            before.push((n - 1, 0)).push((n - 1, 1))
        } else {
            before.push((n - 1, 0))
        }
    }
}

/// The events of the first records.
proof fn lemma_owned_prefix(dumps: Seq<Loaded>, items: Seq<ItemView>, n: nat)
    requires
        all_wf(dumps),
        is_merge(streams(loaded_view(dumps)), items),
        n <= items.len(),
    ensures
        ({
            let all = owned(dumps, items, n);
            let es = trace_events(flats_of(loaded_view(dumps), items), n);
            &&& all.len() == es.len()
            &&& forall|j: int|
                0 <= j < all.len() ==> 0 <= (#[trigger] all[j]).0 < n && (all[j].1 == 0
                    || all[j].1 == 1) && (all[j].1 == 0 ==> stands_for(
                    dumps,
                    items,
                    items[all[j].0],
                    es[j],
                )) && (all[j].1 == 1 ==> left_open(dumps, items, items[all[j].0]) && closes_open(
                    dumps,
                    items,
                    items[all[j].0],
                    es[j],
                ))
            &&& forall|i: int| 0 <= i < n ==> #[trigger] all.contains((i, 0int))
            &&& forall|i: int|
                0 <= i < n && left_open(dumps, items, items[i]) ==> #[trigger] all.contains(
                    (i, 1int),
                )
            &&& forall|a: int, b: int|
                0 <= a < b < all.len() ==> (#[trigger] all[a]).0 < (#[trigger] all[b]).0 || (
                all[a].0 == all[b].0 && all[a].1 < all[b].1)
        }),
    decreases n,
{
    if n > 0 {
        let m = (n - 1) as nat;
        let flats = flats_of(loaded_view(dumps), items);
        lemma_owned_prefix(dumps, items, m);
        lemma_record_events(dumps, items, n - 1);
        let before = owned(dumps, items, m);
        let all = owned(dumps, items, n);
        let old_es = trace_events(flats, m);
        let more = record_events(flats, flats[n - 1]);
        let es = trace_events(flats, n);
        assert(es == old_es + more);
        assert forall|j: int| 0 <= j < all.len() implies 0 <= (#[trigger] all[j]).0 < n && (
        all[j].1 == 0 || all[j].1 == 1) && (all[j].1 == 0 ==> stands_for(
            dumps,
            items,
            items[all[j].0],
            es[j],
        )) && (all[j].1 == 1 ==> left_open(dumps, items, items[all[j].0]) && closes_open(
            dumps,
            items,
            items[all[j].0],
            es[j],
        )) by {
            if j < before.len() {
                assert(all[j] == before[j] && es[j] == old_es[j]);
            } else {
                assert(es[j] == more[j - before.len()]);
            }
        }
        assert forall|i: int| 0 <= i < n implies #[trigger] all.contains((i, 0int)) by {
            if i < m {
                assert(before.contains((i, 0int)));
                let j = choose|j: int| 0 <= j < before.len() && before[j] == (i, 0int);
                assert(all[j] == (i, 0int));
            } else {
                assert(all[before.len() as int] == (i, 0int));
            }
        }
        assert forall|i: int|
            0 <= i < n && left_open(dumps, items, items[i]) implies #[trigger] all.contains(
            (i, 1int),
        ) by {
            if i < m {
                assert(before.contains((i, 1int)));
                let j = choose|j: int| 0 <= j < before.len() && before[j] == (i, 1int);
                assert(all[j] == (i, 1int));
            } else {
                assert(all[before.len() as int + 1] == (i, 1int));
            }
        }
        assert forall|a: int, b: int| 0 <= a < b < all.len() implies (#[trigger] all[a]).0 < (
        #[trigger] all[b]).0 || (all[a].0 == all[b].0 && all[a].1 < all[b].1) by {
            if a < before.len() {
                assert(all[a] == before[a]);
            }
            if b < before.len() {
                assert(all[b] == before[b]);
            }
        }
    }
}

/// The events of a trace.
proof fn lemma_owned(dumps: &[Loaded], out: Vec<TraceEvent>, items: Seq<ItemView>) -> (all: Seq<
    (int, int),
>)
    requires
        all_wf(dumps@),
        call_ensures(build_events, (dumps,), out),
        is_merge(streams(loaded_view(dumps@)), items),
    ensures
        events_of(dumps@, items, out@, all),
{
    let dv = loaded_view(dumps@);
    let got = choose|got: Seq<ItemView>| #[trigger]
        is_merge(streams(dv), got) && events_view(out@) == trace_events(
            flats_of(dv, got),
            got.len(),
        );
    law_merge_unique(streams(dv), got, items);
    lemma_owned_prefix(dumps@, items, items.len());
    let all = owned(dumps@, items, items.len());
    assert(events_view(out@).len() == out@.len());
    assert forall|j: int| 0 <= j < out@.len() implies events_view(out@)[j] == (
    #[trigger] out@[j])@ by {}
    assert forall|j: int| 0 <= j < all.len() implies is_event_of(
        dumps@,
        items,
        #[trigger] all[j],
        out@[j]@,
    ) by {
        assert(events_view(out@)[j] == out@[j]@);
    }
    all
}

/// An event is that of record `of.0`: its own, or the one that closes the span that it left open.
pub open spec fn is_event_of(
    dumps: Seq<Loaded>,
    items: Seq<ItemView>,
    of: (int, int),
    e: TraceEventView,
) -> bool {
    &&& 0 <= of.0 < items.len()
    &&& of.1 == 0 || of.1 == 1
    &&& of.1 == 0 ==> stands_for(dumps, items, items[of.0], e)
    &&& of.1 == 1 ==> left_open(dumps, items, items[of.0]) && closes_open(
        dumps,
        items,
        items[of.0],
        e,
    )
}

/// `of` says of each event which record it is of: each record has its own event, those that left a
/// span open have one more right behind it, and the events stand in the order of the records.
pub open spec fn events_of(
    dumps: Seq<Loaded>,
    items: Seq<ItemView>,
    out: Seq<TraceEvent>,
    of: Seq<(int, int)>,
) -> bool {
    &&& of.len() == out.len()
    &&& forall|j: int|
        0 <= j < of.len() ==> is_event_of(dumps, items, #[trigger] of[j], out[j]@)
    &&& forall|i: int| 0 <= i < items.len() ==> #[trigger] of.contains((i, 0int))
    &&& forall|i: int|
        0 <= i < items.len() && left_open(dumps, items, items[i]) ==> #[trigger] of.contains(
            (i, 1int),
        )
    &&& forall|a: int, b: int|
        0 <= a < b < of.len() ==> (#[trigger] of[a]).0 < (#[trigger] of[b]).0 || (of[a].0
            == of[b].0 && of[a].1 < of[b].1)
}

/// A trace has the events of the records, in their order, and no others.
pub proof fn law_trace_is_of_records(dumps: &[Loaded], out: Vec<TraceEvent>, items: Seq<ItemView>)
    requires
        all_wf(dumps@),
        call_ensures(build_events, (dumps,), out),
        is_merge(streams(loaded_view(dumps@)), items),
    ensures
        exists|of: Seq<(int, int)>| #[trigger] events_of(dumps@, items, out@, of),
{
    let all = lemma_owned(dumps, out, items);
}

} // verus!
