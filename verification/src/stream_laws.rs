//! What the merge of dumps holds, told from the records of the dumps.

use crate::model::{
    all_rec_refs, loaded_view, rec_refs_view, shard_rec_refs, Loaded, LoadedView, RecRef, RecView,
    ShardRecsView,
};
use crate::stream::{
    all_wf, at, dump_streams, first_at, has_key, is_first_of, is_merge, merged_view, stream_of,
    streams, unique_records, ItemView, Key, MergedRec,
};
use vstd::prelude::*;

verus! {

// ---------------------------------------------------------------------------
// The merge.
// ---------------------------------------------------------------------------

/// Dump `d` has a record at place `p` of its shard at place `s`.
pub open spec fn has_rec(dumps: Seq<LoadedView>, d: int, s: int, p: int) -> bool {
    &&& 0 <= d < dumps.len()
    &&& 0 <= s < dumps[d].shards.len()
    &&& 0 <= p < dumps[d].shards[s].recs.len()
}

/// That record.
pub open spec fn rec_at(dumps: Seq<LoadedView>, d: int, s: int, p: int) -> RecView {
    dumps[d].shards[s].recs[p]
}

/// The item is of the time, the instance, the shard and the place in the shard of that record.
pub open spec fn is_of(item: ItemView, dumps: Seq<LoadedView>, d: int, s: int, p: int) -> bool {
    &&& item.key.ts_nanos == rec_at(dumps, d, s, p).ts_nanos
    &&& item.key.instance_id == dumps[d].instance_id
    &&& item.key.shard_id == dumps[d].shards[s].shard_id
    &&& item.key.offset == rec_at(dumps, d, s, p).offset
}

/// The item is that record, and no record of an earlier dump, of an earlier shard of the dump, or
/// earlier in the shard, is of the same time, instance, shard and place.
pub open spec fn is_first_rec(
    item: ItemView,
    dumps: Seq<LoadedView>,
    d: int,
    s: int,
    p: int,
) -> bool {
    &&& has_rec(dumps, d, s, p)
    &&& is_of(item, dumps, d, s, p)
    &&& item.dump == d
    &&& item.schema_idx == rec_at(dumps, d, s, p).schema_idx
    &&& item.fields == rec_at(dumps, d, s, p).fields
    &&& forall|e: int, t: int, q: int| #[trigger]
        has_rec(dumps, e, t, q) && (e < d || (e == d && (t < s || (t == s && q < p)))) ==> !is_of(
            item,
            dumps,
            e,
            t,
            q,
        )
}

/// The item is the first record of its time, instance, shard and place.
pub open spec fn is_rec_of(item: ItemView, dumps: Seq<LoadedView>) -> bool {
    exists|d: int, s: int, p: int| #[trigger] is_first_rec(item, dumps, d, s, p)
}

/// Where the streams of a dump begin.
spec fn start(dumps: Seq<LoadedView>, d: int) -> int {
    streams(dumps.take(d)).len() as int
}

/// The streams of the first dumps.
proof fn lemma_start(dumps: Seq<LoadedView>, d: int)
    requires
        0 <= d < dumps.len(),
    ensures
        start(dumps, d + 1) == start(dumps, d) + dumps[d].shards.len(),
        streams(dumps.take(d + 1)) == streams(dumps.take(d)) + dump_streams(dumps[d], d as nat),
{
    assert(dumps.take(d + 1).drop_last() =~= dumps.take(d));
    assert(dumps.take(d + 1).last() == dumps[d]);
}

/// The streams of the first dumps are the first of all.
proof fn lemma_start_prefix(dumps: Seq<LoadedView>, d: int, e: int)
    requires
        0 <= d <= e <= dumps.len(),
    ensures
        start(dumps, d) <= start(dumps, e),
        forall|k: int|
            0 <= k < start(dumps, d) ==> #[trigger] streams(dumps.take(e))[k] == streams(
                dumps.take(d),
            )[k],
    decreases e - d,
{
    if d < e {
        lemma_start_prefix(dumps, d, e - 1);
        lemma_start(dumps, e - 1);
        assert forall|k: int| 0 <= k < start(dumps, d) implies #[trigger] streams(dumps.take(e))[k]
            == streams(dumps.take(d))[k] by {
            assert(streams(dumps.take(e))[k] == streams(dumps.take(e - 1))[k]);
        }
    }
}

/// Where the stream of a shard stands.
proof fn lemma_stream_place(dumps: Seq<LoadedView>, d: int, s: int)
    requires
        0 <= d < dumps.len(),
        0 <= s < dumps[d].shards.len(),
    ensures
        0 <= start(dumps, d) + s < streams(dumps).len(),
        streams(dumps)[start(dumps, d) + s] == stream_of(
            dumps[d],
            d as nat,
            dumps[d].shards[s],
        ),
{
    lemma_start(dumps, d);
    lemma_start_prefix(dumps, d + 1, dumps.len() as int);
    assert(dumps.take(dumps.len() as int) =~= dumps);
    let k = start(dumps, d) + s;
    assert(streams(dumps.take(dumps.len() as int))[k] == streams(dumps.take(d + 1))[k]);
    assert(streams(dumps.take(d + 1))[k] == dump_streams(dumps[d], d as nat)[s]);
}

/// Which shard a stream is of.
proof fn lemma_stream_origin(dumps: Seq<LoadedView>, e: int, k: int) -> (r: (int, int))
    requires
        0 <= e <= dumps.len(),
        0 <= k < start(dumps, e),
    ensures
        0 <= r.0 < e,
        0 <= r.1 < dumps[r.0].shards.len(),
        k == start(dumps, r.0) + r.1,
    decreases e,
{
    assert(dumps.take(0) =~= Seq::<LoadedView>::empty());
    lemma_start(dumps, e - 1);
    if k < start(dumps, e - 1) {
        lemma_stream_origin(dumps, e - 1, k)
    } else {
        (e - 1, k - start(dumps, e - 1))
    }
}

/// The stream of an earlier shard stands earlier, and the other way round.
proof fn lemma_places_ascend(dumps: Seq<LoadedView>, d: int, s: int, e: int, t: int)
    requires
        0 <= d < dumps.len(),
        0 <= s < dumps[d].shards.len(),
        0 <= e < dumps.len(),
        0 <= t < dumps[e].shards.len(),
    ensures
        start(dumps, e) + t < start(dumps, d) + s <==> e < d || (e == d && t < s),
        start(dumps, e) + t == start(dumps, d) + s <==> e == d && t == s,
{
    if e < d {
        lemma_start(dumps, e);
        lemma_start_prefix(dumps, e + 1, d);
    } else if d < e {
        lemma_start(dumps, d);
        lemma_start_prefix(dumps, d + 1, e);
    }
}

/// An item of the merge is a record.
proof fn lemma_first_rec(dumps: Seq<LoadedView>, item: ItemView)
    requires
        is_first_of(streams(dumps), item),
    ensures
        is_rec_of(item, dumps),
{
    let ss = streams(dumps);
    let (k, p) = choose|k: int, p: int|
        #![trigger ss[k][p]]
        at(ss, k, p) && ss[k][p] == item && first_at(ss, k, p);
    assert(dumps.take(dumps.len() as int) =~= dumps);
    let (d, s) = lemma_stream_origin(dumps, dumps.len() as int, k);
    lemma_stream_place(dumps, d, s);
    assert(has_rec(dumps, d, s, p));
    assert forall|e: int, t: int, q: int| #[trigger]
        has_rec(dumps, e, t, q) && (e < d || (e == d && (t < s || (t == s && q < p)))) implies !is_of(
        item,
        dumps,
        e,
        t,
        q,
    ) by {
        lemma_stream_place(dumps, e, t);
        lemma_places_ascend(dumps, d, s, e, t);
        let m = start(dumps, e) + t;
        assert(at(ss, m, q));
        assert(ss[m][q].key != ss[k][p].key);
    }
    assert(is_first_rec(item, dumps, d, s, p));
}

/// Earlier in the order of time, then of instance, then of shard, then of the place in the shard.
pub open spec fn comes_before(a: Key, b: Key) -> bool {
    ||| a.ts_nanos < b.ts_nanos
    ||| a.ts_nanos == b.ts_nanos && a.instance_id < b.instance_id
    ||| a.ts_nanos == b.ts_nanos && a.instance_id == b.instance_id && a.shard_id < b.shard_id
    ||| a.ts_nanos == b.ts_nanos && a.instance_id == b.instance_id && a.shard_id == b.shard_id
        && a.offset < b.offset
}

/// Merging dumps gives the records of all of them in the order of time, and of records of one time in
/// that of their instances, then of their shards, then of their places. Records of one time, instance,
/// shard and place are the same one, which is given once, as the first dump has it; every record of
/// every dump is given, and nothing else.
pub proof fn law_records_merged<'a>(dumps: &'a [Loaded], out: Vec<MergedRec<'a>>)
    requires
        all_wf(dumps@),
        call_ensures(unique_records, (dumps,), out),
    ensures
        forall|i: int, j: int|
            #![trigger out@[i], out@[j]]
            0 <= i < j < out@.len() ==> comes_before(out@[i]@.key, out@[j]@.key),
        forall|i: int|
            0 <= i < out@.len() ==> is_rec_of((#[trigger] out@[i])@, loaded_view(dumps@)),
        forall|d: int, s: int, p: int| #[trigger]
            has_rec(loaded_view(dumps@), d, s, p) ==> exists|i: int|
                0 <= i < out@.len() && is_of(
                    (#[trigger] out@[i])@,
                    loaded_view(dumps@),
                    d,
                    s,
                    p,
                ),
{
    let dv = loaded_view(dumps@);
    let ss = streams(dv);
    let items = merged_view(out@);
    assert(is_merge(ss, items));
    assert forall|i: int| 0 <= i < out@.len() implies (#[trigger] out@[i])@ == items[i] by {}
    assert forall|i: int, j: int|
        #![trigger out@[i], out@[j]]
        0 <= i < j < out@.len() implies comes_before(out@[i]@.key, out@[j]@.key) by {
        assert(items[i] == out@[i]@ && items[j] == out@[j]@);
    }
    assert forall|i: int| 0 <= i < out@.len() implies is_rec_of((#[trigger] out@[i])@, dv) by {
        assert(is_first_of(ss, items[i]));
        lemma_first_rec(dv, items[i]);
    }
    assert forall|d: int, s: int, p: int| #[trigger] has_rec(dv, d, s, p) implies exists|i: int|
        0 <= i < out@.len() && is_of((#[trigger] out@[i])@, dv, d, s, p) by {
        lemma_stream_place(dv, d, s);
        let k = start(dv, d) + s;
        assert(at(ss, k, p));
        assert(has_key(items, ss[k][p].key));
        let i = choose|i: int| 0 <= i < items.len() && (#[trigger] items[i]).key == ss[k][p].key;
        assert(out@[i]@ == items[i]);
        assert(is_of(out@[i]@, dv, d, s, p));
    }
}

// ---------------------------------------------------------------------------
// The records of one instance.
// ---------------------------------------------------------------------------

/// The number of records of the first `s` shards.
pub open spec fn recs_before(shards: Seq<ShardRecsView>, s: int) -> int
    decreases s,
{
    if s <= 0 {
        0
    } else {
        recs_before(shards, s - 1) + shards[s - 1].recs.len()
    }
}

/// The records of fewer shards.
proof fn lemma_recs_before(a: Seq<ShardRecsView>, b: Seq<ShardRecsView>, s: int)
    requires
        s <= a.len() <= b.len(),
        forall|i: int| 0 <= i < a.len() ==> #[trigger] a[i] == b[i],
    ensures
        recs_before(a, s) == recs_before(b, s),
    decreases s,
{
    if s > 0 {
        lemma_recs_before(a, b, s - 1);
        assert(a[s - 1] == b[s - 1]);
    }
}

/// A record of a shard stands behind those of the shards before, in its own place.
spec fn is_listed(shards: Seq<ShardRecsView>, s: int, p: int) -> bool {
    let k = recs_before(shards, s) + p;
    0 <= k < all_rec_refs(shards).len() && all_rec_refs(shards)[k] == shard_rec_refs(shards[s])[p]
}

/// Where a record of a shard stands.
proof fn lemma_listed(shards: Seq<ShardRecsView>)
    ensures
        all_rec_refs(shards).len() == recs_before(shards, shards.len() as int),
        forall|s: int, p: int|
            0 <= s < shards.len() && 0 <= p < shards[s].recs.len() ==> #[trigger] is_listed(
                shards,
                s,
                p,
            ),
    decreases shards.len(),
{
    if shards.len() > 0 {
        let init = shards.drop_last();
        let n = shards.len() - 1;
        lemma_listed(init);
        assert forall|i: int| 0 <= i < init.len() implies #[trigger] init[i] == shards[i] by {}
        lemma_recs_before(init, shards, n);
        assert forall|s: int, p: int|
            0 <= s < shards.len() && 0 <= p < shards[s].recs.len() implies #[trigger] is_listed(
            shards,
            s,
            p,
        ) by {
            lemma_recs_before(init, shards, s);
            if s < n {
                assert(init[s] == shards[s]);
                assert(is_listed(init, s, p));
            }
        }
    }
}

/// The records of an instance hold the one at place `p` of shard `s`, behind those of the shards
/// before, in its own place.
pub open spec fn lists_rec(l: LoadedView, v: Seq<RecRef>, s: int, p: int) -> bool {
    let k = recs_before(l.shards, s) + p;
    let r = l.shards[s].recs[p];
    &&& 0 <= k < v.len()
    &&& v[k].shard_id == l.shards[s].shard_id
    &&& v[k].ts_nanos == r.ts_nanos
    &&& v[k].schema_idx == r.schema_idx
    &&& v[k]@.fields == r.fields
}

/// The records of an instance are listed shard by shard, each shard's in its own order, each with its
/// shard, its time, its event and its fields, and no others; their number is reported.
pub proof fn law_records_listed(l: &Loaded, v: Vec<RecRef>, n: usize)
    requires
        l.wf(),
        all_rec_refs(l@.shards).len() <= usize::MAX,
        call_ensures(Loaded::records, (l,), v),
        call_ensures(Loaded::record_count, (l,), n),
    ensures
        n == recs_before(l@.shards, l@.shards.len() as int),
        v@.len() == n,
        forall|s: int, p: int|
            0 <= s < l@.shards.len() && 0 <= p < l@.shards[s].recs.len() ==> #[trigger] lists_rec(
                l@,
                v@,
                s,
                p,
            ),
{
    let shards = l@.shards;
    lemma_listed(shards);
    let all = all_rec_refs(shards);
    assert(rec_refs_view(v@) == all);
    assert forall|s: int, p: int|
        0 <= s < l@.shards.len() && 0 <= p < l@.shards[s].recs.len() implies #[trigger] lists_rec(
        l@,
        v@,
        s,
        p,
    ) by {
        let i = recs_before(shards, s) + p;
        assert(is_listed(shards, s, p));
        assert(rec_refs_view(v@)[i] == v@[i]@);
    }
}

} // verus!
