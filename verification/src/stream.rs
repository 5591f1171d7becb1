//! The merge of all shards of all loaded dumps into one sequence without duplicates.
//!
//! Every shard is a stream of records in the order of its [`Key`]s. The merge yields records in the
//! global order of keys and drops every record whose key was yielded before: overlapping dumps of
//! one process re-capture the same record at the same offset of the same ring, so its key is the
//! same.

use crate::buf::bytes_of;
use crate::model::{loaded_view, loc_leq, loc_rec, Loaded, LoadedView, RecView, ShardRecsView};
use crate::wire::owned_schemas_view;
use bytes::Bytes;
use vstd::prelude::*;

verus! {

/// The ordering and identity key of a record. The ring is a bump allocator over a monotonic cursor,
/// so a record lands at one fixed offset in its `(instance_id, shard_id)` ring.
#[derive(Clone, Copy, Debug, PartialEq, Eq, Structural)]
pub struct Key {
    pub ts_nanos: u64,
    pub instance_id: u64,
    pub shard_id: u32,
    pub offset: u32,
}

/// The order of keys: by time, then instance, then shard, then place.
pub open spec fn key_lt(a: Key, b: Key) -> bool {
    a.ts_nanos < b.ts_nanos || (a.ts_nanos == b.ts_nanos && (a.instance_id < b.instance_id || (
    a.instance_id == b.instance_id && (a.shard_id < b.shard_id || (a.shard_id == b.shard_id
        && a.offset < b.offset)))))
}

impl Key {
    /// Whether this key comes before the other.
    pub fn before(&self, other: &Key) -> (r: bool)
        ensures
            r == key_lt(*self, *other),
    {
        self.ts_nanos < other.ts_nanos || (self.ts_nanos == other.ts_nanos && (self.instance_id
            < other.instance_id || (self.instance_id == other.instance_id && (self.shard_id
            < other.shard_id || (self.shard_id == other.shard_id && self.offset < other.offset)))))
    }
}

/// One record of a stream: its key, the loaded dump it comes from, its event and its field bytes.
#[verifier::ext_equal]
pub struct ItemView {
    pub key: Key,
    pub dump: nat,
    pub schema_idx: nat,
    pub fields: Seq<u8>,
}

/// One record yielded by [`merge_records`]: the owning [`Loaded`] (for its schemas, intern table,
/// and `instance_id`) plus the record's timestamp, shard, event, and field bytes.
pub struct MergedRec<'a> {
    pub loaded: &'a Loaded,
    /// The place of `loaded` among the merged dumps.
    pub dump: usize,
    pub ts_nanos: u64,
    pub shard_id: u32,
    /// The place of the record in its ring.
    pub offset: u32,
    pub schema_idx: usize,
    /// Field bytes; their number is the schema's `record_size`.
    pub fields: Bytes,
}

impl<'a> View for MergedRec<'a> {
    type V = ItemView;

    open spec fn view(&self) -> ItemView {
        ItemView {
            key: Key {
                ts_nanos: self.ts_nanos,
                instance_id: self.loaded.instance_id,
                shard_id: self.shard_id,
                offset: self.offset,
            },
            dump: self.dump as nat,
            schema_idx: self.schema_idx as nat,
            fields: bytes_of(self.fields),
        }
    }
}

/// The values of a run of merged records.
pub open spec fn merged_view(v: Seq<MergedRec>) -> Seq<ItemView> {
    v.map_values(|r: MergedRec| r@)
}

/// A record of a shard as an item of the merge.
pub open spec fn item_of(l: LoadedView, dump: nat, sh: ShardRecsView, r: RecView) -> ItemView {
    ItemView {
        key: Key {
            ts_nanos: r.ts_nanos,
            instance_id: l.instance_id,
            shard_id: sh.shard_id,
            offset: r.offset,
        },
        dump,
        schema_idx: r.schema_idx,
        fields: r.fields,
    }
}

/// The stream of one shard.
pub open spec fn stream_of(l: LoadedView, dump: nat, sh: ShardRecsView) -> Seq<ItemView> {
    sh.recs.map_values(|r: RecView| item_of(l, dump, sh, r))
}

/// The streams of one loaded dump.
pub open spec fn dump_streams(l: LoadedView, dump: nat) -> Seq<Seq<ItemView>> {
    l.shards.map_values(|sh: ShardRecsView| stream_of(l, dump, sh))
}

/// The streams of all loaded dumps, dump by dump and shard by shard.
pub open spec fn streams(dumps: Seq<LoadedView>) -> Seq<Seq<ItemView>>
    decreases dumps.len(),
{
    if dumps.len() == 0 {
        Seq::empty()
    } else {
        streams(dumps.drop_last()) + dump_streams(dumps.last(), (dumps.len() - 1) as nat)
    }
}

/// The item at place `p` of stream `s` exists.
pub open spec fn at(ss: Seq<Seq<ItemView>>, s: int, p: int) -> bool {
    0 <= s < ss.len() && 0 <= p < ss[s].len()
}

/// No item of an earlier stream, and no earlier item of the same stream, has the same key.
pub open spec fn first_at(ss: Seq<Seq<ItemView>>, s: int, p: int) -> bool {
    forall|s2: int, p2: int|
        #![trigger ss[s2][p2]]
        at(ss, s2, p2) && (s2 < s || (s2 == s && p2 < p)) ==> ss[s2][p2].key != ss[s][p].key
}

/// Keys strictly ascend.
pub open spec fn strictly_sorted(out: Seq<ItemView>) -> bool {
    forall|i: int, j: int|
        #![trigger out[i], out[j]]
        0 <= i < j < out.len() ==> key_lt(out[i].key, out[j].key)
}

/// `out` is the merge of the streams: its keys strictly ascend, it has every key of the streams,
/// and each of its items is the first that has its key.
pub open spec fn is_merge(ss: Seq<Seq<ItemView>>, out: Seq<ItemView>) -> bool {
    &&& strictly_sorted(out)
    &&& forall|i: int| 0 <= i < out.len() ==> #[trigger] is_first_of(ss, out[i])
    &&& forall|s: int, p: int| #![trigger ss[s][p]] at(ss, s, p) ==> has_key(out, ss[s][p].key)
}

/// The item is the first of the streams that has its key.
pub open spec fn is_first_of(ss: Seq<Seq<ItemView>>, item: ItemView) -> bool {
    exists|s: int, p: int| #![trigger ss[s][p]] at(ss, s, p) && ss[s][p] == item && first_at(ss, s, p)
}

/// Some item has the key.
pub open spec fn has_key(out: Seq<ItemView>, key: Key) -> bool {
    exists|i: int| 0 <= i < out.len() && (#[trigger] out[i]).key == key
}

/// The records of a shard stand in the order of their keys.
pub open spec fn stream_sorted(st: Seq<ItemView>) -> bool {
    forall|i: int, j: int|
        #![trigger st[i], st[j]]
        0 <= i <= j < st.len() ==> !key_lt(st[j].key, st[i].key)
}

/// Every stream is sorted.
pub open spec fn streams_sorted(ss: Seq<Seq<ItemView>>) -> bool {
    forall|s: int| 0 <= s < ss.len() ==> #[trigger] stream_sorted(ss[s])
}

/// Where stream `st` goes on from place `p` once the items with the key `last` are passed over.
pub open spec fn pass_over(st: Seq<ItemView>, p: nat, last: Option<Key>) -> nat
    decreases st.len() - p,
{
    if p < st.len() && last == Some(st[p as int].key) {
        pass_over(st, p + 1, last)
    } else {
        p
    }
}

/// Where all streams go on once the items with the key `last` are passed over.
pub open spec fn heads(ss: Seq<Seq<ItemView>>, pos: Seq<nat>, last: Option<Key>) -> Seq<nat> {
    Seq::new(ss.len(), |s: int| pass_over(ss[s], pos[s], last))
}

/// Stream `s` is the first one whose head has the least key.
pub open spec fn is_least(ss: Seq<Seq<ItemView>>, hs: Seq<nat>, s: int) -> bool {
    &&& 0 <= s < ss.len()
    &&& hs[s] < ss[s].len()
    &&& forall|t: int|
        #![trigger ss[t]]
        0 <= t < ss.len() && hs[t] < ss[t].len() ==> !key_lt(
            ss[t][hs[t] as int].key,
            ss[s][hs[s] as int].key,
        ) && (t < s ==> key_lt(ss[s][hs[s] as int].key, ss[t][hs[t] as int].key))
}

/// A cursor into one shard's records.
struct Cursor {
    dump: usize,
    shard: usize,
    pos: usize,
}

/// The merge in progress: one cursor per shard, and the key of the record yielded last.
pub struct MergeIter<'a> {
    dumps: &'a [Loaded],
    cursors: Vec<Cursor>,
    last: Option<Key>,
}

/// Every loaded dump is well formed.
pub open spec fn all_wf(dumps: Seq<Loaded>) -> bool {
    forall|i: int| 0 <= i < dumps.len() ==> (#[trigger] dumps[i]).wf()
}

impl<'a> MergeIter<'a> {
    /// The dumps that are merged.
    pub closed spec fn dumps(&self) -> Seq<Loaded> {
        self.dumps@
    }

    /// The streams that are merged.
    pub open spec fn streams(&self) -> Seq<Seq<ItemView>> {
        streams(loaded_view(self.dumps()))
    }

    /// Where each stream goes on.
    pub closed spec fn pos(&self) -> Seq<nat> {
        self.cursors@.map_values(|c: Cursor| c.pos as nat)
    }

    /// The key of the record yielded last.
    pub closed spec fn last(&self) -> Option<Key> {
        self.last
    }

    /// Each cursor stands in the shard whose stream has the same number.
    pub closed spec fn wf(&self) -> bool {
        &&& all_wf(self.dumps@)
        &&& self.cursors@.len() == self.streams().len()
        &&& forall|k: int|
            0 <= k < self.cursors@.len() ==> cursor_ok(
                self.dumps@,
                self.streams()[k],
                #[trigger] self.cursors@[k],
            )
    }
}

/// A cursor stands in the shard that the stream comes from.
spec fn cursor_ok(dumps: Seq<Loaded>, st: Seq<ItemView>, c: Cursor) -> bool {
    &&& c.dump < dumps.len()
    &&& c.shard < dumps[c.dump as int].shards@.len()
    &&& c.pos <= st.len()
    &&& st == stream_of(
        dumps[c.dump as int]@,
        c.dump as nat,
        dumps[c.dump as int]@.shards[c.shard as int],
    )
}

/// The item at a place of a cursor's stream is the record of the locator there.
proof fn lemma_cursor_item(dumps: Seq<Loaded>, st: Seq<ItemView>, c: Cursor, p: int)
    requires
        cursor_ok(dumps, st, c),
        all_wf(dumps),
        0 <= p < st.len(),
    ensures
        ({
            let l = dumps[c.dump as int];
            let sh = l.shards@[c.shard as int];
            let schemas = owned_schemas_view(l.schemas@);
            &&& p < sh.locs@.len()
            &&& st.len() == sh.locs@.len()
            &&& sh.wf(schemas)
            &&& st[p] == item_of(
                l@,
                c.dump as nat,
                sh.value(schemas),
                loc_rec(
                    schemas,
                    bytes_of(sh.region),
                    crate::model::opt_bytes(sh.wrapped),
                    sh.locs@[p],
                ),
            )
        }),
{
    let l = dumps[c.dump as int];
    let sh = l.shards@[c.shard as int];
    assert(l.wf());
    assert(l@.shards[c.shard as int] == sh.value(owned_schemas_view(l.schemas@)));
}

/// A cursor's stream is sorted.
proof fn lemma_cursor_sorted(dumps: Seq<Loaded>, st: Seq<ItemView>, c: Cursor)
    requires
        cursor_ok(dumps, st, c),
        all_wf(dumps),
    ensures
        stream_sorted(st),
{
    let l = dumps[c.dump as int];
    let sh = l.shards@[c.shard as int];
    let leq = loc_leq();
    assert forall|i: int, j: int|
        #![trigger st[i], st[j]]
        0 <= i <= j < st.len() implies !key_lt(st[j].key, st[i].key) by {
        lemma_cursor_item(dumps, st, c, i);
        lemma_cursor_item(dumps, st, c, j);
        if i < j {
            assert(leq(sh.locs@[i], sh.locs@[j]));
        }
    }
}

impl<'a> MergeIter<'a> {
    /// The key of the record at the place of a cursor.
    fn key(&self, k: usize) -> (key: Option<Key>)
        requires
            self.wf(),
            k < self.streams().len(),
        ensures
            match key {
                Some(key) => self.pos()[k as int] < self.streams()[k as int].len()
                    && self.pos()[k as int] < usize::MAX && key
                    == self.streams()[k as int][self.pos()[k as int] as int].key,
                None => self.pos()[k as int] >= self.streams()[k as int].len(),
            },
    {
        let c = &self.cursors[k];
        let ghost st = self.streams()[k as int];
        assert(cursor_ok(self.dumps@, st, self.cursors@[k as int]));
        let l = &self.dumps[c.dump];
        let sh = &l.shards[c.shard];
        proof {
            assert(l@.shards[c.shard as int] == sh.value(owned_schemas_view(l.schemas@)));
            assert(st.len() == sh.locs@.len());
            if c.pos < st.len() {
                lemma_cursor_item(self.dumps@, st, self.cursors@[k as int], c.pos as int);
            }
        }
        if c.pos < sh.locs.len() {
            let loc = &sh.locs[c.pos];
            Some(
                Key {
                    ts_nanos: loc.ts_nanos,
                    instance_id: l.instance_id,
                    shard_id: sh.shard_id,
                    offset: loc.offset,
                },
            )
        } else {
            None
        }
    }

    /// Moves every cursor past the records whose key was yielded last.
    fn drop_duplicates(&mut self)
        requires
            old(self).wf(),
        ensures
            final(self).wf(),
            final(self).dumps() == old(self).dumps(),
            final(self).last() == old(self).last(),
            final(self).pos() == heads(old(self).streams(), old(self).pos(), old(self).last()),
    {
        let ghost ss = self.streams();
        let ghost hs = heads(ss, self.pos(), self.last());
        let ghost start = self.pos();
        let mut k: usize = 0;
        while k < self.cursors.len()
            invariant
                k <= self.cursors@.len(),
                self.wf(),
                self.dumps() == old(self).dumps(),
                self.last() == old(self).last(),
                ss == self.streams(),
                start.len() == ss.len(),
                hs == heads(ss, start, self.last()),
                forall|t: int| 0 <= t < k ==> self.pos()[t] == hs[t],
                forall|t: int| k <= t < self.pos().len() ==> self.pos()[t] == start[t],
            decreases self.cursors@.len() - k,
        {
            let mut more = true;
            while more
                invariant
                    k < self.cursors@.len(),
                    self.wf(),
                    self.dumps() == old(self).dumps(),
                    self.last() == old(self).last(),
                    ss == self.streams(),
                    start.len() == ss.len(),
                    hs == heads(ss, start, self.last()),
                    forall|t: int| 0 <= t < k ==> self.pos()[t] == hs[t],
                    forall|t: int| k < t < self.pos().len() ==> self.pos()[t] == start[t],
                    hs[k as int] == pass_over(
                        ss[k as int],
                        self.pos()[k as int],
                        self.last(),
                    ),
                    !more ==> self.pos()[k as int] == hs[k as int],
                decreases ss[k as int].len() - self.pos()[k as int], (if more {
                    1int
                } else {
                    0int
                }),
            {
                let key = self.key(k);
                let same = match (&key, &self.last) {
                    (Some(a), Some(b)) => *a == *b,
                    _ => false,
                };
                if same {
                    let ghost before = self.pos();
                    let c = &self.cursors[k];
                    let next = Cursor { dump: c.dump, shard: c.shard, pos: c.pos + 1 };
                    self.cursors.set(k, next);
                    proof {
                        assert(self.pos() =~= before.update(k as int, before[k as int] + 1));
                        assert forall|t: int| 0 <= t < self.cursors@.len() implies cursor_ok(
                            self.dumps@,
                            ss[t],
                            #[trigger] self.cursors@[t],
                        ) by {
                            assert(cursor_ok(old(self).dumps@, ss[t], self.cursors@[t]) || t == k);
                        }
                    }
                } else {
                    more = false;
                }
            }
            k = k + 1;
        }
        assert(self.pos() =~= hs);
    }
}

impl<'a> MergeIter<'a> {
    /// The cursor whose head has the least key, the first such one.
    fn least(&self) -> (r: Option<usize>)
        requires
            self.wf(),
        ensures
            match r {
                Some(k) => is_least(self.streams(), self.pos(), k as int),
                None => forall|t: int|
                    0 <= t < self.streams().len() ==> #[trigger] self.pos()[t]
                        >= self.streams()[t].len(),
            },
    {
        let ghost ss = self.streams();
        let ghost hs = self.pos();
        let mut best: Option<(usize, Key)> = None;
        let mut k: usize = 0;
        while k < self.cursors.len()
            invariant
                k <= self.cursors@.len(),
                self.wf(),
                ss == self.streams(),
                hs == self.pos(),
                ss.len() == self.cursors@.len(),
                match best {
                    Some((b, key)) => b < k && hs[b as int] < ss[b as int].len() && key
                        == ss[b as int][hs[b as int] as int].key && forall|t: int|
                        #![trigger ss[t]]
                        0 <= t < k && hs[t] < ss[t].len() ==> !key_lt(
                            ss[t][hs[t] as int].key,
                            key,
                        ) && (t < b ==> key_lt(key, ss[t][hs[t] as int].key)),
                    None => forall|t: int| #![trigger ss[t]] 0 <= t < k ==> hs[t] >= ss[t].len(),
                },
            decreases self.cursors@.len() - k,
        {
            if let Some(key) = self.key(k) {
                let better = match &best {
                    Some((_, b)) => key.before(b),
                    None => true,
                };
                if better {
                    best = Some((k, key));
                }
            }
            k = k + 1;
        }
        match best {
            Some((b, _)) => Some(b),
            None => {
                assert forall|t: int| 0 <= t < ss.len() implies #[trigger] self.pos()[t]
                    >= ss[t].len() by {
                    assert(ss[t].len() <= hs[t]);
                }
                None
            },
        }
    }

    /// The next record of the merge: past the records whose key was yielded last, the one with the
    /// least key, from the first stream that has it.
    pub fn next(&mut self) -> (r: Option<MergedRec<'a>>)
        requires
            old(self).wf(),
        ensures
            final(self).wf(),
            final(self).dumps() == old(self).dumps(),
            ({
                let ss = old(self).streams();
                let hs = heads(ss, old(self).pos(), old(self).last());
                match r {
                    Some(rec) => {
                        &&& rec.dump < old(self).dumps().len()
                        &&& *rec.loaded == old(self).dumps()[rec.dump as int]
                        &&& rec.schema_idx < rec.loaded.schemas@.len()
                        &&& bytes_of(rec.fields).len()
                            == rec.loaded.schemas@[rec.schema_idx as int].record_size
                        &&& final(self).last() == Some(rec@.key)
                        &&& exists|s: int|
                            #![trigger ss[s]]
                            is_least(ss, hs, s) && rec@ == ss[s][hs[s] as int]
                                && final(self).pos() == hs.update(s, hs[s] + 1)
                    },
                    None => {
                        &&& final(self).last() == old(self).last()
                        &&& final(self).pos() == hs
                        &&& forall|s: int| 0 <= s < ss.len() ==> #[trigger] hs[s] >= ss[s].len()
                    },
                }
            }),
    {
        self.drop_duplicates();
        let ghost ss = self.streams();
        let ghost hs = self.pos();
        let k: usize = match self.least() {
            Some(k) => k,
            None => return None,
        };
        assert(is_least(ss, hs, k as int));
        assert(cursor_ok(self.dumps@, ss[k as int], self.cursors@[k as int]));
        proof {
            lemma_cursor_item(
                self.dumps@,
                ss[k as int],
                self.cursors@[k as int],
                hs[k as int] as int,
            );
        }
        let dump: usize = self.cursors[k].dump;
        let shard: usize = self.cursors[k].shard;
        let pos: usize = self.cursors[k].pos;
        let loaded = &self.dumps[dump];
        let sh = &loaded.shards[shard];
        let loc = sh.locs[pos];
        let fields = sh.fields(&loc, &loaded.schemas);
        let rec = MergedRec {
            loaded,
            dump,
            ts_nanos: loc.ts_nanos,
            shard_id: sh.shard_id,
            offset: loc.offset,
            schema_idx: loc.schema_idx as usize,
            fields,
        };
        assert(rec@ == ss[k as int][hs[k as int] as int]);
        proof {
            let schemas = owned_schemas_view(loaded.schemas@);
            assert(schemas[loc.schema_idx as int] == loaded.schemas@[loc.schema_idx as int]@);
        }
        assert(pos < sh.locs.len());
        self.cursors.set(k, Cursor { dump, shard, pos: pos + 1 });
        self.last = Some(
            Key {
                ts_nanos: loc.ts_nanos,
                instance_id: loaded.instance_id,
                shard_id: sh.shard_id,
                offset: loc.offset,
            },
        );
        proof {
            assert(self.pos() =~= hs.update(k as int, hs[k as int] + 1));
            assert forall|t: int| 0 <= t < self.cursors@.len() implies cursor_ok(
                self.dumps@,
                ss[t],
                #[trigger] self.cursors@[t],
            ) by {}
        }
        Some(rec)
    }
}

/// Builds the [`MergeIter`] over all `dumps`.
pub fn merge_records<'a>(dumps: &'a [Loaded]) -> (it: MergeIter<'a>)
    requires
        all_wf(dumps@),
    ensures
        it.wf(),
        it.dumps() == dumps@,
        it.last() is None,
        it.pos() == Seq::new(it.streams().len(), |s: int| 0nat),
{
    let ghost views = loaded_view(dumps@);
    let mut cursors: Vec<Cursor> = Vec::new();
    let mut i: usize = 0;
    assert(views.take(0) =~= Seq::<LoadedView>::empty());
    while i < dumps.len()
        invariant
            i <= dumps@.len(),
            views == loaded_view(dumps@),
            cursors@.len() == streams(views.take(i as int)).len(),
            forall|k: int|
                0 <= k < cursors@.len() ==> cursor_ok(
                    dumps@,
                    streams(views.take(i as int))[k],
                    #[trigger] cursors@[k],
                ) && cursors@[k].pos == 0,
        decreases dumps@.len() - i,
    {
        let l = &dumps[i];
        let ghost done = streams(views.take(i as int));
        let ghost own = dump_streams(l@, i as nat);
        proof {
            assert(views.take(i + 1).drop_last() =~= views.take(i as int));
            assert(views[i as int] == l@);
            assert(streams(views.take(i + 1)) == done + own);
        }
        let mut j: usize = 0;
        while j < l.shards.len()
            invariant
                i < dumps@.len(),
                *l == dumps@[i as int],
                j <= l.shards@.len() == own.len(),
                own == dump_streams(l@, i as nat),
                cursors@.len() == done.len() + j,
                forall|k: int|
                    0 <= k < cursors@.len() ==> cursor_ok(
                        dumps@,
                        (done + own)[k],
                        #[trigger] cursors@[k],
                    ) && cursors@[k].pos == 0,
            decreases l.shards@.len() - j,
        {
            let c = Cursor { dump: i, shard: j, pos: 0 };
            assert(own[j as int] == stream_of(l@, i as nat, l@.shards[j as int]));
            cursors.push(c);
            j = j + 1;
        }
        i = i + 1;
    }
    assert(views.take(i as int) =~= views);
    let it = MergeIter { dumps, cursors, last: None };
    assert(it.pos() =~= Seq::new(it.streams().len(), |s: int| 0nat));
    it
}

// ---------------------------------------------------------------------------
// The merge as a whole.
// ---------------------------------------------------------------------------

/// Passing over stays within the stream, and passes over records with the key `last` only.
pub proof fn lemma_pass_over(st: Seq<ItemView>, p: nat, last: Option<Key>)
    requires
        p <= st.len(),
    ensures
        p <= pass_over(st, p, last) <= st.len(),
        forall|q: int| p <= q < pass_over(st, p, last) ==> last == Some((#[trigger] st[q]).key),
        pass_over(st, p, last) < st.len() ==> last != Some(
            st[pass_over(st, p, last) as int].key,
        ),
    decreases st.len() - p,
{
    if p < st.len() && last == Some(st[p as int].key) {
        lemma_pass_over(st, p + 1, last);
    }
}

/// What holds of a merge in progress that has yielded `out`.
pub open spec fn merging(
    ss: Seq<Seq<ItemView>>,
    pos: Seq<nat>,
    last: Option<Key>,
    out: Seq<ItemView>,
) -> bool {
    &&& pos.len() == ss.len()
    &&& forall|s: int| 0 <= s < ss.len() ==> #[trigger] pos[s] <= ss[s].len()
    &&& strictly_sorted(out)
    &&& last == (if out.len() == 0 {
        None
    } else {
        Some(out.last().key)
    })
    &&& forall|i: int| 0 <= i < out.len() ==> #[trigger] is_first_of(ss, out[i])
    &&& forall|s: int, p: int|
        #![trigger ss[s][p]]
        at(ss, s, p) && p < pos[s] ==> has_key(out, ss[s][p].key)
    &&& forall|s: int, p: int|
        #![trigger ss[s][p]]
        at(ss, s, p) && p >= pos[s] && out.len() > 0 ==> !key_lt(ss[s][p].key, out.last().key)
}

/// One step of the merge keeps it a merge in progress.
proof fn lemma_merging_step(
    ss: Seq<Seq<ItemView>>,
    pos: Seq<nat>,
    last: Option<Key>,
    out: Seq<ItemView>,
    s: int,
)
    requires
        streams_sorted(ss),
        merging(ss, pos, last, out),
        is_least(ss, heads(ss, pos, last), s),
    ensures
        ({
            let hs = heads(ss, pos, last);
            let item = ss[s][hs[s] as int];
            merging(ss, hs.update(s, hs[s] + 1), Some(item.key), out.push(item))
        }),
{
    let hs = heads(ss, pos, last);
    let item = ss[s][hs[s] as int];
    let next = hs.update(s, hs[s] + 1);
    let grown = out.push(item);
    assert forall|t: int| 0 <= t < ss.len() implies #[trigger] next[t] <= ss[t].len() by {
        assert(pos[t] <= ss[t].len());
        lemma_pass_over(ss[t], pos[t], last);
    }
    assert(pos[s] <= ss[s].len());
    lemma_pass_over(ss[s], pos[s], last);
    assert(at(ss, s, hs[s] as int));
    assert(out.len() > 0 ==> key_lt(out.last().key, item.key));
    assert(strictly_sorted(grown));
    // The item is the first that has its key.
    assert(first_at(ss, s, hs[s] as int)) by {
        assert forall|s2: int, p2: int|
            #![trigger ss[s2][p2]]
            at(ss, s2, p2) && (s2 < s || (s2 == s && p2 < hs[s])) implies ss[s2][p2].key
            != item.key by {
            assert(pos[s2] <= ss[s2].len());
            lemma_pass_over(ss[s2], pos[s2], last);
            if p2 < pos[s2] {
                assert(has_key(out, ss[s2][p2].key));
                let i = choose|i: int| 0 <= i < out.len() && (#[trigger] out[i]).key
                    == ss[s2][p2].key;
                assert(i < out.len() - 1 ==> key_lt(out[i].key, out[out.len() - 1].key));
            } else if p2 >= hs[s2] {
                assert(stream_sorted(ss[s2]));
                assert(!key_lt(ss[s2][p2].key, ss[s2][hs[s2] as int].key));
            }
        }
    }
    assert(is_first_of(ss, item));
    assert forall|i: int| 0 <= i < grown.len() implies #[trigger] is_first_of(ss, grown[i]) by {
        if i < out.len() {
            assert(is_first_of(ss, out[i]));
        }
    }
    assert forall|t: int, p: int|
        #![trigger ss[t][p]]
        at(ss, t, p) && p < next[t] implies has_key(grown, ss[t][p].key) by {
        assert(pos[t] <= ss[t].len());
        lemma_pass_over(ss[t], pos[t], last);
        if p < pos[t] {
            assert(has_key(out, ss[t][p].key));
            let i = choose|i: int| 0 <= i < out.len() && (#[trigger] out[i]).key == ss[t][p].key;
            assert(grown[i].key == ss[t][p].key);
        } else if p < hs[t] {
            assert(last == Some(ss[t][p].key));
            assert(grown[out.len() - 1].key == ss[t][p].key);
        } else {
            assert(grown[grown.len() - 1].key == ss[t][p].key);
        }
    }
    assert forall|t: int, p: int|
        #![trigger ss[t][p]]
        at(ss, t, p) && p >= next[t] implies !key_lt(ss[t][p].key, item.key) by {
        assert(pos[t] <= ss[t].len());
        lemma_pass_over(ss[t], pos[t], last);
        assert(stream_sorted(ss[t]));
        assert(!key_lt(ss[t][p].key, ss[t][hs[t] as int].key));
        assert(!key_lt(ss[t][hs[t] as int].key, item.key));
    }
}

/// When every stream is passed over to its end, the merge is complete.
proof fn lemma_merging_done(
    ss: Seq<Seq<ItemView>>,
    pos: Seq<nat>,
    last: Option<Key>,
    out: Seq<ItemView>,
)
    requires
        merging(ss, pos, last, out),
        forall|s: int| 0 <= s < ss.len() ==> #[trigger] heads(ss, pos, last)[s] >= ss[s].len(),
    ensures
        is_merge(ss, out),
{
    assert forall|s: int, p: int| #![trigger ss[s][p]] at(ss, s, p) implies has_key(
        out,
        ss[s][p].key,
    ) by {
        assert(pos[s] <= ss[s].len());
        lemma_pass_over(ss[s], pos[s], last);
        assert(heads(ss, pos, last)[s] >= ss[s].len());
        if p >= pos[s] {
            assert(last == Some(ss[s][p].key));
            assert(out[out.len() - 1].key == ss[s][p].key);
        }
    }
}

/// The number of items that are left.
spec fn left(ss: Seq<Seq<ItemView>>, pos: Seq<nat>) -> nat
    decreases ss.len(),
{
    if ss.len() == 0 || pos.len() != ss.len() || pos.last() > ss.last().len() {
        0
    } else {
        left(ss.drop_last(), pos.drop_last()) + (ss.last().len() - pos.last()) as nat
    }
}

/// Moving on along the streams leaves no more items, and fewer if some stream moves.
proof fn lemma_left_less(ss: Seq<Seq<ItemView>>, a: Seq<nat>, b: Seq<nat>)
    requires
        a.len() == ss.len(),
        b.len() == ss.len(),
        forall|s: int| 0 <= s < ss.len() ==> #[trigger] a[s] <= b[s] && b[s] <= ss[s].len(),
    ensures
        left(ss, b) <= left(ss, a),
        (exists|s: int| 0 <= s < ss.len() && #[trigger] a[s] < b[s]) ==> left(ss, b) < left(ss, a),
    decreases ss.len(),
{
    if ss.len() > 0 {
        let n = ss.len() - 1;
        assert(a[n] <= b[n]);
        assert forall|s: int| 0 <= s < n implies #[trigger] a.drop_last()[s] <= b.drop_last()[s]
            && b.drop_last()[s] <= ss.drop_last()[s].len() by {
            assert(a[s] <= b[s]);
        }
        lemma_left_less(ss.drop_last(), a.drop_last(), b.drop_last());
        if exists|s: int| 0 <= s < ss.len() && #[trigger] a[s] < b[s] {
            let s = choose|s: int| 0 <= s < ss.len() && #[trigger] a[s] < b[s];
            if s < n {
                assert(a.drop_last()[s] < b.drop_last()[s]);
            }
        }
    }
}

/// Eagerly collects [`merge_records`]: the global, de-duplicated record sequence.
pub fn unique_records<'a>(dumps: &'a [Loaded]) -> (out: Vec<MergedRec<'a>>)
    requires
        all_wf(dumps@),
    ensures
        is_merge(streams(loaded_view(dumps@)), merged_view(out@)),
        forall|i: int|
            0 <= i < out@.len() ==> (#[trigger] out@[i]).dump < dumps@.len() && *out@[i].loaded
                == dumps@[out@[i].dump as int] && out@[i].schema_idx
                < out@[i].loaded.schemas@.len() && bytes_of(out@[i].fields).len()
                == out@[i].loaded.schemas@[out@[i].schema_idx as int].record_size,
{
    let mut it = merge_records(dumps);
    let ghost ss = it.streams();
    let mut out: Vec<MergedRec<'a>> = Vec::new();
    proof {
        lemma_streams_sorted(it);
        assert(merged_view(out@) =~= Seq::<ItemView>::empty());
        assert(merging(ss, it.pos(), it.last(), merged_view(out@)));
    }
    let mut more = true;
    while more
        invariant
            it.wf(),
            it.dumps() == dumps@,
            ss == it.streams(),
            ss == streams(loaded_view(dumps@)),
            streams_sorted(ss),
            merging(ss, it.pos(), it.last(), merged_view(out@)),
            !more ==> is_merge(ss, merged_view(out@)),
            forall|i: int|
                0 <= i < out@.len() ==> (#[trigger] out@[i]).dump < dumps@.len() && *out@[i].loaded
                    == dumps@[out@[i].dump as int] && out@[i].schema_idx
                    < out@[i].loaded.schemas@.len() && bytes_of(out@[i].fields).len()
                    == out@[i].loaded.schemas@[out@[i].schema_idx as int].record_size,
        decreases left(ss, it.pos()), (if more {
            1int
        } else {
            0int
        }),
    {
        let ghost pos = it.pos();
        let ghost last = it.last();
        let ghost hs = heads(ss, pos, last);
        let ghost before = merged_view(out@);
        match it.next() {
            Some(rec) => {
                proof {
                    let s = choose|s: int|
                        #![trigger ss[s]]
                        is_least(ss, hs, s) && rec@ == ss[s][hs[s] as int] && it.pos()
                            == hs.update(s, hs[s] + 1);
                    lemma_merging_step(ss, pos, last, before, s);
                    assert forall|t: int| 0 <= t < ss.len() implies #[trigger] pos[t]
                        <= it.pos()[t] && it.pos()[t] <= ss[t].len() by {
                        lemma_pass_over(ss[t], pos[t], last);
                    }
                    assert(pos[s] < it.pos()[s]) by {
                        lemma_pass_over(ss[s], pos[s], last);
                    }
                    lemma_left_less(ss, pos, it.pos());
                }
                out.push(rec);
                assert(merged_view(out@) =~= before.push(rec@));
            },
            None => {
                proof {
                    lemma_merging_done(ss, pos, last, before);
                    lemma_merging_pass(ss, pos, last, before);
                    assert forall|t: int| 0 <= t < ss.len() implies #[trigger] pos[t]
                        <= it.pos()[t] && it.pos()[t] <= ss[t].len() by {
                        lemma_pass_over(ss[t], pos[t], last);
                    }
                    lemma_left_less(ss, pos, it.pos());
                }
                more = false;
            },
        }
    }
    out
}

/// Passing over the records with the last key keeps it a merge in progress.
proof fn lemma_merging_pass(
    ss: Seq<Seq<ItemView>>,
    pos: Seq<nat>,
    last: Option<Key>,
    out: Seq<ItemView>,
)
    requires
        merging(ss, pos, last, out),
    ensures
        merging(ss, heads(ss, pos, last), last, out),
{
    let hs = heads(ss, pos, last);
    assert forall|t: int| 0 <= t < ss.len() implies #[trigger] hs[t] <= ss[t].len() by {
        assert(pos[t] <= ss[t].len());
        lemma_pass_over(ss[t], pos[t], last);
    }
    assert forall|t: int, p: int|
        #![trigger ss[t][p]]
        at(ss, t, p) && p < hs[t] implies has_key(out, ss[t][p].key) by {
        assert(pos[t] <= ss[t].len());
        lemma_pass_over(ss[t], pos[t], last);
        if p >= pos[t] {
            assert(last == Some(ss[t][p].key));
            assert(out[out.len() - 1].key == ss[t][p].key);
        }
    }
    assert forall|t: int, p: int|
        #![trigger ss[t][p]]
        at(ss, t, p) && p >= hs[t] && out.len() > 0 implies !key_lt(
        ss[t][p].key,
        out.last().key,
    ) by {
        assert(pos[t] <= ss[t].len());
        lemma_pass_over(ss[t], pos[t], last);
    }
}

/// The streams of a merge are sorted.
proof fn lemma_streams_sorted(it: MergeIter)
    requires
        it.wf(),
    ensures
        streams_sorted(it.streams()),
{
    let ss = it.streams();
    assert forall|s: int| 0 <= s < ss.len() implies #[trigger] stream_sorted(ss[s]) by {
        assert(cursor_ok(it.dumps@, ss[s], it.cursors@[s]));
        lemma_cursor_sorted(it.dumps@, ss[s], it.cursors@[s]);
    }
}

/// Two sorted runs with the same items are the same run.
proof fn lemma_sorted_same(a: Seq<ItemView>, b: Seq<ItemView>)
    requires
        strictly_sorted(a),
        strictly_sorted(b),
        forall|i: int| 0 <= i < a.len() ==> b.contains(#[trigger] a[i]),
        forall|i: int| 0 <= i < b.len() ==> a.contains(#[trigger] b[i]),
    ensures
        a == b,
    decreases a.len(),
{
    if a.len() == 0 {
        if b.len() > 0 {
            assert(a.contains(b[0]));
        }
        assert(a =~= b);
    } else {
        assert(b.contains(a[0]));
        let i = choose|i: int| 0 <= i < b.len() && b[i] == a[0];
        assert(a.contains(b[0]));
        let j = choose|j: int| 0 <= j < a.len() && a[j] == b[0];
        if i > 0 {
            assert(key_lt(b[0].key, b[i].key));
            if j > 0 {
                assert(key_lt(a[0].key, a[j].key));
            }
        }
        assert(a[0] == b[0]);
        let ta = a.skip(1);
        let tb = b.skip(1);
        assert forall|x: int, y: int|
            #![trigger ta[x], ta[y]]
            0 <= x < y < ta.len() implies key_lt(ta[x].key, ta[y].key) by {
            assert(key_lt(a[x + 1].key, a[y + 1].key));
        }
        assert forall|x: int, y: int|
            #![trigger tb[x], tb[y]]
            0 <= x < y < tb.len() implies key_lt(tb[x].key, tb[y].key) by {
            assert(key_lt(b[x + 1].key, b[y + 1].key));
        }
        assert forall|k: int| 0 <= k < ta.len() implies tb.contains(#[trigger] ta[k]) by {
            assert(b.contains(a[k + 1]));
            let m = choose|m: int| 0 <= m < b.len() && b[m] == a[k + 1];
            assert(key_lt(a[0].key, a[k + 1].key));
            assert(m > 0);
            assert(tb[m - 1] == ta[k]);
        }
        assert forall|k: int| 0 <= k < tb.len() implies ta.contains(#[trigger] tb[k]) by {
            assert(a.contains(b[k + 1]));
            let m = choose|m: int| 0 <= m < a.len() && a[m] == b[k + 1];
            assert(key_lt(b[0].key, b[k + 1].key));
            assert(m > 0);
            assert(ta[m - 1] == tb[k]);
        }
        lemma_sorted_same(ta, tb);
        assert(a =~= seq![a[0]] + ta);
        assert(b =~= seq![b[0]] + tb);
    }
}

/// Every item of one merge is an item of any other.
proof fn lemma_merge_contained(ss: Seq<Seq<ItemView>>, a: Seq<ItemView>, b: Seq<ItemView>)
    requires
        is_merge(ss, a),
        is_merge(ss, b),
    ensures
        forall|i: int| 0 <= i < a.len() ==> b.contains(#[trigger] a[i]),
{
    assert forall|i: int| 0 <= i < a.len() implies b.contains(#[trigger] a[i]) by {
        assert(is_first_of(ss, a[i]));
        let (s, p) = choose|s: int, p: int|
            #![trigger ss[s][p]]
            at(ss, s, p) && ss[s][p] == a[i] && first_at(ss, s, p);
        assert(has_key(b, ss[s][p].key));
        let j = choose|j: int| 0 <= j < b.len() && (#[trigger] b[j]).key == ss[s][p].key;
        assert(is_first_of(ss, b[j]));
        let (s2, p2) = choose|s2: int, p2: int|
            #![trigger ss[s2][p2]]
            at(ss, s2, p2) && ss[s2][p2] == b[j] && first_at(ss, s2, p2);
        assert(s == s2 && p == p2) by {
            if s2 < s || (s2 == s && p2 < p) {
                assert(ss[s2][p2].key != ss[s][p].key);
            } else if s < s2 || (s == s2 && p < p2) {
                assert(ss[s][p].key != ss[s2][p2].key);
            }
        }
        assert(b[j] == a[i]);
    }
}

/// The merge of given streams is one sequence only: the order and the choice among duplicates are
/// fixed.
pub proof fn law_merge_unique(ss: Seq<Seq<ItemView>>, a: Seq<ItemView>, b: Seq<ItemView>)
    requires
        is_merge(ss, a),
        is_merge(ss, b),
    ensures
        a == b,
{
    lemma_merge_contained(ss, a, b);
    lemma_merge_contained(ss, b, a);
    lemma_sorted_same(a, b);
}

/// Merging no more than what was merged already changes nothing: each record's key occurs once in
/// the result.
pub proof fn law_merge_idempotent(ss: Seq<Seq<ItemView>>, out: Seq<ItemView>)
    requires
        is_merge(ss, out),
    ensures
        is_merge(seq![out], out),
{
    let one = seq![out];
    assert forall|i: int| 0 <= i < out.len() implies #[trigger] is_first_of(one, out[i]) by {
        assert(at(one, 0, i) && one[0][i] == out[i]);
        assert(first_at(one, 0, i));
    }
    assert forall|s: int, p: int| #![trigger one[s][p]] at(one, s, p) implies has_key(
        out,
        one[s][p].key,
    ) by {
        assert(out[p].key == one[s][p].key);
    }
}

} // verus!
