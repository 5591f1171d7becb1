//! Finding records by key: what the merge of loaded dumps holds under each key.

use crate::model::{LoadedView, RecView, ShardRecsView};
use crate::stream::{
    at, dump_streams, first_at, has_key, is_first_of, is_merge, item_of, key_lt, stream_of,
    streams, strictly_sorted, ItemView, Key,
};
use crate::schema::SchemaView;
use vstd::prelude::*;

verus! {

/// What a record says, wherever it stands: the id of its event and its field bytes.
#[verifier::ext_equal]
pub struct Content {
    pub id: u64,
    pub fields: Seq<u8>,
}

/// What a merged record says.
pub open spec fn content_of(dumps: Seq<LoadedView>, item: ItemView) -> Content {
    Content {
        id: dumps[item.dump as int].schemas[item.schema_idx as int].id,
        fields: item.fields,
    }
}

/// What a merged record says, if there is one.
pub open spec fn opt_content(dumps: Seq<LoadedView>, item: Option<ItemView>) -> Option<Content> {
    match item {
        Some(i) => Some(content_of(dumps, i)),
        None => None,
    }
}

/// The first of two, or else the second.
pub open spec fn or_else<T>(a: Option<T>, b: Option<T>) -> Option<T> {
    match a {
        Some(x) => Some(x),
        None => b,
    }
}

/// The first item with the key.
pub open spec fn found(items: Seq<ItemView>, key: Key) -> Option<ItemView>
    decreases items.len(),
{
    if items.len() == 0 {
        None
    } else {
        or_else(
            found(items.drop_last(), key),
            if items.last().key == key {
                Some(items.last())
            } else {
                None
            },
        )
    }
}

/// The first item of the streams with the key.
pub open spec fn found_in(ss: Seq<Seq<ItemView>>, key: Key) -> Option<ItemView>
    decreases ss.len(),
{
    if ss.len() == 0 {
        None
    } else {
        or_else(found_in(ss.drop_last(), key), found(ss.last(), key))
    }
}

/// What the first record with the given time and place says.
pub open spec fn rec_lookup(schemas: Seq<SchemaView>, recs: Seq<RecView>, key: Key) -> Option<Content>
    decreases recs.len(),
{
    if recs.len() == 0 {
        None
    } else {
        let r = recs.last();
        or_else(
            rec_lookup(schemas, recs.drop_last(), key),
            if r.ts_nanos == key.ts_nanos && r.offset == key.offset {
                Some(Content { id: schemas[r.schema_idx as int].id, fields: r.fields })
            } else {
                None
            },
        )
    }
}

/// What one shard has under a key.
pub open spec fn shard_lookup(schemas: Seq<SchemaView>, sh: ShardRecsView, key: Key) -> Option<
    Content,
> {
    if sh.shard_id == key.shard_id {
        rec_lookup(schemas, sh.recs, key)
    } else {
        None
    }
}

/// What the shards of one instance have under a key.
pub open spec fn shards_lookup(
    schemas: Seq<SchemaView>,
    shards: Seq<ShardRecsView>,
    key: Key,
) -> Option<Content>
    decreases shards.len(),
{
    if shards.len() == 0 {
        None
    } else {
        or_else(
            shards_lookup(schemas, shards.drop_last(), key),
            shard_lookup(schemas, shards.last(), key),
        )
    }
}

/// What one instance has under a key.
pub open spec fn instance_lookup(l: LoadedView, key: Key) -> Option<Content> {
    if l.instance_id == key.instance_id {
        shards_lookup(l.schemas, l.shards, key)
    } else {
        None
    }
}

/// What loaded dumps have under a key.
pub open spec fn lookup(dumps: Seq<LoadedView>, key: Key) -> Option<Content>
    decreases dumps.len(),
{
    if dumps.len() == 0 {
        None
    } else {
        or_else(lookup(dumps.drop_last(), key), instance_lookup(dumps.last(), key))
    }
}

// ---------------------------------------------------------------------------
// Finding and merging.
// ---------------------------------------------------------------------------

/// What is found stands among the items, and no item before it has its key.
pub proof fn lemma_found(items: Seq<ItemView>, key: Key)
    ensures
        match found(items, key) {
            Some(x) => exists|i: int|
                0 <= i < items.len() && (#[trigger] items[i]) == x && x.key == key && forall|j: int|
                    0 <= j < i ==> (#[trigger] items[j]).key != key,
            None => forall|i: int| 0 <= i < items.len() ==> (#[trigger] items[i]).key != key,
        },
    decreases items.len(),
{
    if items.len() > 0 {
        let init = items.drop_last();
        lemma_found(init, key);
        match found(init, key) {
            Some(x) => {
                let i = choose|i: int|
                    0 <= i < init.len() && (#[trigger] init[i]) == x && x.key == key && forall|
                        j: int,
                    |
                        0 <= j < i ==> (#[trigger] init[j]).key != key;
                assert(items[i] == x);
                assert forall|j: int| 0 <= j < i implies (#[trigger] items[j]).key != key by {
                    assert(init[j] == items[j]);
                }
            },
            None => {
                assert forall|j: int| 0 <= j < items.len() - 1 implies (#[trigger] items[j]).key
                    != key by {
                    assert(init[j] == items[j]);
                }
                let n = items.len() - 1;
                assert(items[n] == items.last());
            },
        }
    }
}

/// An item that is the first of its key is found.
pub proof fn lemma_found_at(items: Seq<ItemView>, p: int)
    requires
        0 <= p < items.len(),
        forall|j: int| 0 <= j < p ==> (#[trigger] items[j]).key != items[p].key,
    ensures
        found(items, items[p].key) == Some(items[p]),
{
    let key = items[p].key;
    lemma_found(items, key);
    if let Some(x) = found(items, key) {
        let i = choose|i: int|
            0 <= i < items.len() && (#[trigger] items[i]) == x && x.key == key && forall|j: int|
                0 <= j < i ==> (#[trigger] items[j]).key != key;
        assert(i == p) by {
            if i < p {
                assert(items[i].key != key);
            } else if p < i {
                assert(items[p].key != key);
            }
        }
    }
}

/// Of two runs of streams, the first is looked through first.
pub proof fn lemma_found_in_concat(a: Seq<Seq<ItemView>>, b: Seq<Seq<ItemView>>, key: Key)
    ensures
        found_in(a + b, key) == or_else(found_in(a, key), found_in(b, key)),
    decreases b.len(),
{
    if b.len() == 0 {
        assert(a + b =~= a);
    } else {
        assert((a + b).drop_last() =~= a + b.drop_last());
        assert((a + b).last() == b.last());
        lemma_found_in_concat(a, b.drop_last(), key);
    }
}

/// The first item of the streams that has its key is found.
proof fn lemma_found_in_first(ss: Seq<Seq<ItemView>>, s: int, p: int)
    requires
        at(ss, s, p),
        first_at(ss, s, p),
    ensures
        found_in(ss, ss[s][p].key) == Some(ss[s][p]),
    decreases ss.len(),
{
    let key = ss[s][p].key;
    let init = ss.drop_last();
    if s < ss.len() - 1 {
        assert(init[s] == ss[s]);
        assert forall|s2: int, p2: int|
            #![trigger init[s2][p2]]
            at(init, s2, p2) && (s2 < s || (s2 == s && p2 < p)) implies init[s2][p2].key
            != init[s][p].key by {
            assert(init[s2] == ss[s2]);
            assert(at(ss, s2, p2));
        }
        lemma_found_in_first(init, s, p);
    } else {
        assert forall|s2: int, p2: int| #![trigger init[s2][p2]] at(init, s2, p2) implies init[s2][p2].key
            != key by {
            assert(init[s2] == ss[s2]);
            assert(at(ss, s2, p2));
        }
        lemma_found_in_none(init, key);
        assert forall|j: int| 0 <= j < p implies (#[trigger] ss[s][j]).key != ss[s][p].key by {
            assert(at(ss, s, j));
        }
        lemma_found_at(ss[s], p);
    }
}

/// What no item of the streams has is not found.
proof fn lemma_found_in_none(ss: Seq<Seq<ItemView>>, key: Key)
    requires
        forall|s: int, p: int| #![trigger ss[s][p]] at(ss, s, p) ==> ss[s][p].key != key,
    ensures
        found_in(ss, key) is None,
    decreases ss.len(),
{
    if ss.len() > 0 {
        let init = ss.drop_last();
        assert forall|s: int, p: int| #![trigger init[s][p]] at(init, s, p) implies init[s][p].key
            != key by {
            assert(init[s] == ss[s]);
            assert(at(ss, s, p));
        }
        lemma_found_in_none(init, key);
        let n = ss.len() - 1;
        lemma_found(ss[n], key);
        if let Some(x) = found(ss[n], key) {
            let i = choose|i: int| 0 <= i < ss[n].len() && (#[trigger] ss[n][i]) == x && x.key == key;
            assert(at(ss, n, i));
        }
    }
}

/// What is found in the streams is the first item with the key.
pub proof fn lemma_found_in(ss: Seq<Seq<ItemView>>, key: Key)
    ensures
        match found_in(ss, key) {
            Some(x) => x.key == key && is_first_of(ss, x),
            None => forall|s: int, p: int|
                #![trigger ss[s][p]]
                at(ss, s, p) ==> ss[s][p].key != key,
        },
    decreases ss.len(),
{
    if ss.len() > 0 {
        let init = ss.drop_last();
        let n = ss.len() - 1;
        lemma_found_in(init, key);
        lemma_found(ss[n], key);
        match found_in(init, key) {
            Some(x) => {
                let (s, p) = choose|s: int, p: int|
                    #![trigger init[s][p]]
                    at(init, s, p) && init[s][p] == x && first_at(init, s, p);
                assert(ss[s] == init[s]);
                assert forall|s2: int, p2: int|
                    #![trigger ss[s2][p2]]
                    at(ss, s2, p2) && (s2 < s || (s2 == s && p2 < p)) implies ss[s2][p2].key
                    != ss[s][p].key by {
                    assert(init[s2][p2] == ss[s2][p2]);
                    assert(at(init, s2, p2));
                }
                assert(at(ss, s, p) && ss[s][p] == x && first_at(ss, s, p));
            },
            None => {
                assert forall|s: int, p: int|
                    #![trigger ss[s][p]]
                    at(ss, s, p) && s < n implies ss[s][p].key != key by {
                    assert(init[s][p] == ss[s][p]);
                    assert(at(init, s, p));
                }
                if let Some(x) = found(ss[n], key) {
                    let i = choose|i: int|
                        0 <= i < ss[n].len() && (#[trigger] ss[n][i]) == x && x.key == key
                            && forall|j: int| 0 <= j < i ==> (#[trigger] ss[n][j]).key != key;
                    assert(at(ss, n, i) && ss[n][i] == x && first_at(ss, n, i));
                }
            },
        }
    }
}

/// The merge of streams holds under each key what is found first in the streams.
pub proof fn lemma_merge_found(ss: Seq<Seq<ItemView>>, out: Seq<ItemView>, key: Key)
    requires
        is_merge(ss, out),
    ensures
        found(out, key) == found_in(ss, key),
{
    lemma_found(out, key);
    match found(out, key) {
        Some(x) => {
            let i = choose|i: int| 0 <= i < out.len() && (#[trigger] out[i]) == x && x.key == key;
            assert(is_first_of(ss, out[i]));
            let (s, p) = choose|s: int, p: int|
                #![trigger ss[s][p]]
                at(ss, s, p) && ss[s][p] == out[i] && first_at(ss, s, p);
            lemma_found_in_first(ss, s, p);
        },
        None => {
            assert forall|s: int, p: int| #![trigger ss[s][p]] at(ss, s, p) implies ss[s][p].key
                != key by {
                if ss[s][p].key == key {
                    assert(has_key(out, key));
                }
            }
            lemma_found_in_none(ss, key);
        },
    }
}

// ---------------------------------------------------------------------------
// Finding and looking up.
// ---------------------------------------------------------------------------

/// What is found in a shard's stream is what the shard has under the key.
proof fn lemma_stream_lookup(l: LoadedView, d: nat, sh: ShardRecsView, recs: Seq<RecView>, key: Key)
    requires
        l.instance_id == key.instance_id,
    ensures
        ({
            let st = recs.map_values(|r: RecView| item_of(l, d, sh, r));
            match found(st, key) {
                Some(x) => x.dump == d && sh.shard_id == key.shard_id && rec_lookup(
                    l.schemas,
                    recs,
                    key,
                ) == Some(Content { id: l.schemas[x.schema_idx as int].id, fields: x.fields }),
                None => sh.shard_id == key.shard_id ==> rec_lookup(l.schemas, recs, key) is None,
            }
        }),
    decreases recs.len(),
{
    let st = recs.map_values(|r: RecView| item_of(l, d, sh, r));
    if recs.len() > 0 {
        let init = recs.drop_last();
        lemma_stream_lookup(l, d, sh, init, key);
        assert(init.map_values(|r: RecView| item_of(l, d, sh, r)) =~= st.drop_last());
        assert(st.last() == item_of(l, d, sh, recs.last()));
    }
}

/// What is found in the streams of one instance is what the instance has under the key.
proof fn lemma_dump_lookup(l: LoadedView, d: nat, shards: Seq<ShardRecsView>, key: Key)
    ensures
        ({
            let ss = shards.map_values(|sh: ShardRecsView| stream_of(l, d, sh));
            match found_in(ss, key) {
                Some(x) => x.dump == d && l.instance_id == key.instance_id && shards_lookup(
                    l.schemas,
                    shards,
                    key,
                ) == Some(Content { id: l.schemas[x.schema_idx as int].id, fields: x.fields }),
                None => l.instance_id == key.instance_id ==> shards_lookup(l.schemas, shards, key)
                    is None,
            }
        }),
    decreases shards.len(),
{
    let ss = shards.map_values(|sh: ShardRecsView| stream_of(l, d, sh));
    if shards.len() > 0 {
        let init = shards.drop_last();
        let sh = shards.last();
        lemma_dump_lookup(l, d, init, key);
        assert(init.map_values(|sh: ShardRecsView| stream_of(l, d, sh)) =~= ss.drop_last());
        assert(ss.last() == stream_of(l, d, sh));
        if l.instance_id == key.instance_id {
            lemma_stream_lookup(l, d, sh, sh.recs, key);
        } else {
            lemma_found(ss.last(), key);
            if let Some(x) = found(ss.last(), key) {
                let i = choose|i: int|
                    0 <= i < ss.last().len() && (#[trigger] ss.last()[i]) == x && x.key == key;
                assert(ss.last()[i] == item_of(l, d, sh, sh.recs[i]));
            }
        }
    }
}

/// What is found in the streams of loaded dumps is what they have under the key.
pub proof fn lemma_lookup(dumps: Seq<LoadedView>, key: Key)
    ensures
        opt_content(dumps, found_in(streams(dumps), key)) == lookup(dumps, key),
        found_in(streams(dumps), key) matches Some(x) ==> x.dump < dumps.len()
            && dumps[x.dump as int].instance_id == key.instance_id,
    decreases dumps.len(),
{
    if dumps.len() > 0 {
        let init = dumps.drop_last();
        let l = dumps.last();
        let d = (dumps.len() - 1) as nat;
        lemma_lookup(init, key);
        lemma_dump_lookup(l, d, l.shards, key);
        lemma_found_in_concat(streams(init), dump_streams(l, d), key);
        if let Some(x) = found_in(streams(init), key) {
            assert(init[x.dump as int] == dumps[x.dump as int]);
        }
    }
}

/// The merge of loaded dumps holds under each key what the dumps have under it.
pub proof fn lemma_merge_lookup(dumps: Seq<LoadedView>, items: Seq<ItemView>, key: Key)
    requires
        is_merge(streams(dumps), items),
    ensures
        opt_content(dumps, found(items, key)) == lookup(dumps, key),
        found(items, key) matches Some(x) ==> x.dump < dumps.len()
            && dumps[x.dump as int].instance_id == key.instance_id,
{
    lemma_merge_found(streams(dumps), items, key);
    lemma_lookup(dumps, key);
}

/// Of two runs of loaded dumps, the first is looked through first.
pub proof fn lemma_lookup_concat(a: Seq<LoadedView>, b: Seq<LoadedView>, key: Key)
    ensures
        lookup(a + b, key) == or_else(lookup(a, key), lookup(b, key)),
    decreases b.len(),
{
    if b.len() == 0 {
        assert(a + b =~= a);
    } else {
        assert((a + b).drop_last() =~= a + b.drop_last());
        assert((a + b).last() == b.last());
        lemma_lookup_concat(a, b.drop_last(), key);
    }
}

// ---------------------------------------------------------------------------
// Sequences with the same finds are the same.
// ---------------------------------------------------------------------------

/// Of two strictly ascending sequences with the same keys, the keys at each place are the same.
pub proof fn lemma_same_keys(a: Seq<ItemView>, b: Seq<ItemView>)
    requires
        strictly_sorted(a),
        strictly_sorted(b),
        forall|key: Key| #[trigger] found(a, key) is Some == found(b, key) is Some,
    ensures
        a.len() == b.len(),
        forall|i: int| #![trigger a[i]] #![trigger b[i]] 0 <= i < a.len() ==> a[i].key == b[i].key,
    decreases a.len() + b.len(),
{
    if a.len() == 0 && b.len() == 0 {
    } else if a.len() == 0 {
        lemma_found(b, b[0].key);
        assert(found(a, b[0].key) is None);
    } else if b.len() == 0 {
        lemma_found(a, a[0].key);
        assert(found(a, a[0].key) is Some);
    } else {
        let x = a.last().key;
        let y = b.last().key;
        let an = a.len() - 1;
        let bn = b.len() - 1;
        assert(a[an].key == x);
        assert(b[bn].key == y);
        assert(!key_lt(x, y)) by {
            lemma_found(b, y);
            assert(found(a, y) is Some);
            lemma_found(a, y);
            let i = choose|i: int| 0 <= i < a.len() && (#[trigger] a[i]).key == y;
            if i < an {
                assert(key_lt(a[i].key, a[an].key));
            }
        }
        assert(!key_lt(y, x)) by {
            lemma_found(a, x);
            assert(found(a, x) is Some);
            lemma_found(b, x);
            let i = choose|i: int| 0 <= i < b.len() && (#[trigger] b[i]).key == x;
            if i < bn {
                assert(key_lt(b[i].key, b[bn].key));
            }
        }
        assert(x == y);
        let a0 = a.drop_last();
        let b0 = b.drop_last();
        assert forall|key: Key| #[trigger] found(a0, key) is Some == found(b0, key) is Some by {
            assert(found(a, key) is Some == found(b, key) is Some);
            lemma_found(a0, key);
            lemma_found(b0, key);
            if key == x {
                if let Some(z) = found(a0, key) {
                    let i = choose|i: int| 0 <= i < a0.len() && (#[trigger] a0[i]).key == key;
                    assert(key_lt(a[i].key, a[an].key));
                }
                if let Some(z) = found(b0, key) {
                    let i = choose|i: int| 0 <= i < b0.len() && (#[trigger] b0[i]).key == key;
                    assert(key_lt(b[i].key, b[bn].key));
                }
            }
        }
        lemma_same_keys(a0, b0);
        assert forall|i: int| #![trigger a[i]] #![trigger b[i]] 0 <= i < a.len() implies a[i].key
            == b[i].key by {
            if i < an {
                assert(a0[i] == a[i]);
                assert(b0[i] == b[i]);
            }
        }
    }
}

/// In a strictly ascending sequence, each item is found under its key.
pub proof fn lemma_sorted_found(items: Seq<ItemView>, i: int)
    requires
        strictly_sorted(items),
        0 <= i < items.len(),
    ensures
        found(items, items[i].key) == Some(items[i]),
{
    assert forall|j: int| 0 <= j < i implies (#[trigger] items[j]).key != items[i].key by {
        assert(key_lt(items[j].key, items[i].key));
    }
    lemma_found_at(items, i);
}

} // verus!
