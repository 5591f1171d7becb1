//! What a walk of a ring recovers.

use crate::le::{le_bytes, lemma_le_bytes_len, lemma_le_round_trip, lemma_pow256_values};
use crate::ring::{
    candidate, candidate_record, flat, framed, is_candidate, lemma_mod_step_on,
    lemma_ring_read_behind, lemma_ring_read_concat, lemma_ring_read_written, parts_view, payloads,
    ring_empty, ring_push, ring_read, ring_takes, suffix_len, valid_low, walk_all, walk_from, Ring,
    RingView, WalkedView,
};
use vstd::arithmetic::div_mod::lemma_fundamental_div_mod;
use vstd::arithmetic::power2::is_pow2;
use vstd::prelude::*;

verus! {

/// A ring after the records `hist` have been pushed, first record first.
pub open spec fn push_all(r: RingView, hist: Seq<Seq<u8>>) -> RingView
    decreases hist.len(),
{
    if hist.len() == 0 {
        r
    } else {
        ring_push(push_all(r, hist.drop_last()), hist.last())
    }
}

/// The bytes that the records `hist` take up in a ring.
pub open spec fn framed_len(hist: Seq<Seq<u8>>) -> nat
    decreases hist.len(),
{
    if hist.len() == 0 {
        0
    } else {
        framed_len(hist.drop_last()) + hist.last().len() + 2
    }
}

/// The records `hist` as they stand in a ring, one behind the other.
pub open spec fn framed_all(hist: Seq<Seq<u8>>) -> Seq<u8>
    decreases hist.len(),
{
    if hist.len() == 0 {
        Seq::empty()
    } else {
        framed_all(hist.drop_last()) + framed(hist.last())
    }
}

/// Every record of `hist` is one that a ring of the given capacity takes.
pub open spec fn pushable(hist: Seq<Seq<u8>>, capacity: nat) -> bool {
    forall|i: int|
        0 <= i < hist.len() ==> (#[trigger] hist[i]).len() <= 65535 && hist[i].len() + 2 <= capacity
}

/// The framed records are as long as `framed_len` says.
pub proof fn lemma_framed_all_len(hist: Seq<Seq<u8>>)
    ensures
        framed_all(hist).len() == framed_len(hist),
    decreases hist.len(),
{
    if hist.len() > 0 {
        lemma_framed_all_len(hist.drop_last());
        lemma_le_bytes_len(hist.last().len(), 2);
    }
}

/// How a record is cut into parts, empty ones among them, does not matter: of two rings in the same
/// state, the one takes the parts if the other takes their concatenation, and pushing them gives the
/// same offset and leaves the same ring.
pub proof fn law_parts_are_one_record(
    a: &mut Ring,
    b: &mut Ring,
    parts: &[&[u8]],
    whole: &[u8],
    start_a: usize,
    start_b: usize,
)
    requires
        old(a)@ == old(b)@,
        whole@ == flat(parts_view(parts@)),
        call_ensures(Ring::push_parts, (a, parts), start_a),
        call_ensures(Ring::push, (b, whole), start_b),
    ensures
        ring_takes(old(a)@, flat(parts_view(parts@))) <==> ring_takes(old(b)@, whole@),
        start_a == start_b,
        final(a)@ == final(b)@,
{
}

/// Pushing keeps the capacity and moves the head by what was pushed.
pub proof fn lemma_push_all_shape(r: RingView, hist: Seq<Seq<u8>>)
    requires
        r.head + framed_len(hist) <= usize::MAX,
    ensures
        push_all(r, hist).region.len() == r.region.len(),
        push_all(r, hist).head == r.head + framed_len(hist),
    decreases hist.len(),
{
    if hist.len() > 0 {
        lemma_push_all_shape(r, hist.drop_last());
    }
}

/// The newest `k` records, if they fit in the ring, stand framed right behind the head.
proof fn lemma_newest_stand(r: RingView, hist: Seq<Seq<u8>>, k: nat)
    requires
        k <= hist.len(),
        pushable(hist, r.region.len()),
        framed_len(hist.skip(hist.len() - k)) <= r.region.len(),
        r.head + framed_len(hist) <= usize::MAX,
    ensures
        ring_read(
            push_all(r, hist).region,
            push_all(r, hist).head - framed_len(hist.skip(hist.len() - k)),
            framed_len(hist.skip(hist.len() - k)),
        ) == framed_all(hist.skip(hist.len() - k)),
    decreases hist.len(),
{
    let n = hist.len();
    let newest = hist.skip(n - k);
    let after = push_all(r, hist);
    if k == 0 {
        assert(newest =~= Seq::<Seq<u8>>::empty());
        assert(ring_read(after.region, after.head - 0, 0) =~= framed_all(newest));
    } else {
        let init = hist.drop_last();
        let last = hist.last();
        let before = push_all(r, init);
        let older = newest.drop_last();
        assert(older =~= init.skip(init.len() - (k - 1)));
        assert(newest.last() == last);
        lemma_newest_stand(r, init, (k - 1) as nat);
        lemma_push_all_shape(r, init);
        lemma_push_all_shape(r, hist);
        lemma_le_bytes_len(last.len(), 2);
        let m = framed_len(older);
        let fl = framed(last).len();
        lemma_ring_read_concat(after.region, before.head - m, m, fl);
        lemma_ring_read_behind(before.region, before.head as int, framed(last), m);
        assert(last.len() + 2 <= r.region.len());
        lemma_ring_read_written(before.region, before.head as int, framed(last));
        assert(before.head - m + m == before.head);
        assert(after.head - framed_len(newest) == before.head - m);
    }
}

/// A framed record right behind `abs` is the candidate that ends at `abs`.
pub proof fn lemma_candidate(region: Seq<u8>, low: nat, abs: nat, payload: Seq<u8>)
    requires
        payload.len() <= 65535,
        low + payload.len() + 2 <= abs,
        ring_read(region, abs - payload.len() - 2, payload.len() + 2) == framed(payload),
    ensures
        suffix_len(region, abs) == payload.len(),
        is_candidate(region, low, abs),
        candidate(region, abs) == payload,
{
    let start = abs - payload.len() - 2;
    lemma_pow256_values();
    lemma_le_bytes_len(payload.len(), 2);
    lemma_le_round_trip(payload.len(), 2);
    lemma_ring_read_concat(region, start, payload.len(), 2);
    let a = ring_read(region, start, payload.len());
    let b = ring_read(region, start + payload.len(), 2);
    assert(a =~= (a + b).take(payload.len() as int));
    assert(b =~= (a + b).skip(payload.len() as int));
    assert(framed(payload).take(payload.len() as int) =~= payload);
    assert(framed(payload).skip(payload.len() as int) =~= le_bytes(payload.len(), 2));
    assert(start + payload.len() == abs - 2);
}

/// Framed records right behind `abs` that the validator accepts are walked newest first.
proof fn lemma_walk_framed(
    valid: spec_fn(Seq<u8>) -> bool,
    region: Seq<u8>,
    low: nat,
    abs: nat,
    recs: Seq<Seq<u8>>,
)
    requires
        low + framed_len(recs) <= abs,
        ring_read(region, abs - framed_len(recs), framed_len(recs)) == framed_all(recs),
        forall|i: int| 0 <= i < recs.len() ==> (#[trigger] recs[i]).len() <= 65535 && valid(recs[i]),
    ensures
        payloads(walk_from(valid, region, low, abs)) == recs.reverse() + payloads(
            walk_from(valid, region, low, (abs - framed_len(recs)) as nat),
        ),
    decreases recs.len(),
{
    if recs.len() == 0 {
        assert(recs.reverse() + payloads(walk_from(valid, region, low, abs)) =~= payloads(
            walk_from(valid, region, low, abs),
        ));
    } else {
        let init = recs.drop_last();
        let last = recs.last();
        let m = framed_len(init);
        let fl = last.len() + 2;
        let start = (abs - fl) as nat;
        lemma_framed_all_len(init);
        lemma_le_bytes_len(last.len(), 2);
        lemma_ring_read_concat(region, start - m, m, fl);
        let a = ring_read(region, start - m, m);
        let b = ring_read(region, start as int, fl);
        assert(abs - framed_len(recs) == start - m);
        assert(start - m + m == start);
        assert(a =~= (a + b).take(m as int));
        assert(b =~= (a + b).skip(m as int));
        assert(framed_all(recs).take(m as int) =~= framed_all(init));
        assert(framed_all(recs).skip(m as int) =~= framed(last));
        assert(last == recs[recs.len() - 1]);
        lemma_candidate(region, low, abs, last);
        assert forall|i: int| 0 <= i < init.len() implies (#[trigger] init[i]).len() <= 65535
            && valid(init[i]) by {
            assert(init[i] == recs[i]);
        }
        lemma_walk_framed(valid, region, low, start, init);
        let rest = walk_from(valid, region, low, start);
        assert(payloads(seq![candidate_record(region, abs)] + rest) =~= seq![last] + payloads(
            rest,
        ));
        let tail = payloads(walk_from(valid, region, low, (start - m) as nat));
        assert(seq![last] + (init.reverse() + tail) =~= recs.reverse() + tail);
    }
}

/// After any pushes, a walk whose validator accepts the newest `k` records yields exactly these,
/// newest first, as long as together they fit in the ring and the ring's counter has not gone round;
/// what it yields after them comes from the bytes behind them.
pub proof fn law_walk_recovers_newest(
    valid: spec_fn(Seq<u8>) -> bool,
    capacity: nat,
    hist: Seq<Seq<u8>>,
    k: nat,
)
    requires
        k <= hist.len(),
        pushable(hist, capacity),
        framed_len(hist.skip(hist.len() - k)) <= capacity,
        framed_len(hist) <= usize::MAX,
        forall|i: int| hist.len() - k <= i < hist.len() ==> valid(#[trigger] hist[i]),
    ensures
        ({
            let r = push_all(ring_empty(capacity), hist);
            let low = valid_low(r.head, capacity);
            let newest = hist.skip(hist.len() - k);
            payloads(walk_from(valid, r.region, low, r.head)) == newest.reverse() + payloads(
                walk_from(valid, r.region, low, (r.head - framed_len(newest)) as nat),
            )
        }),
{
    let empty = ring_empty(capacity);
    let r = push_all(empty, hist);
    let low = valid_low(r.head, capacity);
    let newest = hist.skip(hist.len() - k);
    lemma_push_all_shape(empty, hist);
    lemma_newest_stand(empty, hist, k);
    lemma_framed_len_suffix(hist, k);
    assert forall|i: int| 0 <= i < newest.len() implies (#[trigger] newest[i]).len() <= 65535
        && valid(newest[i]) by {
        assert(newest[i] == hist[hist.len() - k + i]);
    }
    lemma_walk_framed(valid, r.region, low, r.head, newest);
}

/// The newest records take up no more than all of them.
proof fn lemma_framed_len_suffix(hist: Seq<Seq<u8>>, k: nat)
    requires
        k <= hist.len(),
    ensures
        framed_len(hist.skip(hist.len() - k)) <= framed_len(hist),
    decreases k,
{
    let newest = hist.skip(hist.len() - k);
    if k > 0 {
        let init = hist.drop_last();
        assert(newest.drop_last() =~= init.skip(init.len() - (k - 1)));
        lemma_framed_len_suffix(init, (k - 1) as nat);
    }
}

/// While nothing has been overwritten yet, a walk whose validator accepts every record yields
/// exactly the records that were pushed, newest first.
pub proof fn law_walk_round_trip(
    valid: spec_fn(Seq<u8>) -> bool,
    capacity: nat,
    hist: Seq<Seq<u8>>,
)
    requires
        is_pow2(capacity as int),
        capacity <= usize::MAX,
        pushable(hist, capacity),
        framed_len(hist) <= capacity,
        forall|i: int| 0 <= i < hist.len() ==> valid(#[trigger] hist[i]),
    ensures
        ({
            let r = push_all(ring_empty(capacity), hist);
            payloads(walk_all(valid, r.region, r.head, capacity)) == hist.reverse()
        }),
{
    let r = push_all(ring_empty(capacity), hist);
    assert(hist.skip(0) =~= hist);
    lemma_push_all_shape(ring_empty(capacity), hist);
    law_walk_recovers_newest(valid, capacity, hist, hist.len());
    let low = valid_low(r.head, capacity);
    assert(walk_from(valid, r.region, low, 0) =~= Seq::<WalkedView>::empty());
    assert(payloads(walk_from(valid, r.region, low, 0)) =~= Seq::<Seq<u8>>::empty());
    assert(hist.reverse() + Seq::<Seq<u8>>::empty() =~= hist.reverse());
}

/// Where the validator rejects every candidate that ends behind `back`, as in a record that was
/// still being written, the walk goes on at `back` as if it had started there: no older record is
/// lost.
pub proof fn law_walk_resyncs(
    valid: spec_fn(Seq<u8>) -> bool,
    region: Seq<u8>,
    low: nat,
    back: nat,
    abs: nat,
)
    requires
        back <= abs,
        forall|e: nat|
            back < e <= abs && #[trigger] is_candidate(region, low, e) ==> !valid(
                candidate(region, e),
            ),
    ensures
        walk_from(valid, region, low, abs) == walk_from(valid, region, low, back),
    decreases abs,
{
    if back < abs && low + 2 <= abs {
        assert(is_candidate(region, low, abs) ==> !valid(candidate(region, abs)));
        law_walk_resyncs(valid, region, low, back, (abs - 1) as nat);
    }
}

/// A record between two neighbouring boundaries does not wrap.
proof fn lemma_between_boundaries(start: int, len: int, q: int, c: int)
    requires
        0 < c,
        0 <= len,
        q * c <= start,
        start + len < (q + 1) * c,
    ensures
        start % c + len <= c,
{
    assert((q + 1) * c == q * c + c) by (nonlinear_arith);
    vstd::arithmetic::div_mod::lemma_fundamental_div_mod_converse_mod(start, c, q, start - q * c);
}

/// With no boundary inside the walked range, no record wraps.
proof fn lemma_no_wrap(
    valid: spec_fn(Seq<u8>) -> bool,
    region: Seq<u8>,
    low: nat,
    abs: nat,
    q: int,
)
    requires
        region.len() > 0,
        q * region.len() <= low,
        abs <= (q + 1) * region.len(),
    ensures
        forall|i: int|
            0 <= i < walk_from(valid, region, low, abs).len() ==> (#[trigger] walk_from(
                valid,
                region,
                low,
                abs,
            )[i]).at is Some,
    decreases abs,
{
    if low + 2 <= abs {
        if is_candidate(region, low, abs) && valid(candidate(region, abs)) {
            let len = suffix_len(region, abs);
            let start = (abs - 2 - len) as nat;
            lemma_between_boundaries(start as int, len as int, q, region.len() as int);
            lemma_no_wrap(valid, region, low, start, q);
        } else {
            lemma_no_wrap(valid, region, low, (abs - 1) as nat, q);
        }
    }
}

/// At most one record of a walk wraps the physical boundary of the ring.
pub proof fn law_walk_wraps_at_most_once(
    valid: spec_fn(Seq<u8>) -> bool,
    region: Seq<u8>,
    low: nat,
    abs: nat,
)
    requires
        region.len() > 0,
        abs <= low + region.len(),
    ensures
        forall|i: int, j: int|
            #![trigger walk_from(valid, region, low, abs)[i], walk_from(valid, region, low, abs)[j]]
            0 <= i < j < walk_from(valid, region, low, abs).len() ==> walk_from(
                valid,
                region,
                low,
                abs,
            )[i].at is Some || walk_from(valid, region, low, abs)[j].at is Some,
    decreases abs,
{
    let c = region.len() as int;
    if low + 2 <= abs {
        if is_candidate(region, low, abs) && valid(candidate(region, abs)) {
            let len = suffix_len(region, abs);
            let start = (abs - 2 - len) as nat;
            let rest = walk_from(valid, region, low, start);
            let all = walk_from(valid, region, low, abs);
            assert(all == seq![candidate_record(region, abs)] + rest);
            law_walk_wraps_at_most_once(valid, region, low, start);
            assert forall|i: int, j: int|
                #![trigger all[i], all[j]]
                0 <= i < j < all.len() implies all[i].at is Some || all[j].at is Some by {
                assert(all[j] == rest[j - 1]);
                if i == 0 {
                    if all[0].at is None {
                        lemma_fundamental_div_mod(start as int, c);
                        let q = start as int / c;
                        assert(c * q == q * c) by (nonlinear_arith);
                        assert((q + 1) * c == q * c + c) by (nonlinear_arith);
                        vstd::arithmetic::div_mod::lemma_mod_bound(start as int, c);
                        lemma_no_wrap(valid, region, low, start, q);
                    }
                } else {
                    assert(all[i] == rest[i - 1]);
                }
            }
        } else {
            law_walk_wraps_at_most_once(valid, region, low, (abs - 1) as nat);
        }
    }
}

/// A record of a walk stands at the place of an absolute offset that the walk passed.
proof fn lemma_walk_starts(valid: spec_fn(Seq<u8>) -> bool, region: Seq<u8>, low: nat, abs: nat, i: int)
    requires
        region.len() > 0,
        0 <= i < walk_from(valid, region, low, abs).len(),
    ensures
        walk_from(valid, region, low, abs)[i].at matches Some(p) ==> exists|st: int|
            low <= st < abs && p == #[trigger] (st % region.len() as int),
    decreases abs,
{
    if is_candidate(region, low, abs) && valid(candidate(region, abs)) {
        let start = (abs - 2 - suffix_len(region, abs)) as nat;
        let rest = walk_from(valid, region, low, start);
        let all = walk_from(valid, region, low, abs);
        if i > 0 {
            assert(all[i] == rest[i - 1]);
            lemma_walk_starts(valid, region, low, start, i - 1);
        } else {
            assert(all[0] == candidate_record(region, abs));
            assert(low <= start as int && (start as int) < abs);
            vstd::arithmetic::div_mod::lemma_mod_bound(start as int, region.len() as int);
        }
    } else {
        lemma_walk_starts(valid, region, low, (abs - 1) as nat, i);
    }
}

/// No two records of a walk stand at the same place of the ring.
pub proof fn law_walk_places_distinct(
    valid: spec_fn(Seq<u8>) -> bool,
    region: Seq<u8>,
    low: nat,
    abs: nat,
)
    requires
        region.len() > 0,
        abs <= low + region.len(),
    ensures
        forall|i: int, j: int|
            #![trigger walk_from(valid, region, low, abs)[i], walk_from(valid, region, low, abs)[j]]
            0 <= i < j < walk_from(valid, region, low, abs).len() ==> walk_from(
                valid,
                region,
                low,
                abs,
            )[i].at != walk_from(valid, region, low, abs)[j].at,
    decreases abs,
{
    let c = region.len() as int;
    law_walk_wraps_at_most_once(valid, region, low, abs);
    if low + 2 <= abs {
        if is_candidate(region, low, abs) && valid(candidate(region, abs)) {
            let start = (abs - 2 - suffix_len(region, abs)) as nat;
            let rest = walk_from(valid, region, low, start);
            let all = walk_from(valid, region, low, abs);
            assert(all == seq![candidate_record(region, abs)] + rest);
            law_walk_places_distinct(valid, region, low, start);
            assert forall|i: int, j: int|
                #![trigger all[i], all[j]]
                0 <= i < j < all.len() implies all[i].at != all[j].at by {
                assert(all[j] == rest[j - 1]);
                if i == 0 {
                    if all[0].at is Some && all[j].at is Some {
                        lemma_walk_starts(valid, region, low, start, j - 1);
                        let st = choose|st: int|
                            low <= st < start && all[j].at->0 == #[trigger] (st % c);
                        lemma_mod_step_on(st, start - st, c);
                        vstd::arithmetic::div_mod::lemma_mod_bound(start as int, c);
                    } else {
                        assert(all[i].at is Some || all[j].at is Some);
                    }
                } else {
                    assert(all[i] == rest[i - 1]);
                }
            }
        } else {
            law_walk_places_distinct(valid, region, low, (abs - 1) as nat);
        }
    }
}

/// A walk right after a push starts with the record that was pushed, whatever the ring held before,
/// unless the ring's counter goes round with it.
pub proof fn law_walk_starts_at_newest(
    valid: spec_fn(Seq<u8>) -> bool,
    r: RingView,
    payload: Seq<u8>,
)
    requires
        is_pow2(r.region.len() as int),
        payload.len() <= 65535,
        payload.len() + 2 <= r.region.len(),
        r.head + payload.len() + 2 <= usize::MAX,
        valid(payload),
    ensures
        ({
            let after = ring_push(r, payload);
            let walk = walk_all(valid, after.region, after.head, r.region.len());
            walk.len() > 0 && walk[0].payload == payload
        }),
{
    let after = ring_push(r, payload);
    let low = valid_low(after.head, r.region.len());
    lemma_le_bytes_len(payload.len(), 2);
    lemma_ring_read_written(r.region, r.head as int, framed(payload));
    assert(after.head - payload.len() - 2 == r.head);
    lemma_candidate(after.region, low, after.head, payload);
}

} // verus!
