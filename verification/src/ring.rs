//! A bump-allocating ring buffer: the per-shard capture store.
//!
//! Records are self-delimiting: each is stored as its payload bytes followed by a little-endian
//! two-byte suffix holding the payload's length. A reader recovers records newest-first by reading
//! the suffix at the head, stepping back over the payload, and repeating ([`walk`]). New records
//! overwrite the oldest ones, and a snapshot may hold a record that was still being written, so the
//! walk checks every candidate with a validator and steps back one byte where it says no.

use crate::buf::{bytes_as_slice, bytes_from_vec, bytes_of, bytes_slice};
use crate::event::Event;
use crate::id::EventId;
use crate::le::{
    get_le, le_bytes, le_value, lemma_le_bytes_len, lemma_le_value_bound, lemma_pow256_values,
    put_le,
};
use bytes::Bytes;
use vstd::arithmetic::div_mod::{lemma_fundamental_div_mod, lemma_fundamental_div_mod_converse_mod};
use vstd::arithmetic::power2::is_pow2;
use vstd::prelude::*;

verus! {

/// Number of bytes occupied by the trailing length suffix.
pub const LEN_SUFFIX: usize = 2;

/// The largest payload a single record may hold.
pub const MAX_RECORD: usize = 65535;

/// The value of a ring: its bytes and the count of bytes ever written to it, as far as the machine
/// counts.
#[verifier::ext_equal]
pub struct RingView {
    pub region: Seq<u8>,
    pub head: nat,
}

/// A record as it stands in a ring: payload, then length suffix.
pub open spec fn framed(payload: Seq<u8>) -> Seq<u8> {
    payload + le_bytes(payload.len(), 2)
}

/// The `n` bytes of a ring at absolute offset `abs`.
pub open spec fn ring_read(region: Seq<u8>, abs: int, n: nat) -> Seq<u8> {
    Seq::new(n, |i: int| region[(abs + i) % (region.len() as int)])
}

/// A ring after `src` has been written at absolute offset `abs`.
pub open spec fn ring_write(region: Seq<u8>, abs: int, src: Seq<u8>) -> Seq<u8> {
    Seq::new(
        region.len(),
        |i: int|
            if (i - abs) % (region.len() as int) < src.len() {
                src[(i - abs) % (region.len() as int)]
            } else {
                region[i]
            },
    )
}

/// A count of bytes after `n` more; it goes round where the machine's counter does.
pub open spec fn count_on(head: nat, n: nat) -> nat {
    if head + n <= usize::MAX {
        head + n
    } else {
        (head + n - usize::MAX - 1) as nat
    }
}

/// A ring after one record has been pushed.
pub open spec fn ring_push(r: RingView, payload: Seq<u8>) -> RingView {
    RingView {
        region: ring_write(r.region, r.head as int, framed(payload)),
        head: count_on(r.head, payload.len() + 2),
    }
}

/// The ring takes a record with the given payload: its length can be written, and it fits.
pub open spec fn ring_takes(r: RingView, payload: Seq<u8>) -> bool {
    payload.len() <= MAX_RECORD && payload.len() + 2 <= r.region.len()
}

/// A fresh ring.
pub open spec fn ring_empty(capacity: nat) -> RingView {
    RingView { region: Seq::new(capacity, |i: int| 0u8), head: 0 }
}

/// Several byte strings, one after the other.
pub open spec fn flat(parts: Seq<Seq<u8>>) -> Seq<u8>
    decreases parts.len(),
{
    if parts.len() == 0 {
        Seq::empty()
    } else {
        flat(parts.drop_last()) + parts.last()
    }
}

/// The contents of a run of slices.
pub open spec fn parts_view(parts: Seq<&[u8]>) -> Seq<Seq<u8>> {
    parts.map_values(|p: &[u8]| p@)
}

// ---------------------------------------------------------------------------
// Modular arithmetic of ring offsets.
// ---------------------------------------------------------------------------

/// The remainder of `x - p` from that of `x`, for a step of at most one turn.
pub proof fn lemma_mod_step_back(x: int, p: int, c: int)
    requires
        0 < c,
        0 <= p <= c,
    ensures
        x % c >= p ==> (x - p) % c == x % c - p,
        x % c < p ==> (x - p) % c == x % c - p + c,
{
    lemma_fundamental_div_mod(x, c);
    let q = x / c;
    let d = x % c;
    assert(c * q == q * c) by (nonlinear_arith);
    if d >= p {
        lemma_fundamental_div_mod_converse_mod(x - p, c, q, d - p);
    } else {
        assert((q - 1) * c == q * c - c) by (nonlinear_arith);
        lemma_fundamental_div_mod_converse_mod(x - p, c, q - 1, d - p + c);
    }
}

/// The remainder of `x + p` from that of `x`, for a step of less than one turn.
pub proof fn lemma_mod_step_on(x: int, p: int, c: int)
    requires
        0 < c,
        0 <= p < c,
    ensures
        x % c + p < c ==> (x + p) % c == x % c + p,
        x % c + p >= c ==> (x + p) % c == x % c + p - c,
{
    lemma_fundamental_div_mod(x, c);
    let q = x / c;
    let d = x % c;
    assert(c * q == q * c) by (nonlinear_arith);
    if d + p < c {
        lemma_fundamental_div_mod_converse_mod(x + p, c, q, d + p);
    } else {
        assert((q + 1) * c == q * c + c) by (nonlinear_arith);
        lemma_fundamental_div_mod_converse_mod(x + p, c, q + 1, d + p - c);
    }
}

/// A number below the divisor is its own remainder.
pub proof fn lemma_mod_small(x: int, c: int)
    requires
        0 <= x < c,
    ensures
        x % c == x,
{
    lemma_fundamental_div_mod_converse_mod(x, c, 0, x);
}

/// The distance, going round, from `abs` to the place of `abs + i` is `i`.
pub proof fn lemma_mod_distance(abs: int, i: int, c: int)
    requires
        0 < c,
        0 <= i < c,
    ensures
        0 <= (abs + i) % c < c,
        ((abs + i) % c - abs) % c == i,
{
    let x = abs + i;
    lemma_fundamental_div_mod(x, c);
    let q = x / c;
    assert(c * q == q * c) by (nonlinear_arith);
    assert((-q) * c == -(q * c)) by (nonlinear_arith);
    lemma_fundamental_div_mod_converse_mod(x % c - abs, c, -q, i);
}

/// Writing two runs of bytes one behind the other writes their concatenation.
pub proof fn lemma_ring_write_concat(region: Seq<u8>, abs: int, a: Seq<u8>, b: Seq<u8>)
    requires
        a.len() + b.len() <= region.len(),
    ensures
        ring_write(ring_write(region, abs, a), abs + a.len(), b) == ring_write(region, abs, a + b),
{
    let c = region.len() as int;
    let lhs = ring_write(ring_write(region, abs, a), abs + a.len(), b);
    let rhs = ring_write(region, abs, a + b);
    assert forall|i: int| 0 <= i < c implies lhs[i] == rhs[i] by {
        lemma_mod_step_back(i - abs, a.len() as int, c);
        assert(i - abs - a.len() == i - (abs + a.len()));
    }
    assert(lhs =~= rhs);
}

/// A power of two divides a larger one.
proof fn lemma_pow2_divides(c: int, m: int) -> (q: int)
    requires
        is_pow2(c),
        is_pow2(m),
        c <= m,
    ensures
        m == q * c,
    decreases c,
{
    reveal(is_pow2);
    if c == 1 {
        m
    } else {
        let q = lemma_pow2_divides(c / 2, m / 2);
        assert(m == q * c) by (nonlinear_arith)
            requires
                m / 2 == q * (c / 2),
                m % 2 == 0,
                c % 2 == 0,
        ;
        q
    }
}

/// The counter of the machine goes round at a power of two.
proof fn lemma_count_is_pow2()
    ensures
        is_pow2(usize::MAX + 1),
{
    reveal_with_fuel(is_pow2, 66);
    assert(usize::MAX + 1 == 0x1_0000_0000 || usize::MAX + 1 == 0x1_0000_0000_0000_0000);
}

/// A write at an offset that has gone round the counter is the write at the offset.
proof fn lemma_ring_write_round(region: Seq<u8>, abs: int, src: Seq<u8>)
    requires
        is_pow2(region.len() as int),
        region.len() <= usize::MAX,
    ensures
        ring_write(region, abs - (usize::MAX + 1), src) == ring_write(region, abs, src),
{
    let c = region.len() as int;
    lemma_count_is_pow2();
    let q = lemma_pow2_divides(c, usize::MAX + 1);
    let lhs = ring_write(region, abs - (usize::MAX + 1), src);
    let rhs = ring_write(region, abs, src);
    assert forall|i: int| 0 <= i < c implies lhs[i] == rhs[i] by {
        lemma_fundamental_div_mod(i - abs, c);
        let d = (i - abs) / c;
        assert(c * d == d * c) by (nonlinear_arith);
        assert((d + q) * c == d * c + q * c) by (nonlinear_arith);
        lemma_fundamental_div_mod_converse_mod(
            i - (abs - (usize::MAX + 1)),
            c,
            d + q,
            (i - abs) % c,
        );
    }
    assert(lhs =~= rhs);
}

/// What was written reads back.
pub proof fn lemma_ring_read_written(region: Seq<u8>, abs: int, src: Seq<u8>)
    requires
        src.len() <= region.len(),
    ensures
        ring_read(ring_write(region, abs, src), abs, src.len()) == src,
{
    let c = region.len() as int;
    let got = ring_read(ring_write(region, abs, src), abs, src.len());
    assert forall|i: int| 0 <= i < src.len() implies got[i] == src[i] by {
        lemma_mod_distance(abs, i, c);
    }
    assert(got =~= src);
}

/// A write leaves the bytes behind it alone, up to one turn.
pub proof fn lemma_ring_read_behind(region: Seq<u8>, abs: int, src: Seq<u8>, m: nat)
    requires
        m + src.len() <= region.len(),
    ensures
        ring_read(ring_write(region, abs, src), abs - m, m) == ring_read(region, abs - m, m),
{
    let c = region.len() as int;
    let got = ring_read(ring_write(region, abs, src), abs - m, m);
    let want = ring_read(region, abs - m, m);
    assert forall|i: int| 0 <= i < m implies got[i] == want[i] by {
        let at = (abs - m + i) % c;
        lemma_mod_distance(abs - m, i, c);
        lemma_mod_step_back(at - (abs - m), m as int, c);
        assert(at - (abs - m) - m == at - abs);
    }
    assert(got =~= want);
}

/// Reading two neighbouring runs reads their concatenation.
pub proof fn lemma_ring_read_concat(region: Seq<u8>, abs: int, m: nat, n: nat)
    ensures
        ring_read(region, abs, m + n) == ring_read(region, abs, m) + ring_read(region, abs + m, n),
{
    assert(ring_read(region, abs, m + n) =~= ring_read(region, abs, m) + ring_read(
        region,
        abs + m,
        n,
    ));
}

// ---------------------------------------------------------------------------
// The ring.
// ---------------------------------------------------------------------------

/// A fixed-capacity, bump-allocating ring buffer.
pub struct Ring {
    /// Backing storage; its length, a power of two, is the capacity.
    buf: Vec<u8>,
    /// The count of bytes ever reserved, going round where the machine's counter does.
    offset: usize,
}

impl View for Ring {
    type V = RingView;

    closed spec fn view(&self) -> RingView {
        RingView { region: self.buf@, head: self.offset as nat }
    }
}

/// The first of `c`, `2c`, `4c`, … that is not below `n`.
pub open spec fn doubled_from(c: nat, n: nat) -> nat
    decreases 2 * n - c,
{
    if c == 0 || c >= n {
        c
    } else {
        doubled_from(2 * c, n)
    }
}

/// The smallest power of two that is not below `n`: the capacity of a ring for `n` bytes.
pub open spec fn pow2_for(n: nat) -> nat {
    doubled_from(1, n)
}

/// Doubling from a power of two gives a power of two that is not below `n`, and the smallest.
pub proof fn lemma_doubled_from(c: nat, n: nat)
    requires
        is_pow2(c as int),
        c < 2 * n || c == 1,
    ensures
        is_pow2(doubled_from(c, n) as int),
        n <= doubled_from(c, n),
        doubled_from(c, n) >= c,
        doubled_from(c, n) < 2 * n || doubled_from(c, n) == 1,
    decreases 2 * n - c,
{
    reveal(is_pow2);
    if c < n {
        assert(is_pow2((2 * c) as int)) by {
            assert((2 * c) as int / 2 == c);
        }
        lemma_doubled_from(2 * c, n);
    }
}

/// The smallest power of two that is not below `n`, if this machine can count it.
pub(crate) fn checked_power_of_two(n: usize) -> (c: Option<usize>)
    ensures
        match c {
            Some(c) => c == pow2_for(n as nat) && is_pow2(c as int) && n <= c,
            None => pow2_for(n as nat) > usize::MAX,
        },
{
    let mut c: usize = 1;
    assert(is_pow2(1)) by {
        reveal(is_pow2);
    }
    proof {
        lemma_doubled_from(1, n as nat);
    }
    while c < n
        invariant
            0 < c,
            is_pow2(c as int),
            c < 2 * n || c == 1,
            pow2_for(n as nat) == doubled_from(c as nat, n as nat),
        decreases 2 * n - c,
    {
        proof {
            lemma_doubled_from(c as nat, n as nat);
            assert(is_pow2(2 * c as int)) by {
                reveal(is_pow2);
                assert((2 * c as int) / 2 == c);
            }
            lemma_doubled_from((2 * c) as nat, n as nat);
        }
        match c.checked_mul(2) {
            Some(d) => {
                c = d;
            },
            None => return None,
        }
    }
    Some(c)
}

/// The smallest power of two that is not below `n`.
fn next_power_of_two(n: usize) -> (c: usize)
    requires
        0 < n <= isize::MAX / 2 + 1,
    ensures
        c == pow2_for(n as nat),
        is_pow2(c as int),
        n <= c < 2 * n,
{
    proof {
        assert(is_pow2(1)) by {
            reveal(is_pow2);
        }
        lemma_doubled_from(1, n as nat);
    }
    match checked_power_of_two(n) {
        Some(c) => c,
        None => n,
    }
}

impl Ring {
    #[verifier::type_invariant]
    spec fn inv(self) -> bool {
        is_pow2(self.buf@.len() as int)
    }

    /// Creates a ring with capacity `requested` rounded up to the next power of two. A capacity of
    /// zero, or one that no allocation can hold, is ruled out.
    pub fn new(requested: usize) -> (r: Self)
        requires
            0 < requested <= isize::MAX / 2 + 1,
        ensures
            is_pow2(r@.region.len() as int),
            requested <= r@.region.len() < 2 * requested,
            r@ == ring_empty(pow2_for(requested as nat)),
    {
        let capacity: usize = next_power_of_two(requested);
        let r = Ring { buf: vec![0u8; capacity], offset: 0 };
        assert(r@ =~= ring_empty(pow2_for(requested as nat)));
        r
    }

    /// The physical capacity in bytes (a power of two).
    pub fn capacity(&self) -> (c: usize)
        ensures
            c == self@.region.len(),
            is_pow2(c as int),
    {
        proof {
            use_type_invariant(self);
        }
        self.buf.len()
    }

    /// The current write head: the total number of bytes ever reserved, as far as the machine
    /// counts.
    pub fn head(&self) -> (h: usize)
        ensures
            h == self@.head,
    {
        self.offset
    }

    /// Appends `payload` as a single record and returns its starting absolute offset. The payload
    /// must not be longer than [`MAX_RECORD`], and the whole record must fit in the ring.
    pub fn push(&mut self, payload: &[u8]) -> (start: usize)
        requires
            ring_takes(old(self)@, payload@),
        ensures
            start == old(self)@.head,
            final(self)@ == ring_push(old(self)@, payload@),
    {
        let start: usize = self.offset;
        let mut suffix: Vec<u8> = Vec::new();
        put_le(&mut suffix, payload.len() as u64, 2);
        proof {
            lemma_le_bytes_len(payload@.len(), 2);
            assert(suffix@ =~= le_bytes(payload@.len(), 2));
            lemma_ring_write_concat(
                self@.region,
                start as int,
                payload@,
                le_bytes(payload@.len(), 2),
            );
        }
        self.write_on(start, 0, payload);
        self.write_on(start, payload.len(), suffix.as_slice());
        proof {
            use_type_invariant(&*self);
        }
        self.offset = start.wrapping_add(payload.len() + LEN_SUFFIX);
        start
    }

    /// Records an [`Event`] as a single `[event_id: u64 LE][fields…]` record and returns the
    /// record's starting absolute offset. Panics are ruled out as for [`push`](Self::push).
    pub fn push_event<E: Event>(&mut self, event: &E) -> (start: usize)
        requires
            call_requires(E::id, ()),
            call_requires(E::as_bytes, (event,)),
            forall|b: &[u8]| #[trigger]
                call_ensures(E::as_bytes, (event,), b) ==> b@.len() + 8 <= MAX_RECORD && b@.len()
                    + 10 <= old(self)@.region.len(),
        ensures
            start == old(self)@.head,
            exists|id: EventId, b: &[u8]|
                #![trigger call_ensures(E::id, (), id), call_ensures(E::as_bytes, (event,), b)]
                call_ensures(E::id, (), id) && call_ensures(E::as_bytes, (event,), b)
                    && final(self)@ == ring_push(old(self)@, le_bytes(id.0 as nat, 8) + b@),
    {
        let id = E::id();
        let mut prefix: Vec<u8> = Vec::new();
        put_le(&mut prefix, id.get(), 8);
        let fields = event.as_bytes();
        let parts: [&[u8]; 2] = [prefix.as_slice(), fields];
        proof {
            assert(call_ensures(E::as_bytes, (event,), fields));
            assert(prefix@ =~= le_bytes(id.0 as nat, 8));
            lemma_le_bytes_len(id.0 as nat, 8);
            let view = parts_view(parts@);
            assert(view =~= seq![prefix@, fields@]);
            assert(view.drop_last() =~= seq![prefix@]);
            assert(view.drop_last().drop_last() =~= Seq::<Seq<u8>>::empty());
            reveal_with_fuel(flat, 3);
            assert(flat(view) =~= le_bytes(id.0 as nat, 8) + fields@);
        }
        self.push_parts(&parts)
    }

    /// Appends one record formed by concatenating `parts` and returns its starting absolute
    /// offset. Panics are ruled out as for [`push`](Self::push).
    pub fn push_parts(&mut self, parts: &[&[u8]]) -> (start: usize)
        requires
            ring_takes(old(self)@, flat(parts_view(parts@))),
        ensures
            start == old(self)@.head,
            final(self)@ == ring_push(old(self)@, flat(parts_view(parts@))),
    {
        let start: usize = self.offset;
        let ghost view = parts_view(parts@);
        let ghost region = self@.region;
        let mut payload_len: usize = 0;
        let mut i: usize = 0;
        proof {
            assert(view.take(0) =~= Seq::<Seq<u8>>::empty());
            lemma_ring_write_nothing(region, start as int);
        }
        while i < parts.len()
            invariant
                i <= parts@.len(),
                view == parts_view(parts@),
                flat(view).len() <= MAX_RECORD,
                flat(view).len() + 2 <= region.len(),
                self@.head == start,
                payload_len == flat(view.take(i as int)).len(),
                self@.region == ring_write(region, start as int, flat(view.take(i as int))),
            decreases parts@.len() - i,
        {
            proof {
                assert(view.take(i + 1).drop_last() =~= view.take(i as int));
                assert(view[i as int] == parts@[i as int]@);
                lemma_flat_prefix(view, i + 1);
                lemma_ring_write_concat(
                    region,
                    start as int,
                    flat(view.take(i as int)),
                    view[i as int],
                );
            }
            self.write_on(start, payload_len, parts[i]);
            payload_len = payload_len + parts[i].len();
            i = i + 1;
        }
        let mut suffix: Vec<u8> = Vec::new();
        put_le(&mut suffix, payload_len as u64, 2);
        proof {
            assert(view.take(i as int) =~= view);
            lemma_le_bytes_len(payload_len as nat, 2);
            assert(suffix@ =~= le_bytes(payload_len as nat, 2));
            lemma_ring_write_concat(
                region,
                start as int,
                flat(view),
                le_bytes(payload_len as nat, 2),
            );
        }
        self.write_on(start, payload_len, suffix.as_slice());
        proof {
            use_type_invariant(&*self);
        }
        self.offset = start.wrapping_add(payload_len + LEN_SUFFIX);
        start
    }

    /// Copies `src` into the ring `n` bytes behind absolute offset `abs`.
    fn write_on(&mut self, abs: usize, n: usize, src: &[u8])
        requires
            src@.len() <= old(self)@.region.len(),
        ensures
            final(self)@.region == ring_write(old(self)@.region, abs + n, src@),
            final(self)@.head == old(self)@.head,
    {
        proof {
            use_type_invariant(&*self);
            assert(self.buf.len() == self@.region.len());
            lemma_ring_write_round(self@.region, abs + n, src@);
        }
        self.write_wrapping(abs.wrapping_add(n), src);
    }

    /// Copies `src` into the ring starting at absolute offset `abs`, wrapping once at the boundary.
    fn write_wrapping(&mut self, abs: usize, src: &[u8])
        requires
            src@.len() <= old(self)@.region.len(),
        ensures
            final(self)@.region == ring_write(old(self)@.region, abs as int, src@),
            final(self)@.head == old(self)@.head,
    {
        proof {
            use_type_invariant(&*self);
            reveal(is_pow2);
        }
        let capacity: usize = self.buf.len();
        let mut at: usize = abs % capacity;
        let ghost region = self@.region;
        proof {
            assert(src@.take(0) =~= Seq::<u8>::empty());
            lemma_ring_write_nothing(region, abs as int);
        }
        let mut i: usize = 0;
        while i < src.len()
            invariant
                i <= src@.len() <= capacity,
                capacity == self.buf@.len() == region.len(),
                is_pow2(capacity as int),
                at < capacity,
                i < src@.len() ==> at == (abs + i) % capacity as int,
                self@.region == ring_write(region, abs as int, src@.take(i as int)),
                self@.head == old(self)@.head,
            decreases src@.len() - i,
        {
            proof {
                assert(src@.take(i + 1) =~= src@.take(i as int) + seq![src@[i as int]]);
                lemma_ring_write_concat(
                    region,
                    abs as int,
                    src@.take(i as int),
                    seq![src@[i as int]],
                );
                lemma_ring_write_one(self@.region, abs + i, src@[i as int]);
                if i + 1 < capacity {
                    lemma_mod_step_on(abs + i, 1, capacity as int);
                }
            }
            self.buf[at] = src[i];
            at = if at + 1 == capacity {
                0
            } else {
                at + 1
            };
            i = i + 1;
        }
        assert(src@.take(i as int) =~= src@);
    }

    /// Copies the entire ring region into `out` (which must be `capacity()` long) and returns the
    /// current head.
    pub fn snapshot_into(&self, out: &mut [u8]) -> (head: usize)
        requires
            old(out)@.len() == self@.region.len(),
        ensures
            final(out)@ == self@.region,
            head == self@.head,
    {
        let mut i: usize = 0;
        while i < self.buf.len()
            invariant
                i <= self.buf@.len() == out@.len(),
                self@.region == self.buf@,
                forall|k: int| 0 <= k < i ==> out@[k] == self.buf@[k],
            decreases self.buf@.len() - i,
        {
            out[i] = self.buf[i];
            i = i + 1;
        }
        assert(out@ =~= self@.region);
        self.offset
    }
}

/// The first parts are no longer than all of them.
proof fn lemma_flat_prefix(parts: Seq<Seq<u8>>, i: int)
    requires
        0 <= i <= parts.len(),
    ensures
        flat(parts.take(i)).len() <= flat(parts).len(),
    decreases parts.len(),
{
    if i < parts.len() {
        assert(parts.drop_last().take(i) =~= parts.take(i));
        lemma_flat_prefix(parts.drop_last(), i);
    } else {
        assert(parts.take(i) =~= parts);
    }
}

/// Writing nothing changes nothing.
proof fn lemma_ring_write_nothing(region: Seq<u8>, abs: int)
    ensures
        ring_write(region, abs, Seq::empty()) == region,
{
    assert forall|k: int| 0 <= k < region.len() implies ring_write(
        region,
        abs,
        Seq::<u8>::empty(),
    )[k] == region[k] by {
        vstd::arithmetic::div_mod::lemma_mod_bound(k - abs, region.len() as int);
    }
    assert(ring_write(region, abs, Seq::empty()) =~= region);
}

/// Writing one byte updates one place.
proof fn lemma_ring_write_one(region: Seq<u8>, abs: int, b: u8)
    requires
        region.len() > 0,
    ensures
        ring_write(region, abs, seq![b]) == region.update(abs % (region.len() as int), b),
{
    let c = region.len() as int;
    let at = abs % c;
    lemma_mod_distance(abs, 0, c);
    assert forall|k: int| 0 <= k < c implies ring_write(region, abs, seq![b])[k] == region.update(
        at,
        b,
    )[k] by {
        vstd::arithmetic::div_mod::lemma_mod_bound(k - abs, c);
        if (k - abs) % c == 0 {
            lemma_mod_small(k, c);
            lemma_mod_step_back(k, 0, c);
            lemma_fundamental_div_mod(k - abs, c);
            let q = (k - abs) / c;
            lemma_fundamental_div_mod(abs, c);
            let p = abs / c;
            assert(k == c * (p + q) + at) by (nonlinear_arith)
                requires
                    k - abs == c * q + 0,
                    abs == c * p + at,
            ;
            assert(c * (p + q) == (p + q) * c) by (nonlinear_arith);
            lemma_fundamental_div_mod_converse_mod(k, c, p + q, at);
            assert(k == at);
        }
    }
    assert(ring_write(region, abs, seq![b]) =~= region.update(at, b));
}

// ---------------------------------------------------------------------------
// Walking a snapshot.
// ---------------------------------------------------------------------------

/// A record that a walk accepted: its payload and, unless it wraps the physical boundary, the
/// place in the region where the payload begins.
#[verifier::ext_equal]
pub struct WalkedView {
    pub payload: Seq<u8>,
    pub at: Option<nat>,
}

/// A record that a walk accepted.
#[derive(Clone, Debug)]
pub struct Walked {
    /// The record's payload, without the length suffix.
    pub payload: Bytes,
    /// Where in the region the payload begins, when it is contiguous there; `None` for the
    /// at-most-one record that wraps the physical boundary.
    pub offset: Option<usize>,
}

impl View for Walked {
    type V = WalkedView;

    open spec fn view(&self) -> WalkedView {
        WalkedView {
            payload: bytes_of(self.payload),
            at: match self.offset {
                Some(o) => Some(o as nat),
                None => None,
            },
        }
    }
}

/// The values of a run of walked records.
pub open spec fn walked_view(v: Seq<Walked>) -> Seq<WalkedView> {
    v.map_values(|w: Walked| w@)
}

/// The payloads of a run of walked records.
pub open spec fn payloads(v: Seq<WalkedView>) -> Seq<Seq<u8>> {
    v.map_values(|w: WalkedView| w.payload)
}

/// The oldest absolute offset that a ring of the given capacity and head still holds.
pub open spec fn valid_low(head: nat, capacity: nat) -> nat {
    if head >= capacity {
        (head - capacity) as nat
    } else {
        0
    }
}

/// The length that the suffix ending at `abs` announces.
pub open spec fn suffix_len(region: Seq<u8>, abs: nat) -> nat {
    le_value(ring_read(region, abs - 2, 2))
}

/// Whether a record of the announced length can end at `abs` without leaving the valid region.
pub open spec fn is_candidate(region: Seq<u8>, low: nat, abs: nat) -> bool {
    low + 2 <= abs && low + suffix_len(region, abs) + 2 <= abs
}

/// The payload of the candidate that ends at `abs`.
pub open spec fn candidate(region: Seq<u8>, abs: nat) -> Seq<u8> {
    ring_read(region, abs - 2 - suffix_len(region, abs), suffix_len(region, abs))
}

/// The candidate that ends at `abs`, with its place.
pub open spec fn candidate_record(region: Seq<u8>, abs: nat) -> WalkedView {
    let len = suffix_len(region, abs);
    let begin = (abs - 2 - len) % (region.len() as int);
    WalkedView {
        payload: candidate(region, abs),
        at: if begin + len <= region.len() {
            Some(begin as nat)
        } else {
            None
        },
    }
}

/// The records that a walk with the validator `valid` accepts from `abs` down to `low`, newest
/// first. A candidate that is no record, or that the validator rejects, costs one byte.
pub open spec fn walk_from(
    valid: spec_fn(Seq<u8>) -> bool,
    region: Seq<u8>,
    low: nat,
    abs: nat,
) -> Seq<WalkedView>
    decreases abs,
{
    if abs < low + 2 {
        Seq::empty()
    } else if is_candidate(region, low, abs) && valid(candidate(region, abs)) {
        seq![candidate_record(region, abs)] + walk_from(
            valid,
            region,
            low,
            (abs - 2 - suffix_len(region, abs)) as nat,
        )
    } else {
        walk_from(valid, region, low, (abs - 1) as nat)
    }
}

/// What a walk of a whole snapshot accepts: nothing where the region is not `capacity` bytes long
/// or the capacity is no power of two.
pub open spec fn walk_all(
    valid: spec_fn(Seq<u8>) -> bool,
    region: Seq<u8>,
    head: nat,
    capacity: nat,
) -> Seq<WalkedView> {
    if region.len() == capacity && is_pow2(capacity as int) {
        walk_from(valid, region, valid_low(head, capacity), head)
    } else {
        Seq::empty()
    }
}

/// The function `f` answers as the predicate `valid` does.
pub open spec fn decides<F: Fn(&[u8]) -> bool>(f: F, valid: spec_fn(Seq<u8>) -> bool) -> bool {
    forall|s: &[u8], r: bool| #[trigger] call_ensures(f, (s,), r) ==> r == valid(s@)
}

/// Whether `n` is a power of two.
fn is_power_of_two(n: usize) -> (r: bool)
    ensures
        r == is_pow2(n as int),
{
    if n == 0 {
        assert(!is_pow2(0)) by {
            reveal(is_pow2);
        }
        return false;
    }
    let mut c: usize = n;
    while c % 2 == 0
        invariant
            c > 0,
            is_pow2(c as int) == is_pow2(n as int),
        decreases c,
    {
        assert(is_pow2(c as int) == is_pow2(c as int / 2)) by {
            reveal(is_pow2);
        }
        c = c / 2;
    }
    assert(is_pow2(c as int) == (c == 1)) by {
        reveal(is_pow2);
    }
    c == 1
}

/// Copies the `n` bytes of a ring region at absolute offset `abs`.
fn read_wrapping(region: &[u8], abs: usize, n: usize) -> (out: Vec<u8>)
    requires
        n <= region@.len(),
        region@.len() > 0,
    ensures
        out@ == ring_read(region@, abs as int, n as nat),
{
    let capacity: usize = region.len();
    let mut out: Vec<u8> = Vec::new();
    let mut at: usize = abs % capacity;
    let mut i: usize = 0;
    while i < n
        invariant
            i <= n <= capacity == region@.len(),
            at < capacity,
            i < n ==> at == (abs + i) % capacity as int,
            out@.len() == i,
            forall|k: int|
                0 <= k < i ==> out@[k] == #[trigger] ring_read(region@, abs as int, n as nat)[k],
        decreases n - i,
    {
        proof {
            if i + 1 < capacity {
                lemma_mod_step_on(abs + i, 1, capacity as int);
            }
        }
        out.push(region[at]);
        at = if at + 1 == capacity {
            0
        } else {
            at + 1
        };
        i = i + 1;
    }
    assert(out@ =~= ring_read(region@, abs as int, n as nat));
    out
}

/// A read that does not cross the physical boundary is a slice of the region.
pub proof fn lemma_read_contiguous(region: Seq<u8>, abs: int, n: nat)
    requires
        region.len() > 0,
        abs % (region.len() as int) + n <= region.len(),
    ensures
        ring_read(region, abs, n) == region.subrange(
            abs % (region.len() as int),
            abs % (region.len() as int) + n,
        ),
{
    let c = region.len() as int;
    let b = abs % c;
    vstd::arithmetic::div_mod::lemma_mod_bound(abs, c);
    assert forall|i: int| 0 <= i < n implies ring_read(region, abs, n)[i] == region.subrange(
        b,
        b + n,
    )[i] by {
        lemma_mod_step_on(abs, i, c);
    }
    assert(ring_read(region, abs, n) =~= region.subrange(b, b + n));
}

/// Walks a ring snapshot newest-first and gives the payloads that the validator `f` accepts,
/// resynchronizing byte by byte where it rejects a candidate. `head` is the value returned by
/// [`Ring::snapshot_into`].
///
/// A snapshot is taken while writers race, so the bytes just behind `head` may be a record that is
/// still mid-copy. A validator that recognizes real records rejects it, and the walk goes on to the
/// records behind it.
pub fn walk<F: Fn(&[u8]) -> bool>(
    region: &Bytes,
    head: usize,
    capacity: usize,
    f: F,
) -> (out: Vec<Bytes>)
    requires
        forall|s: &[u8]| #[trigger] call_requires(f, (s,)),
    ensures
        forall|valid: spec_fn(Seq<u8>) -> bool| #[trigger]
            decides(f, valid) ==> out@.map_values(|b: Bytes| bytes_of(b)) == payloads(
                walk_all(valid, bytes_of(*region), head as nat, capacity as nat),
            ),
{
    let found = walk_indexed(region, head, capacity, f);
    let mut out: Vec<Bytes> = Vec::new();
    let mut i: usize = 0;
    while i < found.len()
        invariant
            i <= found@.len(),
            out@.len() == i,
            forall|k: int| 0 <= k < i ==> bytes_of(#[trigger] out@[k]) == found@[k]@.payload,
        decreases found@.len() - i,
    {
        out.push(found[i].payload.clone());
        i = i + 1;
    }
    assert(out@.map_values(|b: Bytes| bytes_of(b)) =~= payloads(walked_view(found@)));
    out
}

/// Like [`walk`], but also tells where each record's payload lives within `region`: the record is
/// a slice of `region` beginning at that byte offset, or `None` for the at-most-one record that
/// wraps the physical boundary and was reconstructed into a fresh buffer.
pub fn walk_indexed<F: Fn(&[u8]) -> bool>(
    region: &Bytes,
    head: usize,
    capacity: usize,
    f: F,
) -> (out: Vec<Walked>)
    requires
        forall|s: &[u8]| #[trigger] call_requires(f, (s,)),
    ensures
        forall|valid: spec_fn(Seq<u8>) -> bool| #[trigger]
            decides(f, valid) ==> walked_view(out@) == walk_all(
                valid,
                bytes_of(*region),
                head as nat,
                capacity as nat,
            ),
{
    let mut out: Vec<Walked> = Vec::new();
    let bytes = bytes_as_slice(region);
    assert(walked_view(out@) =~= Seq::<WalkedView>::empty());
    if bytes.len() != capacity || !is_power_of_two(capacity) {
        return out;
    }
    assert(capacity > 0) by {
        reveal(is_pow2);
    }
    let low: usize = head.saturating_sub(capacity);
    let mut abs: usize = head;
    assert(forall|valid: spec_fn(Seq<u8>) -> bool| #[trigger]
        decides(f, valid) ==> walked_view(out@) + walk_from(valid, bytes@, low as nat, abs as nat)
            =~= walk_all(valid, bytes@, head as nat, capacity as nat));
    while abs >= low && abs - low >= LEN_SUFFIX
        invariant
            low == valid_low(head as nat, capacity as nat),
            low <= abs <= head,
            bytes@ == bytes_of(*region),
            bytes@.len() == capacity,
            is_pow2(capacity as int),
            capacity > 0,
            forall|s: &[u8]| #[trigger] call_requires(f, (s,)),
            forall|valid: spec_fn(Seq<u8>) -> bool| #[trigger]
                decides(f, valid) ==> walked_view(out@) + walk_from(
                    valid,
                    bytes@,
                    low as nat,
                    abs as nat,
                ) == walk_all(valid, bytes@, head as nat, capacity as nat),
        decreases abs,
    {
        let suffix = read_wrapping(bytes, abs - LEN_SUFFIX, LEN_SUFFIX);
        let payload_len: usize = get_le(suffix.as_slice()) as usize;
        proof {
            lemma_le_value_bound(suffix@);
            lemma_pow256_values();
            assert(payload_len == suffix_len(bytes@, abs as nat));
        }
        if payload_len > abs - LEN_SUFFIX - low {
            assert(!is_candidate(bytes@, low as nat, abs as nat));
            abs = abs - 1;
        } else {
            let payload_start: usize = abs - LEN_SUFFIX - payload_len;
            let begin: usize = payload_start % capacity;
            let (payload, offset) = if payload_len <= capacity - begin {
                proof {
                    lemma_read_contiguous(bytes@, payload_start as int, payload_len as nat);
                }
                (bytes_slice(region, begin, begin + payload_len), Some(begin))
            } else {
                (bytes_from_vec(read_wrapping(bytes, payload_start, payload_len)), None)
            };
            assert(bytes_of(payload) == candidate(bytes@, abs as nat));
            let slice = bytes_as_slice(&payload);
            let accepted = f(slice);
            assert(call_ensures(f, (slice,), accepted));
            if accepted {
                let ghost before = out@;
                let ghost item = candidate_record(bytes@, abs as nat);
                let record = Walked { payload, offset };
                assert(record@ =~= item);
                out.push(record);
                proof {
                    assert(walked_view(out@) =~= walked_view(before).push(item));
                    assert forall|valid: spec_fn(Seq<u8>) -> bool| #[trigger] decides(
                        f,
                        valid,
                    ) implies walked_view(out@) + walk_from(
                        valid,
                        bytes@,
                        low as nat,
                        payload_start as nat,
                    ) == walk_all(valid, bytes@, head as nat, capacity as nat) by {
                        assert(valid(slice@));
                        assert(walked_view(before) + (seq![item] + walk_from(
                            valid,
                            bytes@,
                            low as nat,
                            payload_start as nat,
                        )) =~= walked_view(out@) + walk_from(
                            valid,
                            bytes@,
                            low as nat,
                            payload_start as nat,
                        ));
                    }
                }
                abs = payload_start;
            } else {
                assert forall|valid: spec_fn(Seq<u8>) -> bool| #[trigger] decides(
                    f,
                    valid,
                ) implies walked_view(out@) + walk_from(
                    valid,
                    bytes@,
                    low as nat,
                    (abs - 1) as nat,
                ) == walk_all(valid, bytes@, head as nat, capacity as nat) by {
                    assert(!valid(slice@));
                }
                abs = abs - 1;
            }
        }
    }
    assert(forall|valid: spec_fn(Seq<u8>) -> bool| #[trigger]
        decides(f, valid) ==> walked_view(out@) =~= walk_all(
            valid,
            bytes@,
            head as nat,
            capacity as nat,
        ));
    out
}

} // verus!
