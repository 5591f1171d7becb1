//! Span ids and the ids of processes.

use std::collections::hash_map::{DefaultHasher, RandomState};
use std::hash::Hasher;
use vstd::prelude::*;
use vstd::std_specs::hash::DefaultHasherAdditionalSpecFns;

verus! {

/// The low 64 bits of a product.
pub open spec fn low_product(a: u64, b: u64) -> u64 {
    (a * b % 0x1_0000_0000_0000_0000) as u64
}

/// The splitmix64 finalizer.
pub open spec fn mixed(x: u64) -> u64 {
    let a = low_product(x ^ (x >> 30u64), 0xbf58_476d_1ce4_e5b9);
    let b = low_product(a ^ (a >> 27u64), 0x94d0_49bb_1331_11eb);
    b ^ (b >> 31u64)
}

/// The splitmix64 finalizer: a fast bit mixer for deriving well-distributed ids from a counter or a
/// timestamp.
pub fn mix64(x: u64) -> (r: u64)
    ensures
        r == mixed(x),
{
    let a: u64 = (x ^ (x >> 30u64)).wrapping_mul(0xbf58_476d_1ce4_e5b9);
    let b: u64 = (a ^ (a >> 27u64)).wrapping_mul(0x94d0_49bb_1331_11eb);
    b ^ (b >> 31u64)
}

/// Calls `RandomState::new`, which the standard library seeds. Nothing is claimed of it.
#[verifier::external_body]
fn random_state() -> RandomState {
    RandomState::new()
}

/// Calls `BuildHasher::build_hasher` on a `RandomState`: a hasher with the keys of the state. Nothing
/// is claimed of it.
#[verifier::external_body]
fn hasher_of(state: &RandomState) -> DefaultHasher {
    std::hash::BuildHasher::build_hasher(state)
}

/// A number that may be drawn: what a hasher of a freshly seeded state finishes with.
pub closed spec fn may_be_drawn(n: u64) -> bool {
    exists|state: RandomState, hasher: DefaultHasher|
        #![trigger call_ensures(hasher_of, (&state,), hasher)]
        call_ensures(random_state, (), state) && call_ensures(hasher_of, (&state,), hasher) && n
            == DefaultHasher::spec_finish(hasher@)
}

/// Draws a number from the hasher keys that the standard library seeds.
fn random_u64() -> (n: u64)
    ensures
        may_be_drawn(n),
{
    let state = random_state();
    let hasher = hasher_of(&state);
    hasher.finish()
}

/// The id of a process from two independent draws.
pub fn instance_id_from(a: u64, b: u64) -> (id: u64)
    ensures
        id == mixed(a ^ mixed(b)),
{
    mix64(a ^ mix64(b))
}

/// An id that a process may draw: one that two draws give.
pub open spec fn may_draw(id: u64) -> bool {
    exists|a: u64, b: u64|
        #![trigger may_be_drawn(a), may_be_drawn(b)]
        may_be_drawn(a) && may_be_drawn(b) && id == mixed(a ^ mixed(b))
}

/// Draws the id of a process. Spans are keyed by `(instance_id, span_id)`, so it only needs to be
/// distinct across the processes whose dumps are merged.
pub(crate) fn gen_instance_id() -> (id: u64)
    ensures
        may_draw(id),
{
    let a: u64 = random_u64();
    let b: u64 = random_u64();
    instance_id_from(a, b)
}

// ---------------------------------------------------------------------------
// Span ids.
// ---------------------------------------------------------------------------

/// A span id: a counter in the high 48 bits and a seed in the low 16.
pub open spec fn span_id_of(counter: nat, seed: u16) -> nat {
    counter % 0x1_0000_0000_0000 * 0x1_0000 + seed as nat
}

/// A source of span ids, one per thread: its seed and the number of ids minted.
pub struct SpanIds {
    seed: u16,
    counter: u64,
}

impl SpanIds {
    /// The seed in the low bits of the ids.
    pub closed spec fn seed(&self) -> u16 {
        self.seed
    }

    /// The number of ids minted, as far as the machine counts.
    pub closed spec fn counter(&self) -> u64 {
        self.counter
    }

    /// A source that has minted nothing.
    pub fn new(seed: u16) -> (s: Self)
        ensures
            s.seed() == seed,
            s.counter() == 0,
    {
        SpanIds { seed, counter: 0 }
    }

    /// Mints a fresh span id, cheaply and without coordination.
    pub fn mint(&mut self) -> (id: u64)
        ensures
            final(self).seed() == old(self).seed(),
            final(self).counter() == (old(self).counter() + 1) % 0x1_0000_0000_0000_0000,
            id == span_id_of(final(self).counter() as nat, old(self).seed()),
    {
        self.counter = self.counter.wrapping_add(1);
        let c: u64 = self.counter;
        let s: u64 = self.seed as u64;
        assert(((c << 16u64) | s) == (c % 0x1_0000_0000_0000) * 0x1_0000 + s) by (bit_vector)
            requires
                s < 0x1_0000,
        ;
        (c << 16u64) | s
    }
}

/// Two span ids are the same only where their seeds are, and where their counters are 2^48 mints or
/// more apart or the same: ids of one thread are distinct, and so are ids of threads with distinct
/// seeds.
pub proof fn law_span_ids_distinct(counter_a: nat, seed_a: u16, counter_b: nat, seed_b: u16)
    requires
        span_id_of(counter_a, seed_a) == span_id_of(counter_b, seed_b),
    ensures
        seed_a == seed_b,
        counter_a != counter_b ==> counter_a - counter_b >= 0x1_0000_0000_0000 || counter_b
            - counter_a >= 0x1_0000_0000_0000,
{
    let x = counter_a % 0x1_0000_0000_0000;
    let y = counter_b % 0x1_0000_0000_0000;
    assert(x == y && seed_a == seed_b);
}

/// A source of span ids minted an id.
pub open spec fn is_mint(before: SpanIds, after: SpanIds, id: u64) -> bool {
    &&& after.seed() == before.seed()
    &&& after.counter() == (before.counter() + 1) % 0x1_0000_0000_0000_0000
    &&& id == span_id_of(after.counter() as nat, before.seed())
}

/// The ids that one source minted one after the other, and the states of the source between them.
pub open spec fn is_run(states: Seq<SpanIds>, ids: Seq<u64>) -> bool {
    &&& states.len() == ids.len() + 1
    &&& forall|k: int| 0 <= k < ids.len() ==> is_mint(states[k], states[k + 1], #[trigger] ids[k])
}

/// The seed stays, and the counter counts the ids.
proof fn lemma_run_counts(states: Seq<SpanIds>, ids: Seq<u64>, k: int)
    requires
        is_run(states, ids),
        0 <= k < ids.len(),
        states[0].counter() + ids.len() < 0x1_0000_0000_0000,
    ensures
        states[k + 1].seed() == states[0].seed(),
        states[k + 1].counter() == states[0].counter() + k + 1,
        ids[k] == (states[0].counter() + k + 1) * 0x1_0000 + states[0].seed(),
    decreases k,
{
    if k > 0 {
        lemma_run_counts(states, ids, k - 1);
    }
    assert(is_mint(states[k], states[k + 1], ids[k]));
}

/// The ids that a thread mints, for one recorder or for several, carry the thread's seed in their low
/// 16 bits and a counter in the high 48 that is never 0 and that a later id has larger, until the
/// counter has no bits left. So no id of a thread is repeated, and none is 0.
pub proof fn law_thread_ids_ascend(states: Seq<SpanIds>, ids: Seq<u64>, i: int, j: int)
    requires
        is_run(states, ids),
        states[0].counter() + ids.len() < 0x1_0000_0000_0000,
        0 <= i < j < ids.len(),
    ensures
        ids[i] & 0xffff == states[0].seed(),
        ids[j] & 0xffff == states[0].seed(),
        0 < ids[i] >> 16u64,
        ids[i] >> 16u64 < ids[j] >> 16u64,
        0 < ids[i] < ids[j],
{
    lemma_run_counts(states, ids, i);
    lemma_run_counts(states, ids, j);
    let a = ids[i];
    let b = ids[j];
    assert(a & 0xffff == a % 0x1_0000 && a >> 16u64 == a / 0x1_0000) by (bit_vector);
    assert(b & 0xffff == b % 0x1_0000 && b >> 16u64 == b / 0x1_0000) by (bit_vector);
}

// ---------------------------------------------------------------------------
// Seeds.
// ---------------------------------------------------------------------------

/// The seed that a thread gets unless another thread has it.
pub open spec fn wanted_seed(n: u64) -> u16 {
    (mixed(((n + 0x9e37_79b9_7f4a_7c15) % 0x1_0000_0000_0000_0000) as u64) % 0x1_0000) as u16
}

/// The seed that thread number `n` gets unless another thread has it.
pub fn seed_for(n: u64) -> (seed: u16)
    ensures
        seed == wanted_seed(n),
{
    let mix: u64 = mix64(n.wrapping_add(0x9e37_79b9_7f4a_7c15));
    assert(mix % 0x1_0000 <= 0xffff);
    (mix % 0x1_0000) as u16
}

/// The seed `d` places after another, going round.
pub open spec fn seed_after(seed: u16, d: nat) -> u16 {
    ((seed + d) % 0x1_0000) as u16
}

/// The seed that thread number `n` gets where the given ones are in use: the first one from its
/// mixed number on that is free. Where none is free, threads share seeds.
pub open spec fn is_next_seed(used: Set<u16>, n: u64, seed: u16) -> bool {
    if exists|s: u16| !#[trigger] used.contains(s) {
        &&& !used.contains(seed)
        &&& exists|d: nat|
            seed == #[trigger] seed_after(wanted_seed(n), d) && forall|e: nat|
                e < d ==> used.contains(#[trigger] seed_after(wanted_seed(n), e))
    } else {
        seed == wanted_seed(n)
    }
}

/// Hands out the seeds of threads: a mix of the thread's number, or the next free seed after it, so
/// that the seeds of the first 2^16 threads are distinct.
pub struct SeedSource {
    used: Vec<bool>,
    count: u64,
}

impl SeedSource {
    #[verifier::type_invariant]
    spec fn inv(self) -> bool {
        self.used@.len() == 0x1_0000
    }

    /// The seeds that have been handed out.
    pub closed spec fn used(&self) -> Set<u16> {
        Set::new(|s: u16| self.used@[s as int])
    }

    /// The number of seeds handed out, as far as the machine counts.
    pub closed spec fn count(&self) -> u64 {
        self.count
    }

    /// A source that has handed out nothing.
    pub fn new() -> (s: Self)
        ensures
            s.count() == 0,
            s.used() == Set::<u16>::empty(),
    {
        let s = SeedSource { used: vec![false; 0x1_0000], count: 0 };
        assert(s.used() =~= Set::<u16>::empty());
        s
    }

    /// The seed of the next thread.
    pub fn next_seed(&mut self) -> (seed: u16)
        ensures
            final(self).count() == (old(self).count() + 1) % 0x1_0000_0000_0000_0000,
            final(self).used() == old(self).used().insert(seed),
            is_next_seed(old(self).used(), old(self).count(), seed),
    {
        proof {
            use_type_invariant(&*self);
        }
        let ghost n = self.count;
        let ghost was = self.used@;
        let ghost used = self.used();
        let first: u16 = seed_for(self.count);
        let mut seed: u16 = first;
        let mut d: u32 = 0;
        while d < 0x1_0000 && self.used[seed as usize]
            invariant
                d <= 0x1_0000,
                self.used@ == was,
                was.len() == 0x1_0000,
                seed == seed_after(first, d as nat),
                forall|e: nat| e < d ==> was[#[trigger] seed_after(first, e) as int],
            decreases 0x1_0000 - d,
        {
            seed = if seed == 0xffff {
                0
            } else {
                seed + 1
            };
            d = d + 1;
        }
        proof {
            assert forall|s: u16| used.contains(s) == #[trigger] was[s as int] by {}
            if d == 0x1_0000 {
                assert(seed == first);
                assert forall|s: u16| #[trigger] used.contains(s) by {
                    let e: nat = ((s - first) % 0x1_0000) as nat;
                    assert(seed_after(first, e) == s);
                    assert(was[seed_after(first, e) as int]);
                }
            } else {
                assert(!used.contains(seed));
                assert forall|e: nat| e < d implies used.contains(
                    #[trigger] seed_after(wanted_seed(n), e),
                ) by {
                    assert(was[seed_after(first, e) as int]);
                }
                assert(seed == seed_after(wanted_seed(n), d as nat));
            }
            assert(is_next_seed(used, n, seed));
        }
        self.used[seed as usize] = true;
        proof {
            use_type_invariant(&*self);
            assert(self.used() =~= used.insert(seed));
        }
        self.count = self.count.wrapping_add(1);
        assert(self.used() =~= used.insert(seed));
        seed
    }
}

/// The seeds of a run of threads, each handed out where those before it are in use.
pub open spec fn are_seeds(seeds: Seq<u16>) -> bool {
    forall|k: int|
        0 <= k < seeds.len() ==> is_next_seed(
            seeds.take(k).to_set(),
            k as u64,
            #[trigger] seeds[k],
        )
}

/// Fewer than 2^16 seeds leave one free.
proof fn lemma_seed_left(seeds: Seq<u16>) -> (free: u16)
    requires
        seeds.len() < 0x1_0000,
    ensures
        !seeds.to_set().contains(free),
{
    if forall|s: u16| seeds.to_set().contains(s) {
        let f = |s: u16| s as int;
        let wide = seeds.map_values(f);
        let all = vstd::set_lib::set_int_range(0, 0x1_0000);
        vstd::set_lib::lemma_int_range(0, 0x1_0000);
        wide.lemma_cardinality_of_set();
        assert(all.subset_of(wide.to_set())) by {
            assert forall|i: int| all.contains(i) implies wide.to_set().contains(i) by {
                let s = i as u16;
                assert(seeds.to_set().contains(s));
                let k = choose|k: int| 0 <= k < seeds.len() && seeds[k] == s;
                assert(wide[k] == i);
            }
        }
        vstd::seq_lib::seq_to_set_is_finite(wide);
        vstd::set_lib::lemma_len_subset(all, wide.to_set());
        0
    } else {
        choose|s: u16| !seeds.to_set().contains(s)
    }
}

/// The seeds of the first 2^16 threads are distinct.
pub proof fn law_first_seeds_distinct(seeds: Seq<u16>)
    requires
        are_seeds(seeds),
        seeds.len() <= 0x1_0000,
    ensures
        seeds.no_duplicates(),
{
    assert forall|i: int, j: int| 0 <= i < j < seeds.len() implies seeds[i] != seeds[j] by {
        let before = seeds.take(j);
        let free = lemma_seed_left(before);
        assert(!before.to_set().contains(free));
        assert(is_next_seed(before.to_set(), j as u64, seeds[j]));
        assert(before[i] == seeds[i]);
        assert(before.to_set().contains(seeds[i]));
    }
}

} // verus!
