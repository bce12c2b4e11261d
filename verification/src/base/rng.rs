//! Injectable randomness.
//!
//! Randomness flows through the [`Rng`] trait so identifier generation is
//! reproducible in tests. [`SplitMix64`] is a tiny deterministic PRNG;
//! [`SystemRng`] seeds one from the wall clock and a per-process source of
//! fresh keys. Neither is cryptographic: they make identifiers unique, not
//! unguessable.

use std::hash::{BuildHasher, Hasher};
use vstd::prelude::*;

use crate::base::time::wall_clock_nanos;

verus! {

/// The SplitMix64 increment (the 64-bit golden ratio).
pub const GOLDEN_GAMMA: u64 = 0x9E37_79B9_7F4A_7C15;

/// A source of pseudo-random 64-bit words.
pub trait Rng {
    /// One draw takes the generator from `self` to `after` and yields `word`.
    spec fn draws(&self, after: &Self, word: u64) -> bool;

    /// The next 64-bit word.
    fn next_u64(&mut self) -> (word: u64)
        ensures
            old(self).draws(final(self), word),
    ;

    /// The next 128-bit word, assembled from two 64-bit draws (high word first).
    fn next_u128(&mut self) -> (r: u128) where Self: Sized
        ensures
            exists|mid: Self, hi: u64, lo: u64|
                #![trigger old(self).draws(&mid, hi), mid.draws(final(self), lo)]
                old(self).draws(&mid, hi) && mid.draws(final(self), lo) && r == ((hi as u128) << 64u128)
                    | (lo as u128),
    {
        let hi = self.next_u64();
        let ghost mid = *self;
        let lo = self.next_u64();
        proof {
            assert(old(self).draws(&mid, hi) && mid.draws(final(self), lo));
        }
        ((hi as u128) << 64u128) | (lo as u128)
    }
}

/// The SplitMix64 output function applied to an (already advanced) state.
pub open spec fn splitmix_mix(z0: u64) -> u64 {
    let z1 = vstd::wrapping::u64_specs::wrapping_mul(z0 ^ (z0 >> 30u64), 0xBF58_476D_1CE4_E5B9u64);
    let z2 = vstd::wrapping::u64_specs::wrapping_mul(z1 ^ (z1 >> 27u64), 0x94D0_49BB_1331_11EBu64);
    z2 ^ (z2 >> 31u64)
}

/// An xor-shift `x ^ (x >> k)` (for a shift of 27, 30 or 31) loses nothing.
proof fn lemma_xorshift_injective(a: u64, b: u64)
    ensures
        a ^ (a >> 30u64) == b ^ (b >> 30u64) ==> a == b,
        a ^ (a >> 27u64) == b ^ (b >> 27u64) ==> a == b,
        a ^ (a >> 31u64) == b ^ (b >> 31u64) ==> a == b,
{
    assert(a ^ (a >> 30u64) == b ^ (b >> 30u64) ==> a == b) by (bit_vector);
    assert(a ^ (a >> 27u64) == b ^ (b >> 27u64) ==> a == b) by (bit_vector);
    assert(a ^ (a >> 31u64) == b ^ (b >> 31u64) ==> a == b) by (bit_vector);
}

/// Multiplying by `c` modulo `2^64` is undone by multiplying by `cinv`, when
/// `c * cinv` is 1 modulo `2^64`.
proof fn lemma_wrapping_mul_undo(a: u64, c: u64, cinv: u64)
    requires
        (c as int * cinv as int) % 0x1_0000_0000_0000_0000int == 1,
    ensures
        vstd::wrapping::u64_specs::wrapping_mul(vstd::wrapping::u64_specs::wrapping_mul(a, c), cinv) == a,
{
    let m = 0x1_0000_0000_0000_0000int;
    let ac = a as int * c as int;
    vstd::arithmetic::div_mod::lemma_mul_mod_noop_left(ac, cinv as int, m);
    vstd::arithmetic::mul::lemma_mul_is_associative(a as int, c as int, cinv as int);
    vstd::arithmetic::div_mod::lemma_mul_mod_noop_right(a as int, c as int * cinv as int, m);
    vstd::arithmetic::div_mod::lemma_small_mod(a as nat, m as nat);
    assert(((ac % m) as u64) as int == ac % m);
}

/// The SplitMix64 output function is one-to-one: different states give
/// different words.
pub proof fn lemma_splitmix_mix_injective(a: u64, b: u64)
    requires
        splitmix_mix(a) == splitmix_mix(b),
    ensures
        a == b,
{
    let c1 = 0xBF58_476D_1CE4_E5B9u64;
    let c2 = 0x94D0_49BB_1331_11EBu64;
    let i1 = 0x96DE_1B17_3F11_9089u64;
    let i2 = 0x3196_42B2_D24D_8EC3u64;
    assert((c1 as int * i1 as int) % 0x1_0000_0000_0000_0000int == 1);
    assert((c2 as int * i2 as int) % 0x1_0000_0000_0000_0000int == 1);
    let xa = a ^ (a >> 30u64);
    let xb = b ^ (b >> 30u64);
    let z1a = vstd::wrapping::u64_specs::wrapping_mul(xa, c1);
    let z1b = vstd::wrapping::u64_specs::wrapping_mul(xb, c1);
    let ya = z1a ^ (z1a >> 27u64);
    let yb = z1b ^ (z1b >> 27u64);
    let z2a = vstd::wrapping::u64_specs::wrapping_mul(ya, c2);
    let z2b = vstd::wrapping::u64_specs::wrapping_mul(yb, c2);
    lemma_xorshift_injective(z2a, z2b);
    lemma_wrapping_mul_undo(ya, c2, i2);
    lemma_wrapping_mul_undo(yb, c2, i2);
    lemma_xorshift_injective(z1a, z1b);
    lemma_wrapping_mul_undo(xa, c1, i1);
    lemma_wrapping_mul_undo(xb, c1, i1);
    lemma_xorshift_injective(a, b);
}

/// Different seeds give different first outputs.
pub proof fn lemma_first_output_distinct(s1: u64, s2: u64)
    requires
        s1 != s2,
    ensures
        splitmix_mix(splitmix_advance(s1)) != splitmix_mix(splitmix_advance(s2)),
{
    if splitmix_mix(splitmix_advance(s1)) == splitmix_mix(splitmix_advance(s2)) {
        lemma_splitmix_mix_injective(splitmix_advance(s1), splitmix_advance(s2));
    }
}

/// The SplitMix64 state after one step.
pub open spec fn splitmix_advance(state: u64) -> u64 {
    vstd::wrapping::u64_specs::wrapping_add(state, GOLDEN_GAMMA)
}

/// The SplitMix64 generator — fast, deterministic, and seedable.
#[derive(Clone, Debug)]
pub struct SplitMix64 {
    state: u64,
}

impl SplitMix64 {
    /// The generator's internal state.
    pub closed spec fn state(&self) -> u64 {
        self.state
    }

    /// Create a generator from an explicit seed (deterministic).
    pub fn new(seed: u64) -> (g: SplitMix64)
        ensures
            g.state() == seed,
    {
        SplitMix64 { state: seed }
    }

    /// One SplitMix64 step: advance the state by the golden gamma and mix it.
    pub fn step(&mut self) -> (out: u64)
        ensures
            final(self).state() == splitmix_advance(old(self).state()),
            out == splitmix_mix(final(self).state()),
    {
        self.state = self.state.wrapping_add(GOLDEN_GAMMA);
        let mut z = self.state;
        z = (z ^ (z >> 30u64)).wrapping_mul(0xBF58_476D_1CE4_E5B9u64);
        z = (z ^ (z >> 27u64)).wrapping_mul(0x94D0_49BB_1331_11EBu64);
        z ^ (z >> 31u64)
    }
}

impl Rng for SplitMix64 {
    open spec fn draws(&self, after: &Self, word: u64) -> bool {
        after.state() == splitmix_advance(self.state()) && word == splitmix_mix(after.state())
    }

    fn next_u64(&mut self) -> (out: u64)
        ensures
            final(self).state() == splitmix_advance(old(self).state()),
            out == splitmix_mix(final(self).state()),
    {
        self.step()
    }
}

/// `RandomState::new`: fresh hash keys. The documentation says every state
/// created in a thread gets keys distinct from the previous one; the keys depend
/// on process state, so nothing is promised of them here.
#[verifier::external_body]
fn fresh_random_state() -> std::collections::hash_map::RandomState {
    std::collections::hash_map::RandomState::new()
}

/// `BuildHasher::build_hasher` on a `RandomState`: a hasher keyed by it.
/// Nothing is promised of the hasher.
#[verifier::external_body]
fn hasher_of(state: &std::collections::hash_map::RandomState) -> std::collections::hash_map::DefaultHasher {
    state.build_hasher()
}

/// A fresh 64-bit key from the standard library's per-process hash-key source:
/// a new `RandomState` hashing nothing. Successive calls get distinct keys, so
/// successive values differ in practice; nothing is promised of the value.
fn process_entropy() -> u64 {
    let state = fresh_random_state();
    let h = hasher_of(&state);
    h.finish()
}

/// A non-deterministic generator for production identifier creation: a
/// [`SplitMix64`] seeded from the wall clock mixed with a per-process key.
#[derive(Clone, Debug)]
pub struct SystemRng(SplitMix64);

/// The seed of a [`SystemRng`]: wall-clock nanoseconds XOR the fresh key spread
/// by the golden ratio.
pub open spec fn system_seed(nanos: i64, bump: u64) -> u64 {
    (nanos as u64) ^ vstd::wrapping::u64_specs::wrapping_mul(bump, GOLDEN_GAMMA)
}

impl SystemRng {
    /// The state of the wrapped generator.
    pub closed spec fn state(&self) -> u64 {
        self.0.state()
    }

    /// A generator seeded from a wall-clock reading `nanos` and a fresh key
    /// `bump`: the seed is `nanos` XOR `bump` spread by the golden ratio.
    pub fn seeded(nanos: i64, bump: u64) -> (g: SystemRng)
        ensures
            g.state() == system_seed(nanos, bump),
    {
        let seed = (#[verifier::truncate] (nanos as u64)) ^ bump.wrapping_mul(GOLDEN_GAMMA);
        SystemRng(SplitMix64::new(seed))
    }

    /// Create a freshly-seeded generator from the wall clock and a per-process
    /// key; both readings are outside values, so only the seeding is stated.
    pub fn new() -> (g: SystemRng)
        ensures
            exists|nanos: i64, bump: u64| g.state() == system_seed(nanos, bump),
    {
        let nanos = wall_clock_nanos();
        let bump = process_entropy();
        SystemRng::seeded(nanos, bump)
    }
}

impl Default for SystemRng {
    fn default() -> Self {
        Self::new()
    }
}

impl Rng for SystemRng {
    open spec fn draws(&self, after: &Self, word: u64) -> bool {
        after.state() == splitmix_advance(self.state()) && word == splitmix_mix(after.state())
    }

    fn next_u64(&mut self) -> (out: u64)
        ensures
            final(self).state() == splitmix_advance(old(self).state()),
            out == splitmix_mix(final(self).state()),
    {
        self.0.step()
    }
}

} // verus!
