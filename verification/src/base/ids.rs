//! Identifiers.
//!
//! [`MemoryId`] is a 128-bit, time-sortable, ULID-style identifier: the high 48
//! bits are a millisecond timestamp and the low 80 bits are randomness, so ids
//! created later sort after ids created earlier. Its text form is 26 Crockford
//! base32 characters. The remaining ids are simple `u64` newtypes.

use vstd::prelude::*;
use vstd::string::StringSliceAdditionalSpecFns;

use crate::base::error::IdParseError;
use crate::base::rng::Rng;
use crate::base::time::{trunc_div, Clock, Timestamp};

verus! {

/// Mask of the 48 timestamp bits.
pub const TS_MASK: u64 = 0xFFFF_FFFF_FFFF;
/// Mask of the 80 randomness bits.
pub const RAND_MASK: u128 = 0xFFFF_FFFF_FFFF_FFFF_FFFF;
/// A canonical encoding is always 26 characters (130 bits, top 2 bits unused).
pub const ENCODED_LEN: usize = 26;

/// `2^48`.
pub open spec fn two_48() -> int {
    0x1_0000_0000_0000
}

/// `2^80`.
pub open spec fn two_80() -> int {
    0x1_0000_0000_0000_0000_0000
}

/// `2^64`.
pub open spec fn two_64() -> int {
    0x1_0000_0000_0000_0000
}

/// The id value assembled from a timestamp and randomness.
pub open spec fn parts_value(timestamp_ms: int, randomness: int) -> int {
    (timestamp_ms % two_48()) * two_80() + randomness % two_80()
}

/// `32^n`.
pub open spec fn pow32(n: nat) -> nat
    decreases n,
{
    if n == 0 {
        1
    } else {
        32 * pow32((n - 1) as nat)
    }
}

/// The `j`-th of the `n` base-32 digits of `v`, most significant first.
pub open spec fn digit_at(v: nat, n: nat, j: int) -> nat {
    (v / pow32((n - 1 - j) as nat)) % 32
}

/// The value of a base-32 digit at Crockford character `c`, if `c` is one
/// (lenient: lowercase is accepted, and I/L read as 1, O as 0).
pub open spec fn crockford_value(c: u8) -> Option<nat> {
    if 48 <= c <= 57 {
        Some((c - 48) as nat)
    } else if 65 <= c <= 72 {
        Some((c - 65 + 10) as nat)
    } else if c == 74 || c == 75 {
        Some((c - 74 + 18) as nat)
    } else if c == 77 || c == 78 {
        Some((c - 77 + 20) as nat)
    } else if 80 <= c <= 84 {
        Some((c - 80 + 22) as nat)
    } else if 86 <= c <= 90 {
        Some((c - 86 + 27) as nat)
    } else if 97 <= c <= 104 {
        Some((c - 97 + 10) as nat)
    } else if c == 106 || c == 107 {
        Some((c - 106 + 18) as nat)
    } else if c == 109 || c == 110 {
        Some((c - 109 + 20) as nat)
    } else if 112 <= c <= 116 {
        Some((c - 112 + 22) as nat)
    } else if 118 <= c <= 122 {
        Some((c - 118 + 27) as nat)
    } else if c == 73 || c == 105 || c == 76 || c == 108 {
        Some(1)
    } else if c == 79 || c == 111 {
        Some(0)
    } else {
        None
    }
}

/// The canonical Crockford character of a digit `d < 32`
/// (alphabet `0123456789ABCDEFGHJKMNPQRSTVWXYZ`).
pub open spec fn crockford_char(d: nat) -> u8 {
    if d < 10 {
        (48 + d) as u8
    } else if d < 18 {
        (65 + d - 10) as u8
    } else if d < 20 {
        (74 + d - 18) as u8
    } else if d < 22 {
        (77 + d - 20) as u8
    } else if d < 27 {
        (80 + d - 22) as u8
    } else {
        (86 + d - 27) as u8
    }
}

/// The canonical 26-character Crockford encoding of `v`.
pub open spec fn crockford_encoding(v: u128) -> Seq<u8> {
    Seq::new(26, |j: int| crockford_char(digit_at(v as nat, 26, j)))
}

/// The value of the first `n` characters of `b`, read as base-32 digits.
pub open spec fn crockford_prefix_value(b: Seq<u8>, n: int) -> nat
    decreases n,
{
    if n <= 0 {
        0
    } else {
        crockford_prefix_value(b, n - 1) * 32 + match crockford_value(b[n - 1]) {
            Some(d) => d,
            None => 0,
        }
    }
}

/// The first parse error at or after index `i`, scanning left to right.
pub open spec fn crockford_first_error(b: Seq<u8>, i: int) -> Option<IdParseError>
    decreases b.len() - i,
{
    if i < 0 || i >= b.len() {
        None
    } else {
        match crockford_value(b[i]) {
            None => Some(IdParseError::InvalidChar(b[i] as char)),
            Some(d) => if i == 0 && d > 7 {
                Some(IdParseError::Overflow)
            } else {
                crockford_first_error(b, i + 1)
            },
        }
    }
}

/// The result of parsing the bytes of a Crockford string.
pub open spec fn crockford_parse(b: Seq<u8>) -> Result<u128, IdParseError> {
    if b.len() != 26 {
        Err(IdParseError::WrongLength(b.len() as usize))
    } else {
        match crockford_first_error(b, 0) {
            Some(e) => Err(e),
            None => Ok(crockford_prefix_value(b, 26) as u128),
        }
    }
}

/// A 128-bit, time-sortable memory identifier (ULID layout).
#[derive(Clone, Copy, Debug, PartialEq, Eq, PartialOrd, Ord, Hash, Structural)]
pub struct MemoryId(pub u128);

proof fn lemma_parts_bits(t: u64, r: u128)
    ensures
        (((t & 0xFFFF_FFFF_FFFFu64) as u128) << 80u128) | (r & 0xFFFF_FFFF_FFFF_FFFF_FFFFu128)
            == ((t & 0xFFFF_FFFF_FFFFu64) as u128) * 0x1_0000_0000_0000_0000_0000u128 + (r
            & 0xFFFF_FFFF_FFFF_FFFF_FFFFu128),
        (t & 0xFFFF_FFFF_FFFFu64) == t % 0x1_0000_0000_0000u64,
        (r & 0xFFFF_FFFF_FFFF_FFFF_FFFFu128) == r % 0x1_0000_0000_0000_0000_0000u128,
{
    assert((((t & 0xFFFF_FFFF_FFFFu64) as u128) << 80u128) | (r & 0xFFFF_FFFF_FFFF_FFFF_FFFFu128)
        == ((t & 0xFFFF_FFFF_FFFFu64) as u128) * 0x1_0000_0000_0000_0000_0000u128 + (r
        & 0xFFFF_FFFF_FFFF_FFFF_FFFFu128)) by (bit_vector);
    assert((t & 0xFFFF_FFFF_FFFFu64) == t % 0x1_0000_0000_0000u64) by (bit_vector);
    assert((r & 0xFFFF_FFFF_FFFF_FFFF_FFFFu128) == r % 0x1_0000_0000_0000_0000_0000u128)
        by (bit_vector);
}

proof fn lemma_split_bits(x: u128)
    ensures
        (((x >> 80u128) as u64) & 0xFFFF_FFFF_FFFFu64) == x / 0x1_0000_0000_0000_0000_0000u128,
        (x & 0xFFFF_FFFF_FFFF_FFFF_FFFFu128) == x % 0x1_0000_0000_0000_0000_0000u128,
        ((x >> 64u128) as u64) == x / 0x1_0000_0000_0000_0000u128,
        (x as u64) == x % 0x1_0000_0000_0000_0000u128,
{
    assert((((x >> 80u128) as u64) & 0xFFFF_FFFF_FFFFu64) == x / 0x1_0000_0000_0000_0000_0000u128)
        by (bit_vector);
    assert((x & 0xFFFF_FFFF_FFFF_FFFF_FFFFu128) == x % 0x1_0000_0000_0000_0000_0000u128)
        by (bit_vector);
    assert(((x >> 64u128) as u64) == x / 0x1_0000_0000_0000_0000u128) by (bit_vector);
    assert((x as u64) == x % 0x1_0000_0000_0000_0000u128) by (bit_vector);
}

proof fn lemma_join_bits(hi: u64, lo: u64)
    ensures
        ((hi as u128) << 64u128) | (lo as u128) == (hi as u128) * 0x1_0000_0000_0000_0000u128 + (
        lo as u128),
{
    assert(((hi as u128) << 64u128) | (lo as u128) == (hi as u128) * 0x1_0000_0000_0000_0000u128
        + (lo as u128)) by (bit_vector);
}

proof fn lemma_shift5_bits(v: u128, d: u128)
    requires
        v < 0x800_0000_0000_0000_0000_0000_0000_0000u128,
        d < 32,
    ensures
        (v << 5u128) | d == v * 32 + d,
{
    assert((v << 5u128) | d == v * 32 + d) by (bit_vector)
        requires
            v < 0x800_0000_0000_0000_0000_0000_0000_0000u128,
            d < 32,
    ;
}

proof fn lemma_low5_bits(v: u128)
    ensures
        (v & 0x1fu128) == v % 32,
        (v >> 5u128) == v / 32,
{
    assert((v & 0x1fu128) == v % 32) by (bit_vector);
    assert((v >> 5u128) == v / 32) by (bit_vector);
}

impl MemoryId {
    /// Assemble an id from a millisecond timestamp (low 48 bits used) and
    /// randomness (low 80 bits used).
    pub fn from_parts(timestamp_ms: u64, randomness: u128) -> (id: MemoryId)
        ensures
            id.0 == parts_value(timestamp_ms as int, randomness as int),
    {
        proof {
            lemma_parts_bits(timestamp_ms, randomness);
        }
        let ts = (timestamp_ms & TS_MASK) as u128;
        MemoryId((ts << 80u128) | (randomness & RAND_MASK))
    }

    /// The embedded millisecond timestamp (high 48 bits).
    pub fn timestamp_ms(self) -> (t: u64)
        ensures
            t == (self.0 as int) / two_80(),
    {
        proof {
            lemma_split_bits(self.0);
        }
        ((self.0 >> 80u128) as u64) & TS_MASK
    }

    /// The embedded randomness (low 80 bits).
    pub fn randomness(self) -> (r: u128)
        ensures
            r == (self.0 as int) % two_80(),
    {
        proof {
            lemma_split_bits(self.0);
        }
        self.0 & RAND_MASK
    }

    /// The high 64 bits (the first half of the compact binary form).
    pub fn hi(self) -> (h: u64)
        ensures
            h == (self.0 as int) / two_64(),
    {
        proof {
            lemma_split_bits(self.0);
        }
        (self.0 >> 64u128) as u64
    }

    /// The low 64 bits (the second half of the compact binary form).
    pub fn lo(self) -> (l: u64)
        ensures
            l == (self.0 as int) % two_64(),
    {
        proof {
            lemma_split_bits(self.0);
        }
        self.0 as u64
    }

    /// Rebuild an id from its compact `(hi, lo)` halves.
    pub fn from_hi_lo(hi: u64, lo: u64) -> (id: MemoryId)
        ensures
            id.0 == hi * two_64() + lo,
    {
        proof {
            lemma_join_bits(hi, lo);
        }
        MemoryId(((hi as u128) << 64u128) | (lo as u128))
    }

    /// Generate a fresh id from a clock and rng: the clock's millisecond reading
    /// (clamped at 0) and a fresh 128-bit draw.
    pub fn generate<C: Clock, R: Rng>(clock: &C, rng: &mut R) -> (id: MemoryId)
        ensures
            exists|now: Timestamp, mid: R, hi: u64, lo: u64|
                #![trigger call_ensures(C::now, (clock,), now), old(rng).draws(&mid, hi), mid.draws(final(rng), lo)]
                call_ensures(C::now, (clock,), now) && old(rng).draws(&mid, hi) && mid.draws(final(rng), lo)
                    && id.0 == parts_value(reading_ms(now), draw_u128(hi, lo) as int),
    {
        let now = clock.now();
        let ms = clamped_millis(now.as_millis());
        let r = rng.next_u128();
        let id = MemoryId::from_parts(ms, r);
        proof {
            let (mid, hi, lo) = choose|mid: R, hi: u64, lo: u64|
                #![trigger old(rng).draws(&mid, hi), mid.draws(final(rng), lo)]
                old(rng).draws(&mid, hi) && mid.draws(final(rng), lo) && r == ((hi as u128) << 64u128) | (lo as u128);
            assert(call_ensures(C::now, (clock,), now) && old(rng).draws(&mid, hi) && mid.draws(final(rng), lo)
                && id.0 == parts_value(reading_ms(now), draw_u128(hi, lo) as int));
        }
        id
    }

    /// The canonical 26-byte Crockford base32 encoding (most significant digit
    /// first).
    pub fn to_crockford(self) -> (buf: Vec<u8>)
        ensures
            buf@ == crockford_encoding(self.0),
    {
        let mut buf: Vec<u8> = Vec::new();
        let mut k: usize = 0;
        while k < ENCODED_LEN
            invariant
                k <= ENCODED_LEN,
                buf@.len() == k,
            decreases ENCODED_LEN - k,
        {
            buf.push(0u8);
            k = k + 1;
        }
        let mut v = self.0;
        let mut i: usize = 26;
        assert(pow32(0) == 1);
        assert((self.0 as nat) / 1 == self.0 as nat);
        while i > 0
            invariant
                i <= 26,
                buf@.len() == 26,
                v as nat == (self.0 as nat) / pow32((26 - i) as nat),
                forall|j: int| i <= j < 26 ==> buf@[j] == crockford_encoding(self.0)[j],
            decreases i,
        {
            let ghost old_v = v;
            proof {
                lemma_low5_bits(v);
                lemma_div_step(self.0 as nat, (26 - i) as nat);
                assert(digit_at(self.0 as nat, 26, (i - 1) as int) == (v as nat) % 32);
            }
            i = i - 1;
            let d = (v & 0x1fu128) as u8;
            buf.set(i, encode_digit(d));
            v = v >> 5u128;
        }
        assert(buf@ =~= crockford_encoding(self.0));
        buf
    }

    /// The 26-character Crockford base32 text of the id.
    pub fn to_string(&self) -> (s: String)
        ensures
            s@ == crockford_encoding(self.0).map_values(|b: u8| b as char),
    {
        let buf = self.to_crockford();
        let mut s = String::new();
        let mut i: usize = 0;
        while i < buf.len()
            invariant
                i <= buf@.len(),
                buf@ == crockford_encoding(self.0),
                s@ =~= buf@.subrange(0, i as int).map_values(|b: u8| b as char),
            decreases buf@.len() - i,
        {
            push_char(&mut s, buf[i] as char);
            i = i + 1;
            assert(s@ =~= buf@.subrange(0, i as int).map_values(|b: u8| b as char));
        }
        assert(buf@.subrange(0, buf@.len() as int) =~= buf@);
        s
    }

    /// Parse the bytes of a Crockford base32 id (exactly 26 characters).
    pub fn parse_bytes(bytes: &[u8]) -> (r: Result<MemoryId, IdParseError>)
        ensures
            match crockford_parse(bytes@) {
                Ok(v) => r == Ok::<MemoryId, IdParseError>(MemoryId(v)),
                Err(e) => r == Err::<MemoryId, IdParseError>(e),
            },
    {
        if bytes.len() != ENCODED_LEN {
            return Err(IdParseError::WrongLength(bytes.len()));
        }
        let mut v: u128 = 0;
        let mut i: usize = 0;
        while i < ENCODED_LEN
            invariant
                i <= 26,
                bytes@.len() == 26,
                crockford_first_error(bytes@, 0) == crockford_first_error(bytes@, i as int),
                v as nat == crockford_prefix_value(bytes@, i as int),
                i > 0 ==> (v as nat) < 8 * pow32((i - 1) as nat),
            decreases 26 - i,
        {
            let d = decode_crockford(bytes[i])?;
            if i == 0 && d > 7 {
                return Err(IdParseError::Overflow);
            }
            proof {
                lemma_pow32_25();
                if i > 0 {
                    lemma_pow32_mono((i - 1) as nat, 24);
                }
                assert((v as nat) * 32 + (d as nat) < 8 * pow32(i as nat));
                lemma_shift5_bits(v, d as u128);
            }
            v = (v << 5u128) | (d as u128);
            i = i + 1;
        }
        Ok(MemoryId(v))
    }

    /// Parse a Crockford base32 id string (exactly 26 characters).
    pub fn parse(s: &str) -> (r: Result<MemoryId, IdParseError>)
        ensures
            match crockford_parse(s.spec_bytes()) {
                Ok(v) => r == Ok::<MemoryId, IdParseError>(MemoryId(v)),
                Err(e) => r == Err::<MemoryId, IdParseError>(e),
            },
    {
        MemoryId::parse_bytes(s.as_bytes())
    }
}

impl std::str::FromStr for MemoryId {
    type Err = IdParseError;

    fn from_str(s: &str) -> (r: Result<MemoryId, IdParseError>)
        ensures
            match crockford_parse(s.spec_bytes()) {
                Ok(v) => r == Ok::<MemoryId, IdParseError>(MemoryId(v)),
                Err(e) => r == Err::<MemoryId, IdParseError>(e),
            },
    {
        MemoryId::parse(s)
    }
}

/// A monotonic [`MemoryId`] generator: within a single millisecond it increments
/// the randomness field instead of redrawing, so successive ids strictly increase
/// even when many are created in the same instant or the clock stalls.
#[derive(Debug)]
pub struct MemoryIdGenerator<C: Clock, R: Rng> {
    clock: C,
    rng: R,
    last_ms: u64,
    last_rand: u128,
}

impl<C: Clock, R: Rng> MemoryIdGenerator<C, R> {
    /// The millisecond of the last id produced.
    pub closed spec fn last_ms(&self) -> u64 {
        self.last_ms
    }

    /// The randomness of the last id produced.
    pub closed spec fn last_rand(&self) -> u128 {
        self.last_rand
    }

    /// The clock the generator reads.
    pub closed spec fn clock_value(&self) -> C {
        self.clock
    }

    /// The generator's random source.
    pub closed spec fn rng_value(&self) -> R {
        self.rng
    }

    /// The generator's state fits the id layout.
    pub open spec fn wf(&self) -> bool {
        &&& self.last_ms() < two_48()
        &&& self.last_rand() < two_80()
    }

    /// The id of the generator's last state.
    pub open spec fn last_id(&self) -> int {
        parts_value(self.last_ms() as int, self.last_rand() as int)
    }

    /// Create a generator from a clock and rng.
    pub fn new(clock: C, rng: R) -> (g: Self)
        ensures
            g.wf(),
            g.last_ms() == 0,
            g.last_rand() == 0,
            g.clock_value() == clock,
            g.rng_value() == rng,
    {
        MemoryIdGenerator { clock, rng, last_ms: 0, last_rand: 0 }
    }

    /// Mutable access to the clock (e.g. to advance a mock clock).
    pub fn clock_mut(&mut self) -> (c: &mut C)
        ensures
            *c == old(self).clock_value(),
            final(self).clock_value() == *final(c),
            final(self).last_ms() == old(self).last_ms(),
            final(self).last_rand() == old(self).last_rand(),
            final(self).rng_value() == old(self).rng_value(),
    {
        &mut self.clock
    }

    /// Produce the next id, strictly greater than the previous one. When the
    /// clock's millisecond (clamped at 0) is past the last one, the id carries it
    /// with fresh randomness (the low 80 bits of one 128-bit draw); otherwise it
    /// stays in the last millisecond and the randomness is bumped by one, and when
    /// the randomness is exhausted it moves on to the next millisecond.
    pub fn next_id(&mut self) -> (id: MemoryId)
        requires
            old(self).wf(),
        ensures
            final(self).wf(),
            id.0 == final(self).last_id(),
            final(self).clock_value() == old(self).clock_value(),
            exists|now: Timestamp|
                #[trigger] call_ensures(C::now, (&old(self).clock_value(),), now) && next_state(
                    *old(self),
                    *final(self),
                    reading_ms(now),
                ),
            final(self).last_ms() >= old(self).last_ms(),
            old(self).last_ms() + 1 < two_48() || old(self).last_rand() + 1 < two_80() ==> id.0
                > old(self).last_id(),
    {
        let ghost g0 = *self;
        let now = self.clock.now();
        let now_ms = clamped_millis(now.as_millis());
        if now_ms > self.last_ms {
            self.last_ms = now_ms;
            let r = self.rng.next_u128();
            proof {
                lemma_parts_bits(0, r);
            }
            self.last_rand = r & RAND_MASK;
            proof {
                let (mid, hi, lo) = choose|mid: R, hi: u64, lo: u64|
                    #![trigger g0.rng_value().draws(&mid, hi), mid.draws(&self.rng_value(), lo)]
                    g0.rng_value().draws(&mid, hi) && mid.draws(&self.rng_value(), lo) && r == ((hi as u128)
                        << 64u128) | (lo as u128);
                assert(draw_u128(hi, lo) == r);
            }
        } else if self.last_rand < RAND_MASK {
            self.last_rand = self.last_rand + 1;
        } else if self.last_ms < TS_MASK {
            self.last_ms = self.last_ms + 1;
            self.last_rand = 0;
        } else {
            self.last_rand = 0;
        }
        proof {
            assert(next_state(g0, *self, reading_ms(now)));
            lemma_time_sortable(g0.last_ms as int, g0.last_rand as int,
                self.last_ms as int, self.last_rand as int);
        }
        MemoryId::from_parts(self.last_ms, self.last_rand)
    }
}

/// One step of a generator from `g0` to `g1` at clock millisecond `m`: a later
/// millisecond takes fresh randomness from one 128-bit draw; otherwise the
/// randomness is bumped by one, moving on to the next millisecond when it is
/// exhausted (wrapping to 0 only at the very last millisecond).
pub open spec fn next_state<C: Clock, R: Rng>(
    g0: MemoryIdGenerator<C, R>,
    g1: MemoryIdGenerator<C, R>,
    m: int,
) -> bool {
    if m > g0.last_ms() {
        &&& g1.last_ms() == m
        &&& exists|mid: R, hi: u64, lo: u64|
            #![trigger g0.rng_value().draws(&mid, hi), mid.draws(&g1.rng_value(), lo)]
            g0.rng_value().draws(&mid, hi) && mid.draws(&g1.rng_value(), lo) && g1.last_rand()
                == draw_u128(hi, lo) as int % two_80()
    } else {
        &&& g1.rng_value() == g0.rng_value()
        &&& if g0.last_rand() + 1 < two_80() {
            g1.last_ms() == g0.last_ms() && g1.last_rand() == g0.last_rand() + 1
        } else if g0.last_ms() + 1 < two_48() {
            g1.last_ms() == g0.last_ms() + 1 && g1.last_rand() == 0
        } else {
            g1.last_ms() == g0.last_ms() && g1.last_rand() == 0
        }
    }
}

/// Ids sort by their timestamp first: within 48-bit timestamps, an id with a later
/// millisecond is greater whatever the randomness; within one millisecond, ids sort
/// by randomness.
pub proof fn lemma_time_sortable(t1: int, r1: int, t2: int, r2: int)
    requires
        0 <= t1 < two_48(),
        0 <= t2 < two_48(),
        0 <= r1 < two_80(),
        0 <= r2 < two_80(),
    ensures
        t1 < t2 ==> parts_value(t1, r1) < parts_value(t2, r2),
        t1 == t2 && r1 < r2 ==> parts_value(t1, r1) < parts_value(t2, r2),
        0 <= parts_value(t1, r1) < two_48() * two_80(),
{
    assert(t1 * two_80() + two_80() <= t2 * two_80() <== t1 < t2) by (nonlinear_arith);
    assert(t1 * two_80() <= (two_48() - 1) * two_80()) by (nonlinear_arith)
        requires
            t1 < two_48(),
    ;
}

/// Splitting an id built from parts gives the parts back (each reduced to its width).
pub proof fn lemma_parts_round_trip(t: int, r: int)
    requires
        t >= 0,
        r >= 0,
    ensures
        parts_value(t, r) / two_80() == t % two_48(),
        parts_value(t, r) % two_80() == r % two_80(),
{
    let a = t % two_48();
    let b = r % two_80();
    vstd::arithmetic::div_mod::lemma_fundamental_div_mod_converse(a * two_80() + b, two_80(), a, b);
}

/// The compact `(hi, lo)` form round-trips.
pub proof fn lemma_hi_lo_round_trip(v: u128)
    ensures
        (v as int / two_64()) * two_64() + (v as int % two_64()) == v,
{
    vstd::arithmetic::div_mod::lemma_fundamental_div_mod(v as int, two_64());
}

/// The top `n` digits of the canonical encoding read back as `v / 32^(26 - n)`.
proof fn lemma_prefix_value_of_encoding(v: u128, n: int)
    requires
        0 <= n <= 26,
    ensures
        crockford_prefix_value(crockford_encoding(v), n) == (v as nat) / pow32((26 - n) as nat),
    decreases n,
{
    let enc = crockford_encoding(v);
    if n == 0 {
        lemma_pow32_25();
        assert((v as nat) < pow32(26));
        assert((v as nat) / pow32(26) == 0) by {
            lemma_pow32_pos(26);
            vstd::arithmetic::div_mod::lemma_basic_div(v as int, pow32(26) as int);
        }
    } else {
        lemma_prefix_value_of_encoding(v, n - 1);
        let k = (26 - n) as nat;
        let q = (v as nat) / pow32(k);
        let d = digit_at(v as nat, 26, n - 1);
        assert(d == q % 32);
        assert(crockford_value(enc[n - 1]) == Some(d));
        lemma_div_step(v as nat, k);
        assert((26 - (n - 1)) as nat == k + 1);
        vstd::arithmetic::div_mod::lemma_fundamental_div_mod(q as int, 32);
    }
}

proof fn lemma_no_error_in_encoding(v: u128, i: int)
    requires
        0 <= i <= 26,
    ensures
        crockford_first_error(crockford_encoding(v), i) is None,
    decreases 26 - i,
{
    let enc = crockford_encoding(v);
    if i < 26 {
        lemma_no_error_in_encoding(v, i + 1);
        let d = digit_at(v as nat, 26, i);
        assert(crockford_value(enc[i]) == Some(d));
        if i == 0 {
            lemma_pow32_25();
            lemma_pow32_pos(25);
            assert((v as nat) / pow32(25) < 8) by {
                if (v as nat) / pow32(25) >= 8 {
                    vstd::arithmetic::div_mod::lemma_fundamental_div_mod(v as int, pow32(25) as int);
                    assert(v as int >= 8 * pow32(25)) by (nonlinear_arith)
                        requires
                            v as int == pow32(25) * ((v as nat) / pow32(25)) + (v as int) % (
                            pow32(25) as int),
                            (v as nat) / pow32(25) >= 8,
                            (v as int) % (pow32(25) as int) >= 0,
                            pow32(25) > 0,
                    ;
                }
            }
        }
    }
}

/// The canonical encoding of any id parses back to the same id.
pub proof fn lemma_crockford_round_trip(v: u128)
    ensures
        crockford_parse(crockford_encoding(v)) == Ok::<u128, IdParseError>(v),
{
    lemma_no_error_in_encoding(v, 0);
    lemma_prefix_value_of_encoding(v, 26);
    assert(pow32(0) == 1);
    assert(crockford_encoding(v).len() == 26);
    assert((v as nat) / 1 == v as nat);
    assert(crockford_prefix_value(crockford_encoding(v), 26) == v as nat);
}

/// The Crockford alphabet, digit by digit: digit `d` is written as the
/// `d`-th character of `0123456789ABCDEFGHJKMNPQRSTVWXYZ`.
pub proof fn lemma_crockford_alphabet(d: nat)
    requires
        d < 32,
    ensures
        crockford_char(d) as char == "0123456789ABCDEFGHJKMNPQRSTVWXYZ"@[d as int],
{
    reveal_strlit("0123456789ABCDEFGHJKMNPQRSTVWXYZ");
}

/// Larger digits are written as larger characters.
pub proof fn lemma_crockford_char_increasing(d1: nat, d2: nat)
    requires
        d1 < d2 < 32,
    ensures
        crockford_char(d1) < crockford_char(d2),
{
}

/// A digit's character reads back as that digit.
proof fn lemma_char_value(d: nat)
    requires
        d < 32,
    ensures
        crockford_value(crockford_char(d)) == Some(d),
{
}

/// The prefix of `n + 1` characters of an encoding is the prefix of `n`
/// characters followed by the next digit.
proof fn lemma_prefix_step(v: u128, n: int)
    requires
        0 <= n < 26,
    ensures
        crockford_prefix_value(crockford_encoding(v), n + 1) == crockford_prefix_value(crockford_encoding(v), n) * 32
            + digit_at(v as nat, 26, n),
        digit_at(v as nat, 26, n) < 32,
{
    lemma_char_value(digit_at(v as nat, 26, n));
}

/// Encodings whose first `m` characters read as the same value agree on those
/// characters.
proof fn lemma_equal_prefix(u: u128, v: u128, m: int)
    requires
        0 <= m <= 26,
        crockford_prefix_value(crockford_encoding(u), m) == crockford_prefix_value(crockford_encoding(v), m),
    ensures
        forall|k: int| 0 <= k < m ==> crockford_encoding(u)[k] == crockford_encoding(v)[k],
    decreases m,
{
    if m > 0 {
        lemma_prefix_step(u, m - 1);
        lemma_prefix_step(v, m - 1);
        lemma_equal_prefix(u, v, m - 1);
        assert(digit_at(u as nat, 26, m - 1) == digit_at(v as nat, 26, m - 1));
    }
}

/// When the first `n` characters of one encoding read as a smaller value than
/// those of another, the first character where they differ is smaller.
proof fn lemma_less_prefix(u: u128, v: u128, n: int)
    requires
        0 <= n <= 26,
        crockford_prefix_value(crockford_encoding(u), n) < crockford_prefix_value(crockford_encoding(v), n),
    ensures
        exists|j: int|
            0 <= j < n && (forall|k: int| 0 <= k < j ==> crockford_encoding(u)[k] == crockford_encoding(v)[k])
                && crockford_encoding(u)[j] < crockford_encoding(v)[j],
    decreases n,
{
    let eu = crockford_encoding(u);
    let ev = crockford_encoding(v);
    lemma_prefix_step(u, n - 1);
    lemma_prefix_step(v, n - 1);
    let pu = crockford_prefix_value(eu, n - 1);
    let pv = crockford_prefix_value(ev, n - 1);
    let du = digit_at(u as nat, 26, n - 1);
    let dv = digit_at(v as nat, 26, n - 1);
    if pu == pv {
        lemma_equal_prefix(u, v, n - 1);
        assert(du < dv);
        lemma_crockford_char_increasing(du, dv);
        assert(eu[n - 1] < ev[n - 1]);
    } else {
        assert(pu < pv) by {
            if pu > pv {
                assert(pu * 32 >= pv * 32 + 32) by (nonlinear_arith)
                    requires
                        pu > pv,
                ;
            }
        }
        lemma_less_prefix(u, v, n - 1);
    }
}

/// Encodings sort as the ids do: for `u < v`, at the first character where
/// their encodings differ, `u`'s is the smaller. Every character is one of the
/// alphabet `0123456789ABCDEFGHJKMNPQRSTVWXYZ`.
pub proof fn lemma_encoding_order(u: u128, v: u128)
    requires
        u < v,
    ensures
        exists|j: int|
            0 <= j < 26 && (forall|k: int| 0 <= k < j ==> crockford_encoding(u)[k] == crockford_encoding(v)[k])
                && crockford_encoding(u)[j] < crockford_encoding(v)[j],
        forall|j: int|
            0 <= j < 26 ==> "0123456789ABCDEFGHJKMNPQRSTVWXYZ"@.contains(#[trigger] crockford_encoding(u)[j] as char),
{
    lemma_prefix_value_of_encoding(u, 26);
    lemma_prefix_value_of_encoding(v, 26);
    assert(pow32(0) == 1);
    lemma_less_prefix(u, v, 26);
    assert forall|j: int| 0 <= j < 26 implies "0123456789ABCDEFGHJKMNPQRSTVWXYZ"@.contains(
        #[trigger] crockford_encoding(u)[j] as char,
    ) by {
        let d = digit_at(u as nat, 26, j);
        reveal_strlit("0123456789ABCDEFGHJKMNPQRSTVWXYZ");
        lemma_crockford_alphabet(d);
        assert("0123456789ABCDEFGHJKMNPQRSTVWXYZ"@[d as int] == crockford_encoding(u)[j] as char);
    }
}

/// Appends a character to a string.
///
/// Wraps `String::push`, which appends the given `char` to the end of the string.
#[verifier::external_body]
fn push_char(s: &mut String, c: char)
    ensures
        final(s)@ == old(s)@.push(c),
{
    s.push(c);
}

/// The clock's milliseconds, clamped at zero, as a `u64`.
/// The millisecond of a clock reading, clamped at 0.
pub open spec fn reading_ms(t: Timestamp) -> int {
    let m = trunc_div(t.0 as int, 1_000_000);
    if m < 0 {
        0
    } else {
        m
    }
}

/// The 128-bit word of two 64-bit draws, high word first.
pub open spec fn draw_u128(hi: u64, lo: u64) -> u128 {
    ((hi as u128) << 64u128) | (lo as u128)
}

fn clamped_millis(ms: i64) -> (r: u64)
    ensures
        r == (if ms < 0 { 0 } else { ms as int }),
{
    if ms < 0 {
        0
    } else {
        ms as u64
    }
}

/// Map one Crockford character to its 5-bit value.
pub fn decode_crockford(c: u8) -> (r: Result<u8, IdParseError>)
    ensures
        match crockford_value(c) {
            Some(d) => r == Ok::<u8, IdParseError>(d as u8),
            None => r == Err::<u8, IdParseError>(IdParseError::InvalidChar(c as char)),
        },
{
    if 48 <= c && c <= 57 {
        Ok(c - 48)
    } else if 65 <= c && c <= 72 {
        Ok(c - 65 + 10)
    } else if c == 74 || c == 75 {
        Ok(c - 74 + 18)
    } else if c == 77 || c == 78 {
        Ok(c - 77 + 20)
    } else if 80 <= c && c <= 84 {
        Ok(c - 80 + 22)
    } else if 86 <= c && c <= 90 {
        Ok(c - 86 + 27)
    } else if 97 <= c && c <= 104 {
        Ok(c - 97 + 10)
    } else if c == 106 || c == 107 {
        Ok(c - 106 + 18)
    } else if c == 109 || c == 110 {
        Ok(c - 109 + 20)
    } else if 112 <= c && c <= 116 {
        Ok(c - 112 + 22)
    } else if 118 <= c && c <= 122 {
        Ok(c - 118 + 27)
    } else if c == 73 || c == 105 || c == 76 || c == 108 {
        Ok(1)
    } else if c == 79 || c == 111 {
        Ok(0)
    } else {
        Err(IdParseError::InvalidChar(c as char))
    }
}

/// The canonical Crockford character of a digit.
pub fn encode_digit(d: u8) -> (c: u8)
    requires
        d < 32,
    ensures
        c == crockford_char(d as nat),
        c as char == "0123456789ABCDEFGHJKMNPQRSTVWXYZ"@[d as int],
{
    proof {
        lemma_crockford_alphabet(d as nat);
    }
    if d < 10 {
        48 + d
    } else if d < 18 {
        65 + d - 10
    } else if d < 20 {
        74 + d - 18
    } else if d < 22 {
        77 + d - 20
    } else if d < 27 {
        80 + d - 22
    } else {
        86 + d - 27
    }
}

proof fn lemma_pow32_pos(n: nat)
    ensures
        pow32(n) > 0,
    decreases n,
{
    if n > 0 {
        lemma_pow32_pos((n - 1) as nat);
    }
}

proof fn lemma_pow32_mono(a: nat, b: nat)
    requires
        a <= b,
    ensures
        pow32(a) <= pow32(b),
    decreases b,
{
    if a < b {
        lemma_pow32_mono(a, (b - 1) as nat);
        lemma_pow32_pos((b - 1) as nat);
    }
}

proof fn lemma_pow32_25()
    ensures
        8 * pow32(25) == 0x1_0000_0000_0000_0000_0000_0000_0000_0000,
        pow32(26) == 32 * pow32(25),
{
    reveal_with_fuel(pow32, 27);
}

/// `v / 32^(k+1) == (v / 32^k) / 32`.
proof fn lemma_div_step(v: nat, k: nat)
    ensures
        v / pow32(k + 1) == (v / pow32(k)) / 32,
{
    lemma_pow32_pos(k);
    assert(pow32(k + 1) == pow32(k) * 32);
    vstd::arithmetic::div_mod::lemma_div_denominator(v as int, pow32(k) as int, 32);
}

/// Identifies a logical agent.
#[derive(Clone, Copy, Debug, PartialEq, Eq, PartialOrd, Ord, Hash, Default, Structural)]
pub struct AgentId(pub u64);

/// Identifies one concurrent instance of an agent (a vector-clock dimension).
#[derive(Clone, Copy, Debug, PartialEq, Eq, PartialOrd, Ord, Hash, Default, Structural)]
pub struct AgentInstanceId(pub u64);

/// Identifies a session (a causally-ordered run of operations by one instance).
#[derive(Clone, Copy, Debug, PartialEq, Eq, PartialOrd, Ord, Hash, Default, Structural)]
pub struct SessionId(pub u64);

} // verus!
