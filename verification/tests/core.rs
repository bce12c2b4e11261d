//! Identifiers, time, randomness and record kinds.

use engram::base::codec::RecordKind;
use engram::base::error::IdParseError;
use engram::base::ids::{MemoryId, MemoryIdGenerator, ENCODED_LEN};
use engram::base::rng::{Rng, SplitMix64, SystemRng};
use engram::base::time::{Clock, MockClock, SystemClock, Timestamp};

#[test]
fn lib_version_is_reported() {
    assert!(!engram::base::version().is_empty());
    assert!(!engram::consistency::version().is_empty());
    assert!(!engram::storage::version().is_empty());
    assert!(!engram::query::version().is_empty());
    assert_eq!(engram::base::version(), "0.1.0");
}

#[test]
fn links_against_core() {
    assert!(!engram::base::version().is_empty());
}

#[test]
fn record_kind_tags_round_trip() {
    for kind in [
        RecordKind::Episodic,
        RecordKind::Semantic,
        RecordKind::Procedural,
        RecordKind::Working,
        RecordKind::CausalEdge,
    ] {
        assert_eq!(RecordKind::from_u8(kind.as_u8()), Some(kind));
    }
    assert_eq!(RecordKind::from_u8(0), None);
    assert_eq!(RecordKind::from_u8(99), None);
}

#[test]
fn record_kind_tags_are_stable() {
    assert_eq!(RecordKind::Episodic.as_u8(), 1);
    assert_eq!(RecordKind::Semantic.as_u8(), 2);
    assert_eq!(RecordKind::Procedural.as_u8(), 3);
    assert_eq!(RecordKind::Working.as_u8(), 4);
    assert_eq!(RecordKind::CausalEdge.as_u8(), 5);
}

#[test]
fn parts_round_trip() {
    let id = MemoryId::from_parts(1_700_000_000_000, 0x0123_4567_89AB_CDEF);
    assert_eq!(id.timestamp_ms(), 1_700_000_000_000);
    assert_eq!(id.randomness(), 0x0123_4567_89AB_CDEF);
}

#[test]
fn parts_layout_is_timestamp_then_randomness() {
    let id = MemoryId::from_parts(1, 2);
    assert_eq!(id.0, (1u128 << 80) | 2);
    // Fields wider than their slots are truncated to 48 and 80 bits.
    let wide = MemoryId::from_parts(u64::MAX, u128::MAX);
    assert_eq!(wide.timestamp_ms(), (1u64 << 48) - 1);
    assert_eq!(wide.randomness(), (1u128 << 80) - 1);
}

#[test]
fn string_round_trips() {
    let id = MemoryId(0x0123_4567_89AB_CDEF_FEDC_BA98_7654_3210);
    let s = id.to_string();
    assert_eq!(s.len(), ENCODED_LEN);
    assert_eq!(id, s.parse::<MemoryId>().unwrap());
}

#[test]
fn crockford_encoding_of_small_values() {
    assert_eq!(MemoryId(0).to_string(), "00000000000000000000000000");
    assert_eq!(MemoryId(31).to_string(), "0000000000000000000000000Z");
    assert_eq!(MemoryId(u128::MAX).to_string(), "7ZZZZZZZZZZZZZZZZZZZZZZZZZ");
}

#[test]
fn rejects_bad_strings() {
    assert_eq!("tooshort".parse::<MemoryId>(), Err(IdParseError::WrongLength(8)));
    let bad = "U".repeat(26);
    assert!(matches!(bad.parse::<MemoryId>(), Err(IdParseError::InvalidChar('U'))));
    let overflow = "Z".repeat(26);
    assert_eq!(overflow.parse::<MemoryId>(), Err(IdParseError::Overflow));
}

#[test]
fn lenient_decode_maps_ambiguous_chars() {
    let canonical = "0000000000000000000000000Z".parse::<MemoryId>().unwrap();
    let with_o = "OOOOOOOOOOOOOOOOOOOOOOOOOZ".parse::<MemoryId>().unwrap();
    assert_eq!(canonical, with_o);
    let ones = "0000000000000000000000001".to_string() + "1";
    let with_i = "000000000000000000000000Ii".to_string();
    assert_eq!(ones.parse::<MemoryId>().unwrap(), with_i.parse::<MemoryId>().unwrap());
}

#[test]
fn generator_is_strictly_monotonic_within_a_millisecond() {
    let clock = MockClock::new(Timestamp::from_millis(1000));
    let mut g = MemoryIdGenerator::new(clock, SplitMix64::new(99));
    let mut prev = g.next_id();
    for _ in 0..10_000 {
        let cur = g.next_id();
        assert!(cur > prev, "{cur:?} !> {prev:?}");
        prev = cur;
    }
    assert_eq!(prev.timestamp_ms(), 1000);
}

#[test]
fn generator_tracks_advancing_clock() {
    let clock = MockClock::new(Timestamp::from_millis(1000));
    let mut g = MemoryIdGenerator::new(clock, SplitMix64::new(1));
    let early = g.next_id();
    g.clock_mut().advance(1_000_000); // +1 ms
    let late = g.next_id();
    assert_eq!(early.timestamp_ms(), 1000);
    assert_eq!(late.timestamp_ms(), 1001);
    assert!(late > early);
}

#[test]
fn splitmix_is_deterministic_for_a_seed() {
    let mut a = SplitMix64::new(42);
    let mut b = SplitMix64::new(42);
    for _ in 0..1000 {
        assert_eq!(a.next_u64(), b.next_u64());
    }
}

#[test]
fn splitmix_known_first_output() {
    // The reference SplitMix64 stream for seed 0 starts with this value.
    let mut a = SplitMix64::new(0);
    assert_eq!(a.next_u64(), 0xE220_A839_7B1D_CDAF);
}

#[test]
fn splitmix_differs_across_seeds() {
    let mut a = SplitMix64::new(1);
    let mut b = SplitMix64::new(2);
    assert_ne!(a.next_u64(), b.next_u64());
}

#[test]
fn next_u128_uses_full_width() {
    let mut r = SplitMix64::new(7);
    let v = r.next_u128();
    assert_ne!(v >> 64, 0);
}

#[test]
fn system_rng_instances_diverge() {
    let mut a = SystemRng::new();
    let mut b = SystemRng::new();
    assert_ne!(a.next_u64(), b.next_u64());
}

#[test]
fn mock_clock_is_controllable() {
    let mut clock = MockClock::new(Timestamp::from_millis(1000));
    assert_eq!(clock.now(), Timestamp::from_millis(1000));
    clock.advance(5_000_000); // +5 ms
    assert_eq!(clock.now().as_millis(), 1005);
    clock.set(Timestamp::epoch());
    assert_eq!(clock.now(), Timestamp::epoch());
}

#[test]
fn shared_clock_reflects_updates() {
    let mut clock = MockClock::new(Timestamp::epoch());
    clock.advance(1_000_000);
    let handle = &clock;
    assert_eq!(handle.now().as_millis(), 1);
}

#[test]
fn system_clock_is_nonnegative_and_advances_relationships_hold() {
    let c = SystemClock;
    assert!(c.now().as_nanos() >= 0);
}

#[test]
fn timestamp_arithmetic_saturates() {
    assert_eq!(Timestamp::from_millis(5).as_nanos(), 5_000_000);
    assert_eq!(Timestamp(1_999_999).as_millis(), 1);
    assert_eq!(Timestamp(i64::MAX).saturating_add_nanos(1), Timestamp(i64::MAX));
    assert_eq!(Timestamp(10).nanos_since(Timestamp(3)), 7);
    assert_eq!(Timestamp(i64::MIN).nanos_since(Timestamp(1)), i64::MIN);
}

#[test]
fn generate_takes_the_clock_millisecond_and_one_draw() {
    let clock = MockClock::new(Timestamp::from_millis(1234));
    let mut rng = SplitMix64::new(7);
    let mut twin = SplitMix64::new(7);
    let id = MemoryId::generate(&clock, &mut rng);
    assert_eq!(id, MemoryId::from_parts(1234, twin.next_u128()));
    assert_eq!(rng.next_u64(), twin.next_u64());
    let before_epoch = MockClock::new(Timestamp::from_millis(-5));
    assert_eq!(MemoryId::generate(&before_epoch, &mut rng).timestamp_ms(), 0);
}

#[test]
fn seeded_system_rng_is_splitmix_of_the_mixed_seed() {
    let mut a = SystemRng::seeded(5, 0);
    let mut b = SplitMix64::new(5);
    assert_eq!(a.next_u64(), b.next_u64());
    let mut c = SystemRng::seeded(0, 1);
    let mut d = SplitMix64::new(0x9E37_79B9_7F4A_7C15);
    assert_eq!(c.next_u128(), d.next_u128());
}

#[test]
fn different_seeds_give_different_first_outputs() {
    let mut firsts: Vec<u64> = (0..2000u64).map(|s| SplitMix64::new(s).next_u64()).collect();
    firsts.sort_unstable();
    firsts.dedup();
    assert_eq!(firsts.len(), 2000);
}
