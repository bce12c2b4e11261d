//! Time as a value (`Timestamp`) and as an injectable source (`Clock`).
//!
//! All time flows through the [`Clock`] trait so that bitemporal time-travel and
//! causal histories are reproducible in tests ([`MockClock`]) while production
//! reads the wall clock ([`SystemClock`]).

use std::sync::Arc;
use vstd::prelude::*;

verus! {

/// Clamp a mathematical integer into the range of `i64` (saturating semantics).
pub open spec fn clamp_i64(x: int) -> i64 {
    if x > i64::MAX {
        i64::MAX
    } else if x < i64::MIN {
        i64::MIN
    } else {
        x as i64
    }
}

/// Rust's truncating division of an `i64` by a positive constant.
pub open spec fn trunc_div(x: int, d: int) -> int {
    if x >= 0 {
        x / d
    } else {
        -((-x) / d)
    }
}

/// A point in time, in nanoseconds since the Unix epoch.
#[derive(Clone, Copy, Debug, PartialEq, Eq, PartialOrd, Ord, Hash, Default, Structural)]
pub struct Timestamp(pub i64);

impl Timestamp {
    /// The Unix epoch (`0` nanoseconds).
    pub fn epoch() -> (t: Timestamp)
        ensures
            t.0 == 0,
    {
        Timestamp(0)
    }

    /// Construct from nanoseconds since the epoch.
    pub fn from_nanos(ns: i64) -> (t: Timestamp)
        ensures
            t.0 == ns,
    {
        Timestamp(ns)
    }

    /// Construct from milliseconds since the epoch (saturating on overflow).
    pub fn from_millis(ms: i64) -> (t: Timestamp)
        ensures
            t.0 == clamp_i64(ms * 1_000_000),
    {
        if ms > i64::MAX / 1_000_000 {
            Timestamp(i64::MAX)
        } else if ms < i64::MIN / 1_000_000 {
            Timestamp(i64::MIN)
        } else {
            Timestamp(ms * 1_000_000)
        }
    }

    /// Nanoseconds since the epoch.
    pub fn as_nanos(self) -> (ns: i64)
        ensures
            ns == self.0,
    {
        self.0
    }

    /// Whole milliseconds since the epoch (truncating toward zero).
    pub fn as_millis(self) -> (ms: i64)
        ensures
            ms == trunc_div(self.0 as int, 1_000_000),
    {
        self.0 / 1_000_000
    }

    /// Add a nanosecond offset, saturating at the bounds of `i64`.
    pub fn saturating_add_nanos(self, ns: i64) -> (t: Timestamp)
        ensures
            t.0 == clamp_i64(self.0 + ns),
    {
        Timestamp(saturating_add_i64(self.0, ns))
    }

    /// Nanoseconds elapsed from `earlier` to `self` (saturating).
    pub fn nanos_since(self, earlier: Timestamp) -> (d: i64)
        ensures
            d == clamp_i64(self.0 - earlier.0),
    {
        saturating_sub_i64(self.0, earlier.0)
    }
}

/// `a + b`, saturating at the bounds of `i64`.
pub fn saturating_add_i64(a: i64, b: i64) -> (r: i64)
    ensures
        r == clamp_i64(a + b),
{
    if b > 0 && a > i64::MAX - b {
        i64::MAX
    } else if b < 0 && a < i64::MIN - b {
        i64::MIN
    } else {
        a + b
    }
}

/// `a - b`, saturating at the bounds of `i64`.
pub fn saturating_sub_i64(a: i64, b: i64) -> (r: i64)
    ensures
        r == clamp_i64(a - b),
{
    if b < 0 && a > i64::MAX + b {
        i64::MAX
    } else if b > 0 && a < i64::MIN + b {
        i64::MIN
    } else {
        a - b
    }
}

/// A source of "now".
pub trait Clock {
    /// The current time.
    fn now(&self) -> Timestamp;
}

/// A reading of the system's wall clock.
#[verifier::external_type_specification]
#[verifier::external_body]
pub struct ExSystemTime(std::time::SystemTime);

/// The error of measuring a time before an earlier one.
#[verifier::external_type_specification]
#[verifier::external_body]
pub struct ExSystemTimeError(std::time::SystemTimeError);

/// `SystemTime::now`: the machine's wall clock. Its reading depends on the
/// machine, so nothing is promised of it.
#[verifier::external_body]
fn system_now() -> std::time::SystemTime {
    std::time::SystemTime::now()
}

/// `SystemTime::duration_since(UNIX_EPOCH)`: the time elapsed since the Unix
/// epoch, or an error if `t` lies before it. Nothing is promised of either.
#[verifier::external_body]
fn since_epoch(t: &std::time::SystemTime) -> Result<core::time::Duration, std::time::SystemTimeError> {
    t.duration_since(std::time::UNIX_EPOCH)
}

/// `Duration::as_nanos`: the whole duration in nanoseconds. `Duration` is opaque
/// here, so nothing is promised of the number.
#[verifier::external_body]
fn duration_nanos(d: &core::time::Duration) -> u128 {
    d.as_nanos()
}

/// Reads the wall clock: nanoseconds since the Unix epoch (truncated to 64
/// bits), or 0 if the system time lies before the epoch.
pub(crate) fn wall_clock_nanos() -> i64 {
    let now = system_now();
    match since_epoch(&now) {
        Ok(d) => {
            let n = duration_nanos(&d);
            #[verifier::truncate] (n as i64)
        },
        Err(_) => 0,
    }
}

/// The real wall clock.
#[derive(Clone, Copy, Debug, Default)]
pub struct SystemClock;

impl Clock for SystemClock {
    fn now(&self) -> Timestamp {
        Timestamp(wall_clock_nanos())
    }
}

/// A controllable clock for deterministic tests. Time only moves when told to.
#[derive(Debug)]
pub struct MockClock {
    now_ns: i64,
}

impl MockClock {
    /// The time this clock currently reads.
    pub closed spec fn reading(&self) -> i64 {
        self.now_ns
    }

    /// Create a clock fixed at `start`.
    pub fn new(start: Timestamp) -> (c: MockClock)
        ensures
            c.reading() == start.0,
    {
        MockClock { now_ns: start.0 }
    }

    /// Set the clock to an absolute time.
    pub fn set(&mut self, t: Timestamp)
        ensures
            final(self).reading() == t.0,
    {
        self.now_ns = t.0;
    }

    /// Advance the clock by `ns` nanoseconds (saturating).
    pub fn advance(&mut self, ns: i64)
        ensures
            final(self).reading() == clamp_i64(old(self).reading() + ns),
    {
        self.now_ns = saturating_add_i64(self.now_ns, ns);
    }
}

impl Clock for MockClock {
    fn now(&self) -> (t: Timestamp)
        ensures
            t.0 == self.reading(),
    {
        Timestamp(self.now_ns)
    }
}

/// Whatever a mock clock's `now` returns is its current reading: a caller that
/// knows only that `t` came from `now` on `c` knows `t` is `c`'s reading.
pub proof fn lemma_mock_now_is_reading(c: &MockClock, t: Timestamp)
    requires
        call_ensures(MockClock::now, (c,), t),
    ensures
        t.0 == c.reading(),
{
}

/// A shared clock is itself a clock.
impl<C: Clock> Clock for Arc<C> {
    fn now(&self) -> (t: Timestamp)
        ensures
            call_ensures(C::now, (&**self,), t),
    {
        let inner: &C = &**self;
        inner.now()
    }
}

} // verus!
