//! Transaction-time and id minting shared by the stores that stamp their
//! writes (semantic, procedural).

use vstd::prelude::*;

use crate::base::ids::{parts_value, MemoryId};
use crate::base::time::{Clock, Timestamp};

verus! {

/// The transaction clock of a store: the last transaction-time stamped and the
/// counter that makes minted ids unique within one millisecond.
#[derive(Debug)]
pub struct TxClock {
    /// Highest transaction-time stamped so far (kept strictly increasing).
    pub last_tx: i64,
    /// Next id-randomness counter.
    pub next_counter: u128,
}

impl TxClock {
    /// A fresh clock (`last_tx = i64::MIN`, `next_counter = 0`).
    pub fn new() -> (tc: TxClock)
        ensures
            tc.last_tx == i64::MIN,
            tc.next_counter == 0,
    {
        TxClock { last_tx: i64::MIN, next_counter: 0 }
    }
}

/// `x + 1`, saturating at `i64::MAX`.
pub open spec fn sat_succ(x: i64) -> i64 {
    if x == i64::MAX {
        x
    } else {
        (x + 1) as i64
    }
}

/// The transaction-time stamped after `last` at clock reading `now`: the
/// reading, unless it does not exceed the last stamp, in which case one past
/// the last stamp.
pub open spec fn stamp(now: i64, last: i64) -> i64 {
    if now >= sat_succ(last) {
        now
    } else {
        sat_succ(last)
    }
}

/// The next transaction-time given the clock reading `now`: the reading, unless
/// it does not exceed the last stamp, in which case one past the last stamp.
pub fn next_tx_at(now: Timestamp, tc: &mut TxClock) -> (t: i64)
    ensures
        t == stamp(now.0, old(tc).last_tx),
        final(tc).last_tx == t,
        final(tc).next_counter == old(tc).next_counter,
{
    let succ = if tc.last_tx == i64::MAX {
        i64::MAX
    } else {
        tc.last_tx + 1
    };
    let t = if now.0 >= succ {
        now.0
    } else {
        succ
    };
    tc.last_tx = t;
    t
}

/// Strictly-increasing transaction-time in nanoseconds: never collides, even if
/// the clock stalls or two writes land in the same instant.
pub fn next_tx<C: Clock>(clock: &C, tc: &mut TxClock) -> (t: i64)
    ensures
        exists|now: Timestamp| #[trigger] call_ensures(C::now, (clock,), now) && t == stamp(now.0, old(tc).last_tx),
        t >= sat_succ(old(tc).last_tx),
        final(tc).last_tx == t,
        final(tc).next_counter == old(tc).next_counter,
{
    let now = clock.now();
    next_tx_at(now, tc)
}

/// The millisecond of a transaction-time in nanoseconds (0 before the epoch).
pub open spec fn tx_millis(tx_nanos: i64) -> int {
    let ms = if tx_nanos >= 0 {
        tx_nanos / 1_000_000
    } else {
        0
    };
    ms
}

/// Mint a time-sortable id from a transaction timestamp (ns) plus the store's
/// counter, which advances (wrapping).
pub fn mint_id(tc: &mut TxClock, tx_nanos: i64) -> (id: MemoryId)
    ensures
        id.0 == parts_value(tx_millis(tx_nanos), old(tc).next_counter as int),
        final(tc).next_counter == (if old(tc).next_counter == u128::MAX {
            0
        } else {
            old(tc).next_counter + 1
        }),
        final(tc).last_tx == old(tc).last_tx,
{
    let counter = tc.next_counter;
    tc.next_counter = tc.next_counter.wrapping_add(1);
    let ms: u64 = if tx_nanos >= 0 {
        (tx_nanos / 1_000_000) as u64
    } else {
        0
    };
    MemoryId::from_parts(ms, counter)
}

/// Successive transaction-times strictly increase while below the maximum.
pub proof fn lemma_next_tx_strictly_increases(last: i64, t: i64)
    requires
        last < i64::MAX,
        t >= sat_succ(last),
    ensures
        t > last,
{
}

} // verus!
