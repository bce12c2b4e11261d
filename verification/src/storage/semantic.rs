//! The semantic store's indexes: mutable, bitemporal, versioned beliefs.
//!
//! A belief is a `(subject, predicate)` whose value, confidence and decay curve
//! change over time. Every upsert or retraction records a new **version** rather
//! than overwriting, so all history stays queryable.
//!
//! Each version carries valid-time and transaction-time. An upsert stamps the
//! new version `tx_from = now` (`now` strictly increasing) and closes the
//! previously current version with `tx_until = now`, so the versions of a belief
//! are contiguous in transaction-time and "what was believed as-of `T`" is the
//! version with the greatest `tx_from <= T`, provided it was still open at `T`.
//!
//! Confidence is a float and is never interpreted here: a version carries the
//! bit pattern of its initial confidence and the parameters of its decay curve,
//! and evaluation happens at read time outside this module.

use vstd::prelude::*;

use crate::base::ids::{lemma_parts_round_trip, two_80, AgentId, MemoryId};
use crate::base::text::{lemma_pair_order, pair_lt, str_lt};
use crate::base::time::{Clock, Timestamp};
use crate::consistency::acc::copy_bytes;
use crate::storage::btree::{
    has_key, lemma_has_key_value, lemma_range_of_contains, lemma_range_of_sorted,
    lemma_value_at, range_of, sorted, value_at, CowBTree, Iter, KeyBound,
};
use crate::storage::common::{mint_id, next_tx, TxClock};
use crate::storage::key::BKey;

verus! {

/// How a belief's confidence decays, with each float parameter held as the bit
/// pattern of an `f32`.
#[derive(Clone, Copy, Debug, PartialEq, Eq, Structural)]
pub enum DecayCode {
    /// `c(t) = c0 · e^(−λt)`: the bits of `λ`.
    Exponential { lambda_bits: u32 },
    /// `c(t) = c0 · (1 + t)^(−β)`: the bits of `β`.
    PowerLaw { beta_bits: u32 },
    /// Flat at `c0` until `drop_at` has elapsed, then flat at `c_low`.
    Step { drop_at: Timestamp, c_low_bits: u32 },
    /// No decay: confidence stays at its initial value.
    Constant,
}

/// One version of a belief.
#[derive(Clone, Debug)]
pub struct SemanticRecord {
    /// Unique id of this belief version.
    pub id: MemoryId,
    /// The agent that holds the belief.
    pub agent_id: AgentId,
    /// Subject of the belief triple.
    pub subject: String,
    /// Predicate of the belief triple.
    pub predicate: String,
    /// Object of the belief triple (opaque bytes).
    pub object: Vec<u8>,
    /// Start of the belief's validity interval (valid-time).
    pub valid_from: Timestamp,
    /// End of the belief's validity interval, if closed.
    pub valid_until: Option<Timestamp>,
    /// When this version was recorded (transaction-time).
    pub tx_from: Timestamp,
    /// When this version was superseded, if it has been.
    pub tx_until: Option<Timestamp>,
    /// The bits of the `f32` confidence at `valid_from`, before decay.
    pub confidence_init_bits: u32,
    /// How confidence decays after `valid_from`.
    pub decay: DecayCode,
    /// Ids of memories that justify this belief (provenance).
    pub provenance_ids: Vec<MemoryId>,
}

/// What a caller supplies to record a belief; the store assigns the id and the
/// transaction-time.
#[derive(Clone, Debug)]
pub struct BeliefInput {
    /// The agent that holds the belief.
    pub agent_id: AgentId,
    /// Subject of the belief triple.
    pub subject: String,
    /// Predicate of the belief triple.
    pub predicate: String,
    /// Object (opaque bytes).
    pub object: Vec<u8>,
    /// When the belief becomes true in the modeled world.
    pub valid_from: Timestamp,
    /// The bits of the `f32` confidence at `valid_from`.
    pub confidence_init_bits: u32,
    /// How confidence decays after `valid_from`.
    pub decay: DecayCode,
    /// Ids of memories justifying this belief.
    pub provenance_ids: Vec<MemoryId>,
}

/// Two belief versions agree field by field.
pub open spec fn same_belief(a: SemanticRecord, b: SemanticRecord) -> bool {
    &&& a.id == b.id
    &&& a.agent_id == b.agent_id
    &&& a.subject@ == b.subject@
    &&& a.predicate@ == b.predicate@
    &&& a.object@ == b.object@
    &&& a.valid_from == b.valid_from
    &&& a.valid_until == b.valid_until
    &&& a.tx_from == b.tx_from
    &&& a.tx_until == b.tx_until
    &&& a.confidence_init_bits == b.confidence_init_bits
    &&& a.decay == b.decay
    &&& a.provenance_ids@ == b.provenance_ids@
}

/// A copy of a list of ids.
pub fn copy_ids(v: &Vec<MemoryId>) -> (c: Vec<MemoryId>)
    ensures
        c@ == v@,
{
    let mut c: Vec<MemoryId> = Vec::new();
    let mut i: usize = 0;
    while i < v.len()
        invariant
            i <= v@.len(),
            c@ == v@.take(i as int),
        decreases v@.len() - i,
    {
        c.push(v[i]);
        i = i + 1;
        assert(c@ =~= v@.take(i as int));
    }
    assert(c@ =~= v@);
    c
}

/// A field-by-field copy of a belief version.
pub fn copy_belief(r: &SemanticRecord) -> (c: SemanticRecord)
    ensures
        same_belief(c, *r),
{
    SemanticRecord {
        id: r.id,
        agent_id: r.agent_id,
        subject: r.subject.clone(),
        predicate: r.predicate.clone(),
        object: copy_bytes(r.object.as_slice()),
        valid_from: r.valid_from,
        valid_until: r.valid_until,
        tx_from: r.tx_from,
        tx_until: r.tx_until,
        confidence_init_bits: r.confidence_init_bits,
        decay: r.decay,
        provenance_ids: copy_ids(&r.provenance_ids),
    }
}

/// No `(subject, predicate)` pair occurs twice in the table.
pub open spec fn distinct_pairs(pairs: Seq<(String, String)>) -> bool {
    forall|a: int, b: int| 0 <= a < b < pairs.len() ==> ((#[trigger] pairs[a]).0@, pairs[a].1@) != (
        (#[trigger] pairs[b]).0@,
        pairs[b].1@,
    )
}

/// The slot of `(subject, predicate)` in the table, if it is there.
pub fn find_pair(pairs: &Vec<(String, String)>, subject: &String, predicate: &String) -> (r: Option<
    usize,
>)
    ensures
        match r {
            Some(s) => s < pairs@.len() && pairs@[s as int].0@ == subject@ && pairs@[s as int].1@
                == predicate@,
            None => forall|s: int| 0 <= s < pairs@.len() ==> ((#[trigger] pairs@[s]).0@, pairs@[s].1@) != (
                subject@,
                predicate@,
            ),
        },
{
    let mut i: usize = 0;
    while i < pairs.len()
        invariant
            i <= pairs@.len(),
            forall|s: int| 0 <= s < i ==> ((#[trigger] pairs@[s]).0@, pairs@[s].1@) != (
                subject@,
                predicate@,
            ),
        decreases pairs@.len() - i,
    {
        if pairs[i].0 == *subject && pairs[i].1 == *predicate {
            return Some(i);
        }
        i = i + 1;
    }
    None
}

/// The pair in slot `k` comes before `(s, p)` in `(subject, predicate)` order.
pub open spec fn slot_before(pairs: Seq<(String, String)>, k: usize, s: Seq<char>, p: Seq<char>) -> bool {
    pair_lt(pairs[k as int].0@, pairs[k as int].1@, s, p)
}

/// `(s, p)` comes before the pair in slot `k`.
pub open spec fn slot_after(pairs: Seq<(String, String)>, k: usize, s: Seq<char>, p: Seq<char>) -> bool {
    pair_lt(s, p, pairs[k as int].0@, pairs[k as int].1@)
}

/// `order` lists every slot of `pairs` exactly once, in strictly increasing
/// `(subject, predicate)` order, so a pair is found by binary search.
pub open spec fn pair_order(pairs: Seq<(String, String)>, order: Seq<usize>) -> bool {
    &&& order.len() == pairs.len()
    &&& forall|i: int| 0 <= i < order.len() ==> (#[trigger] order[i]) < pairs.len()
    &&& forall|a: int, b: int|
        0 <= a < b < order.len() ==> slot_before(
            pairs,
            #[trigger] order[a],
            pairs[(#[trigger] order[b]) as int].0@,
            pairs[order[b] as int].1@,
        )
    &&& forall|k: int| 0 <= k < pairs.len() ==> #[trigger] slot_listed(order, k)
}

/// Slot `k` occurs in `order`.
pub open spec fn slot_listed(order: Seq<usize>, k: int) -> bool {
    exists|i: int| 0 <= i < order.len() && order[i] == k
}

/// Whether `(s1, p1)` comes strictly before `(s2, p2)`.
fn pair_lt_exec(s1: &String, p1: &String, s2: &String, p2: &String) -> (r: bool)
    ensures
        r == pair_lt(s1@, p1@, s2@, p2@),
{
    str_lt(s1, s2) || (*s1 == *s2 && str_lt(p1, p2))
}

/// Binary search of `order` for `(s, p)`: its position, or the position where
/// it would go (everything before it smaller, everything from it on larger).
fn locate(pairs: &Vec<(String, String)>, order: &Vec<usize>, s: &String, p: &String) -> (r: Result<
    usize,
    usize,
>)
    requires
        pair_order(pairs@, order@),
    ensures
        match r {
            Ok(i) => i < order@.len() && pairs@[order@[i as int] as int].0@ == s@ && pairs@[order@[i as int] as int].1@
                == p@,
            Err(i) => {
                &&& i <= order@.len()
                &&& forall|j: int| 0 <= j < i ==> slot_before(pairs@, #[trigger] order@[j], s@, p@)
                &&& forall|j: int| i <= j < order@.len() ==> slot_after(pairs@, #[trigger] order@[j], s@, p@)
            },
        },
{
    let mut lo: usize = 0;
    let mut hi: usize = order.len();
    while lo < hi
        invariant
            pair_order(pairs@, order@),
            lo <= hi <= order@.len(),
            forall|j: int| 0 <= j < lo ==> slot_before(pairs@, #[trigger] order@[j], s@, p@),
            forall|j: int| hi <= j < order@.len() ==> slot_after(pairs@, #[trigger] order@[j], s@, p@),
        decreases hi - lo,
    {
        let mid = lo + (hi - lo) / 2;
        let k = order[mid];
        let q = &pairs[k];
        if q.0 == *s && q.1 == *p {
            return Ok(mid);
        }
        let ghost (qs, qp) = (q.0@, q.1@);
        proof {
            lemma_pair_order(qs, qp, s@, p@, s@, p@);
        }
        if pair_lt_exec(&q.0, &q.1, s, p) {
            proof {
                assert forall|j: int| 0 <= j < mid + 1 implies slot_before(pairs@, #[trigger] order@[j], s@, p@) by {
                    if j < mid {
                        let kj = order@[j];
                        assert(slot_before(pairs@, kj, qs, qp));
                        lemma_pair_order(pairs@[kj as int].0@, pairs@[kj as int].1@, qs, qp, s@, p@);
                    }
                }
            }
            lo = mid + 1;
        } else {
            proof {
                assert forall|j: int| mid <= j < order@.len() implies slot_after(pairs@, #[trigger] order@[j], s@, p@) by {
                    if j > mid {
                        let kj = order@[j];
                        assert(slot_before(pairs@, k, pairs@[kj as int].0@, pairs@[kj as int].1@));
                        lemma_pair_order(s@, p@, qs, qp, pairs@[kj as int].0@, pairs@[kj as int].1@);
                    }
                }
            }
            hi = mid;
        }
    }
    Err(lo)
}

/// The indexes of a bitemporal belief store.
pub struct SemanticIndex {
    pairs: Vec<(String, String)>,
    order: Vec<usize>,
    records: Vec<SemanticRecord>,
    versions: CowBTree<(u64, i64), usize>,
    by_id: CowBTree<u128, usize>,
    tx: TxClock,
}

impl SemanticIndex {
    /// Every belief version ever indexed, in order (a closed copy of a version
    /// is indexed after it).
    pub closed spec fn records(&self) -> Seq<SemanticRecord> {
        self.records@
    }

    /// The store's transaction clock.
    pub closed spec fn tx_clock(&self) -> (i64, u128) {
        (self.tx.last_tx, self.tx.next_counter)
    }

    /// The slot `(subject, predicate)` was interned at, if any.
    closed spec fn slot(&self, subject: Seq<char>, predicate: Seq<char>) -> Option<int> {
        if exists|k: int| 0 <= k < self.pairs@.len() && (#[trigger] self.pairs@[k]).0@ == subject
            && self.pairs@[k].1@ == predicate {
            Some(
                choose|k: int| 0 <= k < self.pairs@.len() && (#[trigger] self.pairs@[k]).0@ == subject
                    && self.pairs@[k].1@ == predicate,
            )
        } else {
            None
        }
    }

    /// Whether a version of `(subject, predicate)` was recorded at
    /// transaction-time `t`.
    pub closed spec fn has_version(&self, subject: Seq<char>, predicate: Seq<char>, t: i64) -> bool {
        match self.slot(subject, predicate) {
            Some(k) => has_key(self.versions.entries(), (k as u64, t)),
            None => false,
        }
    }

    /// The version of `(subject, predicate)` recorded at `t` (meaningful when
    /// there is one).
    pub closed spec fn version_of(&self, subject: Seq<char>, predicate: Seq<char>, t: i64) -> SemanticRecord {
        let k = self.slot(subject, predicate).unwrap();
        self.records@[value_at(self.versions.entries(), (k as u64, t)) as int]
    }

    /// The greatest transaction-time at or before `at` with a version of
    /// `(subject, predicate)`.
    #[verifier::opaque]
    pub closed spec fn floor_tx(&self, subject: Seq<char>, predicate: Seq<char>, at: i64) -> Option<i64> {
        if exists|t: i64|
            #[trigger] self.has_version(subject, predicate, t) && t <= at && forall|w: i64| #[trigger]
                self.has_version(subject, predicate, w) && w <= at ==> w <= t {
            Some(
                choose|t: i64|
                    #[trigger] self.has_version(subject, predicate, t) && t <= at && forall|w: i64| #[trigger]
                        self.has_version(subject, predicate, w) && w <= at ==> w <= t,
            )
        } else {
            None
        }
    }

    /// The version of `(subject, predicate)` live in transaction-time at `at`:
    /// the latest recorded at or before `at`, unless it was closed at or before
    /// `at`.
    pub open spec fn live_at(&self, subject: Seq<char>, predicate: Seq<char>, at: i64) -> Option<SemanticRecord> {
        match self.floor_tx(subject, predicate, at) {
            Some(t) => {
                let r = self.version_of(subject, predicate, t);
                if r.tx_until is None || at < (r.tx_until->0).0 {
                    Some(r)
                } else {
                    None
                }
            },
            None => None,
        }
    }

    /// The ids of the recorded versions.
    pub closed spec fn ids(&self) -> Set<u128> {
        Set::new(|k: u128| exists|j: int| 0 <= j < self.records@.len() && (#[trigger] self.records@[j]).id.0 == k)
    }

    /// Every id held has its randomness below the id counter, and the counter is
    /// still inside the 80-bit randomness field, so the next minted id is new.
    pub closed spec fn counter_ahead(&self) -> bool {
        &&& (self.tx.next_counter as int) < two_80()
        &&& forall|j: int|
            0 <= j < self.records@.len() ==> ((#[trigger] self.records@[j]).id.0 as int) % two_80()
                < self.tx.next_counter
    }

    /// The set of ids held is finite.
    pub proof fn lemma_ids_finite(&self)
        ensures
            self.ids().finite(),
    {
        let ks = self.records@.map_values(|r: SemanticRecord| r.id.0);
        assert forall|k: u128| #[trigger] self.ids().contains(k) <==> ks.to_set().contains(k) by {
            if self.ids().contains(k) {
                let j = choose|j: int| 0 <= j < self.records@.len() && (#[trigger] self.records@[j]).id.0 == k;
                assert(ks[j] == k);
            }
            if ks.to_set().contains(k) {
                let j = choose|j: int| 0 <= j < ks.len() && ks[j] == k;
                assert(self.records@[j].id.0 == k);
            }
        }
        assert(self.ids() =~= ks.to_set());
        vstd::seq_lib::seq_to_set_is_finite(ks);
    }

    /// A version held is one of the recorded versions.
    proof fn lemma_version_recorded(&self, s: Seq<char>, p: Seq<char>, t: i64)
        requires
            self.wf(),
            self.has_version(s, p, t),
        ensures
            exists|j: int| 0 <= j < self.records@.len() && self.records@[j] == self.version_of(s, p, t),
    {
        let k = self.slot(s, p).unwrap();
        lemma_has_key_value(self.versions.entries(), (k as u64, t));
        let i = value_at(self.versions.entries(), (k as u64, t));
        assert(self.records@[i as int] == self.version_of(s, p, t));
    }

    /// The transaction clock is at or past every stamp of every version held:
    /// the next transaction-time is later than all of them.
    pub closed spec fn clock_ahead(&self) -> bool {
        forall|s: Seq<char>, p: Seq<char>, t: i64| #[trigger] self.has_version(s, p, t) ==> {
            &&& t <= self.tx.last_tx
            &&& match self.version_of(s, p, t).tx_until {
                Some(u) => u.0 <= self.tx.last_tx,
                None => true,
            }
        }
    }

    /// The indexes describe the recorded versions.
    pub closed spec fn wf(&self) -> bool {
        let r = self.records@;
        &&& distinct_pairs(self.pairs@)
        &&& pair_order(self.pairs@, self.order@)
        &&& self.pairs@.len() <= usize::MAX
        &&& forall|k: u64, t: i64, i: usize| #[trigger] self.versions.entries().contains(((k, t), i))
            ==> {
                &&& k < self.pairs@.len()
                &&& i < r.len()
                &&& r[i as int].subject@ == self.pairs@[k as int].0@
                &&& r[i as int].predicate@ == self.pairs@[k as int].1@
                &&& r[i as int].tx_from.0 == t
            }
        &&& forall|k: u128, i: usize| #[trigger] self.by_id.entries().contains((k, i)) ==> i < r.len()
            && r[i as int].id.0 == k
        &&& forall|j: int| 0 <= j < r.len() ==> has_key(self.by_id.entries(), (#[trigger] r[j]).id.0)
        &&& self.by_id.entries().len() <= r.len()
        &&& self.versions.entries().len() <= r.len()
    }

    /// The number of versions ever indexed (replaced ones included).
    pub fn recorded(&self) -> (n: usize)
        ensures
            n == self.records().len(),
    {
        self.records.len()
    }

    /// Empty indexes with a fresh transaction clock.
    pub fn new() -> (ix: SemanticIndex)
        ensures
            ix.wf(),
            ix.records() == Seq::<SemanticRecord>::empty(),
            ix.tx_clock() == (i64::MIN, 0u128),
            forall|s: Seq<char>, p: Seq<char>, t: i64| !ix.has_version(s, p, t),
            ix.clock_ahead(),
            ix.counter_ahead(),
    {
        SemanticIndex {
            pairs: Vec::new(),
            order: Vec::new(),
            records: Vec::new(),
            versions: CowBTree::new(),
            by_id: CowBTree::new(),
            tx: TxClock::new(),
        }
    }

    /// With distinct pairs, the slot of an interned pair is where it sits.
    proof fn lemma_slot(&self, subject: Seq<char>, predicate: Seq<char>, k: int)
        requires
            distinct_pairs(self.pairs@),
            0 <= k < self.pairs@.len(),
            self.pairs@[k].0@ == subject,
            self.pairs@[k].1@ == predicate,
        ensures
            self.slot(subject, predicate) == Some(k),
    {
        let c = choose|c: int| 0 <= c < self.pairs@.len() && (#[trigger] self.pairs@[c]).0@ == subject
            && self.pairs@[c].1@ == predicate;
        if c != k {
            if c < k {
                assert((self.pairs@[c].0@, self.pairs@[c].1@) != (self.pairs@[k].0@, self.pairs@[k].1@));
            } else {
                assert((self.pairs@[k].0@, self.pairs@[k].1@) != (self.pairs@[c].0@, self.pairs@[c].1@));
            }
        }
    }

    /// Two indexes with the same contents agree on every view of them.
    proof fn lemma_same_index(x: SemanticIndex, y: SemanticIndex)
        requires
            x.pairs == y.pairs,
            x.order == y.order,
            x.records == y.records,
            x.versions == y.versions,
            x.by_id == y.by_id,
        ensures
            x.wf() == y.wf(),
            x.records() == y.records(),
            forall|s: Seq<char>, p: Seq<char>, t: i64| #[trigger] x.has_version(s, p, t) == y.has_version(s, p, t),
            forall|s: Seq<char>, p: Seq<char>, t: i64| #[trigger] x.version_of(s, p, t) == y.version_of(s, p, t),
    {
        assert forall|s: Seq<char>, p: Seq<char>| #[trigger] x.slot(s, p) == y.slot(s, p) by {}
    }

    /// Two indexes with the same contents agree on what is live when.
    proof fn lemma_same_live(x: SemanticIndex, y: SemanticIndex, s: Seq<char>, p: Seq<char>, at: i64)
        requires
            x.pairs == y.pairs,
            x.order == y.order,
            x.records == y.records,
            x.versions == y.versions,
            x.by_id == y.by_id,
        ensures
            x.live_at(s, p, at) == y.live_at(s, p, at),
    {
        SemanticIndex::lemma_same_index(x, y);
        x.lemma_floor_spec(s, p, at);
        y.lemma_floor_spec(s, p, at);
        match x.floor_tx(s, p, at) {
            Some(t) => {
                assert(x.has_version(s, p, t) && t <= at);
                assert forall|w: i64| #[trigger] y.has_version(s, p, w) && w <= at implies w <= t by {
                    assert(x.has_version(s, p, w));
                }
                y.lemma_floor_is(s, p, at, t);
            },
            None => {
                if y.floor_tx(s, p, at) is Some {
                    let t = y.floor_tx(s, p, at)->0;
                    assert(x.has_version(s, p, t) && t <= at);
                    assert forall|w: i64| #[trigger] x.has_version(s, p, w) && w <= at implies w <= t by {
                        assert(y.has_version(s, p, w));
                    }
                    assert(false);
                }
            },
        }
    }

    /// The slot of `(subject, predicate)`, if it was interned (binary search).
    fn find(&self, subject: &String, predicate: &String) -> (r: Option<usize>)
        requires
            self.wf(),
        ensures
            match r {
                Some(k) => k < self.pairs@.len() && self.pairs@[k as int].0@ == subject@ && self.pairs@[k as int].1@
                    == predicate@,
                None => forall|k: int| 0 <= k < self.pairs@.len() ==> ((#[trigger] self.pairs@[k]).0@, self.pairs@[k].1@)
                    != (subject@, predicate@),
            },
    {
        match locate(&self.pairs, &self.order, subject, predicate) {
            Ok(i) => Some(self.order[i]),
            Err(i) => {
                proof {
                    lemma_pair_order(subject@, predicate@, subject@, predicate@, subject@, predicate@);
                    assert(pair_order(self.pairs@, self.order@));
                    assert forall|k: int| 0 <= k < self.pairs@.len() implies ((#[trigger] self.pairs@[k]).0@, self.pairs@[k].1@)
                        != (subject@, predicate@) by {
                        assert(slot_listed(self.order@, k));
                        let j = choose|j: int| 0 <= j < self.order@.len() && self.order@[j] == k;
                        if j < i {
                            assert(slot_before(self.pairs@, self.order@[j], subject@, predicate@));
                        } else {
                            assert(slot_after(self.pairs@, self.order@[j], subject@, predicate@));
                        }
                    }
                }
                None
            },
        }
    }

    /// The slot of `(subject, predicate)`, interning it if it is new.
    fn intern(&mut self, subject: &String, predicate: &String) -> (k: usize)
        requires
            old(self).wf(),
        ensures
            final(self).wf(),
            k < final(self).pairs@.len(),
            final(self).pairs@[k as int].0@ == subject@,
            final(self).pairs@[k as int].1@ == predicate@,
            old(self).pairs@.len() <= final(self).pairs@.len() <= old(self).pairs@.len() + 1,
            final(self).pairs@.len() == old(self).pairs@.len() + 1 ==> k == old(self).pairs@.len(),
            forall|t: int| 0 <= t < old(self).pairs@.len() ==> final(self).pairs@[t] == old(self).pairs@[t],
            final(self).records@ == old(self).records@,
            final(self).versions.entries() == old(self).versions.entries(),
            final(self).by_id.entries() == old(self).by_id.entries(),
            final(self).tx == old(self).tx,
    {
        match locate(&self.pairs, &self.order, subject, predicate) {
            Ok(i) => self.order[i],
            Err(pos) => {
                proof {
                    lemma_pair_order(subject@, predicate@, subject@, predicate@, subject@, predicate@);
                    assert(pair_order(self.pairs@, self.order@));
                    assert forall|k: int| 0 <= k < self.pairs@.len() implies ((#[trigger] self.pairs@[k]).0@, self.pairs@[k].1@)
                        != (subject@, predicate@) by {
                        assert(slot_listed(self.order@, k));
                        let j = choose|j: int| 0 <= j < self.order@.len() && self.order@[j] == k;
                        if j < pos {
                            assert(slot_before(self.pairs@, self.order@[j], subject@, predicate@));
                        } else {
                            assert(slot_after(self.pairs@, self.order@[j], subject@, predicate@));
                        }
                    }
                }
                let k = self.pairs.len();
                let ghost o0 = self.order@;
                let ghost p0 = self.pairs@;
                self.pairs.push((subject.clone(), predicate.clone()));
                self.order.insert(pos, k);
                let _ = self.pairs.len();
                proof {
                    let ps = self.pairs@;
                    let od = self.order@;
                    assert(ps[k as int].0@ == subject@ && ps[k as int].1@ == predicate@);
                    assert forall|i: int| 0 <= i < od.len() implies (#[trigger] od[i]) < ps.len() by {
                        if i < pos {
                            assert(od[i] == o0[i]);
                        } else if i > pos {
                            assert(od[i] == o0[i - 1]);
                        }
                    }
                    assert forall|i: int| 0 <= i < od.len() && i != pos implies ps[(#[trigger] od[i]) as int] == p0[od[i] as int] by {
                        if i < pos {
                            assert(od[i] == o0[i]);
                        } else {
                            assert(od[i] == o0[i - 1]);
                        }
                    }
                    assert forall|a: int, b: int| 0 <= a < b < od.len() implies slot_before(
                        ps,
                        #[trigger] od[a],
                        ps[(#[trigger] od[b]) as int].0@,
                        ps[od[b] as int].1@,
                    ) by {
                        if b < pos {
                            assert(od[a] == o0[a] && od[b] == o0[b]);
                            assert(slot_before(p0, o0[a], p0[o0[b] as int].0@, p0[o0[b] as int].1@));
                        } else if b == pos {
                            assert(od[a] == o0[a]);
                            assert(slot_before(p0, o0[a], subject@, predicate@));
                        } else if a == pos {
                            assert(od[b] == o0[b - 1]);
                            assert(slot_after(p0, o0[b - 1], subject@, predicate@));
                        } else if a < pos {
                            assert(od[a] == o0[a] && od[b] == o0[b - 1]);
                            assert(slot_before(p0, o0[a], subject@, predicate@));
                            assert(slot_after(p0, o0[b - 1], subject@, predicate@));
                            lemma_pair_order(p0[o0[a] as int].0@, p0[o0[a] as int].1@, subject@, predicate@,
                                p0[o0[b - 1] as int].0@, p0[o0[b - 1] as int].1@);
                        } else {
                            assert(od[a] == o0[a - 1] && od[b] == o0[b - 1]);
                            assert(slot_before(p0, o0[a - 1], p0[o0[b - 1] as int].0@, p0[o0[b - 1] as int].1@));
                        }
                    }
                    assert forall|kk: int| 0 <= kk < ps.len() implies #[trigger] slot_listed(od, kk) by {
                        if kk == k {
                            assert(od[pos as int] == kk);
                        } else {
                            assert(slot_listed(o0, kk));
                            let j = choose|j: int| 0 <= j < o0.len() && o0[j] == kk;
                            if j < pos {
                                assert(od[j] == kk);
                            } else {
                                assert(od[j + 1] == kk);
                            }
                        }
                    }
                    assert(pair_order(ps, od));
                }
                proof {
                    let ps = self.pairs@;
                    assert forall|a: int, b: int| 0 <= a < b < ps.len() implies ((#[trigger] ps[a]).0@, ps[a].1@)
                        != ((#[trigger] ps[b]).0@, ps[b].1@) by {
                        if b < k {
                            assert(ps[a] == old(self).pairs@[a] && ps[b] == old(self).pairs@[b]);
                        } else {
                            assert(ps[a] == old(self).pairs@[a]);
                        }
                    }
                    assert forall|kk: u64, t: i64, i: usize| #[trigger]
                        self.versions.entries().contains(((kk, t), i)) implies kk < ps.len()
                        && self.records@[i as int].subject@ == ps[kk as int].0@
                        && self.records@[i as int].predicate@ == ps[kk as int].1@ by {
                        assert(old(self).versions.entries().contains(((kk, t), i)));
                        assert(ps[kk as int] == old(self).pairs@[kk as int]);
                    }
                }
                k
            },
        }
    }

    /// Index one belief version: it becomes the version of its belief recorded
    /// at its `tx_from`, replacing whatever was there, and is found by its id.
    pub fn index(&mut self, record: SemanticRecord)
        requires
            old(self).wf(),
            old(self).records().len() + 1 < usize::MAX,
        ensures
            final(self).wf(),
            final(self).records() == old(self).records().push(record),
            final(self).tx_clock() == old(self).tx_clock(),
            final(self).has_version(record.subject@, record.predicate@, record.tx_from.0),
            final(self).version_of(record.subject@, record.predicate@, record.tx_from.0) == record,
            forall|s: Seq<char>, p: Seq<char>, t: i64| (s, p, t) != (record.subject@, record.predicate@, record.tx_from.0)
                ==> {
                &&& #[trigger] final(self).has_version(s, p, t) == old(self).has_version(s, p, t)
                &&& old(self).has_version(s, p, t) ==> final(self).version_of(s, p, t) == old(
                    self,
                ).version_of(s, p, t)
            },
    {
        let ghost o = *old(self);
        let k = self.intern(&record.subject, &record.predicate);
        let _ = self.pairs.len();
        let ghost m = *self;
        let idx = self.records.len();
        let key = (k as u64, record.tx_from.0);
        let _ = self.versions.len();
        let _ = self.by_id.len();
        self.versions.insert(key, idx);
        self.by_id.insert(record.id.0, idx);
        let ghost rec = record;
        self.records.push(record);
        proof {
            let r = self.records@;
            let es = self.versions.entries();
            let is = self.by_id.entries();
            assert(r[idx as int] == rec);
            assert forall|kk: u64, t: i64, i: usize| #[trigger] es.contains(((kk, t), i)) implies {
                &&& kk < self.pairs@.len()
                &&& i < r.len()
                &&& r[i as int].subject@ == self.pairs@[kk as int].0@
                &&& r[i as int].predicate@ == self.pairs@[kk as int].1@
                &&& r[i as int].tx_from.0 == t
            } by {
                if ((kk, t), i) != (key, idx) {
                    assert(m.versions.entries().contains(((kk, t), i)));
                    assert(r[i as int] == m.records@[i as int]);
                }
            }
            assert forall|kk: u128, i: usize| #[trigger] is.contains((kk, i)) implies i < r.len()
                && r[i as int].id.0 == kk by {
                if (kk, i) != (rec.id.0, idx) {
                    assert(m.by_id.entries().contains((kk, i)));
                    assert(r[i as int] == m.records@[i as int]);
                }
            }
            assert forall|j: int| 0 <= j < r.len() implies has_key(is, (#[trigger] r[j]).id.0) by {
                if j == idx {
                    assert(is.contains((rec.id.0, idx)));
                    lemma_value_at(is, rec.id.0, idx);
                } else {
                    assert(r[j] == m.records@[j]);
                    let kk = r[j].id.0;
                    assert(has_key(m.by_id.entries(), kk));
                    if kk != rec.id.0 {
                        lemma_has_key_value(m.by_id.entries(), kk);
                        let w = value_at(m.by_id.entries(), kk);
                        assert(is.contains((kk, w)));
                        lemma_value_at(is, kk, w);
                    } else {
                        assert(is.contains((rec.id.0, idx)));
                        lemma_value_at(is, rec.id.0, idx);
                    }
                }
            }
            assert(self.wf());
            self.lemma_slot(rec.subject@, rec.predicate@, k as int);
            assert(es.contains((key, idx)));
            lemma_value_at(es, key, idx);
            assert forall|s: Seq<char>, p: Seq<char>, t: i64| (s, p, t) != (rec.subject@, rec.predicate@, rec.tx_from.0)
                implies {
                &&& #[trigger] self.has_version(s, p, t) == o.has_version(s, p, t)
                &&& o.has_version(s, p, t) ==> self.version_of(s, p, t) == o.version_of(s, p, t)
            } by {
                match o.slot(s, p) {
                    Some(c) => {
                        assert(0 <= c < o.pairs@.len() && o.pairs@[c].0@ == s && o.pairs@[c].1@ == p);
                        assert(self.pairs@[c] == o.pairs@[c]);
                        self.lemma_slot(s, p, c);
                        let k2 = (c as u64, t);
                        assert(k2 != key) by {
                            if k2 == key {
                                assert(c == k as int);
                            }
                        }
                        if has_key(o.versions.entries(), k2) {
                            lemma_has_key_value(o.versions.entries(), k2);
                            let w = value_at(o.versions.entries(), k2);
                            assert(es.contains((k2, w)));
                            lemma_value_at(es, k2, w);
                            assert(r[w as int] == o.records@[w as int]);
                        } else {
                            if has_key(es, k2) {
                                lemma_has_key_value(es, k2);
                                let w = value_at(es, k2);
                                assert(o.versions.entries().contains((k2, w)));
                                lemma_value_at(o.versions.entries(), k2, w);
                            }
                        }
                    },
                    None => {
                        if self.has_version(s, p, t) {
                            let c = self.slot(s, p).unwrap();
                            assert(0 <= c < self.pairs@.len() && self.pairs@[c].0@ == s && self.pairs@[c].1@ == p);
                            if c < o.pairs@.len() {
                                assert(self.pairs@[c] == o.pairs@[c]);
                            }
                            assert(c == k as int);
                            let k2 = (c as u64, t);
                            lemma_has_key_value(es, k2);
                            let w = value_at(es, k2);
                            if k2 != key {
                                assert(o.versions.entries().contains((k2, w)));
                                assert(w < o.records@.len());
                                assert(o.records@[w as int].subject@ == o.pairs@[k as int].0@);
                            } else {
                                assert(s == rec.subject@ && p == rec.predicate@);
                            }
                        }
                    },
                }
            }
        }
    }
}

impl SemanticIndex {
    /// What the floor is: the greatest version at or before `at`, if any.
    proof fn lemma_floor_spec(&self, s: Seq<char>, p: Seq<char>, at: i64)
        ensures
            match self.floor_tx(s, p, at) {
                Some(t) => self.has_version(s, p, t) && t <= at && forall|w: i64| #[trigger]
                    self.has_version(s, p, w) && w <= at ==> w <= t,
                None => forall|t: i64| !(#[trigger] self.has_version(s, p, t) && t <= at && forall|w: i64| #[trigger]
                    self.has_version(s, p, w) && w <= at ==> w <= t),
            },
    {
        reveal(SemanticIndex::floor_tx);
    }

    /// The live version is the version of its belief recorded at its `tx_from`.
    proof fn lemma_live_fields(&self, s: Seq<char>, p: Seq<char>, at: i64)
        requires
            self.wf(),
        ensures
            self.live_at(s, p, at) is Some ==> {
                let r = self.live_at(s, p, at)->0;
                &&& r.subject@ == s
                &&& r.predicate@ == p
                &&& self.has_version(s, p, r.tx_from.0)
                &&& self.version_of(s, p, r.tx_from.0) == r
                &&& self.floor_tx(s, p, at) == Some(r.tx_from.0)
            },
    {
        self.lemma_floor_spec(s, p, at);
        if let Some(t) = self.floor_tx(s, p, at) {
            let k = self.slot(s, p).unwrap();
            assert(0 <= k < self.pairs@.len() && self.pairs@[k].0@ == s && self.pairs@[k].1@ == p);
            let key = (k as u64, t);
            lemma_has_key_value(self.versions.entries(), key);
        }
    }

    /// A version at or before `at` that no other such version exceeds is the floor.
    proof fn lemma_floor_is(&self, s: Seq<char>, p: Seq<char>, at: i64, t: i64)
        requires
            self.has_version(s, p, t),
            t <= at,
            forall|w: i64| #[trigger] self.has_version(s, p, w) && w <= at ==> w <= t,
        ensures
            self.floor_tx(s, p, at) == Some(t),
    {
        reveal(SemanticIndex::floor_tx);
        let c = choose|c: i64|
            #[trigger] self.has_version(s, p, c) && c <= at && forall|w: i64| #[trigger]
                self.has_version(s, p, w) && w <= at ==> w <= c;
        assert(c <= t);
        assert(t <= c);
    }

    /// The entries of pair slot `k` recorded at or before `at`, ascending.
    fn pair_range(&self, k: usize, at: i64) -> (it: Iter<(u64, i64), usize>)
        requires
            self.wf(),
            k < self.pairs@.len(),
        ensures
            sorted(it.remaining()),
            sorted(self.versions.entries()),
            forall|i: int| 0 <= i < it.remaining().len() ==> {
                &&& self.versions.entries().contains(#[trigger] it.remaining()[i])
                &&& (it.remaining()[i].0).0 == k
                &&& (it.remaining()[i].0).1 <= at
                &&& it.remaining()[i].1 < self.records@.len()
            },
            forall|t: i64, i: usize| #[trigger] self.versions.entries().contains(((k as u64, t), i)) && t <= at
                ==> it.remaining().contains(((k as u64, t), i)),
    {
        let _ = self.versions.len();
        let lo = KeyBound::Included((k as u64, i64::MIN));
        let hi = KeyBound::Included((k as u64, at));
        let it = self.versions.range(lo, hi);
        proof {
            let es = self.versions.entries();
            let rg = it.remaining();
            lemma_range_of_sorted(es, lo, hi);
            assert forall|i: int| 0 <= i < rg.len() implies {
                &&& es.contains(#[trigger] rg[i])
                &&& (rg[i].0).0 == k
                &&& (rg[i].0).1 <= at
                &&& rg[i].1 < self.records@.len()
            } by {
                assert(rg.contains(rg[i]));
                lemma_range_of_contains(es, lo, hi, rg[i]);
                let e = rg[i];
                assert(es.contains((((e.0).0, (e.0).1), e.1)));
            }
            assert forall|t: i64, i: usize| #[trigger] es.contains(((k as u64, t), i)) && t <= at implies rg.contains(
                ((k as u64, t), i),
            ) by {
                lemma_range_of_contains(es, lo, hi, ((k as u64, t), i));
            }
        }
        it
    }

    /// The version of `(subject, predicate)` live in transaction-time at `at`.
    fn live_version(&self, subject: &String, predicate: &String, at: i64) -> (r: Option<SemanticRecord>)
        requires
            self.wf(),
        ensures
            match r {
                None => self.live_at(subject@, predicate@, at) is None,
                Some(x) => self.live_at(subject@, predicate@, at) is Some && same_belief(
                    x,
                    self.live_at(subject@, predicate@, at)->0,
                ),
            },
    {
        match self.find(subject, predicate) {
            None => {
                proof {
                    assert(self.slot(subject@, predicate@) is None);
                    self.lemma_floor_spec(subject@, predicate@, at);
                }
                None
            },
            Some(k) => {
                proof {
                    self.lemma_slot(subject@, predicate@, k as int);
                }
                let mut it = self.pair_range(k, at);
                let ghost rg = it.remaining();
                let mut last: Option<((u64, i64), usize)> = None;
                let ghost mut n: int = 0;
                while it.has_next()
                    invariant
                        0 <= n <= rg.len(),
                        it.remaining() == rg.skip(n),
                        last == (if n == 0 {
                            None::<((u64, i64), usize)>
                        } else {
                            Some(rg[n - 1])
                        }),
                    decreases rg.len() - n,
                {
                    last = it.next();
                    proof {
                        n = n + 1;
                        assert(it.remaining() =~= rg.skip(n));
                    }
                }
                let ghost es = self.versions.entries();
                match last {
                    None => {
                        proof {
                            assert(rg.len() == 0);
                            assert forall|t: i64| !(#[trigger] self.has_version(subject@, predicate@, t) && t
                                <= at) by {
                                if self.has_version(subject@, predicate@, t) && t <= at {
                                    let key = (k as u64, t);
                                    lemma_has_key_value(es, key);
                                    assert(rg.contains((key, value_at(es, key))));
                                }
                            }
                            self.lemma_floor_spec(subject@, predicate@, at);
                        }
                        None
                    },
                    Some((key, i)) => {
                        let q: Ghost<int> = Ghost(rg.len() - 1);
                        proof {
                            assert(rg[q@] == (key, i));
                            assert(es.contains(rg[q@]));
                            assert(es.contains(((key.0, key.1), i)));
                            let t = key.1;
                            lemma_value_at(es, key, i);
                            assert(self.has_version(subject@, predicate@, t));
                            assert forall|w: i64| #[trigger] self.has_version(subject@, predicate@, w) && w
                                <= at implies w <= t by {
                                let kw = (k as u64, w);
                                lemma_has_key_value(es, kw);
                                let iw = value_at(es, kw);
                                assert(rg.contains((kw, iw)));
                                let pp = choose|pp: int| 0 <= pp < rg.len() && rg[pp] == (kw, iw);
                                if pp < q@ {
                                    assert(rg[pp].0.precedes(rg[q@].0));
                                }
                            }
                            self.lemma_floor_is(subject@, predicate@, at, t);
                        }
                        let live = match self.records[i].tx_until {
                            None => true,
                            Some(u) => at < u.0,
                        };
                        if live {
                            Some(copy_belief(&self.records[i]))
                        } else {
                            None
                        }
                    },
                }
            },
        }
    }

    /// Time travel: the version of `(subject, predicate)` believed as-of
    /// transaction-time `tx_at`.
    pub fn get_at_tx(&self, subject: &str, predicate: &str, tx_at: Timestamp) -> (r: Option<SemanticRecord>)
        requires
            self.wf(),
        ensures
            match r {
                None => self.live_at(subject@, predicate@, tx_at.0) is None,
                Some(x) => self.live_at(subject@, predicate@, tx_at.0) is Some && same_belief(
                    x,
                    self.live_at(subject@, predicate@, tx_at.0)->0,
                ),
            },
    {
        let s = subject.to_owned();
        let p = predicate.to_owned();
        self.live_version(&s, &p, tx_at.0)
    }

    /// The belief as currently known: the version live at the clock's reading,
    /// returned with that reading (the time its confidence is evaluated at).
    pub fn current<C: Clock>(&self, clock: &C, subject: &str, predicate: &str) -> (r: (
        Timestamp,
        Option<SemanticRecord>,
    ))
        requires
            self.wf(),
        ensures
            call_ensures(C::now, (clock,), r.0),
            match r.1 {
                None => self.live_at(subject@, predicate@, r.0.0) is None,
                Some(x) => self.live_at(subject@, predicate@, r.0.0) is Some && same_belief(
                    x,
                    self.live_at(subject@, predicate@, r.0.0)->0,
                ),
            },
    {
        let now = clock.now();
        (now, self.get_at_tx(subject, predicate, now))
    }

    /// Every version of `(subject, predicate)`, ascending by transaction-time.
    pub fn history(&self, subject: &str, predicate: &str) -> (out: Vec<SemanticRecord>)
        requires
            self.wf(),
        ensures
            forall|i: int| 0 <= i < out@.len() ==> self.has_version(subject@, predicate@, (#[trigger] out@[i]).tx_from.0)
                && same_belief(out@[i], self.version_of(subject@, predicate@, out@[i].tx_from.0)),
            forall|t: i64| #[trigger] self.has_version(subject@, predicate@, t) ==> exists|i: int|
                0 <= i < out@.len() && (#[trigger] out@[i]).tx_from.0 == t,
            forall|a: int, b: int| 0 <= a < b < out@.len() ==> (#[trigger] out@[a]).tx_from.0
                < (#[trigger] out@[b]).tx_from.0,
    {
        let s = subject.to_owned();
        let p = predicate.to_owned();
        match self.find(&s, &p) {
            None => {
                proof {
                    assert(self.slot(subject@, predicate@) is None);
                }
                Vec::new()
            },
            Some(k) => {
                proof {
                    self.lemma_slot(subject@, predicate@, k as int);
                }
                let mut it = self.pair_range(k, i64::MAX);
                let ghost rg = it.remaining();
                let ghost es = self.versions.entries();
                let mut out: Vec<SemanticRecord> = Vec::new();
                while it.has_next()
                    invariant
                        self.wf(),
                        k < self.pairs@.len(),
                        out@.len() <= rg.len(),
                        it.remaining() == rg.skip(out@.len() as int),
                        forall|i: int| 0 <= i < rg.len() ==> {
                            &&& es.contains(#[trigger] rg[i])
                            &&& (rg[i].0).0 == k
                            &&& rg[i].1 < self.records@.len()
                        },
                        es == self.versions.entries(),
                        forall|i: int| 0 <= i < out@.len() ==> same_belief(
                            #[trigger] out@[i],
                            self.records@[rg[i].1 as int],
                        ),
                    decreases rg.len() - out@.len(),
                {
                    match it.next() {
                        Some(e) => {
                            assert(e == rg[out@.len() as int]);
                            let c = copy_belief(&self.records[e.1]);
                            out.push(c);
                            assert(it.remaining() =~= rg.skip(out@.len() as int));
                        },
                        None => {},
                    }
                }
                proof {
                    assert(out@.len() == rg.len());
                    assert forall|i: int| 0 <= i < out@.len() implies self.has_version(
                        subject@,
                        predicate@,
                        (#[trigger] out@[i]).tx_from.0,
                    ) && same_belief(out@[i], self.version_of(subject@, predicate@, out@[i].tx_from.0)) by {
                        let e = rg[i];
                        assert(es.contains(((k as u64, (e.0).1), e.1)));
                        assert(e.0 == (k as u64, out@[i].tx_from.0));
                        lemma_value_at(es, e.0, e.1);
                    }
                    assert forall|t: i64| #[trigger] self.has_version(subject@, predicate@, t) implies exists|i: int|
                        0 <= i < out@.len() && (#[trigger] out@[i]).tx_from.0 == t by {
                        let kt = (k as u64, t);
                        lemma_has_key_value(es, kt);
                        let it2 = value_at(es, kt);
                        assert(rg.contains((kt, it2)));
                        let pp = choose|pp: int| 0 <= pp < rg.len() && rg[pp] == (kt, it2);
                        assert(same_belief(out@[pp], self.records@[it2 as int]));
                    }
                    assert forall|a: int, b: int| 0 <= a < b < out@.len() implies (#[trigger] out@[a]).tx_from.0
                        < (#[trigger] out@[b]).tx_from.0 by {
                        assert(rg[a].0.precedes(rg[b].0));
                        assert(es.contains(((k as u64, (rg[a].0).1), rg[a].1)));
                        assert(es.contains(((k as u64, (rg[b].0).1), rg[b].1)));
                    }
                }
                out
            },
        }
    }

    /// A belief version by id.
    pub fn get_by_id(&self, id: MemoryId) -> (r: Option<SemanticRecord>)
        requires
            self.wf(),
        ensures
            match r {
                None => !self.ids().contains(id.0),
                Some(x) => x.id == id && exists|j: int| 0 <= j < self.records().len() && same_belief(
                    x,
                    #[trigger] self.records()[j],
                ),
            },
    {
        match self.by_id.get(&id.0) {
            None => {
                proof {
                    if self.ids().contains(id.0) {
                        let j = choose|j: int| 0 <= j < self.records@.len() && (#[trigger] self.records@[j]).id.0 == id.0;
                        assert(has_key(self.by_id.entries(), self.records@[j].id.0));
                        assert(has_key(self.by_id.entries(), id.0));
                        assert(false);
                    }
                }
                None
            },
            Some(i) => {
                let x = copy_belief(&self.records[i]);
                assert(MemoryId(id.0) == id);
                assert(x.id == MemoryId(x.id.0));
                assert(same_belief(x, self.records()[i as int]));
                Some(x)
            },
        }
    }

    /// The number of distinct version ids stored.
    pub fn version_count(&self) -> (n: usize)
        requires
            self.wf(),
        ensures
            n == self.ids().len(),
    {
        let n = self.by_id.len();
        proof {
            let is = self.by_id.entries();
            let keys = is.map_values(|e: (u128, usize)| e.0);
            assert(keys.no_duplicates()) by {
                assert forall|a: int, b: int| 0 <= a < keys.len() && 0 <= b < keys.len() && a != b implies keys[a]
                    != keys[b] by {
                    if a < b {
                        assert(is[a].0.precedes(is[b].0));
                    } else {
                        assert(is[b].0.precedes(is[a].0));
                    }
                }
            }
            keys.unique_seq_to_set();
            assert(keys.to_set() =~= self.ids()) by {
                assert forall|k: u128| keys.to_set().contains(k) implies self.ids().contains(k) by {
                    let a = choose|a: int| 0 <= a < keys.len() && keys[a] == k;
                    assert(is.contains(is[a]));
                    assert(is.contains((is[a].0, is[a].1)));
                    let j = is[a].1 as int;
                    assert(self.records@[j].id.0 == k);
                }
                assert forall|k: u128| self.ids().contains(k) implies keys.to_set().contains(k) by {
                    let j = choose|j: int| 0 <= j < self.records@.len() && (#[trigger] self.records@[j]).id.0 == k;
                    assert(has_key(is, self.records@[j].id.0));
                    let a = choose|a: int| 0 <= a < is.len() && (#[trigger] is[a]).0 == k;
                    assert(keys[a] == k);
                }
            }
        }
        n
    }
}

/// What an upsert of `input` did to the indexes, taking them from `o` to `f`
/// and returning `r`: a fresh version at a fresh transaction-time `t`, and the
/// version open at `t` (if any) closed at `t`; nothing else changed.
pub open spec fn upsert_effect(
    o: SemanticIndex,
    f: SemanticIndex,
    input: BeliefInput,
    r: (MemoryId, SemanticRecord, Option<SemanticRecord>),
) -> bool {
    let id = r.0;
    let s = input.subject@;
    let p = input.predicate@;
    let t = f.tx_clock().0;
    let cur = o.live_at(s, p, t);
    let closes = cur is Some && cur->0.tx_until is None;
    let n = o.records().len();
    &&& t >= crate::storage::common::sat_succ(o.tx_clock().0)
    &&& id.0 == crate::base::ids::parts_value(
        crate::storage::common::tx_millis(t),
        o.tx_clock().1 as int,
    )
    &&& f.records().len() == n + 1 + (if closes {
        1int
    } else {
        0int
    })
    &&& f.records().take(n as int) == o.records()
    &&& fresh_version(f.records()[n as int], input, id, t)
    &&& same_belief(r.1, f.records()[n as int])
    &&& closes ==> closed_version(f.records()[n + 1int], cur->0, t, false)
    &&& match r.2 {
        Some(c) => closes && same_belief(c, f.records()[n + 1int]),
        None => !closes,
    }
    &&& f.has_version(s, p, t)
    &&& f.version_of(s, p, t) == f.records()[if closes && cur->0.tx_from.0 == t {
        n + 1int
    } else {
        n as int
    }]
    &&& closes ==> f.has_version(s, p, cur->0.tx_from.0) && f.version_of(
        s,
        p,
        cur->0.tx_from.0,
    ) == f.records()[n + 1int]
    &&& forall|s2: Seq<char>, p2: Seq<char>, t2: i64|
        (s2, p2, t2) != (s, p, t) && !(closes && (s2, p2, t2) == (s, p, cur->0.tx_from.0))
            ==> {
            &&& #[trigger] f.has_version(s2, p2, t2) == o.has_version(s2, p2, t2)
            &&& o.has_version(s2, p2, t2) ==> f.version_of(s2, p2, t2) == o.version_of(
                s2,
                p2,
                t2,
            )
        }
}

/// What a retraction of `(s0, p0)` did to the indexes, taking them from `o` to
/// `f` and returning `r`: at a fresh transaction-time `t`, the version open at
/// `t` (if any) closed at `t`; nothing else changed.
pub open spec fn retract_effect(
    o: SemanticIndex,
    f: SemanticIndex,
    s0: Seq<char>,
    p0: Seq<char>,
    r: Option<SemanticRecord>,
) -> bool {
    let b = r is Some;
    let s = s0;
    let p = p0;
    let t = f.tx_clock().0;
    let cur = o.live_at(s, p, t);
    let n = o.records().len();

    &&& t >= crate::storage::common::sat_succ(o.tx_clock().0)
    &&& f.tx_clock().1 == o.tx_clock().1
    &&& b == (cur is Some && cur->0.tx_until is None)
    &&& f.records().len() == n + (if b {
        1int
    } else {
        0int
    })
    &&& f.records().take(n as int) == o.records()
    &&& b ==> closed_version(f.records()[n as int], cur->0, t, true)
    &&& r matches Some(c) ==> same_belief(c, f.records()[n as int])
    &&& b ==> f.has_version(s, p, cur->0.tx_from.0) && f.version_of(s, p, cur->0.tx_from.0)
        == f.records()[n as int]
    &&& forall|s2: Seq<char>, p2: Seq<char>, t2: i64|
        !(b && (s2, p2, t2) == (s, p, cur->0.tx_from.0)) ==> {
            &&& #[trigger] f.has_version(s2, p2, t2) == o.has_version(s2, p2, t2)
            &&& o.has_version(s2, p2, t2) ==> f.version_of(s2, p2, t2) == o.version_of(
                s2,
                p2,
                t2,
            )
        }
}

/// `r` is the version an upsert of `input` records with id `id` at
/// transaction-time `t`: open in both time dimensions.
pub open spec fn fresh_version(r: SemanticRecord, input: BeliefInput, id: MemoryId, t: i64) -> bool {
    &&& r.id == id
    &&& r.agent_id == input.agent_id
    &&& r.subject@ == input.subject@
    &&& r.predicate@ == input.predicate@
    &&& r.object@ == input.object@
    &&& r.valid_from == input.valid_from
    &&& r.valid_until is None
    &&& r.tx_from == Timestamp(t)
    &&& r.tx_until is None
    &&& r.confidence_init_bits == input.confidence_init_bits
    &&& r.decay == input.decay
    &&& r.provenance_ids@ == input.provenance_ids@
}

/// `r` is `cur` closed in transaction-time at `t`, and, when `retract`, also in
/// valid-time at `t` unless it was already closed there.
pub open spec fn closed_version(r: SemanticRecord, cur: SemanticRecord, t: i64, retract: bool) -> bool {
    &&& r.id == cur.id
    &&& r.agent_id == cur.agent_id
    &&& r.subject@ == cur.subject@
    &&& r.predicate@ == cur.predicate@
    &&& r.object@ == cur.object@
    &&& r.valid_from == cur.valid_from
    &&& r.valid_until == (if retract && cur.valid_until is None {
        Some(Timestamp(t))
    } else {
        cur.valid_until
    })
    &&& r.tx_from == cur.tx_from
    &&& r.tx_until == Some(Timestamp(t))
    &&& r.confidence_init_bits == cur.confidence_init_bits
    &&& r.decay == cur.decay
    &&& r.provenance_ids@ == cur.provenance_ids@
}

impl SemanticIndex {
    /// Record a new belief version at a fresh transaction-time `t`, closing the
    /// version that was open at `t` (if any) with `tx_until = t`. Returns the
    /// new version's id, with copies of the versions recorded: the new one and,
    /// if one was closed, its closed copy.
    #[verifier::rlimit(40)]
    pub fn upsert_belief<C: Clock>(&mut self, clock: &C, input: BeliefInput) -> (r: (
        MemoryId,
        SemanticRecord,
        Option<SemanticRecord>,
    ))
        requires
            old(self).wf(),
            old(self).records().len() + 2 < usize::MAX,
        ensures
            final(self).wf(),
            upsert_effect(*old(self), *final(self), input, r),
            final(self).tx_clock().1 == (if old(self).tx_clock().1 == u128::MAX {
                0
            } else {
                old(self).tx_clock().1 + 1
            }),
            final(self).ids() == old(self).ids().insert(r.0.0),
            old(self).counter_ahead() ==> !old(self).ids().contains(r.0.0) && final(self).ids().len()
                == old(self).ids().len() + 1,
            old(self).counter_ahead() && old(self).tx_clock().1 + 1 < two_80() ==> final(self).counter_ahead(),
            exists|now: Timestamp|
                #[trigger] call_ensures(C::now, (clock,), now) && final(self).tx_clock().0
                    == crate::storage::common::stamp(now.0, old(self).tx_clock().0),
    {
        let ghost o = *old(self);
        let ghost gi = input;
        let now = next_tx(clock, &mut self.tx);
        let ghost m = *self;
        proof {
            SemanticIndex::lemma_same_index(m, o);
            SemanticIndex::lemma_same_live(m, o, input.subject@, input.predicate@, now);
            o.lemma_live_fields(input.subject@, input.predicate@, now);
        }
        let cur = self.live_version(&input.subject, &input.predicate, now);
        let closed = match cur {
            Some(c) => {
                if c.tx_until.is_none() {
                    let mut cl = c;
                    cl.tx_until = Some(Timestamp(now));
                    Some(cl)
                } else {
                    None
                }
            },
            None => None,
        };
        let id = mint_id(&mut self.tx, now);
        let ghost m1 = *self;
        proof {
            SemanticIndex::lemma_same_index(m1, o);
        }
        let record = SemanticRecord {
            id,
            agent_id: input.agent_id,
            subject: input.subject,
            predicate: input.predicate,
            object: input.object,
            valid_from: input.valid_from,
            valid_until: None,
            tx_from: Timestamp(now),
            tx_until: None,
            confidence_init_bits: input.confidence_init_bits,
            decay: input.decay,
            provenance_ids: input.provenance_ids,
        };
        let ghost rec = record;
        let written = copy_belief(&record);
        self.index(record);
        let ghost m2 = *self;
        proof {
            assert(fresh_version(rec, gi, id, now));
        }
        let closed_copy = match &closed {
            Some(cl) => Some(copy_belief(cl)),
            None => None,
        };
        match closed {
            Some(cl) => {
                let ghost gcl = cl;
                self.index(cl);
                proof {
                    let sb = gi.subject@;
                    let pr = gi.predicate@;
                    let c0 = o.live_at(sb, pr, now)->0;
                    let n = o.records@.len();
                    assert(self.records@.take(n as int) =~= o.records@);
                    assert(self.records@[n as int] == rec);
                    assert(self.records@[n + 1int] == gcl);
                    assert(closed_version(gcl, c0, now, false));
                    assert(gcl.subject@ == sb && gcl.predicate@ == pr);
                    if c0.tx_from.0 != now {
                        assert(self.has_version(sb, pr, now) == m2.has_version(sb, pr, now));
                        assert(self.version_of(sb, pr, now) == m2.version_of(sb, pr, now));
                    }
                    assert forall|s2: Seq<char>, p2: Seq<char>, t2: i64|
                        (s2, p2, t2) != (sb, pr, now) && (s2, p2, t2) != (sb, pr, c0.tx_from.0) implies {
                        &&& #[trigger] self.has_version(s2, p2, t2) == o.has_version(s2, p2, t2)
                        &&& o.has_version(s2, p2, t2) ==> self.version_of(s2, p2, t2) == o.version_of(s2, p2, t2)
                    } by {
                        assert(self.has_version(s2, p2, t2) == m2.has_version(s2, p2, t2));
                        assert(m2.has_version(s2, p2, t2) == m1.has_version(s2, p2, t2));
                        assert(m1.has_version(s2, p2, t2) == o.has_version(s2, p2, t2));
                        if o.has_version(s2, p2, t2) {
                            assert(self.version_of(s2, p2, t2) == m2.version_of(s2, p2, t2));
                            assert(m2.version_of(s2, p2, t2) == m1.version_of(s2, p2, t2));
                            assert(m1.version_of(s2, p2, t2) == o.version_of(s2, p2, t2));
                        }
                    }
                }
            },
            None => {
                proof {
                    let sb = gi.subject@;
                    let pr = gi.predicate@;
                    let n = o.records@.len();
                    assert(self.records@.take(n as int) =~= o.records@);
                    assert forall|s2: Seq<char>, p2: Seq<char>, t2: i64| (s2, p2, t2) != (sb, pr, now) implies {
                        &&& #[trigger] self.has_version(s2, p2, t2) == o.has_version(s2, p2, t2)
                        &&& o.has_version(s2, p2, t2) ==> self.version_of(s2, p2, t2) == o.version_of(s2, p2, t2)
                    } by {
                        assert(self.has_version(s2, p2, t2) == m1.has_version(s2, p2, t2));
                        assert(m1.has_version(s2, p2, t2) == o.has_version(s2, p2, t2));
                        if o.has_version(s2, p2, t2) {
                            assert(self.version_of(s2, p2, t2) == m1.version_of(s2, p2, t2));
                            assert(m1.version_of(s2, p2, t2) == o.version_of(s2, p2, t2));
                        }
                    }
                }
            },
        }
        proof {
            SemanticIndex::lemma_upsert_ids(o, *self, gi, (id, written, closed_copy));
        }
        (id, written, closed_copy)
    }

    /// A retraction keeps the ids held (a closed copy keeps the id of the
    /// version it closes) and the counter.
    proof fn lemma_retract_ids(o: SemanticIndex, f: SemanticIndex, s: Seq<char>, p: Seq<char>, r: Option<SemanticRecord>)
        requires
            o.wf(),
            retract_effect(o, f, s, p, r),
        ensures
            f.ids() == o.ids(),
            o.counter_ahead() ==> f.counter_ahead(),
    {
        let t = f.tx_clock().0;
        let cur = o.live_at(s, p, t);
        let n = o.records@.len();
        o.lemma_live_fields(s, p, t);
        if r is Some {
            o.lemma_version_recorded(s, p, cur->0.tx_from.0);
        }
        assert forall|j: int| 0 <= j < n implies f.records@[j] == o.records@[j] by {
            assert(f.records().take(n as int)[j] == f.records@[j]);
        }
        assert forall|k: u128| #[trigger] f.ids().contains(k) <==> o.ids().contains(k) by {
            if f.ids().contains(k) {
                let j = choose|j: int| 0 <= j < f.records@.len() && (#[trigger] f.records@[j]).id.0 == k;
                if j < n {
                    assert(o.records@[j].id.0 == k);
                } else {
                    let jj = choose|jj: int| 0 <= jj < o.records@.len() && o.records@[jj] == o.version_of(
                        s,
                        p,
                        cur->0.tx_from.0,
                    );
                    assert(o.records@[jj].id.0 == k);
                }
            }
            if o.ids().contains(k) {
                let j = choose|j: int| 0 <= j < o.records@.len() && (#[trigger] o.records@[j]).id.0 == k;
                assert(f.records@[j].id.0 == k);
            }
        }
        assert(f.ids() =~= o.ids());
        if o.counter_ahead() {
            assert forall|j: int| 0 <= j < f.records@.len() implies ((#[trigger] f.records@[j]).id.0 as int)
                % two_80() < f.tx.next_counter by {
                if j < n {
                    assert(f.records@[j] == o.records@[j]);
                } else {
                    let jj = choose|jj: int| 0 <= jj < o.records@.len() && o.records@[jj] == o.version_of(
                        s,
                        p,
                        cur->0.tx_from.0,
                    );
                    assert(f.records@[j].id == o.records@[jj].id);
                }
            }
        }
    }

    /// An upsert adds exactly its new id to the ids held (a closed copy keeps
    /// the id of the version it closes), and that id is new while the counter
    /// is ahead of every id's randomness.
    proof fn lemma_upsert_ids(
        o: SemanticIndex,
        f: SemanticIndex,
        input: BeliefInput,
        r: (MemoryId, SemanticRecord, Option<SemanticRecord>),
    )
        requires
            o.wf(),
            upsert_effect(o, f, input, r),
            f.tx.next_counter == (if o.tx.next_counter == u128::MAX {
                0
            } else {
                o.tx.next_counter + 1
            }),
        ensures
            f.ids() == o.ids().insert(r.0.0),
            o.counter_ahead() ==> !o.ids().contains(r.0.0) && f.ids().len() == o.ids().len() + 1,
            o.counter_ahead() && o.tx.next_counter + 1 < two_80() ==> f.counter_ahead(),
    {
        let s = input.subject@;
        let p = input.predicate@;
        let t = f.tx_clock().0;
        let cur = o.live_at(s, p, t);
        let closes = cur is Some && cur->0.tx_until is None;
        let n = o.records@.len();
        o.lemma_live_fields(s, p, t);
        if closes {
            o.lemma_version_recorded(s, p, cur->0.tx_from.0);
        }
        assert forall|j: int| 0 <= j < n implies f.records@[j] == o.records@[j] by {
            assert(f.records().take(n as int)[j] == f.records@[j]);
        }
        assert forall|k: u128| #[trigger] f.ids().contains(k) <==> o.ids().insert(r.0.0).contains(k) by {
            if f.ids().contains(k) {
                let j = choose|j: int| 0 <= j < f.records@.len() && (#[trigger] f.records@[j]).id.0 == k;
                if j < n {
                    assert(o.records@[j].id.0 == k);
                } else if j > n {
                    let jj = choose|jj: int| 0 <= jj < o.records@.len() && o.records@[jj] == o.version_of(
                        s,
                        p,
                        cur->0.tx_from.0,
                    );
                    assert(o.records@[jj].id.0 == k);
                }
            }
            if o.ids().contains(k) {
                let j = choose|j: int| 0 <= j < o.records@.len() && (#[trigger] o.records@[j]).id.0 == k;
                assert(f.records@[j].id.0 == k);
            }
            if k == r.0.0 {
                assert(f.records@[n as int].id.0 == k);
            }
        }
        assert(f.ids() =~= o.ids().insert(r.0.0));
        let c = o.tx.next_counter;
        lemma_parts_round_trip(crate::storage::common::tx_millis(t), c as int);
        if o.counter_ahead() {
            if o.ids().contains(r.0.0) {
                let j = choose|j: int| 0 <= j < o.records@.len() && (#[trigger] o.records@[j]).id.0 == r.0.0;
                assert((o.records@[j].id.0 as int) % two_80() < c);
            }
            o.lemma_ids_finite();
        }
        if o.counter_ahead() && c + 1 < two_80() {
            assert forall|j: int| 0 <= j < f.records@.len() implies ((#[trigger] f.records@[j]).id.0 as int)
                % two_80() < f.tx.next_counter by {
                if j < n {
                    assert(f.records@[j] == o.records@[j]);
                } else if j > n {
                    let jj = choose|jj: int| 0 <= jj < o.records@.len() && o.records@[jj] == o.version_of(
                        s,
                        p,
                        cur->0.tx_from.0,
                    );
                    assert(f.records@[j].id == o.records@[jj].id);
                }
            }
        }
    }

    /// Retract the belief `(subject, predicate)`: close the version open at a
    /// fresh transaction-time `t` in both time dimensions (valid-time only if it
    /// was still open there). Returns the closed version if a belief was open to
    /// retract.
    #[verifier::rlimit(40)]
    pub fn retract_belief<C: Clock>(&mut self, clock: &C, subject: &str, predicate: &str) -> (r: Option<
        SemanticRecord,
    >)
        requires
            old(self).wf(),
            old(self).records().len() + 1 < usize::MAX,
        ensures
            final(self).wf(),
            retract_effect(*old(self), *final(self), subject@, predicate@, r),
            final(self).ids() == old(self).ids(),
            old(self).counter_ahead() ==> final(self).counter_ahead(),
            exists|now: Timestamp|
                #[trigger] call_ensures(C::now, (clock,), now) && final(self).tx_clock().0
                    == crate::storage::common::stamp(now.0, old(self).tx_clock().0),
    {
        let ghost o = *old(self);
        let now = next_tx(clock, &mut self.tx);
        let ghost m = *self;
        proof {
            SemanticIndex::lemma_same_index(m, o);
            SemanticIndex::lemma_same_live(m, o, subject@, predicate@, now);
            o.lemma_live_fields(subject@, predicate@, now);
        }
        let s = subject.to_owned();
        let p = predicate.to_owned();
        let cur = self.live_version(&s, &p, now);
        match cur {
            Some(c) => {
                if c.tx_until.is_none() {
                    let mut cl = c;
                    cl.tx_until = Some(Timestamp(now));
                    if cl.valid_until.is_none() {
                        cl.valid_until = Some(Timestamp(now));
                    }
                    let ghost gcl = cl;
                    let written = copy_belief(&cl);
                    self.index(cl);
                    proof {
                        let n = o.records@.len();
                        assert(self.records@.take(n as int) =~= o.records@);
                        assert(self.records@[n as int] == gcl);
                        assert(gcl.subject@ == subject@ && gcl.predicate@ == predicate@);
                        assert forall|s2: Seq<char>, p2: Seq<char>, t2: i64|
                            !((s2, p2, t2) == (subject@, predicate@, gcl.tx_from.0)) implies {
                            &&& #[trigger] self.has_version(s2, p2, t2) == o.has_version(s2, p2, t2)
                            &&& o.has_version(s2, p2, t2) ==> self.version_of(s2, p2, t2) == o.version_of(s2, p2, t2)
                        } by {
                            assert((s2, p2, t2) != (gcl.subject@, gcl.predicate@, gcl.tx_from.0));
                            assert(self.has_version(s2, p2, t2) == m.has_version(s2, p2, t2));
                            assert(m.has_version(s2, p2, t2) == o.has_version(s2, p2, t2));
                            if o.has_version(s2, p2, t2) {
                                assert(self.version_of(s2, p2, t2) == m.version_of(s2, p2, t2));
                                assert(m.version_of(s2, p2, t2) == o.version_of(s2, p2, t2));
                            }
                        }
                    }
                    proof {
                        SemanticIndex::lemma_retract_ids(o, *self, subject@, predicate@, Some(written));
                    }
                    return Some(written);
                }
            },
            None => {},
        }
        proof {
            assert(self.records@.take(o.records@.len() as int) =~= o.records@);
            assert forall|s2: Seq<char>, p2: Seq<char>, t2: i64| true implies {
                &&& #[trigger] self.has_version(s2, p2, t2) == o.has_version(s2, p2, t2)
                &&& o.has_version(s2, p2, t2) ==> self.version_of(s2, p2, t2) == o.version_of(s2, p2, t2)
            } by {
                assert(m.has_version(s2, p2, t2) == o.has_version(s2, p2, t2));
                assert(m.version_of(s2, p2, t2) == o.version_of(s2, p2, t2));
            }
        }
        proof {
            SemanticIndex::lemma_retract_ids(o, *self, subject@, predicate@, None);
        }
        None
    }
}

/// The greatest transaction-time stamped on `rs`, counting both ends of each
/// version's interval (`i64::MIN` for none).
pub open spec fn max_tx_stamp(rs: Seq<SemanticRecord>) -> i64
    decreases rs.len(),
{
    if rs.len() == 0 {
        i64::MIN
    } else {
        let m = max_tx_stamp(rs.drop_last());
        let a = if rs.last().tx_from.0 > m {
            rs.last().tx_from.0
        } else {
            m
        };
        match rs.last().tx_until {
            Some(u) => if u.0 > a {
                u.0
            } else {
                a
            },
            None => a,
        }
    }
}

/// The greatest id randomness among `rs` (0 for none).
pub open spec fn max_belief_randomness(rs: Seq<SemanticRecord>) -> int
    decreases rs.len(),
{
    if rs.len() == 0 {
        0
    } else {
        let m = max_belief_randomness(rs.drop_last());
        let r = (rs.last().id.0 as int) % crate::base::ids::two_80();
        if r > m {
            r
        } else {
            m
        }
    }
}

/// Every stamp of every version is at most the greatest stamp.
proof fn lemma_max_stamp_bounds(rs: Seq<SemanticRecord>)
    ensures
        forall|i: int| 0 <= i < rs.len() ==> {
            &&& (#[trigger] rs[i]).tx_from.0 <= max_tx_stamp(rs)
            &&& match rs[i].tx_until {
                Some(u) => u.0 <= max_tx_stamp(rs),
                None => true,
            }
        },
    decreases rs.len(),
{
    if rs.len() > 0 {
        lemma_max_stamp_bounds(rs.drop_last());
        assert forall|i: int| 0 <= i < rs.len() - 1 implies rs[i] == rs.drop_last()[i] by {}
    }
}

/// Every id's randomness is at most the greatest, which is below `2^80`.
proof fn lemma_max_randomness_bounds(rs: Seq<SemanticRecord>)
    ensures
        forall|i: int| 0 <= i < rs.len() ==> ((#[trigger] rs[i]).id.0 as int) % two_80() <= max_belief_randomness(rs),
        0 <= max_belief_randomness(rs) < two_80(),
    decreases rs.len(),
{
    if rs.len() > 0 {
        lemma_max_randomness_bounds(rs.drop_last());
        assert forall|i: int| 0 <= i < rs.len() - 1 implies rs[i] == rs.drop_last()[i] by {}
    }
}

impl SemanticIndex {
    /// Resume the transaction clock after the indexed versions: transaction-time
    /// continues after the greatest stamp (of either end of any interval, so a
    /// rewound clock can never mint a version inside a closed interval) and the
    /// id counter after the greatest id randomness (wrapping).
    pub fn resume_clock(&mut self)
        requires
            old(self).wf(),
        ensures
            final(self).wf(),
            final(self).records() == old(self).records(),
            forall|s: Seq<char>, p: Seq<char>, t: i64| #[trigger] final(self).has_version(s, p, t) == old(
                self,
            ).has_version(s, p, t),
            forall|s: Seq<char>, p: Seq<char>, t: i64| #[trigger] final(self).version_of(s, p, t) == old(
                self,
            ).version_of(s, p, t),
            forall|s: Seq<char>, p: Seq<char>, t: i64| #[trigger] final(self).live_at(s, p, t) == old(
                self,
            ).live_at(s, p, t),
            final(self).tx_clock().0 == max_tx_stamp(old(self).records()),
            final(self).tx_clock().1 == (if max_belief_randomness(old(self).records()) == u128::MAX {
                0
            } else {
                max_belief_randomness(old(self).records()) + 1
            }),
            final(self).clock_ahead(),
            max_belief_randomness(old(self).records()) + 1 < two_80() ==> final(self).counter_ahead(),
    {
        let ghost o = *old(self);
        let mut max_tx: i64 = i64::MIN;
        let mut max_counter: u128 = 0;
        let mut i: usize = 0;
        while i < self.records.len()
            invariant
                self.records@ == o.records@,
                i <= self.records@.len(),
                max_tx == max_tx_stamp(self.records@.take(i as int)),
                max_counter == max_belief_randomness(self.records@.take(i as int)),
            decreases self.records@.len() - i,
        {
            let r = &self.records[i];
            proof {
                assert(self.records@.take(i + 1).drop_last() =~= self.records@.take(i as int));
            }
            if r.tx_from.0 > max_tx {
                max_tx = r.tx_from.0;
            }
            match r.tx_until {
                Some(u) => {
                    if u.0 > max_tx {
                        max_tx = u.0;
                    }
                },
                None => {},
            }
            let rand = r.id.randomness();
            if rand > max_counter {
                max_counter = rand;
            }
            i = i + 1;
        }
        proof {
            assert(self.records@.take(i as int) =~= self.records@);
        }
        self.tx.last_tx = max_tx;
        self.tx.next_counter = max_counter.wrapping_add(1);
        proof {
            SemanticIndex::lemma_same_index(*self, o);
            assert forall|s: Seq<char>, p: Seq<char>, t: i64| #[trigger] self.live_at(s, p, t) == o.live_at(s, p, t) by {
                SemanticIndex::lemma_same_live(*self, o, s, p, t);
            }
            lemma_max_stamp_bounds(self.records@);
            assert forall|s: Seq<char>, p: Seq<char>, t: i64| #[trigger] self.has_version(s, p, t) implies {
                &&& t <= self.tx.last_tx
                &&& match self.version_of(s, p, t).tx_until {
                    Some(u) => u.0 <= self.tx.last_tx,
                    None => true,
                }
            } by {
                let k = self.slot(s, p).unwrap();
                let key = (k as u64, t);
                lemma_has_key_value(self.versions.entries(), key);
            }
            lemma_max_randomness_bounds(self.records@);
        }
    }
}

impl SemanticIndex {
    /// Indexes that hold the same versions agree on what is live when.
    proof fn lemma_same_versions_live(x: SemanticIndex, y: SemanticIndex, s: Seq<char>, p: Seq<char>, at: i64)
        requires
            forall|t: i64| #[trigger] x.has_version(s, p, t) == y.has_version(s, p, t),
            forall|t: i64| y.has_version(s, p, t) ==> #[trigger] x.version_of(s, p, t) == y.version_of(s, p, t),
        ensures
            x.live_at(s, p, at) == y.live_at(s, p, at),
    {
        x.lemma_floor_spec(s, p, at);
        y.lemma_floor_spec(s, p, at);
        match x.floor_tx(s, p, at) {
            Some(t) => {
                assert(y.has_version(s, p, t));
                assert forall|w: i64| #[trigger] y.has_version(s, p, w) && w <= at implies w <= t by {
                    assert(x.has_version(s, p, w));
                }
                y.lemma_floor_is(s, p, at, t);
            },
            None => {
                if y.floor_tx(s, p, at) is Some {
                    let t = y.floor_tx(s, p, at)->0;
                    assert(x.has_version(s, p, t));
                    assert forall|w: i64| #[trigger] x.has_version(s, p, w) && w <= at implies w <= t by {
                        assert(y.has_version(s, p, w));
                    }
                    assert(false);
                }
            },
        }
    }
}

/// Read your write: on indexes whose clock is ahead of every stamp (as `new`
/// and `resume_clock` leave them), an upsert makes its new version the one live
/// at its own transaction-time, and the clock stays ahead.
pub proof fn lemma_upsert_then_live(
    o: SemanticIndex,
    f: SemanticIndex,
    input: BeliefInput,
    r: (MemoryId, SemanticRecord, Option<SemanticRecord>),
)
    requires
        o.wf(),
        upsert_effect(o, f, input, r),
        o.clock_ahead(),
        o.tx_clock().0 < i64::MAX,
    ensures
        f.clock_ahead(),
        f.live_at(input.subject@, input.predicate@, f.tx_clock().0) == Some(
            f.records()[o.records().len() as int],
        ),
{
    let s = input.subject@;
    let p = input.predicate@;
    let t = f.tx_clock().0;
    let n = o.records().len();
    let cur = o.live_at(s, p, t);
    let closes = cur is Some && cur->0.tx_until is None;
    o.lemma_live_fields(s, p, t);
    if cur is Some {
        assert(o.has_version(s, p, cur->0.tx_from.0));
    }
    f.lemma_floor_is(s, p, t, t);
    assert forall|s2: Seq<char>, p2: Seq<char>, t2: i64| #[trigger] f.has_version(s2, p2, t2) implies {
        &&& t2 <= f.tx.last_tx
        &&& match f.version_of(s2, p2, t2).tx_until {
            Some(u) => u.0 <= f.tx.last_tx,
            None => true,
        }
    } by {
        if (s2, p2, t2) == (s, p, t) {
        } else if closes && (s2, p2, t2) == (s, p, cur->0.tx_from.0) {
        } else {
            assert(o.has_version(s2, p2, t2));
        }
    }
}

/// A retraction hides the belief: on indexes whose clock is ahead of every
/// stamp, nothing of `(s, p)` is live at the retraction's transaction-time
/// afterwards, whether or not a version was open, and the clock stays ahead.
pub proof fn lemma_retract_then_gone(
    o: SemanticIndex,
    f: SemanticIndex,
    s: Seq<char>,
    p: Seq<char>,
    r: Option<SemanticRecord>,
)
    requires
        o.wf(),
        retract_effect(o, f, s, p, r),
        o.clock_ahead(),
        o.tx_clock().0 < i64::MAX,
    ensures
        f.clock_ahead(),
        f.live_at(s, p, f.tx_clock().0) is None,
{
    let t = f.tx_clock().0;
    let n = o.records().len();
    let cur = o.live_at(s, p, t);
    let b = r is Some;
    o.lemma_live_fields(s, p, t);
    o.lemma_floor_spec(s, p, t);
    if cur is Some {
        assert(o.has_version(s, p, cur->0.tx_from.0));
    }
    if b {
        let c = cur->0;
        let fl = c.tx_from.0;
        assert forall|w: i64| #[trigger] f.has_version(s, p, w) && w <= t implies w <= fl by {
            if w != fl {
                assert(o.has_version(s, p, w));
            }
        }
        f.lemma_floor_is(s, p, t, fl);
    } else {
        assert forall|tt: i64| o.has_version(s, p, tt) implies #[trigger] f.version_of(s, p, tt)
            == o.version_of(s, p, tt) by {
            assert(f.has_version(s, p, tt) == o.has_version(s, p, tt));
        }
        SemanticIndex::lemma_same_versions_live(f, o, s, p, t);
    }
    assert forall|s2: Seq<char>, p2: Seq<char>, t2: i64| #[trigger] f.has_version(s2, p2, t2) implies {
        &&& t2 <= f.tx.last_tx
        &&& match f.version_of(s2, p2, t2).tx_until {
            Some(u) => u.0 <= f.tx.last_tx,
            None => true,
        }
    } by {
        if b && (s2, p2, t2) == (s, p, cur->0.tx_from.0) {
        } else {
            assert(o.has_version(s2, p2, t2));
        }
    }
}

} // verus!
