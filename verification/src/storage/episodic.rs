//! The episodic store's indexes: immutable, append-only events.
//!
//! Four copy-on-write B-tree indexes over the same events: the **primary**
//! `id -> event` index for point lookups, **by-session** `(session, id)` for
//! [`scan_session`](EpisodicIndex::scan_session), **by-time** `(valid_time, id)`
//! for [`scan_time_range`](EpisodicIndex::scan_time_range), and **by-cause**
//! `(cause, effect)` for [`effects_of`](EpisodicIndex::effects_of). Ids are
//! unique: re-appending an existing id is refused and touches no index.

use vstd::prelude::*;

use crate::base::ids::{MemoryId, SessionId};
use crate::base::records::EpisodicRecord;
use crate::base::time::Timestamp;
use crate::consistency::acc::copy_bytes;
use crate::storage::btree::{
    above_lo, below_hi, has_key, lemma_range_of_contains, lemma_range_of_sorted, range_of, sorted,
    upserted, CowBTree, Iter, KeyBound,
};
use crate::storage::error::StorageError;
use crate::storage::key::BKey;

verus! {

/// Two events agree field by field.
pub open spec fn same_event(a: EpisodicRecord, b: EpisodicRecord) -> bool {
    &&& a.id == b.id
    &&& a.agent_id == b.agent_id
    &&& a.session_id == b.session_id
    &&& a.valid_time == b.valid_time
    &&& a.tx_time == b.tx_time
    &&& a.event_type == b.event_type
    &&& a.payload@ == b.payload@
    &&& a.cause_ids@ == b.cause_ids@
}

/// A field-by-field copy of an event.
pub fn copy_event(r: &EpisodicRecord) -> (c: EpisodicRecord)
    ensures
        same_event(c, *r),
{
    let mut causes: Vec<MemoryId> = Vec::new();
    let mut i: usize = 0;
    while i < r.cause_ids.len()
        invariant
            i <= r.cause_ids@.len(),
            causes@ == r.cause_ids@.take(i as int),
        decreases r.cause_ids@.len() - i,
    {
        causes.push(r.cause_ids[i]);
        i = i + 1;
        assert(causes@ =~= r.cause_ids@.take(i as int));
    }
    assert(causes@ =~= r.cause_ids@);
    EpisodicRecord {
        id: r.id,
        agent_id: r.agent_id,
        session_id: r.session_id,
        valid_time: r.valid_time,
        tx_time: r.tx_time,
        event_type: r.event_type,
        payload: copy_bytes(r.payload.as_slice()),
        cause_ids: causes,
    }
}

/// The indexes of an append-only store of episodic events.
pub struct EpisodicIndex {
    records: Vec<EpisodicRecord>,
    primary: CowBTree<u128, usize>,
    by_session: CowBTree<(u64, u128), usize>,
    by_time: CowBTree<(i64, u128), usize>,
    by_cause: CowBTree<(u128, u128), usize>,
}

/// Some event of `s` has id `id`.
pub open spec fn has_event(s: Seq<EpisodicRecord>, id: MemoryId) -> bool {
    exists|j: int| 0 <= j < s.len() && (#[trigger] s[j]).id == id
}

/// Inserting a key that is absent adds exactly one entry and keeps the rest.
proof fn lemma_fresh_insert<K: BKey, V>(s0: Seq<(K, V)>, s1: Seq<(K, V)>, k: K, v: V, prev: Option<V>)
    requires
        upserted(s0, s1, k, v, prev),
        !has_key(s0, k),
    ensures
        prev is None,
        s1.len() == s0.len() + 1,
        forall|e: (K, V)| #[trigger] s1.contains(e) <==> (e == (k, v) || s0.contains(e)),
{
    if let Some(o) = prev {
        let j = choose|j: int| 0 <= j < s0.len() && s0[j] == (k, o);
        assert(s0[j].0 == k);
    }
    assert forall|e: (K, V)| #[trigger] s1.contains(e) <==> (e == (k, v) || s0.contains(e)) by {
        if s0.contains(e) && e.0 == k {
            let j = choose|j: int| 0 <= j < s0.len() && s0[j] == e;
            assert(s0[j].0 == k);
        }
    }
}

/// Some event of `s` agrees with `e` field by field.
pub open spec fn holds_event(s: Seq<EpisodicRecord>, e: EpisodicRecord) -> bool {
    exists|j: int| 0 <= j < s.len() && same_event(e, #[trigger] s[j])
}

impl EpisodicIndex {
    /// The events, in append order.
    pub closed spec fn events(&self) -> Seq<EpisodicRecord> {
        self.records@
    }

    /// The number of cause links indexed (one per distinct cause of each event).
    pub closed spec fn cause_links(&self) -> nat {
        self.by_cause.entries().len()
    }

    /// The indexes describe the events exactly, and ids are unique.
    pub closed spec fn wf(&self) -> bool {
        let r = self.records@;
        &&& forall|i: int, j: int| 0 <= i < j < r.len() ==> (#[trigger] r[i]).id != (#[trigger] r[j]).id
        &&& forall|k: u128, v: usize|
            #[trigger] self.primary.entries().contains((k, v)) <==> (v < r.len() && r[v as int].id.0 == k)
        &&& forall|s: u64, k: u128, v: usize|
            #[trigger] self.by_session.entries().contains(((s, k), v)) <==> (v < r.len()
                && r[v as int].session_id.0 == s && r[v as int].id.0 == k)
        &&& forall|t: i64, k: u128, v: usize|
            #[trigger] self.by_time.entries().contains(((t, k), v)) <==> (v < r.len()
                && r[v as int].valid_time.0 == t && r[v as int].id.0 == k)
        &&& forall|c: u128, k: u128, v: usize|
            #[trigger] self.by_cause.entries().contains(((c, k), v)) <==> (v < r.len()
                && r[v as int].cause_ids@.contains(MemoryId(c)) && r[v as int].id.0 == k)
        &&& self.primary.entries().len() == r.len()
        &&& self.by_session.entries().len() == r.len()
        &&& self.by_time.entries().len() == r.len()
    }

    /// Empty indexes.
    pub fn new() -> (ix: EpisodicIndex)
        ensures
            ix.wf(),
            ix.events() == Seq::<EpisodicRecord>::empty(),
            ix.cause_links() == 0,
    {
        EpisodicIndex {
            records: Vec::new(),
            primary: CowBTree::new(),
            by_session: CowBTree::new(),
            by_time: CowBTree::new(),
            by_cause: CowBTree::new(),
        }
    }

    /// The number of cause links indexed.
    pub fn cause_link_count(&self) -> (n: usize)
        ensures
            n == self.cause_links(),
    {
        self.by_cause.len()
    }

    /// Look up an event by id.
    pub fn get(&self, id: MemoryId) -> (r: Option<&EpisodicRecord>)
        requires
            self.wf(),
        ensures
            match r {
                Some(e) => exists|j: int| 0 <= j < self.events().len() && self.events()[j] == *e
                    && e.id == id,
                None => !has_event(self.events(), id),
            },
    {
        let _n = self.records.len();
        match self.primary.get(&id.0) {
            Some(i) => {
                assert(self.primary.entries().contains((id.0, i)));
                assert(self.records@[i as int].id == id);
                assert(self.events()[i as int] == self.records@[i as int]);
                Some(&self.records[i])
            },
            None => {
                proof {
                    if has_event(self.records@, id) {
                        let j = choose|j: int| 0 <= j < self.records@.len() && (#[trigger] self.records@[j]).id == id;
                        assert(self.primary.entries().contains((id.0, j as usize)));
                        let k = choose|k: int|
                            0 <= k < self.primary.entries().len() && self.primary.entries()[k] == (
                                id.0,
                                j as usize,
                            );
                        assert(self.primary.entries()[k].0 == id.0);
                    }
                }
                None
            },
        }
    }

    /// The number of events.
    pub fn len(&self) -> (n: usize)
        requires
            self.wf(),
        ensures
            n == self.events().len(),
    {
        self.primary.len()
    }

    /// Whether there are no events.
    pub fn is_empty(&self) -> (b: bool)
        requires
            self.wf(),
        ensures
            b == (self.events().len() == 0),
    {
        self.primary.len() == 0
    }

    /// Copies of the events that the index entries of `it` point at, in order.
    fn collect_events<K: BKey>(&self, it: Iter<K, usize>) -> (out: Vec<EpisodicRecord>)
        requires
            forall|i: int| 0 <= i < it.remaining().len() ==> (#[trigger] it.remaining()[i]).1
                < self.records@.len(),
        ensures
            out@.len() == it.remaining().len(),
            forall|i: int| 0 <= i < out@.len() ==> same_event(
                #[trigger] out@[i],
                self.records@[it.remaining()[i].1 as int],
            ),
    {
        let ghost all = it.remaining();
        let mut it = it;
        let mut out: Vec<EpisodicRecord> = Vec::new();
        while it.has_next()
            invariant
                out@.len() <= all.len(),
                it.remaining() == all.skip(out@.len() as int),
                forall|i: int| 0 <= i < all.len() ==> (#[trigger] all[i]).1 < self.records@.len(),
                forall|i: int| 0 <= i < out@.len() ==> same_event(
                    #[trigger] out@[i],
                    self.records@[all[i].1 as int],
                ),
            decreases it.remaining().len(),
        {
            let ghost before = it.remaining();
            match it.next() {
                Some(e) => {
                    assert(e == all[out@.len() as int]);
                    let c = copy_event(&self.records[e.1]);
                    out.push(c);
                    assert(it.remaining() =~= all.skip(out@.len() as int));
                },
                None => {},
            }
        }
        assert(out@.len() == all.len());
        out
    }

    /// Every event of `session`, ascending by id.
    pub fn scan_session(&self, session: SessionId) -> (out: Vec<EpisodicRecord>)
        requires
            self.wf(),
        ensures
            forall|i: int| 0 <= i < out@.len() ==> (#[trigger] out@[i]).session_id == session
                && holds_event(self.events(), out@[i]),
            forall|j: int| 0 <= j < self.events().len() && (#[trigger] self.events()[j]).session_id
                == session ==> exists|i: int| 0 <= i < out@.len() && (#[trigger] out@[i]).id
                == self.events()[j].id,
            forall|a: int, b: int| 0 <= a < b < out@.len() ==> (#[trigger] out@[a]).id.0
                < (#[trigger] out@[b]).id.0,
    {
        let _n = self.by_session.len();
        let lo = KeyBound::Included((session.0, 0u128));
        let hi = KeyBound::Included((session.0, u128::MAX));
        let ghost es = self.by_session.entries();
        let ghost rg = range_of(es, lo, hi);
        let it = self.by_session.range(lo, hi);
        proof {
            lemma_range_of_sorted(es, lo, hi);
            assert forall|i: int| 0 <= i < rg.len() implies es.contains(#[trigger] rg[i])
                && (rg[i].0).0 == session.0 && rg[i].1 < self.records@.len()
                && self.records@[rg[i].1 as int].id.0 == (rg[i].0).1
                && self.records@[rg[i].1 as int].session_id.0 == session.0 by {
                assert(rg.contains(rg[i]));
                lemma_range_of_contains(es, lo, hi, rg[i]);
                let e = rg[i];
                assert(es.contains(((e.0.0, e.0.1), e.1)));
            }
        }
        let out = self.collect_events(it);
        proof {
            let r = self.records@;
            assert forall|i: int| 0 <= i < out@.len() implies (#[trigger] out@[i]).session_id
                == session && holds_event(self.events(), out@[i]) by {
                assert(es.contains(rg[i]));
                assert(same_event(out@[i], r[rg[i].1 as int]));
            }
            assert forall|j: int| 0 <= j < self.events().len() && (#[trigger] self.events()[j]).session_id
                == session implies exists|i: int| 0 <= i < out@.len() && (#[trigger] out@[i]).id
                == self.events()[j].id by {
                let e = ((session.0, r[j].id.0), j as usize);
                assert(es.contains(e));
                lemma_range_of_contains(es, lo, hi, e);
                let i = choose|i: int| 0 <= i < rg.len() && rg[i] == e;
                assert(same_event(out@[i], r[j]));
            }
            assert forall|a: int, b: int| 0 <= a < b < out@.len() implies (#[trigger] out@[a]).id.0
                < (#[trigger] out@[b]).id.0 by {
                assert(rg[a].0.precedes(rg[b].0));
                assert(es.contains(rg[a]) && es.contains(rg[b]));
                assert(same_event(out@[a], r[rg[a].1 as int]));
                assert(same_event(out@[b], r[rg[b].1 as int]));
            }
        }
        out
    }

    /// Every event whose valid time lies in the half-open interval `[lo, hi)`,
    /// ascending by `(valid_time, id)`.
    pub fn scan_time_range(&self, lo: Timestamp, hi: Timestamp) -> (out: Vec<EpisodicRecord>)
        requires
            self.wf(),
        ensures
            forall|i: int| 0 <= i < out@.len() ==> lo.0 <= (#[trigger] out@[i]).valid_time.0 < hi.0
                && holds_event(self.events(), out@[i]),
            forall|j: int| 0 <= j < self.events().len() && lo.0 <= (#[trigger] self.events()[j]).valid_time.0
                < hi.0 ==> exists|i: int| 0 <= i < out@.len() && (#[trigger] out@[i]).id
                == self.events()[j].id,
            forall|a: int, b: int| 0 <= a < b < out@.len() ==> (#[trigger] out@[a]).valid_time.0
                < (#[trigger] out@[b]).valid_time.0 || (out@[a].valid_time.0 == out@[b].valid_time.0
                && out@[a].id.0 < out@[b].id.0),
    {
        let _n = self.by_time.len();
        let kl = KeyBound::Included((lo.0, 0u128));
        let kh = KeyBound::Excluded((hi.0, 0u128));
        let ghost es = self.by_time.entries();
        let ghost rg = range_of(es, kl, kh);
        let it = self.by_time.range(kl, kh);
        proof {
            lemma_range_of_sorted(es, kl, kh);
            assert forall|i: int| 0 <= i < rg.len() implies es.contains(#[trigger] rg[i])
                && lo.0 <= (rg[i].0).0 < hi.0 && rg[i].1 < self.records@.len()
                && self.records@[rg[i].1 as int].id.0 == (rg[i].0).1
                && self.records@[rg[i].1 as int].valid_time.0 == (rg[i].0).0 by {
                assert(rg.contains(rg[i]));
                lemma_range_of_contains(es, kl, kh, rg[i]);
                let e = rg[i];
                assert(es.contains(((e.0.0, e.0.1), e.1)));
            }
        }
        let out = self.collect_events(it);
        proof {
            let r = self.records@;
            assert forall|i: int| 0 <= i < out@.len() implies lo.0 <= (#[trigger] out@[i]).valid_time.0
                < hi.0 && holds_event(self.events(), out@[i]) by {
                assert(es.contains(rg[i]));
                assert(same_event(out@[i], r[rg[i].1 as int]));
            }
            assert forall|j: int| 0 <= j < self.events().len() && lo.0 <= (#[trigger] self.events()[j]).valid_time.0
                < hi.0 implies exists|i: int| 0 <= i < out@.len() && (#[trigger] out@[i]).id
                == self.events()[j].id by {
                let e = ((r[j].valid_time.0, r[j].id.0), j as usize);
                assert(es.contains(e));
                lemma_range_of_contains(es, kl, kh, e);
                let i = choose|i: int| 0 <= i < rg.len() && rg[i] == e;
                assert(same_event(out@[i], r[j]));
            }
            assert forall|a: int, b: int| 0 <= a < b < out@.len() implies (#[trigger] out@[a]).valid_time.0
                < (#[trigger] out@[b]).valid_time.0 || (out@[a].valid_time.0 == out@[b].valid_time.0
                && out@[a].id.0 < out@[b].id.0) by {
                assert(rg[a].0.precedes(rg[b].0));
                assert(es.contains(rg[a]) && es.contains(rg[b]));
                assert(same_event(out@[a], r[rg[a].1 as int]));
                assert(same_event(out@[b], r[rg[b].1 as int]));
            }
        }
        out
    }

    /// Every event that lists `cause` among its causes (the direct effects of
    /// `cause`), ascending by id.
    pub fn effects_of(&self, cause: MemoryId) -> (out: Vec<EpisodicRecord>)
        requires
            self.wf(),
        ensures
            forall|i: int| 0 <= i < out@.len() ==> (#[trigger] out@[i]).cause_ids@.contains(cause)
                && holds_event(self.events(), out@[i]),
            forall|j: int| 0 <= j < self.events().len() && (#[trigger] self.events()[j]).cause_ids@.contains(
                cause,
            ) ==> exists|i: int| 0 <= i < out@.len() && (#[trigger] out@[i]).id == self.events()[j].id,
            forall|a: int, b: int| 0 <= a < b < out@.len() ==> (#[trigger] out@[a]).id.0
                < (#[trigger] out@[b]).id.0,
    {
        let _n = self.by_cause.len();
        let _m = self.records.len();
        let lo = KeyBound::Included((cause.0, 0u128));
        let hi = KeyBound::Included((cause.0, u128::MAX));
        let ghost es = self.by_cause.entries();
        let ghost rg = range_of(es, lo, hi);
        let it = self.by_cause.range(lo, hi);
        proof {
            lemma_range_of_sorted(es, lo, hi);
            assert forall|i: int| 0 <= i < rg.len() implies es.contains(#[trigger] rg[i])
                && (rg[i].0).0 == cause.0 && rg[i].1 < self.records@.len()
                && self.records@[rg[i].1 as int].id.0 == (rg[i].0).1
                && self.records@[rg[i].1 as int].cause_ids@.contains(cause) by {
                assert(rg.contains(rg[i]));
                lemma_range_of_contains(es, lo, hi, rg[i]);
                let e = rg[i];
                assert(es.contains(((e.0.0, e.0.1), e.1)));
                assert(MemoryId(cause.0) == cause);
            }
        }
        let out = self.collect_events(it);
        proof {
            let r = self.records@;
            assert forall|i: int| 0 <= i < out@.len() implies (#[trigger] out@[i]).cause_ids@.contains(cause)
                && holds_event(self.events(), out@[i]) by {
                assert(es.contains(rg[i]));
                assert(same_event(out@[i], r[rg[i].1 as int]));
            }
            assert forall|j: int| 0 <= j < self.events().len() && (#[trigger] self.events()[j]).cause_ids@.contains(
                cause,
            ) implies exists|i: int| 0 <= i < out@.len() && (#[trigger] out@[i]).id == self.events()[j].id by {
                let e = ((cause.0, r[j].id.0), j as usize);
                assert(MemoryId(cause.0) == cause);
                assert(es.contains(e));
                lemma_range_of_contains(es, lo, hi, e);
                let i = choose|i: int| 0 <= i < rg.len() && rg[i] == e;
                assert(same_event(out@[i], r[j]));
            }
            assert forall|a: int, b: int| 0 <= a < b < out@.len() implies (#[trigger] out@[a]).id.0
                < (#[trigger] out@[b]).id.0 by {
                assert(rg[a].0.precedes(rg[b].0));
                assert(es.contains(rg[a]) && es.contains(rg[b]));
                assert(same_event(out@[a], r[rg[a].1 as int]));
                assert(same_event(out@[b], r[rg[b].1 as int]));
            }
        }
        out
    }

    /// Append an event. An id that is already present is refused with
    /// `Duplicate`, leaving every index untouched.
    pub fn append(&mut self, record: EpisodicRecord) -> (r: Result<MemoryId, StorageError>)
        requires
            old(self).wf(),
            old(self).events().len() + 1 < usize::MAX,
            old(self).cause_links() + record.cause_ids@.len() < usize::MAX,
        ensures
            final(self).wf(),
            match r {
                Ok(id) => {
                    &&& id == record.id
                    &&& !has_event(old(self).events(), record.id)
                    &&& final(self).events() == old(self).events().push(record)
                },
                Err(e) => {
                    &&& e matches StorageError::Duplicate(d) && d == record.id
                    &&& has_event(old(self).events(), record.id)
                    &&& final(self).events() == old(self).events()
                },
            },
            final(self).cause_links() <= old(self).cause_links() + record.cause_ids@.len(),
    {
        let id = record.id;
        if self.get(id).is_some() {
            return Err(StorageError::Duplicate(id));
        }
        let n = self.records.len();
        let ghost r0 = self.records@;
        let ghost p0 = self.primary.entries();
        let ghost s0 = self.by_session.entries();
        let ghost t0 = self.by_time.entries();
        let ghost c0 = self.by_cause.entries();
        proof {
            assert(!has_key(p0, id.0)) by {
                if has_key(p0, id.0) {
                    let k = choose|k: int| 0 <= k < p0.len() && (#[trigger] p0[k]).0 == id.0;
                    assert(p0.contains(p0[k]));
                    let v = p0[k].1;
                    assert(r0[v as int].id == id);
                    assert(has_event(r0, id));
                }
            }
            assert(!has_key(s0, (record.session_id.0, id.0))) by {
                if has_key(s0, (record.session_id.0, id.0)) {
                    let k = choose|k: int| 0 <= k < s0.len() && (#[trigger] s0[k]).0 == (record.session_id.0, id.0);
                    assert(s0.contains(s0[k]));
                    assert(r0[s0[k].1 as int].id == id);
                }
            }
            assert(!has_key(t0, (record.valid_time.0, id.0))) by {
                if has_key(t0, (record.valid_time.0, id.0)) {
                    let k = choose|k: int| 0 <= k < t0.len() && (#[trigger] t0[k]).0 == (record.valid_time.0, id.0);
                    assert(t0.contains(t0[k]));
                    assert(r0[t0[k].1 as int].id == id);
                }
            }
        }
        let prev_p = self.primary.insert(id.0, n);
        proof { lemma_fresh_insert(p0, self.primary.entries(), id.0, n, prev_p); }
        let ghost p1 = self.primary.entries();
        let prev_s = self.by_session.insert((record.session_id.0, id.0), n);
        proof { lemma_fresh_insert(s0, self.by_session.entries(), (record.session_id.0, id.0), n, prev_s); }
        let ghost s1 = self.by_session.entries();
        let prev_t = self.by_time.insert((record.valid_time.0, id.0), n);
        proof { lemma_fresh_insert(t0, self.by_time.entries(), (record.valid_time.0, id.0), n, prev_t); }
        let ghost t1 = self.by_time.entries();
        let mut i: usize = 0;
        while i < record.cause_ids.len()
            invariant
                i <= record.cause_ids@.len(),
                self.records@ == r0,
                self.primary.entries() == p1,
                self.by_session.entries() == s1,
                self.by_time.entries() == t1,
                n == r0.len(),
                self.by_cause.entries().len() <= c0.len() + i,
                c0.len() + record.cause_ids@.len() < usize::MAX,
                forall|c: u128, k: u128, v: usize|
                    #[trigger] self.by_cause.entries().contains(((c, k), v)) <==> ((
                    c0.contains(((c, k), v))) || (k == id.0 && v == n && record.cause_ids@.take(
                        i as int,
                    ).contains(MemoryId(c)))),
                forall|c: u128, k: u128, v: usize|
                    #[trigger] c0.contains(((c, k), v)) ==> k != id.0,
            decreases record.cause_ids@.len() - i,
        {
            let c = record.cause_ids[i];
            let ghost cb = self.by_cause.entries();
            self.by_cause.insert((c.0, id.0), n);
            proof {
                let ca = self.by_cause.entries();
                let take0 = record.cause_ids@.take(i as int);
                let take1 = record.cause_ids@.take(i + 1);
                assert(take1 =~= take0.push(c));
                assert forall|cc: u128, k: u128, v: usize|
                    #[trigger] ca.contains(((cc, k), v)) <==> ((c0.contains(((cc, k), v))) || (k
                        == id.0 && v == n && take1.contains(MemoryId(cc)))) by {
                    let e = ((cc, k), v);
                    assert(cb.contains(e) <==> (c0.contains(e) || (k == id.0 && v == n
                        && take0.contains(MemoryId(cc)))));
                    assert(ca.contains(e) <==> (e == ((c.0, id.0), n) || (e.0 != (c.0, id.0)
                        && cb.contains(e))));
                    assert(c0.contains(e) ==> k != id.0);
                    assert(take1[i as int] == c);
                    if take1.contains(MemoryId(cc)) {
                        let t = choose|t: int| 0 <= t < take1.len() && take1[t] == MemoryId(cc);
                        if t < i {
                            assert(take0[t] == MemoryId(cc));
                        } else {
                            assert(MemoryId(cc) == c);
                        }
                    }
                    if take0.contains(MemoryId(cc)) {
                        let t = choose|t: int| 0 <= t < i && take0[t] == MemoryId(cc);
                        assert(take1[t] == MemoryId(cc));
                    }
                    if MemoryId(cc) == c {
                        assert(take1.contains(MemoryId(cc)));
                    }
                }
            }
            i = i + 1;
        }
        self.records.push(record);
        proof {
            let r1 = self.records@;
            assert(record.cause_ids@.take(record.cause_ids@.len() as int) =~= record.cause_ids@);
            assert forall|a: int, b: int| 0 <= a < b < r1.len() implies (#[trigger] r1[a]).id
                != (#[trigger] r1[b]).id by {
                if b == n {
                    assert(r1[a] == r0[a]);
                    if r0[a].id == id {
                        assert(has_event(r0, id));
                    }
                } else {
                    assert(r1[a] == r0[a] && r1[b] == r0[b]);
                }
            }
            assert forall|k: u128, v: usize| #[trigger] p1.contains((k, v)) <==> (v < r1.len()
                && r1[v as int].id.0 == k) by {
                assert(p0.contains((k, v)) <==> (v < r0.len() && r0[v as int].id.0 == k));
                if v < n {
                    assert(r1[v as int] == r0[v as int]);
                }
            }
            assert forall|s: u64, k: u128, v: usize| #[trigger] s1.contains(((s, k), v)) <==> (v
                < r1.len() && r1[v as int].session_id.0 == s && r1[v as int].id.0 == k) by {
                assert(s0.contains(((s, k), v)) <==> (v < r0.len() && r0[v as int].session_id.0 == s
                    && r0[v as int].id.0 == k));
                if v < n {
                    assert(r1[v as int] == r0[v as int]);
                }
            }
            assert forall|t: i64, k: u128, v: usize| #[trigger] t1.contains(((t, k), v)) <==> (v
                < r1.len() && r1[v as int].valid_time.0 == t && r1[v as int].id.0 == k) by {
                assert(t0.contains(((t, k), v)) <==> (v < r0.len() && r0[v as int].valid_time.0 == t
                    && r0[v as int].id.0 == k));
                if v < n {
                    assert(r1[v as int] == r0[v as int]);
                }
            }
            assert forall|c: u128, k: u128, v: usize| #[trigger] self.by_cause.entries().contains(
                ((c, k), v),
            ) <==> (v < r1.len() && r1[v as int].cause_ids@.contains(MemoryId(c))
                && r1[v as int].id.0 == k) by {
                assert(c0.contains(((c, k), v)) <==> (v < r0.len()
                    && r0[v as int].cause_ids@.contains(MemoryId(c)) && r0[v as int].id.0 == k));
                if v < n {
                    assert(r1[v as int] == r0[v as int]);
                }
            }
        }
        Ok(id)
    }
}

} // verus!
