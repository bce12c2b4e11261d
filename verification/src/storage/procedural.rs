//! The procedural store's indexes: versioned skills.
//!
//! A skill is identified by `(agent, name)` and evolves through versions. Each
//! [`put_skill`](ProceduralIndex::put_skill) records a new version
//! (`version = previous + 1`, saturating) whose `supersedes` points at the
//! previous version's id, forming a chain. All versions are retained.
//!
//! Versions are keyed `(agent, name, version)` in a copy-on-write B-tree, with
//! skill names interned to small integers so the key is a tuple of integers.

use vstd::prelude::*;

use crate::base::ids::{lemma_parts_round_trip, two_80, AgentId, MemoryId};
use crate::base::records::ProceduralRecord;
use crate::base::text::{chars_lt, lemma_chars_lt_strict_total, lemma_chars_lt_transitive, str_lt};
use crate::base::time::{Clock, Timestamp};
use crate::consistency::acc::copy_bytes;
use crate::storage::btree::{
    has_key, lemma_has_key_value, lemma_range_of_contains, lemma_range_of_sorted,
    lemma_value_at, range_of, sorted, upserted, value_at, CowBTree, Iter, KeyBound,
};
use crate::storage::common::{mint_id, next_tx, TxClock};
use crate::storage::key::BKey;

verus! {

/// Two skill versions agree field by field.
pub open spec fn same_skill(a: ProceduralRecord, b: ProceduralRecord) -> bool {
    &&& a.id == b.id
    &&& a.agent_id == b.agent_id
    &&& a.name@ == b.name@
    &&& a.version == b.version
    &&& a.steps@ == b.steps@
    &&& a.supersedes == b.supersedes
    &&& a.valid_from == b.valid_from
    &&& a.tx_from == b.tx_from
}

/// A field-by-field copy of a skill version.
pub fn copy_skill(r: &ProceduralRecord) -> (c: ProceduralRecord)
    ensures
        same_skill(c, *r),
{
    ProceduralRecord {
        id: r.id,
        agent_id: r.agent_id,
        name: r.name.clone(),
        version: r.version,
        steps: copy_bytes(r.steps.as_slice()),
        supersedes: r.supersedes,
        valid_from: r.valid_from,
        tx_from: r.tx_from,
    }
}

/// `v + 1`, saturating at `u32::MAX`.
pub open spec fn next_version(v: u32) -> u32 {
    if v == u32::MAX {
        v
    } else {
        (v + 1) as u32
    }
}

/// The interned name table: no name occurs twice.
pub open spec fn distinct_names(names: Seq<String>) -> bool {
    forall|a: int, b: int| 0 <= a < b < names.len() ==> (#[trigger] names[a])@ != (#[trigger] names[b])@
}

/// Slot `k` occurs in `order`.
pub open spec fn name_listed(order: Seq<usize>, k: int) -> bool {
    exists|i: int| 0 <= i < order.len() && order[i] == k
}

/// `order` lists every slot of `names` exactly once, in strictly increasing
/// name order, so a name is found by binary search.
pub open spec fn name_order(names: Seq<String>, order: Seq<usize>) -> bool {
    &&& order.len() == names.len()
    &&& forall|i: int| 0 <= i < order.len() ==> (#[trigger] order[i]) < names.len()
    &&& forall|a: int, b: int|
        0 <= a < b < order.len() ==> chars_lt(names[(#[trigger] order[a]) as int]@, names[(#[trigger] order[b]) as int]@)
    &&& forall|k: int| 0 <= k < names.len() ==> #[trigger] name_listed(order, k)
}

/// Binary search of `order` for `name`: its position, or the position where it
/// would go (every name before it smaller, every name from it on larger).
fn locate_name(names: &Vec<String>, order: &Vec<usize>, name: &String) -> (r: Result<usize, usize>)
    requires
        name_order(names@, order@),
    ensures
        match r {
            Ok(i) => i < order@.len() && names@[order@[i as int] as int]@ == name@,
            Err(i) => {
                &&& i <= order@.len()
                &&& forall|j: int| 0 <= j < i ==> chars_lt(names@[(#[trigger] order@[j]) as int]@, name@)
                &&& forall|j: int| i <= j < order@.len() ==> chars_lt(name@, names@[(#[trigger] order@[j]) as int]@)
            },
        },
{
    let mut lo: usize = 0;
    let mut hi: usize = order.len();
    while lo < hi
        invariant
            name_order(names@, order@),
            lo <= hi <= order@.len(),
            forall|j: int| 0 <= j < lo ==> chars_lt(names@[(#[trigger] order@[j]) as int]@, name@),
            forall|j: int| hi <= j < order@.len() ==> chars_lt(name@, names@[(#[trigger] order@[j]) as int]@),
        decreases hi - lo,
    {
        let mid = lo + (hi - lo) / 2;
        let k = order[mid];
        let q = &names[k];
        if *q == *name {
            return Ok(mid);
        }
        let ghost qv = q@;
        proof {
            lemma_chars_lt_strict_total(qv, name@);
        }
        if str_lt(q, name) {
            proof {
                assert forall|j: int| 0 <= j < mid + 1 implies chars_lt(names@[(#[trigger] order@[j]) as int]@, name@) by {
                    if j < mid {
                        lemma_chars_lt_transitive(names@[order@[j] as int]@, qv, name@);
                    }
                }
            }
            lo = mid + 1;
        } else {
            proof {
                assert forall|j: int| mid <= j < order@.len() implies chars_lt(name@, names@[(#[trigger] order@[j]) as int]@) by {
                    if j > mid {
                        assert(chars_lt(qv, names@[order@[j] as int]@));
                        lemma_chars_lt_transitive(name@, qv, names@[order@[j] as int]@);
                    }
                }
            }
            hi = mid;
        }
    }
    Err(lo)
}

/// The indexes of a versioned skill store.
pub struct ProceduralIndex {
    names: Vec<String>,
    order: Vec<usize>,
    records: Vec<ProceduralRecord>,
    by_skill: CowBTree<(u64, u64, u64), usize>,
    by_id: CowBTree<u128, usize>,
    tx: TxClock,
}

impl ProceduralIndex {
    /// Every skill version ever indexed, in order.
    pub closed spec fn records(&self) -> Seq<ProceduralRecord> {
        self.records@
    }

    /// The store's transaction clock.
    pub closed spec fn tx_clock(&self) -> (i64, u128) {
        (self.tx.last_tx, self.tx.next_counter)
    }

    /// The slot `name` was interned at, if any.
    closed spec fn slot(&self, name: Seq<char>) -> Option<int> {
        if exists|s: int| 0 <= s < self.names@.len() && (#[trigger] self.names@[s])@ == name {
            Some(choose|s: int| 0 <= s < self.names@.len() && (#[trigger] self.names@[s])@ == name)
        } else {
            None
        }
    }

    /// Whether version `v` of skill `(agent, name)` is held.
    pub closed spec fn has_version(&self, agent: u64, name: Seq<char>, v: u32) -> bool {
        match self.slot(name) {
            Some(s) => has_key(self.by_skill.entries(), (agent, s as u64, v as u64)),
            None => false,
        }
    }

    /// Version `v` of skill `(agent, name)` (meaningful when it is held).
    pub closed spec fn version_of(&self, agent: u64, name: Seq<char>, v: u32) -> ProceduralRecord {
        let s = self.slot(name).unwrap();
        self.records@[value_at(self.by_skill.entries(), (agent, s as u64, v as u64)) as int]
    }

    /// The highest version held for skill `(agent, name)`, if any.
    pub closed spec fn latest_version(&self, agent: u64, name: Seq<char>) -> Option<u32> {
        if exists|v: u32| #[trigger] self.has_version(agent, name, v) {
            Some(
                choose|v: u32|
                    #[trigger] self.has_version(agent, name, v) && forall|w: u32| #[trigger]
                        self.has_version(agent, name, w) ==> w <= v,
            )
        } else {
            None
        }
    }

    /// Every id held has its randomness below the id counter, and the counter is
    /// still inside the 80-bit randomness field, so the next minted id is new.
    pub closed spec fn counter_ahead(&self) -> bool {
        &&& (self.tx.next_counter as int) < two_80()
        &&& forall|j: int|
            0 <= j < self.records@.len() ==> ((#[trigger] self.records@[j]).id.0 as int) % two_80()
                < self.tx.next_counter
    }

    /// The set of ids held is finite.
    pub proof fn lemma_ids_finite(&self)
        ensures
            self.ids().finite(),
    {
        let ks = self.records@.map_values(|r: ProceduralRecord| r.id.0);
        assert forall|k: u128| #[trigger] self.ids().contains(k) <==> ks.to_set().contains(k) by {
            if self.ids().contains(k) {
                let j = choose|j: int| 0 <= j < self.records@.len() && (#[trigger] self.records@[j]).id.0 == k;
                assert(ks[j] == k);
            }
            if ks.to_set().contains(k) {
                let j = choose|j: int| 0 <= j < ks.len() && ks[j] == k;
                assert(self.records@[j].id.0 == k);
            }
        }
        assert(self.ids() =~= ks.to_set());
        vstd::seq_lib::seq_to_set_is_finite(ks);
    }

    /// The ids of the recorded versions.
    pub closed spec fn ids(&self) -> Set<u128> {
        Set::new(|k: u128| exists|j: int| 0 <= j < self.records@.len() && (#[trigger] self.records@[j]).id.0 == k)
    }

    /// The indexes describe the recorded versions.
    pub closed spec fn wf(&self) -> bool {
        let r = self.records@;
        &&& distinct_names(self.names@)
        &&& name_order(self.names@, self.order@)
        &&& forall|a: u64, s: u64, v: u64, i: usize| #[trigger]
            self.by_skill.entries().contains(((a, s, v), i)) ==> {
                &&& s < self.names@.len()
                &&& i < r.len()
                &&& r[i as int].agent_id.0 == a
                &&& r[i as int].name@ == self.names@[s as int]@
                &&& r[i as int].version == v
            }
        &&& forall|k: u128, i: usize| #[trigger] self.by_id.entries().contains((k, i)) ==> i < r.len()
            && r[i as int].id.0 == k
        &&& forall|j: int| 0 <= j < r.len() ==> has_key(self.by_id.entries(), (#[trigger] r[j]).id.0)
        &&& self.by_id.entries().len() <= r.len()
        &&& self.by_skill.entries().len() <= r.len()
    }

    /// The number of versions ever indexed (replaced ones included).
    pub fn recorded(&self) -> (n: usize)
        ensures
            n == self.records().len(),
    {
        self.records.len()
    }

    /// Empty indexes with a fresh transaction clock.
    pub fn new() -> (ix: ProceduralIndex)
        ensures
            ix.wf(),
            ix.records() == Seq::<ProceduralRecord>::empty(),
            ix.tx_clock() == (i64::MIN, 0u128),
            forall|a: u64, n: Seq<char>, v: u32| !ix.has_version(a, n, v),
            ix.counter_ahead(),
    {
        ProceduralIndex {
            names: Vec::new(),
            order: Vec::new(),
            records: Vec::new(),
            by_skill: CowBTree::new(),
            by_id: CowBTree::new(),
            tx: TxClock::new(),
        }
    }
}

impl ProceduralIndex {
    /// With distinct names, the slot of an interned name is where it sits.
    proof fn lemma_slot(&self, name: Seq<char>, s: int)
        requires
            distinct_names(self.names@),
            0 <= s < self.names@.len(),
            self.names@[s]@ == name,
        ensures
            self.slot(name) == Some(s),
    {
        let t = choose|t: int| 0 <= t < self.names@.len() && (#[trigger] self.names@[t])@ == name;
        if t != s {
            if t < s {
                assert(self.names@[t]@ != self.names@[s]@);
            } else {
                assert(self.names@[s]@ != self.names@[t]@);
            }
        }
    }

    /// The slot of `name`, if it was interned (binary search).
    fn find(&self, name: &String) -> (r: Option<usize>)
        requires
            self.wf(),
        ensures
            match r {
                Some(k) => k < self.names@.len() && self.names@[k as int]@ == name@,
                None => forall|k: int| 0 <= k < self.names@.len() ==> (#[trigger] self.names@[k])@ != name@,
            },
    {
        match locate_name(&self.names, &self.order, name) {
            Ok(i) => Some(self.order[i]),
            Err(pos) => {
                proof {
                    lemma_chars_lt_strict_total(name@, name@);
                    assert(name_order(self.names@, self.order@));
                    assert forall|k: int| 0 <= k < self.names@.len() implies (#[trigger] self.names@[k])@ != name@ by {
                        assert(name_listed(self.order@, k));
                        let j = choose|j: int| 0 <= j < self.order@.len() && self.order@[j] == k;
                        if j < pos {
                            assert(chars_lt(self.names@[self.order@[j] as int]@, name@));
                        } else {
                            assert(chars_lt(name@, self.names@[self.order@[j] as int]@));
                        }
                    }
                }
                None
            },
        }
    }

    /// The slot of `name`, interning it if it is new.
    fn intern(&mut self, name: &String) -> (s: usize)
        requires
            old(self).wf(),
        ensures
            final(self).wf(),
            s < final(self).names@.len(),
            final(self).names@[s as int]@ == name@,
            old(self).names@.len() <= final(self).names@.len() <= old(self).names@.len() + 1,
            final(self).names@.len() == old(self).names@.len() + 1 ==> s == old(self).names@.len(),
            forall|t: int| 0 <= t < old(self).names@.len() ==> final(self).names@[t] == old(self).names@[t],
            final(self).records@ == old(self).records@,
            final(self).by_skill.entries() == old(self).by_skill.entries(),
            final(self).by_id.entries() == old(self).by_id.entries(),
            final(self).tx == old(self).tx,
    {
        match locate_name(&self.names, &self.order, name) {
            Ok(i) => self.order[i],
            Err(pos) => {
                proof {
                    lemma_chars_lt_strict_total(name@, name@);
                    assert(name_order(self.names@, self.order@));
                    assert forall|k: int| 0 <= k < self.names@.len() implies (#[trigger] self.names@[k])@ != name@ by {
                        assert(name_listed(self.order@, k));
                        let j = choose|j: int| 0 <= j < self.order@.len() && self.order@[j] == k;
                        if j < pos {
                            assert(chars_lt(self.names@[self.order@[j] as int]@, name@));
                        } else {
                            assert(chars_lt(name@, self.names@[self.order@[j] as int]@));
                        }
                    }
                }
                let s = self.names.len();
                let ghost o0 = self.order@;
                let ghost n0 = self.names@;
                self.names.push(name.clone());
                self.order.insert(pos, s);
                proof {
                    let ns = self.names@;
                    let od = self.order@;
                    assert(ns[s as int]@ == name@);
                    assert forall|i: int| 0 <= i < od.len() implies (#[trigger] od[i]) < ns.len() by {
                        if i < pos {
                            assert(od[i] == o0[i]);
                        } else if i > pos {
                            assert(od[i] == o0[i - 1]);
                        }
                    }
                    assert forall|a: int, b: int| 0 <= a < b < od.len() implies chars_lt(
                        ns[(#[trigger] od[a]) as int]@,
                        ns[(#[trigger] od[b]) as int]@,
                    ) by {
                        if b < pos {
                            assert(od[a] == o0[a] && od[b] == o0[b]);
                            assert(chars_lt(n0[o0[a] as int]@, n0[o0[b] as int]@));
                            assert(ns[od[a] as int] == n0[o0[a] as int] && ns[od[b] as int] == n0[o0[b] as int]);
                        } else if b == pos {
                            assert(od[a] == o0[a]);
                            assert(chars_lt(n0[o0[a] as int]@, name@));
                            assert(ns[od[a] as int] == n0[o0[a] as int]);
                        } else if a == pos {
                            assert(od[b] == o0[b - 1]);
                            assert(chars_lt(name@, n0[o0[b - 1] as int]@));
                            assert(ns[od[b] as int] == n0[o0[b - 1] as int]);
                        } else if a < pos {
                            assert(od[a] == o0[a] && od[b] == o0[b - 1]);
                            assert(chars_lt(n0[o0[a] as int]@, name@));
                            assert(chars_lt(name@, n0[o0[b - 1] as int]@));
                            lemma_chars_lt_transitive(n0[o0[a] as int]@, name@, n0[o0[b - 1] as int]@);
                            assert(ns[od[a] as int] == n0[o0[a] as int] && ns[od[b] as int] == n0[o0[b - 1] as int]);
                        } else {
                            assert(od[a] == o0[a - 1] && od[b] == o0[b - 1]);
                            assert(chars_lt(n0[o0[a - 1] as int]@, n0[o0[b - 1] as int]@));
                            assert(ns[od[a] as int] == n0[o0[a - 1] as int] && ns[od[b] as int] == n0[o0[b - 1] as int]);
                        }
                    }
                    assert forall|kk: int| 0 <= kk < ns.len() implies #[trigger] name_listed(od, kk) by {
                        if kk == s {
                            assert(od[pos as int] == kk);
                        } else {
                            assert(name_listed(o0, kk));
                            let j = choose|j: int| 0 <= j < o0.len() && o0[j] == kk;
                            if j < pos {
                                assert(od[j] == kk);
                            } else {
                                assert(od[j + 1] == kk);
                            }
                        }
                    }
                    assert(name_order(ns, od));
                }
                proof {
                    let ns = self.names@;
                    assert forall|a: int, b: int| 0 <= a < b < ns.len() implies (#[trigger] ns[a])@
                        != (#[trigger] ns[b])@ by {
                        if b < s {
                            assert(ns[a] == old(self).names@[a] && ns[b] == old(self).names@[b]);
                        } else {
                            assert(ns[a] == old(self).names@[a]);
                        }
                    }
                    assert forall|a: u64, t: u64, v: u64, i: usize| #[trigger]
                        self.by_skill.entries().contains(((a, t, v), i)) implies t < ns.len()
                        && self.records@[i as int].name@ == ns[t as int]@ by {
                        assert(old(self).by_skill.entries().contains(((a, t, v), i)));
                        assert(ns[t as int] == old(self).names@[t as int]);
                    }
                }
                s
            },
        }
    }

    /// Index one skill version: it becomes version `record.version` of its skill,
    /// replacing whatever that version held, and is found by its id.
    pub fn index(&mut self, record: ProceduralRecord)
        requires
            old(self).wf(),
            old(self).records().len() + 1 < usize::MAX,
        ensures
            final(self).wf(),
            final(self).records() == old(self).records().push(record),
            final(self).tx_clock() == old(self).tx_clock(),
            final(self).has_version(record.agent_id.0, record.name@, record.version),
            final(self).version_of(record.agent_id.0, record.name@, record.version) == record,
            forall|a: u64, n: Seq<char>, v: u32| (a, n, v) != (record.agent_id.0, record.name@, record.version)
                ==> {
                &&& #[trigger] final(self).has_version(a, n, v) == old(self).has_version(a, n, v)
                &&& old(self).has_version(a, n, v) ==> final(self).version_of(a, n, v) == old(
                    self,
                ).version_of(a, n, v)
            },
    {
        let ghost o = *old(self);
        let s = self.intern(&record.name);
        let _ = self.names.len();
        let ghost m = *self;
        let idx = self.records.len();
        let key = (record.agent_id.0, s as u64, record.version as u64);
        let _ = self.by_skill.len();
        let _ = self.by_id.len();
        self.by_skill.insert(key, idx);
        self.by_id.insert(record.id.0, idx);
        let ghost rec = record;
        self.records.push(record);
        proof {
            let r = self.records@;
            let es = self.by_skill.entries();
            let is = self.by_id.entries();
            assert(r[idx as int] == rec);
            assert forall|a: u64, t: u64, v: u64, i: usize| #[trigger] es.contains(((a, t, v), i)) implies {
                &&& t < self.names@.len()
                &&& i < r.len()
                &&& r[i as int].agent_id.0 == a
                &&& r[i as int].name@ == self.names@[t as int]@
                &&& r[i as int].version == v
            } by {
                if ((a, t, v), i) != (key, idx) {
                    assert(m.by_skill.entries().contains(((a, t, v), i)));
                    assert(r[i as int] == m.records@[i as int]);
                }
            }
            assert forall|k: u128, i: usize| #[trigger] is.contains((k, i)) implies i < r.len()
                && r[i as int].id.0 == k by {
                if (k, i) != (rec.id.0, idx) {
                    assert(m.by_id.entries().contains((k, i)));
                    assert(r[i as int] == m.records@[i as int]);
                }
            }
            assert forall|j: int| 0 <= j < r.len() implies has_key(is, (#[trigger] r[j]).id.0) by {
                if j == idx {
                    assert(is.contains((rec.id.0, idx)));
                    lemma_value_at(is, rec.id.0, idx);
                } else {
                    assert(r[j] == m.records@[j]);
                    let k = r[j].id.0;
                    assert(has_key(m.by_id.entries(), k));
                    if k != rec.id.0 {
                        lemma_has_key_value(m.by_id.entries(), k);
                        let w = value_at(m.by_id.entries(), k);
                        assert(is.contains((k, w)));
                        lemma_value_at(is, k, w);
                    } else {
                        assert(is.contains((rec.id.0, idx)));
                        lemma_value_at(is, rec.id.0, idx);
                    }
                }
            }
            assert(self.wf());
            // The new version is found under its key.
            self.lemma_slot(rec.name@, s as int);
            assert(es.contains((key, idx)));
            lemma_value_at(es, key, idx);
            // Every other version is as it was.
            assert forall|a: u64, n: Seq<char>, v: u32| (a, n, v) != (rec.agent_id.0, rec.name@, rec.version)
                implies {
                &&& #[trigger] self.has_version(a, n, v) == o.has_version(a, n, v)
                &&& o.has_version(a, n, v) ==> self.version_of(a, n, v) == o.version_of(a, n, v)
            } by {
                match o.slot(n) {
                    Some(t) => {
                        assert(0 <= t < o.names@.len() && o.names@[t]@ == n);
                        assert(self.names@[t] == o.names@[t]);
                        self.lemma_slot(n, t);
                        let k2 = (a, t as u64, v as u64);
                        assert(k2 != key) by {
                            if k2 == key {
                                assert(t == s as int);
                                assert(n == rec.name@);
                            }
                        }
                        if has_key(o.by_skill.entries(), k2) {
                            lemma_has_key_value(o.by_skill.entries(), k2);
                            let w = value_at(o.by_skill.entries(), k2);
                            assert(es.contains((k2, w)));
                            lemma_value_at(es, k2, w);
                            assert(r[w as int] == o.records@[w as int]);
                        } else {
                            if has_key(es, k2) {
                                lemma_has_key_value(es, k2);
                                let w = value_at(es, k2);
                                assert(o.by_skill.entries().contains((k2, w)));
                                lemma_value_at(o.by_skill.entries(), k2, w);
                            }
                        }
                    },
                    None => {
                        if self.has_version(a, n, v) {
                            let t = self.slot(n).unwrap();
                            assert(0 <= t < self.names@.len() && self.names@[t]@ == n);
                            if t < o.names@.len() {
                                assert(self.names@[t] == o.names@[t]);
                            }
                            assert(t == s as int);
                            let k2 = (a, t as u64, v as u64);
                            lemma_has_key_value(es, k2);
                            let w = value_at(es, k2);
                            if k2 != key {
                                assert(o.by_skill.entries().contains((k2, w)));
                                assert(w < o.records@.len());
                                assert(o.records@[w as int].name@ == o.names@[s as int]@);
                            } else {
                                assert(n == rec.name@);
                                assert(v == rec.version);
                            }
                        }
                    },
                }
            }
        }
    }
}

impl ProceduralIndex {
    /// Two indexes with the same contents agree on every view of them.
    proof fn lemma_same_index(x: ProceduralIndex, y: ProceduralIndex)
        requires
            x.names == y.names,
            x.order == y.order,
            x.records == y.records,
            x.by_skill == y.by_skill,
            x.by_id == y.by_id,
        ensures
            x.wf() == y.wf(),
            x.records() == y.records(),
            forall|a: u64, n: Seq<char>, v: u32| #[trigger] x.has_version(a, n, v) == y.has_version(a, n, v),
            forall|a: u64, n: Seq<char>, v: u32| #[trigger] x.version_of(a, n, v) == y.version_of(a, n, v),
    {
        assert forall|n: Seq<char>| #[trigger] x.slot(n) == y.slot(n) by {}
    }

    /// A held version that no other held version exceeds is the latest.
    proof fn lemma_latest_is(&self, a: u64, n: Seq<char>, v: u32)
        requires
            self.has_version(a, n, v),
            forall|w: u32| #[trigger] self.has_version(a, n, w) ==> w <= v,
        ensures
            self.latest_version(a, n) == Some(v),
    {
        let c = choose|c: u32|
            #[trigger] self.has_version(a, n, c) && forall|w: u32| #[trigger]
                self.has_version(a, n, w) ==> w <= c;
        assert(c <= v);
        assert(v <= c);
    }

    /// The entries of skill slot `s` of `agent`, ascending by version.
    fn skill_range(&self, agent: u64, s: usize) -> (it: Iter<(u64, u64, u64), usize>)
        requires
            self.wf(),
            s < self.names@.len(),
        ensures
            it.remaining() == range_of(
                self.by_skill.entries(),
                KeyBound::Included((agent, s as u64, 0u64)),
                KeyBound::Included((agent, s as u64, u64::MAX)),
            ),
            sorted(it.remaining()),
            sorted(self.by_skill.entries()),
            forall|i: int| 0 <= i < it.remaining().len() ==> {
                &&& self.by_skill.entries().contains(#[trigger] it.remaining()[i])
                &&& (it.remaining()[i].0).0 == agent
                &&& (it.remaining()[i].0).1 == s
                &&& it.remaining()[i].1 < self.records@.len()
            },
            forall|v: u64, i: usize| #[trigger] self.by_skill.entries().contains(((agent, s as u64, v), i))
                ==> it.remaining().contains(((agent, s as u64, v), i)),
    {
        let _ = self.by_skill.len();
        let lo = KeyBound::Included((agent, s as u64, 0u64));
        let hi = KeyBound::Included((agent, s as u64, u64::MAX));
        let it = self.by_skill.range(lo, hi);
        proof {
            let es = self.by_skill.entries();
            let rg = it.remaining();
            lemma_range_of_sorted(es, lo, hi);
            assert forall|i: int| 0 <= i < rg.len() implies {
                &&& es.contains(#[trigger] rg[i])
                &&& (rg[i].0).0 == agent
                &&& (rg[i].0).1 == s
                &&& rg[i].1 < self.records@.len()
            } by {
                assert(rg.contains(rg[i]));
                lemma_range_of_contains(es, lo, hi, rg[i]);
                let e = rg[i];
                assert(es.contains((((e.0).0, (e.0).1, (e.0).2), e.1)));
            }
            assert forall|v: u64, i: usize| #[trigger] es.contains(((agent, s as u64, v), i)) implies rg.contains(
                ((agent, s as u64, v), i),
            ) by {
                lemma_range_of_contains(es, lo, hi, ((agent, s as u64, v), i));
            }
        }
        it
    }

    /// The current (highest-version) skill `(agent, name)`.
    pub fn latest(&self, agent: AgentId, name: &str) -> (r: Option<ProceduralRecord>)
        requires
            self.wf(),
        ensures
            match r {
                None => self.latest_version(agent.0, name@) is None && forall|v: u32|
                    !#[trigger] self.has_version(agent.0, name@, v),
                Some(x) => self.latest_version(agent.0, name@) == Some(x.version) && same_skill(
                    x,
                    self.version_of(agent.0, name@, x.version),
                ) && self.has_version(agent.0, name@, x.version) && forall|v: u32| #[trigger]
                    self.has_version(agent.0, name@, v) ==> v <= x.version,
            },
    {
        let n = name.to_owned();
        match self.find(&n) {
            None => {
                proof {
                    assert(self.slot(name@) is None);
                    assert(!exists|v: u32| #[trigger] self.has_version(agent.0, name@, v));
                }
                None
            },
            Some(s) => {
                proof {
                    self.lemma_slot(name@, s as int);
                }
                let mut it = self.skill_range(agent.0, s);
                let ghost rg = it.remaining();
                let mut last: Option<((u64, u64, u64), usize)> = None;
                let ghost mut k: int = 0;
                while it.has_next()
                    invariant
                        0 <= k <= rg.len(),
                        it.remaining() == rg.skip(k),
                        last == (if k == 0 {
                            None::<((u64, u64, u64), usize)>
                        } else {
                            Some(rg[k - 1])
                        }),
                    decreases rg.len() - k,
                {
                    last = it.next();
                    proof {
                        k = k + 1;
                        assert(it.remaining() =~= rg.skip(k));
                    }
                }
                let ghost es = self.by_skill.entries();
                match last {
                    None => {
                        proof {
                            assert(rg.len() == 0);
                            assert forall|v: u32| !#[trigger] self.has_version(agent.0, name@, v) by {
                                if self.has_version(agent.0, name@, v) {
                                    let key = (agent.0, s as u64, v as u64);
                                    lemma_has_key_value(es, key);
                                    assert(rg.contains((key, value_at(es, key))));
                                }
                            }
                        }
                        None
                    },
                    Some((key, i)) => {
                        let x = copy_skill(&self.records[i]);
                        proof {
                            let q = rg.len() - 1;
                            assert(rg[q] == (key, i));
                            assert(es.contains(rg[q]));
                            assert(es.contains(((key.0, key.1, key.2), i)));
                            let v = x.version;
                            assert(key == (agent.0, s as u64, v as u64));
                            lemma_value_at(es, key, i);
                            assert(self.has_version(agent.0, name@, v));
                            assert forall|w: u32| #[trigger] self.has_version(agent.0, name@, w) implies w
                                <= v by {
                                let kw = (agent.0, s as u64, w as u64);
                                lemma_has_key_value(es, kw);
                                let iw = value_at(es, kw);
                                assert(rg.contains((kw, iw)));
                                let p = choose|p: int| 0 <= p < rg.len() && rg[p] == (kw, iw);
                                if p < q {
                                    assert(rg[p].0.precedes(rg[q].0));
                                }
                            }
                            self.lemma_latest_is(agent.0, name@, v);
                        }
                        Some(x)
                    },
                }
            },
        }
    }

    /// Version `version` of skill `(agent, name)`.
    pub fn get_version(&self, agent: AgentId, name: &str, version: u32) -> (r: Option<ProceduralRecord>)
        requires
            self.wf(),
        ensures
            match r {
                None => !self.has_version(agent.0, name@, version),
                Some(x) => self.has_version(agent.0, name@, version) && same_skill(
                    x,
                    self.version_of(agent.0, name@, version),
                ),
            },
    {
        let n = name.to_owned();
        match self.find(&n) {
            None => None,
            Some(s) => {
                proof {
                    self.lemma_slot(name@, s as int);
                }
                let key = (agent.0, s as u64, version as u64);
                match self.by_skill.get(&key) {
                    None => None,
                    Some(i) => {
                        proof {
                            lemma_value_at(self.by_skill.entries(), key, i);
                        }
                        Some(copy_skill(&self.records[i]))
                    },
                }
            },
        }
    }

    /// Every version of skill `(agent, name)`, ascending by version.
    pub fn history(&self, agent: AgentId, name: &str) -> (out: Vec<ProceduralRecord>)
        requires
            self.wf(),
        ensures
            forall|i: int| 0 <= i < out@.len() ==> self.has_version(agent.0, name@, (#[trigger] out@[i]).version)
                && same_skill(out@[i], self.version_of(agent.0, name@, out@[i].version)),
            forall|v: u32| #[trigger] self.has_version(agent.0, name@, v) ==> exists|i: int|
                0 <= i < out@.len() && (#[trigger] out@[i]).version == v,
            forall|a: int, b: int| 0 <= a < b < out@.len() ==> (#[trigger] out@[a]).version
                < (#[trigger] out@[b]).version,
    {
        let n = name.to_owned();
        match self.find(&n) {
            None => {
                proof {
                    assert(self.slot(name@) is None);
                }
                Vec::new()
            },
            Some(s) => {
                proof {
                    self.lemma_slot(name@, s as int);
                }
                let mut it = self.skill_range(agent.0, s);
                let ghost rg = it.remaining();
                let ghost es = self.by_skill.entries();
                let mut out: Vec<ProceduralRecord> = Vec::new();
                while it.has_next()
                    invariant
                        self.wf(),
                        s < self.names@.len(),
                        out@.len() <= rg.len(),
                        it.remaining() == rg.skip(out@.len() as int),
                        forall|i: int| 0 <= i < rg.len() ==> {
                            &&& es.contains(#[trigger] rg[i])
                            &&& (rg[i].0).0 == agent.0
                            &&& (rg[i].0).1 == s
                            &&& rg[i].1 < self.records@.len()
                        },
                        es == self.by_skill.entries(),
                        forall|i: int| 0 <= i < out@.len() ==> same_skill(
                            #[trigger] out@[i],
                            self.records@[rg[i].1 as int],
                        ),
                    decreases rg.len() - out@.len(),
                {
                    match it.next() {
                        Some(e) => {
                            assert(e == rg[out@.len() as int]);
                            let c = copy_skill(&self.records[e.1]);
                            out.push(c);
                            assert(it.remaining() =~= rg.skip(out@.len() as int));
                        },
                        None => {},
                    }
                }
                proof {
                    assert(out@.len() == rg.len());
                    assert forall|i: int| 0 <= i < out@.len() implies self.has_version(
                        agent.0,
                        name@,
                        (#[trigger] out@[i]).version,
                    ) && same_skill(out@[i], self.version_of(agent.0, name@, out@[i].version)) by {
                        let e = rg[i];
                        assert(es.contains(((agent.0, s as u64, (e.0).2), e.1)));
                        assert(e.0 == (agent.0, s as u64, out@[i].version as u64));
                        lemma_value_at(es, e.0, e.1);
                    }
                    assert forall|v: u32| #[trigger] self.has_version(agent.0, name@, v) implies exists|i: int|
                        0 <= i < out@.len() && (#[trigger] out@[i]).version == v by {
                        let kv = (agent.0, s as u64, v as u64);
                        lemma_has_key_value(es, kv);
                        let iv = value_at(es, kv);
                        assert(rg.contains((kv, iv)));
                        let p = choose|p: int| 0 <= p < rg.len() && rg[p] == (kv, iv);
                        assert(same_skill(out@[p], self.records@[iv as int]));
                    }
                    assert forall|a: int, b: int| 0 <= a < b < out@.len() implies (#[trigger] out@[a]).version
                        < (#[trigger] out@[b]).version by {
                        assert(rg[a].0.precedes(rg[b].0));
                        assert(es.contains(((agent.0, s as u64, (rg[a].0).2), rg[a].1)));
                        assert(es.contains(((agent.0, s as u64, (rg[b].0).2), rg[b].1)));
                    }
                }
                out
            },
        }
    }

    /// A skill version by id.
    pub fn get_by_id(&self, id: MemoryId) -> (r: Option<ProceduralRecord>)
        requires
            self.wf(),
        ensures
            match r {
                None => !self.ids().contains(id.0),
                Some(x) => x.id == id && exists|j: int| 0 <= j < self.records().len() && same_skill(
                    x,
                    #[trigger] self.records()[j],
                ),
            },
    {
        match self.by_id.get(&id.0) {
            None => {
                proof {
                    if self.ids().contains(id.0) {
                        let j = choose|j: int| 0 <= j < self.records@.len() && (#[trigger] self.records@[j]).id.0 == id.0;
                        assert(has_key(self.by_id.entries(), self.records@[j].id.0));
                        assert(has_key(self.by_id.entries(), id.0));
                        assert(false);
                    }
                }
                None
            },
            Some(i) => {
                let x = copy_skill(&self.records[i]);
                assert(MemoryId(id.0) == id);
                assert(x.id == MemoryId(x.id.0));
                assert(same_skill(x, self.records()[i as int]));
                Some(x)
            },
        }
    }

    /// The number of distinct version ids stored.
    pub fn version_count(&self) -> (n: usize)
        requires
            self.wf(),
        ensures
            n == self.ids().len(),
    {
        let n = self.by_id.len();
        proof {
            let is = self.by_id.entries();
            let keys = is.map_values(|e: (u128, usize)| e.0);
            assert(keys.no_duplicates()) by {
                assert forall|a: int, b: int| 0 <= a < keys.len() && 0 <= b < keys.len() && a != b implies keys[a]
                    != keys[b] by {
                    if a < b {
                        assert(is[a].0.precedes(is[b].0));
                    } else {
                        assert(is[b].0.precedes(is[a].0));
                    }
                }
            }
            keys.unique_seq_to_set();
            assert(keys.to_set() =~= self.ids()) by {
                assert forall|k: u128| keys.to_set().contains(k) implies self.ids().contains(k) by {
                    let a = choose|a: int| 0 <= a < keys.len() && keys[a] == k;
                    assert(is.contains(is[a]));
                    assert(is.contains((is[a].0, is[a].1)));
                    let j = is[a].1 as int;
                    assert(self.records@[j].id.0 == k);
                }
                assert forall|k: u128| self.ids().contains(k) implies keys.to_set().contains(k) by {
                    let j = choose|j: int| 0 <= j < self.records@.len() && (#[trigger] self.records@[j]).id.0 == k;
                    assert(has_key(is, self.records@[j].id.0));
                    let a = choose|a: int| 0 <= a < is.len() && (#[trigger] is[a]).0 == k;
                    assert(keys[a] == k);
                }
            }
        }
        n
    }

    /// Record a new version of skill `(agent, name)`: one past the latest
    /// version (saturating), superseding it, stamped with a fresh
    /// transaction-time and id. Returns the new version's id.
    pub fn put_skill<C: Clock>(
        &mut self,
        clock: &C,
        agent: AgentId,
        name: &str,
        steps: Vec<u8>,
        valid_from: Timestamp,
    ) -> (id: MemoryId)
        requires
            old(self).wf(),
            old(self).records().len() + 1 < usize::MAX,
        ensures
            final(self).wf(),
            final(self).records().len() == old(self).records().len() + 1,
            final(self).records().drop_last() == old(self).records(),
            ({
                let r = final(self).records().last();
                let prev = old(self).latest_version(agent.0, name@);
                &&& r.id == id
                &&& r.agent_id == agent
                &&& r.name@ == name@
                &&& r.steps@ == steps@
                &&& r.valid_from == valid_from
                &&& r.version == match prev {
                    Some(v) => next_version(v),
                    None => 1u32,
                }
                &&& r.supersedes == match prev {
                    Some(v) => Some(old(self).version_of(agent.0, name@, v).id),
                    None => None::<MemoryId>,
                }
                &&& r.tx_from.0 == final(self).tx_clock().0
                &&& r.tx_from.0 >= crate::storage::common::sat_succ(old(self).tx_clock().0)
                &&& id.0 == crate::base::ids::parts_value(
                    crate::storage::common::tx_millis(r.tx_from.0),
                    old(self).tx_clock().1 as int,
                )
                &&& final(self).has_version(agent.0, name@, r.version)
                &&& final(self).version_of(agent.0, name@, r.version) == r
                &&& prev != Some(u32::MAX) ==> final(self).latest_version(agent.0, name@) == Some(
                    r.version,
                )
            }),
            final(self).tx_clock().1 == (if old(self).tx_clock().1 == u128::MAX {
                0
            } else {
                old(self).tx_clock().1 + 1
            }),
            final(self).ids() == old(self).ids().insert(id.0),
            old(self).counter_ahead() ==> !old(self).ids().contains(id.0) && final(self).ids().len()
                == old(self).ids().len() + 1,
            old(self).counter_ahead() && old(self).tx_clock().1 + 1 < two_80() ==> final(self).counter_ahead(),
            exists|now: Timestamp|
                #[trigger] call_ensures(C::now, (clock,), now) && final(self).tx_clock().0
                    == crate::storage::common::stamp(now.0, old(self).tx_clock().0),
            forall|a: u64, n: Seq<char>, v: u32| (a, n, v) != (agent.0, name@, final(self).records().last().version)
                ==> {
                &&& #[trigger] final(self).has_version(a, n, v) == old(self).has_version(a, n, v)
                &&& old(self).has_version(a, n, v) ==> final(self).version_of(a, n, v) == old(
                    self,
                ).version_of(a, n, v)
            },
    {
        let ghost o = *old(self);
        let prev = self.latest(agent, name);
        let now = next_tx(clock, &mut self.tx);
        let (version, supersedes) = match &prev {
            Some(p) => (if p.version == u32::MAX { u32::MAX } else { p.version + 1 }, Some(p.id)),
            None => (1u32, None),
        };
        let id = mint_id(&mut self.tx, now);
        let record = ProceduralRecord {
            id,
            agent_id: agent,
            name: name.to_owned(),
            version,
            steps,
            supersedes,
            valid_from,
            tx_from: Timestamp(now),
        };
        let ghost m2 = *self;
        proof {
            ProceduralIndex::lemma_same_index(m2, o);
        }
        self.index(record);
        proof {
            assert(self.records@.drop_last() =~= old(self).records@);
            let r = self.records().last();
            assert(r.version == version);
            assert(r.name@ == name@);
            assert(self.has_version(agent.0, name@, r.version));
            assert(self.version_of(agent.0, name@, r.version) == r);
            assert forall|a: u64, n: Seq<char>, v: u32| (a, n, v) != (agent.0, name@, r.version) implies {
                &&& #[trigger] self.has_version(a, n, v) == o.has_version(a, n, v)
                &&& o.has_version(a, n, v) ==> self.version_of(a, n, v) == o.version_of(a, n, v)
            } by {
                assert(m2.has_version(a, n, v) == o.has_version(a, n, v));
                assert(m2.version_of(a, n, v) == o.version_of(a, n, v));
            }
            if o.latest_version(agent.0, name@) != Some(u32::MAX) {
                assert forall|w: u32| #[trigger] self.has_version(agent.0, name@, w) implies w <= r.version by {
                    if w != r.version {
                        assert(m2.has_version(agent.0, name@, w) == o.has_version(agent.0, name@, w));
                    }
                }
                self.lemma_latest_is(agent.0, name@, r.version);
            }
        }
        proof {
            let n = o.records@.len();
            assert forall|j: int| 0 <= j < n implies self.records@[j] == o.records@[j] by {
                assert(self.records().drop_last()[j] == self.records@[j]);
            }
            assert forall|k: u128| #[trigger] self.ids().contains(k) <==> o.ids().insert(id.0).contains(k) by {
                if self.ids().contains(k) {
                    let j = choose|j: int| 0 <= j < self.records@.len() && (#[trigger] self.records@[j]).id.0 == k;
                    if j < n {
                        assert(o.records@[j].id.0 == k);
                    }
                }
                if o.ids().contains(k) {
                    let j = choose|j: int| 0 <= j < o.records@.len() && (#[trigger] o.records@[j]).id.0 == k;
                    assert(self.records@[j].id.0 == k);
                }
                if k == id.0 {
                    assert(self.records@[n as int].id.0 == k);
                }
            }
            assert(self.ids() =~= o.ids().insert(id.0));
            let c = o.tx.next_counter;
            lemma_parts_round_trip(crate::storage::common::tx_millis(self.records@[n as int].tx_from.0), c as int);
            if o.counter_ahead() {
                if o.ids().contains(id.0) {
                    let j = choose|j: int| 0 <= j < o.records@.len() && (#[trigger] o.records@[j]).id.0 == id.0;
                    assert((o.records@[j].id.0 as int) % two_80() < c);
                }
                o.lemma_ids_finite();
            }
            if o.counter_ahead() && c + 1 < two_80() {
                assert forall|j: int| 0 <= j < self.records@.len() implies ((#[trigger] self.records@[j]).id.0 as int)
                    % two_80() < self.tx.next_counter by {
                    if j < n {
                        assert(self.records@[j] == o.records@[j]);
                    }
                }
            }
        }
        id
    }
}

/// The greatest transaction-time among `rs` (`i64::MIN` for none).
pub open spec fn max_tx_from(rs: Seq<ProceduralRecord>) -> i64
    decreases rs.len(),
{
    if rs.len() == 0 {
        i64::MIN
    } else {
        let m = max_tx_from(rs.drop_last());
        if rs.last().tx_from.0 > m {
            rs.last().tx_from.0
        } else {
            m
        }
    }
}

/// Every id's randomness is at most the greatest, which is below `2^80`.
proof fn lemma_max_randomness_bounds(rs: Seq<ProceduralRecord>)
    ensures
        forall|i: int| 0 <= i < rs.len() ==> ((#[trigger] rs[i]).id.0 as int) % two_80() <= max_randomness(rs),
        0 <= max_randomness(rs) < two_80(),
    decreases rs.len(),
{
    if rs.len() > 0 {
        lemma_max_randomness_bounds(rs.drop_last());
        assert forall|i: int| 0 <= i < rs.len() - 1 implies rs[i] == rs.drop_last()[i] by {}
    }
}

/// The greatest id randomness among `rs` (0 for none).
pub open spec fn max_randomness(rs: Seq<ProceduralRecord>) -> int
    decreases rs.len(),
{
    if rs.len() == 0 {
        0
    } else {
        let m = max_randomness(rs.drop_last());
        let r = (rs.last().id.0 as int) % crate::base::ids::two_80();
        if r > m {
            r
        } else {
            m
        }
    }
}

impl ProceduralIndex {
    /// Resume the transaction clock after the indexed versions: transaction-time
    /// continues after the greatest stamp and the id counter after the greatest
    /// id randomness (wrapping).
    pub fn resume_clock(&mut self)
        requires
            old(self).wf(),
        ensures
            final(self).wf(),
            final(self).records() == old(self).records(),
            forall|a: u64, n: Seq<char>, v: u32| #[trigger] final(self).has_version(a, n, v) == old(
                self,
            ).has_version(a, n, v),
            forall|a: u64, n: Seq<char>, v: u32| #[trigger] final(self).version_of(a, n, v) == old(
                self,
            ).version_of(a, n, v),
            final(self).tx_clock().0 == max_tx_from(old(self).records()),
            final(self).tx_clock().1 == (if max_randomness(old(self).records()) == u128::MAX {
                0
            } else {
                max_randomness(old(self).records()) + 1
            }),
            max_randomness(old(self).records()) + 1 < two_80() ==> final(self).counter_ahead(),
    {
        let ghost o = *old(self);
        let mut max_tx: i64 = i64::MIN;
        let mut max_counter: u128 = 0;
        let mut i: usize = 0;
        while i < self.records.len()
            invariant
                self.records@ == o.records@,
                i <= self.records@.len(),
                max_tx == max_tx_from(self.records@.take(i as int)),
                max_counter == max_randomness(self.records@.take(i as int)),
            decreases self.records@.len() - i,
        {
            let r = &self.records[i];
            proof {
                assert(self.records@.take(i + 1).drop_last() =~= self.records@.take(i as int));
            }
            if r.tx_from.0 > max_tx {
                max_tx = r.tx_from.0;
            }
            let rand = r.id.randomness();
            if rand > max_counter {
                max_counter = rand;
            }
            i = i + 1;
        }
        proof {
            assert(self.records@.take(i as int) =~= self.records@);
        }
        self.tx.last_tx = max_tx;
        self.tx.next_counter = max_counter.wrapping_add(1);
        proof {
            ProceduralIndex::lemma_same_index(*self, o);
            lemma_max_randomness_bounds(self.records@);
        }
    }
}

} // verus!
