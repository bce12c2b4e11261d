//! Vector clocks — the metadata that makes agent causal consistency cheap.
//!
//! A [`VectorClock`] maps each agent instance to a monotonic counter. Comparing two
//! clocks tells whether one event causally precedes another or whether they are
//! concurrent, in `O(|instances|)` time and space — no global coordination.
//!
//! The causal "happens-before" relation is the componentwise partial order:
//! `a → b` iff `a[i] ≤ b[i]` for every instance `i` and `a ≠ b`. Incomparable
//! clocks are **concurrent**.
//!
//! **Invariant:** zero-valued counters are never stored (an instance at 0 is the
//! same as an absent one) and entries are kept sorted by instance, so two clocks
//! are equal iff their stored entries are equal.
//!
//! The wire form ([`VectorClock::to_bytes`]) is exactly 16 bytes per instance:
//! an 8-byte big-endian instance id followed by its 8-byte big-endian counter,
//! sorted by id.

use std::cmp::Ordering;
use vstd::prelude::*;
use vstd::std_specs::cmp::PartialEqSpecImpl;

use crate::base::ids::AgentInstanceId;

verus! {

/// Bytes per instance slot in the [`VectorClock::to_bytes`] wire form.
pub const BYTES_PER_SLOT: usize = 16;

/// Whether the entry sequence is canonical: strictly sorted by instance id, with
/// no zero counter.
pub open spec fn canonical(s: Seq<(u64, u64)>) -> bool {
    &&& forall|i: int, j: int| 0 <= i < j < s.len() ==> s[i].0 < s[j].0
    &&& forall|i: int| 0 <= i < s.len() ==> s[i].1 > 0
}

/// Whether `k` is an instance listed in `s`.
pub open spec fn has_key(s: Seq<(u64, u64)>, k: u64) -> bool {
    exists|i: int| 0 <= i < s.len() && s[i].0 == k
}

/// The map from instance to counter that an entry sequence lists.
pub open spec fn entries_map(s: Seq<(u64, u64)>) -> Map<u64, u64> {
    Map::new(
        |k: u64| has_key(s, k),
        |k: u64| s[choose|i: int| 0 <= i < s.len() && s[i].0 == k].1,
    )
}

/// The counter of instance `k` in a clock's map (absent instances are at 0).
pub open spec fn count(m: Map<u64, u64>, k: u64) -> nat {
    if m.contains_key(k) {
        m[k] as nat
    } else {
        0
    }
}

/// Componentwise `a ≤ b`.
pub open spec fn clock_le(a: Map<u64, u64>, b: Map<u64, u64>) -> bool {
    forall|k: u64| #[trigger] count(a, k) <= count(b, k)
}

/// Causal precedence: `a ≤ b` componentwise and `a ≠ b`.
pub open spec fn clock_lt(a: Map<u64, u64>, b: Map<u64, u64>) -> bool {
    clock_le(a, b) && a != b
}

/// Causal concurrency: neither is `≤` the other.
pub open spec fn clock_concurrent(a: Map<u64, u64>, b: Map<u64, u64>) -> bool {
    !clock_le(a, b) && !clock_le(b, a)
}

/// The componentwise maximum (join) of two clock maps.
pub open spec fn clock_join(a: Map<u64, u64>, b: Map<u64, u64>) -> Map<u64, u64> {
    Map::new(
        |k: u64| a.contains_key(k) || b.contains_key(k),
        |k: u64| if count(a, k) >= count(b, k) { count(a, k) as u64 } else { count(b, k) as u64 },
    )
}

/// A well-formed clock map: every stored counter is positive.
pub open spec fn map_wf(m: Map<u64, u64>) -> bool {
    &&& m.dom().finite()
    &&& forall|k: u64| m.contains_key(k) ==> m[k] > 0
}

/// A vector clock: a causal-history summary over agent instances.
#[derive(Debug)]
pub struct VectorClock {
    entries: Vec<(u64, u64)>,
}

impl VectorClock {
    /// Every clock is well formed: it holds sorted, positive counters.
    #[verifier::type_invariant]
    spec fn inv(self) -> bool {
        self.wf()
    }
}

proof fn lemma_entries_map_at(s: Seq<(u64, u64)>, i: int)
    requires
        canonical(s),
        0 <= i < s.len(),
    ensures
        entries_map(s).contains_key(s[i].0),
        entries_map(s)[s[i].0] == s[i].1,
{
    let k = s[i].0;
    assert(has_key(s, k));
    let j = choose|j: int| 0 <= j < s.len() && s[j].0 == k;
    if j != i {
        if j < i {
            assert(s[j].0 < s[i].0);
        } else {
            assert(s[i].0 < s[j].0);
        }
    }
}

proof fn lemma_entries_map_all(s: Seq<(u64, u64)>)
    requires
        canonical(s),
    ensures
        forall|i: int|
            0 <= i < s.len() ==> #[trigger] entries_map(s).contains_key(s[i].0) && entries_map(
                s,
            )[s[i].0] == s[i].1,
        forall|k: u64| entries_map(s).contains_key(k) <==> has_key(s, k),
        map_wf(entries_map(s)),
{
    assert forall|i: int| 0 <= i < s.len() implies #[trigger] entries_map(s).contains_key(s[i].0)
        && entries_map(s)[s[i].0] == s[i].1 by {
        lemma_entries_map_at(s, i);
    }
    assert forall|k: u64| entries_map(s).contains_key(k) implies entries_map(s)[k] > 0 by {
        let j = choose|j: int| 0 <= j < s.len() && s[j].0 == k;
        lemma_entries_map_at(s, j);
    }
    lemma_dom_finite(s);
}

proof fn lemma_dom_finite(s: Seq<(u64, u64)>)
    ensures
        entries_map(s).dom().finite(),
    decreases s.len(),
{
    let keys = Set::new(|k: u64| has_key(s, k));
    if s.len() == 0 {
        assert(keys =~= Set::empty());
    } else {
        let t = s.drop_last();
        lemma_dom_finite(t);
        let tkeys = Set::new(|k: u64| has_key(t, k));
        assert(entries_map(t).dom() =~= tkeys);
        assert(keys =~= tkeys.insert(s.last().0)) by {
            assert forall|k: u64| keys.contains(k) implies tkeys.insert(s.last().0).contains(k) by {
                let i = choose|i: int| 0 <= i < s.len() && s[i].0 == k;
                if i < s.len() - 1 {
                    assert(t[i].0 == k);
                }
            }
            assert forall|k: u64| tkeys.insert(s.last().0).contains(k) implies keys.contains(k) by {
                if k != s.last().0 {
                    let i = choose|i: int| 0 <= i < t.len() && t[i].0 == k;
                    assert(s[i].0 == k);
                } else {
                    assert(s[s.len() - 1].0 == k);
                }
            }
        }
    }
    assert(entries_map(s).dom() =~= keys);
}

proof fn lemma_remove_at(s0: Seq<(u64, u64)>, pos: int)
    requires
        canonical(s0),
        0 <= pos < s0.len(),
    ensures
        canonical(s0.remove(pos)),
        entries_map(s0.remove(pos)) == entries_map(s0).remove(s0[pos].0),
{
    let id = s0[pos].0;
    let s1 = s0.remove(pos);
    assert forall|i: int, j: int| 0 <= i < j < s1.len() implies s1[i].0 < s1[j].0 by {
        assert(s1[i] == s0[if i < pos { i } else { i + 1 }]);
        assert(s1[j] == s0[if j < pos { j } else { j + 1 }]);
    }
    assert forall|i: int| 0 <= i < s1.len() implies s1[i].1 > 0 by {
        assert(s1[i] == s0[if i < pos { i } else { i + 1 }]);
    }
    lemma_entries_map_all(s0);
    lemma_entries_map_all(s1);
    let expect = entries_map(s0).remove(id);
    assert forall|k: u64| #[trigger] entries_map(s1).contains_key(k) == expect.contains_key(k) by {
        if has_key(s1, k) {
            let i = choose|i: int| 0 <= i < s1.len() && s1[i].0 == k;
            let i0 = if i < pos { i } else { i + 1 };
            assert(s0[i0].0 == k);
            if k == id {
                if i0 < pos {
                    assert(s0[i0].0 < s0[pos].0);
                } else {
                    assert(s0[pos].0 < s0[i0].0);
                }
            }
        }
        if has_key(s0, k) && k != id {
            let i = choose|i: int| 0 <= i < s0.len() && s0[i].0 == k;
            assert(i != pos);
            assert(s1[if i < pos { i } else { i - 1 }].0 == k);
        }
    }
    assert forall|k: u64| #[trigger] entries_map(s1).contains_key(k) implies entries_map(s1)[k]
        == expect[k] by {
        let i = choose|i: int| 0 <= i < s1.len() && s1[i].0 == k;
        lemma_entries_map_at(s1, i);
        lemma_entries_map_at(s0, if i < pos { i } else { i + 1 });
    }
    assert(entries_map(s1) =~= expect);
}

proof fn lemma_update_at(s0: Seq<(u64, u64)>, pos: int, c: u64)
    requires
        canonical(s0),
        0 <= pos < s0.len(),
        c > 0,
    ensures
        canonical(s0.update(pos, (s0[pos].0, c))),
        entries_map(s0.update(pos, (s0[pos].0, c))) == entries_map(s0).insert(s0[pos].0, c),
{
    let id = s0[pos].0;
    let s1 = s0.update(pos, (id, c));
    assert forall|i: int, j: int| 0 <= i < j < s1.len() implies s1[i].0 < s1[j].0 by {
        assert(s1[i].0 == s0[i].0);
        assert(s1[j].0 == s0[j].0);
    }
    lemma_entries_map_all(s0);
    lemma_entries_map_all(s1);
    let expect = entries_map(s0).insert(id, c);
    assert forall|k: u64| #[trigger] entries_map(s1).contains_key(k) == expect.contains_key(k) by {
        if has_key(s1, k) {
            let i = choose|i: int| 0 <= i < s1.len() && s1[i].0 == k;
            assert(s0[i].0 == k);
        }
        if has_key(s0, k) {
            let i = choose|i: int| 0 <= i < s0.len() && s0[i].0 == k;
            assert(s1[i].0 == k);
        }
        if k == id {
            assert(s1[pos].0 == k);
        }
    }
    assert forall|k: u64| #[trigger] entries_map(s1).contains_key(k) implies entries_map(s1)[k]
        == expect[k] by {
        let i = choose|i: int| 0 <= i < s1.len() && s1[i].0 == k;
        lemma_entries_map_at(s1, i);
        lemma_entries_map_at(s0, i);
    }
    assert(entries_map(s1) =~= expect);
}

proof fn lemma_insert_at(s0: Seq<(u64, u64)>, pos: int, id: u64, c: u64)
    requires
        canonical(s0),
        0 <= pos <= s0.len(),
        c > 0,
        forall|j: int| 0 <= j < pos ==> s0[j].0 < id,
        forall|j: int| pos <= j < s0.len() ==> s0[j].0 > id,
    ensures
        canonical(s0.insert(pos, (id, c))),
        entries_map(s0.insert(pos, (id, c))) == entries_map(s0).insert(id, c),
{
    let s1 = s0.insert(pos, (id, c));
    assert forall|i: int, j: int| 0 <= i < j < s1.len() implies s1[i].0 < s1[j].0 by {
        if i != pos && j != pos {
            assert(s1[i] == s0[if i < pos { i } else { i - 1 }]);
            assert(s1[j] == s0[if j < pos { j } else { j - 1 }]);
        } else if i == pos {
            assert(s1[j] == s0[j - 1]);
        } else {
            assert(s1[i] == s0[i]);
        }
    }
    assert forall|i: int| 0 <= i < s1.len() implies s1[i].1 > 0 by {
        if i != pos {
            assert(s1[i] == s0[if i < pos { i } else { i - 1 }]);
        }
    }
    lemma_entries_map_all(s0);
    lemma_entries_map_all(s1);
    let expect = entries_map(s0).insert(id, c);
    assert forall|k: u64| #[trigger] entries_map(s1).contains_key(k) == expect.contains_key(k) by {
        if has_key(s1, k) {
            let i = choose|i: int| 0 <= i < s1.len() && s1[i].0 == k;
            if i != pos {
                assert(s0[if i < pos { i } else { i - 1 }].0 == k);
            }
        }
        if has_key(s0, k) {
            let i = choose|i: int| 0 <= i < s0.len() && s0[i].0 == k;
            assert(s1[if i < pos { i } else { i + 1 }].0 == k);
        }
        if k == id {
            assert(s1[pos].0 == k);
        }
    }
    assert forall|k: u64| #[trigger] entries_map(s1).contains_key(k) implies entries_map(s1)[k]
        == expect[k] by {
        let i = choose|i: int| 0 <= i < s1.len() && s1[i].0 == k;
        lemma_entries_map_at(s1, i);
        if i != pos {
            lemma_entries_map_at(s0, if i < pos { i } else { i - 1 });
        }
    }
    assert(entries_map(s1) =~= expect);
}

/// Two canonical entry sequences listing the same map are identical.
proof fn lemma_canonical_unique(a: Seq<(u64, u64)>, b: Seq<(u64, u64)>)
    requires
        canonical(a),
        canonical(b),
        entries_map(a) == entries_map(b),
    ensures
        a == b,
{
    lemma_entries_map_all(a);
    lemma_entries_map_all(b);
    lemma_canonical_prefix(a, b, if a.len() <= b.len() { a.len() as int } else { b.len() as int });
    if a.len() < b.len() {
        let k = b[a.len() as int].0;
        assert(entries_map(b).contains_key(k));
        let i = choose|i: int| 0 <= i < a.len() && a[i].0 == k;
        assert(b[i].0 == k);
        assert(b[i].0 < b[a.len() as int].0);
    } else if b.len() < a.len() {
        let k = a[b.len() as int].0;
        assert(entries_map(a).contains_key(k));
        let i = choose|i: int| 0 <= i < b.len() && b[i].0 == k;
        assert(a[i].0 == k);
        assert(a[i].0 < a[b.len() as int].0);
    }
    assert(a =~= b);
}

proof fn lemma_canonical_prefix(a: Seq<(u64, u64)>, b: Seq<(u64, u64)>, n: int)
    requires
        canonical(a),
        canonical(b),
        entries_map(a) == entries_map(b),
        0 <= n <= a.len(),
        n <= b.len(),
    ensures
        forall|j: int| 0 <= j < n ==> a[j] == b[j],
    decreases n,
{
    if n > 0 {
        lemma_canonical_prefix(a, b, n - 1);
        lemma_entries_map_all(a);
        lemma_entries_map_all(b);
        let i = n - 1;
        let ka = a[i].0;
        let kb = b[i].0;
        assert(entries_map(b).contains_key(ka));
        let jb = choose|j: int| 0 <= j < b.len() && b[j].0 == ka;
        assert(entries_map(a).contains_key(kb));
        let ja = choose|j: int| 0 <= j < a.len() && a[j].0 == kb;
        if jb < i {
            assert(a[jb].0 == ka);
            assert(a[jb].0 < a[i].0);
        }
        if ja < i {
            assert(b[ja].0 == kb);
            assert(b[ja].0 < b[i].0);
        }
        if ka < kb {
            assert(jb > i ==> b[i].0 < b[jb].0);
        }
        if kb < ka {
            assert(ja > i ==> a[i].0 < a[ja].0);
        }
        assert(ka == kb);
        assert(a[i].1 == entries_map(a)[ka]);
        assert(b[i].1 == entries_map(b)[kb]);
    }
}

impl View for VectorClock {
    type V = Map<u64, u64>;

    closed spec fn view(&self) -> Map<u64, u64> {
        entries_map(self.entries@)
    }
}

impl VectorClock {
    /// The clock's internal invariant: canonical entries.
    pub closed spec fn wf(&self) -> bool {
        canonical(self.entries@)
    }

    /// The sorted `(instance, counter)` list the clock holds.
    pub closed spec fn sorted_entries(&self) -> Seq<(u64, u64)> {
        self.entries@
    }

    /// A well-formed clock's map has positive counters and lists exactly its
    /// sorted entries.
    pub proof fn lemma_wf(&self)
        requires
            self.wf(),
        ensures
            map_wf(self@),
            canonical(self.sorted_entries()),
            self@ == entries_map(self.sorted_entries()),
            self.sorted_entries().len() == self@.dom().len(),
    {
        lemma_entries_map_all(self.entries@);
        lemma_dom_len(self.entries@);
    }

    /// Two well-formed clocks with the same map hold the same entries.
    pub proof fn lemma_view_determines(&self, other: &VectorClock)
        requires
            self.wf(),
            other.wf(),
            self@ == other@,
        ensures
            self.sorted_entries() == other.sorted_entries(),
    {
        lemma_canonical_unique(self.entries@, other.entries@);
    }

    /// An empty clock (every instance at 0).
    pub fn new() -> (c: VectorClock)
        ensures
            c.wf(),
            c@ == Map::<u64, u64>::empty(),
    {
        let c = VectorClock { entries: Vec::new() };
        assert(c@ =~= Map::<u64, u64>::empty());
        c
    }

    /// The counter for `id` (0 if the instance is absent).
    pub fn get(&self, id: AgentInstanceId) -> (n: u64)
        ensures
            n == count(self@, id.0),
    {
        proof {
            use_type_invariant(self);
        }
        proof {
            lemma_entries_map_all(self.entries@);
        }
        let mut i: usize = 0;
        while i < self.entries.len()
            invariant
                i <= self.entries@.len(),
                canonical(self.entries@),
                forall|j: int| 0 <= j < i ==> self.entries@[j].0 < id.0,
            decreases self.entries@.len() - i,
        {
            let (k, c) = self.entries[i];
            if k == id.0 {
                return c;
            }
            if k > id.0 {
                assert forall|j: int| 0 <= j < self.entries@.len() implies self.entries@[j].0
                    != id.0 by {
                    if j > i {
                        assert(self.entries@[i as int].0 < self.entries@[j].0);
                    }
                }
                return 0;
            }
            i = i + 1;
        }
        0
    }

    /// Position of the first entry whose id is `>= id`.
    fn lower_bound(entries: &Vec<(u64, u64)>, id: u64) -> (pos: usize)
        requires
            canonical(entries@),
        ensures
            pos <= entries@.len(),
            forall|j: int| 0 <= j < pos ==> entries@[j].0 < id,
            forall|j: int| pos <= j < entries@.len() ==> entries@[j].0 >= id,
    {
        let mut i: usize = 0;
        while i < entries.len()
            invariant
                i <= entries@.len(),
                canonical(entries@),
                forall|j: int| 0 <= j < i ==> entries@[j].0 < id,
            decreases entries@.len() - i,
        {
            if entries[i].0 >= id {
                assert forall|j: int| i <= j < entries@.len() implies entries@[j].0 >= id by {
                    if j > i {
                        assert(entries@[i as int].0 < entries@[j].0);
                    }
                }
                return i;
            }
            i = i + 1;
        }
        i
    }

    /// Set the counter of `id` to `c` (removing the entry when `c` is 0).
    fn set_count(&mut self, id: u64, c: u64)
        requires
            old(self).wf(),
        ensures
            final(self).wf(),
            final(self)@ == (if c == 0 {
                old(self)@.remove(id)
            } else {
                old(self)@.insert(id, c)
            }),
    {
        let mut entries: Vec<(u64, u64)> = Vec::new();
        std::mem::swap(&mut entries, &mut self.entries);
        let ghost s0 = entries@;
        proof {
            lemma_entries_map_all(s0);
        }
        let pos = Self::lower_bound(&entries, id);
        let found = pos < entries.len() && entries[pos].0 == id;
        if found {
            if c == 0 {
                entries.remove(pos);
            } else {
                entries.set(pos, (id, c));
            }
        } else if c != 0 {
            entries.insert(pos, (id, c));
        }
        proof {
            if found {
                if c == 0 {
                    lemma_remove_at(s0, pos as int);
                } else {
                    lemma_update_at(s0, pos as int, c);
                }
            } else if c != 0 {
                lemma_insert_at(s0, pos as int, id, c);
            } else {
                assert(!entries_map(s0).contains_key(id)) by {
                    if has_key(s0, id) {
                        let j = choose|j: int| 0 <= j < s0.len() && s0[j].0 == id;
                        assert(j >= pos);
                        if j > pos {
                            assert(s0[pos as int].0 < s0[j].0);
                        }
                    }
                }
                assert(entries_map(s0).remove(id) =~= entries_map(s0));
            }
        }
        self.entries = entries;
    }

    /// Build a clock from `(instance, counter)` pairs, dropping zero counters.
    /// Later pairs for the same instance overwrite earlier ones (a later zero
    /// removes the instance).
    pub fn from_counts(pairs: &[(AgentInstanceId, u64)]) -> (c: VectorClock)
        ensures
            c.wf(),
            c@ == counts_map(pairs@, pairs@.len() as int),
    {
        let mut c = VectorClock::new();
        let mut i: usize = 0;
        while i < pairs.len()
            invariant
                i <= pairs@.len(),
                c.wf(),
                c@ == counts_map(pairs@, i as int),
            decreases pairs@.len() - i,
        {
            let (id, n) = pairs[i];
            c.set_count(id.0, n);
            i = i + 1;
        }
        c
    }

    /// Advance `id`'s counter by one, returning the new value.
    pub fn increment(&mut self, id: AgentInstanceId) -> (n: u64)
        requires
            count(old(self)@, id.0) < u64::MAX,
        ensures
            final(self).wf(),
            n == count(old(self)@, id.0) + 1,
            final(self)@ == old(self)@.insert(id.0, n),
    {
        proof {
            use_type_invariant(&*self);
        }
        let cur = self.get(id);
        let n = cur + 1;
        self.set_count(id.0, n);
        n
    }

    /// Merge `other` in elementwise: `self[i] = max(self[i], other[i])` (the join
    /// in the clock lattice).
    pub fn merge(&mut self, other: &VectorClock)
        ensures
            final(self).wf(),
            final(self)@ == clock_join(old(self)@, other@),
    {
        proof {
            use_type_invariant(&*self);
            use_type_invariant(other);
        }
        proof {
            lemma_entries_map_all(other.entries@);
            lemma_entries_map_all(self.entries@);
        }
        let ghost start = self@;
        let mut i: usize = 0;
        while i < other.entries.len()
            invariant
                i <= other.entries@.len(),
                self.wf(),
                other.wf(),
                map_wf(start),
                forall|k: u64|
                    #![trigger self@.contains_key(k)]
                    self@.contains_key(k) <==> (start.contains_key(k) || exists|j: int|
                        0 <= j < i && other.entries@[j].0 == k),
                forall|k: u64|
                    #![trigger count(self@, k)]
                    count(self@, k) == (if listed_before(other.entries@, i as int, k)
                        && count(other@, k) > count(start, k) {
                        count(other@, k)
                    } else {
                        count(start, k)
                    }),
            decreases other.entries@.len() - i,
        {
            let (id, c) = other.entries[i];
            proof {
                lemma_entries_map_at(other.entries@, i as int);
            }
            let cur = self.get(AgentInstanceId(id));
            proof {
                assert(!listed_before(other.entries@, i as int, id)) by {
                    if listed_before(other.entries@, i as int, id) {
                        let j = choose|j: int| 0 <= j < i && other.entries@[j].0 == id;
                        assert(other.entries@[j].0 < other.entries@[i as int].0);
                    }
                }
            }
            let ghost before = self@;
            if c > cur {
                self.set_count(id, c);
            }
            i = i + 1;
            proof {
                assert forall|k: u64| k != id implies #[trigger] count(self@, k) == count(before, k)
                    by {}
                assert(count(self@, id) == (if c > cur { c as nat } else { cur as nat }));
                lemma_entries_map_all(other.entries@);
                assert forall|k: u64| #[trigger] listed_before(other.entries@, i as int, k) implies (k
                    == id || listed_before(other.entries@, i - 1, k)) by {
                    let j = choose|j: int| 0 <= j < i && other.entries@[j].0 == k;
                    if j != i - 1 {
                        assert(0 <= j < i - 1 && other.entries@[j].0 == k);
                    }
                }
                assert(listed_before(other.entries@, i as int, id));
                assert(other.entries@[i - 1].0 == id);
            }
        }
        proof {
            lemma_entries_map_all(other.entries@);
            lemma_entries_map_all(self.entries@);
            let join = clock_join(start, other@);
            assert forall|k: u64| #[trigger] self@.contains_key(k) == join.contains_key(k) by {
                if other@.contains_key(k) {
                    let j = choose|j: int|
                        0 <= j < other.entries@.len() && other.entries@[j].0 == k;
                    assert(0 <= j < other.entries@.len() && other.entries@[j].0 == k);
                }
            }
            assert forall|k: u64| self@.contains_key(k) implies self@[k] == join[k] by {
                assert(count(self@, k) == self@[k]);
                if other@.contains_key(k) {
                    let j = choose|j: int|
                        0 <= j < other.entries@.len() && other.entries@[j].0 == k;
                    assert(0 <= j < other.entries@.len() && other.entries@[j].0 == k);
                }
            }
            assert(self@ =~= join);
        }
    }

    /// A new clock that is the elementwise max of `self` and `other`.
    pub fn merged(&self, other: &VectorClock) -> (c: VectorClock)
        ensures
            c.wf(),
            c@ == clock_join(self@, other@),
    {
        proof {
            use_type_invariant(self);
            use_type_invariant(other);
        }
        let mut out = self.clone();
        out.merge(other);
        out
    }

    /// The number of instances tracked (non-zero counters).
    pub fn len(&self) -> (n: usize)
        ensures
            n == self@.dom().len(),
    {
        proof {
            use_type_invariant(self);
        }
        proof {
            lemma_dom_len(self.entries@);
        }
        self.entries.len()
    }

    /// Whether the clock is empty (all instances at 0).
    pub fn is_empty(&self) -> (b: bool)
        ensures
            b == (self@.dom().len() == 0),
    {
        proof {
            use_type_invariant(self);
        }
        self.len() == 0
    }

    /// The `(instance, counter)` pairs, sorted by instance.
    pub fn iter(&self) -> (v: Vec<(AgentInstanceId, u64)>)
        ensures
            v@.len() == self.sorted_entries().len(),
            forall|i: int|
                0 <= i < v@.len() ==> v@[i].0.0 == self.sorted_entries()[i].0 && v@[i].1
                    == self.sorted_entries()[i].1,
    {
        proof {
            use_type_invariant(self);
        }
        let mut v: Vec<(AgentInstanceId, u64)> = Vec::new();
        let mut i: usize = 0;
        while i < self.entries.len()
            invariant
                i <= self.entries@.len(),
                v@.len() == i,
                forall|j: int|
                    0 <= j < i ==> v@[j].0.0 == self.entries@[j].0 && v@[j].1
                        == self.entries@[j].1,
            decreases self.entries@.len() - i,
        {
            let (k, c) = self.entries[i];
            v.push((AgentInstanceId(k), c));
            i = i + 1;
        }
        v
    }
}

/// Whether instance `k` is listed among the first `i` entries of `s`.
pub open spec fn listed_before(s: Seq<(u64, u64)>, i: int, k: u64) -> bool {
    exists|j: int| 0 <= j < i && s[j].0 == k
}

/// The map after applying the first `n` `(instance, counter)` pairs in order:
/// a zero counter removes the instance, any other sets it.
pub open spec fn counts_map(pairs: Seq<(AgentInstanceId, u64)>, n: int) -> Map<u64, u64>
    decreases n,
{
    if n <= 0 {
        Map::empty()
    } else {
        let prev = counts_map(pairs, n - 1);
        let (id, c) = pairs[n - 1];
        if c == 0 {
            prev.remove(id.0)
        } else {
            prev.insert(id.0, c)
        }
    }
}

proof fn lemma_dom_len(s: Seq<(u64, u64)>)
    requires
        canonical(s),
    ensures
        entries_map(s).dom().len() == s.len(),
    decreases s.len(),
{
    lemma_entries_map_all(s);
    if s.len() == 0 {
        assert(entries_map(s).dom() =~= Set::empty());
    } else {
        let t = s.drop_last();
        assert(canonical(t));
        lemma_dom_len(t);
        lemma_dom_finite(t);
        lemma_entries_map_all(t);
        assert(entries_map(s).dom() =~= entries_map(t).dom().insert(s.last().0)) by {
            assert forall|k: u64| #[trigger] entries_map(s).dom().contains(k) implies entries_map(
                t,
            ).dom().insert(s.last().0).contains(k) by {
                let i = choose|i: int| 0 <= i < s.len() && s[i].0 == k;
                if i < s.len() - 1 {
                    assert(t[i].0 == k);
                }
            }
            assert forall|k: u64| entries_map(t).dom().insert(s.last().0).contains(k)
                implies #[trigger] entries_map(s).dom().contains(k) by {
                if k != s.last().0 {
                    let i = choose|i: int| 0 <= i < t.len() && t[i].0 == k;
                    assert(s[i].0 == k);
                } else {
                    assert(s[s.len() - 1].0 == k);
                }
            }
        }
        assert(!entries_map(t).dom().contains(s.last().0)) by {
            if entries_map(t).dom().contains(s.last().0) {
                let i = choose|i: int| 0 <= i < t.len() && t[i].0 == s.last().0;
                assert(s[i].0 < s[s.len() - 1].0);
            }
        }
    }
}

impl Clone for VectorClock {
    fn clone(&self) -> (c: VectorClock)
        ensures
            c.sorted_entries() == self.sorted_entries(),
            c@ == self@,
            c.wf() == self.wf(),
    {
        proof {
            use_type_invariant(self);
        }
        let mut entries: Vec<(u64, u64)> = Vec::new();
        let mut i: usize = 0;
        while i < self.entries.len()
            invariant
                i <= self.entries@.len(),
                entries@ == self.entries@.subrange(0, i as int),
            decreases self.entries@.len() - i,
        {
            let e = self.entries[i];
            entries.push(e);
            i = i + 1;
            assert(entries@ =~= self.entries@.subrange(0, i as int));
        }
        assert(entries@ =~= self.entries@);
        VectorClock { entries }
    }
}


/// The 8 big-endian bytes of `x`.
pub open spec fn be_bytes(x: u64) -> Seq<u8> {
    seq![
        (x >> 56u64) as u8,
        (x >> 48u64) as u8,
        (x >> 40u64) as u8,
        (x >> 32u64) as u8,
        (x >> 24u64) as u8,
        (x >> 16u64) as u8,
        (x >> 8u64) as u8,
        x as u8,
    ]
}

/// The big-endian `u64` stored in `b[off..off + 8]`.
pub open spec fn be_value(b: Seq<u8>, off: int) -> u64 {
    ((b[off] as u64) << 56u64) | ((b[off + 1] as u64) << 48u64) | ((b[off + 2] as u64) << 40u64)
        | ((b[off + 3] as u64) << 32u64) | ((b[off + 4] as u64) << 24u64) | ((b[off + 5] as u64)
        << 16u64) | ((b[off + 6] as u64) << 8u64) | (b[off + 7] as u64)
}

/// The wire form of an entry list: 16 bytes per entry, id then counter, both
/// big-endian.
pub open spec fn clock_bytes(s: Seq<(u64, u64)>) -> Seq<u8>
    decreases s.len(),
{
    if s.len() == 0 {
        Seq::empty()
    } else {
        clock_bytes(s.drop_last()) + be_bytes(s.last().0) + be_bytes(s.last().1)
    }
}

/// The map decoded from the first `n` 16-byte slots of `b`: each nonzero counter
/// sets its instance (a later slot overwrites an earlier one), zero counters are
/// skipped.
pub open spec fn decode_slots(b: Seq<u8>, n: int) -> Map<u64, u64>
    decreases n,
{
    if n <= 0 {
        Map::empty()
    } else {
        let prev = decode_slots(b, n - 1);
        let id = be_value(b, 16 * (n - 1));
        let c = be_value(b, 16 * (n - 1) + 8);
        if c == 0 {
            prev
        } else {
            prev.insert(id, c)
        }
    }
}

proof fn lemma_be_round_trip(x: u64)
    ensures
        be_value(be_bytes(x), 0) == x,
{
    let b = be_bytes(x);
    assert(b[0] == (x >> 56u64) as u8);
    assert(b[7] == x as u8);
    assert(((((x >> 56u64) as u8) as u64) << 56u64) | ((((x >> 48u64) as u8) as u64) << 48u64) | (
    (((x >> 40u64) as u8) as u64) << 40u64) | ((((x >> 32u64) as u8) as u64) << 32u64) | ((((x
        >> 24u64) as u8) as u64) << 24u64) | ((((x >> 16u64) as u8) as u64) << 16u64) | ((((x
        >> 8u64) as u8) as u64) << 8u64) | ((x as u8) as u64) == x) by (bit_vector);
}

proof fn lemma_clock_bytes_len(s: Seq<(u64, u64)>)
    ensures
        clock_bytes(s).len() == 16 * s.len(),
    decreases s.len(),
{
    if s.len() > 0 {
        lemma_clock_bytes_len(s.drop_last());
    }
}

proof fn lemma_decode_slots_prefix(b1: Seq<u8>, b2: Seq<u8>, n: int)
    requires
        0 <= n,
        16 * n <= b1.len(),
        16 * n <= b2.len(),
        forall|i: int| 0 <= i < 16 * n ==> b1[i] == b2[i],
    ensures
        decode_slots(b1, n) == decode_slots(b2, n),
    decreases n,
{
    if n > 0 {
        lemma_decode_slots_prefix(b1, b2, n - 1);
        let off = 16 * (n - 1);
        assert(be_value(b1, off) == be_value(b2, off)) by {
            assert(b1[off] == b2[off]);
            assert(b1[off + 1] == b2[off + 1]);
            assert(b1[off + 2] == b2[off + 2]);
            assert(b1[off + 3] == b2[off + 3]);
            assert(b1[off + 4] == b2[off + 4]);
            assert(b1[off + 5] == b2[off + 5]);
            assert(b1[off + 6] == b2[off + 6]);
            assert(b1[off + 7] == b2[off + 7]);
        }
        assert(be_value(b1, off + 8) == be_value(b2, off + 8)) by {
            assert(b1[off + 8] == b2[off + 8]);
            assert(b1[off + 9] == b2[off + 9]);
            assert(b1[off + 10] == b2[off + 10]);
            assert(b1[off + 11] == b2[off + 11]);
            assert(b1[off + 12] == b2[off + 12]);
            assert(b1[off + 13] == b2[off + 13]);
            assert(b1[off + 14] == b2[off + 14]);
            assert(b1[off + 15] == b2[off + 15]);
        }
    }
}

proof fn lemma_decode_clock_bytes(s: Seq<(u64, u64)>)
    requires
        canonical(s),
    ensures
        decode_slots(clock_bytes(s), s.len() as int) == entries_map(s),
    decreases s.len(),
{
    if s.len() == 0 {
        assert(entries_map(s) =~= Map::empty());
    } else {
        let t = s.drop_last();
        let (id, c) = s.last();
        assert(canonical(t));
        lemma_decode_clock_bytes(t);
        lemma_clock_bytes_len(t);
        let bt = clock_bytes(t);
        let bs = clock_bytes(s);
        let n = s.len() as int;
        assert(bs =~= bt + be_bytes(id) + be_bytes(c));
        lemma_decode_slots_prefix(bs, bt, n - 1);
        lemma_be_round_trip(id);
        lemma_be_round_trip(c);
        assert(be_value(bs, 16 * (n - 1)) == be_value(be_bytes(id), 0));
        assert(be_value(bs, 16 * (n - 1) + 8) == be_value(be_bytes(c), 0));
        lemma_entries_map_all(s);
        lemma_entries_map_all(t);
        assert(c > 0) by {
            assert(s[n - 1].1 > 0);
        }
        assert(entries_map(s) =~= entries_map(t).insert(id, c)) by {
            assert forall|k: u64| #[trigger] entries_map(s).contains_key(k) == entries_map(
                t,
            ).insert(id, c).contains_key(k) by {
                if has_key(s, k) && k != id {
                    let i = choose|i: int| 0 <= i < s.len() && s[i].0 == k;
                    assert(i != n - 1);
                    assert(t[i].0 == k);
                }
                if has_key(t, k) {
                    let i = choose|i: int| 0 <= i < t.len() && t[i].0 == k;
                    assert(s[i].0 == k);
                }
                if k == id {
                    assert(s[n - 1].0 == k);
                }
            }
            assert forall|k: u64| #[trigger] entries_map(s).contains_key(k) implies entries_map(
                s,
            )[k] == entries_map(t).insert(id, c)[k] by {
                let i = choose|i: int| 0 <= i < s.len() && s[i].0 == k;
                lemma_entries_map_at(s, i);
                if i < n - 1 {
                    lemma_entries_map_at(t, i);
                    assert(s[i].0 < s[n - 1].0);
                }
            }
        }
    }
}

/// Append the 8 big-endian bytes of `x`.
fn push_be_u64(out: &mut Vec<u8>, x: u64)
    ensures
        final(out)@ == old(out)@ + be_bytes(x),
{
    out.push((x >> 56u64) as u8);
    out.push((x >> 48u64) as u8);
    out.push((x >> 40u64) as u8);
    out.push((x >> 32u64) as u8);
    out.push((x >> 24u64) as u8);
    out.push((x >> 16u64) as u8);
    out.push((x >> 8u64) as u8);
    out.push(x as u8);
    assert(final(out)@ =~= old(out)@ + be_bytes(x));
}

/// Read the big-endian `u64` at `b[off..off + 8]`.
fn read_be_u64(b: &[u8], off: usize) -> (x: u64)
    requires
        off + 8 <= b@.len(),
    ensures
        x == be_value(b@, off as int),
{
    ((b[off] as u64) << 56u64) | ((b[off + 1] as u64) << 48u64) | ((b[off + 2] as u64) << 40u64)
        | ((b[off + 3] as u64) << 32u64) | ((b[off + 4] as u64) << 24u64) | ((b[off + 5] as u64)
        << 16u64) | ((b[off + 6] as u64) << 8u64) | (b[off + 7] as u64)
}

/// `≤` on well-formed maps is antisymmetric.
proof fn lemma_le_antisym(a: Map<u64, u64>, b: Map<u64, u64>)
    requires
        map_wf(a),
        map_wf(b),
        clock_le(a, b),
        clock_le(b, a),
    ensures
        a == b,
{
    assert forall|k: u64| #[trigger] a.contains_key(k) == b.contains_key(k) by {
        assert(count(a, k) <= count(b, k));
        assert(count(b, k) <= count(a, k));
    }
    assert forall|k: u64| a.contains_key(k) implies a[k] == b[k] by {
        assert(count(a, k) <= count(b, k));
        assert(count(b, k) <= count(a, k));
    }
    assert(a =~= b);
}

impl VectorClock {
    /// Whether `a ≤ b` componentwise.
    pub(crate) fn le_clock(a: &VectorClock, b: &VectorClock) -> (r: bool)
        requires
            a.wf(),
            b.wf(),
        ensures
            r == clock_le(a@, b@),
    {
        proof {
            lemma_entries_map_all(a.entries@);
        }
        let mut i: usize = 0;
        while i < a.entries.len()
            invariant
                i <= a.entries@.len(),
                a.wf(),
                b.wf(),
                forall|j: int| 0 <= j < i ==> a.entries@[j].1 <= count(b@, a.entries@[j].0),
            decreases a.entries@.len() - i,
        {
            let (k, c) = a.entries[i];
            let cb = b.get(AgentInstanceId(k));
            if c > cb {
                proof {
                    lemma_entries_map_at(a.entries@, i as int);
                    assert(count(a@, k) > count(b@, k));
                }
                return false;
            }
            i = i + 1;
        }
        proof {
            assert forall|k: u64| #[trigger] count(a@, k) <= count(b@, k) by {
                if a@.contains_key(k) {
                    let j = choose|j: int| 0 <= j < a.entries@.len() && a.entries@[j].0 == k;
                    lemma_entries_map_at(a.entries@, j);
                }
            }
        }
        true
    }

    /// The causal partial order: `Less` ⇒ `self → other`, `Greater` ⇒
    /// `other → self`, `Equal` ⇒ identical, `None` ⇒ concurrent.
    pub fn compare(&self, other: &VectorClock) -> (r: Option<Ordering>)
        ensures
            r == Some(Ordering::Less) <==> clock_lt(self@, other@),
            r == Some(Ordering::Greater) <==> clock_lt(other@, self@),
            r == Some(Ordering::Equal) <==> self@ == other@,
            r is None <==> clock_concurrent(self@, other@),
    {
        proof {
            use_type_invariant(self);
            use_type_invariant(other);
        }
        let self_le = Self::le_clock(self, other);
        let other_le = Self::le_clock(other, self);
        proof {
            self.lemma_wf();
            other.lemma_wf();
            if self_le && other_le {
                lemma_le_antisym(self@, other@);
            }
        }
        if self_le && other_le {
            Some(Ordering::Equal)
        } else if self_le {
            Some(Ordering::Less)
        } else if other_le {
            Some(Ordering::Greater)
        } else {
            None
        }
    }

    /// Whether `self` causally precedes `other`: `self ≤ other` componentwise and
    /// `self ≠ other`.
    pub fn happens_before(&self, other: &VectorClock) -> (r: bool)
        ensures
            r == clock_lt(self@, other@),
    {
        proof {
            use_type_invariant(self);
            use_type_invariant(other);
        }
        let c = self.compare(other);
        match c {
            Some(Ordering::Less) => true,
            _ => false,
        }
    }

    /// Whether `self` and `other` are concurrent (causally incomparable).
    pub fn concurrent_with(&self, other: &VectorClock) -> (r: bool)
        ensures
            r == clock_concurrent(self@, other@),
    {
        proof {
            use_type_invariant(self);
            use_type_invariant(other);
        }
        let c = self.compare(other);
        c.is_none()
    }

    /// Encode as a canonical, fixed-width byte string: for each instance (sorted by
    /// id) an 8-byte big-endian id followed by its 8-byte big-endian counter.
    pub fn to_bytes(&self) -> (b: Vec<u8>)
        ensures
            b@ == clock_bytes(self.sorted_entries()),
            b@.len() == BYTES_PER_SLOT * self@.dom().len(),
    {
        proof {
            use_type_invariant(self);
        }
        let mut out: Vec<u8> = Vec::new();
        let mut i: usize = 0;
        while i < self.entries.len()
            invariant
                i <= self.entries@.len(),
                out@ == clock_bytes(self.entries@.subrange(0, i as int)),
            decreases self.entries@.len() - i,
        {
            let (k, c) = self.entries[i];
            push_be_u64(&mut out, k);
            push_be_u64(&mut out, c);
            proof {
                let next = self.entries@.subrange(0, i + 1);
                assert(next.drop_last() =~= self.entries@.subrange(0, i as int));
            }
            i = i + 1;
        }
        proof {
            assert(self.entries@.subrange(0, self.entries@.len() as int) =~= self.entries@);
            lemma_clock_bytes_len(self.entries@);
            lemma_dom_len(self.entries@);
        }
        out
    }

    /// Decode the [`to_bytes`](Self::to_bytes) form. `None` if the length is not a
    /// multiple of 16. Zero counters are skipped; a later slot for the same
    /// instance overwrites an earlier one.
    pub fn from_bytes(bytes: &[u8]) -> (r: Option<VectorClock>)
        ensures
            bytes@.len() % 16 != 0 ==> r is None,
            bytes@.len() % 16 == 0 ==> (r matches Some(c) && c.wf() && c@ == decode_slots(
                bytes@,
                bytes@.len() as int / 16,
            )),
    {
        if bytes.len() % BYTES_PER_SLOT != 0 {
            return None;
        }
        let n = bytes.len() / BYTES_PER_SLOT;
        let mut c = VectorClock::new();
        let mut i: usize = 0;
        let mut off: usize = 0;
        while i < n
            invariant
                i <= n,
                off == 16 * i,
                off + 16 * (n - i) == bytes@.len(),
                bytes@.len() <= usize::MAX,
                n == bytes@.len() / 16,
                bytes@.len() % 16 == 0,
                c.wf(),
                c@ == decode_slots(bytes@, i as int),
            decreases n - i,
        {
            assert(16 * (n - i) >= 16) by (nonlinear_arith)
                requires
                    n - i >= 1,
            ;
            assert(off + 16 <= bytes@.len());
            let next_off = off + 16;
            let id = read_be_u64(bytes, off);
            let count = read_be_u64(bytes, off + 8);
            if count != 0 {
                c.set_count(id, count);
            }
            i = i + 1;
            off = next_off;
        }
        Some(c)
    }
}

impl PartialEq for VectorClock {
    fn eq(&self, other: &VectorClock) -> (r: bool) {
        if self.entries.len() != other.entries.len() {
            return false;
        }
        let mut i: usize = 0;
        while i < self.entries.len()
            invariant
                i <= self.entries@.len(),
                self.entries@.len() == other.entries@.len(),
                forall|j: int| 0 <= j < i ==> self.entries@[j] == other.entries@[j],
            decreases self.entries@.len() - i,
        {
            let (a, b) = self.entries[i];
            let (c, d) = other.entries[i];
            if a != c || b != d {
                return false;
            }
            i = i + 1;
        }
        assert(self.entries@ =~= other.entries@);
        true
    }
}

impl PartialEqSpecImpl for VectorClock {
    open spec fn obeys_eq_spec() -> bool {
        true
    }

    open spec fn eq_spec(&self, other: &VectorClock) -> bool {
        self.sorted_entries() == other.sorted_entries()
    }
}

impl Eq for VectorClock {
}

/// Equality of well-formed clocks is equality of their maps.
pub proof fn lemma_eq_is_map_eq(a: &VectorClock, b: &VectorClock)
    requires
        a.wf(),
        b.wf(),
    ensures
        a.sorted_entries() == b.sorted_entries() <==> a@ == b@,
{
    if a@ == b@ {
        a.lemma_view_determines(b);
    }
}

/// The causal order is a partial order on well-formed clocks: `≤` is reflexive,
/// antisymmetric and transitive, so happens-before is irreflexive, asymmetric and
/// transitive.
pub proof fn lemma_causal_partial_order(a: Map<u64, u64>, b: Map<u64, u64>, c: Map<u64, u64>)
    requires
        map_wf(a),
        map_wf(b),
        map_wf(c),
    ensures
        clock_le(a, a),
        clock_le(a, b) && clock_le(b, a) ==> a == b,
        clock_le(a, b) && clock_le(b, c) ==> clock_le(a, c),
        !clock_lt(a, a),
        clock_lt(a, b) ==> !clock_lt(b, a),
        clock_lt(a, b) && clock_lt(b, c) ==> clock_lt(a, c),
{
    if clock_le(a, b) && clock_le(b, a) {
        lemma_le_antisym(a, b);
    }
    if clock_le(a, b) && clock_le(b, c) {
        assert forall|k: u64| #[trigger] count(a, k) <= count(c, k) by {
            assert(count(a, k) <= count(b, k));
            assert(count(b, k) <= count(c, k));
        }
    }
    if clock_lt(a, b) && clock_lt(b, c) {
        assert forall|k: u64| #[trigger] count(a, k) <= count(c, k) by {
            assert(count(a, k) <= count(b, k));
            assert(count(b, k) <= count(c, k));
        }
        if a == c {
            lemma_le_antisym(a, b);
        }
    }
}

/// Any two well-formed clocks are related in exactly one way: one precedes the
/// other, they are equal, or they are concurrent (and concurrency is symmetric).
pub proof fn lemma_exactly_one_relation(a: Map<u64, u64>, b: Map<u64, u64>)
    requires
        map_wf(a),
        map_wf(b),
    ensures
        (clock_lt(a, b) as int) + (clock_lt(b, a) as int) + ((a == b) as int) + (
        clock_concurrent(a, b) as int) == 1,
        clock_concurrent(a, b) == clock_concurrent(b, a),
{
    lemma_causal_partial_order(a, b, a);
    if a == b {
        assert(clock_le(a, b));
    }
}

/// The join is commutative and is the least upper bound of its operands.
pub proof fn lemma_join_is_lub(a: Map<u64, u64>, b: Map<u64, u64>, c: Map<u64, u64>)
    requires
        map_wf(a),
        map_wf(b),
    ensures
        map_wf(clock_join(a, b)),
        clock_join(a, b) == clock_join(b, a),
        clock_le(a, clock_join(a, b)),
        clock_le(b, clock_join(a, b)),
        clock_le(a, c) && clock_le(b, c) ==> clock_le(clock_join(a, b), c),
{
    let j = clock_join(a, b);
    assert(j.dom() =~= a.dom().union(b.dom()));
    assert(clock_join(a, b) =~= clock_join(b, a));
    assert forall|k: u64| #[trigger] count(j, k) == if count(a, k) >= count(b, k) {
        count(a, k)
    } else {
        count(b, k)
    } by {}
    assert forall|k: u64| #[trigger] count(a, k) <= count(j, k) by {
        assert(count(j, k) >= count(a, k));
    }
    assert forall|k: u64| #[trigger] count(b, k) <= count(j, k) by {
        assert(count(j, k) >= count(b, k));
    }
    if clock_le(a, c) && clock_le(b, c) {
        assert forall|k: u64| #[trigger] count(j, k) <= count(c, k) by {
            assert(count(a, k) <= count(c, k));
            assert(count(b, k) <= count(c, k));
        }
    }
}

/// An instance's own event strictly advances the clock causally.
pub proof fn lemma_increment_advances(a: Map<u64, u64>, id: u64)
    requires
        map_wf(a),
        count(a, id) < u64::MAX,
    ensures
        map_wf(a.insert(id, (count(a, id) + 1) as u64)),
        clock_lt(a, a.insert(id, (count(a, id) + 1) as u64)),
{
    let b = a.insert(id, (count(a, id) + 1) as u64);
    assert forall|k: u64| #[trigger] count(a, k) <= count(b, k) by {}
    assert(count(b, id) != count(a, id));
}

/// The wire form round-trips and takes exactly 16 bytes per tracked instance.
pub proof fn lemma_bytes_round_trip(c: &VectorClock)
    requires
        c.wf(),
    ensures
        clock_bytes(c.sorted_entries()).len() == BYTES_PER_SLOT * c@.dom().len(),
        clock_bytes(c.sorted_entries()).len() % 16 == 0,
        decode_slots(clock_bytes(c.sorted_entries()), c@.dom().len() as int) == c@,
{
    c.lemma_wf();
    lemma_clock_bytes_len(c.sorted_entries());
    lemma_decode_clock_bytes(c.sorted_entries());
}


/// Each sorted entry is in the map it lists.
pub proof fn lemma_sorted_entry_in_map(s: Seq<(u64, u64)>, i: int)
    requires
        canonical(s),
        0 <= i < s.len(),
    ensures
        entries_map(s).contains_key(s[i].0),
        entries_map(s)[s[i].0] == s[i].1,
        count(entries_map(s), s[i].0) == s[i].1,
{
    lemma_entries_map_at(s, i);
}

} // verus!
