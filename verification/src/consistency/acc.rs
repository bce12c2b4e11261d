//! Agent causal consistency (ACC) enforcement.
//!
//! A [`CausalMemory`] is an append-only log of writes; each agent instance holds a
//! [`Session`] that delivers writes **in causal order** using vector clocks — no
//! consensus, no total order, no global coordinator on the read/write path:
//!
//! 1. **Prefix closure** — a session only sees a causally-closed set of writes.
//! 2. **Read-your-writes** — a session always sees its own prior writes.
//! 3. **Monotonic sessions** — visibility only grows.
//! 4. **Causal memory** — a write's causal dependencies are delivered before it.
//!
//! Each write carries exactly one [`VectorClock`]: the writer's clock right after
//! its own tick. Its dependencies are the clock minus that tick, so nothing extra is
//! stored. A session is used with the memory that issued it; the memory remembers
//! which instances have a session, since each instance (a clock slot) has a single
//! writer.

use vstd::prelude::*;

use crate::base::ids::AgentInstanceId;
use crate::consistency::frontier::{
    find_key, find_last_read, fr_inv, is_latest, is_max, lemma_fr_empty, lemma_fr_extend,
    lemma_lr_extend, lemma_rank_lt_transitive, lr_entry_ok, lr_inv, passes, rank_lt, record, seen,
    KeyFrontier, LastRead,
};
use crate::consistency::vector_clock::{
    clock_bytes, clock_join, clock_le, clock_lt, count, lemma_bytes_round_trip, map_wf, VectorClock,
};

verus! {

/// A single write in the causal memory.
#[derive(Debug)]
pub struct WriteOp {
    /// Global append sequence (delivery-independent identity).
    pub id: u64,
    /// The instance that issued the write.
    pub instance: AgentInstanceId,
    /// Application key.
    pub key: Vec<u8>,
    /// Application value.
    pub value: Vec<u8>,
    /// The writer's vector clock after this write.
    pub clock: VectorClock,
}

/// Two write descriptions agree field by field.
pub open spec fn same_op(a: WriteOp, b: WriteOp) -> bool {
    &&& a.id == b.id
    &&& a.instance == b.instance
    &&& a.key@ == b.key@
    &&& a.value@ == b.value@
    &&& a.clock@ == b.clock@
    &&& a.clock.wf() == b.clock.wf()
}

/// Copy a byte vector.
pub fn copy_bytes(b: &[u8]) -> (r: Vec<u8>)
    ensures
        r@ == b@,
{
    let mut r: Vec<u8> = Vec::new();
    let mut i: usize = 0;
    while i < b.len()
        invariant
            i <= b@.len(),
            r@ == b@.subrange(0, i as int),
        decreases b@.len() - i,
    {
        r.push(b[i]);
        i = i + 1;
        assert(r@ =~= b@.subrange(0, i as int));
    }
    assert(b@.subrange(0, b@.len() as int) =~= b@);
    r
}

/// Whether two byte strings are equal.
pub fn bytes_eq(a: &[u8], b: &[u8]) -> (r: bool)
    ensures
        r == (a@ == b@),
{
    if a.len() != b.len() {
        return false;
    }
    let mut i: usize = 0;
    while i < a.len()
        invariant
            i <= a@.len(),
            a@.len() == b@.len(),
            forall|j: int| 0 <= j < i ==> a@[j] == b@[j],
        decreases a@.len() - i,
    {
        if a[i] != b[i] {
            return false;
        }
        i = i + 1;
    }
    assert(a@ =~= b@);
    true
}

/// Lexicographic `a < b` on byte strings (a proper prefix is smaller).
pub open spec fn bytes_lt(a: Seq<u8>, b: Seq<u8>) -> bool
    decreases a.len(),
{
    if a.len() == 0 || b.len() == 0 {
        a.len() == 0 && b.len() > 0
    } else if a[0] != b[0] {
        a[0] < b[0]
    } else {
        bytes_lt(a.drop_first(), b.drop_first())
    }
}

/// The lexicographic order on byte strings is transitive.
pub proof fn lemma_bytes_lt_transitive(a: Seq<u8>, b: Seq<u8>, c: Seq<u8>)
    requires
        bytes_lt(a, b),
        bytes_lt(b, c),
    ensures
        bytes_lt(a, c),
    decreases a.len(),
{
    if a.len() > 0 && a[0] == b[0] && b[0] == c[0] {
        lemma_bytes_lt_transitive(a.drop_first(), b.drop_first(), c.drop_first());
    }
}

/// No byte string is below itself.
pub proof fn lemma_bytes_lt_irreflexive(a: Seq<u8>)
    ensures
        !bytes_lt(a, a),
    decreases a.len(),
{
    if a.len() > 0 {
        lemma_bytes_lt_irreflexive(a.drop_first());
    }
}

/// Lexicographic comparison of two byte strings.
pub fn bytes_less(a: &[u8], b: &[u8]) -> (r: bool)
    ensures
        r == bytes_lt(a@, b@),
{
    let mut i: usize = 0;
    proof {
        assert(a@.skip(0) =~= a@);
        assert(b@.skip(0) =~= b@);
    }
    while i < a.len() && i < b.len()
        invariant
            i <= a@.len(),
            i <= b@.len(),
            bytes_lt(a@, b@) == bytes_lt(a@.skip(i as int), b@.skip(i as int)),
        decreases a@.len() - i,
    {
        proof {
            assert(a@.skip(i as int)[0] == a@[i as int]);
            assert(b@.skip(i as int)[0] == b@[i as int]);
        }
        if a[i] != b[i] {
            return a[i] < b[i];
        }
        proof {
            assert(a@.skip(i as int).drop_first() =~= a@.skip(i + 1));
            assert(b@.skip(i as int).drop_first() =~= b@.skip(i + 1));
        }
        i = i + 1;
    }
    i == a.len() && i < b.len()
}

impl WriteOp {
    /// Bytes of ACC metadata this op carries beyond its key/value: one vector clock
    /// at 16 bytes per instance slot.
    pub fn metadata_bytes(&self) -> (n: usize)
        requires
            self.clock.wf(),
        ensures
            n == 16 * self.clock@.dom().len(),
    {
        self.clock.to_bytes().len()
    }

    /// A field-by-field copy.
    pub fn duplicate(&self) -> (r: WriteOp)
        ensures
            same_op(r, *self),
    {
        WriteOp {
            id: self.id,
            instance: self.instance,
            key: copy_bytes(self.key.as_slice()),
            value: copy_bytes(self.value.as_slice()),
            clock: self.clock.clone(),
        }
    }
}

/// The number of writes by instance `a` among the first `i` writes of `log`.
pub open spec fn n_by(log: Seq<WriteOp>, a: u64, i: int) -> nat
    decreases i,
{
    if i <= 0 {
        0
    } else {
        n_by(log, a, i - 1) + if log[i - 1].instance.0 == a {
            1nat
        } else {
            0nat
        }
    }
}

/// When an instance has writes among the first `n`, the last of them is its
/// `n_by`-th.
proof fn lemma_last_write(log: Seq<WriteOp>, b: u64, n: int)
    requires
        log_wf(log),
        0 <= n <= log.len(),
        n_by(log, b, n) > 0,
    ensures
        exists|i: int| 0 <= i < n && log[i].instance.0 == b && ordinal(log[i]) == n_by(log, b, n),
    decreases n,
{
    if log[n - 1].instance.0 == b {
        assert(ordinal(log[n - 1]) == n_by(log, b, n - 1) + 1);
    } else {
        lemma_last_write(log, b, n - 1);
    }
}

/// A write's own counter: its position among its instance's writes (1-based).
pub open spec fn ordinal(op: WriteOp) -> nat {
    count(op.clock@, op.instance.0)
}

/// The log is well formed: write `i` has id `i`, its own counter is its ordinal
/// among its instance's writes, and every other counter only names writes already
/// in the log before it.
pub open spec fn log_wf(log: Seq<WriteOp>) -> bool {
    &&& log.len() < u64::MAX
    &&& forall|i: int| 0 <= i < log.len() ==> #[trigger] log[i].id == i && log[i].clock.wf()
    &&& forall|i: int|
        0 <= i < log.len() ==> ordinal(#[trigger] log[i]) == n_by(log, log[i].instance.0, i) + 1
    &&& forall|i: int, b: u64|
        0 <= i < log.len() && b != log[i].instance.0 ==> #[trigger] count(log[i].clock@, b) <= n_by(
            log,
            b,
            i,
        )
}

proof fn lemma_n_by_mono(log: Seq<WriteOp>, a: u64, i: int, j: int)
    requires
        i <= j,
    ensures
        n_by(log, a, i) <= n_by(log, a, j),
    decreases j - i,
{
    if i < j {
        lemma_n_by_mono(log, a, i, j - 1);
    }
}

/// Two different writes of a well-formed log have different clocks: some
/// instance's counter tells them apart.
proof fn lemma_distinct_clocks(log: Seq<WriteOp>, i: int, j: int)
    requires
        log_wf(log),
        0 <= i < log.len(),
        0 <= j < log.len(),
        i != j,
    ensures
        exists|k: u64| count(log[i].clock@, k) != count(log[j].clock@, k),
{
    let a = log[i].instance.0;
    let b = log[j].instance.0;
    assert(ordinal(log[i]) == n_by(log, a, i) + 1);
    assert(ordinal(log[j]) == n_by(log, b, j) + 1);
    if a == b {
        if i < j {
            lemma_n_by_mono(log, a, i + 1, j);
            assert(n_by(log, a, i + 1) == n_by(log, a, i) + 1);
        } else {
            lemma_n_by_mono(log, a, j + 1, i);
            assert(n_by(log, a, j + 1) == n_by(log, a, j) + 1);
        }
        assert(count(log[i].clock@, a) != count(log[j].clock@, a));
    } else {
        assert(count(log[j].clock@, a) <= n_by(log, a, j));
        assert(count(log[i].clock@, b) <= n_by(log, b, i));
        if i < j {
            lemma_n_by_mono(log, b, i, j);
            assert(count(log[i].clock@, b) != count(log[j].clock@, b));
        } else {
            lemma_n_by_mono(log, a, j, i);
            assert(count(log[i].clock@, a) != count(log[j].clock@, a));
        }
    }
}

proof fn lemma_n_by_bound(log: Seq<WriteOp>, a: u64, i: int)
    requires
        i >= 0,
    ensures
        n_by(log, a, i) <= i,
    decreases i,
{
    if i > 0 {
        lemma_n_by_bound(log, a, i - 1);
    }
}

proof fn lemma_n_by_prefix(log: Seq<WriteOp>, log2: Seq<WriteOp>, a: u64, i: int)
    requires
        0 <= i <= log.len(),
        i <= log2.len(),
        forall|k: int| 0 <= k < i ==> log[k].instance == log2[k].instance,
    ensures
        n_by(log, a, i) == n_by(log2, a, i),
    decreases i,
{
    if i > 0 {
        lemma_n_by_prefix(log, log2, a, i - 1);
    }
}

/// In a well-formed log, for every `1 <= m <= n_by(a, i)` some write before `i` by
/// `a` has ordinal `m`.
proof fn lemma_nth_write_exists(log: Seq<WriteOp>, a: u64, i: int, m: nat)
    requires
        log_wf(log),
        0 <= i <= log.len(),
        1 <= m <= n_by(log, a, i),
    ensures
        exists|k: int| 0 <= k < i && log[k].instance.0 == a && ordinal(#[trigger] log[k]) == m,
    decreases i,
{
    if m <= n_by(log, a, i - 1) {
        lemma_nth_write_exists(log, a, i - 1, m);
        let k = choose|k: int| 0 <= k < i - 1 && log[k].instance.0 == a && ordinal(log[k]) == m;
        assert(0 <= k < i && log[k].instance.0 == a && ordinal(log[k]) == m);
    } else {
        assert(log[i - 1].instance.0 == a);
        assert(ordinal(log[i - 1]) == n_by(log, a, i - 1) + 1);
    }
}

/// Ordinals of one instance's writes strictly increase along the log.
proof fn lemma_ordinal_increases(log: Seq<WriteOp>, j: int, k: int)
    requires
        log_wf(log),
        0 <= j < k < log.len(),
        log[j].instance == log[k].instance,
    ensures
        ordinal(log[j]) < ordinal(log[k]),
{
    let a = log[j].instance.0;
    lemma_n_by_mono(log, a, j + 1, k);
    assert(ordinal(log[j]) == n_by(log, a, j) + 1);
    assert(ordinal(log[k]) == n_by(log, a, k) + 1);
}

/// A shared, append-only causal memory.
///
/// Visibility is decided locally by each session from vector clocks; the memory
/// itself is only the union of all writes (plus the set of instances that hold a
/// session).
#[derive(Debug)]
pub struct CausalMemory {
    log: Vec<WriteOp>,
    issued: Vec<u64>,
}

impl CausalMemory {
    /// The writes appended so far, in append order.
    pub closed spec fn log(&self) -> Seq<WriteOp> {
        self.log@
    }

    /// The instances that hold a session.
    pub closed spec fn issued(&self) -> Seq<u64> {
        self.issued@
    }

    /// The memory's invariant: a well-formed log whose writers all hold sessions.
    pub open spec fn wf(&self) -> bool {
        &&& log_wf(self.log())
        &&& forall|i: int| 0 <= i < self.log().len() ==> self.issued().contains(#[trigger] self.log()[i].instance.0)
    }

    /// Create an empty causal memory.
    pub fn new() -> (m: CausalMemory)
        ensures
            m.wf(),
            m.log() == Seq::<WriteOp>::empty(),
            m.issued() == Seq::<u64>::empty(),
    {
        CausalMemory { log: Vec::new(), issued: Vec::new() }
    }

    /// Whether `instance` already holds a session on this memory.
    pub fn has_session(&self, instance: AgentInstanceId) -> (b: bool)
        ensures
            b == self.issued().contains(instance.0),
    {
        let mut i: usize = 0;
        while i < self.issued.len()
            invariant
                i <= self.issued@.len(),
                forall|j: int| 0 <= j < i ==> self.issued@[j] != instance.0,
            decreases self.issued@.len() - i,
        {
            if self.issued[i] == instance.0 {
                return true;
            }
            i = i + 1;
        }
        false
    }

    /// A copy of the whole log (a global oracle of every write).
    pub fn ops(&self) -> (v: Vec<WriteOp>)
        ensures
            v@.len() == self.log().len(),
            forall|i: int| 0 <= i < v@.len() ==> same_op(#[trigger] v@[i], self.log()[i]),
    {
        let mut v: Vec<WriteOp> = Vec::new();
        let mut i: usize = 0;
        while i < self.log.len()
            invariant
                i <= self.log@.len(),
                v@.len() == i,
                forall|j: int| 0 <= j < i ==> same_op(#[trigger] v@[j], self.log@[j]),
            decreases self.log@.len() - i,
        {
            v.push(self.log[i].duplicate());
            i = i + 1;
        }
        v
    }

    /// Number of writes appended.
    pub fn len(&self) -> (n: usize)
        ensures
            n == self.log().len(),
    {
        self.log.len()
    }

    /// Whether the memory is empty.
    pub fn is_empty(&self) -> (b: bool)
        ensures
            b == (self.log().len() == 0),
    {
        self.log.len() == 0
    }
}

/// The number of `true` entries in `s`.
pub open spec fn count_true(s: Seq<bool>) -> nat
    decreases s.len(),
{
    if s.len() == 0 {
        0
    } else {
        count_true(s.drop_last()) + if s.last() {
            1nat
        } else {
            0nat
        }
    }
}

proof fn lemma_count_true_push(s: Seq<bool>, b: bool)
    ensures
        count_true(s.push(b)) == count_true(s) + if b {
            1nat
        } else {
            0nat
        },
{
    assert(s.push(b).drop_last() =~= s);
}

proof fn lemma_count_true_set(s: Seq<bool>, i: int)
    requires
        0 <= i < s.len(),
        !s[i],
    ensures
        count_true(s.update(i, true)) == count_true(s) + 1,
    decreases s.len(),
{
    let t = s.update(i, true);
    if i == s.len() - 1 {
        assert(t.drop_last() =~= s.drop_last());
    } else {
        lemma_count_true_set(s.drop_last(), i);
        assert(t.drop_last() =~= s.drop_last().update(i, true));
    }
}

proof fn lemma_count_true_bound(s: Seq<bool>)
    ensures
        count_true(s) <= s.len(),
    decreases s.len(),
{
    if s.len() > 0 {
        lemma_count_true_bound(s.drop_last());
    }
}


/// Whether `op` can be delivered to a session at clock `vc`: it is the next write of
/// its instance and all its other dependencies are already covered.
pub open spec fn deliverable(op: WriteOp, vc: Map<u64, u64>) -> bool {
    &&& ordinal(op) == count(vc, op.instance.0) + 1
    &&& forall|b: u64| b != op.instance.0 ==> #[trigger] count(op.clock@, b) <= count(vc, b)
}

/// The delivery invariant of a session of instance `a` with clock `vc` and delivered
/// flags `del` over `log`.
pub open spec fn delivery_inv(a: u64, vc: Map<u64, u64>, del: Seq<bool>, log: Seq<WriteOp>) -> bool {
    &&& map_wf(vc)
    &&& del.len() <= log.len()
    &&& forall|i: int|
        0 <= i < del.len() ==> (#[trigger] del[i] <==> ordinal(log[i]) <= count(vc, log[i].instance.0))
    &&& forall|i: int| 0 <= i < del.len() && #[trigger] del[i] ==> clock_le(log[i].clock@, vc)
    &&& forall|b: u64| #[trigger] count(vc, b) <= n_by(log, b, del.len() as int)
    &&& forall|i: int|
        0 <= i < log.len() && #[trigger] log[i].instance.0 == a ==> i < del.len() && del[i]
}

/// Every seen but undelivered write is queued, and the queue only names seen writes.
pub open spec fn queue_inv(del: Seq<bool>, und: Seq<usize>) -> bool {
    &&& forall|j: int| 0 <= j < und.len() ==> #[trigger] und[j] < del.len()
    &&& forall|i: int| 0 <= i < del.len() && !#[trigger] del[i] ==> und.contains(i as usize)
}

proof fn lemma_first_undelivered(del: Seq<bool>, n: int)
    requires
        0 <= n <= del.len(),
        exists|i: int| 0 <= i < n && !del[i],
    ensures
        exists|i0: int| 0 <= i0 < n && !del[i0] && forall|j: int| 0 <= j < i0 ==> del[j],
    decreases n,
{
    if exists|i: int| 0 <= i < n - 1 && !del[i] {
        lemma_first_undelivered(del, n - 1);
        let i0 = choose|i0: int| 0 <= i0 < n - 1 && !del[i0] && forall|j: int| 0 <= j < i0 ==> del[j];
        assert(0 <= i0 < n && !del[i0] && forall|j: int| 0 <= j < i0 ==> del[j]);
    } else {
        assert(!del[n - 1]);
        assert(forall|j: int| 0 <= j < n - 1 ==> del[j]);
    }
}

/// If nothing undelivered is deliverable, everything is delivered: a session that
/// has seen the whole log and delivered all it could has delivered all of it.
proof fn lemma_stuck_means_complete(a: u64, vc: Map<u64, u64>, del: Seq<bool>, log: Seq<WriteOp>)
    requires
        log_wf(log),
        delivery_inv(a, vc, del, log),
        del.len() == log.len(),
        forall|i: int| 0 <= i < log.len() && !del[i] ==> !deliverable(#[trigger] log[i], vc),
    ensures
        forall|i: int| 0 <= i < log.len() ==> #[trigger] del[i],
{
    if exists|i: int| 0 <= i < log.len() && !del[i] {
        lemma_first_undelivered(del, log.len() as int);
        let i0 = choose|i0: int|
            0 <= i0 < log.len() && !del[i0] && forall|j: int| 0 <= j < i0 ==> del[j];
        let op = log[i0];
        let c = op.instance.0;
        assert(ordinal(op) == n_by(log, c, i0) + 1);
        assert(!(ordinal(op) <= count(vc, c)));
        if n_by(log, c, i0) > 0 {
            lemma_nth_write_exists(log, c, i0, n_by(log, c, i0));
            let k = choose|k: int|
                0 <= k < i0 && log[k].instance.0 == c && ordinal(log[k]) == n_by(log, c, i0);
            assert(del[k]);
        }
        assert forall|b: u64| b != c implies #[trigger] count(op.clock@, b) <= count(vc, b) by {
            let m = count(op.clock@, b);
            if m > 0 {
                assert(m <= n_by(log, b, i0));
                lemma_nth_write_exists(log, b, i0, m);
                let k = choose|k: int| 0 <= k < i0 && log[k].instance.0 == b && ordinal(log[k]) == m;
                assert(del[k]);
            }
        }
        assert(deliverable(op, vc));
        assert(false);
    }
}

/// One agent instance's causally-consistent view of a [`CausalMemory`].
#[derive(Debug)]
pub struct Session {
    instance: AgentInstanceId,
    vc: VectorClock,
    delivered: Vec<bool>,
    n_delivered: usize,
    /// Writes seen in the log but not yet causally deliverable.
    undelivered: Vec<usize>,
    /// Per key, only the causally-maximal delivered writes (the live frontier).
    by_key: Vec<KeyFrontier>,
    /// Per key, the clock of the last value returned by `read_latest`, so it can
    /// never regress to a concurrent sibling.
    last_read: Vec<LastRead>,
}

impl Session {
    /// The session's instance id.
    pub closed spec fn instance_id(&self) -> u64 {
        self.instance.0
    }

    /// The session's current causal frontier.
    pub closed spec fn clock_map(&self) -> Map<u64, u64> {
        self.vc@
    }

    /// Whether write `i` has been delivered to this session.
    pub closed spec fn delivered_at(&self, i: int) -> bool {
        0 <= i < self.delivered@.len() && self.delivered@[i]
    }

    /// The number of delivered writes.
    pub closed spec fn n_delivered(&self) -> nat {
        self.n_delivered as nat
    }

    /// The frontier of `key`: the log positions of the causally-maximal delivered
    /// writes to it, in the order they are kept.
    pub closed spec fn frontier(&self, key: Seq<u8>) -> Seq<usize> {
        if exists|j: int| 0 <= j < self.by_key@.len() && #[trigger] self.by_key@[j].key@ == key {
            self.by_key@[choose|j: int|
                0 <= j < self.by_key@.len() && #[trigger] self.by_key@[j].key@ == key].ids@
        } else {
            Seq::empty()
        }
    }

    /// The clock of the value `read_latest` last returned for `key`, if any.
    pub closed spec fn last_read(&self, key: Seq<u8>) -> Option<Map<u64, u64>> {
        last_read_of(self.last_read@, key)
    }

    /// Write `i` is a delivered write to `key` that no delivered write to `key`
    /// causally follows.
    pub open spec fn maximal(&self, mem: &CausalMemory, key: Seq<u8>, i: int) -> bool {
        &&& self.delivered_at(i)
        &&& mem.log()[i].key@ == key
        &&& forall|j: int|
            #![trigger self.delivered_at(j), mem.log()[j]]
            self.delivered_at(j) && mem.log()[j].key@ == key ==> !clock_lt(
                mem.log()[i].clock@,
                mem.log()[j].clock@,
            )
    }

    /// The session's invariant relative to the memory that issued it.
    pub closed spec fn inv(&self, mem: &CausalMemory) -> bool {
        &&& mem.wf()
        &&& mem.issued().contains(self.instance.0)
        &&& self.vc.wf()
        &&& delivery_inv(self.instance.0, self.vc@, self.delivered@, mem.log())
        &&& queue_inv(self.delivered@, self.undelivered@)
        &&& self.n_delivered == count_true(self.delivered@)
        &&& fr_inv(mem.log(), self.delivered@, self.by_key@)
        &&& lr_inv(mem.log(), self.delivered@, self.last_read@)
    }

    /// The instance this session belongs to.
    pub fn instance(&self) -> (i: AgentInstanceId)
        ensures
            i.0 == self.instance_id(),
    {
        self.instance
    }

    /// This session's current causal frontier.
    pub fn clock(&self) -> (c: &VectorClock)
        ensures
            c@ == self.clock_map(),
    {
        &self.vc
    }

    /// Whether the write with global id `op_id` has been delivered here.
    pub fn is_delivered(&self, op_id: u64) -> (b: bool)
        ensures
            b == self.delivered_at(op_id as int),
    {
        if (op_id as usize) < self.delivered.len() && op_id <= usize::MAX as u64 {
            self.delivered[op_id as usize]
        } else {
            false
        }
    }

    /// How many writes this session has delivered.
    pub fn delivered_count(&self) -> (n: usize)
        ensures
            n == self.n_delivered(),
    {
        self.n_delivered
    }

    /// Under the invariant, the frontier of a key lists, without repeats, exactly
    /// the causally-maximal delivered writes to it.
    pub proof fn lemma_frontier_exact(&self, mem: &CausalMemory, key: Seq<u8>)
        requires
            self.inv(mem),
        ensures
            self.frontier(key).no_duplicates(),
            forall|x: usize| #[trigger]
                self.frontier(key).contains(x) <==> self.maximal(mem, key, x as int),
            forall|t: int|
                0 <= t < self.frontier(key).len() ==> #[trigger] self.frontier(key)[t]
                    < mem.log().len(),
    {
        let log = mem.log();
        let del = self.delivered@;
        let fr = self.by_key@;
        assert forall|i: int| #[trigger] seen(del, i) == self.delivered_at(i) by {}
        assert forall|x: usize| is_max(log, del, key, x as int) == self.maximal(mem, key, x as int) by {
            if is_max(log, del, key, x as int) {
                assert forall|j: int|
                    #![trigger self.delivered_at(j), mem.log()[j]]
                    self.delivered_at(j) && mem.log()[j].key@ == key implies !clock_lt(
                    mem.log()[x as int].clock@,
                    mem.log()[j].clock@,
                ) by {
                    assert(seen(del, j));
                }
            }
            if self.maximal(mem, key, x as int) {
                assert forall|j: int|
                    #![trigger seen(del, j), log[j]]
                    seen(del, j) && log[j].key@ == key implies !clock_lt(
                    log[x as int].clock@,
                    log[j].clock@,
                ) by {
                    assert(self.delivered_at(j));
                }
            }
        }
        if exists|j: int| 0 <= j < fr.len() && #[trigger] fr[j].key@ == key {
            let j = choose|j: int| 0 <= j < fr.len() && #[trigger] fr[j].key@ == key;
            assert(self.frontier(key) == fr[j].ids@);
            assert(fr[j].ids@.no_duplicates());
            assert forall|x: usize| #[trigger] fr[j].ids@.contains(x) <==> self.maximal(
                mem,
                key,
                x as int,
            ) by {
                assert(fr[j].ids@.contains(x) <==> is_max(log, del, fr[j].key@, x as int));
            }
            assert forall|t: int| 0 <= t < fr[j].ids@.len() implies #[trigger] fr[j].ids@[t]
                < mem.log().len() by {
                assert(fr[j].ids@[t] < del.len());
            }
        } else {
            assert forall|x: usize| #[trigger] self.frontier(key).contains(x) <==> self.maximal(
                mem,
                key,
                x as int,
            ) by {
                if self.maximal(mem, key, x as int) {
                    assert(seen(del, x as int));
                    let j = choose|j: int| 0 <= j < fr.len() && #[trigger] fr[j].key@ == log[x as int].key@;
                    assert(fr[j].key@ == key);
                }
            }
        }
    }

    /// A single deterministic value for `key`, chosen from its frontier by a fixed
    /// total-order tiebreak (clock bytes, then instance). `None` when nothing was
    /// delivered for `key`.
    ///
    /// Monotonic: once a value has been returned, a later call only returns that
    /// write or a causally later one, never a concurrent sibling.
    pub fn read_latest(&mut self, mem: &CausalMemory, key: &[u8]) -> (r: Option<Vec<u8>>)
        requires
            old(self).inv(mem),
        ensures
            final(self).inv(mem),
            final(self).instance_id() == old(self).instance_id(),
            final(self).clock_map() == old(self).clock_map(),
            forall|i: int| final(self).delivered_at(i) == old(self).delivered_at(i),
            final(self).n_delivered() == old(self).n_delivered(),
            forall|k: Seq<u8>| final(self).frontier(k) == old(self).frontier(k),
            forall|k: Seq<u8>| k != key@ ==> final(self).last_read(k) == old(self).last_read(k),
            r is None <==> old(self).frontier(key@).len() == 0,
            match r {
                None => final(self).last_read(key@) == old(self).last_read(key@),
                Some(v) => exists|w: usize|
                    #[trigger] is_latest(
                        mem.log(),
                        old(self).frontier(key@),
                        old(self).last_read(key@),
                        w,
                    ) && v@ == mem.log()[w as int].value@ && final(self).last_read(key@) == Some(
                        mem.log()[w as int].clock@,
                    ),
            },
    {
        proof {
            self.lemma_frontier_exact(mem, key@);
        }
        let j = match find_key(&self.by_key, key) {
            None => {
                assert(self.frontier(key@) =~= Seq::<usize>::empty());
                return None;
            },
            Some(j) => j,
        };
        let prev = find_last_read(&self.last_read, key);
        let ghost prevm = self.last_read(key@);
        proof {
            self.lemma_lookup(mem, key@, j, prev);
        }
        let best = match prev {
            None => pick_latest(&self.by_key[j].ids, &mem.log, None),
            Some(pi) => pick_latest(&self.by_key[j].ids, &mem.log, Some(&self.last_read[pi].clock)),
        };
        match best {
            None => {
                proof {
                    let ids = self.by_key@[j as int].ids@;
                    if ids.len() > 0 {
                        match prev {
                            None => {
                                assert(ids.contains(ids[0]));
                            },
                            Some(pi) => {
                                let f = choose|f: usize|
                                    #[trigger] ids.contains(f) && passes(
                                        self.last_read(key@),
                                        mem.log()[f as int].clock@,
                                    );
                            },
                        }
                    }
                }
                None
            },
            Some(b) => {
                let value = copy_bytes(mem.log[b].value.as_slice());
                let ghost lr0 = self.last_read@;
                proof {
                    self.lemma_pick_is_delivered(mem, key@, j, b);
                }
                set_last_read(&mut self.last_read, key, &mem.log[b].clock, prev);
                proof {
                    let lr1 = self.last_read@;
                    assert forall|tt: int| 0 <= tt < lr1.len() implies lr_entry_ok(
                        mem.log(),
                        self.delivered@,
                        #[trigger] lr1[tt],
                    ) by {
                        if tt < lr0.len() && lr1[tt] == lr0[tt] {
                            assert(lr_entry_ok(mem.log(), self.delivered@, lr0[tt]));
                        }
                    }
                }
                Some(value)
            },
        }
    }

    /// The entry found for `key` is its frontier, and the last-read entry found
    /// for it holds the clock of a delivered write that some frontier write
    /// equals or follows.
    proof fn lemma_lookup(&self, mem: &CausalMemory, key: Seq<u8>, j: usize, prev: Option<usize>)
        requires
            self.inv(mem),
            j < self.by_key@.len(),
            self.by_key@[j as int].key@ == key,
            match prev {
                Some(pi) => pi < self.last_read@.len() && self.last_read@[pi as int].key@ == key,
                None => forall|t: int|
                    0 <= t < self.last_read@.len() ==> self.last_read@[t].key@ != key,
            },
        ensures
            self.frontier(key) == self.by_key@[j as int].ids@,
            forall|s: int|
                0 <= s < self.by_key@[j as int].ids@.len() ==> #[trigger] self.by_key@[j as int].ids@[s]
                    < mem.log().len(),
            log_wf(mem.log()),
            match prev {
                Some(pi) => {
                    &&& self.last_read(key) == Some(self.last_read@[pi as int].clock@)
                    &&& self.last_read@[pi as int].clock.wf()
                    &&& self.by_key@[j as int].ids@.len() > 0 ==> exists|f: usize|
                        #[trigger] self.by_key@[j as int].ids@.contains(f) && passes(
                            self.last_read(key),
                            mem.log()[f as int].clock@,
                        )
                },
                None => self.last_read(key) is None,
            },
    {
        let fr = self.by_key@;
        let lr = self.last_read@;
        let log = mem.log();
        self.lemma_frontier_exact(mem, key);
        let jj = choose|jj: int| 0 <= jj < fr.len() && #[trigger] fr[jj].key@ == key;
        if jj != j as int {
            assert(fr[jj].key@ != fr[j as int].key@);
        }
        match prev {
            Some(pi) => {
                let tt = choose|tt: int| 0 <= tt < lr.len() && #[trigger] lr[tt].key@ == key;
                if tt != pi as int {
                    assert(lr[tt].key@ != lr[pi as int].key@);
                }
                let e = lr[pi as int];
                assert(lr_entry_ok(log, self.delivered@, e));
                let i = choose|i: int|
                    #[trigger] seen(self.delivered@, i) && log[i].key@ == e.key@ && log[i].clock@
                        == e.clock@;
                let f = choose|f: usize|
                    #[trigger] fr[j as int].ids@.contains(f) && (f as int == i || clock_lt(
                        log[i].clock@,
                        log[f as int].clock@,
                    ));
                assert(passes(self.last_read(key), log[f as int].clock@));
            },
            None => {},
        }
    }

    /// A write picked from a key's frontier is a delivered write to that key with
    /// a well-formed clock.
    proof fn lemma_pick_is_delivered(&self, mem: &CausalMemory, key: Seq<u8>, j: usize, b: usize)
        requires
            self.inv(mem),
            j < self.by_key@.len(),
            self.by_key@[j as int].key@ == key,
            self.by_key@[j as int].ids@.contains(b),
        ensures
            b < mem.log().len(),
            mem.log()[b as int].clock.wf(),
            lr_entry_ok(
                mem.log(),
                self.delivered@,
                LastRead { key: mem.log()[b as int].key, clock: mem.log()[b as int].clock },
            ),
            mem.log()[b as int].key@ == key,
    {
        let log = mem.log();
        assert(is_max(log, self.delivered@, key, b as int));
        assert(log[b as int].id == b);
    }

    /// The causally-maximal delivered values for `key` (its frontier): a single
    /// value unless concurrent writers produced siblings.
    pub fn read(&self, mem: &CausalMemory, key: &[u8]) -> (r: Vec<Vec<u8>>)
        requires
            self.inv(mem),
        ensures
            r@.len() == self.frontier(key@).len(),
            forall|t: int|
                0 <= t < r@.len() ==> #[trigger] r@[t]@ == mem.log()[self.frontier(
                    key@,
                )[t] as int].value@,
            self.frontier(key@).no_duplicates(),
            forall|x: usize| #[trigger]
                self.frontier(key@).contains(x) <==> self.maximal(mem, key@, x as int),
    {
        proof {
            self.lemma_frontier_exact(mem, key@);
        }
        let mut out: Vec<Vec<u8>> = Vec::new();
        match find_key(&self.by_key, key) {
            None => {
                assert(self.frontier(key@) =~= Seq::<usize>::empty());
            },
            Some(j) => {
                proof {
                    let jj = choose|jj: int|
                        0 <= jj < self.by_key@.len() && #[trigger] self.by_key@[jj].key@ == key@;
                    if jj != j as int {
                        assert(self.by_key@[jj].key@ != self.by_key@[j as int].key@);
                    }
                    assert(self.frontier(key@) == self.by_key@[j as int].ids@);
                }
                let ids = &self.by_key[j].ids;
                let mut t: usize = 0;
                while t < ids.len()
                    invariant
                        t <= ids@.len(),
                        ids@ == self.frontier(key@),
                        forall|s: int| 0 <= s < ids@.len() ==> #[trigger] ids@[s] < mem.log().len(),
                        out@.len() == t,
                        forall|s: int|
                            0 <= s < t ==> #[trigger] out@[s]@ == mem.log()[ids@[s] as int].value@,
                    decreases ids@.len() - t,
                {
                    let w = ids[t];
                    out.push(copy_bytes(mem.log[w].value.as_slice()));
                    t = t + 1;
                }
            },
        }
        out
    }
}


impl CausalMemory {
    /// Open a session for an agent instance. Each instance has at most one session
    /// on a memory (a vector-clock slot has a single writer).
    pub fn session(&mut self, instance: AgentInstanceId) -> (s: Session)
        requires
            old(self).wf(),
            !old(self).issued().contains(instance.0),
        ensures
            final(self).wf(),
            final(self).log() == old(self).log(),
            final(self).issued() == old(self).issued().push(instance.0),
            s.inv(&*final(self)),
            s.instance_id() == instance.0,
            s.clock_map() == Map::<u64, u64>::empty(),
            s.n_delivered() == 0,
            forall|i: int| !s.delivered_at(i),
    {
        self.issued.push(instance.0);
        let s = Session {
            instance,
            vc: VectorClock::new(),
            delivered: Vec::new(),
            n_delivered: 0,
            undelivered: Vec::new(),
            by_key: Vec::new(),
            last_read: Vec::new(),
        };
        proof {
            let log = self.log@;
            assert forall|i: int| 0 <= i < log.len() implies self.issued@.contains(
                #[trigger] log[i].instance.0,
            ) by {
                assert(old(self).issued@.contains(log[i].instance.0));
                let j = choose|j: int| 0 <= j < old(self).issued@.len() && old(self).issued@[j] == log[i].instance.0;
                assert(self.issued@[j] == log[i].instance.0);
            }
            assert(self.issued@[self.issued@.len() - 1] == instance.0);
            assert forall|i: int| 0 <= i < log.len() && #[trigger] log[i].instance.0 == instance.0
                implies false by {
                assert(old(self).issued@.contains(log[i].instance.0));
            }
            assert(map_wf(s.vc@));
            assert(count_true(s.delivered@) == 0);
            lemma_fr_empty(self.log@, s.delivered@);
        }
        s
    }
}

impl Session {
    /// Record a write. It is appended to the memory and immediately visible to this
    /// session (read-your-writes). Returns a copy of the appended write.
    pub fn write(&mut self, mem: &mut CausalMemory, key: &[u8], value: &[u8]) -> (op: WriteOp)
        requires
            old(self).inv(&*old(mem)),
            old(mem).log().len() + 1 < u64::MAX,
        ensures
            final(self).inv(&*final(mem)),
            final(mem).issued() == old(mem).issued(),
            final(mem).log().len() == old(mem).log().len() + 1,
            final(mem).log().drop_last() == old(mem).log(),
            same_op(final(mem).log().last(), op),
            op.id == old(mem).log().len(),
            op.instance.0 == old(self).instance_id(),
            op.key@ == key@,
            op.value@ == value@,
            op.clock@ == old(self).clock_map().insert(
                old(self).instance_id(),
                (count(old(self).clock_map(), old(self).instance_id()) + 1) as u64,
            ),
            final(self).instance_id() == old(self).instance_id(),
            final(self).clock_map() == op.clock@,
            forall|i: int| old(self).delivered_at(i) ==> final(self).delivered_at(i),
            final(self).delivered_at(op.id as int),
            final(self).n_delivered() == old(self).n_delivered() + 1,
            final(self).frontier(key@) == seq![op.id as usize],
    {
        let ghost log0 = mem.log@;
        let ghost vc0 = self.vc@;
        let ghost del0 = self.delivered@;
        let ghost a = self.instance.0;
        let ghost n0 = self.n_delivered;
        let ghost fr0 = self.by_key@;
        let ghost lr0 = self.last_read@;
        proof {
            lemma_n_by_bound(log0, a, del0.len() as int);
            lemma_count_true_bound(del0);
        }
        let _n = self.vc.increment(self.instance);
        let clock = self.vc.clone();
        let id = mem.log.len() as u64;
        let op = WriteOp {
            id,
            instance: self.instance,
            key: copy_bytes(key),
            value: copy_bytes(value),
            clock,
        };
        let copy = op.duplicate();
        mem.log.push(op);
        let ghost log1 = mem.log@;
        let ghost vc1 = self.vc@;
        proof {
            assert(log1.last().clock@ == vc1);
        }
        while self.delivered.len() < mem.log.len() - 1
            invariant
                self.delivered@.len() <= log0.len(),
                mem.log@ == log1,
                log1.len() == log0.len() + 1,
                self.vc@ == vc1,
                self.vc.wf(),
                self.instance.0 == a,
                del0.len() <= self.delivered@.len(),
                forall|i: int| 0 <= i < del0.len() ==> self.delivered@[i] == del0[i],
                forall|i: int| del0.len() <= i < self.delivered@.len() ==> !self.delivered@[i],
                self.n_delivered == count_true(self.delivered@),
                self.n_delivered == n0,
                queue_inv(self.delivered@, self.undelivered@),
                self.by_key@ == fr0,
                self.last_read@ == lr0,
            decreases log0.len() - self.delivered@.len(),
        {
            let k = self.delivered.len();
            proof {
                lemma_count_true_push(self.delivered@, false);
            }
            let ghost old_d = self.delivered@;
            let ghost old_u = self.undelivered@;
            self.undelivered.push(k);
            self.delivered.push(false);
            proof {
                let d = self.delivered@;
                let u = self.undelivered@;
                assert forall|i: int| 0 <= i < d.len() && !#[trigger] d[i] implies u.contains(
                    i as usize,
                ) by {
                    if i == k {
                        assert(u[u.len() - 1] == k);
                    } else {
                        assert(!old_d[i]);
                        assert(old_u.contains(i as usize));
                        let j = choose|j: int| 0 <= j < old_u.len() && old_u[j] == i as usize;
                        assert(u[j] == i as usize);
                    }
                }
            }
        }
        let idx = self.delivered.len();
        proof {
            assert(write_step(log0, log1, vc0, vc1, del0, a));
            lemma_write_log_wf(log0, log1, vc0, vc1, del0, a);
            lemma_count_true_push(self.delivered@, false);
            lemma_fr_extend(log0, log1, del0, self.delivered@.push(false), self.by_key@);
        }
        self.delivered.push(false);
        let ghost dpf = self.delivered@;
        record(&mut self.by_key, &mem.log, idx, Ghost(dpf));
        self.delivered.set(idx, true);
        proof {
            lemma_count_true_set(dpf, idx as int);
            lemma_count_true_bound(self.delivered@);
        }
        self.n_delivered = self.n_delivered + 1;
        proof {
            lemma_write_delivery_inv(log0, mem.log@, vc0, self.vc@, del0, self.delivered@, a);
            lemma_lr_extend(log0, log1, del0, self.delivered@, self.last_read@);
            let d = self.delivered@;
            let u = self.undelivered@;
            assert forall|i: int| 0 <= i < d.len() && !#[trigger] d[i] implies u.contains(i as usize) by {
                assert(i < d.len() - 1);
                assert(!dpf[i]);
            }
            assert forall|j: int| 0 <= j < u.len() implies #[trigger] u[j] < d.len() by {}
            assert(mem.log@.drop_last() =~= log0);
        }
        let _ = mem.log.len();
        proof {
            self.lemma_read_your_write(&*mem, copy.id as int);
        }
        copy
    }
}

/// The common premises of a write by instance `a`: `log1` is `log0` plus the new
/// write whose clock `vc1` is `vc0` with `a` ticked.
pub open spec fn write_step(
    log0: Seq<WriteOp>,
    log1: Seq<WriteOp>,
    vc0: Map<u64, u64>,
    vc1: Map<u64, u64>,
    del0: Seq<bool>,
    a: u64,
) -> bool {
    &&& log_wf(log0)
    &&& delivery_inv(a, vc0, del0, log0)
    &&& log1.len() == log0.len() + 1
    &&& log1.len() < u64::MAX
    &&& forall|i: int| 0 <= i < log0.len() ==> log1[i] == log0[i]
    &&& log1.last().id == log0.len()
    &&& log1.last().instance.0 == a
    &&& log1.last().clock.wf()
    &&& log1.last().clock@ == vc1
    &&& vc1 == vc0.insert(a, (count(vc0, a) + 1) as u64)
    &&& count(vc0, a) + 1 < u64::MAX
}

proof fn lemma_write_counts(
    log0: Seq<WriteOp>,
    log1: Seq<WriteOp>,
    vc0: Map<u64, u64>,
    vc1: Map<u64, u64>,
    del0: Seq<bool>,
    a: u64,
)
    requires
        write_step(log0, log1, vc0, vc1, del0, a),
    ensures
        forall|b: u64, i: int| 0 <= i <= log0.len() ==> #[trigger] n_by(log1, b, i) == n_by(log0, b, i),
        count(vc0, a) == n_by(log0, a, log0.len() as int),
        n_by(log1, a, log1.len() as int) == n_by(log0, a, log0.len() as int) + 1,
        forall|b: u64| b != a ==> #[trigger] n_by(log1, b, log1.len() as int) == n_by(log0, b, log0.len() as int),
        forall|b: u64| b != a ==> #[trigger] count(vc1, b) == count(vc0, b),
        forall|b: u64| #[trigger] count(vc0, b) <= n_by(log0, b, log0.len() as int),
        forall|b: u64| #[trigger] count(vc0, b) <= count(vc1, b),
        map_wf(vc1),
{
    let n = log0.len() as int;
    assert forall|b: u64, i: int| 0 <= i <= n implies #[trigger] n_by(log1, b, i) == n_by(log0, b, i) by {
        lemma_n_by_prefix(log0, log1, b, i);
    }
    assert forall|b: u64| #[trigger] count(vc0, b) <= n_by(log0, b, n) by {
        lemma_n_by_mono(log0, b, del0.len() as int, n);
    }
    assert(count(vc0, a) == n_by(log0, a, n)) by {
        let m = n_by(log0, a, n);
        if m > 0 {
            lemma_nth_write_exists(log0, a, n, m);
            let k = choose|k: int| 0 <= k < n && log0[k].instance.0 == a && ordinal(log0[k]) == m;
            assert(del0[k]);
        }
    }
    assert(log1[n] == log1.last());
    assert(n_by(log1, a, n) == n_by(log0, a, n));
    assert forall|b: u64| b != a implies #[trigger] n_by(log1, b, n + 1) == n_by(log0, b, n) by {
        assert(n_by(log1, b, n) == n_by(log0, b, n));
    }
    assert forall|b: u64| #[trigger] count(vc0, b) <= count(vc1, b) by {}
    assert(vc1.dom() =~= vc0.dom().insert(a));
}

#[verifier::spinoff_prover]
#[verifier::rlimit(40)]
proof fn lemma_write_log_wf(
    log0: Seq<WriteOp>,
    log1: Seq<WriteOp>,
    vc0: Map<u64, u64>,
    vc1: Map<u64, u64>,
    del0: Seq<bool>,
    a: u64,
)
    requires
        write_step(log0, log1, vc0, vc1, del0, a),
    ensures
        log_wf(log1),
{
    let n = log0.len() as int;
    lemma_write_counts(log0, log1, vc0, vc1, del0, a);
    assert forall|i: int| 0 <= i < log1.len() implies ordinal(#[trigger] log1[i]) == n_by(
        log1,
        log1[i].instance.0,
        i,
    ) + 1 by {
        if i < n {
            assert(log1[i] == log0[i]);
        }
    }
    assert forall|i: int, b: u64| 0 <= i < log1.len() && b != log1[i].instance.0 implies #[trigger] count(
        log1[i].clock@,
        b,
    ) <= n_by(log1, b, i) by {
        if i < n {
            assert(log1[i] == log0[i]);
            assert(count(log0[i].clock@, b) <= n_by(log0, b, i));
        } else {
            assert(count(vc1, b) == count(vc0, b));
            assert(count(vc0, b) <= n_by(log0, b, n));
        }
    }
    assert forall|i: int| 0 <= i < log1.len() implies #[trigger] log1[i].id == i && log1[i].clock.wf() by {
        if i < n {
            assert(log1[i] == log0[i]);
            assert(log0[i].id == i);
        } else {
            assert(log1[i] == log1.last());
        }
    }
}

proof fn lemma_write_delivery_inv(
    log0: Seq<WriteOp>,
    log1: Seq<WriteOp>,
    vc0: Map<u64, u64>,
    vc1: Map<u64, u64>,
    del0: Seq<bool>,
    del1: Seq<bool>,
    a: u64,
)
    requires
        write_step(log0, log1, vc0, vc1, del0, a),
        del1.len() == log1.len(),
        forall|i: int| 0 <= i < del0.len() ==> del1[i] == del0[i],
        forall|i: int| del0.len() <= i < log0.len() ==> !del1[i],
        del1[log0.len() as int],
    ensures
        delivery_inv(a, vc1, del1, log1),
{
    let n = log0.len() as int;
    lemma_write_counts(log0, log1, vc0, vc1, del0, a);
    assert forall|i: int| 0 <= i < del1.len() implies (#[trigger] del1[i] <==> ordinal(log1[i]) <= count(
        vc1,
        log1[i].instance.0,
    )) by {
        if i < n {
            assert(log1[i] == log0[i]);
            if log0[i].instance.0 == a {
                assert(del0[i]);
                assert(ordinal(log0[i]) <= count(vc0, a));
            } else if i >= del0.len() {
                lemma_unseen_not_covered(a, vc0, del0, log0, i);
            } else {
                assert(del1[i] == del0[i]);
            }
        }
    }
    assert forall|i: int| 0 <= i < del1.len() && #[trigger] del1[i] implies clock_le(log1[i].clock@, vc1) by {
        if i < n {
            assert(log1[i] == log0[i]);
            assert(del0[i]);
            assert(clock_le(log0[i].clock@, vc0));
            assert forall|k: u64| #[trigger] count(log0[i].clock@, k) <= count(vc1, k) by {
                assert(count(log0[i].clock@, k) <= count(vc0, k));
                assert(count(vc0, k) <= count(vc1, k));
            }
        } else {
            assert forall|k: u64| #[trigger] count(vc1, k) <= count(vc1, k) by {}
        }
    }
    assert forall|b: u64| #[trigger] count(vc1, b) <= n_by(log1, b, del1.len() as int) by {
        if b != a {
            assert(count(vc1, b) == count(vc0, b));
        }
    }
    assert forall|i: int| 0 <= i < log1.len() && #[trigger] log1[i].instance.0 == a implies i < del1.len()
        && del1[i] by {
        if i < n {
            assert(log1[i] == log0[i]);
        }
    }
}


/// Delivering a deliverable write `x` (merging its clock and flagging it) keeps the
/// delivery invariant.
proof fn lemma_deliver_keeps_invariant(
    log: Seq<WriteOp>,
    vc0: Map<u64, u64>,
    vc1: Map<u64, u64>,
    del0: Seq<bool>,
    x: int,
    a: u64,
)
    requires
        log_wf(log),
        delivery_inv(a, vc0, del0, log),
        0 <= x < del0.len(),
        del0.len() == log.len(),
        !del0[x],
        deliverable(log[x], vc0),
        vc1 == clock_join(vc0, log[x].clock@),
    ensures
        delivery_inv(a, vc1, del0.update(x, true), log),
        forall|b: u64| #[trigger] count(vc0, b) <= count(vc1, b),
        vc1 == vc0.insert(log[x].instance.0, ordinal(log[x]) as u64),
{
    let del1 = del0.update(x, true);
    let op = log[x];
    let c = op.instance.0;
    assert(log[x].id == x);
    assert(map_wf(op.clock@)) by {
        op.clock.lemma_wf();
    }
    assert(vc1 =~= vc0.insert(c, ordinal(op) as u64)) by {
        assert forall|k: u64| #[trigger] vc1.contains_key(k) == vc0.insert(c, ordinal(op) as u64).contains_key(k) by {
            if k != c && op.clock@.contains_key(k) {
                assert(count(op.clock@, k) <= count(vc0, k));
            }
        }
        assert forall|k: u64| vc1.contains_key(k) implies vc1[k] == vc0.insert(c, ordinal(op) as u64)[k] by {
            if k != c {
                assert(count(op.clock@, k) <= count(vc0, k));
            }
        }
    }
    assert forall|b: u64| #[trigger] count(vc0, b) <= count(vc1, b) by {}
    assert(map_wf(vc1)) by {
        assert(vc1.dom() =~= vc0.dom().insert(c));
    }
    assert forall|i: int| 0 <= i < log.len() implies ((i < del1.len() && #[trigger] del1[i]) <==> ordinal(
        log[i],
    ) <= count(vc1, log[i].instance.0)) by {
        if i == x {
        } else if i < del0.len() {
            assert(del1[i] == del0[i]);
            assert(del0[i] <==> ordinal(log[i]) <= count(vc0, log[i].instance.0));
            if log[i].instance.0 == c {
                if i < x {
                    lemma_ordinal_increases(log, i, x);
                } else {
                    lemma_ordinal_increases(log, x, i);
                }
            }
        }
    }
    assert forall|i: int| 0 <= i < del1.len() && #[trigger] del1[i] implies clock_le(log[i].clock@, vc1) by {
        if i == x {
            assert forall|k: u64| #[trigger] count(log[x].clock@, k) <= count(vc1, k) by {
                if k != c {
                    assert(count(op.clock@, k) <= count(vc0, k));
                }
            }
        } else {
            assert(del0[i]);
            assert(clock_le(log[i].clock@, vc0));
            assert forall|k: u64| #[trigger] count(log[i].clock@, k) <= count(vc1, k) by {
                assert(count(log[i].clock@, k) <= count(vc0, k));
            }
        }
    }
    assert forall|b: u64| #[trigger] count(vc1, b) <= n_by(log, b, del1.len() as int) by {
        if b == c {
            lemma_n_by_mono(log, c, x + 1, del0.len() as int);
            assert(n_by(log, c, x + 1) == n_by(log, c, x) + 1);
        }
    }
    assert forall|i: int| 0 <= i < log.len() && #[trigger] log[i].instance.0 == a implies i < del1.len()
        && del1[i] by {
        assert(del0[i]);
    }
}

/// Seeing one more write (flagged undelivered, clock unchanged) keeps the delivery
/// invariant: a write not yet seen cannot be covered by the session's clock.
proof fn lemma_scan_keeps_invariant(a: u64, vc: Map<u64, u64>, del0: Seq<bool>, log: Seq<WriteOp>)
    requires
        log_wf(log),
        delivery_inv(a, vc, del0, log),
        del0.len() < log.len(),
    ensures
        delivery_inv(a, vc, del0.push(false), log),
{
    let k = del0.len() as int;
    let d = del0.push(false);
    lemma_unseen_not_covered(a, vc, del0, log, k);
    assert forall|i: int| 0 <= i < d.len() implies (#[trigger] d[i] <==> ordinal(log[i]) <= count(
        vc,
        log[i].instance.0,
    )) by {
        if i < k {
            assert(d[i] == del0[i]);
        }
    }
    assert forall|b: u64| #[trigger] count(vc, b) <= n_by(log, b, d.len() as int) by {
        lemma_n_by_mono(log, b, k, d.len() as int);
    }
    assert forall|i: int| 0 <= i < d.len() && #[trigger] d[i] implies clock_le(log[i].clock@, vc) by {
        assert(del0[i]);
    }
    assert forall|i: int| 0 <= i < log.len() && #[trigger] log[i].instance.0 == a implies i < d.len()
        && d[i] by {
        assert(del0[i]);
    }
}

/// A write the session has not yet seen is not covered by its clock.
proof fn lemma_unseen_not_covered(a: u64, vc: Map<u64, u64>, del: Seq<bool>, log: Seq<WriteOp>, i: int)
    requires
        log_wf(log),
        delivery_inv(a, vc, del, log),
        del.len() <= i < log.len(),
    ensures
        !(ordinal(log[i]) <= count(vc, log[i].instance.0)),
        log[i].instance.0 != a,
{
    let ci = log[i].instance.0;
    assert(ordinal(log[i]) == n_by(log, ci, i) + 1);
    assert(count(vc, ci) <= n_by(log, ci, del.len() as int));
    lemma_n_by_mono(log, ci, del.len() as int, i);
}

impl Session {
    /// Whether `op` can be delivered now: it is the next write from its instance
    /// and all of its cross-instance dependencies are already delivered here.
    fn can_deliver(&self, op: &WriteOp, Ghost(log): Ghost<Seq<WriteOp>>) -> (r: bool)
        requires
            self.vc.wf(),
            op.clock.wf(),
            forall|b: u64| #[trigger] count(self.vc@, b) < u64::MAX,
        ensures
            r == deliverable(*op, self.vc@),
    {
        let own = op.clock.get(op.instance);
        let mine = self.vc.get(op.instance);
        if own != mine + 1 {
            return false;
        }
        let entries = op.clock.iter();
        proof {
            op.clock.lemma_wf();
        }
        let mut i: usize = 0;
        while i < entries.len()
            invariant
                i <= entries@.len(),
                self.vc.wf(),
                op.clock.wf(),
                entries@.len() == op.clock.sorted_entries().len(),
                forall|j: int|
                    0 <= j < entries@.len() ==> entries@[j].0.0 == op.clock.sorted_entries()[j].0
                        && entries@[j].1 == op.clock.sorted_entries()[j].1,
                op.clock@ == crate::consistency::vector_clock::entries_map(op.clock.sorted_entries()),
                crate::consistency::vector_clock::canonical(op.clock.sorted_entries()),
                forall|j: int|
                    0 <= j < i ==> (entries@[j].0.0 == op.instance.0 || entries@[j].1 <= count(
                        self.vc@,
                        entries@[j].0.0,
                    )),
            decreases entries@.len() - i,
        {
            let (k, c) = entries[i];
            if k.0 != op.instance.0 && c > self.vc.get(k) {
                proof {
                    op.clock.lemma_wf();
                    crate::consistency::vector_clock::lemma_sorted_entry_in_map(op.clock.sorted_entries(), i as int);
                }
                return false;
            }
            i = i + 1;
        }
        proof {
            assert forall|b: u64| b != op.instance.0 implies #[trigger] count(op.clock@, b) <= count(self.vc@, b) by {
                if op.clock@.contains_key(b) {
                    let j = choose|j: int| 0 <= j < op.clock.sorted_entries().len() && op.clock.sorted_entries()[j].0 == b;
                    crate::consistency::vector_clock::lemma_sorted_entry_in_map(op.clock.sorted_entries(), j);
                }
            }
        }
        true
    }

    /// Pull newly-appended writes from the memory and deliver everything that is
    /// causally ready. Returns the number of writes newly delivered. Afterwards every
    /// write in the memory has been delivered to this session.
    pub fn refresh(&mut self, mem: &CausalMemory) -> (n: usize)
        requires
            old(self).inv(mem),
        ensures
            final(self).inv(mem),
            final(self).instance_id() == old(self).instance_id(),
            forall|i: int| 0 <= i < mem.log().len() ==> final(self).delivered_at(i),
            forall|i: int| old(self).delivered_at(i) ==> final(self).delivered_at(i),
            final(self).n_delivered() == old(self).n_delivered() + n,
            final(self).n_delivered() == mem.log().len(),
            clock_le(old(self).clock_map(), final(self).clock_map()),
            forall|i: int| 0 <= i < mem.log().len() ==> clock_le(#[trigger] mem.log()[i].clock@, final(self).clock_map()),
            forall|b: u64| #[trigger] count(final(self).clock_map(), b) == n_by(mem.log(), b, mem.log().len() as int),
            forall|i: int, j: int|
                #![trigger final(self).delivered_at(i), mem.log()[j]]
                final(self).delivered_at(i) && 0 <= j < mem.log().len() && clock_lt(mem.log()[j].clock@, mem.log()[i].clock@)
                    ==> final(self).delivered_at(j),
    {
        let ghost log = mem.log@;
        let ghost a = self.instance.0;
        let ghost del_start = self.delivered@;
        let ghost vc_start = self.vc@;
        let ghost n_start = self.n_delivered;
        // Scan the newly appended writes.
        while self.delivered.len() < mem.log.len()
            invariant
                self.inv(mem),
                self.instance.0 == a,
                mem.log@ == log,
                self.vc@ == vc_start,
                self.n_delivered == n_start,
                del_start.len() <= self.delivered@.len(),
                forall|i: int| 0 <= i < del_start.len() ==> self.delivered@[i] == del_start[i],
            decreases log.len() - self.delivered@.len(),
        {
            let k = self.delivered.len();
            let ghost old_d = self.delivered@;
            let ghost old_u = self.undelivered@;
            proof {
                lemma_count_true_push(old_d, false);
                lemma_scan_keeps_invariant(a, self.vc@, old_d, log);
                lemma_fr_extend(log, log, old_d, old_d.push(false), self.by_key@);
                lemma_lr_extend(log, log, old_d, old_d.push(false), self.last_read@);
            }
            self.undelivered.push(k);
            self.delivered.push(false);
            proof {
                let d = self.delivered@;
                let u = self.undelivered@;
                assert forall|i: int| 0 <= i < d.len() && !#[trigger] d[i] implies u.contains(i as usize) by {
                    if i == k {
                        assert(u[u.len() - 1] == k);
                    } else {
                        assert(!old_d[i]);
                        assert(old_u.contains(i as usize));
                        let j = choose|j: int| 0 <= j < old_u.len() && old_u[j] == i as usize;
                        assert(u[j] == i as usize);
                    }
                }
                assert forall|j: int| 0 <= j < u.len() implies #[trigger] u[j] < d.len() by {
                    if j < u.len() - 1 {
                        assert(u[j] == old_u[j]);
                    }
                }
                assert(d =~= old_d.push(false));
            }
        }
        let mut total: usize = 0;
        let _dl = self.delivered.len();
        loop
            invariant
                self.delivered@.len() <= usize::MAX,
                self.inv(mem),
                self.instance.0 == a,
                mem.log@ == log,
                self.delivered@.len() == log.len(),
                del_start.len() <= log.len(),
                forall|i: int| 0 <= i < del_start.len() && del_start[i] ==> self.delivered@[i],
                self.n_delivered == n_start + total,
                clock_le(vc_start, self.vc@),
            ensures
                self.inv(mem),
                self.instance.0 == a,
                forall|i: int| 0 <= i < log.len() ==> self.delivered@[i],
                self.delivered@.len() == log.len(),
                forall|i: int| 0 <= i < del_start.len() && del_start[i] ==> self.delivered@[i],
                self.n_delivered == n_start + total,
                self.n_delivered == log.len(),
                clock_le(vc_start, self.vc@),
            decreases log.len() - self.n_delivered,
        {
            let ghost n_pass = self.n_delivered;
            let ghost vc_pass = self.vc@;
            let mut progressed = false;
            let mut i: usize = 0;
            while i < self.undelivered.len()
                invariant
                    self.delivered@.len() <= usize::MAX,
                    self.inv(mem),
                    self.instance.0 == a,
                    mem.log@ == log,
                    self.delivered@.len() == log.len(),
                    del_start.len() <= log.len(),
                    forall|j: int| 0 <= j < del_start.len() && del_start[j] ==> self.delivered@[j],
                    self.n_delivered == n_start + total,
                    clock_le(vc_start, self.vc@),
                    progressed ==> self.n_delivered > n_pass,
                    !progressed ==> self.n_delivered == n_pass && self.vc@ == vc_pass,
                    n_pass <= self.n_delivered,
                    !progressed ==> forall|j: int|
                        0 <= j < i ==> !self.delivered@[self.undelivered@[j] as int] && !deliverable(
                            #[trigger] log[self.undelivered@[j] as int],
                            self.vc@,
                        ),
                    i <= self.undelivered@.len(),
                decreases self.undelivered@.len() - i,
            {
                let id = self.undelivered[i];
                let _dl = self.delivered.len();
                proof {
                    assert(id < self.delivered@.len());
                    assert(log[id as int].id == id);
                }
                if self.delivered[id] {
                    let ghost old_u = self.undelivered@;
                    self.undelivered.swap_remove(i);
                    proof {
                        lemma_queue_swap_remove(self.delivered@, old_u, i as int);
                        if !progressed {
                            assert forall|j: int| 0 <= j < i implies !self.delivered@[self.undelivered@[j] as int] && !deliverable(
                                #[trigger] log[self.undelivered@[j] as int],
                                self.vc@,
                            ) by {
                                assert(self.undelivered@[j] == old_u[j]);
                            }
                        }
                    }
                    continue;
                }
                proof {
                    lemma_count_true_bound(self.delivered@);
                    assert forall|b: u64| #[trigger] count(self.vc@, b) < u64::MAX by {
                        lemma_n_by_bound(log, b, log.len() as int);
                    }
                }
                if self.can_deliver(&mem.log[id], Ghost(log)) {
                    let ghost old_u = self.undelivered@;
                    let ghost old_d = self.delivered@;
                    let x = self.undelivered.swap_remove(i);
                    self.deliver(mem, x);
                    proof {
                        assert forall|j: int| 0 <= j < del_start.len() && del_start[j] implies self.delivered@[j] by {
                            assert(old_d[j]);
                        }
                        assert forall|k: int| 0 <= k < self.delivered@.len() && !#[trigger] self.delivered@[k]
                            implies old_u.contains(k as usize) by {
                            assert(!old_d[k]);
                        }
                        lemma_queue_swap_remove(self.delivered@, old_u, i as int);
                        assert forall|b: u64| #[trigger] count(vc_start, b) <= count(self.vc@, b) by {}
                    }
                    total = total + 1;
                    progressed = true;
                } else {
                    i = i + 1;
                }
            }
            if !progressed {
                proof {
                    assert forall|k: int| 0 <= k < log.len() && !self.delivered@[k] implies !deliverable(
                        #[trigger] log[k],
                        self.vc@,
                    ) by {
                        assert(self.undelivered@.contains(k as usize));
                        let j = choose|j: int| 0 <= j < self.undelivered@.len() && self.undelivered@[j] == k as usize;
                        assert(self.undelivered@[j] as int == k);
                        assert(!deliverable(log[self.undelivered@[j] as int], self.vc@));
                    }
                    lemma_stuck_means_complete(a, self.vc@, self.delivered@, log);
                    lemma_all_true_count(self.delivered@);
                }
                break;
            }
            proof {
                lemma_count_true_bound(self.delivered@);
            }
        }
        proof {
            assert forall|i: int| 0 <= i < log.len() implies clock_le(#[trigger] log[i].clock@, self.vc@) by {
                assert(self.delivered_at(i));
            }
            assert forall|b: u64| #[trigger] count(self.vc@, b) == n_by(log, b, log.len() as int) by {
                if n_by(log, b, log.len() as int) > 0 {
                    lemma_last_write(log, b, log.len() as int);
                    let i = choose|i: int| 0 <= i < log.len() && log[i].instance.0 == b && ordinal(log[i]) == n_by(
                        log,
                        b,
                        log.len() as int,
                    );
                    assert(self.delivered_at(i));
                    assert(self.delivered@[i]);
                }
            }
        }
        total
    }

    /// Deliver write `x` (deliverable and queued, already removed from the queue).
    fn deliver(&mut self, mem: &CausalMemory, x: usize)
        requires
            old(self).vc.wf(),
            mem.wf(),
            (x as int) < old(self).delivered@.len(),
            old(self).delivered@.len() == mem.log().len(),
            !old(self).delivered@[x as int],
            deliverable(mem.log()[x as int], old(self).vc@),
            delivery_inv(old(self).instance.0, old(self).vc@, old(self).delivered@, mem.log()),
            old(self).n_delivered == count_true(old(self).delivered@),
            fr_inv(mem.log(), old(self).delivered@, old(self).by_key@),
            lr_inv(mem.log(), old(self).delivered@, old(self).last_read@),
        ensures
            fr_inv(mem.log(), final(self).delivered@, final(self).by_key@),
            lr_inv(mem.log(), final(self).delivered@, final(self).last_read@),
            final(self).vc.wf(),
            final(self).instance == old(self).instance,
            final(self).undelivered@ == old(self).undelivered@,
            final(self).delivered@ == old(self).delivered@.update(x as int, true),
            final(self).vc@ == clock_join(old(self).vc@, mem.log()[x as int].clock@),
            delivery_inv(final(self).instance.0, final(self).vc@, final(self).delivered@, mem.log()),
            final(self).n_delivered == old(self).n_delivered + 1,
            final(self).n_delivered == count_true(final(self).delivered@),
            forall|b: u64| #[trigger] count(old(self).vc@, b) <= count(final(self).vc@, b),
    {
        let ghost vc0 = self.vc@;
        let ghost del0 = self.delivered@;
        proof {
            assert(mem.log@[x as int].id == x);
        }
        self.vc.merge(&mem.log[x].clock);
        record(&mut self.by_key, &mem.log, x, Ghost(del0));
        self.delivered.set(x, true);
        proof {
            lemma_lr_extend(mem.log@, mem.log@, del0, self.delivered@, self.last_read@);
            lemma_deliver_keeps_invariant(mem.log@, vc0, self.vc@, del0, x as int, self.instance.0);
            lemma_count_true_set(del0, x as int);
            lemma_count_true_bound(self.delivered@);
        }
        self.n_delivered = self.n_delivered + 1;
    }
}

proof fn lemma_queue_swap_remove(del: Seq<bool>, old_u: Seq<usize>, i: int)
    requires
        0 <= i < old_u.len(),
        del.len() <= usize::MAX,
        forall|j: int| 0 <= j < old_u.len() ==> #[trigger] old_u[j] < del.len(),
        forall|k: int| 0 <= k < del.len() && !#[trigger] del[k] ==> old_u.contains(k as usize),
        del[old_u[i] as int],
    ensures
        queue_inv(del, old_u.update(i, old_u.last()).drop_last()),
{
    let u = old_u.update(i, old_u.last()).drop_last();
    assert forall|j: int| 0 <= j < u.len() implies #[trigger] u[j] < del.len() by {
        if j == i {
            assert(u[j] == old_u[old_u.len() - 1]);
        } else {
            assert(u[j] == old_u[j]);
        }
    }
    assert forall|k: int| 0 <= k < del.len() && !#[trigger] del[k] implies u.contains(k as usize) by {
        let j = choose|j: int| 0 <= j < old_u.len() && old_u[j] == k as usize;
        assert(old_u[j] as int == k);
        assert(j != i);
        if j == old_u.len() - 1 {
            assert(u[i] == k as usize);
        } else {
            assert(u[j] == k as usize);
        }
    }
}

proof fn lemma_all_true_count(s: Seq<bool>)
    requires
        forall|i: int| 0 <= i < s.len() ==> s[i],
    ensures
        count_true(s) == s.len(),
    decreases s.len(),
{
    if s.len() > 0 {
        lemma_all_true_count(s.drop_last());
    }
}

/// Every clock in a well-formed log is well formed.
proof fn lemma_log_wf_clocks(log: Seq<WriteOp>)
    requires
        log_wf(log),
    ensures
        forall|i: int| 0 <= i < log.len() ==> (#[trigger] log[i]).clock.wf(),
{
    assert forall|i: int| 0 <= i < log.len() implies (#[trigger] log[i]).clock.wf() by {
        assert(log[i].id == i);
    }
}

/// Replacing (or adding) the entry for `key` in a last-read table with distinct
/// keys changes what it says of `key` only.
proof fn lemma_last_read_updated(
    lr0: Seq<LastRead>,
    lr1: Seq<LastRead>,
    key: Seq<u8>,
    prev: Option<usize>,
    c: Map<u64, u64>,
)
    requires
        forall|t1: int, t2: int|
            0 <= t1 < lr0.len() && 0 <= t2 < lr0.len() && t1 != t2 ==> #[trigger] lr0[t1].key@
                != #[trigger] lr0[t2].key@,
        match prev {
            Some(pi) => pi < lr0.len() && lr0[pi as int].key@ == key && lr1 == lr0.update(
                pi as int,
                lr1[pi as int],
            ),
            None => (forall|t: int| 0 <= t < lr0.len() ==> lr0[t].key@ != key) && lr1.len() == lr0.len()
                + 1 && lr1.drop_last() == lr0,
        },
        match prev {
            Some(pi) => lr1[pi as int].key@ == key && lr1[pi as int].clock@ == c,
            None => lr1.last().key@ == key && lr1.last().clock@ == c,
        },
    ensures
        forall|t1: int, t2: int|
            0 <= t1 < lr1.len() && 0 <= t2 < lr1.len() && t1 != t2 ==> #[trigger] lr1[t1].key@
                != #[trigger] lr1[t2].key@,
        forall|k: Seq<u8>| k != key ==> last_read_of(lr1, k) == last_read_of(lr0, k),
        last_read_of(lr1, key) == Some(c),
{
    let n0 = lr0.len() as int;
    assert forall|t: int| 0 <= t < lr1.len() && t < n0 && prev != Some(t as usize) implies lr1[t] == lr0[t] by {
        match prev {
            Some(pi) => {},
            None => {
                assert(lr1[t] == lr1.drop_last()[t]);
            },
        }
    }
    let kt = match prev {
        Some(pi) => pi as int,
        None => n0,
    };
    assert(lr1.len() == n0 || (prev is None && lr1.len() == n0 + 1));
    assert(lr1[kt].key@ == key && lr1[kt].clock@ == c) by {
        match prev {
            Some(pi) => {},
            None => {
                assert(lr1[kt] == lr1.last());
            },
        }
    }
    assert forall|t1: int, t2: int|
        0 <= t1 < lr1.len() && 0 <= t2 < lr1.len() && t1 != t2 implies #[trigger] lr1[t1].key@
        != #[trigger] lr1[t2].key@ by {
        if t1 != kt && t2 != kt {
            assert(lr1[t1] == lr0[t1]);
            assert(lr1[t2] == lr0[t2]);
        } else if t1 == kt {
            assert(lr1[t2] == lr0[t2]);
            assert(lr0[t2].key@ != key) by {
                match prev {
                    Some(pi) => {
                        assert(lr0[t2].key@ != lr0[pi as int].key@);
                    },
                    None => {},
                }
            }
        } else {
            assert(lr1[t1] == lr0[t1]);
            assert(lr0[t1].key@ != key) by {
                match prev {
                    Some(pi) => {
                        assert(lr0[t1].key@ != lr0[pi as int].key@);
                    },
                    None => {},
                }
            }
        }
    }
    assert forall|k: Seq<u8>| k != key implies last_read_of(lr1, k) == last_read_of(lr0, k) by {
        if exists|t: int| 0 <= t < lr1.len() && #[trigger] lr1[t].key@ == k {
            let t1 = choose|t: int| 0 <= t < lr1.len() && #[trigger] lr1[t].key@ == k;
            assert(t1 != kt);
            assert(lr1[t1] == lr0[t1]);
            let t0 = choose|t: int| 0 <= t < lr0.len() && #[trigger] lr0[t].key@ == k;
            if t0 != t1 {
                assert(lr0[t0].key@ != lr0[t1].key@);
            }
        } else {
            if exists|t: int| 0 <= t < lr0.len() && #[trigger] lr0[t].key@ == k {
                let t0 = choose|t: int| 0 <= t < lr0.len() && #[trigger] lr0[t].key@ == k;
                assert(t0 != kt);
                assert(lr1[t0] == lr0[t0]);
            }
        }
    }
    assert(last_read_of(lr1, key) == Some(c)) by {
        let t1 = choose|t: int| 0 <= t < lr1.len() && #[trigger] lr1[t].key@ == key;
        if t1 != kt {
            assert(lr1[t1].key@ != lr1[kt].key@);
        }
    }
}

/// The clock a last-read table holds for `key`, if any.
pub open spec fn last_read_of(lr: Seq<LastRead>, key: Seq<u8>) -> Option<Map<u64, u64>> {
    if exists|t: int| 0 <= t < lr.len() && #[trigger] lr[t].key@ == key {
        Some(lr[choose|t: int| 0 <= t < lr.len() && #[trigger] lr[t].key@ == key].clock@)
    } else {
        None
    }
}

/// The frontier write `read_latest` returns after `prev`: among those that equal
/// or follow `prev`, the highest by (clock bytes, instance).
fn pick_latest(ids: &Vec<usize>, log: &Vec<WriteOp>, prev: Option<&VectorClock>) -> (r: Option<usize>)
    requires
        log_wf(log@),
        forall|s: int| 0 <= s < ids@.len() ==> #[trigger] ids@[s] < log@.len(),
        match prev {
            Some(p) => p.wf(),
            None => true,
        },
    ensures
        match r {
            None => forall|f: usize|
                #[trigger] ids@.contains(f) ==> !passes(prev_map(prev), log@[f as int].clock@),
            Some(b) => is_latest(log@, ids@, prev_map(prev), b),
        },
{
    let ghost prevm = prev_map(prev);
    proof {
        lemma_log_wf_clocks(log@);
    }
    let mut best: Option<usize> = None;
    let mut best_bytes: Vec<u8> = Vec::new();
    let mut t: usize = 0;
    while t < ids.len()
        invariant
            t <= ids@.len(),
            log_wf(log@),
            forall|s: int| 0 <= s < ids@.len() ==> #[trigger] ids@[s] < log@.len(),
            forall|i: int| 0 <= i < log@.len() ==> (#[trigger] log@[i]).clock.wf(),
            match prev {
                Some(p) => p.wf() && prevm == Some(p@),
                None => prevm is None,
            },
            match best {
                None => forall|s: int|
                    0 <= s < t ==> !passes(prevm, log@[#[trigger] ids@[s] as int].clock@),
                Some(b) => {
                    &&& exists|s: int| 0 <= s < t && #[trigger] ids@[s] == b
                    &&& passes(prevm, log@[b as int].clock@)
                    &&& best_bytes@ == clock_bytes(log@[b as int].clock.sorted_entries())
                    &&& forall|s: int|
                        0 <= s < t && passes(prevm, log@[#[trigger] ids@[s] as int].clock@)
                            ==> !rank_lt(log@[b as int], log@[ids@[s] as int])
                },
            },
        decreases ids@.len() - t,
    {
        let w = ids[t];
        let ok = match prev {
            None => true,
            Some(p) => VectorClock::le_clock(p, &log[w].clock),
        };
        proof {
            assert(log@[w as int].clock.wf());
            match prev {
                Some(p) => {
                    let c = log@[w as int].clock@;
                    assert(ok == passes(prevm, c)) by {
                        if p@ == c {
                            assert forall|k: u64| #[trigger] count(p@, k) <= count(c, k) by {}
                        }
                    }
                },
                None => {},
            }
        }
        if ok {
            let wb = log[w].clock.to_bytes();
            let take = match best {
                None => true,
                Some(b) => bytes_less(best_bytes.as_slice(), wb.as_slice()) || (bytes_eq(
                    best_bytes.as_slice(),
                    wb.as_slice(),
                ) && log[b].instance.0 < log[w].instance.0),
            };
            proof {
                lemma_bytes_lt_irreflexive(wb@);
                assert(!rank_lt(log@[w as int], log@[w as int]));
                match best {
                    Some(b) => {
                        assert(take == rank_lt(log@[b as int], log@[w as int]));
                        if take {
                            assert forall|s: int|
                                0 <= s < t + 1 && passes(prevm, log@[#[trigger] ids@[s] as int].clock@)
                                implies !rank_lt(log@[w as int], log@[ids@[s] as int]) by {
                                if s < t && rank_lt(log@[w as int], log@[ids@[s] as int]) {
                                    lemma_rank_lt_transitive(
                                        log@[b as int],
                                        log@[w as int],
                                        log@[ids@[s] as int],
                                    );
                                }
                            }
                        }
                    },
                    None => {},
                }
            }
            if take {
                best = Some(w);
                best_bytes = wb;
            }
        }
        t = t + 1;
    }
    proof {
        match best {
            None => {
                assert forall|f: usize| #[trigger] ids@.contains(f) implies !passes(
                    prevm,
                    log@[f as int].clock@,
                ) by {
                    let s = choose|s: int| 0 <= s < ids@.len() && ids@[s] == f;
                    assert(!passes(prevm, log@[ids@[s] as int].clock@));
                }
            },
            Some(b) => {
                assert forall|f: usize| #[trigger] ids@.contains(f) && passes(
                    prevm,
                    log@[f as int].clock@,
                ) implies !rank_lt(log@[b as int], log@[f as int]) by {
                    let s = choose|s: int| 0 <= s < ids@.len() && ids@[s] == f;
                    assert(passes(prevm, log@[ids@[s] as int].clock@));
                }
            },
        }
    }
    best
}

/// The clock map an optional clock reference names.
pub open spec fn prev_map(prev: Option<&VectorClock>) -> Option<Map<u64, u64>> {
    match prev {
        Some(p) => Some(p@),
        None => None,
    }
}

/// Set the last-read clock of `key` (replacing entry `prev` if there is one).
fn set_last_read(lr: &mut Vec<LastRead>, key: &[u8], clock: &VectorClock, prev: Option<usize>)
    requires
        forall|t1: int, t2: int|
            0 <= t1 < old(lr)@.len() && 0 <= t2 < old(lr)@.len() && t1 != t2 ==> #[trigger] old(
                lr,
            )@[t1].key@ != #[trigger] old(lr)@[t2].key@,
        match prev {
            Some(pi) => pi < old(lr)@.len() && old(lr)@[pi as int].key@ == key@,
            None => forall|t: int| 0 <= t < old(lr)@.len() ==> old(lr)@[t].key@ != key@,
        },
    ensures
        forall|t1: int, t2: int|
            0 <= t1 < final(lr)@.len() && 0 <= t2 < final(lr)@.len() && t1 != t2
                ==> #[trigger] final(lr)@[t1].key@ != #[trigger] final(lr)@[t2].key@,
        forall|k: Seq<u8>| k != key@ ==> last_read_of(final(lr)@, k) == last_read_of(old(lr)@, k),
        last_read_of(final(lr)@, key@) == Some(clock@),
        forall|t: int|
            0 <= t < final(lr)@.len() ==> (t < old(lr)@.len() && #[trigger] final(lr)@[t]
                == old(lr)@[t]) || (final(lr)@[t].key@ == key@ && final(lr)@[t].clock@ == clock@
                && final(lr)@[t].clock.wf() == clock.wf()),
{
    let ghost lr0 = lr@;
    let entry = LastRead { key: copy_bytes(key), clock: clock.clone() };
    match prev {
        Some(pi) => {
            lr.set(pi, entry);
            assert(lr@ =~= lr0.update(pi as int, lr@[pi as int]));
        },
        None => {
            lr.push(entry);
            assert(lr@.drop_last() =~= lr0);
        },
    }
    proof {
        lemma_last_read_updated(lr0, lr@, key@, prev, clock@);
        assert forall|t: int| 0 <= t < lr@.len() implies (t < lr0.len() && #[trigger] lr@[t]
            == lr0[t]) || (lr@[t].key@ == key@ && lr@[t].clock@ == clock@ && lr@[t].clock.wf()
            == clock.wf()) by {
            if t >= lr0.len() {
                assert(lr@[t] == lr@.last());
            }
        }
    }
}

impl Session {
    /// Prefix closure (causal memory): a write that causally precedes a write the
    /// session has delivered was delivered too, so a session never sees a write
    /// without the writes it was derived from.
    pub proof fn lemma_causally_closed(&self, mem: &CausalMemory, i: int, j: int)
        requires
            self.inv(mem),
            self.delivered_at(i),
            0 <= j < mem.log().len(),
            clock_lt(mem.log()[j].clock@, mem.log()[i].clock@),
        ensures
            self.delivered_at(j),
    {
        let log = mem.log();
        let del = self.delivered@;
        let cj = log[j].instance.0;
        assert(clock_le(log[i].clock@, self.vc@));
        assert(count(log[j].clock@, cj) <= count(log[i].clock@, cj));
        assert(count(log[i].clock@, cj) <= count(self.vc@, cj));
        if j >= del.len() {
            lemma_unseen_not_covered(self.instance.0, self.vc@, del, log, j);
        }
    }

    /// Read-your-writes at `read`: when the session's clock is exactly the clock
    /// of a delivered write (as it is right after the session makes that write),
    /// that write is the only version of its key the session reads.
    pub proof fn lemma_read_your_write(&self, mem: &CausalMemory, i: int)
        requires
            self.inv(mem),
            0 <= i < mem.log().len(),
            i <= usize::MAX,
            self.delivered_at(i),
            self.clock_map() == mem.log()[i].clock@,
        ensures
            self.frontier(mem.log()[i].key@) == seq![i as usize],
    {
        let log = mem.log();
        let key = log[i].key@;
        self.lemma_frontier_exact(mem, key);
        let f = self.frontier(key);
        assert forall|j: int| self.delivered_at(j) implies clock_le(#[trigger] log[j].clock@, log[i].clock@) by {
            assert(self.delivered@[j]);
        }
        assert forall|j: int|
            #![trigger self.delivered_at(j), mem.log()[j]]
            self.delivered_at(j) && mem.log()[j].key@ == key implies !clock_lt(log[i].clock@, log[j].clock@) by {
            if j != i {
                lemma_distinct_clocks(log, i, j);
                if clock_lt(log[i].clock@, log[j].clock@) {
                    assert(clock_le(log[j].clock@, log[i].clock@));
                    let k = choose|k: u64| count(log[i].clock@, k) != count(log[j].clock@, k);
                    assert(count(log[i].clock@, k) <= count(log[j].clock@, k));
                    assert(count(log[j].clock@, k) <= count(log[i].clock@, k));
                }
            }
        }
        assert(self.maximal(mem, key, i));
        assert(f.contains(i as usize));
        assert forall|x: usize| #[trigger] f.contains(x) implies x == i as usize by {
            assert(self.maximal(mem, key, x as int));
            if x as int != i {
                lemma_distinct_clocks(log, x as int, i);
                assert(clock_le(log[x as int].clock@, log[i].clock@));
                let k = choose|k: u64| count(log[x as int].clock@, k) != count(log[i].clock@, k);
                assert(log[x as int].clock@ != log[i].clock@);
                assert(clock_lt(log[x as int].clock@, log[i].clock@));
            }
        }
        if f.len() > 1 {
            assert(f.contains(f[0]) && f.contains(f[1]));
            assert(f[0] != f[1]);
        }
        assert(f =~= seq![i as usize]);
    }

    /// Read-your-writes: every write of the session's own instance in the memory is
    /// delivered to it.
    pub proof fn lemma_own_writes_delivered(&self, mem: &CausalMemory, i: int)
        requires
            self.inv(mem),
            0 <= i < mem.log().len(),
            mem.log()[i].instance.0 == self.instance_id(),
        ensures
            self.delivered_at(i),
    {
    }

    /// Writes appended by other instances leave a session's invariant intact: it
    /// simply has not seen them yet.
    pub proof fn lemma_inv_after_other_writes(&self, mem0: &CausalMemory, mem1: &CausalMemory)
        requires
            self.inv(mem0),
            mem1.wf(),
            mem1.issued().contains(self.instance_id()),
            mem0.log().len() <= mem1.log().len(),
            forall|i: int| 0 <= i < mem0.log().len() ==> mem1.log()[i] == mem0.log()[i],
            forall|i: int|
                mem0.log().len() <= i < mem1.log().len() ==> mem1.log()[i].instance.0
                    != self.instance_id(),
        ensures
            self.inv(mem1),
    {
        let log0 = mem0.log();
        let log1 = mem1.log();
        let del = self.delivered@;
        assert forall|b: u64| #[trigger] count(self.vc@, b) <= n_by(log1, b, del.len() as int) by {
            lemma_n_by_prefix(log0, log1, b, del.len() as int);
        }
        assert forall|i: int| 0 <= i < log1.len() && #[trigger] log1[i].instance.0 == self.instance.0
            implies i < del.len() && del[i] by {
            assert(log1[i] == log0[i]);
        }
        lemma_fr_extend(log0, log1, del, del, self.by_key@);
        lemma_lr_extend(log0, log1, del, del, self.last_read@);
    }
}

/// Convergence: two sessions of one memory that have both delivered every write
/// hold the same frontier (as a set) for every key.
pub proof fn lemma_frontiers_converge(s1: &Session, s2: &Session, mem: &CausalMemory, key: Seq<u8>)
    requires
        s1.inv(mem),
        s2.inv(mem),
        forall|i: int| 0 <= i < mem.log().len() ==> s1.delivered_at(i) && s2.delivered_at(i),
    ensures
        forall|x: usize| #[trigger] s1.frontier(key).contains(x) <==> s2.frontier(key).contains(x),
{
    s1.lemma_frontier_exact(mem, key);
    s2.lemma_frontier_exact(mem, key);
    assert forall|i: int| s1.delivered_at(i) == s2.delivered_at(i) by {}
    assert forall|x: usize| s1.maximal(mem, key, x as int) == s2.maximal(mem, key, x as int) by {}
}

/// Byte strings are totally ordered.
pub proof fn lemma_bytes_lt_total(a: Seq<u8>, b: Seq<u8>)
    ensures
        a == b || bytes_lt(a, b) || bytes_lt(b, a),
    decreases a.len(),
{
    if a.len() == 0 || b.len() == 0 {
        if a.len() == 0 && b.len() == 0 {
            assert(a =~= b);
        }
    } else if a[0] != b[0] {
    } else {
        lemma_bytes_lt_total(a.drop_first(), b.drop_first());
        let (da, db) = (a.drop_first(), b.drop_first());
        if da == db {
            assert(a.len() == da.len() + 1 && b.len() == db.len() + 1);
            assert forall|i: int| 0 <= i < a.len() implies a[i] == b[i] by {
                if i > 0 {
                    assert(a[i] == da[i - 1]);
                    assert(b[i] == db[i - 1]);
                    assert(da[i - 1] == db[i - 1]);
                }
            }
            assert(a =~= b);
        }
    }
}

/// Two distinct writes of a well-formed log are ranked strictly one way or the
/// other: the tiebreak is a total order on the log.
proof fn lemma_rank_total(log: Seq<WriteOp>, i: int, j: int)
    requires
        log_wf(log),
        0 <= i < j < log.len(),
    ensures
        rank_lt(log[i], log[j]) || rank_lt(log[j], log[i]),
{
    let ab = clock_bytes(log[i].clock.sorted_entries());
    let bb = clock_bytes(log[j].clock.sorted_entries());
    lemma_bytes_lt_total(ab, bb);
    if ab == bb {
        assert(log[i].id == i && log[j].id == j);
        lemma_bytes_round_trip(&log[i].clock);
        lemma_bytes_round_trip(&log[j].clock);
        assert(log[i].clock@.dom().len() == log[j].clock@.dom().len());
        assert(log[i].clock@ == log[j].clock@);
        if log[i].instance.0 == log[j].instance.0 {
            let a = log[i].instance.0;
            lemma_n_by_mono(log, a, i + 1, j);
            assert(n_by(log, a, i + 1) == n_by(log, a, i) + 1);
            assert(ordinal(log[i]) == n_by(log, a, i) + 1);
            assert(ordinal(log[j]) == n_by(log, a, j) + 1);
            assert(false);
        }
    }
}

/// Convergence of reads: two sessions of one memory that have both delivered
/// every write, and hold the same last read of `key`, pick the same latest
/// write for `key` (concurrent siblings are broken by one total order).
pub proof fn lemma_read_latest_converges(
    s1: &Session,
    s2: &Session,
    mem: &CausalMemory,
    key: Seq<u8>,
    w1: usize,
    w2: usize,
)
    requires
        s1.inv(mem),
        s2.inv(mem),
        forall|i: int| 0 <= i < mem.log().len() ==> s1.delivered_at(i) && s2.delivered_at(i),
        s1.last_read(key) == s2.last_read(key),
        is_latest(mem.log(), s1.frontier(key), s1.last_read(key), w1),
        is_latest(mem.log(), s2.frontier(key), s2.last_read(key), w2),
    ensures
        w1 == w2,
{
    lemma_frontiers_converge(s1, s2, mem, key);
    s1.lemma_frontier_exact(mem, key);
    let log = mem.log();
    let fr = s1.frontier(key);
    assert(s1.frontier(key).contains(w2));
    assert(s2.frontier(key).contains(w1));
    let i1 = choose|t: int| 0 <= t < fr.len() && fr[t] == w1;
    let i2 = choose|t: int| 0 <= t < fr.len() && fr[t] == w2;
    assert(w1 < log.len() && w2 < log.len());
    if w1 < w2 {
        lemma_rank_total(log, w1 as int, w2 as int);
    } else if w2 < w1 {
        lemma_rank_total(log, w2 as int, w1 as int);
    }
}

} // verus!
