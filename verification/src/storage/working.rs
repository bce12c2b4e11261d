//! The working memory store: a bounded FIFO scratchpad.
//!
//! Working memory is the agent's short-term scratchpad: small, fast and
//! ephemeral (no WAL). It holds at most [`capacity`](WorkingMemory::capacity)
//! entries; pushing beyond that evicts the oldest entry. Eviction is the hand-off
//! point to consolidation: the evicted entry is both returned from
//! [`push`](WorkingMemory::push) and passed to the memory's eviction hook.

use std::collections::VecDeque;
use vstd::prelude::*;

use crate::base::ids::MemoryId;
use crate::base::records::WorkingMemoryRecord;
use crate::consistency::acc::copy_bytes;

verus! {

/// The default working-memory capacity.
pub const DEFAULT_CAPACITY: usize = 50;

/// A consolidation hook, invoked with each evicted entry.
pub trait EvictionHook {
    /// Called with the entry a push evicted.
    fn on_evict(&self, evicted: &WorkingMemoryRecord);
}

/// The hook of a working memory created without one: eviction does nothing more.
#[derive(Debug)]
pub struct NoHook;

impl EvictionHook for NoHook {
    fn on_evict(&self, evicted: &WorkingMemoryRecord) {
    }
}

/// Two records agree field by field.
pub open spec fn same_record(a: WorkingMemoryRecord, b: WorkingMemoryRecord) -> bool {
    &&& a.id == b.id
    &&& a.agent_id == b.agent_id
    &&& a.session_id == b.session_id
    &&& a.created == b.created
    &&& a.payload@ == b.payload@
}

/// A field-by-field copy of a record.
pub fn copy_record(r: &WorkingMemoryRecord) -> (c: WorkingMemoryRecord)
    ensures
        same_record(c, *r),
{
    WorkingMemoryRecord {
        id: r.id,
        agent_id: r.agent_id,
        session_id: r.session_id,
        created: r.created,
        payload: copy_bytes(r.payload.as_slice()),
    }
}

/// A bounded FIFO scratchpad.
pub struct WorkingMemory<H> {
    capacity: usize,
    items: VecDeque<WorkingMemoryRecord>,
    on_evict: Option<H>,
}

impl<H> WorkingMemory<H> {
    #[verifier::type_invariant]
    spec fn inv(self) -> bool {
        self.items@.len() <= self.capacity
    }

    /// The entries currently held, oldest first.
    pub closed spec fn entries(&self) -> Seq<WorkingMemoryRecord> {
        self.items@
    }

    /// The maximum number of entries retained.
    pub closed spec fn cap(&self) -> usize {
        self.capacity
    }

    /// The consolidation hook, if the memory has one.
    pub closed spec fn hook(&self) -> Option<H> {
        self.on_evict
    }
}

impl WorkingMemory<NoHook> {
    /// Create a working memory bounded to `capacity` entries.
    pub fn new(capacity: usize) -> (wm: Self)
        ensures
            wm.cap() == capacity,
            wm.entries() == Seq::<WorkingMemoryRecord>::empty(),
            wm.hook() is None,
    {
        WorkingMemory { capacity, items: VecDeque::new(), on_evict: None }
    }
}

impl Default for WorkingMemory<NoHook> {
    fn default() -> (wm: Self)
        ensures
            wm.cap() == DEFAULT_CAPACITY,
            wm.entries() == Seq::<WorkingMemoryRecord>::empty(),
            wm.hook() is None,
    {
        Self::new(DEFAULT_CAPACITY)
    }
}

impl<H: EvictionHook> WorkingMemory<H> {
    /// Create a working memory with a consolidation hook called on each eviction.
    pub fn with_hook(capacity: usize, hook: H) -> (wm: Self)
        ensures
            wm.cap() == capacity,
            wm.entries() == Seq::<WorkingMemoryRecord>::empty(),
            wm.hook() == Some(hook),
    {
        WorkingMemory { capacity, items: VecDeque::new(), on_evict: Some(hook) }
    }

    /// Push an entry. If this exceeds the capacity, the oldest entry is evicted,
    /// passed to the consolidation hook (if any), and returned.
    pub fn push(&mut self, record: WorkingMemoryRecord) -> (evicted: Option<WorkingMemoryRecord>)
        ensures
            final(self).cap() == old(self).cap(),
            final(self).entries().len() <= final(self).cap(),
            old(self).entries().len() < old(self).cap() ==> final(self).entries() == old(
                self,
            ).entries().push(record) && evicted is None,
            old(self).entries().len() >= old(self).cap() ==> final(self).entries() == old(
                self,
            ).entries().push(record).drop_first() && evicted == Some(
                old(self).entries().push(record)[0],
            ),
            final(self).hook() == old(self).hook(),
            evicted matches Some(e) ==> (old(self).hook() matches Some(h) ==> call_ensures(
                H::on_evict,
                (&h, &e),
                (),
            )),
    {
        proof {
            use_type_invariant(&*self);
        }
        let mut items = VecDeque::new();
        std::mem::swap(&mut items, &mut self.items);
        let ghost before = items@;
        items.push_back(record);
        let evicted = if items.len() > self.capacity {
            let e = items.pop_front();
            proof {
                assert(items@ =~= before.push(record).drop_first());
            }
            e
        } else {
            None
        };
        self.items = items;
        match (&evicted, &self.on_evict) {
            (Some(e), Some(hook)) => {
                hook.on_evict(e);
            },
            _ => {},
        }
        evicted
    }

    /// A copy of the current entries, oldest first.
    pub fn items(&self) -> (v: Vec<WorkingMemoryRecord>)
        ensures
            v@.len() == self.entries().len(),
            forall|i: int| 0 <= i < v@.len() ==> same_record(#[trigger] v@[i], self.entries()[i]),
    {
        let mut v: Vec<WorkingMemoryRecord> = Vec::new();
        let mut i: usize = 0;
        while i < self.items.len()
            invariant
                i <= self.items@.len(),
                v@.len() == i,
                forall|j: int| 0 <= j < i ==> same_record(#[trigger] v@[j], self.items@[j]),
            decreases self.items@.len() - i,
        {
            v.push(copy_record(&self.items[i]));
            i = i + 1;
        }
        v
    }

    /// The ids of the current entries, oldest first.
    pub fn ids(&self) -> (v: Vec<MemoryId>)
        ensures
            v@.len() == self.entries().len(),
            forall|i: int| 0 <= i < v@.len() ==> #[trigger] v@[i] == self.entries()[i].id,
    {
        let mut v: Vec<MemoryId> = Vec::new();
        let mut i: usize = 0;
        while i < self.items.len()
            invariant
                i <= self.items@.len(),
                v@.len() == i,
                forall|j: int| 0 <= j < i ==> #[trigger] v@[j] == self.items@[j].id,
            decreases self.items@.len() - i,
        {
            v.push(self.items[i].id);
            i = i + 1;
        }
        v
    }

    /// The number of entries currently held.
    pub fn len(&self) -> (n: usize)
        ensures
            n == self.entries().len(),
            n <= self.cap(),
    {
        proof {
            use_type_invariant(self);
        }
        self.items.len()
    }

    /// Whether the scratchpad is empty.
    pub fn is_empty(&self) -> (b: bool)
        ensures
            b == (self.entries().len() == 0),
    {
        self.items.len() == 0
    }

    /// The maximum number of entries retained.
    pub fn capacity(&self) -> (c: usize)
        ensures
            c == self.cap(),
    {
        self.capacity
    }

    /// Drop all entries (without invoking the hook).
    pub fn clear(&mut self)
        ensures
            final(self).cap() == old(self).cap(),
            final(self).entries() == Seq::<WorkingMemoryRecord>::empty(),
    {
        let mut items = VecDeque::new();
        std::mem::swap(&mut items, &mut self.items);
        items.clear();
        self.items = items;
    }
}

} // verus!
