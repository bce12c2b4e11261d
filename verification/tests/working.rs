//! The bounded working-memory scratchpad.

use std::cell::Cell;
use std::rc::Rc;

use engram::base::ids::{AgentId, MemoryId, SessionId};
use engram::base::records::WorkingMemoryRecord;
use engram::base::time::Timestamp;
use engram::storage::working::{EvictionHook, WorkingMemory};

fn rec(n: u128) -> WorkingMemoryRecord {
    WorkingMemoryRecord {
        id: MemoryId(n),
        agent_id: AgentId(1),
        session_id: SessionId(1),
        created: Timestamp(n as i64),
        payload: vec![n as u8],
    }
}

#[test]
fn default_capacity_is_50() {
    assert_eq!(WorkingMemory::default().capacity(), 50);
}

#[test]
fn fifo_eviction_when_full() {
    let mut wm = WorkingMemory::new(3);
    assert_eq!(wm.push(rec(1)), None);
    assert_eq!(wm.push(rec(2)), None);
    assert_eq!(wm.push(rec(3)), None);
    assert_eq!(wm.len(), 3);
    assert_eq!(wm.push(rec(4)).map(|r| r.id), Some(MemoryId(1)));
    assert_eq!(wm.ids(), vec![MemoryId(2), MemoryId(3), MemoryId(4)]);
    assert_eq!(wm.push(rec(5)).map(|r| r.id), Some(MemoryId(2)));
    assert_eq!(wm.ids(), vec![MemoryId(3), MemoryId(4), MemoryId(5)]);
}

struct Counter {
    seen: Rc<Cell<usize>>,
}

impl EvictionHook for Counter {
    fn on_evict(&self, evicted: &WorkingMemoryRecord) {
        assert!(evicted.id.0 <= 3);
        self.seen.set(self.seen.get() + 1);
    }
}

#[test]
fn eviction_invokes_consolidation_hook() {
    let consolidated = Rc::new(Cell::new(0usize));
    let mut wm = WorkingMemory::with_hook(2, Counter { seen: Rc::clone(&consolidated) });
    for n in 1..=5 {
        wm.push(rec(n));
    }
    assert_eq!(consolidated.get(), 3);
    assert_eq!(wm.ids(), vec![MemoryId(4), MemoryId(5)]);
}

#[test]
fn clear_and_empty() {
    let mut wm = WorkingMemory::new(4);
    wm.push(rec(1));
    wm.push(rec(2));
    assert!(!wm.is_empty());
    wm.clear();
    assert!(wm.is_empty());
    assert_eq!(wm.ids(), vec![]);
}

#[test]
fn items_are_oldest_first() {
    let mut wm = WorkingMemory::new(2);
    wm.push(rec(7));
    wm.push(rec(8));
    let items = wm.items();
    assert_eq!(items, vec![rec(7), rec(8)]);
}
