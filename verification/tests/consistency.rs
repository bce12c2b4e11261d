//! Vector clocks and causally consistent sessions.

use engram::base::ids::AgentInstanceId;
use engram::consistency::acc::CausalMemory;
use engram::consistency::vector_clock::{VectorClock, BYTES_PER_SLOT};

fn i(n: u64) -> AgentInstanceId {
    AgentInstanceId(n)
}

#[test]
fn read_your_writes() {
    let mut mem = CausalMemory::new();
    let mut a = mem.session(i(1));
    a.write(&mut mem, b"k", b"v1");
    assert_eq!(a.read_latest(&mem, b"k"), Some(b"v1".to_vec()));
    a.write(&mut mem, b"k", b"v2");
    assert_eq!(a.read_latest(&mem, b"k"), Some(b"v2".to_vec()));
}

#[test]
fn causal_delivery_respects_dependencies() {
    let mut mem = CausalMemory::new();
    let mut a = mem.session(i(1));
    let mut b = mem.session(i(2));
    let mut c = mem.session(i(3));

    a.write(&mut mem, b"svc", b"down");
    b.refresh(&mem);
    b.write(&mut mem, b"action", b"restart");

    c.refresh(&mem);
    assert_eq!(c.read_latest(&mem, b"action"), Some(b"restart".to_vec()));
    assert_eq!(c.read_latest(&mem, b"svc"), Some(b"down".to_vec()));
}

#[test]
fn concurrent_writes_are_siblings_then_converge() {
    let mut mem = CausalMemory::new();
    let mut a = mem.session(i(1));
    let mut b = mem.session(i(2));
    a.write(&mut mem, b"k", b"from-a");
    b.write(&mut mem, b"k", b"from-b");
    a.refresh(&mem);
    b.refresh(&mem);
    let mut sa = a.read(&mem, b"k");
    let mut sb = b.read(&mem, b"k");
    sa.sort();
    sb.sort();
    assert_eq!(sa, vec![b"from-a".to_vec(), b"from-b".to_vec()]);
    assert_eq!(sa, sb);
    assert_eq!(a.read_latest(&mem, b"k"), b.read_latest(&mem, b"k"));
}

#[test]
fn metadata_is_one_clock_per_op() {
    let mut mem = CausalMemory::new();
    let mut a = mem.session(i(1));
    let mut b = mem.session(i(2));
    a.write(&mut mem, b"k", b"v");
    b.refresh(&mem);
    let op = b.write(&mut mem, b"k", b"w");
    assert_eq!(op.metadata_bytes(), 2 * BYTES_PER_SLOT);
}

#[test]
fn read_latest_is_monotonic_across_concurrent_siblings() {
    let mut mem = CausalMemory::new();
    let mut a = mem.session(i(1));
    let mut s = mem.session(i(9));
    a.write(&mut mem, b"k", b"from-a");
    s.refresh(&mem);
    assert_eq!(s.read_latest(&mem, b"k"), Some(b"from-a".to_vec()));

    let mut b = mem.session(i(2));
    b.write(&mut mem, b"k", b"from-b");
    s.refresh(&mem);
    let mut siblings = s.read(&mem, b"k");
    siblings.sort();
    assert_eq!(siblings, vec![b"from-a".to_vec(), b"from-b".to_vec()]);
    assert_eq!(s.read_latest(&mem, b"k"), Some(b"from-a".to_vec()));
}

#[test]
fn read_latest_advances_on_causally_later_write() {
    let mut mem = CausalMemory::new();
    let mut a = mem.session(i(1));
    let mut s = mem.session(i(9));
    a.write(&mut mem, b"k", b"v1");
    s.refresh(&mem);
    assert_eq!(s.read_latest(&mem, b"k"), Some(b"v1".to_vec()));
    a.write(&mut mem, b"k", b"v2");
    s.refresh(&mem);
    assert_eq!(s.read_latest(&mem, b"k"), Some(b"v2".to_vec()));
}

#[test]
fn acc_invariants_hold_on_a_fixed_history() {
    // Three instances interleave writes and refreshes; afterwards every session
    // has its own writes, every delivered op's ancestors, and (once refreshed to
    // a fixpoint) every op.
    let mut mem = CausalMemory::new();
    let mut sessions = vec![mem.session(i(1)), mem.session(i(2)), mem.session(i(3))];
    let steps: [(usize, Option<(u8, u8)>); 9] = [
        (0, Some((1, 1))),
        (1, None),
        (1, Some((1, 2))),
        (2, Some((2, 3))),
        (0, None),
        (2, None),
        (0, Some((3, 4))),
        (1, Some((2, 5))),
        (2, None),
    ];
    let mut prev = vec![0usize; 3];
    for (idx, op) in steps {
        match op {
            Some((k, v)) => {
                sessions[idx].write(&mut mem, &[k], &[v]);
            }
            None => {
                sessions[idx].refresh(&mem);
            }
        }
        let count = sessions[idx].delivered_count();
        assert!(count >= prev[idx]);
        prev[idx] = count;
    }
    for s in sessions.iter_mut() {
        while s.refresh(&mem) > 0 {}
    }
    let log = mem.ops();
    for s in &sessions {
        for op in &log {
            if op.instance == s.instance() {
                assert!(s.is_delivered(op.id));
            }
            if s.is_delivered(op.id) {
                for dep in &log {
                    if dep.clock.happens_before(&op.clock) {
                        assert!(s.is_delivered(dep.id));
                    }
                }
            }
        }
        assert_eq!(s.delivered_count(), log.len());
    }
}

fn inst(n: u64) -> AgentInstanceId {
    AgentInstanceId(n)
}

#[test]
fn increment_and_get() {
    let mut c = VectorClock::new();
    assert_eq!(c.get(inst(1)), 0);
    assert_eq!(c.increment(inst(1)), 1);
    assert_eq!(c.increment(inst(1)), 2);
    assert_eq!(c.get(inst(1)), 2);
    assert_eq!(c.len(), 1);
}

#[test]
fn happens_before_and_concurrent() {
    let mut a = VectorClock::new();
    a.increment(inst(1));
    let mut b = a.clone();
    b.increment(inst(2));
    assert!(a.happens_before(&b));
    assert!(!b.happens_before(&a));
    assert!(!a.concurrent_with(&b));

    let mut c = VectorClock::new();
    c.increment(inst(2));
    assert!(a.concurrent_with(&c));
    assert!(!a.happens_before(&c));
    assert!(!c.happens_before(&a));
}

#[test]
fn merge_is_least_upper_bound() {
    let mut a = VectorClock::from_counts(&[(inst(1), 3), (inst(2), 1)]);
    let b = VectorClock::from_counts(&[(inst(2), 5), (inst(3), 2)]);
    a.merge(&b);
    assert_eq!(a.get(inst(1)), 3);
    assert_eq!(a.get(inst(2)), 5);
    assert_eq!(a.get(inst(3)), 2);
}

#[test]
fn merge_is_commutative_and_idempotent() {
    let a = VectorClock::from_counts(&[(inst(1), 3), (inst(4), 1)]);
    let b = VectorClock::from_counts(&[(inst(2), 5), (inst(4), 2)]);
    assert_eq!(a.merged(&b), b.merged(&a));
    assert_eq!(a.merged(&a), a);
    assert!(a.happens_before(&a.merged(&b)));
}

#[test]
fn zero_counters_are_normalized_away() {
    let c = VectorClock::from_counts(&[(inst(1), 0), (inst(2), 4)]);
    assert_eq!(c.len(), 1);
    assert_eq!(c, VectorClock::from_counts(&[(inst(2), 4)]));
}

#[test]
fn bytes_round_trip_and_size() {
    let c = VectorClock::from_counts(&[(inst(7), 100), (inst(3), 9), (inst(42), 1)]);
    let bytes = c.to_bytes();
    assert_eq!(bytes.len(), 3 * BYTES_PER_SLOT);
    assert_eq!(VectorClock::from_bytes(&bytes), Some(c));
    assert_eq!(VectorClock::from_bytes(&[0u8; 7]), None);
}

#[test]
fn clock_bytes_are_sorted_big_endian_pairs() {
    let c = VectorClock::from_counts(&[(inst(2), 1), (inst(1), 258)]);
    let bytes = c.to_bytes();
    let mut want = Vec::new();
    want.extend_from_slice(&1u64.to_be_bytes());
    want.extend_from_slice(&258u64.to_be_bytes());
    want.extend_from_slice(&2u64.to_be_bytes());
    want.extend_from_slice(&1u64.to_be_bytes());
    assert_eq!(bytes, want);
    // A zero counter decodes to no entry.
    let mut zero = Vec::new();
    zero.extend_from_slice(&1u64.to_be_bytes());
    zero.extend_from_slice(&0u64.to_be_bytes());
    assert_eq!(VectorClock::from_bytes(&zero), Some(VectorClock::new()));
}

#[test]
fn iter_lists_nonzero_entries_in_instance_order() {
    let c = VectorClock::from_counts(&[(inst(9), 2), (inst(3), 1)]);
    assert_eq!(c.iter(), vec![(inst(3), 1), (inst(9), 2)]);
    assert!(!c.is_empty());
    assert!(VectorClock::new().is_empty());
}

#[test]
fn read_after_own_write_sees_only_that_write() {
    let mut mem = CausalMemory::new();
    let mut a = mem.session(i(1));
    let mut b = mem.session(i(2));
    b.write(&mut mem, b"k", b"theirs");
    a.write(&mut mem, b"k", b"concurrent");
    a.refresh(&mem);
    assert_eq!(a.read(&mem, b"k").len(), 2);
    a.write(&mut mem, b"k", b"mine");
    assert_eq!(a.read(&mem, b"k"), vec![b"mine".to_vec()]);
}
