//! The memory stores' indexes and the causal-provenance DAG.

use engram::base::event::{EdgeType, EventType};
use engram::base::ids::{AgentId, MemoryId, SessionId};
use engram::base::records::EpisodicRecord;
use engram::base::time::{MockClock, Timestamp};
use engram::storage::causal::CausalDag;
use engram::storage::common::{mint_id, next_tx, next_tx_at, TxClock};
use engram::storage::episodic::EpisodicIndex;
use engram::storage::error::StorageError;
use engram::storage::procedural::ProceduralIndex;
use engram::storage::semantic::{BeliefInput, DecayCode, SemanticIndex};

#[test]
fn next_tx_is_strictly_monotonic_and_ids_are_unique() {
    let clock = MockClock::new(Timestamp(1_000));
    let mut tc = TxClock::new();
    let a = next_tx(&clock, &mut tc);
    let b = next_tx(&clock, &mut tc);
    assert!(b > a);
    let id1 = mint_id(&mut tc, a);
    let id2 = mint_id(&mut tc, a);
    assert_ne!(id1, id2);
}

#[test]
fn next_tx_follows_the_clock_when_it_is_ahead() {
    let mut tc = TxClock::new();
    assert_eq!(next_tx_at(Timestamp(500), &mut tc), 500);
    assert_eq!(next_tx_at(Timestamp(100), &mut tc), 501);
    assert_eq!(next_tx_at(Timestamp(900), &mut tc), 900);
    let id = mint_id(&mut tc, 3_000_000);
    assert_eq!(id.timestamp_ms(), 3);
    assert_eq!(id.randomness(), 0);
    assert_eq!(mint_id(&mut tc, -5).timestamp_ms(), 0);
}

fn id(n: u128) -> MemoryId {
    MemoryId(n)
}

const T: EdgeType = EdgeType::Triggered;

#[test]
fn effects_and_causes() {
    let mut dag = CausalDag::in_memory();
    dag.add_edge(id(1), id(2), T).unwrap();
    dag.add_edge(id(1), id(3), T).unwrap();
    dag.add_edge(id(4), id(2), EdgeType::Contradicted).unwrap();
    let effects: Vec<u128> = dag.effects_of(id(1)).iter().map(|(m, _)| m.0).collect();
    assert_eq!(effects, vec![2, 3]);
    let causes: Vec<u128> = dag.causes_of(id(2)).iter().map(|(m, _)| m.0).collect();
    assert_eq!(causes, vec![1, 4]);
    assert_eq!(dag.causes_of(id(2))[1].1, EdgeType::Contradicted);
}

#[test]
fn rejects_cycles_and_self_loops() {
    let mut dag = CausalDag::in_memory();
    dag.add_edge(id(1), id(2), T).unwrap();
    dag.add_edge(id(2), id(3), T).unwrap();
    assert!(matches!(dag.add_edge(id(3), id(1), T), Err(StorageError::Cycle { .. })));
    assert!(matches!(dag.add_edge(id(5), id(5), T), Err(StorageError::Cycle { .. })));
    assert_eq!(dag.edge_count(), 2);
    dag.add_edge(id(3), id(4), T).unwrap();
    assert_eq!(dag.edge_count(), 3);
}

#[test]
fn provenance_chain_and_path() {
    let mut dag = CausalDag::in_memory();
    for (a, b) in [(1, 2), (1, 3), (2, 4), (3, 4)] {
        dag.add_edge(id(a), id(b), T).unwrap();
    }
    let mut prov: Vec<u128> = dag.find_provenance_chain(id(4)).iter().map(|m| m.0).collect();
    prov.sort_unstable();
    assert_eq!(prov, vec![1, 2, 3]);
    assert!(dag.find_provenance_chain(id(1)).is_empty());
    let path: Vec<u128> = dag.find_path(id(1), id(4)).unwrap().iter().map(|m| m.0).collect();
    assert_eq!(path.first(), Some(&1));
    assert_eq!(path.last(), Some(&4));
    assert!(dag.find_path(id(4), id(1)).is_none());
    assert_eq!(dag.find_path(id(1), id(1)), Some(vec![id(1)]));
}

#[test]
fn find_path_takes_the_shortest_route() {
    let mut dag = CausalDag::in_memory();
    for (a, b) in [(1, 2), (2, 3), (3, 4), (4, 5), (1, 6), (6, 5), (2, 5)] {
        dag.add_edge(id(a), id(b), T).unwrap();
    }
    let path: Vec<u128> = dag.find_path(id(1), id(5)).unwrap().iter().map(|m| m.0).collect();
    assert_eq!(path.len(), 3);
    assert_eq!(path.first(), Some(&1));
    assert_eq!(path.last(), Some(&5));
    let path: Vec<u128> = dag.find_path(id(3), id(5)).unwrap().iter().map(|m| m.0).collect();
    assert_eq!(path, vec![3, 4, 5]);
}

#[test]
fn provenance_lists_nearer_causes_first() {
    let mut dag = CausalDag::in_memory();
    for (a, b) in [(1, 5), (2, 1), (3, 2), (4, 5), (6, 3)] {
        dag.add_edge(id(a), id(b), T).unwrap();
    }
    let prov: Vec<u128> = dag.find_provenance_chain(id(5)).iter().map(|m| m.0).collect();
    assert_eq!(prov.len(), 5);
    let depth = |x: u128| match x {
        1 | 4 => 1,
        2 => 2,
        3 => 3,
        _ => 4,
    };
    for w in prov.windows(2) {
        assert!(depth(w[0]) <= depth(w[1]));
    }
    assert_eq!(dag.edge_count(), 5);
}

#[test]
fn deep_chain_provenance() {
    let mut dag = CausalDag::in_memory();
    for i in 0..1000u128 {
        dag.add_edge(id(i), id(i + 1), T).unwrap();
    }
    let prov = dag.find_provenance_chain(id(1000));
    assert_eq!(prov.len(), 1000);
    assert_eq!(prov.first().unwrap().0, 999);
    let path = dag.find_path(id(0), id(1000)).unwrap();
    assert_eq!(path.len(), 1001);
}

#[test]
fn dag_stays_acyclic_and_rejects_exactly_cycles() {
    // A fixed pseudo-random sequence of edge additions over 16 nodes: each is
    // refused exactly when it is a self-loop or its source is reachable from
    // its target, and re-adding an existing edge keeps the count.
    let mut dag = CausalDag::in_memory();
    let mut x = 11u64;
    for _ in 0..400 {
        x = x.wrapping_mul(6_364_136_223_846_793_005).wrapping_add(1_442_695_040_888_963_407);
        let from = ((x >> 33) % 16) as u128;
        let to = ((x >> 45) % 16) as u128;
        let expect_reject = from == to || dag.reachable(to, from);
        let before = dag.edge_count();
        let res = dag.add_edge(id(from), id(to), T);
        assert_eq!(res.is_err(), expect_reject, "from={from} to={to}");
        if expect_reject {
            assert_eq!(dag.edge_count(), before);
        }
    }
}

fn event(id: u128, session: u64, valid_ms: i64, causes: Vec<MemoryId>) -> EpisodicRecord {
    EpisodicRecord {
        id: MemoryId(id),
        agent_id: AgentId(1),
        session_id: SessionId(session),
        valid_time: Timestamp::from_millis(valid_ms),
        tx_time: Timestamp(0),
        event_type: EventType::Observation,
        payload: format!("p{id}").into_bytes(),
        cause_ids: causes,
    }
}

#[test]
fn append_get_and_counts() {
    let mut store = EpisodicIndex::new();
    let id = store.append(event(10, 1, 1000, vec![])).unwrap();
    assert_eq!(store.len(), 1);
    assert_eq!(store.get(id).unwrap().payload, b"p10");
    assert!(store.get(MemoryId(999)).is_none());
}

#[test]
fn scan_session_isolates_sessions() {
    let mut store = EpisodicIndex::new();
    for i in 0..30u128 {
        store.append(event(i, (i % 3) as u64, 1000 + i as i64, vec![])).unwrap();
    }
    let s1 = store.scan_session(SessionId(1));
    assert_eq!(s1.len(), 10);
    assert!(s1.iter().all(|r| r.session_id == SessionId(1)));
    assert!(s1.windows(2).all(|w| w[0].id < w[1].id));
}

#[test]
fn scan_time_range_is_half_open_and_exact() {
    let mut store = EpisodicIndex::new();
    for i in 0..100u128 {
        store.append(event(i, 0, 1000 + 10 * i as i64, vec![])).unwrap();
    }
    let slice = store.scan_time_range(Timestamp::from_millis(1100), Timestamp::from_millis(1200));
    let ids: Vec<u128> = slice.iter().map(|r| r.id.0).collect();
    assert_eq!(ids, (10u128..20).collect::<Vec<_>>());
}

#[test]
fn effects_of_follows_causes() {
    let mut store = EpisodicIndex::new();
    let cause = MemoryId(1);
    store.append(event(1, 0, 1000, vec![])).unwrap();
    store.append(event(2, 0, 1001, vec![cause])).unwrap();
    store.append(event(3, 0, 1002, vec![cause])).unwrap();
    store.append(event(4, 0, 1003, vec![MemoryId(99)])).unwrap();
    let effects: Vec<u128> = store.effects_of(cause).iter().map(|r| r.id.0).collect();
    assert_eq!(effects, vec![2, 3]);
}

#[test]
fn duplicate_id_is_rejected_with_no_phantom_index_entries() {
    let mut store = EpisodicIndex::new();
    store.append(event(5, 0, 1000, vec![])).unwrap();
    let err = store.append(event(5, 9, 2000, vec![MemoryId(1)])).unwrap_err();
    assert!(matches!(err, StorageError::Duplicate(MemoryId(5))));
    assert_eq!(store.len(), 1);
    assert!(store.scan_session(SessionId(9)).is_empty());
    assert!(store.effects_of(MemoryId(1)).is_empty());
    assert!(store
        .scan_time_range(Timestamp::from_millis(2000), Timestamp::from_millis(2001))
        .is_empty());
}

#[test]
fn ten_thousand_events_slices_sessions() {
    const BASE_MS: i64 = 1_000_000;
    let mut store = EpisodicIndex::new();
    for i in 0..10_000u128 {
        let mut e = event(i, (i % 16) as u64, BASE_MS + i as i64, vec![]);
        e.payload = format!("event-{i}").into_bytes();
        store.append(e).unwrap();
    }
    assert_eq!(store.len(), 10_000);
    let slice = store.scan_time_range(
        Timestamp::from_millis(BASE_MS + 2500),
        Timestamp::from_millis(BASE_MS + 7500),
    );
    assert_eq!(slice.len(), 5000);
    assert_eq!(slice.first().unwrap().id.0, 2500);
    assert_eq!(slice.last().unwrap().id.0, 7499);
    assert!(slice.windows(2).all(|w| w[0].valid_time <= w[1].valid_time));
    let s3 = store.scan_session(SessionId(3));
    assert_eq!(s3.len(), 625);
    assert!(s3.iter().all(|r| r.session_id == SessionId(3)));
    assert_eq!(store.get(MemoryId(4242)).unwrap().valid_time, Timestamp::from_millis(BASE_MS + 4242));
}

const A: AgentId = AgentId(1);

#[test]
fn versions_chain_via_supersedes() {
    let clock = MockClock::new(Timestamp(0));
    let mut store = ProceduralIndex::new();
    let v1 = store.put_skill(&clock, A, "deploy", b"a".to_vec(), Timestamp(0));
    let v2 = store.put_skill(&clock, A, "deploy", b"ab".to_vec(), Timestamp(0));
    let v3 = store.put_skill(&clock, A, "deploy", b"abc".to_vec(), Timestamp(0));
    let latest = store.latest(A, "deploy").unwrap();
    assert_eq!(latest.version, 3);
    assert_eq!(latest.id, v3);
    assert_eq!(latest.supersedes, Some(v2));
    assert_eq!(store.get_version(A, "deploy", 1).unwrap().id, v1);
    assert_eq!(store.get_version(A, "deploy", 2).unwrap().supersedes, Some(v1));
    assert!(store.get_version(A, "deploy", 99).is_none());
    let history = store.history(A, "deploy");
    assert_eq!(history.len(), 3);
    assert!(history.windows(2).all(|w| w[0].version < w[1].version));
    assert_eq!(store.version_count(), 3);
}

#[test]
fn skills_are_isolated_by_name_and_agent() {
    let clock = MockClock::new(Timestamp(0));
    let mut store = ProceduralIndex::new();
    store.put_skill(&clock, A, "deploy", b"x".to_vec(), Timestamp(0));
    store.put_skill(&clock, A, "rollback", b"y".to_vec(), Timestamp(0));
    store.put_skill(&clock, AgentId(2), "deploy", b"z".to_vec(), Timestamp(0));
    assert_eq!(store.latest(A, "deploy").unwrap().version, 1);
    assert_eq!(store.latest(A, "rollback").unwrap().version, 1);
    assert_eq!(store.latest(AgentId(2), "deploy").unwrap().steps, b"z");
    assert!(store.latest(A, "missing").is_none());
}

#[test]
fn procedural_resume_continues_the_chain() {
    // Replaying recorded versions into fresh indexes continues the chain and
    // the transaction clock after them.
    let clock = MockClock::new(Timestamp(5_000_000));
    let mut store = ProceduralIndex::new();
    for v in 0..5 {
        store.put_skill(&clock, A, "deploy", format!("v{v}").into_bytes(), Timestamp(0));
    }
    let mut replay = ProceduralIndex::new();
    for r in store.history(A, "deploy") {
        replay.index(r);
    }
    replay.resume_clock();
    assert_eq!(replay.history(A, "deploy").len(), 5);
    assert_eq!(replay.latest(A, "deploy").unwrap().version, 5);
    let v6 = replay.put_skill(&clock, A, "deploy", b"v5".to_vec(), Timestamp(0));
    let latest = replay.latest(A, "deploy").unwrap();
    assert_eq!(latest.version, 6);
    assert_eq!(replay.get_by_id(v6).unwrap().version, 6);
    assert!(latest.tx_from > store.latest(A, "deploy").unwrap().tx_from);
    assert_ne!(v6, store.latest(A, "deploy").unwrap().id);
}

const DAY_NS: i64 = 86_400 * 1_000_000_000;

fn input(object: &[u8], valid_ms: i64) -> BeliefInput {
    BeliefInput {
        agent_id: AgentId(1),
        subject: "user".into(),
        predicate: "tone".into(),
        object: object.to_vec(),
        valid_from: Timestamp::from_millis(valid_ms),
        confidence_init_bits: 0.9f32.to_bits(),
        decay: DecayCode::Constant,
        provenance_ids: vec![],
    }
}

#[test]
fn upsert_then_current() {
    let clock = MockClock::new(Timestamp(1));
    let mut store = SemanticIndex::new();
    store.upsert_belief(&clock, input(b"formal", 0));
    let (_, view) = store.current(&clock, "user", "tone");
    let view = view.unwrap();
    assert_eq!(view.object, b"formal");
    assert!((f32::from_bits(view.confidence_init_bits) - 0.9).abs() < 1e-6);
    assert_eq!(view.decay, DecayCode::Constant);
    assert!(store.current(&clock, "user", "missing").1.is_none());
}

#[test]
fn ten_edits_keep_all_versions_and_time_travel() {
    let mut clock = MockClock::new(Timestamp(1000 * DAY_NS));
    let mut store = SemanticIndex::new();
    let mut tx_points = Vec::new();
    for v in 0..10u32 {
        let (id, written, closed) =
            store.upsert_belief(&clock, input(format!("v{v}").as_bytes(), 1000 * DAY_NS / 1_000_000));
        assert_eq!(written.id, id);
        assert_eq!(written.object, format!("v{v}").into_bytes());
        assert_eq!(closed.is_some(), v > 0);
        let rec = store.get_by_id(id).unwrap();
        tx_points.push(rec.tx_from);
        clock.advance(DAY_NS);
    }
    let history = store.history("user", "tone");
    assert_eq!(history.len(), 10);
    assert_eq!(history[0].object, b"v0");
    assert_eq!(history[9].object, b"v9");
    for (v, tx) in tx_points.iter().enumerate() {
        let rec = store.get_at_tx("user", "tone", *tx).unwrap();
        assert_eq!(rec.object, format!("v{v}").into_bytes());
    }
    assert_eq!(store.current(&clock, "user", "tone").1.unwrap().object, b"v9");
    // Every version but the last was closed when its successor was recorded.
    assert!(history[..9].iter().zip(&history[1..]).all(|(a, b)| a.tx_until == Some(b.tx_from)));
    assert_eq!(history[9].tx_until, None);
    assert_eq!(store.version_count(), 10);
}

#[test]
fn retract_hides_current_but_keeps_history() {
    let mut clock = MockClock::new(Timestamp(1000 * DAY_NS));
    let mut store = SemanticIndex::new();
    let id = store.upsert_belief(&clock, input(b"formal", 0)).0;
    let created_tx = store.get_by_id(id).unwrap().tx_from;
    clock.advance(DAY_NS);
    assert!(store.retract_belief(&clock, "user", "tone").is_some());
    assert!(store.current(&clock, "user", "tone").1.is_none());
    assert_eq!(store.get_at_tx("user", "tone", created_tx).unwrap().object, b"formal");
    assert!(store.retract_belief(&clock, "user", "tone").is_none());
    let closed = &store.history("user", "tone")[0];
    assert_eq!(closed.valid_until, closed.tx_until);
}

#[test]
fn reopen_after_retract_keeps_tx_time_monotonic() {
    let mut clock = MockClock::new(Timestamp(100 * DAY_NS));
    let mut store = SemanticIndex::new();
    store.upsert_belief(&clock, input(b"v0", 0));
    clock.advance(100 * DAY_NS);
    assert!(store.retract_belief(&clock, "user", "tone").is_some());
    let history = store.history("user", "tone");
    let closed_tx = history[0].tx_until.unwrap();

    let mut reopened = SemanticIndex::new();
    for r in history {
        reopened.index(r);
    }
    reopened.resume_clock();
    let rewound = MockClock::new(Timestamp(150 * DAY_NS));
    let id = reopened.upsert_belief(&rewound, input(b"v1", 0)).0;
    let new_tx = reopened.get_by_id(id).unwrap().tx_from;
    assert!(new_tx.0 > closed_tx.0);
}

#[test]
fn many_beliefs_are_found_whatever_their_insertion_order() {
    let mut clock = MockClock::new(Timestamp(1_000_000));
    let mut store = SemanticIndex::new();
    let subjects: Vec<String> = (0..40u32).map(|i| format!("s{}", (i * 17) % 40)).collect();
    for (n, s) in subjects.iter().enumerate() {
        for p in ["b", "a"] {
            let mut inp = input(format!("{s}/{p}/{n}").as_bytes(), 0);
            inp.subject = s.clone();
            inp.predicate = p.into();
            store.upsert_belief(&clock, inp);
            clock.advance(1_000);
        }
    }
    for (n, s) in subjects.iter().enumerate() {
        for p in ["a", "b"] {
            let view = store.current(&clock, s, p).1.unwrap();
            assert_eq!(view.object, format!("{s}/{p}/{n}").into_bytes());
        }
        assert!(store.current(&clock, s, "c").1.is_none());
    }
}

#[test]
fn many_skills_are_found_whatever_their_insertion_order() {
    let clock = MockClock::new(Timestamp(0));
    let mut store = ProceduralIndex::new();
    let names: Vec<String> = (0..30u32).map(|i| format!("skill-{}", (i * 7) % 30)).collect();
    for n in &names {
        store.put_skill(&clock, A, n, n.clone().into_bytes(), Timestamp(0));
    }
    for n in &names {
        assert_eq!(store.latest(A, n).unwrap().steps, n.clone().into_bytes());
    }
    assert!(store.latest(A, "skill-30").is_none());
}

#[test]
fn upsert_stamps_the_clock_reading_or_one_past_the_last() {
    let mut clock = MockClock::new(Timestamp(500));
    let mut store = SemanticIndex::new();
    let (_, first, _) = store.upsert_belief(&clock, input(b"a", 0));
    assert_eq!(first.tx_from, Timestamp(500));
    let (_, second, _) = store.upsert_belief(&clock, input(b"b", 0));
    assert_eq!(second.tx_from, Timestamp(501));
    clock.advance(1_000);
    let (_, third, _) = store.upsert_belief(&clock, input(b"c", 0));
    assert_eq!(third.tx_from, Timestamp(1_500));
    let closed = store.retract_belief(&clock, "user", "tone").unwrap();
    assert_eq!(closed.tx_until, Some(Timestamp(1_501)));
}

#[test]
fn writes_in_one_millisecond_get_distinct_ids() {
    let clock = MockClock::new(Timestamp(7_000_000));
    let mut store = SemanticIndex::new();
    let mut ids = Vec::new();
    for v in 0..50u32 {
        let (id, _, _) = store.upsert_belief(&clock, input(format!("v{v}").as_bytes(), 0));
        ids.push(id);
        assert_eq!(store.version_count(), v as usize + 1);
    }
    let mut sorted = ids.clone();
    sorted.sort();
    sorted.dedup();
    assert_eq!(sorted.len(), 50);
    let mut skills = ProceduralIndex::new();
    let a = skills.put_skill(&clock, AgentId(1), "deploy", b"x".to_vec(), Timestamp(0));
    let b = skills.put_skill(&clock, AgentId(1), "deploy", b"y".to_vec(), Timestamp(0));
    assert_ne!(a, b);
    assert_eq!(skills.version_count(), 2);
}
