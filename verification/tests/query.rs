//! Consolidation signals and the REST error mapping.

use engram::base::event::EventType;
use engram::base::ids::{AgentId, MemoryId, SessionId};
use engram::base::records::EpisodicRecord;
use engram::base::time::Timestamp;
use engram::query::consolidation::{
    extract_signal, promote, trim, FieldSignalExtractor, Promotion, Signal, SignalExtractor,
};
use engram::server::ApiError;

fn event(payload: &[u8]) -> EpisodicRecord {
    EpisodicRecord {
        id: MemoryId(1),
        agent_id: AgentId(1),
        session_id: SessionId(1),
        valid_time: Timestamp(1),
        tx_time: Timestamp(0),
        event_type: EventType::Message,
        payload: payload.to_vec(),
        cause_ids: vec![],
    }
}

fn sig(s: &str, p: &str, o: &str) -> Signal {
    Signal { subject: s.into(), predicate: p.into(), object: o.into() }
}

#[test]
fn field_extractor_reads_tab_separated_triples() {
    let x = FieldSignalExtractor;
    assert_eq!(
        x.extract(&event(b"user\tresponse_length\tconcise")),
        Some(sig("user", "response_length", "concise"))
    );
    assert_eq!(x.extract(&event(b"  user \t tone\t formal  ")), Some(sig("user", "tone", "formal")));
    assert_eq!(x.extract(&event(b"unstructured noise")), None);
    assert_eq!(x.extract(&event(b"a\tb")), None);
    assert_eq!(x.extract(&event(b"a\tb\tc\td")), None);
    assert_eq!(x.extract(&event(b"a\t \tc")), None);
    assert_eq!(x.extract(&event(&[0xff, 0x09, 0x61, 0x09, 0x62])), None);
}

#[test]
fn extraction_agrees_with_std_splitting() {
    for payload in ["s\tp\to", "\u{3000}s\u{00a0}\tp\to\u{2003}", "s\t\tp", "\t\t", "x\ty\tz\t", "é\tü\t語"] {
        let want = (|| {
            let mut parts = payload.split('\t');
            let (s, p, o) = (parts.next()?.trim(), parts.next()?.trim(), parts.next()?.trim());
            if parts.next().is_some() || s.is_empty() || p.is_empty() || o.is_empty() {
                return None;
            }
            Some(sig(s, p, o))
        })();
        assert_eq!(extract_signal(payload.as_bytes()), want, "{payload:?}");
    }
}

#[test]
fn trim_matches_std() {
    for s in ["", "   ", " a ", "\u{2028}x y\u{205f}", "a\u{200b}", "\n\tq\r"] {
        assert_eq!(trim(s), s.trim());
    }
}

#[test]
fn api_errors_map_to_statuses() {
    assert_eq!(ApiError::NotFound.status(), 404);
    assert_eq!(ApiError::NotFound.message(), "not found");
    assert_eq!(ApiError::BadRequest("bad".into()).status(), 400);
    assert_eq!(ApiError::BadRequest("bad".into()).message(), "bad");
    assert_eq!(ApiError::Internal("boom".into()).status(), 500);
    assert_eq!(ApiError::Internal("boom".into()).message(), "boom");
}

fn signals(payloads: &[(u128, &str)]) -> Vec<(Signal, MemoryId)> {
    let x = FieldSignalExtractor;
    let mut out = Vec::new();
    for (id, text) in payloads {
        let mut e = event(text.as_bytes());
        e.id = MemoryId(*id);
        if let Some(s) = x.extract(&e) {
            out.push((s, e.id));
        }
    }
    out
}

fn triple(p: &Promotion) -> (&str, &str, &str) {
    (p.subject.as_str(), p.predicate.as_str(), p.object.as_str())
}

#[test]
fn promotion_keeps_dominant_object_and_its_provenance() {
    let mut payloads = Vec::new();
    for i in 0..20u128 {
        payloads.push((i, "user\tresponse_length\tconcise"));
    }
    for i in 20..23u128 {
        payloads.push((i, "user\tresponse_length\tverbose"));
    }
    for i in 23..28u128 {
        payloads.push((i, "unstructured noise"));
    }
    let out = promote(&signals(&payloads), 3);
    assert_eq!(out.len(), 1);
    assert_eq!(triple(&out[0]), ("user", "response_length", "concise"));
    let expected: Vec<MemoryId> = (0..20u128).map(MemoryId).collect();
    assert_eq!(out[0].provenance, expected);
}

#[test]
fn promotion_below_threshold_is_empty() {
    let out = promote(&signals(&[(1, "a\tb\tc"), (2, "a\tb\tc")]), 3);
    assert!(out.is_empty());
    let out = promote(&signals(&[(1, "a\tb\tc"), (2, "a\tb\tc")]), 2);
    assert_eq!(out.len(), 1);
    assert_eq!(out[0].provenance, vec![MemoryId(1), MemoryId(2)]);
}

#[test]
fn promotion_tie_goes_to_the_smallest_object() {
    let out = promote(&signals(&[(1, "u\tp\tzeta"), (2, "u\tp\talpha"), (3, "u\tp\tzeta"), (4, "u\tp\talpha")]), 1);
    assert_eq!(out.len(), 1);
    assert_eq!(triple(&out[0]), ("u", "p", "alpha"));
    assert_eq!(out[0].provenance, vec![MemoryId(2), MemoryId(4)]);
}

#[test]
fn promotions_are_sorted_by_subject_then_predicate() {
    let out = promote(
        &signals(&[(1, "user\ttone\tformal"), (2, "agent\tmood\tcalm"), (3, "user\tlength\tshort"), (4, "agent\tage\tnew")]),
        1,
    );
    let keys: Vec<(&str, &str)> = out.iter().map(|p| (p.subject.as_str(), p.predicate.as_str())).collect();
    assert_eq!(keys, vec![("agent", "age"), ("agent", "mood"), ("user", "length"), ("user", "tone")]);
}
