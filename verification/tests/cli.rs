//! The command line's decisions: what an argument list asks for, and the exit
//! code of an invocation.

use engram::base::event::EventType;
use engram::base::ids::MemoryId;
use engram::cli::{exit_code, help_text, parse_args, parse_event_type, parse_i64, parse_u64, Command, UsageError};

fn args(a: &[&str]) -> Vec<String> {
    a.iter().map(|s| s.to_string()).collect()
}

fn run(a: &[&str]) -> u8 {
    exit_code(&parse_args(&args(a)), true)
}

#[test]
fn version_command_succeeds() {
    assert_eq!(run(&["version"]), 0);
}

#[test]
fn no_args_shows_help_and_succeeds() {
    assert_eq!(run(&[]), 0);
    assert!(matches!(parse_args(&args(&[])), Ok(Command::Help)));
}

#[test]
fn unknown_command_is_usage_error() {
    assert_eq!(run(&["frobnicate"]), 2);
    assert!(matches!(
        parse_args(&args(&["frobnicate"])),
        Err(UsageError::UnknownCommand { command }) if command == "frobnicate"
    ));
}

#[test]
fn missing_args_is_usage_error() {
    assert_eq!(run(&["put"]), 2);
    assert_eq!(run(&["why"]), 2);
}

#[test]
fn help_text_mentions_every_command() {
    let help = help_text();
    for cmd in ["init", "put", "get", "as-of", "why", "bench", "demo"] {
        assert!(help.contains(cmd), "help should mention `{cmd}`");
    }
    assert!(help.starts_with("engram 0.1.0 \u{2014} purpose-built storage engine"));
}

#[test]
fn runtime_failure_exits_with_one() {
    let parsed = parse_args(&args(&["init", "/tmp/x"]));
    assert!(matches!(&parsed, Ok(Command::Init { dir }) if dir == "/tmp/x"));
    assert_eq!(exit_code(&parsed, true), 0);
    assert_eq!(exit_code(&parsed, false), 1);
    // Printing commands succeed whatever happens.
    assert_eq!(exit_code(&parse_args(&args(&["--help"])), false), 0);
    assert_eq!(exit_code(&parse_args(&args(&["bench"])), false), 0);
}

#[test]
fn put_event_parses_every_argument() {
    match parse_args(&args(&["put", "event", "d", "7", "OBS", "hello"])) {
        Ok(Command::PutEvent { dir, session, event_type, payload }) => {
            assert_eq!(dir, "d");
            assert_eq!(session, 7);
            assert_eq!(event_type, EventType::Observation);
            assert_eq!(payload, b"hello");
        }
        _ => panic!("expected put event"),
    }
    assert!(matches!(
        parse_args(&args(&["put", "event", "d", "x7", "obs", "p"])),
        Err(UsageError::BadValue { what, value }) if what == "session" && value == "x7"
    ));
    assert!(matches!(
        parse_args(&args(&["put", "event", "d", "7", "Dance", "p"])),
        Err(UsageError::UnknownEventType { value }) if value == "dance"
    ));
    assert!(matches!(
        parse_args(&args(&["put", "event", "d", "7", "msg"])),
        Err(UsageError::Missing { what }) if what == "payload"
    ));
    assert!(matches!(
        parse_args(&args(&["put", "thing"])),
        Err(UsageError::BadKind { command, kind }) if command == "put" && kind == "thing"
    ));
}

#[test]
fn put_belief_keeps_confidence_text() {
    match parse_args(&args(&["put", "belief", "d", "s", "p", "o", "0.5"])) {
        Ok(Command::PutBelief { dir, subject, predicate, object, confidence }) => {
            assert_eq!((dir.as_str(), subject.as_str(), predicate.as_str()), ("d", "s", "p"));
            assert_eq!(object, b"o");
            assert_eq!(confidence.as_deref(), Some("0.5"));
        }
        _ => panic!("expected put belief"),
    }
    assert!(matches!(
        parse_args(&args(&["put", "belief", "d", "s", "p", "o"])),
        Ok(Command::PutBelief { confidence: None, .. })
    ));
}

#[test]
fn get_why_and_as_of_parse_ids_and_times() {
    let id = MemoryId(12345);
    let s = id.to_string();
    assert!(matches!(
        parse_args(&args(&["why", "d", &s])),
        Ok(Command::Why { id: got, .. }) if got == id
    ));
    assert!(matches!(
        parse_args(&args(&["get", "event", "d", &s])),
        Ok(Command::GetEvent { id: got, .. }) if got == id
    ));
    assert!(matches!(
        parse_args(&args(&["get", "event", "d", "nope"])),
        Err(UsageError::BadValue { what, .. }) if what == "id"
    ));
    assert!(matches!(
        parse_args(&args(&["as-of", "d", "s", "p", "-1500"])),
        Ok(Command::AsOf { ms: -1500, .. })
    ));
    assert!(matches!(
        parse_args(&args(&["get", "belief", "d", "s"])),
        Err(UsageError::Missing { what }) if what == "predicate"
    ));
}

#[test]
fn decimal_arguments_follow_the_standard_grammar() {
    let s = |x: &str| x.to_string();
    assert_eq!(parse_u64(&s("0")), Some(0));
    assert_eq!(parse_u64(&s("+42")), Some(42));
    assert_eq!(parse_u64(&s("18446744073709551615")), Some(u64::MAX));
    assert_eq!(parse_u64(&s("18446744073709551616")), None);
    assert_eq!(parse_u64(&s("")), None);
    assert_eq!(parse_u64(&s("+")), None);
    assert_eq!(parse_u64(&s("-1")), None);
    assert_eq!(parse_u64(&s("1 ")), None);
    assert_eq!(parse_i64(&s("-9223372036854775808")), Some(i64::MIN));
    assert_eq!(parse_i64(&s("9223372036854775807")), Some(i64::MAX));
    assert_eq!(parse_i64(&s("9223372036854775808")), None);
    assert_eq!(parse_i64(&s("-")), None);
    for x in ["0", "17", "-17", "+5", "99999999999999999999", "", "1a"] {
        assert_eq!(parse_i64(&s(x)), x.parse::<i64>().ok(), "{x}");
        assert_eq!(parse_u64(&s(x)), x.parse::<u64>().ok(), "{x}");
    }
}

#[test]
fn event_types_are_case_insensitive() {
    assert_eq!(parse_event_type("Tool_Call").ok(), Some(EventType::ToolCall));
    assert_eq!(parse_event_type("toolcall").ok(), Some(EventType::ToolCall));
    assert_eq!(parse_event_type("MSG").ok(), Some(EventType::Message));
    assert_eq!(parse_event_type("action").ok(), Some(EventType::Action));
    assert!(parse_event_type("obs ").is_err());
}
