//! The decisions of the `engram` command line: which command an argument list
//! asks for, with its arguments parsed, or which usage error it is; and the
//! exit code of an invocation (0 success, 1 runtime failure, 2 usage error).
//!
//! ```text
//! engram init  <dir>
//! engram put   event  <dir> <session> <type> <payload>
//! engram put   belief <dir> <subject> <predicate> <object> [confidence]
//! engram get   event  <dir> <id>
//! engram get   belief <dir> <subject> <predicate>
//! engram as-of <dir> <subject> <predicate> <ms>
//! engram why   <dir> <id>
//! engram demo
//! engram bench
//! ```

use vstd::prelude::*;
use vstd::string::StringExecFns;

use crate::base::error::IdParseError;
use crate::base::event::EventType;
use crate::base::ids::{crockford_parse, MemoryId};

verus! {

/// A parsed invocation.
pub enum Command {
    /// Print the version.
    Version,
    /// Print the usage text.
    Help,
    /// Point at the benchmark suite.
    Bench,
    /// Initialize a store in `dir`.
    Init { dir: String },
    /// Append an event.
    PutEvent { dir: String, session: u64, event_type: EventType, payload: Vec<u8> },
    /// Upsert a belief; the confidence, if given, is still text (it is a float).
    PutBelief {
        dir: String,
        subject: String,
        predicate: String,
        object: Vec<u8>,
        confidence: Option<String>,
    },
    /// Read an event.
    GetEvent { dir: String, id: MemoryId },
    /// Read the current belief.
    GetBelief { dir: String, subject: String, predicate: String },
    /// Read a belief as of a time in milliseconds.
    AsOf { dir: String, subject: String, predicate: String, ms: i64 },
    /// Trace the provenance of a memory.
    Why { dir: String, id: MemoryId },
    /// Run the self-contained demo.
    Demo,
}

/// Why an argument list was refused.
pub enum UsageError {
    /// A required argument is missing (`missing <what>`).
    Missing { what: String },
    /// An argument does not parse as the value it names.
    BadValue { what: String, value: String },
    /// `put` or `get` with a kind other than `event` or `belief`.
    BadKind { command: String, kind: String },
    /// An event type other than the four known ones (lower-cased).
    UnknownEventType { value: String },
    /// An unknown command.
    UnknownCommand { command: String },
}

/// What the first argument names.
#[derive(Clone, Copy, Debug, PartialEq, Eq, Structural)]
pub enum CommandKind {
    Version,
    Help,
    Bench,
    Init,
    Put,
    Get,
    AsOf,
    Why,
    Demo,
    Unknown,
}

/// The kind of command `c` names.
pub open spec fn command_kind(c: Seq<char>) -> CommandKind {
    if c == "version"@ || c == "--version"@ || c == "-V"@ {
        CommandKind::Version
    } else if c == "help"@ || c == "--help"@ || c == "-h"@ {
        CommandKind::Help
    } else if c == "bench"@ {
        CommandKind::Bench
    } else if c == "init"@ {
        CommandKind::Init
    } else if c == "put"@ {
        CommandKind::Put
    } else if c == "get"@ {
        CommandKind::Get
    } else if c == "as-of"@ {
        CommandKind::AsOf
    } else if c == "why"@ {
        CommandKind::Why
    } else if c == "demo"@ {
        CommandKind::Demo
    } else {
        CommandKind::Unknown
    }
}

/// Whether `s` reads `lit`.
fn is(s: &String, lit: &str) -> (r: bool)
    ensures
        r == (s@ == lit@),
{
    *s == lit.to_owned()
}

/// The kind of command `c` names.
pub fn classify(c: &String) -> (k: CommandKind)
    ensures
        k == command_kind(c@),
{
    if is(c, "version") || is(c, "--version") || is(c, "-V") {
        CommandKind::Version
    } else if is(c, "help") || is(c, "--help") || is(c, "-h") {
        CommandKind::Help
    } else if is(c, "bench") {
        CommandKind::Bench
    } else if is(c, "init") {
        CommandKind::Init
    } else if is(c, "put") {
        CommandKind::Put
    } else if is(c, "get") {
        CommandKind::Get
    } else if is(c, "as-of") {
        CommandKind::AsOf
    } else if is(c, "why") {
        CommandKind::Why
    } else if is(c, "demo") {
        CommandKind::Demo
    } else {
        CommandKind::Unknown
    }
}

/// The value of a string of decimal digits.
pub open spec fn digits_value(d: Seq<u8>) -> int
    decreases d.len(),
{
    if d.len() == 0 {
        0
    } else {
        digits_value(d.drop_last()) * 10 + (d.last() - 48)
    }
}

/// Every byte of `d` is an ASCII digit.
pub open spec fn all_digits(d: Seq<u8>) -> bool {
    forall|i: int| 0 <= i < d.len() ==> 48 <= #[trigger] d[i] <= 57
}

/// The integer an optional sign followed by one or more ASCII digits denotes
/// (`-` only where `signed`).
pub open spec fn decimal_value(b: Seq<u8>, signed: bool) -> Option<int> {
    let neg = signed && b.len() > 0 && b[0] == 45u8;
    let d = if b.len() > 0 && (b[0] == 43u8 || neg) {
        b.drop_first()
    } else {
        b
    };
    if d.len() > 0 && all_digits(d) {
        Some(if neg {
            -digits_value(d)
        } else {
            digits_value(d)
        })
    } else {
        None
    }
}

/// The digits of a longer run are worth at least as much as those of a prefix.
proof fn lemma_digits_grow(d: Seq<u8>, i: int)
    requires
        all_digits(d),
        0 <= i <= d.len(),
    ensures
        digits_value(d.take(i)) <= digits_value(d),
    decreases d.len() - i,
{
    if i < d.len() {
        lemma_digits_grow(d, i + 1);
        assert(d.take(i + 1).drop_last() =~= d.take(i));
        assert(digits_value(d.take(i)) >= 0) by {
            lemma_digits_nonneg(d.take(i));
        }
    } else {
        assert(d.take(i) =~= d);
    }
}

/// Digits are worth nothing negative.
proof fn lemma_digits_nonneg(d: Seq<u8>)
    requires
        all_digits(d),
    ensures
        digits_value(d) >= 0,
    decreases d.len(),
{
    if d.len() > 0 {
        lemma_digits_nonneg(d.drop_last());
    }
}

/// The magnitude of the digits of `b` from `start`, if they are all digits and
/// the value is at most `limit`.
fn digits_upto(b: &[u8], start: usize, limit: u64) -> (r: Option<u64>)
    requires
        start <= b@.len(),
        limit >= 9,
    ensures
        match r {
            Some(v) => all_digits(b@.skip(start as int)) && v == digits_value(b@.skip(start as int))
                && v <= limit,
            None => !all_digits(b@.skip(start as int)) || digits_value(b@.skip(start as int)) > limit,
        },
{
    let ghost d = b@.skip(start as int);
    let mut acc: u64 = 0;
    let mut i: usize = start;
    while i < b.len()
        invariant
            start <= i <= b@.len(),
            d == b@.skip(start as int),
            all_digits(d.take(i - start)),
            acc == digits_value(d.take(i - start)),
            acc <= limit,
            limit >= 9,
        decreases b@.len() - i,
    {
        let c = b[i];
        proof {
            assert(d.take(i - start + 1).drop_last() =~= d.take(i - start));
            assert(d[i - start] == c);
        }
        if c < 48 || c > 57 {
            proof {
                assert(!all_digits(d));
            }
            return None;
        }
        let dv = (c - 48) as u64;
        if acc > (limit - dv) / 10 {
            proof {
                assert(digits_value(d.take(i - start + 1)) > limit) by (nonlinear_arith)
                    requires
                        digits_value(d.take(i - start + 1)) == acc * 10 + dv,
                        acc > (limit - dv) / 10,
                        dv <= 9,
                        limit >= 9,
                {
                }
                assert(all_digits(d.take(i - start + 1)));
                if all_digits(d) {
                    lemma_digits_grow(d, i - start + 1);
                }
            }
            return None;
        }
        proof {
            assert(acc * 10 + dv <= limit) by (nonlinear_arith)
                requires
                    acc <= (limit - dv) / 10,
                    dv <= limit,
            {
            }
        }
        acc = acc * 10 + dv;
        i = i + 1;
    }
    proof {
        assert(d.take(i - start) =~= d);
    }
    Some(acc)
}

/// The number a decimal argument denotes, if it fits in a `u64`: an optional
/// `+` and one or more ASCII digits.
pub open spec fn u64_arg(s: Seq<char>) -> Option<u64> {
    match decimal_value(vstd::utf8::encode_utf8(s), false) {
        Some(v) => if v <= u64::MAX {
            Some(v as u64)
        } else {
            None
        },
        None => None,
    }
}

/// The number a decimal argument denotes, if it fits in an `i64`: an optional
/// sign and one or more ASCII digits.
pub open spec fn i64_arg(s: Seq<char>) -> Option<i64> {
    match decimal_value(vstd::utf8::encode_utf8(s), true) {
        Some(v) => if i64::MIN <= v <= i64::MAX {
            Some(v as i64)
        } else {
            None
        },
        None => None,
    }
}

/// Parse a decimal `u64`.
pub fn parse_u64(s: &String) -> (r: Option<u64>)
    ensures
        r == u64_arg(s@),
{
    let b = s.as_str().as_bytes();
    let ghost bs = b@;
    let start: usize = if b.len() > 0 && b[0] == 43u8 {
        1
    } else {
        0
    };
    proof {
        assert(bs.skip(start as int) == if bs.len() > 0 && bs[0] == 43u8 {
            bs.drop_first()
        } else {
            bs
        });
    }
    if start == b.len() {
        return None;
    }
    match digits_upto(b, start, u64::MAX) {
        Some(v) => Some(v),
        None => None,
    }
}

/// Parse a decimal `i64`.
pub fn parse_i64(s: &String) -> (r: Option<i64>)
    ensures
        r == i64_arg(s@),
{
    let b = s.as_str().as_bytes();
    let ghost bs = b@;
    let neg = b.len() > 0 && b[0] == 45u8;
    let start: usize = if b.len() > 0 && (b[0] == 43u8 || neg) {
        1
    } else {
        0
    };
    proof {
        assert(bs.skip(start as int) == if bs.len() > 0 && (bs[0] == 43u8 || neg) {
            bs.drop_first()
        } else {
            bs
        });
    }
    if start == b.len() {
        return None;
    }
    if neg {
        match digits_upto(b, start, 9223372036854775808u64) {
            Some(v) => {
                if v == 9223372036854775808u64 {
                    Some(i64::MIN)
                } else {
                    Some(-(v as i64))
                }
            },
            None => None,
        }
    } else {
        match digits_upto(b, start, 9223372036854775807u64) {
            Some(v) => Some(v as i64),
            None => None,
        }
    }
}

/// ASCII lower case of a character: `'A'..='Z'` become `'a'..='z'`, every other
/// character stays.
pub open spec fn ascii_lower(c: char) -> char {
    if 'A' <= c <= 'Z' {
        ((c as u32) + 32) as char
    } else {
        c
    }
}

/// ASCII lower case of a string.
///
/// Wraps `str::to_ascii_lowercase`, whose documentation says that ASCII letters
/// 'A' to 'Z' are mapped to 'a' to 'z' and every other character is unchanged;
/// the contract claims exactly that, character by character.
#[verifier::external_body]
fn ascii_lowercase(s: &str) -> (r: String)
    ensures
        r@ == s@.map_values(|c: char| ascii_lower(c)),
{
    s.to_ascii_lowercase()
}

/// The event type an argument names (case-insensitively).
pub open spec fn event_type_arg(s: Seq<char>) -> Option<EventType> {
    let l = s.map_values(|c: char| ascii_lower(c));
    if l == "tool_call"@ || l == "toolcall"@ {
        Some(EventType::ToolCall)
    } else if l == "message"@ || l == "msg"@ {
        Some(EventType::Message)
    } else if l == "observation"@ || l == "obs"@ {
        Some(EventType::Observation)
    } else if l == "action"@ {
        Some(EventType::Action)
    } else {
        None
    }
}

/// Parse an event type (case-insensitively): `tool_call`/`toolcall`,
/// `message`/`msg`, `observation`/`obs`, or `action`. Anything else is refused
/// with the lower-cased text.
pub fn parse_event_type(s: &str) -> (r: Result<EventType, UsageError>)
    ensures
        match event_type_arg(s@) {
            Some(t) => r == Ok::<EventType, UsageError>(t),
            None => r matches Err(UsageError::UnknownEventType { value }) && value@ == s@.map_values(
                |c: char| ascii_lower(c),
            ),
        },
{
    let l = ascii_lowercase(s);
    if is(&l, "tool_call") || is(&l, "toolcall") {
        Ok(EventType::ToolCall)
    } else if is(&l, "message") || is(&l, "msg") {
        Ok(EventType::Message)
    } else if is(&l, "observation") || is(&l, "obs") {
        Ok(EventType::Observation)
    } else if is(&l, "action") {
        Ok(EventType::Action)
    } else {
        Err(UsageError::UnknownEventType { value: l })
    }
}

/// The id an argument names (Crockford base32), if it parses.
pub open spec fn id_arg(s: Seq<char>) -> Option<MemoryId> {
    match crockford_parse(vstd::utf8::encode_utf8(s)) {
        Ok(v) => Some(MemoryId(v)),
        Err(_) => None,
    }
}

/// `r` refuses a missing argument named `what`.
pub open spec fn missing_err(r: Result<Command, UsageError>, what: Seq<char>) -> bool {
    r matches Err(UsageError::Missing { what: w }) && w@ == what
}

/// `r` refuses the argument `value` named `what` as unparsable.
pub open spec fn bad_err(r: Result<Command, UsageError>, what: Seq<char>, value: Seq<char>) -> bool {
    r matches Err(UsageError::BadValue { what: w, value: v }) && w@ == what && v@ == value
}

/// `r` is what the argument list `a` (command first) asks for. Arguments are
/// taken in order, so the first missing or unparsable one is reported.
pub open spec fn parses_to(a: Seq<String>, r: Result<Command, UsageError>) -> bool {
    if a.len() == 0 {
        r matches Ok(Command::Help)
    } else {
        match command_kind(a[0]@) {
            CommandKind::Version => r matches Ok(Command::Version),
            CommandKind::Help => r matches Ok(Command::Help),
            CommandKind::Bench => r matches Ok(Command::Bench),
            CommandKind::Demo => r matches Ok(Command::Demo),
            CommandKind::Unknown => r matches Err(UsageError::UnknownCommand { command }) && command@
                == a[0]@,
            CommandKind::Init => if a.len() < 2 {
                missing_err(r, "dir"@)
            } else {
                r matches Ok(Command::Init { dir }) && dir@ == a[1]@
            },
            CommandKind::Why => if a.len() < 2 {
                missing_err(r, "dir"@)
            } else if a.len() < 3 {
                missing_err(r, "id"@)
            } else {
                match id_arg(a[2]@) {
                    Some(id) => r matches Ok(Command::Why { dir, id: i }) && dir@ == a[1]@ && i == id,
                    None => bad_err(r, "id"@, a[2]@),
                }
            },
            CommandKind::AsOf => if a.len() < 2 {
                missing_err(r, "dir"@)
            } else if a.len() < 3 {
                missing_err(r, "subject"@)
            } else if a.len() < 4 {
                missing_err(r, "predicate"@)
            } else if a.len() < 5 {
                missing_err(r, "ms"@)
            } else {
                match i64_arg(a[4]@) {
                    Some(ms) => r matches Ok(Command::AsOf { dir, subject, predicate, ms: m })
                        && dir@ == a[1]@ && subject@ == a[2]@ && predicate@ == a[3]@ && m == ms,
                    None => bad_err(r, "ms"@, a[4]@),
                }
            },
            CommandKind::Put => if a.len() < 2 {
                missing_err(r, "event|belief"@)
            } else if a[1]@ == "event"@ {
                if a.len() < 3 {
                    missing_err(r, "dir"@)
                } else if a.len() < 4 {
                    missing_err(r, "session"@)
                } else {
                    match u64_arg(a[3]@) {
                        None => bad_err(r, "session"@, a[3]@),
                        Some(session) => if a.len() < 5 {
                            missing_err(r, "type"@)
                        } else {
                            match event_type_arg(a[4]@) {
                                None => r matches Err(UsageError::UnknownEventType { value })
                                    && value@ == a[4]@.map_values(|c: char| ascii_lower(c)),
                                Some(t) => if a.len() < 6 {
                                    missing_err(r, "payload"@)
                                } else {
                                    r matches Ok(
                                        Command::PutEvent { dir, session: sn, event_type, payload },
                                    ) && dir@ == a[2]@ && sn == session && event_type == t && payload@
                                        == vstd::utf8::encode_utf8(a[5]@)
                                },
                            }
                        },
                    }
                }
            } else if a[1]@ == "belief"@ {
                if a.len() < 3 {
                    missing_err(r, "dir"@)
                } else if a.len() < 4 {
                    missing_err(r, "subject"@)
                } else if a.len() < 5 {
                    missing_err(r, "predicate"@)
                } else if a.len() < 6 {
                    missing_err(r, "object"@)
                } else {
                    r matches Ok(Command::PutBelief { dir, subject, predicate, object, confidence })
                        && dir@ == a[2]@ && subject@ == a[3]@ && predicate@ == a[4]@ && object@
                        == vstd::utf8::encode_utf8(a[5]@) && match confidence {
                        Some(c) => a.len() > 6 && c@ == a[6]@,
                        None => a.len() <= 6,
                    }
                }
            } else {
                r matches Err(UsageError::BadKind { command, kind }) && command@ == "put"@ && kind@
                    == a[1]@
            },
            CommandKind::Get => if a.len() < 2 {
                missing_err(r, "event|belief"@)
            } else if a[1]@ == "event"@ {
                if a.len() < 3 {
                    missing_err(r, "dir"@)
                } else if a.len() < 4 {
                    missing_err(r, "id"@)
                } else {
                    match id_arg(a[3]@) {
                        Some(id) => r matches Ok(Command::GetEvent { dir, id: i }) && dir@ == a[2]@ && i
                            == id,
                        None => bad_err(r, "id"@, a[3]@),
                    }
                }
            } else if a[1]@ == "belief"@ {
                if a.len() < 3 {
                    missing_err(r, "dir"@)
                } else if a.len() < 4 {
                    missing_err(r, "subject"@)
                } else if a.len() < 5 {
                    missing_err(r, "predicate"@)
                } else {
                    r matches Ok(Command::GetBelief { dir, subject, predicate }) && dir@ == a[2]@
                        && subject@ == a[3]@ && predicate@ == a[4]@
                }
            } else {
                r matches Err(UsageError::BadKind { command, kind }) && command@ == "get"@ && kind@
                    == a[1]@
            },
        }
    }
}

/// A missing-argument error.
fn missing(what: &str) -> (r: Result<Command, UsageError>)
    ensures
        missing_err(r, what@),
{
    Err(UsageError::Missing { what: what.to_owned() })
}

/// An unparsable-argument error.
fn bad(what: &str, value: &String) -> (r: Result<Command, UsageError>)
    ensures
        bad_err(r, what@, value@),
{
    Err(UsageError::BadValue { what: what.to_owned(), value: value.clone() })
}

/// The bytes of an argument.
fn arg_bytes(s: &String) -> (b: Vec<u8>)
    ensures
        b@ == vstd::utf8::encode_utf8(s@),
{
    s.as_str().as_bytes_vec()
}

/// Parse an id argument.
fn parse_id(s: &String) -> (r: Option<MemoryId>)
    ensures
        r == id_arg(s@),
{
    match MemoryId::parse(s.as_str()) {
        Ok(id) => Some(id),
        Err(_) => None,
    }
}

/// `put event ...` and `put belief ...`.
fn parse_put(a: &Vec<String>) -> (r: Result<Command, UsageError>)
    requires
        a@.len() >= 1,
        command_kind(a@[0]@) == CommandKind::Put,
    ensures
        parses_to(a@, r),
{
    if a.len() < 2 {
        return missing("event|belief");
    }
    if is(&a[1], "event") {
        if a.len() < 3 {
            return missing("dir");
        }
        if a.len() < 4 {
            return missing("session");
        }
        let session = match parse_u64(&a[3]) {
            Some(v) => v,
            None => {
                return bad("session", &a[3]);
            },
        };
        if a.len() < 5 {
            return missing("type");
        }
        let event_type = match parse_event_type(a[4].as_str()) {
            Ok(t) => t,
            Err(e) => {
                return Err(e);
            },
        };
        if a.len() < 6 {
            return missing("payload");
        }
        Ok(Command::PutEvent {
            dir: a[2].clone(),
            session,
            event_type,
            payload: arg_bytes(&a[5]),
        })
    } else if is(&a[1], "belief") {
        if a.len() < 3 {
            return missing("dir");
        }
        if a.len() < 4 {
            return missing("subject");
        }
        if a.len() < 5 {
            return missing("predicate");
        }
        if a.len() < 6 {
            return missing("object");
        }
        let confidence = if a.len() > 6 {
            Some(a[6].clone())
        } else {
            None
        };
        Ok(Command::PutBelief {
            dir: a[2].clone(),
            subject: a[3].clone(),
            predicate: a[4].clone(),
            object: arg_bytes(&a[5]),
            confidence,
        })
    } else {
        Err(UsageError::BadKind { command: "put".to_owned(), kind: a[1].clone() })
    }
}

/// `get event ...` and `get belief ...`.
fn parse_get(a: &Vec<String>) -> (r: Result<Command, UsageError>)
    requires
        a@.len() >= 1,
        command_kind(a@[0]@) == CommandKind::Get,
    ensures
        parses_to(a@, r),
{
    if a.len() < 2 {
        return missing("event|belief");
    }
    if is(&a[1], "event") {
        if a.len() < 3 {
            return missing("dir");
        }
        if a.len() < 4 {
            return missing("id");
        }
        match parse_id(&a[3]) {
            Some(id) => Ok(Command::GetEvent { dir: a[2].clone(), id }),
            None => bad("id", &a[3]),
        }
    } else if is(&a[1], "belief") {
        if a.len() < 3 {
            return missing("dir");
        }
        if a.len() < 4 {
            return missing("subject");
        }
        if a.len() < 5 {
            return missing("predicate");
        }
        Ok(Command::GetBelief { dir: a[2].clone(), subject: a[3].clone(), predicate: a[4].clone() })
    } else {
        Err(UsageError::BadKind { command: "get".to_owned(), kind: a[1].clone() })
    }
}

/// What an argument list (command first) asks for: the command with its
/// arguments parsed, or the first usage error.
pub fn parse_args(a: &Vec<String>) -> (r: Result<Command, UsageError>)
    ensures
        parses_to(a@, r),
{
    if a.len() == 0 {
        return Ok(Command::Help);
    }
    match classify(&a[0]) {
        CommandKind::Version => Ok(Command::Version),
        CommandKind::Help => Ok(Command::Help),
        CommandKind::Bench => Ok(Command::Bench),
        CommandKind::Demo => Ok(Command::Demo),
        CommandKind::Unknown => Err(UsageError::UnknownCommand { command: a[0].clone() }),
        CommandKind::Init => {
            if a.len() < 2 {
                missing("dir")
            } else {
                Ok(Command::Init { dir: a[1].clone() })
            }
        },
        CommandKind::Why => {
            if a.len() < 2 {
                return missing("dir");
            }
            if a.len() < 3 {
                return missing("id");
            }
            match parse_id(&a[2]) {
                Some(id) => Ok(Command::Why { dir: a[1].clone(), id }),
                None => bad("id", &a[2]),
            }
        },
        CommandKind::AsOf => {
            if a.len() < 2 {
                return missing("dir");
            }
            if a.len() < 3 {
                return missing("subject");
            }
            if a.len() < 4 {
                return missing("predicate");
            }
            if a.len() < 5 {
                return missing("ms");
            }
            match parse_i64(&a[4]) {
                Some(ms) => Ok(
                    Command::AsOf {
                        dir: a[1].clone(),
                        subject: a[2].clone(),
                        predicate: a[3].clone(),
                        ms,
                    },
                ),
                None => bad("ms", &a[4]),
            }
        },
        CommandKind::Put => parse_put(a),
        CommandKind::Get => parse_get(a),
    }
}

/// Whether a command only prints (and so always succeeds).
pub open spec fn informational(c: Command) -> bool {
    c is Version || c is Help || c is Bench
}

/// The exit code of an invocation: 2 for a usage error, 0 for a command that
/// only prints, and otherwise 0 or 1 as the command succeeded or failed.
pub fn exit_code(parsed: &Result<Command, UsageError>, succeeded: bool) -> (code: u8)
    ensures
        code == match parsed {
            Err(_) => 2u8,
            Ok(c) => if informational(*c) || succeeded {
                0u8
            } else {
                1u8
            },
        },
{
    match parsed {
        Err(_) => 2,
        Ok(Command::Version) | Ok(Command::Help) | Ok(Command::Bench) => 0,
        Ok(_) => if succeeded {
            0
        } else {
            1
        },
    }
}

/// The usage text: the version line, then one line per command.
pub fn help_text() -> (t: String)
    ensures
        t@ == "engram "@ + "0.1.0"@ + " \u{2014} purpose-built storage engine for AI-agent memory\n\nUSAGE:\n    engram <COMMAND> [ARGS]\n\nCOMMANDS:\n    init     Initialize a new Engram store:  init <dir>\n    put      Append an event / upsert a belief:  put event|belief <dir> ...\n    get      Read a memory:  get event|belief <dir> ...\n    as-of    Time-travel a belief:  as-of <dir> <subject> <predicate> <ms>\n    why      Trace provenance:  why <dir> <id>\n    bench    Run the criterion benchmark suite\n    demo     Run the SRE provenance demo\n    version  Print the version\n    help     Print this help\n"@,
{
    let mut t = "engram ".to_owned();
    t.append(crate::base::version());
    t.append(" \u{2014} purpose-built storage engine for AI-agent memory\n\nUSAGE:\n    engram <COMMAND> [ARGS]\n\nCOMMANDS:\n    init     Initialize a new Engram store:  init <dir>\n    put      Append an event / upsert a belief:  put event|belief <dir> ...\n    get      Read a memory:  get event|belief <dir> ...\n    as-of    Time-travel a belief:  as-of <dir> <subject> <predicate> <ms>\n    why      Trace provenance:  why <dir> <id>\n    bench    Run the criterion benchmark suite\n    demo     Run the SRE provenance demo\n    version  Print the version\n    help     Print this help\n");
    t
}

} // verus!
