//! Signals for memory consolidation: a `(subject, predicate, object)` triple
//! extracted from an episodic event by a pluggable [`SignalExtractor`]. The
//! rule-based [`FieldSignalExtractor`] reads a UTF-8 payload of the form
//! `subject\tpredicate\tobject`; anything else carries no signal.

use vstd::prelude::*;
use vstd::string::StrSliceExecFns;
use vstd::utf8::{decode_utf8, valid_utf8};

use crate::base::ids::MemoryId;
use crate::base::records::EpisodicRecord;
use crate::base::text::{chars_lt, lemma_chars_lt_strict_total, lemma_chars_lt_transitive, lemma_pair_order, pair_lt, str_lt};
use crate::storage::semantic::find_pair;

verus! {

/// A `(subject, predicate, object)` signal extracted from one event.
#[derive(Clone, Debug, PartialEq, Eq)]
pub struct Signal {
    /// Subject of the belief triple.
    pub subject: String,
    /// Predicate of the belief triple.
    pub predicate: String,
    /// Object of the belief triple.
    pub object: String,
}

/// Maps an episodic event to a belief signal, if it carries one.
pub trait SignalExtractor {
    /// Extract a signal from `event`, or `None` if it carries none.
    fn extract(&self, event: &EpisodicRecord) -> Option<Signal>;
}

/// A conservative rule-based extractor: the payload must be UTF-8
/// `subject\tpredicate\tobject` (tab-separated, each part trimmed and
/// non-empty).
#[derive(Clone, Copy, Debug, Default)]
pub struct FieldSignalExtractor;

/// The characters with the Unicode `White_Space` property.
pub open spec fn is_white(c: char) -> bool {
    let u = c as u32;
    (9 <= u <= 13) || u == 32 || u == 0x85 || u == 0xA0 || u == 0x1680 || (0x2000 <= u <= 0x200A)
        || u == 0x2028 || u == 0x2029 || u == 0x202F || u == 0x205F || u == 0x3000
}

/// Whether `c` has the Unicode `White_Space` property.
pub fn white(c: char) -> (b: bool)
    ensures
        b == is_white(c),
{
    let u = c as u32;
    (9 <= u && u <= 13) || u == 32 || u == 0x85 || u == 0xA0 || u == 0x1680 || (0x2000 <= u && u
        <= 0x200A) || u == 0x2028 || u == 0x2029 || u == 0x202F || u == 0x205F || u == 0x3000
}

/// `s[i..j]` is `s` without its leading and trailing white space.
pub open spec fn trim_bounds(s: Seq<char>, i: int, j: int) -> bool {
    &&& 0 <= i <= j <= s.len()
    &&& forall|k: int| 0 <= k < i ==> is_white(#[trigger] s[k])
    &&& forall|k: int| j <= k < s.len() ==> is_white(#[trigger] s[k])
    &&& i < j ==> !is_white(s[i]) && !is_white(s[j - 1])
}

/// `s` without leading and trailing white space.
pub open spec fn trimmed(s: Seq<char>) -> Seq<char> {
    let (i, j) = choose|i: int, j: int| trim_bounds(s, i, j);
    s.subrange(i, j)
}

/// Any two trimming bounds cut out the same text.
proof fn lemma_trim_unique(s: Seq<char>, i: int, j: int)
    requires
        trim_bounds(s, i, j),
    ensures
        trimmed(s) == s.subrange(i, j),
{
    let (a, b) = choose|a: int, b: int| trim_bounds(s, a, b);
    if i < j && a < b {
        if a < i {
            assert(is_white(s[a]));
        }
        if i < a {
            assert(is_white(s[i]));
        }
        if b < j {
            assert(is_white(s[j - 1]));
        }
        if j < b {
            assert(is_white(s[b - 1]));
        }
    } else if i < j {
        assert(is_white(s[i]));
    } else if a < b {
        assert(is_white(s[a]));
    }
    assert(s.subrange(a, b) =~= s.subrange(i, j));
}

/// `s` without leading and trailing white space.
pub fn trim(s: &str) -> (t: String)
    ensures
        t@ == trimmed(s@),
{
    let n = s.unicode_len();
    let mut i: usize = 0;
    while i < n && white(s.get_char(i))
        invariant
            n == s@.len(),
            i <= n,
            forall|k: int| 0 <= k < i ==> is_white(#[trigger] s@[k]),
        decreases n - i,
    {
        i = i + 1;
    }
    let mut j: usize = n;
    while j > i && white(s.get_char(j - 1))
        invariant
            n == s@.len(),
            i <= j <= n,
            forall|k: int| j <= k < n ==> is_white(#[trigger] s@[k]),
        decreases j - i,
    {
        j = j - 1;
    }
    proof {
        assert(trim_bounds(s@, i as int, j as int));
        lemma_trim_unique(s@, i as int, j as int);
    }
    s.substring_char(i, j).to_owned()
}

/// The text a payload holds, if it is UTF-8.
///
/// Wraps `std::str::from_utf8`, which the documentation says succeeds exactly
/// on valid UTF-8; the contract claims that (validity as vstd defines it) and
/// that the text is the decoding of the bytes.
#[verifier::external_body]
fn utf8_text(b: &[u8]) -> (r: Option<String>)
    ensures
        match r {
            Some(t) => valid_utf8(b@) && t@ == decode_utf8(b@),
            None => !valid_utf8(b@),
        },
{
    std::str::from_utf8(b).ok().map(|t| t.to_owned())
}

/// `t` has exactly two tabs, at `i < j`.
pub open spec fn two_tabs_at(t: Seq<char>, i: int, j: int) -> bool {
    &&& 0 <= i < j < t.len()
    &&& t[i] == '\t'
    &&& t[j] == '\t'
    &&& forall|k: int| 0 <= k < t.len() && k != i && k != j ==> #[trigger] t[k] != '\t'
}

/// The three tab-separated fields of `t`, if it has exactly three.
pub open spec fn tab_fields(t: Seq<char>) -> Option<(Seq<char>, Seq<char>, Seq<char>)> {
    if exists|i: int, j: int| two_tabs_at(t, i, j) {
        let (i, j) = choose|i: int, j: int| two_tabs_at(t, i, j);
        Some((t.subrange(0, i), t.subrange(i + 1, j), t.subrange(j + 1, t.len() as int)))
    } else {
        None
    }
}

/// The signal a payload carries: UTF-8 text of exactly three tab-separated
/// fields, each non-empty once trimmed.
pub open spec fn signal_of(payload: Seq<u8>) -> Option<(Seq<char>, Seq<char>, Seq<char>)> {
    if !valid_utf8(payload) {
        None
    } else {
        match tab_fields(decode_utf8(payload)) {
            None => None,
            Some(f) => {
                let (s, p, o) = (trimmed(f.0), trimmed(f.1), trimmed(f.2));
                if s.len() == 0 || p.len() == 0 || o.len() == 0 {
                    None
                } else {
                    Some((s, p, o))
                }
            },
        }
    }
}

/// The first tab at or after `from`, if any.
fn next_tab(t: &str, from: usize, n: usize) -> (r: Option<usize>)
    requires
        n == t@.len(),
        from <= n,
    ensures
        match r {
            Some(i) => from <= i < n && t@[i as int] == '\t' && forall|k: int| from <= k < i ==> #[trigger] t@[k]
                != '\t',
            None => forall|k: int| from <= k < n ==> #[trigger] t@[k] != '\t',
        },
{
    let mut i = from;
    while i < n
        invariant
            n == t@.len(),
            from <= i <= n,
            forall|k: int| from <= k < i ==> #[trigger] t@[k] != '\t',
        decreases n - i,
    {
        if t.get_char(i) == '\t' {
            return Some(i);
        }
        i = i + 1;
    }
    None
}

/// The signal a payload carries, as [`signal_of`] describes it.
pub fn extract_signal(payload: &[u8]) -> (r: Option<Signal>)
    ensures
        match signal_of(payload@) {
            None => r is None,
            Some(f) => r matches Some(sig) && sig.subject@ == f.0 && sig.predicate@ == f.1
                && sig.object@ == f.2,
        },
{
    let text = match utf8_text(payload) {
        Some(t) => t,
        None => {
            return None;
        },
    };
    let t = text.as_str();
    let n = t.unicode_len();
    let i = match next_tab(t, 0, n) {
        Some(i) => i,
        None => {
            proof {
                assert(!exists|a: int, b: int| two_tabs_at(t@, a, b));
            }
            return None;
        },
    };
    let j = match next_tab(t, i + 1, n) {
        Some(j) => j,
        None => {
            proof {
                assert forall|a: int, b: int| !two_tabs_at(t@, a, b) by {
                    if two_tabs_at(t@, a, b) {
                        if a != i as int {
                            assert(t@[i as int] == '\t');
                        } else {
                            assert(t@[b] == '\t');
                        }
                    }
                }
            }
            return None;
        },
    };
    if j + 1 < n {
        match next_tab(t, j + 1, n) {
            Some(k) => {
                proof {
                    assert forall|a: int, b: int| !two_tabs_at(t@, a, b) by {
                        if two_tabs_at(t@, a, b) {
                            assert(t@[i as int] == '\t' && t@[j as int] == '\t' && t@[k as int]
                                == '\t');
                        }
                    }
                }
                return None;
            },
            None => {},
        }
    }
    proof {
        assert(two_tabs_at(t@, i as int, j as int));
        let (a, b) = choose|a: int, b: int| two_tabs_at(t@, a, b);
        if a != i as int {
            assert(t@[a] == '\t');
        }
        if b != j as int {
            assert(t@[b] == '\t');
        }
    }
    let subject = trim(t.substring_char(0, i));
    let predicate = trim(t.substring_char(i + 1, j));
    let object = trim(t.substring_char(j + 1, n));
    if subject.as_str().unicode_len() == 0 || predicate.as_str().unicode_len() == 0
        || object.as_str().unicode_len() == 0 {
        return None;
    }
    Some(Signal { subject, predicate, object })
}

impl SignalExtractor for FieldSignalExtractor {
    fn extract(&self, event: &EpisodicRecord) -> (r: Option<Signal>)
        ensures
            match signal_of(event.payload@) {
                None => r is None,
                Some(f) => r matches Some(sig) && sig.subject@ == f.0 && sig.predicate@ == f.1
                    && sig.object@ == f.2,
            },
    {
        extract_signal(event.payload.as_slice())
    }
}

/// Signal `x` is about the belief `(s, p)`.
pub open spec fn about(x: (Signal, MemoryId), s: Seq<char>, p: Seq<char>) -> bool {
    x.0.subject@ == s && x.0.predicate@ == p
}

/// The ids of the signals in `sigs` that read `(s, p, o)`, in order: the
/// evidence for object `o` of belief `(s, p)`.
pub open spec fn support(sigs: Seq<(Signal, MemoryId)>, s: Seq<char>, p: Seq<char>, o: Seq<char>) -> Seq<
    MemoryId,
>
    decreases sigs.len(),
{
    if sigs.len() == 0 {
        Seq::empty()
    } else {
        let prev = support(sigs.drop_last(), s, p, o);
        let x = sigs.last();
        if about(x, s, p) && x.0.object@ == o {
            prev.push(x.1)
        } else {
            prev
        }
    }
}

/// For belief `(s, p)`, object `o` has more evidence than `o2`, or as much and
/// comes first.
pub open spec fn beats(sigs: Seq<(Signal, MemoryId)>, s: Seq<char>, p: Seq<char>, o: Seq<char>, o2: Seq<char>) -> bool {
    let c = support(sigs, s, p, o).len();
    let c2 = support(sigs, s, p, o2).len();
    c2 < c || (c2 == c && chars_lt(o, o2))
}

/// `o` is the dominant object of belief `(s, p)`: it has evidence, and it beats
/// every other object the signals give for `(s, p)`.
pub open spec fn dominant(sigs: Seq<(Signal, MemoryId)>, s: Seq<char>, p: Seq<char>, o: Seq<char>) -> bool {
    &&& support(sigs, s, p, o).len() > 0
    &&& forall|i: int|
        0 <= i < sigs.len() && about(#[trigger] sigs[i], s, p) && sigs[i].0.object@ != o ==> beats(
            sigs,
            s,
            p,
            o,
            sigs[i].0.object@,
        )
}

/// An object with evidence is the object of some signal about the belief.
proof fn lemma_support_witness(sigs: Seq<(Signal, MemoryId)>, s: Seq<char>, p: Seq<char>, o: Seq<char>)
    requires
        support(sigs, s, p, o).len() > 0,
    ensures
        exists|i: int| 0 <= i < sigs.len() && about(#[trigger] sigs[i], s, p) && sigs[i].0.object@ == o,
    decreases sigs.len(),
{
    let x = sigs.last();
    if about(x, s, p) && x.0.object@ == o {
        assert(sigs[sigs.len() - 1] == x);
    } else {
        lemma_support_witness(sigs.drop_last(), s, p, o);
        let i = choose|i: int| 0 <= i < sigs.drop_last().len() && about(#[trigger] sigs.drop_last()[i], s, p)
            && sigs.drop_last()[i].0.object@ == o;
        assert(sigs[i] == sigs.drop_last()[i]);
    }
}

/// A belief has at most one dominant object.
pub proof fn lemma_dominant_unique(sigs: Seq<(Signal, MemoryId)>, s: Seq<char>, p: Seq<char>, o1: Seq<char>, o2: Seq<char>)
    requires
        dominant(sigs, s, p, o1),
        dominant(sigs, s, p, o2),
    ensures
        o1 == o2,
{
    if o1 != o2 {
        lemma_support_witness(sigs, s, p, o2);
        lemma_support_witness(sigs, s, p, o1);
        let i = choose|i: int| 0 <= i < sigs.len() && about(#[trigger] sigs[i], s, p) && sigs[i].0.object@ == o2;
        let j = choose|j: int| 0 <= j < sigs.len() && about(#[trigger] sigs[j], s, p) && sigs[j].0.object@ == o1;
        assert(beats(sigs, s, p, o1, o2));
        assert(beats(sigs, s, p, o2, o1));
        lemma_chars_lt_strict_total(o1, o2);
    }
}

/// The evidence for object `o` of belief `(s, p)`.
fn support_of(sigs: &Vec<(Signal, MemoryId)>, s: &String, p: &String, o: &String) -> (v: Vec<MemoryId>)
    ensures
        v@ == support(sigs@, s@, p@, o@),
{
    let mut v: Vec<MemoryId> = Vec::new();
    let mut i: usize = 0;
    proof {
        assert(sigs@.take(0) =~= Seq::<(Signal, MemoryId)>::empty());
    }
    while i < sigs.len()
        invariant
            i <= sigs@.len(),
            v@ == support(sigs@.take(i as int), s@, p@, o@),
        decreases sigs@.len() - i,
    {
        proof {
            assert(sigs@.take(i + 1).drop_last() =~= sigs@.take(i as int));
            assert(sigs@.take(i + 1).last() == sigs@[i as int]);
        }
        let x = &sigs[i];
        if x.0.subject == *s && x.0.predicate == *p && x.0.object == *o {
            v.push(x.1);
        }
        i = i + 1;
    }
    proof {
        assert(sigs@.take(i as int) =~= sigs@);
    }
    v
}

/// Some signal about belief `(s, p)` gives object `o`.
pub open spec fn sourced(sigs: Seq<(Signal, MemoryId)>, s: Seq<char>, p: Seq<char>, o: Seq<char>) -> bool {
    exists|j: int| 0 <= j < sigs.len() && about(#[trigger] sigs[j], s, p) && sigs[j].0.object@ == o
}

/// Text `o` is one of `objs`.
pub open spec fn listed(objs: Seq<String>, o: Seq<char>) -> bool {
    exists|k: int| 0 <= k < objs.len() && (#[trigger] objs[k])@ == o
}

/// The distinct objects the signals give for belief `(s, p)`.
fn objects_of(sigs: &Vec<(Signal, MemoryId)>, s: &String, p: &String) -> (objs: Vec<String>)
    ensures
        forall|k: int| 0 <= k < objs@.len() ==> sourced(sigs@, s@, p@, (#[trigger] objs@[k])@),
        forall|i: int| 0 <= i < sigs@.len() && about(#[trigger] sigs@[i], s@, p@) ==> listed(objs@, sigs@[i].0.object@),
{
    let mut objs: Vec<String> = Vec::new();
    let mut i: usize = 0;
    while i < sigs.len()
        invariant
            i <= sigs@.len(),
            forall|k: int| 0 <= k < objs@.len() ==> sourced(sigs@, s@, p@, (#[trigger] objs@[k])@),
            forall|j: int| 0 <= j < i && about(#[trigger] sigs@[j], s@, p@) ==> listed(objs@, sigs@[j].0.object@),
        decreases sigs@.len() - i,
    {
        let x = &sigs[i];
        proof {
            assert(sigs@[i as int] == *x);
        }
        if x.0.subject == *s && x.0.predicate == *p {
            let mut k: usize = 0;
            let mut found = false;
            while k < objs.len()
                invariant
                    k <= objs@.len(),
                    found ==> listed(objs@, x.0.object@),
                decreases objs@.len() - k,
            {
                if objs[k] == x.0.object {
                    found = true;
                }
                k = k + 1;
            }
            if !found {
                let ghost before = objs@;
                objs.push(x.0.object.clone());
                proof {
                    assert forall|t: int| 0 <= t < objs@.len() implies sourced(sigs@, s@, p@, (#[trigger] objs@[t])@) by {
                        if t < before.len() {
                            assert(objs@[t] == before[t]);
                        } else {
                            assert(about(sigs@[i as int], s@, p@));
                        }
                    }
                    assert forall|j: int| 0 <= j < i + 1 && about(#[trigger] sigs@[j], s@, p@) implies listed(
                        objs@,
                        sigs@[j].0.object@,
                    ) by {
                        if j < i {
                            let t = choose|t: int| 0 <= t < before.len() && (#[trigger] before[t])@ == sigs@[j].0.object@;
                            assert(objs@[t] == before[t]);
                        } else {
                            assert(objs@[before.len() as int]@ == sigs@[j].0.object@);
                        }
                    }
                }
            }
        }
        i = i + 1;
    }
    objs
}

/// The dominant object of belief `(s, p)` among `objs`, with its evidence.
fn dominant_of(sigs: &Vec<(Signal, MemoryId)>, s: &String, p: &String, objs: &Vec<String>) -> (r: (
    String,
    Vec<MemoryId>,
))
    requires
        objs@.len() > 0,
        forall|k: int| 0 <= k < objs@.len() ==> sourced(sigs@, s@, p@, (#[trigger] objs@[k])@),
        forall|i: int| 0 <= i < sigs@.len() && about(#[trigger] sigs@[i], s@, p@) ==> listed(objs@, sigs@[i].0.object@),
    ensures
        dominant(sigs@, s@, p@, r.0@),
        r.1@ == support(sigs@, s@, p@, r.0@),
{
    let ghost sg = sigs@;
    let mut best = objs[0].clone();
    let mut best_ids = support_of(sigs, s, p, &best);
    let mut k: usize = 1;
    proof {
        assert(sourced(sg, s@, p@, objs@[0]@));
        let i0 = choose|i: int| 0 <= i < sg.len() && about(#[trigger] sg[i], s@, p@) && sg[i].0.object@ == objs@[0]@;
        lemma_support_positive(sg, s@, p@, i0);
    }
    while k < objs.len()
        invariant
            1 <= k <= objs@.len(),
            sg == sigs@,
            best_ids@ == support(sg, s@, p@, best@),
            best_ids@.len() > 0,
            listed(objs@, best@),
            forall|t: int| 0 <= t < k && (#[trigger] objs@[t])@ != best@ ==> beats(sg, s@, p@, best@, objs@[t]@),
        decreases objs@.len() - k,
    {
        let cand = &objs[k];
        let ids = support_of(sigs, s, p, cand);
        let better = ids.len() > best_ids.len() || (ids.len() == best_ids.len() && str_lt(cand, &best));
        proof {
            lemma_chars_lt_strict_total(cand@, best@);
        }
        if better {
            let ghost old_best = best@;
            best = cand.clone();
            best_ids = ids;
            proof {
                assert forall|t: int| 0 <= t < k + 1 && (#[trigger] objs@[t])@ != best@ implies beats(
                    sg,
                    s@,
                    p@,
                    best@,
                    objs@[t]@,
                ) by {
                    if objs@[t]@ != old_best {
                        if t < k {
                            if support(sg, s@, p@, objs@[t]@).len() == best_ids@.len() {
                                lemma_chars_lt_transitive(best@, old_best, objs@[t]@);
                            }
                        }
                    }
                }
            }
        } else {
            proof {
                if cand@ == best@ {
                } else {
                    assert(beats(sg, s@, p@, best@, cand@));
                }
            }
        }
        k = k + 1;
    }
    proof {
        assert forall|i: int| 0 <= i < sg.len() && about(#[trigger] sg[i], s@, p@) && sg[i].0.object@ != best@ implies beats(
            sg,
            s@,
            p@,
            best@,
            sg[i].0.object@,
        ) by {
            assert(listed(objs@, sg[i].0.object@));
            let t = choose|t: int| 0 <= t < objs@.len() && (#[trigger] objs@[t])@ == sg[i].0.object@;
            assert(objs@[t]@ != best@);
        }
    }
    (best, best_ids)
}

/// A signal about `(s, p)` with object `o` is evidence for `o`.
proof fn lemma_support_positive(sigs: Seq<(Signal, MemoryId)>, s: Seq<char>, p: Seq<char>, i: int)
    requires
        0 <= i < sigs.len(),
        about(sigs[i], s, p),
    ensures
        support(sigs, s, p, sigs[i].0.object@).len() > 0,
    decreases sigs.len(),
{
    let o = sigs[i].0.object@;
    if i < sigs.len() - 1 {
        assert(sigs.drop_last()[i] == sigs[i]);
        lemma_support_positive(sigs.drop_last(), s, p, i);
    }
}


/// A belief promoted from episodic evidence: the dominant object of its
/// `(subject, predicate)` group and, as provenance, the ids of exactly the
/// events that support it.
#[derive(Debug)]
pub struct Promotion {
    /// Subject of the belief.
    pub subject: String,
    /// Predicate of the belief.
    pub predicate: String,
    /// The dominant object value.
    pub object: String,
    /// The ids of the events that support this belief, in event order.
    pub provenance: Vec<MemoryId>,
}

/// Object `o` is promoted for belief `(s, p)`: it is the dominant object and
/// has at least `min` supporting events.
pub open spec fn promoted(sigs: Seq<(Signal, MemoryId)>, s: Seq<char>, p: Seq<char>, o: Seq<char>, min: nat) -> bool {
    dominant(sigs, s, p, o) && support(sigs, s, p, o).len() >= min
}

/// `r` is a promotion the signals justify: its object is promoted and its
/// provenance is exactly that object's evidence.
pub open spec fn justified(sigs: Seq<(Signal, MemoryId)>, r: Promotion, min: nat) -> bool {
    &&& promoted(sigs, r.subject@, r.predicate@, r.object@, min)
    &&& r.provenance@ == support(sigs, r.subject@, r.predicate@, r.object@)
}

/// `a` comes before `b` in `(subject, predicate)` order.
pub open spec fn before(a: Promotion, b: Promotion) -> bool {
    pair_lt(a.subject@, a.predicate@, b.subject@, b.predicate@)
}

/// Strictly increasing in `(subject, predicate)` order.
pub open spec fn sorted(out: Seq<Promotion>) -> bool {
    forall|a: int, b: int| 0 <= a < b < out.len() ==> before(#[trigger] out[a], #[trigger] out[b])
}

/// Some promotion in `out` is for belief `(s, p)`.
pub open spec fn covers(out: Seq<Promotion>, s: Seq<char>, p: Seq<char>) -> bool {
    exists|k: int| 0 <= k < out.len() && (#[trigger] out[k]).subject@ == s && out[k].predicate@ == p
}

/// Inserts `r` into `out` where `(subject, predicate)` order puts it.
fn insert_sorted(out: &mut Vec<Promotion>, r: Promotion) -> (pos: usize)
    requires
        sorted(old(out)@),
        forall|k: int| 0 <= k < old(out)@.len() ==> !((#[trigger] old(out)@[k]).subject@ == r.subject@
            && old(out)@[k].predicate@ == r.predicate@),
    ensures
        pos <= old(out)@.len(),
        final(out)@ == old(out)@.insert(pos as int, r),
        sorted(final(out)@),
{
    let ghost r0 = r;
    let mut pos: usize = 0;
    while pos < out.len() && !pair_lt_exec(&r, &out[pos])
        invariant
            pos <= out@.len(),
            sorted(out@),
            r == r0,
            forall|k: int| 0 <= k < pos ==> before(#[trigger] out@[k], r0),
            forall|k: int| 0 <= k < out@.len() ==> !((#[trigger] out@[k]).subject@ == r0.subject@
                && out@[k].predicate@ == r0.predicate@),
        decreases out@.len() - pos,
    {
        proof {
            let q = out@[pos as int];
            lemma_pair_order(q.subject@, q.predicate@, r0.subject@, r0.predicate@, r0.subject@, r0.predicate@);
        }
        pos = pos + 1;
    }
    let ghost prev = out@;
    out.insert(pos, r);
    proof {
        assert forall|a: int, b: int| 0 <= a < b < out@.len() implies before(#[trigger] out@[a], #[trigger] out@[b]) by {
            if b < pos {
                assert(before(prev[a], prev[b]));
            } else if b == pos {
                assert(out@[a] == prev[a]);
            } else if a == pos {
                let q = prev[b - 1];
                assert(out@[b] == q);
                assert(before(prev[pos as int], q) || b - 1 == pos);
                lemma_pair_order(r0.subject@, r0.predicate@, prev[pos as int].subject@, prev[pos as int].predicate@, q.subject@, q.predicate@);
            } else if a < pos {
                let q = prev[b - 1];
                lemma_pair_order(prev[a].subject@, prev[a].predicate@, r0.subject@, r0.predicate@, q.subject@, q.predicate@);
                if b - 1 > pos {
                    assert(before(prev[pos as int], q));
                    lemma_pair_order(r0.subject@, r0.predicate@, prev[pos as int].subject@, prev[pos as int].predicate@, q.subject@, q.predicate@);
                }
            } else {
                assert(before(prev[a - 1], prev[b - 1]));
            }
        }
    }
    pos
}

/// Whether `a` comes strictly before `b` in `(subject, predicate)` order.
fn pair_lt_exec(a: &Promotion, b: &Promotion) -> (r: bool)
    ensures
        r == before(*a, *b),
{
    str_lt(&a.subject, &b.subject) || (a.subject == b.subject && str_lt(&a.predicate, &b.predicate))
}

/// The pair `(s, p)` is one of `seen`.
spec fn seen_pair(seen: Seq<(String, String)>, s: Seq<char>, p: Seq<char>) -> bool {
    exists|t: int| 0 <= t < seen.len() && (#[trigger] seen[t]).0@ == s && seen[t].1@ == p
}

/// Promotes beliefs from signals, each paired with the id of the event it
/// came from. For each `(subject, predicate)` the dominant object (the most
/// supporting events, ties to the smallest object) is promoted when its
/// evidence count is at least `min_evidence`; its provenance is exactly its
/// supporting event ids. The output is sorted by `(subject, predicate)`.
pub fn promote(sigs: &Vec<(Signal, MemoryId)>, min_evidence: usize) -> (out: Vec<Promotion>)
    ensures
        forall|k: int| 0 <= k < out@.len() ==> justified(sigs@, #[trigger] out@[k], min_evidence as nat),
        forall|i: int, o: Seq<char>|
            0 <= i < sigs@.len() && #[trigger] promoted(sigs@, sigs@[i].0.subject@, sigs@[i].0.predicate@, o, min_evidence as nat)
                ==> covers(out@, sigs@[i].0.subject@, sigs@[i].0.predicate@),
        sorted(out@),
{
    let ghost sg = sigs@;
    let ghost min = min_evidence as nat;
    let mut out: Vec<Promotion> = Vec::new();
    let mut seen: Vec<(String, String)> = Vec::new();
    let mut i: usize = 0;
    while i < sigs.len()
        invariant
            i <= sg.len(),
            sg == sigs@,
            min == min_evidence as nat,
            forall|k: int| 0 <= k < out@.len() ==> justified(sg, #[trigger] out@[k], min),
            sorted(out@),
            forall|k: int| 0 <= k < out@.len() ==> seen_pair(seen@, (#[trigger] out@[k]).subject@, out@[k].predicate@),
            forall|j: int| 0 <= j < i ==> seen_pair(seen@, (#[trigger] sg[j]).0.subject@, sg[j].0.predicate@),
            forall|t: int, o: Seq<char>|
                0 <= t < seen@.len() && #[trigger] promoted(sg, seen@[t].0@, seen@[t].1@, o, min)
                    ==> covers(out@, seen@[t].0@, seen@[t].1@),
        decreases sg.len() - i,
    {
        let x = &sigs[i];
        proof {
            assert(sg[i as int] == *x);
        }
        match find_pair(&seen, &x.0.subject, &x.0.predicate) {
            Some(t) => {
                proof {
                    assert(seen@[t as int].0@ == x.0.subject@);
                }
            },
            None => {
                let s = &x.0.subject;
                let p = &x.0.predicate;
                let objs = objects_of(sigs, s, p);
                proof {
                    assert(about(sg[i as int], s@, p@));
                }
                let (best, ids) = dominant_of(sigs, s, p, &objs);
                let ghost seen0 = seen@;
                let ghost out0 = out@;
                seen.push((s.clone(), p.clone()));
                if ids.len() >= min_evidence {
                    let r = Promotion { subject: s.clone(), predicate: p.clone(), object: best, provenance: ids };
                    proof {
                        assert forall|k: int| 0 <= k < out@.len() implies !((#[trigger] out@[k]).subject@ == r.subject@
                            && out@[k].predicate@ == r.predicate@) by {
                            assert(seen_pair(seen0, out@[k].subject@, out@[k].predicate@));
                        }
                    }
                    let pos = insert_sorted(&mut out, r);
                    proof {
                        assert(out@[pos as int] == r);
                        assert forall|k: int| 0 <= k < out@.len() implies justified(sg, #[trigger] out@[k], min)
                            && seen_pair(seen@, out@[k].subject@, out@[k].predicate@) by {
                            if k < pos {
                                assert(out@[k] == out0[k]);
                            } else if k > pos {
                                assert(out@[k] == out0[k - 1]);
                            }
                            if k != pos {
                                let t = choose|t: int| 0 <= t < seen0.len() && (#[trigger] seen0[t]).0@ == out@[k].subject@
                                    && seen0[t].1@ == out@[k].predicate@;
                                assert(seen@[t] == seen0[t]);
                            } else {
                                assert(seen@[seen0.len() as int].0@ == s@);
                            }
                        }
                        assert forall|t: int, o: Seq<char>|
                            0 <= t < seen@.len() && #[trigger] promoted(sg, seen@[t].0@, seen@[t].1@, o, min)
                                implies covers(out@, seen@[t].0@, seen@[t].1@) by {
                            if t < seen0.len() {
                                assert(seen@[t] == seen0[t]);
                                assert(covers(out0, seen0[t].0@, seen0[t].1@));
                                let k = choose|k: int| 0 <= k < out0.len() && (#[trigger] out0[k]).subject@ == seen0[t].0@
                                    && out0[k].predicate@ == seen0[t].1@;
                                if k < pos {
                                    assert(out@[k] == out0[k]);
                                } else {
                                    assert(out@[k + 1] == out0[k]);
                                }
                            } else {
                                assert(out@[pos as int].subject@ == seen@[t].0@);
                            }
                        }
                    }
                } else {
                    proof {
                        assert forall|t: int, o: Seq<char>|
                            0 <= t < seen@.len() && #[trigger] promoted(sg, seen@[t].0@, seen@[t].1@, o, min)
                                implies covers(out@, seen@[t].0@, seen@[t].1@) by {
                            if t < seen0.len() {
                                assert(seen@[t] == seen0[t]);
                            } else {
                                lemma_dominant_unique(sg, s@, p@, o, best@);
                            }
                        }
                        assert forall|k: int| 0 <= k < out@.len() implies seen_pair(
                            seen@,
                            (#[trigger] out@[k]).subject@,
                            out@[k].predicate@,
                        ) by {
                            let t = choose|t: int| 0 <= t < seen0.len() && (#[trigger] seen0[t]).0@ == out@[k].subject@
                                && seen0[t].1@ == out@[k].predicate@;
                            assert(seen@[t] == seen0[t]);
                        }
                    }
                }
                proof {
                    assert forall|j: int| 0 <= j < i + 1 implies seen_pair(seen@, (#[trigger] sg[j]).0.subject@, sg[j].0.predicate@) by {
                        if j < i {
                            let t = choose|t: int| 0 <= t < seen0.len() && (#[trigger] seen0[t]).0@ == sg[j].0.subject@
                                && seen0[t].1@ == sg[j].0.predicate@;
                            assert(seen@[t] == seen0[t]);
                        } else {
                            assert(seen@[seen0.len() as int].0@ == s@);
                        }
                    }
                }
            },
        }
        i = i + 1;
    }
    proof {
        assert forall|i: int, o: Seq<char>|
            0 <= i < sg.len() && #[trigger] promoted(sg, sg[i].0.subject@, sg[i].0.predicate@, o, min)
                implies covers(out@, sg[i].0.subject@, sg[i].0.predicate@) by {
            assert(seen_pair(seen@, sg[i].0.subject@, sg[i].0.predicate@));
            let t = choose|t: int| 0 <= t < seen@.len() && (#[trigger] seen@[t]).0@ == sg[i].0.subject@
                && seen@[t].1@ == sg[i].0.predicate@;
            assert(promoted(sg, seen@[t].0@, seen@[t].1@, o, min));
        }
    }
    out
}

} // verus!
