//! Text order: strings compared by code point, and `(subject, predicate)`
//! pairs compared lexicographically.

use vstd::prelude::*;
use vstd::string::StrSliceExecFns;

verus! {

/// Lexicographic order on strings by code point (the order of `String`'s
/// `Ord`, which compares UTF-8 bytes).
pub open spec fn chars_lt(a: Seq<char>, b: Seq<char>) -> bool
    decreases a.len(),
{
    if a.len() == 0 || b.len() == 0 {
        a.len() == 0 && b.len() > 0
    } else if a[0] != b[0] {
        a[0] < b[0]
    } else {
        chars_lt(a.drop_first(), b.drop_first())
    }
}

/// The order on strings is transitive.
pub proof fn lemma_chars_lt_transitive(a: Seq<char>, b: Seq<char>, c: Seq<char>)
    requires
        chars_lt(a, b),
        chars_lt(b, c),
    ensures
        chars_lt(a, c),
    decreases a.len(),
{
    if a.len() > 0 && b.len() > 0 && c.len() > 0 && a[0] == b[0] && b[0] == c[0] {
        lemma_chars_lt_transitive(a.drop_first(), b.drop_first(), c.drop_first());
    }
}

/// The order on strings is irreflexive and total.
pub proof fn lemma_chars_lt_strict_total(a: Seq<char>, b: Seq<char>)
    ensures
        !chars_lt(a, a),
        a == b || chars_lt(a, b) || chars_lt(b, a),
        !(chars_lt(a, b) && chars_lt(b, a)),
    decreases a.len(),
{
    if a.len() > 0 && b.len() > 0 {
        lemma_chars_lt_strict_total(a.drop_first(), b.drop_first());
        lemma_chars_lt_strict_total(a.drop_first(), a.drop_first());
        if a[0] == b[0] {
            let (da, db) = (a.drop_first(), b.drop_first());
            if da == db {
                assert forall|i: int| 0 <= i < a.len() implies a[i] == b[i] by {
                    if i > 0 {
                        assert(a[i] == da[i - 1]);
                        assert(b[i] == db[i - 1]);
                    }
                }
                assert(a =~= b);
            }
        }
    } else if a.len() == 0 && b.len() == 0 {
        assert(a =~= b);
    } else if a.len() > 0 {
        lemma_chars_lt_strict_total(a.drop_first(), a.drop_first());
    }
}

/// Whether `a` comes strictly before `b`.
pub fn str_lt(a: &String, b: &String) -> (r: bool)
    ensures
        r == chars_lt(a@, b@),
{
    let (x, y) = (a.as_str(), b.as_str());
    let (n, m) = (x.unicode_len(), y.unicode_len());
    let mut i: usize = 0;
    proof {
        assert(x@.skip(0) =~= x@);
        assert(y@.skip(0) =~= y@);
    }
    while i < n && i < m
        invariant
            x@ == a@,
            y@ == b@,
            n == x@.len(),
            m == y@.len(),
            i <= n,
            i <= m,
            chars_lt(x@, y@) == chars_lt(x@.skip(i as int), y@.skip(i as int)),
        decreases n - i,
    {
        let (c, d) = (x.get_char(i), y.get_char(i));
        proof {
            let (xs, ys) = (x@.skip(i as int), y@.skip(i as int));
            assert(xs[0] == c && ys[0] == d);
            assert(xs.drop_first() =~= x@.skip(i + 1));
            assert(ys.drop_first() =~= y@.skip(i + 1));
        }
        if c != d {
            return c < d;
        }
        i = i + 1;
    }
    i == n && i < m
}

/// Pairs `(subject, predicate)` in lexicographic order.
pub open spec fn pair_lt(s1: Seq<char>, p1: Seq<char>, s2: Seq<char>, p2: Seq<char>) -> bool {
    chars_lt(s1, s2) || (s1 == s2 && chars_lt(p1, p2))
}

/// `(subject, predicate)` order is a strict total order.
pub proof fn lemma_pair_order(
    s1: Seq<char>,
    p1: Seq<char>,
    s2: Seq<char>,
    p2: Seq<char>,
    s3: Seq<char>,
    p3: Seq<char>,
)
    ensures
        !pair_lt(s1, p1, s1, p1),
        (s1 == s2 && p1 == p2) || pair_lt(s1, p1, s2, p2) || pair_lt(s2, p2, s1, p1),
        !(pair_lt(s1, p1, s2, p2) && pair_lt(s2, p2, s1, p1)),
        pair_lt(s1, p1, s2, p2) && pair_lt(s2, p2, s3, p3) ==> pair_lt(s1, p1, s3, p3),
{
    lemma_chars_lt_strict_total(s1, s2);
    lemma_chars_lt_strict_total(p1, p2);
    lemma_chars_lt_strict_total(s2, s3);
    if chars_lt(s1, s2) && chars_lt(s2, s3) {
        lemma_chars_lt_transitive(s1, s2, s3);
    }
    if chars_lt(p1, p2) && chars_lt(p2, p3) {
        lemma_chars_lt_transitive(p1, p2, p3);
    }
}

} // verus!
