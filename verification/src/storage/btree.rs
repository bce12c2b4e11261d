//! A copy-on-write B-tree providing snapshot reads (MVCC).
//!
//! Nodes are immutable and shared via `Arc`. A write clones only the root-to-leaf
//! path it touches (everything else is shared) and installs a new root. A
//! [`Snapshot`] pins one root: later writes to the tree never change what it
//! reads.
//!
//! It is an order-`B` B-tree: keys and values live in every node, a node holds at
//! most `B - 1` keys, and an overflowing node splits around its median.

use std::sync::Arc;
use vstd::prelude::*;

use crate::storage::key::BKey;

verus! {

/// Branching factor: a node holds at most `B - 1` keys and `B` children.
pub const B: usize = 32;

/// Maximum keys per node before it must split.
pub const MAX_KEYS: usize = 31;

/// An immutable B-tree node. `children` is empty for a leaf; otherwise it has
/// exactly `keys.len() + 1` entries.
pub struct Node<K, V> {
    keys: Vec<K>,
    vals: Vec<V>,
    children: Vec<Arc<Node<K, V>>>,
}

/// The entries of the slots of `n` from slot `i` on, in key order: for an
/// internal node, child `i`, then key `i`, then the rest; for a leaf, key `i`
/// and the rest.
spec fn slots<K, V>(n: Node<K, V>, i: int) -> Seq<(K, V)>
    decreases n, n.keys@.len() - i,
{
    if i < 0 || i > n.keys@.len() {
        Seq::empty()
    } else if n.children@.len() == 0 {
        if i == n.keys@.len() {
            Seq::empty()
        } else {
            seq![(n.keys@[i], n.vals@[i])] + slots(n, i + 1)
        }
    } else if i >= n.children@.len() {
        Seq::empty()
    } else {
        let c = slots(*n.children@[i], 0);
        if i == n.keys@.len() {
            c
        } else {
            c + seq![(n.keys@[i], n.vals@[i])] + slots(n, i + 1)
        }
    }
}

/// All entries of the subtree rooted at `n`, in order.
spec fn inorder<K, V>(n: Node<K, V>) -> Seq<(K, V)> {
    slots(n, 0)
}

/// The entries of slot `i` alone (the child before key `i`, then key `i`).
spec fn seg<K, V>(n: Node<K, V>, i: int) -> Seq<(K, V)> {
    if n.children@.len() == 0 {
        seq![(n.keys@[i], n.vals@[i])]
    } else {
        inorder(*n.children@[i]) + seq![(n.keys@[i], n.vals@[i])]
    }
}

/// The entries of the first `i` slots.
spec fn pre<K, V>(n: Node<K, V>, i: int) -> Seq<(K, V)>
    decreases i,
{
    if i <= 0 {
        Seq::empty()
    } else {
        pre(n, i - 1) + seg(n, i - 1)
    }
}

/// The shape of every node: as many values as keys, and either no children or
/// one more child than keys.
spec fn wf<K, V>(n: Node<K, V>) -> bool
    decreases n,
{
    &&& n.keys@.len() == n.vals@.len()
    &&& n.keys@.len() <= MAX_KEYS
    &&& n.children@.len() == 0 || n.children@.len() == n.keys@.len() + 1
    &&& forall|j: int| 0 <= j < n.children@.len() ==> wf(#[trigger] *n.children@[j])
}

/// Every leaf under `n` lies at depth `h` below it: a leaf has height 0, and
/// every child of an internal node has height `h - 1`.
spec fn balanced<K, V>(n: Node<K, V>, h: nat) -> bool
    decreases n,
{
    if n.children@.len() == 0 {
        h == 0
    } else {
        &&& h > 0
        &&& forall|j: int| 0 <= j < n.children@.len() ==> balanced(#[trigger] *n.children@[j], (h - 1) as nat)
    }
}

/// Keys strictly increase along `s`.
pub open spec fn sorted<K: BKey, V>(s: Seq<(K, V)>) -> bool {
    forall|i: int, j: int| 0 <= i < j < s.len() ==> (#[trigger] s[i]).0.precedes((#[trigger] s[j]).0)
}

/// Some entry of `s` has key `k`.
pub open spec fn has_key<K, V>(s: Seq<(K, V)>, k: K) -> bool {
    exists|i: int| 0 <= i < s.len() && (#[trigger] s[i]).0 == k
}

/// `s1` is `s0` with `k` bound to `v`: sorted, holding exactly the entries of
/// `s0` whose key is not `k`, plus `(k, v)`; `old` is the value `s0` held for `k`.
pub open spec fn upserted<K: BKey, V>(
    s0: Seq<(K, V)>,
    s1: Seq<(K, V)>,
    k: K,
    v: V,
    old: Option<V>,
) -> bool {
    &&& sorted(s1)
    &&& forall|e: (K, V)| #[trigger] s1.contains(e) <==> (e == (k, v) || (e.0 != k && s0.contains(e)))
    &&& s1.len() == s0.len() + if old is None {
        1int
    } else {
        0int
    }
    &&& match old {
        Some(o) => s0.contains((k, o)),
        None => !has_key(s0, k),
    }
}

/// The value bound to `k` in `s` (meaningful when `s` has the key).
pub open spec fn value_at<K, V>(s: Seq<(K, V)>, k: K) -> V {
    choose|v: V| #[trigger] s.contains((k, v))
}

/// In a sorted sequence a key is bound to one value, and `value_at` finds it.
pub proof fn lemma_value_at<K: BKey, V>(s: Seq<(K, V)>, k: K, v: V)
    requires
        sorted(s),
        s.contains((k, v)),
    ensures
        value_at(s, k) == v,
        has_key(s, k),
{
    let w = value_at(s, k);
    let p = choose|p: int| 0 <= p < s.len() && s[p] == (k, v);
    assert(s[p].0 == k);
    let q = choose|q: int| 0 <= q < s.len() && s[q] == (k, w);
    if p < q {
        K::lemma_strict_total(k, k, k);
    } else if q < p {
        K::lemma_strict_total(k, k, k);
    }
}

/// A key that is present is bound to `value_at`.
pub proof fn lemma_has_key_value<K: BKey, V>(s: Seq<(K, V)>, k: K)
    requires
        has_key(s, k),
    ensures
        s.contains((k, value_at(s, k))),
{
    let p = choose|p: int| 0 <= p < s.len() && (#[trigger] s[p]).0 == k;
    assert(s.contains((k, s[p].1))) by {
        assert(s[p] == (k, s[p].1));
    }
}

/// Reading after a write: once `k` is upserted with `v`, `k` is bound to `v`,
/// every other key keeps exactly its binding, and the count grows by one
/// exactly when `k` was new.
pub proof fn lemma_insert_then_get<K: BKey, V>(s0: Seq<(K, V)>, s1: Seq<(K, V)>, k: K, v: V, prev: Option<V>)
    requires
        sorted(s0),
        upserted(s0, s1, k, v, prev),
    ensures
        has_key(s1, k),
        value_at(s1, k) == v,
        forall|k2: K| k2 != k ==> #[trigger] has_key(s1, k2) == has_key(s0, k2),
        forall|k2: K| k2 != k && has_key(s0, k2) ==> #[trigger] value_at(s1, k2) == value_at(s0, k2),
        s1.len() == s0.len() + (if has_key(s0, k) {
            0int
        } else {
            1int
        }),
{
    assert(s1.contains((k, v)));
    lemma_value_at(s1, k, v);
    assert forall|k2: K| k2 != k && has_key(s0, k2) implies #[trigger] value_at(s1, k2) == value_at(s0, k2) by {
        lemma_has_key_value(s0, k2);
        let w = value_at(s0, k2);
        assert(s1.contains((k2, w)));
        lemma_value_at(s1, k2, w);
    }
    assert forall|k2: K| k2 != k implies #[trigger] has_key(s1, k2) == has_key(s0, k2) by {
        if has_key(s0, k2) {
            lemma_has_key_value(s0, k2);
            let w = value_at(s0, k2);
            assert(s1.contains((k2, w)));
            lemma_value_at(s1, k2, w);
        }
        if has_key(s1, k2) {
            lemma_has_key_value(s1, k2);
            let w = value_at(s1, k2);
            assert(s0.contains((k2, w)));
            lemma_value_at(s0, k2, w);
        }
    }
    if let Some(o) = prev {
        assert(s0.contains((k, o)));
        lemma_value_at(s0, k, o);
    }
}

/// Every key of `s` comes strictly before `k`.
pub open spec fn all_below<K: BKey, V>(s: Seq<(K, V)>, k: K) -> bool {
    forall|i: int| 0 <= i < s.len() ==> (#[trigger] s[i]).0.precedes(k)
}

/// Every key of `s` comes strictly after `k`.
pub open spec fn all_above<K: BKey, V>(s: Seq<(K, V)>, k: K) -> bool {
    forall|i: int| 0 <= i < s.len() ==> k.precedes((#[trigger] s[i]).0)
}

proof fn lemma_contains_concat<A>(a: Seq<A>, b: Seq<A>, x: A)
    ensures
        (a + b).contains(x) <==> (a.contains(x) || b.contains(x)),
{
    if (a + b).contains(x) {
        let i = choose|i: int| 0 <= i < (a + b).len() && (a + b)[i] == x;
        if i < a.len() {
            assert(a[i] == x);
        } else {
            assert(b[i - a.len()] == x);
        }
    }
    if a.contains(x) {
        let i = choose|i: int| 0 <= i < a.len() && a[i] == x;
        assert((a + b)[i] == x);
    }
    if b.contains(x) {
        let i = choose|i: int| 0 <= i < b.len() && b[i] == x;
        assert((a + b)[a.len() + i] == x);
    }
}

/// Concatenating sorted runs whose keys are separated stays sorted.
proof fn lemma_sorted_concat<K: BKey, V>(a: Seq<(K, V)>, b: Seq<(K, V)>)
    requires
        sorted(a),
        sorted(b),
        forall|i: int, j: int|
            0 <= i < a.len() && 0 <= j < b.len() ==> (#[trigger] a[i]).0.precedes((#[trigger] b[j]).0),
    ensures
        sorted(a + b),
{
    let s = a + b;
    assert forall|i: int, j: int| 0 <= i < j < s.len() implies (#[trigger] s[i]).0.precedes(
        (#[trigger] s[j]).0,
    ) by {
        if j < a.len() {
            assert(s[i] == a[i] && s[j] == a[j]);
        } else if i >= a.len() {
            assert(s[i] == b[i - a.len()] && s[j] == b[j - a.len()]);
        } else {
            assert(s[i] == a[i] && s[j] == b[j - a.len()]);
        }
    }
}

/// A sorted run is sorted on any contiguous piece.
proof fn lemma_sorted_parts<K: BKey, V>(a: Seq<(K, V)>, b: Seq<(K, V)>)
    requires
        sorted(a + b),
    ensures
        sorted(a),
        sorted(b),
        forall|i: int, j: int|
            0 <= i < a.len() && 0 <= j < b.len() ==> (#[trigger] a[i]).0.precedes((#[trigger] b[j]).0),
{
    let s = a + b;
    assert forall|i: int, j: int| 0 <= i < j < a.len() implies (#[trigger] a[i]).0.precedes(
        (#[trigger] a[j]).0,
    ) by {
        assert(s[i] == a[i] && s[j] == a[j]);
    }
    assert forall|i: int, j: int| 0 <= i < j < b.len() implies (#[trigger] b[i]).0.precedes(
        (#[trigger] b[j]).0,
    ) by {
        assert(s[a.len() + i] == b[i] && s[a.len() + j] == b[j]);
    }
    assert forall|i: int, j: int| 0 <= i < a.len() && 0 <= j < b.len() implies (#[trigger] a[i]).0.precedes(
        (#[trigger] b[j]).0,
    ) by {
        assert(s[i] == a[i] && s[a.len() + j] == b[j]);
    }
}

/// Upserting into the middle run of `p + c + t`, where `k` lies strictly between
/// the keys of `p` and those of `t`, upserts into the whole.
proof fn lemma_upsert_middle<K: BKey, V>(
    p: Seq<(K, V)>,
    c: Seq<(K, V)>,
    t: Seq<(K, V)>,
    c1: Seq<(K, V)>,
    k: K,
    v: V,
    old: Option<V>,
)
    requires
        sorted(p + c + t),
        upserted(c, c1, k, v, old),
        all_below(p, k),
        all_above(t, k),
    ensures
        upserted(p + c + t, p + c1 + t, k, v, old),
{
    lemma_sorted_parts(p + c, t);
    lemma_sorted_parts(p, c);
    assert forall|i: int, j: int|
        0 <= i < p.len() && 0 <= j < c1.len() implies (#[trigger] p[i]).0.precedes(
        (#[trigger] c1[j]).0,
    ) by {
        let e = c1[j];
        assert(c1.contains(e));
        if e.0 == k {
        } else {
            assert(c.contains(e));
            let jj = choose|jj: int| 0 <= jj < c.len() && c[jj] == e;
            assert(p[i].0.precedes(c[jj].0));
        }
    }
    lemma_sorted_concat(p, c1);
    assert forall|i: int, j: int|
        0 <= i < (p + c1).len() && 0 <= j < t.len() implies (#[trigger] (p + c1)[i]).0.precedes(
        (#[trigger] t[j]).0,
    ) by {
        let e = (p + c1)[i];
        if i < p.len() {
            assert(e == p[i]);
            assert((p + c)[i] == p[i]);
        } else {
            assert(e == c1[i - p.len()]);
            assert(c1.contains(e));
            if e.0 == k {
            } else {
                assert(c.contains(e));
                let jj = choose|jj: int| 0 <= jj < c.len() && c[jj] == e;
                assert((p + c)[p.len() + jj] == e);
            }
        }
    }
    lemma_sorted_concat(p + c1, t);
    assert forall|e: (K, V)| #[trigger] (p + c1 + t).contains(e) <==> (e == (k, v) || (e.0 != k && (p + c
        + t).contains(e))) by {
        lemma_contains_concat(p + c1, t, e);
        lemma_contains_concat(p, c1, e);
        lemma_contains_concat(p + c, t, e);
        lemma_contains_concat(p, c, e);
        if p.contains(e) {
            let i = choose|i: int| 0 <= i < p.len() && p[i] == e;
            assert(p[i].0.precedes(k));
            K::lemma_strict_total(k, k, k);
        }
        if t.contains(e) {
            let i = choose|i: int| 0 <= i < t.len() && t[i] == e;
            assert(k.precedes(t[i].0));
            K::lemma_strict_total(k, k, k);
        }
    }
    match old {
        Some(o) => {
            lemma_contains_concat(p + c, t, (k, o));
            lemma_contains_concat(p, c, (k, o));
        },
        None => {
            if has_key(p + c + t, k) {
                let i = choose|i: int| 0 <= i < (p + c + t).len() && (#[trigger] (p + c + t)[i]).0 == k;
                K::lemma_strict_total(k, k, k);
                if i < p.len() {
                    assert((p + c + t)[i] == p[i]);
                } else if i < p.len() + c.len() {
                    assert((p + c + t)[i] == c[i - p.len()]);
                } else {
                    assert((p + c + t)[i] == t[i - p.len() - c.len()]);
                }
            }
        },
    }
}

/// The node's vectors have the lengths a node needs (its children unconstrained).
spec fn shape<K, V>(n: Node<K, V>) -> bool {
    &&& n.keys@.len() == n.vals@.len()
    &&& n.children@.len() == 0 || n.children@.len() == n.keys@.len() + 1
}

/// The slots from `i` on are slot `i` followed by the slots from `i + 1` on.
proof fn lemma_slots_step<K, V>(n: Node<K, V>, i: int)
    requires
        shape(n),
        0 <= i < n.keys@.len(),
    ensures
        slots(n, i) == seg(n, i) + slots(n, i + 1),
{
    if n.children@.len() != 0 {
        assert(slots(n, i) == inorder(*n.children@[i]) + seq![(n.keys@[i], n.vals@[i])] + slots(n, i + 1));
    }
}

/// All slots are the first `i` slots followed by the rest.
proof fn lemma_pre_slots<K, V>(n: Node<K, V>, i: int)
    requires
        shape(n),
        0 <= i <= n.keys@.len(),
    ensures
        inorder(n) == pre(n, i) + slots(n, i),
    decreases i,
{
    if i > 0 {
        lemma_pre_slots(n, i - 1);
        lemma_slots_step(n, i - 1);
        assert(pre(n, i - 1) + (seg(n, i - 1) + slots(n, i)) =~= pre(n, i) + slots(n, i));
    } else {
        assert(pre(n, 0) + slots(n, 0) =~= slots(n, 0));
    }
}

/// The last slot of an internal node is its last child alone; a leaf has nothing
/// past its last key.
proof fn lemma_slots_last<K, V>(n: Node<K, V>)
    requires
        shape(n),
    ensures
        n.children@.len() == 0 ==> slots(n, n.keys@.len() as int) == Seq::<(K, V)>::empty(),
        n.children@.len() != 0 ==> slots(n, n.keys@.len() as int) == inorder(
            *n.children@[n.keys@.len() as int],
        ),
{
}

/// The first `i` slots only depend on the first `i` keys, values and children.
proof fn lemma_pre_same<K, V>(n1: Node<K, V>, n2: Node<K, V>, i: int)
    requires
        0 <= i <= n1.keys@.len(),
        i <= n2.keys@.len(),
        i <= n1.vals@.len(),
        i <= n2.vals@.len(),
        (n1.children@.len() == 0) == (n2.children@.len() == 0),
        n1.children@.len() != 0 ==> i <= n1.children@.len() && i <= n2.children@.len(),
        forall|t: int| 0 <= t < i ==> n1.keys@[t] == n2.keys@[t] && n1.vals@[t] == n2.vals@[t],
        forall|t: int| 0 <= t < i && n1.children@.len() != 0 ==> n1.children@[t] == n2.children@[t],
    ensures
        pre(n1, i) == pre(n2, i),
    decreases i,
{
    if i > 0 {
        lemma_pre_same(n1, n2, i - 1);
        assert(seg(n1, i - 1) == seg(n2, i - 1));
    }
}

/// Slots from `i1` of `n1` equal slots from `i2` of `n2` when the two nodes agree
/// from those points on.
proof fn lemma_slots_shift<K, V>(n1: Node<K, V>, n2: Node<K, V>, i1: int, i2: int)
    requires
        shape(n1),
        shape(n2),
        0 <= i1 <= n1.keys@.len(),
        0 <= i2 <= n2.keys@.len(),
        n1.keys@.len() - i1 == n2.keys@.len() - i2,
        (n1.children@.len() == 0) == (n2.children@.len() == 0),
        n1.keys@.skip(i1) == n2.keys@.skip(i2),
        n1.vals@.skip(i1) == n2.vals@.skip(i2),
        n1.children@.len() != 0 ==> n1.children@.skip(i1) == n2.children@.skip(i2),
    ensures
        slots(n1, i1) == slots(n2, i2),
    decreases n1.keys@.len() - i1,
{
    if i1 < n1.keys@.len() {
        assert(n1.keys@.skip(i1 + 1) =~= n1.keys@.skip(i1).skip(1));
        assert(n2.keys@.skip(i2 + 1) =~= n2.keys@.skip(i2).skip(1));
        assert(n1.vals@.skip(i1 + 1) =~= n1.vals@.skip(i1).skip(1));
        assert(n2.vals@.skip(i2 + 1) =~= n2.vals@.skip(i2).skip(1));
        if n1.children@.len() != 0 {
            assert(n1.children@.skip(i1 + 1) =~= n1.children@.skip(i1).skip(1));
            assert(n2.children@.skip(i2 + 1) =~= n2.children@.skip(i2).skip(1));
        }
        lemma_slots_shift(n1, n2, i1 + 1, i2 + 1);
        assert(n1.keys@[i1] == n1.keys@.skip(i1)[0]);
        assert(n2.keys@[i2] == n2.keys@.skip(i2)[0]);
        assert(n1.vals@[i1] == n1.vals@.skip(i1)[0]);
        assert(n2.vals@[i2] == n2.vals@.skip(i2)[0]);
        if n1.children@.len() != 0 {
            assert(n1.children@[i1] == n1.children@.skip(i1)[0]);
            assert(n2.children@[i2] == n2.children@.skip(i2)[0]);
        }
    } else {
        if n1.children@.len() != 0 {
            assert(n1.children@[i1] == n1.children@.skip(i1)[0]);
            assert(n2.children@[i2] == n2.children@.skip(i2)[0]);
        }
    }
}

/// A leaf's entries are its keys zipped with its values.
proof fn lemma_leaf_slots<K, V>(n: Node<K, V>, i: int)
    requires
        shape(n),
        n.children@.len() == 0,
        0 <= i <= n.keys@.len(),
    ensures
        slots(n, i) == Seq::new(
            (n.keys@.len() - i) as nat,
            |j: int| (n.keys@[i + j], n.vals@[i + j]),
        ),
    decreases n.keys@.len() - i,
{
    if i < n.keys@.len() {
        lemma_leaf_slots(n, i + 1);
        assert(slots(n, i) =~= Seq::new(
            (n.keys@.len() - i) as nat,
            |j: int| (n.keys@[i + j], n.vals@[i + j]),
        ));
    } else {
        assert(slots(n, i) =~= Seq::new(
            (n.keys@.len() - i) as nat,
            |j: int| (n.keys@[i + j], n.vals@[i + j]),
        ));
    }
}

/// The child before key `i` (nothing for a leaf).
spec fn mid_part<K, V>(n: Node<K, V>, i: int) -> Seq<(K, V)> {
    if n.children@.len() == 0 {
        Seq::empty()
    } else {
        inorder(*n.children@[i])
    }
}

/// Key `i` and everything after it (nothing past the last key).
spec fn tail_part<K, V>(n: Node<K, V>, i: int) -> Seq<(K, V)> {
    if i < n.keys@.len() {
        seq![(n.keys@[i], n.vals@[i])] + slots(n, i + 1)
    } else {
        Seq::empty()
    }
}

/// Searching a node for `k` stops at slot `i`: the entries split into those
/// before the slot (all below `k`), the child of the slot, and key `i` with what
/// follows (all above `k`).
proof fn lemma_search<K: BKey, V>(n: Node<K, V>, i: int, k: K)
    requires
        shape(n),
        sorted(inorder(n)),
        0 <= i <= n.keys@.len(),
        i > 0 ==> n.keys@[i - 1].precedes(k),
        i < n.keys@.len() ==> k.precedes(n.keys@[i]),
    ensures
        inorder(n) == pre(n, i) + mid_part(n, i) + tail_part(n, i),
        all_below(pre(n, i), k),
        all_above(tail_part(n, i), k),
{
    let s = inorder(n);
    let p = pre(n, i);
    let t = tail_part(n, i);
    lemma_pre_slots(n, i);
    assert(slots(n, i) =~= mid_part(n, i) + tail_part(n, i));
    assert(s =~= p + mid_part(n, i) + t);
    if i > 0 {
        let last = p.len() - 1;
        assert(p[last] == (n.keys@[i - 1], n.vals@[i - 1]));
        assert forall|j: int| 0 <= j < p.len() implies (#[trigger] p[j]).0.precedes(k) by {
            assert(s[j] == p[j]);
            assert(s[last] == p[last]);
            if j < last {
                K::lemma_strict_total(p[j].0, p[last].0, k);
            }
        }
    }
    if i < n.keys@.len() {
        let off: int = (p.len() + mid_part(n, i).len()) as int;
        assert(t[0] == (n.keys@[i], n.vals@[i]));
        assert forall|j: int| 0 <= j < t.len() implies k.precedes((#[trigger] t[j]).0) by {
            assert(s[off + j] == t[j]);
            assert(s[off] == t[0]);
            if j > 0 {
                K::lemma_strict_total(k, t[0].0, t[j].0);
            }
        }
    }
}

/// Splitting a node around key `mid`: the left part's entries, the median entry
/// and the right part's entries, in that order, are the node's entries.
proof fn lemma_split<K, V>(n: Node<K, V>, left: Node<K, V>, right: Node<K, V>, mid: int)
    requires
        shape(n),
        0 <= mid < n.keys@.len(),
        left.keys@ == n.keys@.take(mid),
        left.vals@ == n.vals@.take(mid),
        right.keys@ == n.keys@.skip(mid + 1),
        right.vals@ == n.vals@.skip(mid + 1),
        n.children@.len() == 0 ==> left.children@.len() == 0 && right.children@.len() == 0,
        n.children@.len() != 0 ==> left.children@ == n.children@.take(mid + 1)
            && right.children@ == n.children@.skip(mid + 1),
    ensures
        shape(left),
        shape(right),
        inorder(n) == inorder(left) + seq![(n.keys@[mid], n.vals@[mid])] + inorder(right),
{
    lemma_pre_slots(n, mid);
    lemma_slots_step(n, mid);
    lemma_pre_slots(left, mid);
    lemma_pre_same(left, n, mid);
    lemma_slots_last(left);
    assert(right.keys@.skip(0) =~= n.keys@.skip(mid + 1));
    assert(right.vals@.skip(0) =~= n.vals@.skip(mid + 1));
    if n.children@.len() != 0 {
        assert(right.children@.skip(0) =~= n.children@.skip(mid + 1));
        assert(left.children@[mid] == n.children@[mid]);
    }
    lemma_slots_shift(right, n, 0, mid + 1);
    assert(inorder(n) =~= inorder(left) + seq![(n.keys@[mid], n.vals@[mid])] + inorder(right));
}

/// The entries of the subtree a shared pointer roots.
spec fn arc_inorder<K, V>(a: Arc<Node<K, V>>) -> Seq<(K, V)> {
    inorder(*a)
}

/// The result of inserting into a subtree.
enum Ins<K, V> {
    /// The subtree's new root (path copy, no growth above it).
    Done(Arc<Node<K, V>>),
    /// The node overflowed and split; the separator must be lifted into the
    /// parent between `left` and `right`.
    Split { left: Arc<Node<K, V>>, key: K, val: V, right: Arc<Node<K, V>> },
}

/// The entries an insertion result stands for, in order.
spec fn ins_inorder<K, V>(r: Ins<K, V>) -> Seq<(K, V)> {
    match r {
        Ins::Done(n) => inorder(*n),
        Ins::Split { left, key, val, right } => inorder(*left) + seq![(key, val)] + inorder(*right),
    }
}

/// An insertion result keeps height `h`: a new root of height `h`, or two
/// halves both of height `h`.
spec fn ins_bal<K, V>(r: Ins<K, V>, h: nat) -> bool {
    match r {
        Ins::Done(n) => balanced(*n, h),
        Ins::Split { left, key, val, right } => balanced(*left, h) && balanced(*right, h),
    }
}

/// Every node an insertion result holds is well formed.
spec fn ins_wf<K, V>(r: Ins<K, V>) -> bool {
    match r {
        Ins::Done(n) => wf(*n),
        Ins::Split { left, key, val, right } => wf(*left) && wf(*right),
    }
}

/// Key `k` lies strictly between the keys of `p` and those of `t`, so the
/// entries of `p + c + t` with key `k` are those of `c`.
proof fn lemma_key_in_middle<K: BKey, V>(p: Seq<(K, V)>, c: Seq<(K, V)>, t: Seq<(K, V)>, k: K)
    requires
        all_below(p, k),
        all_above(t, k),
    ensures
        has_key(p + c + t, k) <==> has_key(c, k),
        forall|v: V| #[trigger] (p + c + t).contains((k, v)) <==> c.contains((k, v)),
{
    K::lemma_strict_total(k, k, k);
    let s = p + c + t;
    if has_key(s, k) {
        let i = choose|i: int| 0 <= i < s.len() && (#[trigger] s[i]).0 == k;
        if i < p.len() {
            assert(s[i] == p[i]);
        } else if i < p.len() + c.len() {
            assert(s[i] == c[i - p.len()]);
        } else {
            assert(s[i] == t[i - p.len() - c.len()]);
        }
    }
    if has_key(c, k) {
        let i = choose|i: int| 0 <= i < c.len() && (#[trigger] c[i]).0 == k;
        assert(s[p.len() + i] == c[i]);
    }
    assert forall|v: V| #[trigger] (p + c + t).contains((k, v)) <==> c.contains((k, v)) by {
        lemma_contains_concat(p + c, t, (k, v));
        lemma_contains_concat(p, c, (k, v));
        if p.contains((k, v)) {
            let i = choose|i: int| 0 <= i < p.len() && p[i] == (k, v);
            assert(p[i].0.precedes(k));
        }
        if t.contains((k, v)) {
            let i = choose|i: int| 0 <= i < t.len() && t[i] == (k, v);
            assert(k.precedes(t[i].0));
        }
    }
}

/// A copy of a node (keys, values and shared child pointers).
fn copy_node<K: BKey, V: Copy>(n: &Node<K, V>) -> (r: Node<K, V>)
    ensures
        r.keys@ == n.keys@,
        r.vals@ == n.vals@,
        r.children@ == n.children@,
{
    let mut keys: Vec<K> = Vec::new();
    let mut i: usize = 0;
    while i < n.keys.len()
        invariant
            i <= n.keys@.len(),
            keys@ == n.keys@.take(i as int),
        decreases n.keys@.len() - i,
    {
        keys.push(n.keys[i].key_copy());
        i = i + 1;
        assert(keys@ =~= n.keys@.take(i as int));
    }
    let mut vals: Vec<V> = Vec::new();
    let mut i: usize = 0;
    while i < n.vals.len()
        invariant
            i <= n.vals@.len(),
            vals@ == n.vals@.take(i as int),
        decreases n.vals@.len() - i,
    {
        vals.push(n.vals[i]);
        i = i + 1;
        assert(vals@ =~= n.vals@.take(i as int));
    }
    let mut children: Vec<Arc<Node<K, V>>> = Vec::new();
    let mut i: usize = 0;
    while i < n.children.len()
        invariant
            i <= n.children@.len(),
            children@ == n.children@.take(i as int),
        decreases n.children@.len() - i,
    {
        children.push(Arc::clone(&n.children[i]));
        i = i + 1;
        assert(children@ =~= n.children@.take(i as int));
    }
    assert(keys@ =~= n.keys@);
    assert(vals@ =~= n.vals@);
    assert(children@ =~= n.children@);
    Node { keys, vals, children }
}

/// The first position whose key does not come before `k`, and whether that key
/// is `k`.
fn search<K: BKey>(keys: &Vec<K>, k: &K) -> (r: (usize, bool))
    ensures
        r.0 <= keys@.len(),
        forall|t: int| 0 <= t < r.0 ==> (#[trigger] keys@[t]).precedes(*k),
        r.1 == (r.0 < keys@.len() && keys@[r.0 as int] == *k),
        r.0 < keys@.len() && !r.1 ==> k.precedes(keys@[r.0 as int]),
{
    let mut i: usize = 0;
    while i < keys.len()
        invariant
            i <= keys@.len(),
            forall|t: int| 0 <= t < i ==> (#[trigger] keys@[t]).precedes(*k),
        decreases keys@.len() - i,
    {
        if !keys[i].key_lt(k) {
            let eq = keys[i].key_eq(k);
            proof {
                K::lemma_strict_total(keys@[i as int], *k, *k);
            }
            return (i, eq);
        }
        i = i + 1;
    }
    (i, false)
}

/// Look `k` up in the subtree rooted at `n`.
fn get_in<K: BKey, V: Copy>(n: &Node<K, V>, k: &K) -> (r: Option<V>)
    requires
        wf(*n),
        sorted(inorder(*n)),
    ensures
        match r {
            Some(v) => inorder(*n).contains((*k, v)),
            None => !has_key(inorder(*n), *k),
        },
    decreases *n,
{
    let (i, found) = search(&n.keys, k);
    if found {
        proof {
            lemma_pre_slots(*n, i as int);
            lemma_slots_step(*n, i as int);
            let s = inorder(*n);
            let at = pre(*n, i as int).len() + mid_part(*n, i as int).len();
            assert(s[at as int] == (n.keys@[i as int], n.vals@[i as int]));
        }
        return Some(n.vals[i]);
    }
    proof {
        if i > 0 {
            assert(n.keys@[i - 1].precedes(*k));
        }
        lemma_search(*n, i as int, *k);
        lemma_key_in_middle(pre(*n, i as int), mid_part(*n, i as int), tail_part(*n, i as int), *k);
    }
    if n.children.len() == 0 {
        return None;
    }
    proof {
        lemma_sorted_parts(pre(*n, i as int) + mid_part(*n, i as int), tail_part(*n, i as int));
        lemma_sorted_parts(pre(*n, i as int), mid_part(*n, i as int));
        assert(wf(*n.children@[i as int]));
    }
    get_in(&n.children[i], k)
}

/// Split an overflowed node, lifting its median key and value as the separator.
fn split_node<K, V>(n: Node<K, V>) -> (r: Ins<K, V>)
    requires
        shape(n),
        n.keys@.len() == MAX_KEYS + 1,
        forall|j: int| 0 <= j < n.children@.len() ==> wf(#[trigger] *n.children@[j]),
    ensures
        ins_wf(r),
        ins_inorder(r) == inorder(n),
        r is Split,
        forall|h: nat| #[trigger] balanced(n, h) ==> ins_bal(r, h),
{
    let ghost n0 = n;
    let mut node = n;
    let mid: usize = node.keys.len() / 2;
    let right_children = if node.children.len() == 0 {
        Vec::new()
    } else {
        node.children.split_off(mid + 1)
    };
    let right_keys = node.keys.split_off(mid + 1);
    let right_vals = node.vals.split_off(mid + 1);
    let sep_key = node.keys.remove(mid);
    let sep_val = node.vals.remove(mid);
    let left = Node { keys: node.keys, vals: node.vals, children: node.children };
    let right = Node { keys: right_keys, vals: right_vals, children: right_children };
    proof {
        assert(left.keys@ =~= n0.keys@.take(mid as int));
        assert(left.vals@ =~= n0.vals@.take(mid as int));
        assert(right.keys@ =~= n0.keys@.skip(mid + 1));
        assert(right.vals@ =~= n0.vals@.skip(mid + 1));
        if n0.children@.len() != 0 {
            assert(left.children@ =~= n0.children@.take(mid + 1));
            assert(right.children@ =~= n0.children@.skip(mid + 1));
        }
        lemma_split(n0, left, right, mid as int);
        assert forall|j: int| 0 <= j < left.children@.len() implies wf(#[trigger] *left.children@[j]) by {
            assert(left.children@[j] == n0.children@[j]);
        }
        assert forall|j: int| 0 <= j < right.children@.len() implies wf(#[trigger] *right.children@[j]) by {
            assert(right.children@[j] == n0.children@[mid + 1 + j]);
        }
        assert forall|h: nat| #[trigger] balanced(n0, h) implies balanced(left, h) && balanced(right, h) by {
            if n0.children@.len() != 0 {
                assert forall|j: int| 0 <= j < left.children@.len() implies balanced(
                    #[trigger] *left.children@[j],
                    (h - 1) as nat,
                ) by {
                    assert(left.children@[j] == n0.children@[j]);
                }
                assert forall|j: int| 0 <= j < right.children@.len() implies balanced(
                    #[trigger] *right.children@[j],
                    (h - 1) as nat,
                ) by {
                    assert(right.children@[j] == n0.children@[mid + 1 + j]);
                }
            }
        }
    }
    Ins::Split { left: Arc::new(left), key: sep_key, val: sep_val, right: Arc::new(right) }
}

/// Wrap a node that may have overflowed: split it if it has too many keys.
fn finish<K, V>(n: Node<K, V>) -> (r: Ins<K, V>)
    requires
        shape(n),
        n.keys@.len() <= MAX_KEYS + 1,
        forall|j: int| 0 <= j < n.children@.len() ==> wf(#[trigger] *n.children@[j]),
    ensures
        ins_wf(r),
        ins_inorder(r) == inorder(n),
        forall|h: nat| #[trigger] balanced(n, h) ==> ins_bal(r, h),
{
    if n.keys.len() > MAX_KEYS {
        split_node(n)
    } else {
        Ins::Done(Arc::new(n))
    }
}

/// Replacing the value at key `i` (which is `k`) upserts `k`.
proof fn lemma_found_case<K: BKey, V>(n: Node<K, V>, c: Node<K, V>, i: int, k: K, v: V)
    requires
        wf(n),
        sorted(inorder(n)),
        0 <= i < n.keys@.len(),
        n.keys@[i] == k,
        c.keys@ == n.keys@,
        c.vals@ == n.vals@.update(i, v),
        c.children@ == n.children@,
    ensures
        wf(c),
        upserted(inorder(n), inorder(c), k, v, Some(n.vals@[i])),
{
    let old = n.vals@[i];
    let s = inorder(n);
    lemma_pre_slots(n, i);
    lemma_slots_step(n, i);
    lemma_pre_slots(c, i);
    lemma_slots_step(c, i);
    lemma_pre_same(c, n, i);
    assert(c.keys@.skip(i + 1) =~= n.keys@.skip(i + 1));
    assert(c.vals@.skip(i + 1) =~= n.vals@.skip(i + 1));
    lemma_slots_shift(c, n, i + 1, i + 1);
    let p = pre(n, i) + mid_part(n, i);
    let t = slots(n, i + 1);
    assert(seg(n, i) =~= mid_part(n, i) + seq![(k, old)]);
    assert(seg(c, i) =~= mid_part(n, i) + seq![(k, v)]);
    assert(s =~= p + seq![(k, old)] + t);
    assert(inorder(c) =~= p + seq![(k, v)] + t);
    lemma_sorted_parts(p + seq![(k, old)], t);
    lemma_sorted_parts(p, seq![(k, old)]);
    assert(seq![(k, old)][0] == (k, old));
    assert(upserted(seq![(k, old)], seq![(k, v)], k, v, Some(old))) by {
        assert(seq![(k, old)].contains((k, old)));
        assert forall|e: (K, V)| #[trigger] seq![(k, v)].contains(e) <==> (e == (k, v) || (e.0 != k
            && seq![(k, old)].contains(e))) by {
            if seq![(k, v)].contains(e) {
                let j = choose|j: int| 0 <= j < 1 && seq![(k, v)][j] == e;
            }
            if seq![(k, old)].contains(e) {
                let j = choose|j: int| 0 <= j < 1 && seq![(k, old)][j] == e;
            }
            if e == (k, v) {
                assert(seq![(k, v)][0] == e);
            }
        }
    }
    assert(all_below(p, k)) by {
        assert forall|j: int| 0 <= j < p.len() implies (#[trigger] p[j]).0.precedes(k) by {
            assert((p + seq![(k, old)])[j] == p[j]);
            assert((p + seq![(k, old)])[p.len() as int] == (k, old));
        }
    }
    assert(all_above(t, k)) by {
        assert forall|j: int| 0 <= j < t.len() implies k.precedes((#[trigger] t[j]).0) by {
            assert((p + seq![(k, old)])[p.len() as int] == (k, old));
        }
    }
    lemma_upsert_middle(p, seq![(k, old)], t, seq![(k, v)], k, v, Some(old));
    assert forall|j: int| 0 <= j < c.children@.len() implies wf(#[trigger] *c.children@[j]) by {
        assert(c.children@[j] == n.children@[j]);
    }
}

/// Inserting `k` at position `i` of a leaf, where it belongs, upserts `k`.
proof fn lemma_leaf_case<K: BKey, V>(n: Node<K, V>, c: Node<K, V>, i: int, k: K, v: V)
    requires
        wf(n),
        n.children@.len() == 0,
        sorted(inorder(n)),
        0 <= i <= n.keys@.len(),
        i > 0 ==> n.keys@[i - 1].precedes(k),
        i < n.keys@.len() ==> k.precedes(n.keys@[i]),
        c.keys@ == n.keys@.insert(i, k),
        c.vals@ == n.vals@.insert(i, v),
        c.children@.len() == 0,
    ensures
        shape(c),
        c.keys@.len() <= MAX_KEYS + 1,
        upserted(inorder(n), inorder(c), k, v, None),
{
    let s = inorder(n);
    let p = pre(n, i);
    let t = tail_part(n, i);
    lemma_search(n, i, k);
    lemma_leaf_slots(n, 0);
    lemma_leaf_slots(n, i);
    lemma_leaf_slots(c, 0);
    lemma_pre_slots(n, i);
    assert(mid_part(n, i) =~= Seq::<(K, V)>::empty());
    assert(slots(n, i) =~= t);
    assert(inorder(n).len() == n.keys@.len());
    assert(slots(n, i).len() == n.keys@.len() - i);
    assert(p.len() == i);
    assert(inorder(c) =~= p + seq![(k, v)] + t) by {
        assert forall|j: int| 0 <= j < inorder(c).len() implies inorder(c)[j] == (p + seq![(k, v)]
            + t)[j] by {
            if j < i {
                assert(s[j] == p[j]);
            } else if j > i {
                assert(s[j - 1] == t[j - 1 - i]);
            }
        }
    }
    assert(upserted(Seq::<(K, V)>::empty(), seq![(k, v)], k, v, None)) by {
        assert forall|e: (K, V)| #[trigger] seq![(k, v)].contains(e) <==> (e == (k, v) || (e.0 != k
            && Seq::<(K, V)>::empty().contains(e))) by {
            if seq![(k, v)].contains(e) {
                let j = choose|j: int| 0 <= j < 1 && seq![(k, v)][j] == e;
            }
            if e == (k, v) {
                assert(seq![(k, v)][0] == e);
            }
        }
    }
    assert(p + Seq::<(K, V)>::empty() + t =~= s);
    lemma_upsert_middle(p, Seq::<(K, V)>::empty(), t, seq![(k, v)], k, v, None);
}

/// Replacing child `i` by the result of upserting `k` into it upserts `k` into
/// the node, when `k` belongs under child `i`.
#[verifier::rlimit(30)]
proof fn lemma_child_done<K: BKey, V>(
    n: Node<K, V>,
    c: Node<K, V>,
    i: int,
    k: K,
    v: V,
    old: Option<V>,
    child: Arc<Node<K, V>>,
)
    requires
        wf(n),
        n.children@.len() != 0,
        sorted(inorder(n)),
        0 <= i <= n.keys@.len(),
        i > 0 ==> n.keys@[i - 1].precedes(k),
        i < n.keys@.len() ==> k.precedes(n.keys@[i]),
        wf(*child),
        upserted(inorder(*n.children@[i]), inorder(*child), k, v, old),
        c.keys@ == n.keys@,
        c.vals@ == n.vals@,
        c.children@ == n.children@.update(i, child),
    ensures
        shape(c),
        c.keys@.len() <= MAX_KEYS + 1,
        forall|j: int| 0 <= j < c.children@.len() ==> wf(#[trigger] *c.children@[j]),
        upserted(inorder(n), inorder(c), k, v, old),
{
    let p = pre(n, i);
    let mc = mid_part(n, i);
    let t = tail_part(n, i);
    let ic = arc_inorder(child);
    lemma_search(n, i, k);
    lemma_pre_slots(c, i);
    lemma_pre_same(c, n, i);
    if i < n.keys@.len() {
        lemma_slots_step(c, i);
        assert(c.keys@.skip(i + 1) =~= n.keys@.skip(i + 1));
        assert(c.vals@.skip(i + 1) =~= n.vals@.skip(i + 1));
        assert(c.children@.skip(i + 1) =~= n.children@.skip(i + 1));
        lemma_slots_shift(c, n, i + 1, i + 1);
        assert(slots(c, i) =~= ic + t);
    } else {
        assert(slots(c, i) =~= ic + t);
    }
    assert(mc == inorder(*n.children@[i]));
    lemma_upsert_middle(p, mc, t, ic, k, v, old);
    assert(inorder(c) =~= p + ic + t);
    assert forall|j: int| 0 <= j < c.children@.len() implies wf(#[trigger] *c.children@[j]) by {
        if j != i {
            assert(c.children@[j] == n.children@[j]);
        }
    }
}

/// Replacing child `i` by the two halves of its split, with the separator
/// between them, upserts `k` into the node, when `k` belongs under child `i`.
#[verifier::rlimit(30)]
proof fn lemma_child_split<K: BKey, V>(
    n: Node<K, V>,
    c: Node<K, V>,
    i: int,
    k: K,
    v: V,
    old: Option<V>,
    left: Arc<Node<K, V>>,
    key: K,
    val: V,
    right: Arc<Node<K, V>>,
)
    requires
        wf(n),
        n.children@.len() != 0,
        sorted(inorder(n)),
        0 <= i <= n.keys@.len(),
        i > 0 ==> n.keys@[i - 1].precedes(k),
        i < n.keys@.len() ==> k.precedes(n.keys@[i]),
        wf(*left),
        wf(*right),
        upserted(
            inorder(*n.children@[i]),
            inorder(*left) + seq![(key, val)] + inorder(*right),
            k,
            v,
            old,
        ),
        c.keys@ == n.keys@.insert(i, key),
        c.vals@ == n.vals@.insert(i, val),
        c.children@ == n.children@.update(i, left).insert(i + 1, right),
    ensures
        shape(c),
        c.keys@.len() <= MAX_KEYS + 1,
        forall|j: int| 0 <= j < c.children@.len() ==> wf(#[trigger] *c.children@[j]),
        upserted(inorder(n), inorder(c), k, v, old),
{
    let p = pre(n, i);
    let mc = mid_part(n, i);
    let t = tail_part(n, i);
    let il = arc_inorder(left);
    let ir = arc_inorder(right);
    lemma_search(n, i, k);
    lemma_pre_slots(c, i);
    lemma_pre_same(c, n, i);
    lemma_slots_step(c, i);
    if i < n.keys@.len() {
        lemma_slots_step(c, i + 1);
        assert(c.keys@.skip(i + 2) =~= n.keys@.skip(i + 1));
        assert(c.vals@.skip(i + 2) =~= n.vals@.skip(i + 1));
        assert(c.children@.skip(i + 2) =~= n.children@.skip(i + 1));
        lemma_slots_shift(c, n, i + 2, i + 1);
        assert(slots(c, i + 1) =~= ir + t);
    } else {
        assert(slots(c, i + 1) =~= ir + t);
    }
    assert(slots(c, i) =~= (il + seq![(key, val)] + ir) + t);
    lemma_upsert_middle(p, mc, t, il + seq![(key, val)] + ir, k, v, old);
    assert(pre(c, i) + slots(c, i) =~= p + (il + seq![(key, val)] + ir) + t);
    assert forall|j: int| 0 <= j < c.children@.len() implies wf(#[trigger] *c.children@[j]) by {
        if j < i {
            assert(c.children@[j] == n.children@[j]);
        } else if j > i + 1 {
            assert(c.children@[j] == n.children@[j - 1]);
        }
    }
}

/// Copy-on-write insert into the subtree rooted at `n`: only the touched path is
/// copied. Returns the new subtree (split if its root overflowed) and the value
/// `k` had.
#[verifier::spinoff_prover]
#[verifier::rlimit(60)]
fn insert_rec<K: BKey, V: Copy>(n: &Node<K, V>, k: K, v: V) -> (r: (Ins<K, V>, Option<V>))
    requires
        wf(*n),
        sorted(inorder(*n)),
    ensures
        ins_wf(r.0),
        upserted(inorder(*n), ins_inorder(r.0), k, v, r.1),
        forall|h: nat| #[trigger] balanced(*n, h) ==> ins_bal(r.0, h),
    decreases *n,
{
    let (i, found) = search(&n.keys, &k);
    if found {
        let old = n.vals[i];
        let mut c = copy_node(n);
        c.vals.set(i, v);
        proof {
            lemma_found_case(*n, c, i as int, k, v);
            assert forall|h: nat| #[trigger] balanced(*n, h) implies balanced(c, h) by {
                if c.children@.len() != 0 {
                    assert forall|j: int| 0 <= j < c.children@.len() implies balanced(
                        #[trigger] *c.children@[j],
                        (h - 1) as nat,
                    ) by {
                        assert(c.children@[j] == n.children@[j]);
                    }
                }
            }
        }
        return (Ins::Done(Arc::new(c)), Some(old));
    }
    proof {
        if i > 0 {
            assert(n.keys@[i - 1].precedes(k));
        }
    }
    if n.children.len() == 0 {
        let mut c = copy_node(n);
        c.keys.insert(i, k);
        c.vals.insert(i, v);
        proof {
            lemma_leaf_case(*n, c, i as int, k, v);
            assert forall|h: nat| #[trigger] balanced(*n, h) implies balanced(c, h) by {}
        }
        return (finish(c), None);
    }
    proof {
        assert(wf(*n.children@[i as int]));
        lemma_search(*n, i as int, k);
        lemma_sorted_parts(pre(*n, i as int) + mid_part(*n, i as int), tail_part(*n, i as int));
        lemma_sorted_parts(pre(*n, i as int), mid_part(*n, i as int));
    }
    let (child_ins, old) = insert_rec(&n.children[i], k, v);
    let mut c = copy_node(n);
    match child_ins {
        Ins::Done(child) => {
            let ghost gc = child;
            c.children.set(i, child);
            proof {
                lemma_child_done(*n, c, i as int, k, v, old, gc);
                assert forall|h: nat| #[trigger] balanced(*n, h) implies balanced(c, h) by {
                    assert(balanced(*n.children@[i as int], (h - 1) as nat));
                    assert forall|j: int| 0 <= j < c.children@.len() implies balanced(
                        #[trigger] *c.children@[j],
                        (h - 1) as nat,
                    ) by {
                        if j != i {
                            assert(c.children@[j] == n.children@[j]);
                        }
                    }
                }
            }
            (Ins::Done(Arc::new(c)), old)
        },
        Ins::Split { left, key, val, right } => {
            let ghost gl = left;
            let ghost gr = right;
            let ghost gk = key;
            let ghost gv = val;
            c.children.set(i, left);
            c.keys.insert(i, key);
            c.vals.insert(i, val);
            c.children.insert(i + 1, right);
            proof {
                lemma_child_split(*n, c, i as int, k, v, old, gl, gk, gv, gr);
                assert forall|h: nat| #[trigger] balanced(*n, h) implies balanced(c, h) by {
                    assert(balanced(*n.children@[i as int], (h - 1) as nat));
                    assert forall|j: int| 0 <= j < c.children@.len() implies balanced(
                        #[trigger] *c.children@[j],
                        (h - 1) as nat,
                    ) by {
                        if j < i {
                            assert(c.children@[j] == n.children@[j]);
                        } else if j > i + 1 {
                            assert(c.children@[j] == n.children@[j - 1]);
                        }
                    }
                }
            }
            (finish(c), old)
        },
    }
}

/// One end of a key range.
pub enum KeyBound<K> {
    /// No bound on this side.
    Unbounded,
    /// The bound key itself is in the range.
    Included(K),
    /// The bound key itself is not in the range.
    Excluded(K),
}

/// Key `k` is at or past the lower bound.
pub open spec fn above_lo<K: BKey>(k: K, lo: KeyBound<K>) -> bool {
    match lo {
        KeyBound::Unbounded => true,
        KeyBound::Included(x) => !k.precedes(x),
        KeyBound::Excluded(x) => x.precedes(k),
    }
}

/// Key `k` is at or before the upper bound.
pub open spec fn below_hi<K: BKey>(k: K, hi: KeyBound<K>) -> bool {
    match hi {
        KeyBound::Unbounded => true,
        KeyBound::Included(x) => !x.precedes(k),
        KeyBound::Excluded(x) => k.precedes(x),
    }
}

/// The entries of `s` whose keys lie within the bounds, in order.
pub open spec fn range_of<K: BKey, V>(s: Seq<(K, V)>, lo: KeyBound<K>, hi: KeyBound<K>) -> Seq<
    (K, V),
>
    decreases s.len(),
{
    if s.len() == 0 {
        Seq::empty()
    } else {
        range_of(s.drop_last(), lo, hi) + if above_lo(s.last().0, lo) && below_hi(s.last().0, hi) {
            seq![s.last()]
        } else {
            Seq::empty()
        }
    }
}

/// Selecting a range distributes over concatenation.
pub proof fn lemma_range_of_concat<K: BKey, V>(
    a: Seq<(K, V)>,
    b: Seq<(K, V)>,
    lo: KeyBound<K>,
    hi: KeyBound<K>,
)
    ensures
        range_of(a + b, lo, hi) == range_of(a, lo, hi) + range_of(b, lo, hi),
    decreases b.len(),
{
    if b.len() == 0 {
        assert(a + b =~= a);
    } else {
        lemma_range_of_concat(a, b.drop_last(), lo, hi);
        assert((a + b).drop_last() =~= a + b.drop_last());
        assert((a + b).last() == b.last());
    }
}

/// Selecting a range of entries none of which lies in it gives nothing.
proof fn lemma_range_of_none<K: BKey, V>(s: Seq<(K, V)>, lo: KeyBound<K>, hi: KeyBound<K>)
    requires
        forall|i: int|
            0 <= i < s.len() ==> !(above_lo((#[trigger] s[i]).0, lo) && below_hi(s[i].0, hi)),
    ensures
        range_of(s, lo, hi) == Seq::<(K, V)>::empty(),
    decreases s.len(),
{
    if s.len() > 0 {
        lemma_range_of_none(s.drop_last(), lo, hi);
        assert(s.last() == s[s.len() - 1]);
    }
}

/// With no bounds, the whole sequence is selected.
pub proof fn lemma_range_of_all<K: BKey, V>(s: Seq<(K, V)>)
    ensures
        range_of(s, KeyBound::Unbounded, KeyBound::Unbounded) == s,
    decreases s.len(),
{
    if s.len() > 0 {
        lemma_range_of_all(s.drop_last());
        assert(s.drop_last() + seq![s.last()] =~= s);
    }
}

/// A single entry is selected exactly when its key is in range.
proof fn lemma_range_of_one<K: BKey, V>(e: (K, V), lo: KeyBound<K>, hi: KeyBound<K>)
    ensures
        range_of(seq![e], lo, hi) == if above_lo(e.0, lo) && below_hi(e.0, hi) {
            seq![e]
        } else {
            Seq::<(K, V)>::empty()
        },
{
    assert(seq![e].drop_last() =~= Seq::<(K, V)>::empty());
    assert(seq![e].last() == e);
    assert(range_of(seq![e].drop_last(), lo, hi) == Seq::<(K, V)>::empty());
    assert(Seq::<(K, V)>::empty() + seq![e] =~= seq![e]);
    assert(Seq::<(K, V)>::empty() + Seq::<(K, V)>::empty() =~= Seq::<(K, V)>::empty());
}

/// Whether key `k` is at or past the lower bound.
fn is_above_lo<K: BKey>(k: &K, lo: &KeyBound<K>) -> (r: bool)
    ensures
        r == above_lo(*k, *lo),
{
    match lo {
        KeyBound::Unbounded => true,
        KeyBound::Included(x) => !k.key_lt(x),
        KeyBound::Excluded(x) => x.key_lt(k),
    }
}

/// Whether key `k` is at or before the upper bound.
fn is_below_hi<K: BKey>(k: &K, hi: &KeyBound<K>) -> (r: bool)
    ensures
        r == below_hi(*k, *hi),
{
    match hi {
        KeyBound::Unbounded => true,
        KeyBound::Included(x) => !x.key_lt(k),
        KeyBound::Excluded(x) => k.key_lt(x),
    }
}

/// Keys before a key that is below the lower bound are below it too.
proof fn lemma_below_lo_closed<K: BKey>(c: K, k: K, lo: KeyBound<K>)
    requires
        c.precedes(k),
        !above_lo(k, lo),
    ensures
        !above_lo(c, lo),
{
    match lo {
        KeyBound::Unbounded => {},
        KeyBound::Included(x) => {
            K::lemma_strict_total(c, k, x);
        },
        KeyBound::Excluded(x) => {
            K::lemma_strict_total(x, c, k);
            K::lemma_strict_total(c, k, x);
            K::lemma_strict_total(x, k, c);
        },
    }
}

/// Keys after a key that is past the upper bound are past it too.
proof fn lemma_above_hi_closed<K: BKey>(k: K, c: K, hi: KeyBound<K>)
    requires
        k.precedes(c),
        !below_hi(k, hi),
    ensures
        !below_hi(c, hi),
{
    match hi {
        KeyBound::Unbounded => {},
        KeyBound::Included(x) => {
            K::lemma_strict_total(x, k, c);
        },
        KeyBound::Excluded(x) => {
            K::lemma_strict_total(c, x, k);
            K::lemma_strict_total(k, c, x);
            K::lemma_strict_total(x, k, c);
        },
    }
}

/// A copy-on-write, snapshot-readable B-tree mapping `K` to `V`.
pub struct CowBTree<K: BKey, V> {
    root: Arc<Node<K, V>>,
    len: usize,
}

/// An immutable, point-in-time view of a [`CowBTree`]. Reads on a snapshot are
/// unaffected by later writes to the tree.
pub struct Snapshot<K: BKey, V> {
    root: Arc<Node<K, V>>,
    len: usize,
}

/// An ascending iterator over (a range of) a snapshot's entries. It walks the
/// tree lazily: a stack of `(node, key index)` frames, the top one next, each
/// frame standing for its key and everything after it in its node.
pub struct Iter<K: BKey, V> {
    stack: Vec<(Arc<Node<K, V>>, usize)>,
    hi: KeyBound<K>,
}

/// The node an `Arc` holds.
spec fn node_of<K, V>(a: Arc<Node<K, V>>) -> Node<K, V> {
    *a
}

/// The entries a frame still stands for: its key and all after it in its node.
spec fn frame_rest<K, V>(f: (Arc<Node<K, V>>, usize)) -> Seq<(K, V)> {
    tail_part(*f.0, f.1 as int)
}

/// The entries a stack of frames stands for, top frame first.
spec fn flat<K, V>(st: Seq<(Arc<Node<K, V>>, usize)>) -> Seq<(K, V)>
    decreases st.len(),
{
    if st.len() == 0 {
        Seq::empty()
    } else {
        frame_rest(st.last()) + flat(st.drop_last())
    }
}

/// Every frame holds a sorted, well-formed node and an index within it.
spec fn frames_ok<K: BKey, V>(st: Seq<(Arc<Node<K, V>>, usize)>) -> bool {
    forall|j: int|
        0 <= j < st.len() ==> wf(*(#[trigger] st[j]).0) && sorted(inorder(*st[j].0)) && st[j].1
            <= st[j].0.keys@.len()
}

/// The slots of a node from `i` on are child `i` (if any) and then key `i`
/// with everything after it.
proof fn lemma_frame_split<K, V>(n: Node<K, V>, i: int)
    requires
        shape(n),
        0 <= i <= n.keys@.len(),
    ensures
        n.children@.len() != 0 ==> slots(n, i) == arc_inorder(n.children@[i]) + tail_part(n, i),
        n.children@.len() == 0 ==> slots(n, i) == tail_part(n, i),
{
    if i < n.keys@.len() {
        lemma_slots_step(n, i);
        if n.children@.len() != 0 {
            assert(seg(n, i) == arc_inorder(n.children@[i]) + seq![(n.keys@[i], n.vals@[i])]);
            assert(slots(n, i) =~= arc_inorder(n.children@[i]) + tail_part(n, i));
        } else {
            assert(slots(n, i) =~= tail_part(n, i));
        }
    } else {
        lemma_slots_last(n);
        assert(tail_part(n, i) =~= Seq::<(K, V)>::empty());
        assert(arc_inorder(n.children@[i]) + Seq::<(K, V)>::empty() =~= arc_inorder(n.children@[i]));
    }
}

/// Entries that all lie within the bounds are all selected.
proof fn lemma_range_of_keep<K: BKey, V>(s: Seq<(K, V)>, lo: KeyBound<K>, hi: KeyBound<K>)
    requires
        forall|i: int| 0 <= i < s.len() ==> above_lo((#[trigger] s[i]).0, lo) && below_hi(s[i].0, hi),
    ensures
        range_of(s, lo, hi) == s,
    decreases s.len(),
{
    if s.len() > 0 {
        lemma_range_of_keep(s.drop_last(), lo, hi);
        assert(s.last() == s[s.len() - 1]);
        assert(s.drop_last() + seq![s.last()] =~= s);
    }
}

/// Selecting the lower bound, then the upper, selects both.
proof fn lemma_range_of_compose<K: BKey, V>(s: Seq<(K, V)>, lo: KeyBound<K>, hi: KeyBound<K>)
    ensures
        range_of(range_of(s, lo, KeyBound::Unbounded), KeyBound::Unbounded, hi) == range_of(s, lo, hi),
    decreases s.len(),
{
    if s.len() > 0 {
        let e = s.last();
        lemma_range_of_compose(s.drop_last(), lo, hi);
        let t = if above_lo(e.0, lo) {
            seq![e]
        } else {
            Seq::<(K, V)>::empty()
        };
        lemma_range_of_concat(range_of(s.drop_last(), lo, KeyBound::Unbounded), t, KeyBound::Unbounded, hi);
        if above_lo(e.0, lo) {
            lemma_range_of_one(e, KeyBound::Unbounded, hi);
        } else {
            assert(range_of(t, KeyBound::Unbounded, hi) =~= Seq::<(K, V)>::empty()) by {
                lemma_range_of_none(t, KeyBound::Unbounded, hi);
            }
        }
    }
}

/// The selected part of a sorted sequence by an upper bound: its first entry
/// and the rest when that entry is within the bound, nothing otherwise.
proof fn lemma_range_front<K: BKey, V>(f: Seq<(K, V)>, hi: KeyBound<K>)
    requires
        sorted(f),
        f.len() > 0,
    ensures
        below_hi(f[0].0, hi) ==> range_of(f, KeyBound::Unbounded, hi) == seq![f[0]] + range_of(
            f.drop_first(),
            KeyBound::Unbounded,
            hi,
        ),
        !below_hi(f[0].0, hi) ==> range_of(f, KeyBound::Unbounded, hi) == Seq::<(K, V)>::empty(),
{
    assert(f =~= seq![f[0]] + f.drop_first());
    lemma_range_of_concat(seq![f[0]], f.drop_first(), KeyBound::Unbounded, hi);
    lemma_range_of_one(f[0], KeyBound::Unbounded, hi);
    if !below_hi(f[0].0, hi) {
        assert forall|i: int| 0 <= i < f.len() implies !(above_lo((#[trigger] f[i]).0, KeyBound::Unbounded)
            && below_hi(f[i].0, hi)) by {
            if i > 0 {
                lemma_above_hi_closed(f[0].0, f[i].0, hi);
            }
        }
        lemma_range_of_none(f, KeyBound::Unbounded, hi);
    }
}

/// Push `c` and the leftmost path below it: the stack then also stands for all
/// of `c`'s entries, first.
fn push_left<K: BKey, V>(stack: &mut Vec<(Arc<Node<K, V>>, usize)>, c: Arc<Node<K, V>>)
    requires
        wf(*c),
        sorted(inorder(*c)),
        frames_ok(old(stack)@),
    ensures
        frames_ok(final(stack)@),
        flat(final(stack)@) == inorder(*c) + flat(old(stack)@),
    decreases *c,
{
    let ghost st0 = stack@;
    let internal = c.children.len() != 0;
    let child = if internal {
        Some(Arc::clone(&c.children[0]))
    } else {
        None
    };
    stack.push((c, 0));
    proof {
        assert(stack@.drop_last() =~= st0);
        lemma_frame_split(node_of(c), 0);
        assert forall|j: int| 0 <= j < stack@.len() implies wf(*(#[trigger] stack@[j]).0) && sorted(
            inorder(*stack@[j].0),
        ) && stack@[j].1 <= stack@[j].0.keys@.len() by {
            if j < st0.len() {
                assert(stack@[j] == st0[j]);
            }
        }
    }
    match child {
        Some(ch) => {
            proof {
                assert(wf(node_of(c.children@[0])));
                lemma_sorted_parts(arc_inorder(c.children@[0]), tail_part(node_of(c), 0));
            }
            let ghost st1 = stack@;
            push_left(stack, ch);
            proof {
                assert(flat(st1) == tail_part(node_of(c), 0) + flat(st0));
                assert(flat(stack@) =~= inorder(*c) + flat(st0));
            }
        },
        None => {
            proof {
                assert(flat(stack@) =~= inorder(*c) + flat(st0));
            }
        },
    }
}

/// Push the frames of the walk down from `c` to the first entry at or past
/// `lo`: the stack then also stands for `c`'s entries within `lo`, first.
fn seek<K: BKey, V>(stack: &mut Vec<(Arc<Node<K, V>>, usize)>, c: Arc<Node<K, V>>, lo: &KeyBound<K>)
    requires
        wf(*c),
        sorted(inorder(*c)),
        frames_ok(old(stack)@),
    ensures
        frames_ok(final(stack)@),
        flat(final(stack)@) == range_of(inorder(*c), *lo, KeyBound::Unbounded) + flat(old(stack)@),
    decreases *c,
{
    let ghost st0 = stack@;
    let ghost n = node_of(c);
    let mut i: usize = 0;
    while i < c.keys.len() && !is_above_lo(&c.keys[i], lo)
        invariant
            i <= n.keys@.len(),
            n == *c,
            forall|j: int| 0 <= j < i ==> !above_lo(#[trigger] n.keys@[j], *lo),
        decreases n.keys@.len() - i,
    {
        i = i + 1;
    }
    let internal = c.children.len() != 0;
    let child = if internal {
        Some(Arc::clone(&c.children[i]))
    } else {
        None
    };
    proof {
        let ii = i as int;
        lemma_pre_slots(n, ii);
        lemma_frame_split(n, ii);
        let p = pre(n, ii);
        let t = tail_part(n, ii);
        lemma_sorted_parts(p, slots(n, ii));
        if ii > 0 {
            assert(pre(n, ii) == pre(n, ii - 1) + seg(n, ii - 1));
            assert(p.last() == (n.keys@[ii - 1], n.vals@[ii - 1]));
            assert forall|j: int| 0 <= j < p.len() implies !(above_lo((#[trigger] p[j]).0, *lo) && below_hi(
                p[j].0,
                KeyBound::Unbounded,
            )) by {
                if j < p.len() - 1 {
                    lemma_below_lo_closed(p[j].0, n.keys@[ii - 1], *lo);
                }
            }
        }
        lemma_range_of_none(p, *lo, KeyBound::Unbounded);
        if internal {
            lemma_sorted_parts(arc_inorder(n.children@[ii]), t);
        }
        let st = if internal {
            arc_inorder(n.children@[ii]) + t
        } else {
            t
        };
        assert(sorted(t));
        if ii < n.keys@.len() {
            assert(t[0] == (n.keys@[ii], n.vals@[ii]));
            assert forall|j: int| 0 <= j < t.len() implies above_lo((#[trigger] t[j]).0, *lo) && below_hi(
                t[j].0,
                KeyBound::Unbounded,
            ) by {
                if j > 0 {
                    if !above_lo(t[j].0, *lo) {
                        lemma_below_lo_closed(t[0].0, t[j].0, *lo);
                    }
                }
            }
        }
        lemma_range_of_keep(t, *lo, KeyBound::Unbounded);
        lemma_range_of_concat(p, slots(n, ii), *lo, KeyBound::Unbounded);
        if internal {
            lemma_range_of_concat(arc_inorder(n.children@[ii]), t, *lo, KeyBound::Unbounded);
        }
    }
    stack.push((c, i));
    proof {
        assert(stack@.drop_last() =~= st0);
        assert forall|j: int| 0 <= j < stack@.len() implies wf(*(#[trigger] stack@[j]).0) && sorted(
            inorder(*stack@[j].0),
        ) && stack@[j].1 <= stack@[j].0.keys@.len() by {
            if j < st0.len() {
                assert(stack@[j] == st0[j]);
            }
        }
    }
    match child {
        Some(ch) => {
            proof {
                assert(wf(node_of(n.children@[i as int])));
            }
            let ghost st1 = stack@;
            seek(stack, ch, lo);
            proof {
                assert(flat(st1) == tail_part(n, i as int) + flat(st0));
                assert(flat(stack@) =~= range_of(inorder(n), *lo, KeyBound::Unbounded) + flat(st0));
            }
        },
        None => {
            proof {
                assert(flat(stack@) =~= range_of(inorder(n), *lo, KeyBound::Unbounded) + flat(st0));
            }
        },
    }
}

/// Pop exhausted frames, so the top frame (if any) has an entry to give.
fn settle<K: BKey, V>(stack: &mut Vec<(Arc<Node<K, V>>, usize)>)
    requires
        frames_ok(old(stack)@),
    ensures
        frames_ok(final(stack)@),
        flat(final(stack)@) == flat(old(stack)@),
        final(stack)@.len() > 0 ==> final(stack)@.last().1 < final(stack)@.last().0.keys@.len(),
{
    while stack.len() > 0 && stack[stack.len() - 1].1 >= stack[stack.len() - 1].0.keys.len()
        invariant
            frames_ok(stack@),
            flat(stack@) == flat(old(stack)@),
        decreases stack@.len(),
    {
        let ghost st = stack@;
        let _ = stack.pop();
        proof {
            assert(stack@ =~= st.drop_last());
            assert(frame_rest(st.last()) =~= Seq::<(K, V)>::empty());
            assert(flat(st) =~= flat(stack@));
            assert forall|j: int| 0 <= j < stack@.len() implies wf(*(#[trigger] stack@[j]).0) && sorted(
                inorder(*stack@[j].0),
            ) && stack@[j].1 <= stack@[j].0.keys@.len() by {
                assert(stack@[j] == st[j]);
            }
        }
    }
}

/// A root holding a sorted, well-formed tree of `len` entries.
spec fn tree_ok<K: BKey, V>(root: Arc<Node<K, V>>, len: usize) -> bool {
    &&& wf(*root)
    &&& sorted(inorder(*root))
    &&& inorder(*root).len() == len
    &&& exists|h: nat| balanced(*root, h)
}

/// An empty leaf.
fn empty_leaf<K, V>() -> (n: Node<K, V>)
    ensures
        wf(n),
        inorder(n) == Seq::<(K, V)>::empty(),
        balanced(n, 0),
{
    Node { keys: Vec::new(), vals: Vec::new(), children: Vec::new() }
}

impl<K: BKey, V> CowBTree<K, V> {
    #[verifier::type_invariant]
    spec fn inv(self) -> bool {
        tree_ok(self.root, self.len)
    }
}

impl<K: BKey, V: Copy> CowBTree<K, V> {
    /// The entries of the current version, in ascending key order.
    pub closed spec fn entries(&self) -> Seq<(K, V)> {
        inorder(*self.root)
    }

    /// Create an empty tree.
    pub fn new() -> (t: Self)
        ensures
            t.entries() == Seq::<(K, V)>::empty(),
    {
        CowBTree { root: Arc::new(empty_leaf()), len: 0 }
    }

    /// The number of entries in the current version.
    pub fn len(&self) -> (n: usize)
        ensures
            n == self.entries().len(),
            sorted(self.entries()),
    {
        proof {
            use_type_invariant(self);
        }
        self.len
    }

    /// Whether the current version is empty.
    pub fn is_empty(&self) -> (b: bool)
        ensures
            b == (self.entries().len() == 0),
    {
        proof {
            use_type_invariant(self);
        }
        self.len == 0
    }

    /// Look up `key` in the current version.
    pub fn get(&self, key: &K) -> (r: Option<V>)
        ensures
            match r {
                Some(v) => self.entries().contains((*key, v)),
                None => !has_key(self.entries(), *key),
            },
            sorted(self.entries()),
    {
        proof {
            use_type_invariant(self);
        }
        get_in(&self.root, key)
    }

    /// Insert or update `key`, returning the previous value if it existed.
    pub fn insert(&mut self, key: K, value: V) -> (prev: Option<V>)
        requires
            old(self).entries().len() < usize::MAX,
        ensures
            upserted(old(self).entries(), final(self).entries(), key, value, prev),
    {
        proof {
            use_type_invariant(&*self);
        }
        let ghost h0 = choose|h: nat| balanced(*self.root, h);
        let (ins, old) = insert_rec(&self.root, key, value);
        let new_root = match ins {
            Ins::Done(node) => node,
            Ins::Split { left, key, val, right } => {
                let ghost gl = left;
                let ghost gr = right;
                let mut keys: Vec<K> = Vec::new();
                keys.push(key);
                let mut vals: Vec<V> = Vec::new();
                vals.push(val);
                let mut children: Vec<Arc<Node<K, V>>> = Vec::new();
                children.push(left);
                children.push(right);
                let n = Node { keys, vals, children };
                proof {
                    assert(n.children@[0] == gl);
                    assert(n.children@[1] == gr);
                    assert(slots(n, 1) == inorder(*gr));
                    assert(inorder(n) =~= arc_inorder(gl) + seq![(key, val)] + arc_inorder(gr));
                    assert forall|j: int| 0 <= j < n.children@.len() implies wf(#[trigger] *n.children@[j]) by {}
                    assert(balanced(*gl, h0) && balanced(*gr, h0));
                    assert(balanced(n, h0 + 1));
                }
                Arc::new(n)
            },
        };
        let new_len = if old.is_some() {
            self.len
        } else {
            self.len + 1
        };
        *self = CowBTree { root: new_root, len: new_len };
        old
    }

    /// Pin the current version as an immutable [`Snapshot`].
    pub fn snapshot(&self) -> (s: Snapshot<K, V>)
        ensures
            s.entries() == self.entries(),
    {
        proof {
            use_type_invariant(self);
        }
        Snapshot { root: Arc::clone(&self.root), len: self.len }
    }

    /// Iterate the current version in ascending key order.
    pub fn iter(&self) -> (it: Iter<K, V>)
        ensures
            it.remaining() == self.entries(),
    {
        self.snapshot().iter()
    }

    /// Iterate the entries of the current version within the bounds, ascending.
    pub fn range(&self, lo: KeyBound<K>, hi: KeyBound<K>) -> (it: Iter<K, V>)
        ensures
            it.remaining() == range_of(self.entries(), lo, hi),
    {
        self.snapshot().range(lo, hi)
    }
}

impl<K: BKey, V> Snapshot<K, V> {
    #[verifier::type_invariant]
    spec fn inv(self) -> bool {
        tree_ok(self.root, self.len)
    }
}

impl<K: BKey, V: Copy> Snapshot<K, V> {
    /// The entries of this snapshot, in ascending key order.
    pub closed spec fn entries(&self) -> Seq<(K, V)> {
        inorder(*self.root)
    }

    /// The number of entries in this snapshot.
    pub fn len(&self) -> (n: usize)
        ensures
            n == self.entries().len(),
            sorted(self.entries()),
    {
        proof {
            use_type_invariant(self);
        }
        self.len
    }

    /// Whether this snapshot is empty.
    pub fn is_empty(&self) -> (b: bool)
        ensures
            b == (self.entries().len() == 0),
    {
        proof {
            use_type_invariant(self);
        }
        self.len == 0
    }

    /// Look up `key` in this snapshot.
    pub fn get(&self, key: &K) -> (r: Option<V>)
        ensures
            match r {
                Some(v) => self.entries().contains((*key, v)),
                None => !has_key(self.entries(), *key),
            },
            sorted(self.entries()),
    {
        proof {
            use_type_invariant(self);
        }
        get_in(&self.root, key)
    }

    /// Iterate this snapshot in ascending key order.
    pub fn iter(&self) -> (it: Iter<K, V>)
        ensures
            it.remaining() == self.entries(),
    {
        proof {
            use_type_invariant(self);
            lemma_range_of_all(self.entries());
        }
        self.range(KeyBound::Unbounded, KeyBound::Unbounded)
    }

    /// Iterate the entries of this snapshot within the bounds, ascending.
    pub fn range(&self, lo: KeyBound<K>, hi: KeyBound<K>) -> (it: Iter<K, V>)
        ensures
            it.remaining() == range_of(self.entries(), lo, hi),
    {
        proof {
            use_type_invariant(self);
        }
        let mut stack: Vec<(Arc<Node<K, V>>, usize)> = Vec::new();
        seek(&mut stack, Arc::clone(&self.root), &lo);
        settle(&mut stack);
        proof {
            assert(flat(stack@) =~= range_of(self.entries(), lo, KeyBound::Unbounded));
            lemma_range_of_sorted(self.entries(), lo, KeyBound::Unbounded);
            lemma_range_of_compose(self.entries(), lo, hi);
        }
        Iter { stack, hi }
    }
}

impl<K: BKey, V> Iter<K, V> {
    #[verifier::type_invariant]
    spec fn inv(self) -> bool {
        &&& frames_ok(self.stack@)
        &&& sorted(flat(self.stack@))
        &&& self.stack@.len() > 0 ==> self.stack@.last().1 < self.stack@.last().0.keys@.len()
    }

    /// The entries still to be yielded, in order.
    pub closed spec fn remaining(&self) -> Seq<(K, V)> {
        range_of(flat(self.stack@), KeyBound::Unbounded, self.hi)
    }

    /// The next entry, or `None` once every entry has been yielded.
    pub fn next(&mut self) -> (r: Option<(K, V)>)
        where V: Copy,
        ensures
            match r {
                Some(e) => old(self).remaining().len() > 0 && e == old(self).remaining()[0]
                    && final(self).remaining() == old(self).remaining().drop_first(),
                None => old(self).remaining().len() == 0 && final(self).remaining() == old(
                    self,
                ).remaining(),
            },
    {
        proof {
            use_type_invariant(&*self);
        }
        let ghost f = flat(self.stack@);
        let mut stack: Vec<(Arc<Node<K, V>>, usize)> = Vec::new();
        std::mem::swap(&mut stack, &mut self.stack);
        if stack.len() == 0 {
            self.stack = stack;
            return None;
        }
        let ghost st0 = stack@;
        let top = stack.pop();
        let (n, i) = match top {
            Some(fr) => fr,
            None => {
                self.stack = stack;
                return None;
            },
        };
        let ghost rest = stack@;
        proof {
            assert(rest =~= st0.drop_last());
            assert(frames_ok(rest)) by {
                assert forall|j: int| 0 <= j < rest.len() implies wf(*(#[trigger] rest[j]).0) && sorted(
                    inorder(*rest[j].0),
                ) && rest[j].1 <= rest[j].0.keys@.len() by {
                    assert(rest[j] == st0[j]);
                }
            }
            assert(st0[st0.len() - 1] == (n, i));
            assert(f == tail_part(node_of(n), i as int) + flat(rest));
            assert(f[0] == (n.keys@[i as int], n.vals@[i as int]));
            lemma_range_front(f, self.hi);
        }
        let k = n.keys[i].key_copy();
        let v = n.vals[i];
        if !is_below_hi(&k, &self.hi) {
            let empty: Vec<(Arc<Node<K, V>>, usize)> = Vec::new();
            self.stack = empty;
            proof {
                assert(flat(self.stack@) =~= Seq::<(K, V)>::empty());
                assert(range_of(Seq::<(K, V)>::empty(), KeyBound::Unbounded, self.hi) =~= Seq::<(K, V)>::empty());
            }
            return None;
        }
        let internal = n.children.len() != 0;
        let child = if internal {
            Some(Arc::clone(&n.children[i + 1]))
        } else {
            None
        };
        proof {
            lemma_frame_split(node_of(n), i + 1);
            lemma_slots_step(node_of(n), i as int);
        }
        let ghost nn = node_of(n);
        stack.push((n, i + 1));
        proof {
            assert(stack@.drop_last() =~= rest);
            assert forall|j: int| 0 <= j < stack@.len() implies wf(*(#[trigger] stack@[j]).0) && sorted(
                inorder(*stack@[j].0),
            ) && stack@[j].1 <= stack@[j].0.keys@.len() by {
                if j < rest.len() {
                    assert(stack@[j] == rest[j]);
                }
            }
        }
        match child {
            Some(ch) => {
                proof {
                    assert(wf(node_of(nn.children@[i + 1])));
                    lemma_sorted_parts(tail_part(nn, i as int), flat(rest));
                    assert(tail_part(nn, i as int) == seq![(nn.keys@[i as int], nn.vals@[i as int])] + slots(nn, i + 1));
                    lemma_sorted_parts(seq![(nn.keys@[i as int], nn.vals@[i as int])], slots(nn, i + 1));
                    lemma_sorted_parts(arc_inorder(nn.children@[i + 1]), tail_part(nn, i + 1));
                }
                push_left(&mut stack, ch);
            },
            None => {},
        }
        proof {
            assert(flat(stack@) =~= f.drop_first());
            assert(sorted(f.drop_first())) by {
                assert forall|a: int, b: int| 0 <= a < b < f.drop_first().len() implies (
                #[trigger] f.drop_first()[a]).0.precedes((#[trigger] f.drop_first()[b]).0) by {
                    assert(f.drop_first()[a] == f[a + 1] && f.drop_first()[b] == f[b + 1]);
                }
            }
        }
        settle(&mut stack);
        self.stack = stack;
        Some((k, v))
    }

    /// Whether another entry is to come.
    pub fn has_next(&self) -> (b: bool)
        ensures
            b == (self.remaining().len() > 0),
    {
        proof {
            use_type_invariant(self);
        }
        if self.stack.len() == 0 {
            return false;
        }
        let (n, i) = &self.stack[self.stack.len() - 1];
        proof {
            let st = self.stack@;
            assert(flat(st) == tail_part(*st.last().0, st.last().1 as int) + flat(st.drop_last()));
            assert(flat(st)[0] == (n.keys@[*i as int], n.vals@[*i as int]));
            lemma_range_front(flat(st), self.hi);
        }
        is_below_hi(&n.keys[*i], &self.hi)
    }
}

/// An entry is selected by a range exactly when it is an entry whose key is in
/// range.
pub proof fn lemma_range_of_contains<K: BKey, V>(
    s: Seq<(K, V)>,
    lo: KeyBound<K>,
    hi: KeyBound<K>,
    e: (K, V),
)
    ensures
        range_of(s, lo, hi).contains(e) <==> (s.contains(e) && above_lo(e.0, lo) && below_hi(e.0, hi)),
    decreases s.len(),
{
    if s.len() > 0 {
        lemma_range_of_contains(s.drop_last(), lo, hi, e);
        let r0 = range_of(s.drop_last(), lo, hi);
        let tail = if above_lo(s.last().0, lo) && below_hi(s.last().0, hi) {
            seq![s.last()]
        } else {
            Seq::<(K, V)>::empty()
        };
        assert(range_of(s, lo, hi) == r0 + tail);
        lemma_contains_concat(r0, tail, e);
        if s.contains(e) {
            let i = choose|i: int| 0 <= i < s.len() && s[i] == e;
            if i < s.len() - 1 {
                assert(s.drop_last()[i] == e);
            } else {
                assert(tail.len() == 0 || tail[0] == e);
            }
        }
        if s.drop_last().contains(e) {
            let i = choose|i: int| 0 <= i < s.drop_last().len() && s.drop_last()[i] == e;
            assert(s[i] == e);
        }
        if tail.contains(e) {
            assert(s[s.len() - 1] == e);
        }
    } else {
        assert(range_of(s, lo, hi) =~= Seq::<(K, V)>::empty());
    }
}

/// The entries a range selects from a sorted sequence are sorted.
pub proof fn lemma_range_of_sorted<K: BKey, V>(s: Seq<(K, V)>, lo: KeyBound<K>, hi: KeyBound<K>)
    requires
        sorted(s),
    ensures
        sorted(range_of(s, lo, hi)),
    decreases s.len(),
{
    if s.len() > 0 {
        let s0 = s.drop_last();
        assert(sorted(s0)) by {
            assert forall|i: int, j: int| 0 <= i < j < s0.len() implies (#[trigger] s0[i]).0.precedes(
                (#[trigger] s0[j]).0,
            ) by {
                assert(s0[i] == s[i] && s0[j] == s[j]);
            }
        }
        lemma_range_of_sorted(s0, lo, hi);
        let r0 = range_of(s0, lo, hi);
        let tail = if above_lo(s.last().0, lo) && below_hi(s.last().0, hi) {
            seq![s.last()]
        } else {
            Seq::<(K, V)>::empty()
        };
        assert forall|i: int, j: int| 0 <= i < r0.len() && 0 <= j < tail.len() implies (#[trigger] r0[i]).0.precedes(
            (#[trigger] tail[j]).0,
        ) by {
            assert(r0.contains(r0[i]));
            lemma_range_of_contains(s0, lo, hi, r0[i]);
            let k = choose|k: int| 0 <= k < s0.len() && s0[k] == r0[i];
            assert(s[k] == s0[k]);
            assert(tail[j] == s[s.len() - 1]);
        }
        assert(sorted(tail)) by {
            assert forall|i: int, j: int| 0 <= i < j < tail.len() implies (#[trigger] tail[i]).0.precedes(
                (#[trigger] tail[j]).0,
            ) by {}
        }
        lemma_sorted_concat(r0, tail);
    }
}

} // verus!
