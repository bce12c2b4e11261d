//! Paths and reachability in a directed graph given by its edge set, and the
//! facts about them that keep a causal graph acyclic.

use vstd::prelude::*;

verus! {

/// The `i`-th step of a node sequence.
pub open spec fn step(p: Seq<u128>, i: int) -> (u128, u128) {
    (p[i], p[i + 1])
}

/// `p` is a non-empty walk along edges of `g`.
pub open spec fn is_path(g: Set<(u128, u128)>, p: Seq<u128>) -> bool {
    &&& p.len() >= 1
    &&& forall|i: int| 0 <= i < p.len() - 1 ==> g.contains(#[trigger] step(p, i))
}

/// Some walk of at most `n` edges of `g` leads from `a` to `b`.
pub open spec fn within(g: Set<(u128, u128)>, a: u128, b: u128, n: nat) -> bool {
    exists|p: Seq<u128>| #[trigger] is_path(g, p) && p[0] == a && p.last() == b && p.len() <= n + 1
}

/// Some walk along edges of `g` leads from `a` to `b` (every node reaches itself).
pub open spec fn reaches(g: Set<(u128, u128)>, a: u128, b: u128) -> bool {
    exists|p: Seq<u128>| #[trigger] is_path(g, p) && p[0] == a && p.last() == b
}

/// No edge of `g` closes a cycle: the target of an edge never reaches its source.
pub open spec fn acyclic(g: Set<(u128, u128)>) -> bool {
    forall|a: u128, b: u128| #[trigger] g.contains((a, b)) ==> !reaches(g, b, a)
}

/// Every node reaches itself by the one-node walk.
pub proof fn lemma_reaches_self(g: Set<(u128, u128)>, a: u128)
    ensures
        reaches(g, a, a),
{
    let p = seq![a];
    assert(is_path(g, p));
}

/// A walk extended by an edge from its end is a walk.
pub proof fn lemma_reaches_step(g: Set<(u128, u128)>, a: u128, b: u128, c: u128)
    requires
        reaches(g, a, b),
        g.contains((b, c)),
    ensures
        reaches(g, a, c),
{
    let p = choose|p: Seq<u128>| #[trigger] is_path(g, p) && p[0] == a && p.last() == b;
    let q = p.push(c);
    assert forall|i: int| 0 <= i < q.len() - 1 implies g.contains(#[trigger] step(q, i)) by {
        if i < p.len() - 1 {
            assert(step(q, i) == step(p, i));
        } else {
            assert(step(q, i) == (b, c));
        }
    }
    assert(is_path(g, q));
}

/// Reachability is transitive.
pub proof fn lemma_reaches_trans(g: Set<(u128, u128)>, a: u128, b: u128, c: u128)
    requires
        reaches(g, a, b),
        reaches(g, b, c),
    ensures
        reaches(g, a, c),
{
    let q = choose|q: Seq<u128>| #[trigger] is_path(g, q) && q[0] == b && q.last() == c;
    lemma_reaches_trans_path(g, a, q);
}

proof fn lemma_reaches_trans_path(g: Set<(u128, u128)>, a: u128, q: Seq<u128>)
    requires
        is_path(g, q),
        reaches(g, a, q[0]),
    ensures
        reaches(g, a, q.last()),
    decreases q.len(),
{
    if q.len() > 1 {
        let q0 = q.drop_last();
        assert forall|i: int| 0 <= i < q0.len() - 1 implies g.contains(#[trigger] step(q0, i)) by {
            assert(step(q0, i) == step(q, i));
        }
        assert(is_path(g, q0));
        lemma_reaches_trans_path(g, a, q0);
        assert(step(q, q.len() - 2) == (q0.last(), q.last()));
        lemma_reaches_step(g, a, q0.last(), q.last());
    }
}

/// A walk in `g` with the edge `(a, b)` added either stays in `g`, or its start
/// reaches `a` and `b` reaches its end in `g`.
proof fn lemma_path_with_edge(g: Set<(u128, u128)>, a: u128, b: u128, p: Seq<u128>)
    requires
        is_path(g.insert((a, b)), p),
    ensures
        reaches(g, p[0], p.last()) || (reaches(g, p[0], a) && reaches(g, b, p.last())),
    decreases p.len(),
{
    if p.len() == 1 {
        lemma_reaches_self(g, p[0]);
    } else {
        let p0 = p.drop_last();
        let g1 = g.insert((a, b));
        assert forall|i: int| 0 <= i < p0.len() - 1 implies g1.contains(#[trigger] step(p0, i)) by {
            assert(step(p0, i) == step(p, i));
        }
        lemma_path_with_edge(g, a, b, p0);
        let x = p0.last();
        let y = p.last();
        assert(step(p, p.len() - 2) == (x, y));
        assert(p0[0] == p[0]);
        if g.contains((x, y)) {
            if reaches(g, p[0], x) {
                lemma_reaches_step(g, p[0], x, y);
            } else {
                lemma_reaches_step(g, b, x, y);
            }
        } else {
            assert((x, y) == (a, b));
            lemma_reaches_self(g, b);
            if reaches(g, p[0], x) {
            }
        }
    }
}

/// Reachability after adding the edge `(a, b)`.
pub proof fn lemma_reaches_with_edge(g: Set<(u128, u128)>, a: u128, b: u128, u: u128, v: u128)
    requires
        reaches(g.insert((a, b)), u, v),
    ensures
        reaches(g, u, v) || (reaches(g, u, a) && reaches(g, b, v)),
{
    let p = choose|p: Seq<u128>| #[trigger] is_path(g.insert((a, b)), p) && p[0] == u && p.last() == v;
    lemma_path_with_edge(g, a, b, p);
}

/// Adding an edge `(a, b)` to an acyclic graph keeps it acyclic, provided it is
/// not a self-loop and `b` does not already reach `a`.
pub proof fn lemma_add_edge_keeps_acyclic(g: Set<(u128, u128)>, a: u128, b: u128)
    requires
        acyclic(g),
        a != b,
        !reaches(g, b, a),
    ensures
        acyclic(g.insert((a, b))),
{
    let g1 = g.insert((a, b));
    assert forall|x: u128, y: u128| #[trigger] g1.contains((x, y)) implies !reaches(g1, y, x) by {
        if reaches(g1, y, x) {
            lemma_reaches_with_edge(g, a, b, y, x);
            if (x, y) == (a, b) {
                if reaches(g, y, x) {
                } else {
                    assert(reaches(g, b, a));
                }
            } else {
                assert(g.contains((x, y)));
                if reaches(g, y, x) {
                } else {
                    lemma_reaches_step(g, b, x, y);
                    lemma_reaches_trans(g, b, y, a);
                }
            }
        }
    }
}

/// A set of nodes that holds `start` and every successor of its members holds
/// every node `start` reaches.
pub proof fn lemma_closed_holds_reach(g: Set<(u128, u128)>, vis: Set<u128>, start: u128, x: u128)
    requires
        vis.contains(start),
        forall|u: u128, v: u128| vis.contains(u) && #[trigger] g.contains((u, v)) ==> vis.contains(v),
        reaches(g, start, x),
    ensures
        vis.contains(x),
{
    let p = choose|p: Seq<u128>| #[trigger] is_path(g, p) && p[0] == start && p.last() == x;
    lemma_closed_holds_path(g, vis, p);
}

proof fn lemma_closed_holds_path(g: Set<(u128, u128)>, vis: Set<u128>, p: Seq<u128>)
    requires
        is_path(g, p),
        vis.contains(p[0]),
        forall|u: u128, v: u128| vis.contains(u) && #[trigger] g.contains((u, v)) ==> vis.contains(v),
    ensures
        vis.contains(p.last()),
    decreases p.len(),
{
    if p.len() > 1 {
        let p0 = p.drop_last();
        assert forall|i: int| 0 <= i < p0.len() - 1 implies g.contains(#[trigger] step(p0, i)) by {
            assert(step(p0, i) == step(p, i));
        }
        lemma_closed_holds_path(g, vis, p0);
        assert(step(p, p.len() - 2) == (p0.last(), p.last()));
    }
}

/// The graph with every edge reversed.
pub open spec fn transpose(g: Set<(u128, u128)>) -> Set<(u128, u128)> {
    Set::new(|e: (u128, u128)| g.contains((e.1, e.0)))
}

/// A node reaches another in the reversed graph exactly when the other reaches
/// it in the graph.
pub proof fn lemma_reaches_transpose(g: Set<(u128, u128)>, a: u128, b: u128)
    ensures
        reaches(transpose(g), a, b) <==> reaches(g, b, a),
{
    if reaches(transpose(g), a, b) {
        let p = choose|p: Seq<u128>| #[trigger] is_path(transpose(g), p) && p[0] == a && p.last() == b;
        lemma_path_reverse(transpose(g), p);
        assert(transpose(transpose(g)) =~= g);
    }
    if reaches(g, b, a) {
        let p = choose|p: Seq<u128>| #[trigger] is_path(g, p) && p[0] == b && p.last() == a;
        lemma_path_reverse(g, p);
    }
}

/// Reversing a walk gives a walk of the reversed graph.
pub proof fn lemma_path_reverse(g: Set<(u128, u128)>, p: Seq<u128>)
    requires
        is_path(g, p),
    ensures
        is_path(transpose(g), p.reverse()),
        p.reverse().len() == p.len(),
        p.reverse()[0] == p.last(),
        p.reverse().last() == p[0],
{
    let r = p.reverse();
    let n = p.len();
    assert forall|i: int| 0 <= i < r.len() - 1 implies transpose(g).contains(#[trigger] step(r, i)) by {
        assert(r[i] == p[n - 1 - i]);
        assert(r[i + 1] == p[n - 2 - i]);
        assert(step(p, n - 2 - i) == (p[n - 2 - i], p[n - 1 - i]));
    }
}

} // verus!
