//! The causal-provenance graph.
//!
//! Every memory can link to the memories that caused it. Edges are indexed
//! twice, a forward adjacency `(from, to)` and a reverse adjacency `(to, from)`,
//! in two copy-on-write B-trees, so "what did X cause" and "what caused X" are
//! both prefix scans. The graph is kept acyclic:
//! [`add_edge`](CausalDag::add_edge) rejects any edge that would close a cycle.
//!
//! Provenance is traced breadth-first:
//! [`find_provenance_chain`](CausalDag::find_provenance_chain) returns all
//! transitive causes of a memory, and [`find_path`](CausalDag::find_path) a
//! causal path between two memories.

use std::collections::{HashMap, HashSet, VecDeque};
use vstd::prelude::*;

use crate::base::event::EdgeType;
use crate::base::ids::MemoryId;
use crate::storage::btree::{
    above_lo, below_hi, has_key, range_of, sorted, upserted, CowBTree, KeyBound,
};
use crate::storage::error::StorageError;
use crate::storage::graph::{
    acyclic, is_path, lemma_add_edge_keeps_acyclic, lemma_closed_holds_reach, lemma_path_reverse, lemma_reaches_self,
    lemma_reaches_step, lemma_reaches_transpose, reaches, step, transpose, within,
};
use crate::storage::key::BKey;

verus! {

broadcast use vstd::std_specs::hash::group_hash_axioms;

/// The edges an adjacency index holds.
pub open spec fn edge_set(s: Seq<((u128, u128), EdgeType)>) -> Set<(u128, u128)> {
    Set::new(|k: (u128, u128)| has_key(s, k))
}

/// The lower bound of the keys starting with `x`.
pub open spec fn prefix_lo(x: u128) -> KeyBound<(u128, u128)> {
    KeyBound::Included((x, 0u128))
}

/// The upper bound of the keys starting with `x`.
pub open spec fn prefix_hi(x: u128) -> KeyBound<(u128, u128)> {
    KeyBound::Included((x, u128::MAX))
}

/// An entry is selected from a sequence by a range exactly when it is in the
/// sequence and its key is in range.
proof fn lemma_range_contains<V>(
    s: Seq<((u128, u128), V)>,
    lo: KeyBound<(u128, u128)>,
    hi: KeyBound<(u128, u128)>,
    e: ((u128, u128), V),
)
    ensures
        range_of(s, lo, hi).contains(e) <==> (s.contains(e) && above_lo(e.0, lo) && below_hi(e.0, hi)),
    decreases s.len(),
{
    if s.len() > 0 {
        lemma_range_contains(s.drop_last(), lo, hi, e);
        let r0 = range_of(s.drop_last(), lo, hi);
        let tail = if above_lo(s.last().0, lo) && below_hi(s.last().0, hi) {
            seq![s.last()]
        } else {
            Seq::<((u128, u128), V)>::empty()
        };
        assert(range_of(s, lo, hi) == r0 + tail);
        if (r0 + tail).contains(e) {
            let i = choose|i: int| 0 <= i < (r0 + tail).len() && (r0 + tail)[i] == e;
            if i < r0.len() {
                assert(r0[i] == e);
            } else {
                assert(tail[i - r0.len()] == e);
                assert(s[s.len() - 1] == e);
            }
        }
        if s.contains(e) && above_lo(e.0, lo) && below_hi(e.0, hi) {
            let i = choose|i: int| 0 <= i < s.len() && s[i] == e;
            if i < s.len() - 1 {
                assert(s.drop_last()[i] == e);
                let k = choose|k: int| 0 <= k < r0.len() && r0[k] == e;
                assert((r0 + tail)[k] == e);
            } else {
                assert(tail[0] == e);
                assert((r0 + tail)[r0.len() as int] == e);
            }
        }
    } else {
        assert(range_of(s, lo, hi) =~= Seq::<((u128, u128), V)>::empty());
    }
}

/// The successors of `x` in an adjacency index, with edge types, in key order.
fn successors(adj: &CowBTree<(u128, u128), EdgeType>, x: u128) -> (r: Vec<(MemoryId, EdgeType)>)
    ensures
        r@.len() == range_of(adj.entries(), prefix_lo(x), prefix_hi(x)).len(),
        forall|i: int|
            0 <= i < r@.len() ==> #[trigger] r@[i] == (
                MemoryId(range_of(adj.entries(), prefix_lo(x), prefix_hi(x))[i].0.1),
                range_of(adj.entries(), prefix_lo(x), prefix_hi(x))[i].1,
            ),
        forall|y: u128|
            (exists|i: int| 0 <= i < r@.len() && (#[trigger] r@[i]).0.0 == y) <==> edge_set(
                adj.entries(),
            ).contains((x, y)),
{
    let ghost sel = range_of(adj.entries(), prefix_lo(x), prefix_hi(x));
    let mut it = adj.range(KeyBound::Included((x, 0u128)), KeyBound::Included((x, u128::MAX)));
    let mut out: Vec<(MemoryId, EdgeType)> = Vec::new();
    let ghost mut taken: int = 0;
    while it.has_next()
        invariant
            0 <= taken <= sel.len(),
            it.remaining() == sel.skip(taken),
            out@.len() == taken,
            forall|i: int|
                0 <= i < taken ==> #[trigger] out@[i] == (MemoryId(sel[i].0.1), sel[i].1),
        decreases sel.len() - taken,
    {
        match it.next() {
            Some(e) => {
                assert(sel.skip(taken)[0] == sel[taken]);
                out.push((MemoryId(e.0.1), e.1));
                proof {
                    assert(sel.skip(taken).drop_first() =~= sel.skip(taken + 1));
                    taken = taken + 1;
                }
            },
            None => {},
        }
    }
    proof {
        assert(taken == sel.len());
        assert forall|y: u128|
            (exists|i: int| 0 <= i < out@.len() && (#[trigger] out@[i]).0.0 == y) <==> edge_set(
                adj.entries(),
            ).contains((x, y)) by {
            let s = adj.entries();
            if exists|i: int| 0 <= i < out@.len() && (#[trigger] out@[i]).0.0 == y {
                let i = choose|i: int| 0 <= i < out@.len() && (#[trigger] out@[i]).0.0 == y;
                let e = sel[i];
                assert(sel.contains(e));
                lemma_range_contains(s, prefix_lo(x), prefix_hi(x), e);
                let j = choose|j: int| 0 <= j < s.len() && s[j] == e;
                assert(e.0 == (x, y));
                assert(s[j].0 == (x, y));
            }
            if edge_set(s).contains((x, y)) {
                let j = choose|j: int| 0 <= j < s.len() && (#[trigger] s[j]).0 == (x, y);
                let e = s[j];
                assert(s.contains(e));
                lemma_range_contains(s, prefix_lo(x), prefix_hi(x), e);
                let i = choose|i: int| 0 <= i < sel.len() && sel[i] == e;
                assert(out@[i].0.0 == y);
            }
        }
    }
    out
}

/// The targets of the edges an index holds, and `start`.
pub open spec fn nodes_of(s: Seq<((u128, u128), EdgeType)>, start: u128) -> Set<u128> {
    s.map_values(|e: ((u128, u128), EdgeType)| e.0.1).to_set().insert(start)
}

/// `x` was discovered from a node discovered before it (or from the start).
pub open spec fn parent_ok(
    g: Set<(u128, u128)>,
    start: u128,
    order: Seq<u128>,
    parent: Map<u128, u128>,
    x: u128,
) -> bool {
    &&& parent.contains_key(x)
    &&& g.contains((parent[x], x))
    &&& (parent[x] == start || exists|i: int, j: int|
        0 <= i < j < order.len() && order[i] == parent[x] && order[j] == x)
}

/// The outcome of a breadth-first search from `start`: the nodes discovered, each
/// once, are exactly those `start` reaches (other than itself), and each knows
/// the node it was discovered from.
pub open spec fn bfs_result(
    g: Set<(u128, u128)>,
    start: u128,
    order: Seq<u128>,
    parent: Map<u128, u128>,
) -> bool {
    &&& order.no_duplicates()
    &&& !order.contains(start)
    &&& forall|x: u128| #[trigger] order.contains(x) <==> (x != start && reaches(g, start, x))
    &&& forall|x: u128| #[trigger] order.contains(x) ==> parent_ok(g, start, order, parent, x)
}

/// `x` sits one level below the node it was discovered from.
pub open spec fn tree_level(parent: Map<u128, u128>, lvl: Map<u128, nat>, x: u128) -> bool {
    &&& parent.contains_key(x)
    &&& lvl.contains_key(x)
    &&& lvl.contains_key(parent[x])
    &&& lvl[x] == lvl[parent[x]] + 1
}

/// Breadth-first levels: `start` is at level 0, each discovered node one level
/// below its parent, and no edge out of a discovered node skips a level.
pub open spec fn bfs_levels(
    g: Set<(u128, u128)>,
    start: u128,
    order: Seq<u128>,
    parent: Map<u128, u128>,
    lvl: Map<u128, nat>,
) -> bool {
    &&& lvl.contains_key(start) && lvl[start] == 0
    &&& forall|x: u128| #[trigger] order.contains(x) ==> tree_level(parent, lvl, x)
    &&& forall|u: u128, v: u128|
        (u == start || order.contains(u)) && #[trigger] g.contains((u, v)) ==> (v == start || order.contains(v))
            && lvl.contains_key(v) && lvl[v] <= lvl[u] + 1
}

/// Each discovered node is reached from `start` by a walk of exactly its level
/// in edges: the chain of its parents.
proof fn lemma_tree_path(
    g: Set<(u128, u128)>,
    start: u128,
    order: Seq<u128>,
    parent: Map<u128, u128>,
    lvl: Map<u128, nat>,
    x: u128,
)
    requires
        bfs_result(g, start, order, parent),
        bfs_levels(g, start, order, parent, lvl),
        order.contains(x),
    ensures
        exists|q: Seq<u128>| #[trigger] is_path(g, q) && q[0] == start && q.last() == x && q.len() == lvl[x] + 1,
    decreases lvl[x],
{
    assert(tree_level(parent, lvl, x));
    assert(parent_ok(g, start, order, parent, x));
    let p = parent[x];
    if p == start {
        let q = seq![start, x];
        assert(step(q, 0) == (p, x));
        assert(is_path(g, q));
    } else {
        let (i, j) = choose|i: int, j: int| 0 <= i < j < order.len() && order[i] == p && order[j] == x;
        assert(order.contains(p));
        lemma_tree_path(g, start, order, parent, lvl, p);
        let qp = choose|q: Seq<u128>| #[trigger] is_path(g, q) && q[0] == start && q.last() == p && q.len() == lvl[p] + 1;
        let q = qp.push(x);
        assert forall|k: int| 0 <= k < q.len() - 1 implies g.contains(#[trigger] step(q, k)) by {
            if k < qp.len() - 1 {
                assert(step(q, k) == step(qp, k));
            } else {
                assert(step(q, k) == (p, x));
            }
        }
        assert(is_path(g, q));
    }
}

/// Along any walk from `start`, the `i`-th node is discovered and at most `i`
/// levels down.
proof fn lemma_levels_bound(
    g: Set<(u128, u128)>,
    start: u128,
    order: Seq<u128>,
    parent: Map<u128, u128>,
    lvl: Map<u128, nat>,
    q: Seq<u128>,
)
    requires
        bfs_levels(g, start, order, parent, lvl),
        is_path(g, q),
        q[0] == start,
    ensures
        forall|i: int| 0 <= i < q.len() ==> (#[trigger] q[i] == start || order.contains(q[i])) && lvl[q[i]] <= i,
    decreases q.len(),
{
    if q.len() > 1 {
        let q1 = q.drop_last();
        assert forall|i: int| 0 <= i < q1.len() - 1 implies g.contains(#[trigger] step(q1, i)) by {
            assert(step(q1, i) == step(q, i));
        }
        lemma_levels_bound(g, start, order, parent, lvl, q1);
        assert forall|i: int| 0 <= i < q.len() implies (#[trigger] q[i] == start || order.contains(q[i])) && lvl[q[i]]
            <= i by {
            if i < q.len() - 1 {
                assert(q[i] == q1[i]);
            } else {
                assert(q1[i - 1] == q[i - 1]);
                assert(g.contains(step(q, i - 1)));
            }
        }
    }
}

/// Discovering `y` from `cur` one level down keeps the level facts of a
/// breadth-first search.
proof fn lemma_levels_push(
    g: Set<(u128, u128)>,
    start: u128,
    ob: Seq<u128>,
    pb: Map<u128, u128>,
    lb: Map<u128, nat>,
    vb: Set<u128>,
    cur: u128,
    lc: nat,
    y: u128,
    done: int,
)
    requires
        0 <= done <= ob.len(),
        lb.contains_key(start) && lb[start] == 0,
        forall|x: u128| #[trigger] ob.contains(x) ==> tree_level(pb, lb, x),
        forall|x: u128| #[trigger] ob.contains(x) ==> parent_ok(g, start, ob, pb, x),
        forall|x: u128| #[trigger] vb.contains(x) <==> (x == start || ob.contains(x)),
        forall|x: u128| #[trigger] vb.contains(x) ==> lb.contains_key(x),
        vb.contains(cur),
        lb[cur] == lc,
        !vb.contains(y),
        forall|a: int, b: int|
            0 <= a < b < ob.len() + 1 ==> lb[#[trigger] (seq![start] + ob)[a]] <= lb[#[trigger] (seq![start] + ob)[b]],
        forall|b: int| 0 <= b < ob.len() + 1 ==> lb[#[trigger] (seq![start] + ob)[b]] <= lc + 1,
        forall|i: int, v: u128|
            0 <= i < done && #[trigger] g.contains(((seq![start] + ob)[i], v)) ==> vb.contains(v),
        forall|i: int, v: u128|
            0 <= i < done && #[trigger] g.contains(((seq![start] + ob)[i], v)) ==> lb[v] <= lb[(seq![start]
                + ob)[i]] + 1,
    ensures
        ({
            let o1 = ob.push(y);
            let p1 = pb.insert(y, cur);
            let l1 = lb.insert(y, lc + 1);
            let v1 = vb.insert(y);
            &&& l1.contains_key(start) && l1[start] == 0
            &&& forall|x: u128| #[trigger] o1.contains(x) ==> tree_level(p1, l1, x)
            &&& forall|x: u128| #[trigger] v1.contains(x) ==> l1.contains_key(x)
            &&& l1[cur] == lc
            &&& forall|a: int, b: int|
                0 <= a < b < o1.len() + 1 ==> l1[#[trigger] (seq![start] + o1)[a]] <= l1[#[trigger] (seq![start]
                    + o1)[b]]
            &&& forall|b: int| 0 <= b < o1.len() + 1 ==> l1[#[trigger] (seq![start] + o1)[b]] <= lc + 1
            &&& forall|i: int, v: u128|
                0 <= i < done && #[trigger] g.contains(((seq![start] + o1)[i], v)) ==> l1[v] <= l1[(seq![start]
                    + o1)[i]] + 1
        }),
{
    let o1 = ob.push(y);
    let p1 = pb.insert(y, cur);
    let l1 = lb.insert(y, lc + 1);
    let v1 = vb.insert(y);
    let a0 = seq![start] + ob;
    let a1 = seq![start] + o1;
    assert(a1 =~= a0.push(y));
    assert(y != start);
    assert forall|x: u128| #[trigger] o1.contains(x) implies tree_level(p1, l1, x) by {
        if x != y {
            let t = choose|t: int| 0 <= t < o1.len() && o1[t] == x;
            assert(ob[t] == x);
            assert(ob.contains(x));
            assert(parent_ok(g, start, ob, pb, x));
            if pb[x] != start {
                let (i, j) = choose|i: int, j: int| 0 <= i < j < ob.len() && ob[i] == pb[x] && ob[j] == x;
                assert(ob.contains(pb[x]));
            }
            assert(vb.contains(pb[x]));
        }
    }
    assert forall|a: int, b: int| 0 <= a < b < o1.len() + 1 implies l1[#[trigger] a1[a]] <= l1[#[trigger] a1[b]] by {
        assert(a1[a] == a0[a]);
        assert(vb.contains(a0[a])) by {
            if a > 0 {
                assert(ob.contains(ob[a - 1]));
            }
        }
        if b < ob.len() + 1 {
            assert(a1[b] == a0[b]);
            assert(vb.contains(a0[b])) by {
                assert(ob.contains(ob[b - 1]));
            }
        }
    }
    assert forall|b: int| 0 <= b < o1.len() + 1 implies l1[#[trigger] a1[b]] <= lc + 1 by {
        if b < ob.len() + 1 {
            assert(a1[b] == a0[b]);
            assert(vb.contains(a0[b])) by {
                if b > 0 {
                    assert(ob.contains(ob[b - 1]));
                }
            }
        }
    }
    assert forall|i: int, v: u128| 0 <= i < done && #[trigger] g.contains((a1[i], v)) implies l1[v] <= l1[a1[i]] + 1 by {
        assert(a1[i] == a0[i]);
        assert(g.contains((a0[i], v)));
        assert(vb.contains(v));
        assert(vb.contains(a0[i])) by {
            if i > 0 {
                assert(ob.contains(ob[i - 1]));
            }
        }
    }
}

/// Breadth-first search from `start` along an adjacency index: the discovery
/// order, the parent of each discovered node, and (as ghost) its level.
fn bfs(adj: &CowBTree<(u128, u128), EdgeType>, start: u128) -> (r: (
    Vec<u128>,
    HashMap<u128, u128>,
    Ghost<Map<u128, nat>>,
))
    ensures
        bfs_result(edge_set(adj.entries()), start, r.0@, r.1@),
        bfs_levels(edge_set(adj.entries()), start, r.0@, r.1@, r.2@),
        forall|a: int, b: int|
            0 <= a < b < r.0@.len() ==> r.2@[#[trigger] r.0@[a]] <= r.2@[#[trigger] r.0@[b]],
{
    let ghost g = edge_set(adj.entries());
    let ghost nodes = nodes_of(adj.entries(), start);
    let mut visited: HashSet<u128> = HashSet::new();
    visited.insert(start);
    let mut queue: VecDeque<u128> = VecDeque::new();
    queue.push_back(start);
    let mut order: Vec<u128> = Vec::new();
    let mut parent: HashMap<u128, u128> = HashMap::new();
    let ghost mut done: int = 0;
    let ghost mut lvl: Map<u128, nat> = Map::empty().insert(start, 0nat);
    proof {
        assert(nodes.finite());
        lemma_reaches_self(g, start);
        assert(queue@ =~= (seq![start] + order@).skip(0));
    }
    while queue.len() > 0
        invariant
            g == edge_set(adj.entries()),
            nodes == nodes_of(adj.entries(), start),
            nodes.finite(),
            forall|x: u128| #[trigger] visited@.contains(x) <==> (x == start || order@.contains(x)),
            forall|x: u128| #[trigger] visited@.contains(x) ==> nodes.contains(x),
            order@.no_duplicates(),
            !order@.contains(start),
            order@.len() < nodes.len(),
            forall|x: u128| #[trigger] order@.contains(x) ==> reaches(g, start, x),
            forall|x: u128| #[trigger] order@.contains(x) ==> parent_ok(g, start, order@, parent@, x),
            0 <= done <= order@.len() + 1,
            queue@ == (seq![start] + order@).skip(done),
            forall|i: int, v: u128|
                0 <= i < done && #[trigger] g.contains(((seq![start] + order@)[i], v))
                    ==> visited@.contains(v),
            lvl.contains_key(start) && lvl[start] == 0,
            forall|x: u128| #[trigger] order@.contains(x) ==> tree_level(parent@, lvl, x),
            forall|x: u128| #[trigger] visited@.contains(x) ==> lvl.contains_key(x),
            forall|a: int, b: int|
                0 <= a < b < order@.len() + 1 ==> lvl[#[trigger] (seq![start] + order@)[a]]
                    <= lvl[#[trigger] (seq![start] + order@)[b]],
            done < order@.len() + 1 ==> forall|b: int|
                0 <= b < order@.len() + 1 ==> lvl[#[trigger] (seq![start] + order@)[b]]
                    <= lvl[(seq![start] + order@)[done]] + 1,
            forall|i: int, v: u128|
                0 <= i < done && #[trigger] g.contains(((seq![start] + order@)[i], v))
                    ==> lvl[v] <= lvl[(seq![start] + order@)[i]] + 1,
        decreases nodes.len() - order@.len(), queue@.len(),
    {
        let ghost all0 = seq![start] + order@;
        let ghost order0 = order@;
        let ghost q0 = queue@;
        let cur = match queue.pop_front() {
            None => start,
            Some(c) => c,
        };
        proof {
            assert(q0[0] == all0[done]);
            assert(cur == all0[done]);
            assert(queue@ =~= all0.skip(done + 1));
            if done > 0 {
                assert(all0[done] == order@[done - 1]);
            }
        }
        let succ = successors(adj, cur);
        let ghost lc: nat = lvl[cur];
        proof {
            assert(visited@.contains(cur)) by {
                if done > 0 {
                    assert(order0[done - 1] == cur);
                }
            }
        }
        let mut j: usize = 0;
        while j < succ.len()
            invariant
                g == edge_set(adj.entries()),
                nodes == nodes_of(adj.entries(), start),
                nodes.finite(),
                0 <= done < all0.len(),
                cur == all0[done],
                all0 == seq![start] + order0,
                done > 0 ==> cur == order0[done - 1],
                done == 0 ==> cur == start,
                order@.len() >= order0.len(),
                order@.subrange(0, order0.len() as int) == order0,
                forall|x: u128| #[trigger] visited@.contains(x) <==> (x == start || order@.contains(x)),
                forall|x: u128| #[trigger] visited@.contains(x) ==> nodes.contains(x),
                order@.no_duplicates(),
                !order@.contains(start),
                order@.len() < nodes.len(),
                forall|x: u128| #[trigger] order@.contains(x) ==> reaches(g, start, x),
                forall|x: u128| #[trigger] order@.contains(x) ==> parent_ok(g, start, order@, parent@, x),
                queue@ == (seq![start] + order@).skip(done + 1),
                forall|i: int, v: u128|
                    0 <= i < done && #[trigger] g.contains(((seq![start] + order@)[i], v))
                        ==> visited@.contains(v),
                forall|y: u128|
                    (exists|i: int| 0 <= i < succ@.len() && (#[trigger] succ@[i]).0.0 == y)
                        <==> g.contains((cur, y)),
                j <= succ@.len(),
                forall|i: int| 0 <= i < j ==> visited@.contains((#[trigger] succ@[i]).0.0),
                lvl.contains_key(start) && lvl[start] == 0,
                forall|x: u128| #[trigger] order@.contains(x) ==> tree_level(parent@, lvl, x),
                forall|x: u128| #[trigger] visited@.contains(x) ==> lvl.contains_key(x),
                visited@.contains(cur),
                lvl[cur] == lc,
                forall|a: int, b: int|
                    0 <= a < b < order@.len() + 1 ==> lvl[#[trigger] (seq![start] + order@)[a]]
                        <= lvl[#[trigger] (seq![start] + order@)[b]],
                forall|b: int| 0 <= b < order@.len() + 1 ==> lvl[#[trigger] (seq![start] + order@)[b]] <= lc + 1,
                forall|i: int, v: u128|
                    0 <= i < done && #[trigger] g.contains(((seq![start] + order@)[i], v))
                        ==> lvl[v] <= lvl[(seq![start] + order@)[i]] + 1,
            decreases succ@.len() - j,
        {
            let y = succ[j].0.0;
            proof {
                assert(g.contains((cur, y)));
            }
            let ghost ob = order@;
            let ghost vb = visited@;
            let ghost pb = parent@;
            let ghost lb = lvl;
            if visited.insert(y) {
                order.push(y);
                parent.insert(y, cur);
                queue.push_back(y);
                proof {
                    lvl = lvl.insert(y, lc + 1);
                    lemma_levels_push(g, start, ob, pb, lb, vb, cur, lc, y, done);
                    assert(order@ == ob.push(y));
                    assert(parent@ == pb.insert(y, cur));
                    assert(visited@ == vb.insert(y));
                }
                proof {
                    let s = adj.entries();
                    let k = choose|k: int| 0 <= k < s.len() && (#[trigger] s[k]).0 == (cur, y);
                    assert(s.map_values(|e: ((u128, u128), EdgeType)| e.0.1)[k] == y);
                    assert(nodes.contains(y));
                    assert(order@.subrange(0, order0.len() as int) =~= order0);
                    assert forall|a: int, b: int| 0 <= a < b < order@.len() implies order@[a] != order@[b] by {
                        if b == order@.len() - 1 {
                            assert(ob.contains(order@[a]));
                        } else {
                            assert(ob[a] != ob[b]);
                        }
                    }
                    assert(!order@.contains(start)) by {
                        if order@.contains(start) {
                            let t = choose|t: int| 0 <= t < order@.len() && order@[t] == start;
                            if t < ob.len() {
                                assert(ob[t] == start);
                            }
                        }
                    }
                    assert(order@[order@.len() - 1] == y);
                    assert forall|x: u128| #[trigger] visited@.contains(x) <==> (x == start || order@.contains(x)) by {
                        if ob.contains(x) {
                            let t = choose|t: int| 0 <= t < ob.len() && ob[t] == x;
                            assert(order@[t] == x);
                        }
                        if order@.contains(x) {
                            let t = choose|t: int| 0 <= t < order@.len() && order@[t] == x;
                            if t < ob.len() {
                                assert(ob[t] == x);
                            }
                        }
                    }
                    assert(reaches(g, start, cur)) by {
                        if done == 0 {
                            lemma_reaches_self(g, start);
                        } else {
                            assert(ob.subrange(0, order0.len() as int)[done - 1] == ob[done - 1]);
                            assert(ob[done - 1] == cur);
                            assert(ob.contains(cur));
                        }
                    }
                    lemma_reaches_step(g, start, cur, y);
                    assert forall|x: u128| #[trigger] order@.contains(x) implies reaches(g, start, x) by {
                        if x != y {
                            let t = choose|t: int| 0 <= t < order@.len() && order@[t] == x;
                            assert(ob[t] == x);
                            assert(ob.contains(x));
                        }
                    }
                    assert forall|x: u128| #[trigger] order@.contains(x) implies parent_ok(
                        g,
                        start,
                        order@,
                        parent@,
                        x,
                    ) by {
                        if x == y {
                            if done > 0 {
                                assert(order@[done - 1] == cur);
                                assert(order@[order@.len() - 1] == y);
                            }
                        } else {
                            let t = choose|t: int| 0 <= t < order@.len() && order@[t] == x;
                            assert(ob[t] == x);
                            assert(ob.contains(x));
                            assert(parent_ok(g, start, ob, parent@.remove(y), x)) by {
                                assert(parent@.remove(y) =~= parent@.remove(y));
                            }
                            if parent@[x] != start {
                                let (a, b) = choose|a: int, b: int|
                                    0 <= a < b < ob.len() && ob[a] == parent@[x] && ob[b] == x;
                                assert(order@[a] == ob[a] && order@[b] == ob[b]);
                            }
                        }
                    }
                    assert(queue@ =~= (seq![start] + order@).skip(done + 1));
                    assert forall|i: int, v: u128|
                        0 <= i < done && #[trigger] g.contains(((seq![start] + order@)[i], v))
                        implies visited@.contains(v) by {
                        assert((seq![start] + order@)[i] == (seq![start] + ob)[i]);
                    }
                    assert(order@.to_set().subset_of(nodes.remove(start))) by {
                        assert forall|x: u128| order@.to_set().contains(x) implies nodes.remove(start).contains(x) by {
                            assert(visited@.contains(x));
                        }
                    }
                    order@.unique_seq_to_set();
                    vstd::set_lib::lemma_len_subset(order@.to_set(), nodes.remove(start));
                }
            } else {
                proof {
                    assert(visited@ == vb);
                }
            }
            j = j + 1;
        }
        proof {
            assert forall|i: int, v: u128|
                0 <= i < done + 1 && #[trigger] g.contains(((seq![start] + order@)[i], v))
                implies visited@.contains(v) by {
                if i == done {
                    assert((seq![start] + order@)[i] == all0[done]);
                    let k = choose|k: int| 0 <= k < succ@.len() && (#[trigger] succ@[k]).0.0 == v;
                    assert(visited@.contains(succ@[k].0.0));
                }
            }
            let all = seq![start] + order@;
            assert(all[done] == cur) by {
                assert(order@.subrange(0, order0.len() as int) == order0);
                if done > 0 {
                    assert(order@[done - 1] == order0[done - 1]);
                }
            }
            assert forall|i: int, v: u128|
                0 <= i < done + 1 && #[trigger] g.contains((all[i], v))
                implies lvl[v] <= lvl[all[i]] + 1 by {
                if i == done {
                    assert(visited@.contains(v));
                    if v != start {
                        let t = choose|t: int| 0 <= t < order@.len() && order@[t] == v;
                        assert(all[t + 1] == v);
                    }
                }
            }
            if done + 1 < all.len() {
                assert(lvl[all[done]] <= lvl[all[done + 1]]);
            }
            done = done + 1;
        }
    }
    proof {
        let all = seq![start] + order@;
        assert(done == order@.len() + 1);
        assert forall|u: u128, v: u128| visited@.contains(u) && #[trigger] g.contains((u, v)) implies visited@.contains(v) by {
            if u == start {
                assert(all[0] == u);
            } else {
                let t = choose|t: int| 0 <= t < order@.len() && order@[t] == u;
                assert(all[t + 1] == u);
            }
        }
        assert forall|x: u128| #[trigger] order@.contains(x) <==> (x != start && reaches(g, start, x)) by {
            if x != start && reaches(g, start, x) {
                lemma_closed_holds_reach(g, visited@, start, x);
            }
        }
        assert forall|u: u128, v: u128|
            (u == start || order@.contains(u)) && #[trigger] g.contains((u, v)) implies (v == start
                || order@.contains(v)) && lvl.contains_key(v) && lvl[v] <= lvl[u] + 1 by {
            let t = if u == start {
                0
            } else {
                let t = choose|t: int| 0 <= t < order@.len() && order@[t] == u;
                t + 1
            };
            assert(all[t] == u);
            assert(visited@.contains(u));
            assert(g.contains((all[t], v)));
            assert(visited@.contains(v));
        }
        assert forall|a: int, b: int| 0 <= a < b < order@.len() implies lvl[#[trigger] order@[a]]
            <= lvl[#[trigger] order@[b]] by {
            assert(all[a + 1] == order@[a] && all[b + 1] == order@[b]);
        }
    }
    (order, parent, Ghost(lvl))
}

/// The node ids of a sequence of memory ids.
pub open spec fn ids_of(p: Seq<MemoryId>) -> Seq<u128> {
    p.map_values(|m: MemoryId| m.0)
}

/// An acyclic causal-provenance graph with forward and reverse adjacency.
pub struct CausalDag {
    /// `(from, to) -> edge type`: the effects of `from`.
    forward: CowBTree<(u128, u128), EdgeType>,
    /// `(to, from) -> edge type`: the causes of `to`.
    reverse: CowBTree<(u128, u128), EdgeType>,
}

impl CausalDag {
    /// The edges with their types, by `(from, to)` in ascending order.
    pub closed spec fn edge_entries(&self) -> Seq<((u128, u128), EdgeType)> {
        self.forward.entries()
    }

    /// The reverse index: `(to, from)` with the edge's type, in ascending order.
    pub closed spec fn cause_entries(&self) -> Seq<((u128, u128), EdgeType)> {
        self.reverse.entries()
    }

    /// The edge set.
    pub open spec fn edges(&self) -> Set<(u128, u128)> {
        edge_set(self.edge_entries())
    }

    /// The graph's invariant: the reverse index mirrors the forward one and the
    /// graph is acyclic.
    pub closed spec fn wf(&self) -> bool {
        &&& forall|a: u128, b: u128, t: EdgeType|
            #[trigger] self.forward.entries().contains(((a, b), t)) <==> self.reverse.entries().contains(
                ((b, a), t),
            )
        &&& forall|a: u128, b: u128, t: EdgeType|
            #[trigger] self.reverse.entries().contains(((b, a), t)) ==> self.forward.entries().contains(
                ((a, b), t),
            )
        &&& self.forward.entries().len() == self.reverse.entries().len()
        &&& acyclic(edge_set(self.forward.entries()))
    }

    /// The reverse index holds exactly the reversed edges.
    pub proof fn lemma_reverse_index(&self)
        requires
            self.wf(),
        ensures
            forall|a: u128, b: u128, t: EdgeType|
                #[trigger] self.cause_entries().contains(((b, a), t)) <==> self.edge_entries().contains(
                    ((a, b), t),
                ),
            edge_set(self.cause_entries()) == transpose(self.edges()),
            acyclic(self.edges()),
    {
        let f = self.forward.entries();
        let r = self.reverse.entries();
        assert forall|e: (u128, u128)| edge_set(r).contains(e) <==> transpose(edge_set(f)).contains(e) by {
            if has_key(r, e) {
                let j = choose|j: int| 0 <= j < r.len() && (#[trigger] r[j]).0 == e;
                assert(r.contains(r[j]));
                assert(f.contains(((e.1, e.0), r[j].1)));
                let k = choose|k: int| 0 <= k < f.len() && f[k] == ((e.1, e.0), r[j].1);
                assert(f[k].0 == (e.1, e.0));
            }
            if has_key(f, (e.1, e.0)) {
                let k = choose|k: int| 0 <= k < f.len() && (#[trigger] f[k]).0 == (e.1, e.0);
                assert(f.contains(f[k]));
                assert(r.contains(((e.0, e.1), f[k].1)));
                let j = choose|j: int| 0 <= j < r.len() && r[j] == ((e.0, e.1), f[k].1);
                assert(r[j].0 == e);
            }
        }
        assert(edge_set(r) =~= transpose(edge_set(f)));
    }

    /// An empty graph.
    pub fn in_memory() -> (d: CausalDag)
        ensures
            d.wf(),
            d.edge_entries() == Seq::<((u128, u128), EdgeType)>::empty(),
            d.edges() == Set::<(u128, u128)>::empty(),
    {
        let d = CausalDag { forward: CowBTree::new(), reverse: CowBTree::new() };
        proof {
            assert(d.edges() =~= Set::<(u128, u128)>::empty());
        }
        d
    }

    /// Whether `target` is reachable from `start` by following edges.
    pub fn reachable(&self, start: u128, target: u128) -> (r: bool)
        ensures
            r == reaches(self.edges(), start, target),
    {
        if start == target {
            proof {
                lemma_reaches_self(self.edges(), start);
            }
            return true;
        }
        let (order, _parent, _levels) = bfs(&self.forward, start);
        contains_id(&order, target)
    }

    /// Add a causal edge `from -> to`. Rejects a self-loop or any edge that would
    /// close a cycle, leaving the graph unchanged; re-adding an existing edge
    /// updates its type.
    pub fn add_edge(&mut self, from: MemoryId, to: MemoryId, edge_type: EdgeType) -> (r: Result<
        (),
        StorageError,
    >)
        requires
            old(self).wf(),
            old(self).edge_entries().len() < usize::MAX,
        ensures
            final(self).wf(),
            match r {
                Ok(()) => {
                    &&& from != to
                    &&& !reaches(old(self).edges(), to.0, from.0)
                    &&& final(self).edges() == old(self).edges().insert((from.0, to.0))
                    &&& final(self).edge_entries().len() == old(self).edge_entries().len() + if old(
                        self,
                    ).edges().contains((from.0, to.0)) {
                        0int
                    } else {
                        1int
                    }
                    &&& forall|e: ((u128, u128), EdgeType)|
                        #[trigger] final(self).edge_entries().contains(e) <==> (e == ((from.0, to.0), edge_type)
                            || (e.0 != (from.0, to.0) && old(self).edge_entries().contains(e)))
                },
                Err(e) => {
                    &&& e matches StorageError::Cycle { from: f, to: t } && f == from && t == to
                    &&& (from == to || reaches(old(self).edges(), to.0, from.0))
                    &&& final(self).edge_entries() == old(self).edge_entries()
                    &&& final(self).cause_entries() == old(self).cause_entries()
                },
            },
    {
        if from.0 == to.0 {
            return Err(StorageError::Cycle { from, to });
        }
        if self.reachable(to.0, from.0) {
            return Err(StorageError::Cycle { from, to });
        }
        proof {
            lemma_add_edge_keeps_acyclic(self.edges(), from.0, to.0);
        }
        let ghost f0 = self.forward.entries();
        let ghost r0 = self.reverse.entries();
        let old_f = self.forward.insert((from.0, to.0), edge_type);
        proof {
            if old_f is Some {
                let j = choose|j: int| 0 <= j < f0.len() && f0[j] == ((from.0, to.0), old_f->0);
                assert(f0[j].0 == (from.0, to.0));
            }
        }
        let old_r = self.reverse.insert((to.0, from.0), edge_type);
        proof {
            let f1 = self.forward.entries();
            let r1 = self.reverse.entries();
            assert(has_key(f0, (from.0, to.0)) <==> has_key(r0, (to.0, from.0))) by {
                if has_key(f0, (from.0, to.0)) {
                    let k = choose|k: int| 0 <= k < f0.len() && (#[trigger] f0[k]).0 == (from.0, to.0);
                    assert(f0.contains(f0[k]));
                    assert(r0.contains(((to.0, from.0), f0[k].1)));
                    let j = choose|j: int| 0 <= j < r0.len() && r0[j] == ((to.0, from.0), f0[k].1);
                    assert(r0[j].0 == (to.0, from.0));
                }
                if has_key(r0, (to.0, from.0)) {
                    let j = choose|j: int| 0 <= j < r0.len() && (#[trigger] r0[j]).0 == (to.0, from.0);
                    assert(r0.contains(r0[j]));
                    assert(f0.contains(((from.0, to.0), r0[j].1)));
                    let k = choose|k: int| 0 <= k < f0.len() && f0[k] == ((from.0, to.0), r0[j].1);
                    assert(f0[k].0 == (from.0, to.0));
                }
            }
            assert forall|e: (u128, u128)| edge_set(f1).contains(e) <==> edge_set(f0).insert(
                (from.0, to.0),
            ).contains(e) by {
                if has_key(f1, e) {
                    let k = choose|k: int| 0 <= k < f1.len() && (#[trigger] f1[k]).0 == e;
                    assert(f1.contains(f1[k]));
                    if e != (from.0, to.0) {
                        assert(f0.contains(f1[k]));
                        let j = choose|j: int| 0 <= j < f0.len() && f0[j] == f1[k];
                        assert(f0[j].0 == e);
                    }
                }
                if e == (from.0, to.0) {
                    assert(f1.contains(((from.0, to.0), edge_type)));
                    let k = choose|k: int| 0 <= k < f1.len() && f1[k] == ((from.0, to.0), edge_type);
                    assert(f1[k].0 == e);
                } else if has_key(f0, e) {
                    let j = choose|j: int| 0 <= j < f0.len() && (#[trigger] f0[j]).0 == e;
                    assert(f0.contains(f0[j]));
                    assert(f1.contains(f0[j]));
                    let k = choose|k: int| 0 <= k < f1.len() && f1[k] == f0[j];
                    assert(f1[k].0 == e);
                }
            }
            assert(edge_set(f1) =~= edge_set(f0).insert((from.0, to.0)));
        }
        Ok(())
    }

    /// The direct effects of `from` (the memories it caused) with edge types, in
    /// ascending id order.
    pub fn effects_of(&self, from: MemoryId) -> (r: Vec<(MemoryId, EdgeType)>)
        ensures
            r@.len() == range_of(self.edge_entries(), prefix_lo(from.0), prefix_hi(from.0)).len(),
            forall|i: int|
                0 <= i < r@.len() ==> #[trigger] r@[i] == (
                    MemoryId(range_of(self.edge_entries(), prefix_lo(from.0), prefix_hi(from.0))[i].0.1),
                    range_of(self.edge_entries(), prefix_lo(from.0), prefix_hi(from.0))[i].1,
                ),
            forall|y: u128|
                (exists|i: int| 0 <= i < r@.len() && (#[trigger] r@[i]).0.0 == y) <==> self.edges().contains(
                    (from.0, y),
                ),
    {
        successors(&self.forward, from.0)
    }

    /// The direct causes of `to` (the memories that caused it) with edge types,
    /// in ascending id order.
    pub fn causes_of(&self, to: MemoryId) -> (r: Vec<(MemoryId, EdgeType)>)
        requires
            self.wf(),
        ensures
            r@.len() == range_of(self.cause_entries(), prefix_lo(to.0), prefix_hi(to.0)).len(),
            forall|i: int|
                0 <= i < r@.len() ==> #[trigger] r@[i] == (
                    MemoryId(range_of(self.cause_entries(), prefix_lo(to.0), prefix_hi(to.0))[i].0.1),
                    range_of(self.cause_entries(), prefix_lo(to.0), prefix_hi(to.0))[i].1,
                ),
            forall|y: u128|
                (exists|i: int| 0 <= i < r@.len() && (#[trigger] r@[i]).0.0 == y) <==> self.edges().contains(
                    (y, to.0),
                ),
    {
        proof {
            self.lemma_reverse_index();
        }
        let r = successors(&self.reverse, to.0);
        proof {
            assert forall|y: u128|
                (exists|i: int| 0 <= i < r@.len() && (#[trigger] r@[i]).0.0 == y) <==> self.edges().contains(
                    (y, to.0),
                ) by {
                assert(edge_set(self.reverse.entries()).contains((to.0, y)) == transpose(
                    self.edges(),
                ).contains((to.0, y)));
            }
        }
        r
    }

    /// All transitive causes of `node` (its provenance), in breadth-first order,
    /// nearest first; `node` itself is not included.
    pub fn find_provenance_chain(&self, node: MemoryId) -> (r: Vec<MemoryId>)
        requires
            self.wf(),
        ensures
            ids_of(r@).no_duplicates(),
            forall|x: u128|
                #[trigger] ids_of(r@).contains(x) <==> (x != node.0 && reaches(self.edges(), x, node.0)),
            forall|i: int, j: int, n: nat|
                #![trigger within(self.edges(), ids_of(r@)[j], node.0, n), ids_of(r@)[i]]
                0 <= i < j < r@.len() && within(self.edges(), ids_of(r@)[j], node.0, n) ==> within(
                    self.edges(),
                    ids_of(r@)[i],
                    node.0,
                    n,
                ),
    {
        proof {
            self.lemma_reverse_index();
        }
        let (order, _parent, Ghost(lvl)) = bfs(&self.reverse, node.0);
        let r = to_memory_ids(&order);
        proof {
            assert(ids_of(r@) =~= order@);
            assert forall|x: u128| #[trigger] ids_of(r@).contains(x) <==> (x != node.0 && reaches(
                self.edges(),
                x,
                node.0,
            )) by {
                lemma_reaches_transpose(self.edges(), node.0, x);
            }
            let g = self.edges();
            let tg = transpose(g);
            assert(transpose(tg) =~= g);
            assert forall|i: int, j: int, n: nat|
                0 <= i < j < r@.len() && #[trigger] within(g, ids_of(r@)[j], node.0, n) implies within(
                    g,
                    #[trigger] ids_of(r@)[i],
                    node.0,
                    n,
                ) by {
                let xi = order@[i];
                let xj = order@[j];
                let q = choose|q: Seq<u128>| #[trigger] is_path(g, q) && q[0] == xj && q.last() == node.0 && q.len() <= n + 1;
                lemma_path_reverse(g, q);
                let rq = q.reverse();
                lemma_levels_bound(tg, node.0, order@, _parent@, lvl, rq);
                assert(rq[rq.len() - 1] == xj);
                assert(lvl[xi] <= lvl[xj]);
                assert(order@.contains(xi));
                lemma_tree_path(tg, node.0, order@, _parent@, lvl, xi);
                let tq = choose|t: Seq<u128>| #[trigger] is_path(tg, t) && t[0] == node.0 && t.last() == xi && t.len() == lvl[xi] + 1;
                lemma_path_reverse(tg, tq);
                let q2 = tq.reverse();
                assert(is_path(g, q2) && q2[0] == xi && q2.last() == node.0 && q2.len() <= n + 1);
            }
        }
        r
    }

    /// A shortest causal path `from -> ... -> to` (found breadth-first),
    /// inclusive of both endpoints, or `None` if `to` is not reachable from
    /// `from`.
    pub fn find_path(&self, from: MemoryId, to: MemoryId) -> (r: Option<Vec<MemoryId>>)
        ensures
            r is None <==> !reaches(self.edges(), from.0, to.0),
            match r {
                Some(p) => is_path(self.edges(), ids_of(p@)) && ids_of(p@)[0] == from.0 && ids_of(
                    p@,
                ).last() == to.0 && forall|q: Seq<u128>|
                    #[trigger] is_path(self.edges(), q) && q[0] == from.0 && q.last() == to.0 ==> p@.len()
                        <= q.len(),
                None => true,
            },
            from == to ==> r is Some && r->0@ == seq![from],
    {
        let ghost g = self.edges();
        if from.0 == to.0 {
            let mut v: Vec<MemoryId> = Vec::new();
            v.push(from);
            proof {
                lemma_reaches_self(g, from.0);
                assert(ids_of(v@) =~= seq![from.0]);
                assert(is_path(g, ids_of(v@)));
            }
            return Some(v);
        }
        let (order, parent, Ghost(lvl)) = bfs(&self.forward, from.0);
        if !contains_id(&order, to.0) {
            return None;
        }
        let mut path: Vec<u128> = Vec::new();
        path.push(to.0);
        let mut p = to.0;
        let ghost mut k: int = order@.index_of(to.0);
        proof {
            assert(is_path(g, path@));
        }
        while p != from.0
            invariant
                bfs_result(g, from.0, order@, parent@),
                bfs_levels(g, from.0, order@, parent@, lvl),
                lvl.contains_key(p),
                path@.len() + lvl[p] == lvl[to.0] + 1,
                p != from.0 ==> 0 <= k < order@.len() && order@[k] == p,
                is_path(g, path@),
                path@[0] == p,
                path@.last() == to.0,
            decreases k + 1,
        {
            assert(order@.contains(p));
            assert(parent_ok(g, from.0, order@, parent@, p));
            let q = match parent.get(&p) {
                Some(q) => *q,
                None => from.0,
            };
            let ghost old_path = path@;
            path.insert(0, q);
            proof {
                assert(q == parent@[p]);
                assert forall|i: int| 0 <= i < path@.len() - 1 implies g.contains(#[trigger] step(path@, i)) by {
                    if i == 0 {
                        assert(step(path@, 0) == (q, p));
                    } else {
                        assert(step(path@, i) == step(old_path, i - 1));
                    }
                }
                if q != from.0 {
                    let (a, b) = choose|a: int, b: int|
                        0 <= a < b < order@.len() && order@[a] == q && order@[b] == p;
                    assert(b == k) by {
                        if b != k {
                            assert(order@[b] != order@[k]);
                        }
                    }
                    k = a;
                } else {
                    k = -1;
                }
            }
            p = q;
        }
        let r = to_memory_ids(&path);
        proof {
            assert(ids_of(r@) =~= path@);
            assert(reaches(g, from.0, to.0));
            assert forall|q: Seq<u128>| #[trigger] is_path(g, q) && q[0] == from.0 && q.last() == to.0 implies r@.len()
                <= q.len() by {
                lemma_levels_bound(g, from.0, order@, parent@, lvl, q);
                assert(q[q.len() - 1] == to.0);
            }
        }
        Some(r)
    }

    /// The number of edges in the graph.
    pub fn edge_count(&self) -> (n: usize)
        ensures
            n == self.edge_entries().len(),
    {
        self.forward.len()
    }
}

/// Whether `x` occurs in `v`.
fn contains_id(v: &Vec<u128>, x: u128) -> (r: bool)
    ensures
        r == v@.contains(x),
{
    let mut i: usize = 0;
    while i < v.len()
        invariant
            i <= v@.len(),
            forall|j: int| 0 <= j < i ==> v@[j] != x,
        decreases v@.len() - i,
    {
        if v[i] == x {
            return true;
        }
        i = i + 1;
    }
    false
}

/// Wrap node ids as memory ids.
fn to_memory_ids(v: &Vec<u128>) -> (r: Vec<MemoryId>)
    ensures
        ids_of(r@) == v@,
{
    let mut r: Vec<MemoryId> = Vec::new();
    let mut i: usize = 0;
    while i < v.len()
        invariant
            i <= v@.len(),
            r@.len() == i,
            forall|j: int| 0 <= j < i ==> (#[trigger] r@[j]).0 == v@[j],
        decreases v@.len() - i,
    {
        r.push(MemoryId(v[i]));
        i = i + 1;
    }
    assert(ids_of(r@) =~= v@);
    r
}

} // verus!
