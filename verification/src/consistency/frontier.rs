//! The per-key frontier of a session: for each key, the delivered writes to it
//! that no other delivered write to it causally follows.
//!
//! Recording a newly delivered write keeps exactly the causally-maximal writes:
//! it is skipped if a frontier write already follows it, otherwise the frontier
//! writes it follows are dropped and it is added. The frontier is thus bounded by
//! the concurrency width of the key, not by its history.

use vstd::prelude::*;

use crate::consistency::acc::{bytes_eq, bytes_lt, copy_bytes, lemma_bytes_lt_transitive, log_wf, WriteOp};
use crate::consistency::vector_clock::{
    clock_bytes, clock_lt, lemma_causal_partial_order, map_wf, VectorClock,
};

verus! {

/// The delivered writes to one key that are causally maximal, by log position.
#[derive(Debug)]
pub struct KeyFrontier {
    pub key: Vec<u8>,
    pub ids: Vec<usize>,
}

/// Write `i` has been delivered.
pub open spec fn seen(del: Seq<bool>, i: int) -> bool {
    0 <= i < del.len() && del[i]
}

/// Write `i` is a delivered write to `key` that no delivered write to `key`
/// causally follows.
pub open spec fn is_max(log: Seq<WriteOp>, del: Seq<bool>, key: Seq<u8>, i: int) -> bool {
    &&& seen(del, i)
    &&& log[i].key@ == key
    &&& forall|j: int|
        #![trigger seen(del, j), log[j]]
        seen(del, j) && log[j].key@ == key ==> !clock_lt(log[i].clock@, log[j].clock@)
}

/// The frontier table is exact: one entry per delivered key, each listing
/// (without repeats) exactly the causally-maximal delivered writes to its key, and
/// every delivered write to a key is either listed or followed by a listed write.
pub open spec fn fr_inv(log: Seq<WriteOp>, del: Seq<bool>, fr: Seq<KeyFrontier>) -> bool {
    &&& del.len() <= log.len()
    &&& forall|j1: int, j2: int|
        0 <= j1 < fr.len() && 0 <= j2 < fr.len() && j1 != j2 ==> #[trigger] fr[j1].key@
            != #[trigger] fr[j2].key@
    &&& forall|j: int| 0 <= j < fr.len() ==> (#[trigger] fr[j]).ids@.no_duplicates()
    &&& forall|j: int, x: usize|
        0 <= j < fr.len() ==> (#[trigger] fr[j].ids@.contains(x) <==> is_max(
            log,
            del,
            fr[j].key@,
            x as int,
        ))
    &&& forall|j: int, t: int|
        0 <= j < fr.len() && 0 <= t < fr[j].ids@.len() ==> #[trigger] fr[j].ids@[t] < del.len()
    &&& forall|i: int|
        #[trigger] seen(del, i) ==> exists|j: int| 0 <= j < fr.len() && #[trigger] fr[j].key@ == log[i].key@
    &&& forall|j: int, i: int|
        0 <= j < fr.len() && #[trigger] seen(del, i) && log[i].key@ == #[trigger] fr[j].key@
            ==> exists|f: usize|
            #[trigger] fr[j].ids@.contains(f) && (f as int == i || clock_lt(
                log[i].clock@,
                log[f as int].clock@,
            ))
}

/// Every clock in a well-formed log is a well-formed map.
pub proof fn lemma_log_clocks_wf(log: Seq<WriteOp>)
    requires
        log_wf(log),
    ensures
        forall|i: int| 0 <= i < log.len() ==> map_wf(#[trigger] log[i].clock@),
{
    assert forall|i: int| 0 <= i < log.len() implies map_wf(#[trigger] log[i].clock@) by {
        assert(log[i].id == i);
        log[i].clock.lemma_wf();
    }
}

/// The empty table is exact for a session that has delivered nothing.
pub proof fn lemma_fr_empty(log: Seq<WriteOp>, del: Seq<bool>)
    requires
        del.len() <= log.len(),
        forall|i: int| 0 <= i < del.len() ==> !del[i],
    ensures
        fr_inv(log, del, Seq::<KeyFrontier>::empty()),
{
}

/// Seeing more writes (undelivered) or appending to the log leaves the table exact.
pub proof fn lemma_fr_extend(
    log0: Seq<WriteOp>,
    log1: Seq<WriteOp>,
    del0: Seq<bool>,
    del1: Seq<bool>,
    fr: Seq<KeyFrontier>,
)
    requires
        fr_inv(log0, del0, fr),
        log0.len() <= log1.len(),
        del0.len() <= del1.len() <= log1.len(),
        forall|i: int| 0 <= i < log0.len() ==> log1[i] == log0[i],
        forall|i: int| 0 <= i < del0.len() ==> del1[i] == del0[i],
        forall|i: int| del0.len() <= i < del1.len() ==> !del1[i],
    ensures
        fr_inv(log1, del1, fr),
{
    assert forall|i: int| seen(del1, i) == seen(del0, i) by {}
    assert forall|i: int| seen(del1, i) implies log1[i] == log0[i] by {}
    assert forall|j: int, x: usize| 0 <= j < fr.len() implies (#[trigger] fr[j].ids@.contains(x)
        <==> is_max(log1, del1, fr[j].key@, x as int)) by {
        if is_max(log0, del0, fr[j].key@, x as int) {
            assert forall|k: int|
                #![trigger seen(del1, k), log1[k]]
                seen(del1, k) && log1[k].key@ == fr[j].key@ implies !clock_lt(
                log1[x as int].clock@,
                log1[k].clock@,
            ) by {
                assert(seen(del0, k));
                assert(log0[k] == log1[k]);
            }
        }
        if is_max(log1, del1, fr[j].key@, x as int) {
            assert forall|k: int|
                #![trigger seen(del0, k), log0[k]]
                seen(del0, k) && log0[k].key@ == fr[j].key@ implies !clock_lt(
                log0[x as int].clock@,
                log0[k].clock@,
            ) by {
                assert(seen(del1, k));
                assert(log0[k] == log1[k]);
            }
        }
    }
    assert forall|i: int| #[trigger] seen(del1, i) implies exists|j: int|
        0 <= j < fr.len() && #[trigger] fr[j].key@ == log1[i].key@ by {
        assert(seen(del0, i));
    }
    assert forall|j: int, i: int|
        0 <= j < fr.len() && #[trigger] seen(del1, i) && log1[i].key@ == #[trigger] fr[j].key@
        implies exists|f: usize|
        #[trigger] fr[j].ids@.contains(f) && (f as int == i || clock_lt(
            log1[i].clock@,
            log1[f as int].clock@,
        )) by {
        assert(seen(del0, i));
        let f = choose|f: usize|
            #[trigger] fr[j].ids@.contains(f) && (f as int == i || clock_lt(
                log0[i].clock@,
                log0[f as int].clock@,
            ));
        assert(is_max(log0, del0, fr[j].key@, f as int));
        assert(log1[f as int] == log0[f as int]);
    }
}

/// Delivering a write whose key has no entry: the other keys' frontiers are
/// unchanged and the new key's frontier is the write alone.
proof fn lemma_record_new_key(
    log: Seq<WriteOp>,
    del0: Seq<bool>,
    fr0: Seq<KeyFrontier>,
    fr1: Seq<KeyFrontier>,
    xu: usize,
)
    requires
        log_wf(log),
        fr_inv(log, del0, fr0),
        xu < del0.len(),
        !del0[xu as int],
        forall|j: int| 0 <= j < fr0.len() ==> fr0[j].key@ != log[xu as int].key@,
        fr1.len() == fr0.len() + 1,
        forall|j: int| 0 <= j < fr0.len() ==> fr1[j] == fr0[j],
        fr1.last().key@ == log[xu as int].key@,
        fr1.last().ids@ == seq![xu],
    ensures
        fr_inv(log, del0.update(xu as int, true), fr1),
{
    let x = xu as int;
    let del1 = del0.update(x, true);
    let kx = log[x].key@;
    let n = fr0.len() as int;
    lemma_log_clocks_wf(log);
    assert(fr1[n] == fr1.last());
    assert forall|i: int| seen(del1, i) && i != x implies seen(del0, i) by {}
    // Other keys: their maximal sets do not involve `x`.
    assert forall|j: int, y: usize| 0 <= j < fr1.len() implies (#[trigger] fr1[j].ids@.contains(y)
        <==> is_max(log, del1, fr1[j].key@, y as int)) by {
        if j < n {
            let k = fr0[j].key@;
            assert(k != kx);
            if is_max(log, del0, k, y as int) {
                assert forall|m: int|
                    #![trigger seen(del1, m), log[m]]
                    seen(del1, m) && log[m].key@ == k implies !clock_lt(
                    log[y as int].clock@,
                    log[m].clock@,
                ) by {
                    assert(seen(del0, m));
                }
            }
            if is_max(log, del1, k, y as int) {
                assert forall|m: int|
                    #![trigger seen(del0, m), log[m]]
                    seen(del0, m) && log[m].key@ == k implies !clock_lt(
                    log[y as int].clock@,
                    log[m].clock@,
                ) by {
                    assert(seen(del1, m));
                }
            }
        } else {
            assert(fr1[j].ids@.contains(y) <==> y as int == x) by {
                if y as int == x {
                    assert(fr1[j].ids@[0] == y);
                }
            }
            if y as int == x {
                assert forall|m: int|
                    #![trigger seen(del1, m), log[m]]
                    seen(del1, m) && log[m].key@ == kx implies !clock_lt(
                    log[x].clock@,
                    log[m].clock@,
                ) by {
                    if m != x {
                        assert(seen(del0, m));
                        let jj = choose|jj: int| 0 <= jj < fr0.len() && #[trigger] fr0[jj].key@ == log[m].key@;
                        assert(fr0[jj].key@ != kx);
                    }
                }
            }
            if is_max(log, del1, kx, y as int) && y as int != x {
                assert(seen(del0, y as int));
                let jj = choose|jj: int| 0 <= jj < fr0.len() && #[trigger] fr0[jj].key@ == log[y as int].key@;
                assert(fr0[jj].key@ != kx);
            }
        }
    }
    assert forall|j1: int, j2: int|
        0 <= j1 < fr1.len() && 0 <= j2 < fr1.len() && j1 != j2 implies #[trigger] fr1[j1].key@
        != #[trigger] fr1[j2].key@ by {
        if j1 < n && j2 < n {
            assert(fr0[j1].key@ != fr0[j2].key@);
        }
    }
    assert forall|j: int| 0 <= j < fr1.len() implies (#[trigger] fr1[j]).ids@.no_duplicates() by {
        if j < n {
            assert(fr0[j].ids@.no_duplicates());
        }
    }
    assert forall|j: int, t: int|
        0 <= j < fr1.len() && 0 <= t < fr1[j].ids@.len() implies #[trigger] fr1[j].ids@[t]
        < del1.len() by {
        if j < n {
            assert(fr0[j].ids@[t] < del0.len());
        }
    }
    assert forall|i: int| #[trigger] seen(del1, i) implies exists|j: int|
        0 <= j < fr1.len() && #[trigger] fr1[j].key@ == log[i].key@ by {
        if i == x {
            assert(fr1[n].key@ == log[i].key@);
        } else {
            assert(seen(del0, i));
            let jj = choose|jj: int| 0 <= jj < fr0.len() && #[trigger] fr0[jj].key@ == log[i].key@;
            assert(fr1[jj].key@ == log[i].key@);
        }
    }
    assert forall|j: int, i: int|
        0 <= j < fr1.len() && #[trigger] seen(del1, i) && log[i].key@ == #[trigger] fr1[j].key@
        implies exists|f: usize|
        #[trigger] fr1[j].ids@.contains(f) && (f as int == i || clock_lt(
            log[i].clock@,
            log[f as int].clock@,
        )) by {
        if j < n {
            assert(i != x);
            assert(seen(del0, i));
            assert(fr0[j] == fr1[j]);
            assert(fr0[j].key@ == log[i].key@);
        } else {
            if i != x {
                assert(seen(del0, i));
                let jj = choose|jj: int| 0 <= jj < fr0.len() && #[trigger] fr0[jj].key@ == log[i].key@;
                assert(fr0[jj].key@ != kx);
            }
            assert(fr1[j].ids@[0] == xu);
            assert(fr1[j].ids@.contains(xu));
        }
    }
}


/// Delivering a write that a frontier write already follows leaves the table as
/// it is.
proof fn lemma_record_skip(
    log: Seq<WriteOp>,
    del0: Seq<bool>,
    fr: Seq<KeyFrontier>,
    j0: int,
    xu: usize,
    f0: usize,
)
    requires
        log_wf(log),
        fr_inv(log, del0, fr),
        xu < del0.len(),
        !del0[xu as int],
        0 <= j0 < fr.len(),
        fr[j0].key@ == log[xu as int].key@,
        fr[j0].ids@.contains(f0),
        clock_lt(log[xu as int].clock@, log[f0 as int].clock@),
    ensures
        fr_inv(log, del0.update(xu as int, true), fr),
{
    let x = xu as int;
    let del1 = del0.update(x, true);
    let kx = log[x].key@;
    lemma_log_clocks_wf(log);
    assert(is_max(log, del0, kx, f0 as int));
    assert forall|i: int| seen(del1, i) && i != x implies seen(del0, i) by {}
    assert forall|j: int, y: usize| 0 <= j < fr.len() implies (#[trigger] fr[j].ids@.contains(y)
        <==> is_max(log, del1, fr[j].key@, y as int)) by {
        let k = fr[j].key@;
        if is_max(log, del0, k, y as int) {
            assert(y as int != x);
            assert forall|m: int|
                #![trigger seen(del1, m), log[m]]
                seen(del1, m) && log[m].key@ == k implies !clock_lt(
                log[y as int].clock@,
                log[m].clock@,
            ) by {
                if m == x {
                    assert(j == j0) by {
                        if j != j0 {
                            assert(fr[j].key@ != fr[j0].key@);
                        }
                    }
                    assert(seen(del0, f0 as int) && log[f0 as int].key@ == k);
                    assert(!clock_lt(log[y as int].clock@, log[f0 as int].clock@));
                    lemma_causal_partial_order(
                        log[y as int].clock@,
                        log[x].clock@,
                        log[f0 as int].clock@,
                    );
                } else {
                    assert(seen(del0, m));
                }
            }
        }
        if is_max(log, del1, k, y as int) {
            if y as int == x {
                assert(j == j0) by {
                    if j != j0 {
                        assert(fr[j].key@ != fr[j0].key@);
                    }
                }
                assert(seen(del1, f0 as int) && log[f0 as int].key@ == k);
                assert(false);
            }
            assert forall|m: int|
                #![trigger seen(del0, m), log[m]]
                seen(del0, m) && log[m].key@ == k implies !clock_lt(
                log[y as int].clock@,
                log[m].clock@,
            ) by {
                assert(seen(del1, m));
            }
        }
    }
    assert forall|i: int| #[trigger] seen(del1, i) implies exists|j: int|
        0 <= j < fr.len() && #[trigger] fr[j].key@ == log[i].key@ by {
        if i == x {
            assert(fr[j0].key@ == log[i].key@);
        } else {
            assert(seen(del0, i));
        }
    }
    assert forall|j: int, i: int|
        0 <= j < fr.len() && #[trigger] seen(del1, i) && log[i].key@ == #[trigger] fr[j].key@
        implies exists|f: usize|
        #[trigger] fr[j].ids@.contains(f) && (f as int == i || clock_lt(
            log[i].clock@,
            log[f as int].clock@,
        )) by {
        if i == x {
            assert(j == j0) by {
                if j != j0 {
                    assert(fr[j].key@ != fr[j0].key@);
                }
            }
            assert(fr[j].ids@.contains(f0));
        } else {
            assert(seen(del0, i));
        }
    }
    assert forall|j: int, t: int|
        0 <= j < fr.len() && 0 <= t < fr[j].ids@.len() implies #[trigger] fr[j].ids@[t]
        < del1.len() by {
        assert(fr[j].ids@[t] < del0.len());
    }
}

/// Delivering a write that no frontier write follows: drop the frontier writes it
/// follows and add it.
proof fn lemma_record_replace(
    log: Seq<WriteOp>,
    del0: Seq<bool>,
    fr0: Seq<KeyFrontier>,
    fr1: Seq<KeyFrontier>,
    j0: int,
    xu: usize,
    kept: Seq<usize>,
)
    requires
        log_wf(log),
        fr_inv(log, del0, fr0),
        xu < del0.len(),
        !del0[xu as int],
        0 <= j0 < fr0.len(),
        fr0[j0].key@ == log[xu as int].key@,
        forall|f: usize|
            #[trigger] fr0[j0].ids@.contains(f) ==> !clock_lt(
                log[xu as int].clock@,
                log[f as int].clock@,
            ),
        kept.no_duplicates(),
        forall|y: usize|
            #[trigger] kept.contains(y) <==> (fr0[j0].ids@.contains(y) && !clock_lt(
                log[y as int].clock@,
                log[xu as int].clock@,
            )),
        fr1.len() == fr0.len(),
        forall|j: int| 0 <= j < fr0.len() && j != j0 ==> fr1[j] == fr0[j],
        fr1[j0].key@ == fr0[j0].key@,
        fr1[j0].ids@ == kept.push(xu),
    ensures
        fr_inv(log, del0.update(xu as int, true), fr1),
{
    let x = xu as int;
    let del1 = del0.update(x, true);
    let kx = log[x].key@;
    let ids0 = fr0[j0].ids@;
    let ids1 = fr1[j0].ids@;
    lemma_log_clocks_wf(log);
    assert forall|i: int| seen(del1, i) && i != x implies seen(del0, i) by {}
    assert(!ids0.contains(xu)) by {
        if ids0.contains(xu) {
            assert(is_max(log, del0, kx, x));
        }
    }
    assert forall|y: usize| #[trigger] ids1.contains(y) <==> (y == xu || kept.contains(y)) by {
        if ids1.contains(y) {
            let t = choose|t: int| 0 <= t < ids1.len() && ids1[t] == y;
            if t < kept.len() {
                assert(kept[t] == y);
            }
        }
        if kept.contains(y) {
            let t = choose|t: int| 0 <= t < kept.len() && kept[t] == y;
            assert(ids1[t] == y);
        }
        if y == xu {
            assert(ids1[kept.len() as int] == y);
        }
    }
    assert forall|j: int, y: usize| 0 <= j < fr1.len() implies (#[trigger] fr1[j].ids@.contains(y)
        <==> is_max(log, del1, fr1[j].key@, y as int)) by {
        if j != j0 {
            let k = fr0[j].key@;
            assert(fr1[j] == fr0[j]);
            assert(k != kx) by {
                assert(fr0[j].key@ != fr0[j0].key@);
            }
            if is_max(log, del0, k, y as int) {
                assert forall|m: int|
                    #![trigger seen(del1, m), log[m]]
                    seen(del1, m) && log[m].key@ == k implies !clock_lt(
                    log[y as int].clock@,
                    log[m].clock@,
                ) by {
                    assert(seen(del0, m));
                }
            }
            if is_max(log, del1, k, y as int) {
                assert forall|m: int|
                    #![trigger seen(del0, m), log[m]]
                    seen(del0, m) && log[m].key@ == k implies !clock_lt(
                    log[y as int].clock@,
                    log[m].clock@,
                ) by {
                    assert(seen(del1, m));
                }
            }
        } else {
            if y == xu {
                assert forall|m: int|
                    #![trigger seen(del1, m), log[m]]
                    seen(del1, m) && log[m].key@ == kx implies !clock_lt(
                    log[x].clock@,
                    log[m].clock@,
                ) by {
                    if m != x {
                        assert(seen(del0, m));
                        let f = choose|f: usize|
                            #[trigger] fr0[j0].ids@.contains(f) && (f as int == m || clock_lt(
                                log[m].clock@,
                                log[f as int].clock@,
                            ));
                        assert(!clock_lt(log[x].clock@, log[f as int].clock@));
                        lemma_causal_partial_order(log[x].clock@, log[m].clock@, log[f as int].clock@);
                    } else {
                        lemma_causal_partial_order(log[x].clock@, log[x].clock@, log[x].clock@);
                    }
                }
            } else if kept.contains(y) {
                assert(is_max(log, del0, kx, y as int));
                assert forall|m: int|
                    #![trigger seen(del1, m), log[m]]
                    seen(del1, m) && log[m].key@ == kx implies !clock_lt(
                    log[y as int].clock@,
                    log[m].clock@,
                ) by {
                    if m != x {
                        assert(seen(del0, m));
                    }
                }
            }
            if is_max(log, del1, kx, y as int) && y != xu {
                assert forall|m: int|
                    #![trigger seen(del0, m), log[m]]
                    seen(del0, m) && log[m].key@ == kx implies !clock_lt(
                    log[y as int].clock@,
                    log[m].clock@,
                ) by {
                    assert(seen(del1, m));
                }
                assert(is_max(log, del0, kx, y as int));
                assert(ids0.contains(y));
                assert(seen(del1, x) && log[x].key@ == kx);
                assert(kept.contains(y));
            }
        }
    }
    assert forall|j1: int, j2: int|
        0 <= j1 < fr1.len() && 0 <= j2 < fr1.len() && j1 != j2 implies #[trigger] fr1[j1].key@
        != #[trigger] fr1[j2].key@ by {
        assert(fr0[j1].key@ != fr0[j2].key@);
    }
    assert forall|j: int| 0 <= j < fr1.len() implies (#[trigger] fr1[j]).ids@.no_duplicates() by {
        if j != j0 {
            assert(fr0[j].ids@.no_duplicates());
        } else {
            assert forall|a: int, b: int| 0 <= a < b < ids1.len() implies ids1[a] != ids1[b] by {
                if b == kept.len() {
                    assert(kept.contains(ids1[a]));
                    assert(ids0.contains(ids1[a]));
                } else {
                    assert(kept[a] != kept[b]);
                }
            }
        }
    }
    assert forall|j: int, t: int|
        0 <= j < fr1.len() && 0 <= t < fr1[j].ids@.len() implies #[trigger] fr1[j].ids@[t]
        < del1.len() by {
        if j != j0 {
            assert(fr0[j].ids@[t] < del0.len());
        } else {
            let y = ids1[t];
            assert(ids1.contains(y));
            if y != xu {
                assert(ids0.contains(y));
                let s = choose|s: int| 0 <= s < ids0.len() && ids0[s] == y;
                assert(fr0[j0].ids@[s] < del0.len());
            }
        }
    }
    assert forall|i: int| #[trigger] seen(del1, i) implies exists|j: int|
        0 <= j < fr1.len() && #[trigger] fr1[j].key@ == log[i].key@ by {
        if i == x {
            assert(fr1[j0].key@ == log[i].key@);
        } else {
            assert(seen(del0, i));
            let jj = choose|jj: int| 0 <= jj < fr0.len() && #[trigger] fr0[jj].key@ == log[i].key@;
            assert(fr1[jj].key@ == log[i].key@);
        }
    }
    assert forall|j: int, i: int|
        0 <= j < fr1.len() && #[trigger] seen(del1, i) && log[i].key@ == #[trigger] fr1[j].key@
        implies exists|f: usize|
        #[trigger] fr1[j].ids@.contains(f) && (f as int == i || clock_lt(
            log[i].clock@,
            log[f as int].clock@,
        )) by {
        if j != j0 {
            assert(i != x) by {
                if i == x {
                    assert(fr0[j].key@ != fr0[j0].key@);
                }
            }
            assert(seen(del0, i));
            assert(fr0[j].key@ == log[i].key@);
        } else if i == x {
            assert(ids1.contains(xu));
        } else {
            assert(seen(del0, i));
            let f = choose|f: usize|
                #[trigger] fr0[j0].ids@.contains(f) && (f as int == i || clock_lt(
                    log[i].clock@,
                    log[f as int].clock@,
                ));
            if clock_lt(log[f as int].clock@, log[x].clock@) {
                lemma_causal_partial_order(log[i].clock@, log[f as int].clock@, log[x].clock@);
                assert(ids1.contains(xu));
            } else {
                assert(kept.contains(f));
                assert(ids1.contains(f));
            }
        }
    }
}


/// The position of `key`'s entry in the table, if it has one.
pub fn find_key(fr: &Vec<KeyFrontier>, key: &[u8]) -> (r: Option<usize>)
    ensures
        match r {
            Some(j) => j < fr@.len() && fr@[j as int].key@ == key@,
            None => forall|j: int| 0 <= j < fr@.len() ==> fr@[j].key@ != key@,
        },
{
    let mut j: usize = 0;
    while j < fr.len()
        invariant
            j <= fr@.len(),
            forall|jj: int| 0 <= jj < j ==> fr@[jj].key@ != key@,
        decreases fr@.len() - j,
    {
        if bytes_eq(fr[j].key.as_slice(), key) {
            return Some(j);
        }
        j = j + 1;
    }
    None
}

/// A listed write that write `x` causally precedes, if there is one.
fn dominating(ids: &Vec<usize>, log: &Vec<WriteOp>, x: usize) -> (r: Option<usize>)
    requires
        log_wf(log@),
        x < log@.len(),
        forall|t: int| 0 <= t < ids@.len() ==> #[trigger] ids@[t] < log@.len(),
    ensures
        match r {
            Some(f) => ids@.contains(f) && clock_lt(log@[x as int].clock@, log@[f as int].clock@),
            None => forall|f: usize|
                #[trigger] ids@.contains(f) ==> !clock_lt(
                    log@[x as int].clock@,
                    log@[f as int].clock@,
                ),
        },
{
    assert(log@[x as int].id == x);
    let mut t: usize = 0;
    while t < ids.len()
        invariant
            t <= ids@.len(),
            log_wf(log@),
            x < log@.len(),
            log@[x as int].clock.wf(),
            forall|s: int| 0 <= s < ids@.len() ==> #[trigger] ids@[s] < log@.len(),
            forall|s: int|
                0 <= s < t ==> !clock_lt(log@[x as int].clock@, log@[#[trigger] ids@[s] as int].clock@),
        decreases ids@.len() - t,
    {
        let f = ids[t];
        assert(log@[f as int].id == f as int);
        if log[x].clock.happens_before(&log[f].clock) {
            return Some(f);
        }
        t = t + 1;
    }
    proof {
        assert forall|f: usize| #[trigger] ids@.contains(f) implies !clock_lt(
            log@[x as int].clock@,
            log@[f as int].clock@,
        ) by {
            let s = choose|s: int| 0 <= s < ids@.len() && ids@[s] == f;
            assert(!clock_lt(log@[x as int].clock@, log@[ids@[s] as int].clock@));
        }
    }
    None
}

/// The listed writes that write `x` does not causally follow, in order.
fn not_preceding(ids: &Vec<usize>, log: &Vec<WriteOp>, x: usize) -> (kept: Vec<usize>)
    requires
        log_wf(log@),
        x < log@.len(),
        ids@.no_duplicates(),
        forall|t: int| 0 <= t < ids@.len() ==> #[trigger] ids@[t] < log@.len(),
    ensures
        kept@.no_duplicates(),
        forall|y: usize|
            #[trigger] kept@.contains(y) <==> (ids@.contains(y) && !clock_lt(
                log@[y as int].clock@,
                log@[x as int].clock@,
            )),
{
    assert(log@[x as int].id == x);
    let mut kept: Vec<usize> = Vec::new();
    let mut t: usize = 0;
    while t < ids.len()
        invariant
            t <= ids@.len(),
            log_wf(log@),
            x < log@.len(),
            log@[x as int].clock.wf(),
            ids@.no_duplicates(),
            forall|s: int| 0 <= s < ids@.len() ==> #[trigger] ids@[s] < log@.len(),
            kept@.no_duplicates(),
            forall|y: usize|
                #[trigger] kept@.contains(y) <==> (exists|s: int| 0 <= s < t && ids@[s] == y)
                    && !clock_lt(log@[y as int].clock@, log@[x as int].clock@),
        decreases ids@.len() - t,
    {
        let f = ids[t];
        assert(log@[f as int].id == f as int);
        let ghost k0 = kept@;
        if !log[f].clock.happens_before(&log[x].clock) {
            kept.push(f);
            proof {
                assert forall|a: int, b: int| 0 <= a < b < kept@.len() implies kept@[a] != kept@[b] by {
                    if b == kept@.len() - 1 {
                        assert(k0.contains(kept@[a]));
                        let s = choose|s: int| 0 <= s < t && ids@[s] == kept@[a];
                        assert(ids@[s] != ids@[t as int]);
                    } else {
                        assert(k0[a] != k0[b]);
                    }
                }
                assert forall|y: usize| #[trigger] kept@.contains(y) <==> (exists|s: int|
                    0 <= s < t + 1 && ids@[s] == y) && !clock_lt(log@[y as int].clock@, log@[x as int].clock@) by {
                    if kept@.contains(y) {
                        let a = choose|a: int| 0 <= a < kept@.len() && kept@[a] == y;
                        if a < k0.len() {
                            assert(k0.contains(y));
                            let s = choose|s: int| 0 <= s < t && ids@[s] == y;
                            assert(0 <= s < t + 1 && ids@[s] == y);
                        } else {
                            assert(ids@[t as int] == y);
                        }
                    }
                    if (exists|s: int| 0 <= s < t + 1 && ids@[s] == y) && !clock_lt(
                        log@[y as int].clock@,
                        log@[x as int].clock@,
                    ) {
                        let s = choose|s: int| 0 <= s < t + 1 && ids@[s] == y;
                        if s < t {
                            assert(k0.contains(y));
                            let a = choose|a: int| 0 <= a < k0.len() && k0[a] == y;
                            assert(kept@[a] == y);
                        } else {
                            assert(kept@[kept@.len() - 1] == y);
                        }
                    }
                }
            }
        } else {
            proof {
                assert forall|y: usize| #[trigger] kept@.contains(y) <==> (exists|s: int|
                    0 <= s < t + 1 && ids@[s] == y) && !clock_lt(log@[y as int].clock@, log@[x as int].clock@) by {
                    if kept@.contains(y) {
                        let s = choose|s: int| 0 <= s < t && ids@[s] == y;
                        assert(0 <= s < t + 1 && ids@[s] == y);
                    }
                    if (exists|s: int| 0 <= s < t + 1 && ids@[s] == y) && !clock_lt(
                        log@[y as int].clock@,
                        log@[x as int].clock@,
                    ) {
                        let s = choose|s: int| 0 <= s < t + 1 && ids@[s] == y;
                        if s == t {
                            assert(ids@[t as int] == f);
                        } else {
                            assert(0 <= s < t && ids@[s] == y);
                        }
                    }
                }
            }
        }
        t = t + 1;
    }
    proof {
        assert forall|y: usize| #[trigger] kept@.contains(y) <==> (ids@.contains(y) && !clock_lt(
            log@[y as int].clock@,
            log@[x as int].clock@,
        )) by {
            if ids@.contains(y) {
                let s = choose|s: int| 0 <= s < ids@.len() && ids@[s] == y;
                assert(0 <= s < t && ids@[s] == y);
            }
        }
    }
    kept
}

/// Record the newly delivered write `x` into the frontier table.
pub fn record(
    fr: &mut Vec<KeyFrontier>,
    log: &Vec<WriteOp>,
    x: usize,
    Ghost(del0): Ghost<Seq<bool>>,
)
    requires
        log_wf(log@),
        fr_inv(log@, del0, old(fr)@),
        x < del0.len(),
        !del0[x as int],
    ensures
        fr_inv(log@, del0.update(x as int, true), final(fr)@),
{
    let ghost fr0 = fr@;
    match find_key(fr, log[x].key.as_slice()) {
        None => {
            let mut ids: Vec<usize> = Vec::new();
            ids.push(x);
            fr.push(KeyFrontier { key: copy_bytes(log[x].key.as_slice()), ids });
            proof {
                assert(fr@.last().ids@ =~= seq![x]);
                lemma_record_new_key(log@, del0, fr0, fr@, x);
            }
        },
        Some(j0) => {
            proof {
                assert forall|t: int| 0 <= t < fr@[j0 as int].ids@.len() implies #[trigger] fr@[j0 as int].ids@[t]
                    < log@.len() by {
                    assert(fr0[j0 as int].ids@[t] < del0.len());
                }
            }
            match dominating(&fr[j0].ids, log, x) {
                Some(f0) => {
                    proof {
                        lemma_record_skip(log@, del0, fr0, j0 as int, x, f0);
                    }
                },
                None => {
                    proof {
                        assert(fr0[j0 as int].ids@.no_duplicates());
                    }
                    let mut kept = not_preceding(&fr[j0].ids, log, x);
                    let ghost kept0 = kept@;
                    kept.push(x);
                    let key = copy_bytes(fr[j0].key.as_slice());
                    fr.set(j0, KeyFrontier { key, ids: kept });
                    proof {
                        lemma_record_replace(log@, del0, fr0, fr@, j0 as int, x, kept0);
                    }
                },
            }
        },
    }
}


/// The clock of the value last returned for a key by a session's `read_latest`.
#[derive(Debug)]
pub struct LastRead {
    pub key: Vec<u8>,
    pub clock: VectorClock,
}

/// A last-read entry holds a well-formed clock of a delivered write to its key.
pub open spec fn lr_entry_ok(log: Seq<WriteOp>, del: Seq<bool>, e: LastRead) -> bool {
    &&& e.clock.wf()
    &&& exists|i: int| #[trigger] seen(del, i) && log[i].key@ == e.key@ && log[i].clock@ == e.clock@
}

/// The last-read table names each key once, and each clock in it is the clock of
/// a delivered write to that key.
pub open spec fn lr_inv(log: Seq<WriteOp>, del: Seq<bool>, lr: Seq<LastRead>) -> bool {
    &&& forall|t1: int, t2: int|
        0 <= t1 < lr.len() && 0 <= t2 < lr.len() && t1 != t2 ==> #[trigger] lr[t1].key@
            != #[trigger] lr[t2].key@
    &&& forall|t: int| 0 <= t < lr.len() ==> lr_entry_ok(log, del, #[trigger] lr[t])
}

/// More deliveries, or a longer log, keep a last-read entry valid.
pub proof fn lemma_lr_entry_extend(
    log0: Seq<WriteOp>,
    log1: Seq<WriteOp>,
    del0: Seq<bool>,
    del1: Seq<bool>,
    e: LastRead,
)
    requires
        lr_entry_ok(log0, del0, e),
        del0.len() <= log0.len() <= log1.len(),
        forall|i: int| 0 <= i < log0.len() ==> log1[i] == log0[i],
        forall|i: int| seen(del0, i) ==> seen(del1, i),
    ensures
        lr_entry_ok(log1, del1, e),
{
    let i = choose|i: int| #[trigger] seen(del0, i) && log0[i].key@ == e.key@ && log0[i].clock@ == e.clock@;
    assert(seen(del1, i));
    assert(log1[i] == log0[i]);
}

/// More deliveries, or a longer log, keep the last-read table valid.
pub proof fn lemma_lr_extend(
    log0: Seq<WriteOp>,
    log1: Seq<WriteOp>,
    del0: Seq<bool>,
    del1: Seq<bool>,
    lr: Seq<LastRead>,
)
    requires
        lr_inv(log0, del0, lr),
        del0.len() <= log0.len() <= log1.len(),
        forall|i: int| 0 <= i < log0.len() ==> log1[i] == log0[i],
        forall|i: int| seen(del0, i) ==> seen(del1, i),
    ensures
        lr_inv(log1, del1, lr),
{
    assert forall|t: int| 0 <= t < lr.len() implies lr_entry_ok(log1, del1, #[trigger] lr[t]) by {
        lemma_lr_entry_extend(log0, log1, del0, del1, lr[t]);
    }
}

/// Whether a write with clock `c` may be returned after `prev` was: it is the
/// same write or causally later.
pub open spec fn passes(prev: Option<Map<u64, u64>>, c: Map<u64, u64>) -> bool {
    match prev {
        None => true,
        Some(p) => p == c || clock_lt(p, c),
    }
}

/// The fixed total-order tiebreak among frontier writes: clock bytes, then
/// instance.
pub open spec fn rank_lt(a: WriteOp, b: WriteOp) -> bool {
    let ab = clock_bytes(a.clock.sorted_entries());
    let bb = clock_bytes(b.clock.sorted_entries());
    bytes_lt(ab, bb) || (ab == bb && a.instance.0 < b.instance.0)
}

/// The tiebreak order is transitive.
pub proof fn lemma_rank_lt_transitive(a: WriteOp, b: WriteOp, c: WriteOp)
    requires
        rank_lt(a, b),
        rank_lt(b, c),
    ensures
        rank_lt(a, c),
{
    let ab = clock_bytes(a.clock.sorted_entries());
    let bb = clock_bytes(b.clock.sorted_entries());
    let cb = clock_bytes(c.clock.sorted_entries());
    if bytes_lt(ab, bb) && bytes_lt(bb, cb) {
        lemma_bytes_lt_transitive(ab, bb, cb);
    }
}

/// Write `w` is the value `read_latest` returns from the frontier `ids` after
/// `prev`: it may follow `prev`, and no other such frontier write outranks it.
pub open spec fn is_latest(
    log: Seq<WriteOp>,
    ids: Seq<usize>,
    prev: Option<Map<u64, u64>>,
    w: usize,
) -> bool {
    &&& ids.contains(w)
    &&& passes(prev, log[w as int].clock@)
    &&& forall|f: usize|
        #[trigger] ids.contains(f) && passes(prev, log[f as int].clock@) ==> !rank_lt(
            log[w as int],
            log[f as int],
        )
}

/// The position of `key`'s last-read entry, if it has one.
pub fn find_last_read(lr: &Vec<LastRead>, key: &[u8]) -> (r: Option<usize>)
    ensures
        match r {
            Some(t) => t < lr@.len() && lr@[t as int].key@ == key@,
            None => forall|t: int| 0 <= t < lr@.len() ==> lr@[t].key@ != key@,
        },
{
    let mut t: usize = 0;
    while t < lr.len()
        invariant
            t <= lr@.len(),
            forall|tt: int| 0 <= tt < t ==> lr@[tt].key@ != key@,
        decreases lr@.len() - t,
    {
        if bytes_eq(lr[t].key.as_slice(), key) {
            return Some(t);
        }
        t = t + 1;
    }
    None
}

} // verus!
