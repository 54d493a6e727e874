//! Merging the detections of overlapping segments.
use vstd::prelude::*;

use crate::matching::QueryResult;
use crate::order::{is_key_order, key_less, stable_order};

verus! {

/// Where a detection starts on the query timeline, in milliseconds.
pub open spec fn position(r: QueryResult) -> int {
    match r.absolute_start_ms {
        Some(a) => a as int,
        None => r.query_start_ms as int,
    }
}

/// The reference duration of a detection in milliseconds, or the span it
/// covers in the reference where the duration is unknown.
pub open spec fn span_of(r: QueryResult) -> int {
    match r.ref_duration_ms {
        Some(d) => d as int,
        None => r.ref_stop_ms - r.ref_start_ms,
    }
}

/// The detection names a reference.
pub open spec fn has_ref(r: QueryResult) -> bool {
    r.ref_identifier is Some
}

/// Both detections name the same reference.
pub open spec fn same_ref(a: QueryResult, b: QueryResult) -> bool {
    &&& has_ref(a)
    &&& has_ref(b)
    &&& a.ref_identifier->Some_0@ == b.ref_identifier->Some_0@
}

/// `b` starts less than a third of `a`'s reference duration away from `a`.
pub open spec fn duplicate_of(a: QueryResult, b: QueryResult) -> bool {
    let d = position(b) - position(a);
    3 * (if d < 0 {
        -d
    } else {
        d
    }) < span_of(a)
}

/// The positions of the detections.
pub open spec fn positions(rs: Seq<QueryResult>) -> Seq<i64> {
    rs.map_values(|r: QueryResult| position(r) as i64)
}

/// `out` keeps one detection of each cluster of `rs`: `src` names the kept
/// detections in stable position order, and `cl` and `anchor` give for each
/// detection with a reference the detection kept for its cluster and the
/// detection that opened the cluster.
pub open spec fn merged(
    rs: Seq<QueryResult>,
    out: Seq<QueryResult>,
    src: Seq<int>,
    cl: Seq<int>,
    anchor: Seq<int>,
) -> bool {
    &&& out.len() == src.len()
    &&& cl.len() == rs.len()
    &&& anchor.len() == rs.len()
    &&& forall|n: int| 0 <= n < out.len() ==> 0 <= #[trigger] src[n] < rs.len()
    &&& forall|n: int| 0 <= n < out.len() ==> #[trigger] out[n] == rs[src[n]]
    &&& forall|n: int| 0 <= n < out.len() ==> has_ref(rs[#[trigger] src[n]]) && cl[src[n]] == src[n]
    &&& forall|n: int, m: int|
        0 <= n < m < out.len() ==> key_less(positions(rs), src[n], src[m])
    &&& forall|i: int|
        0 <= i < rs.len() && has_ref(#[trigger] rs[i]) ==> {
            &&& 0 <= cl[i] < rs.len()
            &&& 0 <= anchor[i] < rs.len()
            &&& exists|n: int| 0 <= n < src.len() && src[n] == cl[i]
            &&& same_ref(rs[i], rs[cl[i]])
            &&& same_ref(rs[i], rs[anchor[i]])
            &&& anchor[cl[i]] == anchor[i]
            &&& (i == anchor[i] || duplicate_of(rs[anchor[i]], rs[i]))
            &&& rs[i].score <= rs[cl[i]].score
        }
    &&& forall|i: int|
        0 <= i < rs.len() && has_ref(rs[i]) && #[trigger] cl[i] != i && rs[i].score == rs[cl[i]].score
            ==> key_less(positions(rs), cl[i], i)
    &&& survivors_apart(rs, out, src, anchor)
}

/// Of two kept detections of one reference, the later is no duplicate of
/// the detection that opened the earlier one's cluster.
#[verifier::opaque]
pub open spec fn survivors_apart(
    rs: Seq<QueryResult>,
    out: Seq<QueryResult>,
    src: Seq<int>,
    anchor: Seq<int>,
) -> bool {
    forall|n: int, m: int|
        #![trigger src[n], src[m]]
        0 <= n < m < out.len() && same_ref(out[n], out[m]) ==> !duplicate_of(
            rs[anchor[src[n]]],
            out[m],
        )
}

/// Detection `k` has a cluster: its kept detection and its anchor.
pub open spec fn clustered(
    rs: Seq<QueryResult>,
    cl: Seq<int>,
    anchor: Seq<int>,
    keep: Seq<bool>,
    k: int,
) -> bool {
    &&& has_ref(rs[k])
    &&& 0 <= cl[k] < rs.len()
    &&& 0 <= anchor[k] < rs.len()
    &&& keep[cl[k]]
    &&& same_ref(rs[k], rs[cl[k]])
    &&& same_ref(rs[k], rs[anchor[k]])
    &&& anchor[cl[k]] == anchor[k]
    &&& (k == anchor[k] || duplicate_of(rs[anchor[k]], rs[k]))
    &&& rs[k].score <= rs[cl[k]].score
}

/// `a` and `b` name the same reference.
fn same_reference(a: &QueryResult, b: &QueryResult) -> (r: bool)
    ensures
        r == same_ref(*a, *b),
{
    match (&a.ref_identifier, &b.ref_identifier) {
        (Some(x), Some(y)) => *x == *y,
        _ => false,
    }
}

fn position_of(r: &QueryResult) -> (p: i64)
    ensures
        p == position(*r),
{
    match r.absolute_start_ms {
        Some(a) => a,
        None => r.query_start_ms,
    }
}

/// `b` is a duplicate of anchor `a`.
fn is_duplicate(a: &QueryResult, b: &QueryResult) -> (r: bool)
    ensures
        r == duplicate_of(*a, *b),
{
    let d: i128 = (position_of(b) as i128) - (position_of(a) as i128);
    let ad: i128 = if d < 0 {
        -d
    } else {
        d
    };
    let span: i128 = match a.ref_duration_ms {
        Some(x) => x as i128,
        None => (a.ref_stop_ms as i128) - (a.ref_start_ms as i128),
    };
    3 * ad < span
}

/// The facts that the sweep keeps about the detections it has placed in
/// clusters (`done`): each placed detection has its cluster; for each
/// reference the placed detections come before the others; an opener comes
/// first in its cluster; a later opener, and whatever is placed after it, is
/// no duplicate of an earlier opener; the kept detection is the first of the
/// best-scoring members.
#[verifier::opaque]
pub open spec fn swept(
    rs: Seq<QueryResult>,
    done: Seq<bool>,
    keep: Seq<bool>,
    cl: Seq<int>,
    anchor: Seq<int>,
) -> bool {
    let p = positions(rs);
    &&& done.len() == rs.len()
    &&& keep.len() == rs.len()
    &&& cl.len() == rs.len()
    &&& anchor.len() == rs.len()
    &&& forall|k: int| 0 <= k < rs.len() && #[trigger] done[k] ==> clustered(rs, cl, anchor, keep, k)
    &&& forall|k: int| 0 <= k < rs.len() && #[trigger] done[k] ==> done[anchor[k]] && anchor[anchor[k]]
        == anchor[k]
    &&& forall|k: int| 0 <= k < rs.len() && #[trigger] keep[k] ==> done[k] && cl[k] == k
    &&& forall|k: int, j: int|
        0 <= k < rs.len() && 0 <= j < rs.len() && #[trigger] done[k] && !#[trigger] done[j] && same_ref(
            rs[k],
            rs[j],
        ) ==> key_less(p, k, j)
    &&& forall|k: int|
        0 <= k < rs.len() && #[trigger] done[k] ==> anchor[k] == k || key_less(p, anchor[k], k)
    &&& forall|k: int, t: int|
        0 <= k < rs.len() && 0 <= t < rs.len() && #[trigger] done[k] && #[trigger] done[t]
            && anchor[t] == t && same_ref(rs[t], rs[k]) && key_less(p, t, anchor[k])
            ==> !duplicate_of(rs[t], rs[k])
    &&& forall|t: int, j: int|
        0 <= t < rs.len() && 0 <= j < rs.len() && #[trigger] done[t] && !#[trigger] done[j]
            && anchor[t] == t && same_ref(rs[t], rs[j]) ==> !duplicate_of(rs[t], rs[j])
    &&& forall|k: int, t: int|
        0 <= k < rs.len() && 0 <= t < rs.len() && #[trigger] done[k] && #[trigger] done[t]
            && anchor[t] == t && same_ref(rs[k], rs[t]) && key_less(p, anchor[k], t) ==> key_less(
            p,
            k,
            t,
        )
    &&& forall|k: int|
        0 <= k < rs.len() && #[trigger] done[k] && cl[k] != k && rs[k].score == rs[cl[k]].score
            ==> key_less(p, cl[k], k)
    &&& forall|k: int, t: int|
        0 <= k < rs.len() && 0 <= t < rs.len() && #[trigger] done[k] && #[trigger] done[t]
            && anchor[k] == anchor[t] ==> cl[k] == cl[t]
}

/// The clusters of the detections: `keep` marks the detection kept for
/// each, `cl` and `anchor` give for each detection with a reference its
/// kept detection and the detection that opened its cluster.
pub open spec fn clusters(
    rs: Seq<QueryResult>,
    keep: Seq<bool>,
    cl: Seq<int>,
    anchor: Seq<int>,
) -> bool {
    &&& keep.len() == rs.len()
    &&& cl.len() == rs.len()
    &&& anchor.len() == rs.len()
    &&& exists|done: Seq<bool>|
        swept(rs, done, keep, cl, anchor) && forall|k: int|
            0 <= k < rs.len() ==> (#[trigger] done[k] <==> has_ref(rs[k]))
}

/// One step of the sweep: opener `idx` gathers `members`, keeps `best`.
#[verifier::spinoff_prover]
proof fn lemma_sweep_step(
    rs: Seq<QueryResult>,
    done0: Seq<bool>,
    keep0: Seq<bool>,
    cl0: Seq<int>,
    anchor0: Seq<int>,
    idx: int,
    best: int,
    members: Seq<int>,
    done1: Seq<bool>,
)
    requires
        swept(rs, done0, keep0, cl0, anchor0),
        0 <= idx < rs.len(),
        has_ref(rs[idx]),
        !done0[idx],
        forall|j: int|
            0 <= j < rs.len() && has_ref(rs[j]) && !#[trigger] done0[j] && j != idx ==> key_less(
                positions(rs),
                idx,
                j,
            ),
        forall|k: int|
            #[trigger] members.contains(k) ==> 0 <= k < rs.len() && !done0[k] && same_ref(
                rs[idx],
                rs[k],
            ) && (k == idx || (duplicate_of(rs[idx], rs[k]) && key_less(positions(rs), idx, k))),
        members.contains(idx),
        members.contains(best),
        forall|k: int| #[trigger] members.contains(k) ==> rs[k].score <= rs[best].score,
        forall|k: int|
            #[trigger] members.contains(k) && k != best && rs[k].score == rs[best].score ==> key_less(
                positions(rs),
                best,
                k,
            ),
        done1.len() == rs.len(),
        forall|k: int| 0 <= k < rs.len() ==> #[trigger] done1[k] == (done0[k] || members.contains(k)),
        forall|j: int|
            0 <= j < rs.len() && !#[trigger] done1[j] && same_ref(rs[idx], rs[j]) ==> !duplicate_of(
                rs[idx],
                rs[j],
            ),
        forall|k: int, j: int|
            0 <= j < rs.len() && #[trigger] members.contains(k) && !#[trigger] done1[j] && same_ref(
                rs[idx],
                rs[j],
            ) ==> key_less(positions(rs), k, j),
    ensures
        swept(
            rs,
            done1,
            keep0.update(best, true),
            Seq::new(rs.len(), |k: int| if members.contains(k) { best } else { cl0[k] }),
            Seq::new(rs.len(), |k: int| if members.contains(k) { idx } else { anchor0[k] }),
        ),
{
    reveal(swept);
    let p = positions(rs);
    let keep1 = keep0.update(best, true);
    let cl1 = Seq::new(rs.len(), |k: int| if members.contains(k) { best } else { cl0[k] });
    let anchor1 = Seq::new(rs.len(), |k: int| if members.contains(k) { idx } else { anchor0[k] });
    assert forall|k: int| 0 <= k < rs.len() && #[trigger] keep0[k] implies !members.contains(k) && k != best by {
        assert(done0[k]);
    }
    assert forall|k: int| 0 <= k < rs.len() && #[trigger] done1[k] implies clustered(
        rs,
        cl1,
        anchor1,
        keep1,
        k,
    ) && done1[anchor1[k]] && anchor1[anchor1[k]] == anchor1[k] by {
        if members.contains(k) {
            assert(cl1[k] == best && anchor1[k] == idx);
            assert(cl1[best] == best && anchor1[best] == idx && anchor1[idx] == idx);
        } else {
            assert(done0[k]);
            assert(clustered(rs, cl0, anchor0, keep0, k));
            assert(keep0[cl0[k]]);
            assert(done0[cl0[k]] && done0[anchor0[k]]);
            assert(!members.contains(cl0[k]) && !members.contains(anchor0[k]));
        }
    }
    assert forall|k: int| 0 <= k < rs.len() && #[trigger] keep1[k] implies done1[k] && cl1[k] == k by {
        if k != best {
            assert(keep0[k]);
            assert(!members.contains(k));
        }
    }
    assert forall|k: int, j: int|
        0 <= k < rs.len() && 0 <= j < rs.len() && #[trigger] done1[k] && !#[trigger] done1[j]
            && same_ref(rs[k], rs[j]) implies key_less(p, k, j) by {
        if !members.contains(k) {
            assert(done0[k] && !done0[j]);
        } else {
            assert(same_ref(rs[idx], rs[j]));
        }
    }
    assert forall|k: int| 0 <= k < rs.len() && #[trigger] done1[k] implies anchor1[k] == k || key_less(
        p,
        anchor1[k],
        k,
    ) by {
        if !members.contains(k) {
            assert(done0[k]);
        }
    }
    assert forall|k: int, t: int|
        0 <= k < rs.len() && 0 <= t < rs.len() && #[trigger] done1[k] && #[trigger] done1[t]
            && anchor1[t] == t && same_ref(rs[t], rs[k]) && key_less(p, t, anchor1[k])
            implies !duplicate_of(rs[t], rs[k]) by {
        if members.contains(t) {
            // t is the new opener; k's opener is older, or k is in this cluster
            assert(t == idx);
            if members.contains(k) {
                assert(anchor1[k] == idx);
            } else {
                assert(done0[k] && done0[anchor0[k]]);
                assert(has_ref(rs[anchor0[k]]));
                assert(!done0[idx]);
                assert(same_ref(rs[anchor0[k]], rs[idx]));
                assert(key_less(p, anchor0[k], idx));
            }
        } else {
            assert(done0[t] && anchor0[t] == t);
            if members.contains(k) {
                assert(!done0[k]);
                assert(same_ref(rs[t], rs[k]));
                assert(key_less(p, t, k));
            } else {
                assert(done0[k]);
            }
        }
    }
    assert forall|t: int, j: int|
        0 <= t < rs.len() && 0 <= j < rs.len() && #[trigger] done1[t] && !#[trigger] done1[j]
            && anchor1[t] == t && same_ref(rs[t], rs[j]) implies !duplicate_of(rs[t], rs[j]) by {
        if members.contains(t) {
            assert(t == idx);
        } else {
            assert(done0[t] && !done0[j]);
        }
    }
    assert forall|k: int, t: int|
        0 <= k < rs.len() && 0 <= t < rs.len() && #[trigger] done1[k] && #[trigger] done1[t]
            && anchor1[t] == t && same_ref(rs[k], rs[t]) && key_less(p, anchor1[k], t) implies key_less(
        p,
        k,
        t,
    ) by {
        if members.contains(t) {
            assert(t == idx);
            if members.contains(k) {
                assert(anchor1[k] == idx);
            } else {
                assert(done0[k] && !done0[idx]);
                assert(same_ref(rs[k], rs[idx]));
            }
        } else {
            assert(done0[t] && anchor0[t] == t);
            if members.contains(k) {
                assert(anchor1[k] == idx);
                assert(!done0[idx] && same_ref(rs[t], rs[idx]));
                assert(key_less(p, t, idx));
            } else {
                assert(done0[k]);
            }
        }
    }
    assert forall|k: int|
        0 <= k < rs.len() && #[trigger] done1[k] && cl1[k] != k && rs[k].score == rs[cl1[k]].score
            implies key_less(p, cl1[k], k) by {
        if !members.contains(k) {
            assert(done0[k]);
        }
    }
    assert forall|k: int, t: int|
        0 <= k < rs.len() && 0 <= t < rs.len() && #[trigger] done1[k] && #[trigger] done1[t]
            && anchor1[k] == anchor1[t] implies cl1[k] == cl1[t] by {
        if members.contains(k) && !members.contains(t) {
            assert(done0[t] && done0[anchor0[t]]);
            assert(anchor0[t] != idx);
        } else if !members.contains(k) && members.contains(t) {
            assert(done0[k] && done0[anchor0[k]]);
            assert(anchor0[k] != idx);
        } else if !members.contains(k) && !members.contains(t) {
            assert(done0[k] && done0[t]);
        }
    }
}

/// Sweeps each reference's detections in position order: a detection opens
/// a cluster, the following ones of that reference join it while they are
/// duplicates of the opener, and the first best-scoring member is kept.
#[verifier::spinoff_prover]
fn cluster(results: &Vec<QueryResult>, order: &Vec<usize>) -> (keep: Vec<bool>)
    requires
        is_key_order(positions(results@), order@),
    ensures
        keep.len() == results.len(),
        exists|p: (Seq<int>, Seq<int>)| clusters(results@, keep@, p.0, p.1),
{
    let ghost rs = results@;
    let ghost pos = positions(rs);
    let n = results.len();
    let mut done: Vec<bool> = Vec::new();
    let mut keep: Vec<bool> = Vec::new();
    let mut i: usize = 0;
    while i < n
        invariant
            i <= n,
            done.len() == i,
            keep.len() == i,
            forall|k: int| 0 <= k < i ==> !done[k] && !keep[k],
        decreases n - i,
    {
        done.push(false);
        keep.push(false);
        i += 1;
    }
    let ghost mut cl: Seq<int> = Seq::new(n as nat, |k: int| 0);
    let ghost mut anchor: Seq<int> = Seq::new(n as nat, |k: int| 0);
    proof {
        reveal(swept);
    }
    let mut a: usize = 0;
    while a < n
        invariant
            n == results.len(),
            rs == results@,
            pos == positions(rs),
            is_key_order(pos, order@),
            a <= n,
            done.len() == n,
            keep.len() == n,
            cl.len() == n,
            anchor.len() == n,
            swept(rs, done@, keep@, cl, anchor),
            forall|b: int|
                0 <= b < a && has_ref(rs[order[b] as int]) ==> #[trigger] done[order[b] as int],
        decreases n - a,
    {
        let idx = order[a];
        let ghost done0 = done@;
        if results[idx].ref_identifier.is_some() && !done[idx] {
            proof {
                assert forall|j: int|
                    0 <= j < rs.len() && has_ref(rs[j]) && !#[trigger] done0[j] && j != idx implies key_less(
                    pos,
                    idx as int,
                    j,
                ) by {
                    assert(crate::order::occurs(order@, j));
                    let y = choose|y: int| 0 <= y < order.len() && order[y] == j;
                    if y < a {
                        assert(done[order[y] as int]);
                    } else if y > a {
                        assert(key_less(pos, order[a as int] as int, order[y] as int));
                    }
                }
            }
            let mut best = idx;
            done.set(idx, true);
            let ghost mut members: Seq<int> = seq![idx as int];
            let mut stopped = false;
            assert(members[0] == idx as int);
            let mut b = a + 1;
            while b < n && !stopped
                invariant
                    n == results.len(),
                    rs == results@,
                    pos == positions(rs),
                    is_key_order(pos, order@),
                    done.len() == n,
                    done0.len() == n,
                    a < b <= n,
                    idx == order[a as int],
                    has_ref(rs[idx as int]),
                    !done0[idx as int],
                    stopped ==> b < n && same_ref(rs[idx as int], rs[order[b as int] as int])
                        && !done[order[b as int] as int] && !duplicate_of(
                        rs[idx as int],
                        rs[order[b as int] as int],
                    ),
                    best < n,
                    forall|k: int| 0 <= k < n ==> #[trigger] done[k] == (done0[k] || members.contains(k)),
                    forall|k: int|
                        #[trigger] members.contains(k) ==> 0 <= k < n && !done0[k] && same_ref(
                            rs[idx as int],
                            rs[k],
                        ) && (k == idx || (duplicate_of(rs[idx as int], rs[k]) && key_less(
                            pos,
                            idx as int,
                            k,
                        ))),
                    forall|k: int, y: int|
                        #[trigger] members.contains(k) && b <= y < n ==> key_less(
                            pos,
                            k,
                            #[trigger] order[y] as int,
                        ),
                    members.contains(idx as int),
                    members.contains(best as int),
                    forall|k: int| #[trigger] members.contains(k) ==> rs[k].score <= rs[best as int].score,
                    forall|k: int|
                        #[trigger] members.contains(k) && k != best && rs[k].score == rs[best as int].score
                            ==> key_less(pos, best as int, k),
                    forall|y: int|
                        a < y < b && same_ref(rs[idx as int], rs[order[y] as int]) ==> #[trigger] done[order[y] as int],
                decreases n - b + if stopped {
                    0int
                } else {
                    1int
                },
            {
                let j = order[b];
                if !done[j] && same_reference(&results[idx], &results[j]) {
                    if is_duplicate(&results[idx], &results[j]) {
                        let ghost old_members = members;
                        done.set(j, true);
                        proof {
                            members = members.push(j as int);
                            assert(key_less(pos, idx as int, j as int));
                            assert(members[members.len() - 1] == j as int);
                            assert forall|k: int| #[trigger] members.contains(k) implies k == j || old_members.contains(k) by {
                                if k != j {
                                    let q = choose|q: int| 0 <= q < members.len() && members[q] == k;
                                    assert(old_members[q] == k);
                                }
                            }
                            assert forall|k: int| #[trigger] old_members.contains(k) implies members.contains(k) by {
                                let q = choose|q: int| 0 <= q < old_members.len() && old_members[q] == k;
                                assert(members[q] == k);
                            }
                            assert forall|k: int, y: int| #[trigger] members.contains(k) && b + 1 <= y < n implies key_less(
                                pos,
                                k,
                                #[trigger] order[y] as int,
                            ) by {
                                if k == j {
                                    assert(key_less(pos, order[b as int] as int, order[y] as int));
                                } else {
                                    assert(old_members.contains(k));
                                }
                            }
                        }
                        if results[j].score > results[best].score {
                            best = j;
                        }
                        proof {
                            if best != j {
                                assert(key_less(pos, best as int, j as int));
                            }
                        }
                    } else {
                        stopped = true;
                    }
                }
                if !stopped {
                    b += 1;
                }
            }
            let ghost keep0 = keep@;
            keep.set(best, true);
            proof {
                assert forall|j: int|
                    0 <= j < rs.len() && !#[trigger] done[j] && same_ref(rs[idx as int], rs[j]) implies !duplicate_of(
                    rs[idx as int],
                    rs[j],
                ) by {
                    assert(crate::order::occurs(order@, j));
                    let y = choose|y: int| 0 <= y < order.len() && order[y] == j;
                    if y < a {
                        assert(done[order[y] as int]);
                    } else if y == a {
                        assert(members.contains(idx as int));
                    } else if y < b {
                        assert(done[order[y] as int]);
                    } else {
                        assert(stopped);
                        let u = order[b as int] as int;
                        assert(key_less(pos, idx as int, u));
                        if y > b {
                            assert(key_less(pos, u, j));
                        }
                        assert(pos[idx as int] == position(rs[idx as int]));
                        assert(pos[u] == position(rs[u]));
                        assert(pos[j] == position(rs[j]));
                    }
                }
                assert forall|k: int, j: int|
                    0 <= j < rs.len() && #[trigger] members.contains(k) && !#[trigger] done[j] && same_ref(
                        rs[idx as int],
                        rs[j],
                    ) implies key_less(pos, k, j) by {
                    assert(crate::order::occurs(order@, j));
                    let y = choose|y: int| 0 <= y < order.len() && order[y] == j;
                    if y < a {
                        assert(done[order[y] as int]);
                    } else if y == a {
                        assert(members.contains(idx as int));
                    } else if y < b {
                        assert(done[order[y] as int]);
                    } else {
                        assert(key_less(pos, k, order[y] as int));
                    }
                }
                lemma_sweep_step(rs, done0, keep0, cl, anchor, idx as int, best as int, members, done@);
                cl = Seq::new(rs.len(), |k: int| if members.contains(k) { best as int } else { cl[k] });
                anchor = Seq::new(rs.len(), |k: int| if members.contains(k) { idx as int } else { anchor[k] });
            }
        }
        proof {
            assert forall|bb: int|
                0 <= bb < a + 1 && has_ref(rs[order[bb] as int]) implies #[trigger] done[order[bb] as int] by {
                if bb < a {
                    assert(done0[order[bb] as int]);
                }
            }
        }
        a += 1;
    }
    proof {
        assert forall|k: int| 0 <= k < rs.len() implies (#[trigger] done[k] <==> has_ref(rs[k])) by {
            if has_ref(rs[k]) {
                assert(crate::order::occurs(order@, k));
                let y = choose|y: int| 0 <= y < order.len() && order[y] == k;
                assert(done[order[y] as int]);
            }
            if done[k] {
                lemma_done_facts(rs, done@, keep@, cl, anchor, k);
            }
        }
        assert(clusters(rs, keep@, (cl, anchor).0, (cl, anchor).1));
    }
    keep
}

/// `out` holds the detections of `rs` that `keep` marks, once each, in
/// stable order of `keys`; `src` names them.
pub open spec fn taken(
    rs: Seq<QueryResult>,
    keys: Seq<i64>,
    keep: Seq<bool>,
    out: Seq<QueryResult>,
    src: Seq<int>,
) -> bool {
    &&& out.len() == src.len()
    &&& forall|m: int| 0 <= m < src.len() ==> 0 <= #[trigger] src[m] < rs.len()
    &&& forall|m: int| 0 <= m < src.len() ==> #[trigger] out[m] == rs[src[m]]
    &&& forall|m: int| 0 <= m < src.len() ==> keep[#[trigger] src[m]]
    &&& forall|m1: int, m2: int| 0 <= m1 < m2 < src.len() ==> key_less(keys, src[m1], src[m2])
    &&& forall|k: int| 0 <= k < rs.len() && #[trigger] keep[k] ==> exists|m: int| 0 <= m < src.len() && src[m] == k
}

/// The detections that `keep` marks, moved out in the order `order`.
#[verifier::rlimit(100)]
#[verifier::spinoff_prover]
pub(crate) fn take_kept(
    results: Vec<QueryResult>,
    Ghost(keys): Ghost<Seq<i64>>,
    order: &Vec<usize>,
    keep: &Vec<bool>,
) -> (out: Vec<QueryResult>)
    requires
        is_key_order(keys, order@),
        keys.len() == results.len(),
        keep.len() == results.len(),
    ensures
        exists|src: Seq<int>| taken(results@, keys, keep@, out@, src),
{
    let ghost rs = results@;
    let n = results.len();
    let mut slots: Vec<Option<QueryResult>> = Vec::new();
    let mut rest = results;
    while rest.len() > 0
        invariant
            rest.len() + slots.len() == n,
            n == rs.len(),
            forall|k: int| 0 <= k < rest.len() ==> rest[k] == rs[k],
            forall|k: int| 0 <= k < slots.len() ==> slots[k] == Some(rs[n - 1 - k]),
        decreases rest.len(),
    {
        let x = rest.pop().unwrap();
        slots.push(Some(x));
    }
    let mut out: Vec<QueryResult> = Vec::new();
    let ghost mut src: Seq<int> = Seq::empty();
    let ghost mut srcpos: Seq<int> = Seq::empty();
    let mut a: usize = 0;
    while a < n
        invariant
            is_key_order(keys, order@),
            keys.len() == n,
            n == rs.len(),
            slots.len() == n,
            keep.len() == n,
            a <= n,
            forall|b: int|
                a <= b < n && #[trigger] keep[order[b] as int] ==> slots[n - 1 - order[b]] == Some(
                    rs[order[b] as int],
                ),
            out.len() == src.len(),
            srcpos.len() == src.len(),
            forall|m: int| 0 <= m < src.len() ==> 0 <= #[trigger] srcpos[m] < a,
            forall|m: int| 0 <= m < src.len() ==> #[trigger] src[m] == order[srcpos[m]] as int,
            forall|m1: int, m2: int| 0 <= m1 < m2 < src.len() ==> srcpos[m1] < srcpos[m2],
            forall|m: int| 0 <= m < src.len() ==> #[trigger] out[m] == rs[src[m]] && keep[src[m]],
            forall|b: int|
                0 <= b < a && #[trigger] keep[order[b] as int] ==> exists|m: int|
                    0 <= m < src.len() && src[m] == order[b] as int,
        decreases n - a,
    {
        let idx = order[a];
        if keep[idx] {
            let ghost old_slots = slots@;
            slots.push(None);
            let x = slots.swap_remove(n - 1 - idx);
            assert(x == Some(rs[idx as int]));
            proof {
                assert forall|b: int|
                    a + 1 <= b < n && #[trigger] keep[order[b] as int] implies slots[n - 1 - order[b]]
                        == Some(rs[order[b] as int]) by {
                    lemma_order_distinct(keys, order@, a as int, b);
                    assert(slots[n - 1 - order[b]] == old_slots[n - 1 - order[b]]);
                }
            }
            match x {
                Some(r) => {
                    let ghost old_src = src;
                    out.push(r);
                    proof {
                        let old_pos = srcpos;
                        src = src.push(idx as int);
                        srcpos = srcpos.push(a as int);
                        assert forall|m: int| 0 <= m < old_src.len() implies src[m] == old_src[m]
                            && srcpos[m] == old_pos[m] by {}
                        assert forall|m: int| 0 <= m < src.len() implies 0 <= #[trigger] srcpos[m] < a + 1 by {
                            if m < old_src.len() {
                                assert(srcpos[m] == old_pos[m]);
                            }
                        }
                        assert forall|m: int| 0 <= m < src.len() implies #[trigger] src[m] == order[srcpos[m]] as int by {
                            if m < old_src.len() {
                                assert(src[m] == old_src[m] && srcpos[m] == old_pos[m]);
                            }
                        }
                        assert forall|b: int|
                            0 <= b < a + 1 && #[trigger] keep[order[b] as int] implies exists|m: int|
                                0 <= m < src.len() && src[m] == order[b] as int by {
                            if b == a {
                                assert(src[src.len() - 1] == order[b] as int);
                            } else {
                                let m = choose|m: int| 0 <= m < old_src.len() && old_src[m] == order[b] as int;
                                assert(src[m] == old_src[m]);
                            }
                        }
                    }
                },
                None => {},
            }
        } else {
            proof {
                assert forall|b: int|
                    a + 1 <= b < n && #[trigger] keep[order[b] as int] implies slots[n - 1 - order[b]]
                        == Some(rs[order[b] as int]) by {}
            }
        }
        a += 1;
    }
    proof {
        assert forall|m1: int, m2: int| 0 <= m1 < m2 < out.len() implies key_less(
            keys,
            src[m1],
            src[m2],
        ) by {
            assert(src[m1] == order[srcpos[m1]] as int);
            assert(src[m2] == order[srcpos[m2]] as int);
        }
        assert forall|k: int| 0 <= k < rs.len() && #[trigger] keep@[k] implies exists|m: int|
            0 <= m < src.len() && src[m] == k by {
            assert(crate::order::occurs(order@, k));
            let b = choose|b: int| 0 <= b < order.len() && order[b] == k;
            assert(keep[order[b] as int]);
        }
        assert forall|m: int| 0 <= m < src.len() implies 0 <= #[trigger] src[m] < rs.len() by {
            assert(src[m] == order[srcpos[m]] as int);
        }
        assert forall|m: int| 0 <= m < src.len() implies keep@[#[trigger] src[m]] by {
            assert(out[m] == rs[src[m]] && keep[src[m]]);
        }
        assert(taken(rs, keys, keep@, out@, src));
    }
    out
}

proof fn lemma_order_distinct(keys: Seq<i64>, order: Seq<usize>, a: int, b: int)
    requires
        is_key_order(keys, order),
        0 <= a < b < order.len(),
    ensures
        order[a] != order[b],
{
    assert(key_less(keys, order[a] as int, order[b] as int));
}

#[verifier::spinoff_prover]
proof fn lemma_merged(
    rs: Seq<QueryResult>,
    keep: Seq<bool>,
    cl: Seq<int>,
    anchor: Seq<int>,
    out: Seq<QueryResult>,
    src: Seq<int>,
)
    requires
        clusters(rs, keep, cl, anchor),
        taken(rs, positions(rs), keep, out, src),
    ensures
        merged(rs, out, src, cl, anchor),
{
    let done = choose|done: Seq<bool>|
        swept(rs, done, keep, cl, anchor) && forall|k: int|
            0 <= k < rs.len() ==> (#[trigger] done[k] <==> has_ref(rs[k]));
    assert forall|k: int| 0 <= k < rs.len() && #[trigger] keep[k] implies done[k] && cl[k] == k by {
        lemma_kept_facts(rs, done, keep, cl, anchor, k);
    }
    assert forall|n: int| 0 <= n < out.len() implies has_ref(rs[#[trigger] src[n]]) && cl[src[n]] == src[n] by {
        assert(keep[src[n]]);
    }
    assert forall|i: int| 0 <= i < rs.len() && has_ref(#[trigger] rs[i]) implies {
        &&& 0 <= cl[i] < rs.len()
        &&& 0 <= anchor[i] < rs.len()
        &&& exists|m: int| 0 <= m < src.len() && src[m] == cl[i]
        &&& same_ref(rs[i], rs[cl[i]])
        &&& same_ref(rs[i], rs[anchor[i]])
        &&& anchor[cl[i]] == anchor[i]
        &&& (i == anchor[i] || duplicate_of(rs[anchor[i]], rs[i]))
        &&& rs[i].score <= rs[cl[i]].score
    } by {
        assert(done[i]);
        lemma_done_facts(rs, done, keep, cl, anchor, i);
        assert(keep[cl[i]]);
    }
    assert forall|i: int|
        0 <= i < rs.len() && has_ref(rs[i]) && #[trigger] cl[i] != i && rs[i].score == rs[cl[i]].score
            implies key_less(positions(rs), cl[i], i) by {
        assert(done[i]);
        lemma_done_facts(rs, done, keep, cl, anchor, i);
    }
    assert(survivors_apart(rs, out, src, anchor)) by {
        reveal(survivors_apart);
        assert forall|n: int, m: int|
            #![trigger src[n], src[m]]
            0 <= n < m < out.len() && same_ref(out[n], out[m]) implies !duplicate_of(
            rs[anchor[src[n]]],
            out[m],
        ) by {
            lemma_survivors_apart(rs, done, keep, cl, anchor, out, src, n, m);
        }
    }
}

#[verifier::spinoff_prover]
proof fn lemma_kept_facts(
    rs: Seq<QueryResult>,
    done: Seq<bool>,
    keep: Seq<bool>,
    cl: Seq<int>,
    anchor: Seq<int>,
    k: int,
)
    requires
        swept(rs, done, keep, cl, anchor),
        0 <= k < rs.len(),
        keep[k],
    ensures
        done[k],
        cl[k] == k,
{
    reveal(swept);
}

#[verifier::spinoff_prover]
proof fn lemma_done_facts(
    rs: Seq<QueryResult>,
    done: Seq<bool>,
    keep: Seq<bool>,
    cl: Seq<int>,
    anchor: Seq<int>,
    k: int,
)
    requires
        swept(rs, done, keep, cl, anchor),
        0 <= k < rs.len(),
        done[k],
    ensures
        clustered(rs, cl, anchor, keep, k),
        cl[k] != k && rs[k].score == rs[cl[k]].score ==> key_less(positions(rs), cl[k], k),
{
    reveal(swept);
}

#[verifier::spinoff_prover]
proof fn lemma_pair_facts(
    rs: Seq<QueryResult>,
    done: Seq<bool>,
    keep: Seq<bool>,
    cl: Seq<int>,
    anchor: Seq<int>,
    k: int,
    t: int,
)
    requires
        swept(rs, done, keep, cl, anchor),
        0 <= k < rs.len(),
        0 <= t < rs.len(),
        done[k],
        done[t],
    ensures
        done[anchor[k]] && anchor[anchor[k]] == anchor[k],
        anchor[k] == k || key_less(positions(rs), anchor[k], k),
        anchor[t] == t && same_ref(rs[t], rs[k]) && key_less(positions(rs), t, anchor[k])
            ==> !duplicate_of(rs[t], rs[k]),
        anchor[t] == t && same_ref(rs[k], rs[t]) && key_less(positions(rs), anchor[k], t)
            ==> key_less(positions(rs), k, t),
        anchor[k] == anchor[t] ==> cl[k] == cl[t],
{
    reveal(swept);
}

/// Two kept detections of one reference: the later is no duplicate of the
/// opener of the earlier one's cluster.
#[verifier::spinoff_prover]
proof fn lemma_survivors_apart(
    rs: Seq<QueryResult>,
    done: Seq<bool>,
    keep: Seq<bool>,
    cl: Seq<int>,
    anchor: Seq<int>,
    out: Seq<QueryResult>,
    src: Seq<int>,
    n: int,
    m: int,
)
    requires
        swept(rs, done, keep, cl, anchor),
        forall|k: int| 0 <= k < rs.len() ==> (#[trigger] done[k] <==> has_ref(rs[k])),
        taken(rs, positions(rs), keep, out, src),
        0 <= n < m < out.len(),
        same_ref(out[n], out[m]),
    ensures
        !duplicate_of(rs[anchor[src[n]]], out[m]),
{
    let p = positions(rs);
    let sn = src[n];
    let sm = src[m];
    assert(out[n] == rs[sn] && out[m] == rs[sm]);
    assert(keep[sn] && keep[sm]);
    lemma_kept_facts(rs, done, keep, cl, anchor, sn);
    lemma_kept_facts(rs, done, keep, cl, anchor, sm);
    assert(key_less(p, sn, sm));
    let an = anchor[sn];
    let am = anchor[sm];
    lemma_done_facts(rs, done, keep, cl, anchor, sn);
    lemma_done_facts(rs, done, keep, cl, anchor, sm);
    lemma_pair_facts(rs, done, keep, cl, anchor, sn, an);
    lemma_pair_facts(rs, done, keep, cl, anchor, sm, an);
    lemma_pair_facts(rs, done, keep, cl, anchor, sn, sm);
    assert(same_ref(rs[sm], rs[an]));
    if an == am {
        assert(cl[sn] == cl[sm]);
    } else if key_less(p, am, an) {
        assert(key_less(p, sm, an));
        assert(an == sn || key_less(p, an, sn));
    } else {
        assert(key_less(p, an, am));
    }
}

/// Keeps the best detection of each cluster of near-duplicates of one
/// reference, in order of position.
#[verifier::spinoff_prover]
pub fn merge_overlapping_detections(results: Vec<QueryResult>) -> (out: Vec<QueryResult>)
    ensures
        exists|src: Seq<int>, cl: Seq<int>, anchor: Seq<int>| merged(results@, out@, src, cl, anchor),
{
    let ghost rs = results@;
    let n = results.len();
    let mut keys: Vec<i64> = Vec::new();
    let mut i: usize = 0;
    while i < n
        invariant
            n == results.len(),
            rs == results@,
            i <= n,
            keys.len() == i,
            forall|k: int| 0 <= k < i ==> keys[k] == position(rs[k]),
        decreases n - i,
    {
        keys.push(position_of(&results[i]));
        i += 1;
    }
    assert(keys@ =~= positions(rs));
    let order = stable_order(&keys);
    let keep = cluster(&results, &order);
    let ghost p = choose|p: (Seq<int>, Seq<int>)| clusters(rs, keep@, p.0, p.1);
    let ghost cl = p.0;
    let ghost anchor = p.1;
    let out = take_kept(results, Ghost(positions(rs)), &order, &keep);
    let ghost src = choose|src: Seq<int>| taken(rs, positions(rs), keep@, out@, src);
    proof {
        lemma_merged(rs, keep@, cl, anchor, out@, src);
    }
    out
}


/// No detection is dropped in favour of a weaker one: every detection with a
/// reference is matched by a kept detection of the same reference, with a
/// score at least as high, opened by a detection of which it is a duplicate
/// (or which it is).
#[verifier::rlimit(40)]
#[verifier::spinoff_prover]
pub proof fn merge_keeps_cluster_best(
    rs: Seq<QueryResult>,
    out: Seq<QueryResult>,
    src: Seq<int>,
    cl: Seq<int>,
    anchor: Seq<int>,
)
    requires
        merged(rs, out, src, cl, anchor),
    ensures
        forall|i: int|
            0 <= i < rs.len() && has_ref(#[trigger] rs[i]) ==> exists|n: int|
                0 <= n < out.len() && same_ref(rs[i], out[n]) && rs[i].score <= out[n].score && (i
                    == anchor[i] || duplicate_of(rs[anchor[i]], rs[i])),
{
    assert forall|i: int| 0 <= i < rs.len() && has_ref(#[trigger] rs[i]) implies exists|n: int|
        0 <= n < out.len() && same_ref(rs[i], out[n]) && rs[i].score <= out[n].score && (i
            == anchor[i] || duplicate_of(rs[anchor[i]], rs[i])) by {
        assert(exists|n: int| 0 <= n < src.len() && src[n] == cl[i]);
        let n = choose|n: int| 0 <= n < src.len() && src[n] == cl[i];
        assert(out[n] == rs[src[n]]);
        assert(same_ref(rs[i], rs[cl[i]]));
        assert(rs[i].score <= rs[cl[i]].score);
        assert(same_ref(rs[i], out[n]) && rs[i].score <= out[n].score);
    }
}


/// The shortest detection that is reported, in milliseconds.
pub const MIN_DETECTION_MS: i64 = 2000;

/// The detection is reported: it names a reference and lasts at least the
/// minimum duration in the query.
pub open spec fn reported(r: QueryResult) -> bool {
    has_ref(r) && r.query_stop_ms - r.query_start_ms >= MIN_DETECTION_MS
}

/// Whether each detection is reported.
pub open spec fn reported_flags(rs: Seq<QueryResult>) -> Seq<bool> {
    rs.map_values(|r: QueryResult| reported(r))
}

/// The query start of each detection.
pub open spec fn query_starts(rs: Seq<QueryResult>) -> Seq<i64> {
    rs.map_values(|r: QueryResult| r.query_start_ms)
}

/// The detections that are reported, by query start (ties in input order).
pub fn filter_for_output(results: Vec<QueryResult>) -> (out: Vec<QueryResult>)
    ensures
        exists|src: Seq<int>|
            taken(
                results@,
                query_starts(results@),
                reported_flags(results@),
                out@,
                src,
            ),
{
    let ghost rs = results@;
    let n = results.len();
    let mut keys: Vec<i64> = Vec::new();
    let mut keep: Vec<bool> = Vec::new();
    let mut i: usize = 0;
    while i < n
        invariant
            n == results.len(),
            rs == results@,
            i <= n,
            keys.len() == i,
            keep.len() == i,
            forall|k: int| 0 <= k < i ==> keys[k] == rs[k].query_start_ms,
            forall|k: int| 0 <= k < i ==> keep[k] == reported(rs[k]),
        decreases n - i,
    {
        let r = &results[i];
        let span: i128 = (r.query_stop_ms as i128) - (r.query_start_ms as i128);
        keys.push(r.query_start_ms);
        keep.push(r.ref_identifier.is_some() && span >= MIN_DETECTION_MS as i128);
        i += 1;
    }
    assert(keys@ =~= query_starts(rs));
    assert(keep@ =~= reported_flags(rs));
    let order = stable_order(&keys);
    take_kept(results, Ghost(query_starts(rs)), &order, &keep)
}


/// The query path that names a report: that of its first detection, or
/// `fallback` when it has none.
pub fn report_path(reported: &Vec<QueryResult>, fallback: String) -> (r: String)
    ensures
        reported.len() > 0 ==> r@ == reported[0].query_path@,
        reported.len() == 0 ==> r@ == fallback@,
{
    if reported.len() > 0 {
        reported[0].query_path.clone()
    } else {
        fallback
    }
}

} // verus!
