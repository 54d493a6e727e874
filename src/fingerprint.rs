//! Triplet fingerprints and their 64-bit hash.
use vstd::prelude::*;

use crate::config::PanakoConfig;
use crate::eventpoint::EventPoint;
use crate::order::{key_less, occurs, stable_order};

verus! {

/// One for a true comparison, zero for a false one.
pub open spec fn flag(b: bool) -> u64 {
    if b {
        1
    } else {
        0
    }
}

/// `|a - b|` of two bins, widened to `i32`.
pub open spec fn bin_distance(a: i16, b: i16) -> i32 {
    if a >= b {
        (a - b) as i32
    } else {
        (b - a) as i32
    }
}

/// Where `t2` falls between `t1` and `t3`, in 64 steps.
pub open spec fn time_ratio(t1: i32, t2: i32, t3: i32) -> u64 {
    (((t2 - t1) * 64 / (t3 - t1)) % 64) as u64
}

/// The hash of three event points, field by field.
pub open spec fn hash_of(e1: EventPoint, e2: EventPoint, e3: EventPoint) -> u64 {
    (time_ratio(e1.t, e2.t, e3.t) & 0x3F)
    | (flag(e1.f > e2.f) << 6u64)
    | (flag(e2.f > e3.f) << 7u64)
    | (flag(e3.f > e1.f) << 8u64)
    | (flag(e1.m > e2.m) << 9u64)
    | (flag(e2.m > e3.m) << 10u64)
    | (flag(e3.m > e1.m) << 11u64)
    | (flag(e2.t - e1.t > e3.t - e2.t) << 12u64)
    | (flag(bin_distance(e2.f, e1.f) > bin_distance(e3.f, e2.f)) << 13u64)
    | (((((e1.f as i32) >> 5i32) & 0xFF) as u64) << 14u64)
    | ((((bin_distance(e2.f, e1.f) >> 2i32) & 0x3F) as u64) << 22u64)
    | ((((bin_distance(e3.f, e2.f) >> 2i32) & 0x3F) as u64) << 28u64)
}

fn cmp_flag(b: bool) -> (r: u64)
    ensures
        r == flag(b),
{
    if b {
        1
    } else {
        0
    }
}

fn distance(a: i16, b: i16) -> (r: i32)
    ensures
        r == bin_distance(a, b),
        0 <= r <= 65535,
{
    if a >= b {
        (a as i32) - (b as i32)
    } else {
        (b as i32) - (a as i32)
    }
}

/// The hash of three event points in strict time order.
pub fn compute_hash(e1: &EventPoint, e2: &EventPoint, e3: &EventPoint) -> (r: u64)
    requires
        e1.t < e2.t < e3.t,
    ensures
        r == hash_of(*e1, *e2, *e3),
{
    let d12 = (e2.t as i64) - (e1.t as i64);
    let d13 = (e3.t as i64) - (e1.t as i64);
    let ratio: i64 = (d12 * 64) / d13;
    assert(0 <= ratio < 64) by (nonlinear_arith)
        requires
            0 < d12 < d13,
            ratio as int == (d12 as int * 64) / (d13 as int),
    ;
    let ratio_t: u64 = ratio as u64;
    let df21 = distance(e2.f, e1.f);
    let df32 = distance(e3.f, e2.f);
    let dt_wider: bool = d12 > (e3.t as i64) - (e2.t as i64);
    (ratio_t & 0x3F)
    | (cmp_flag(e1.f > e2.f) << 6u64)
    | (cmp_flag(e2.f > e3.f) << 7u64)
    | (cmp_flag(e3.f > e1.f) << 8u64)
    | (cmp_flag(e1.m > e2.m) << 9u64)
    | (cmp_flag(e2.m > e3.m) << 10u64)
    | (cmp_flag(e3.m > e1.m) << 11u64)
    | (cmp_flag(dt_wider) << 12u64)
    | (cmp_flag(df21 > df32) << 13u64)
    | (((((e1.f as i32) >> 5i32) & 0xFF) as u64) << 14u64)
    | ((((df21 >> 2i32) & 0x3F) as u64) << 22u64)
    | ((((df32 >> 2i32) & 0x3F) as u64) << 28u64)
}


/// A fingerprint: three event points in strict time order and their hash.
#[derive(Clone, Copy, Debug, PartialEq, Eq, Structural)]
pub struct Fingerprint {
    pub hash: u64,
    pub t1: i32,
    pub f1: i16,
    pub m1: u32,
    pub t2: i32,
    pub f2: i16,
    pub m2: u32,
    pub t3: i32,
    pub f3: i16,
    pub m3: u32,
}

impl Fingerprint {
    /// The fingerprint of three event points.
    pub open spec fn of(e1: EventPoint, e2: EventPoint, e3: EventPoint) -> Fingerprint {
        Fingerprint {
            hash: hash_of(e1, e2, e3),
            t1: e1.t,
            f1: e1.f,
            m1: e1.m,
            t2: e2.t,
            f2: e2.f,
            m2: e2.m,
            t3: e3.t,
            f3: e3.f,
            m3: e3.m,
        }
    }

    /// The three event points that the fingerprint joins.
    pub open spec fn points(self) -> (EventPoint, EventPoint, EventPoint) {
        (
            EventPoint { t: self.t1, f: self.f1, m: self.m1 },
            EventPoint { t: self.t2, f: self.f2, m: self.m2 },
            EventPoint { t: self.t3, f: self.f3, m: self.m3 },
        )
    }

    /// Times strictly increase and the hash is the hash of the points.
    pub open spec fn wf(self) -> bool {
        &&& self.t1 < self.t2 < self.t3
        &&& self.hash == hash_of(self.points().0, self.points().1, self.points().2)
    }

    pub fn new(e1: &EventPoint, e2: &EventPoint, e3: &EventPoint) -> (r: Fingerprint)
        requires
            e1.t < e2.t < e3.t,
        ensures
            r == Fingerprint::of(*e1, *e2, *e3),
            r.wf(),
    {
        Fingerprint {
            hash: compute_hash(e1, e2, e3),
            t1: e1.t,
            f1: e1.f,
            m1: e1.m,
            t2: e2.t,
            f2: e2.f,
            m2: e2.m,
            t3: e3.t,
            f3: e3.f,
            m3: e3.m,
        }
    }
}

/// `a` comes before `b` when sorted by time, ties kept in index order.
pub open spec fn time_key_less(eps: Seq<EventPoint>, a: int, b: int) -> bool {
    eps[a].t < eps[b].t || (eps[a].t == eps[b].t && a < b)
}

/// `order` lists every index of `eps` once, stably sorted by time.
pub open spec fn is_time_order(eps: Seq<EventPoint>, order: Seq<usize>) -> bool {
    &&& order.len() == eps.len()
    &&& forall|a: int| 0 <= a < order.len() ==> order[a] < eps.len()
    &&& forall|a: int, b: int|
        0 <= a < b < order.len() ==> time_key_less(eps, order[a] as int, order[b] as int)
    &&& forall|i: int| 0 <= i < eps.len() ==> #[trigger] occurs(order, i)
}

/// The indices of `eps` in stable time order.
fn time_order(eps: &Vec<EventPoint>) -> (order: Vec<usize>)
    ensures
        is_time_order(eps@, order@),
{
    let mut keys: Vec<i64> = Vec::new();
    let mut i: usize = 0;
    while i < eps.len()
        invariant
            i <= eps.len(),
            keys.len() == i,
            forall|x: int| 0 <= x < i ==> keys[x] == eps[x].t,
        decreases eps.len() - i,
    {
        keys.push(eps[i].t as i64);
        i += 1;
    }
    let order = stable_order(&keys);
    assert forall|a: int, b: int| 0 <= a < b < order.len() implies time_key_less(
        eps@,
        order[a] as int,
        order[b] as int,
    ) by {
        assert(key_less(keys@, order[a] as int, order[b] as int));
    }
    order
}

/// The event points are listed in non-decreasing time.
pub open spec fn times_ascending(eps: Seq<EventPoint>) -> bool {
    forall|a: int, b: int| 0 <= a <= b < eps.len() ==> eps[a].t <= eps[b].t
}

/// Whether the event points are listed in non-decreasing time.
fn in_time_order(eps: &Vec<EventPoint>) -> (r: bool)
    ensures
        r == times_ascending(eps@),
{
    let mut i: usize = 1;
    while i < eps.len()
        invariant
            1 <= i,
            forall|a: int, b: int| 0 <= a <= b < i && b < eps.len() ==> eps[a].t <= eps[b].t,
        decreases eps.len() - i,
    {
        if eps[i - 1].t > eps[i].t {
            assert(!times_ascending(eps@)) by {
                assert(eps@[i - 1].t > eps@[i as int].t);
            }
            return false;
        }
        proof {
            assert forall|a: int, b: int| 0 <= a <= b < i + 1 && b < eps.len() implies eps[a].t
                <= eps[b].t by {
                if b == i && a < i {
                    assert(eps[a].t <= eps[i - 1].t);
                }
            }
        }
        i += 1;
    }
    true
}

/// Lexicographic order on index triples.
pub open spec fn lex_less(a: (int, int, int), b: (int, int, int)) -> bool {
    a.0 < b.0 || (a.0 == b.0 && (a.1 < b.1 || (a.1 == b.1 && a.2 < b.2)))
}

/// The triple `(i, j, k)` stands somewhere in `w`.
pub open spec fn witnessed(w: Seq<(int, int, int)>, i: int, j: int, k: int) -> bool {
    exists|n: int| 0 <= n < w.len() && w[n] == (i, j, k)
}

/// The fingerprint of the event points at the indices of `w`.
pub open spec fn fp_at(eps: Seq<EventPoint>, w: (int, int, int)) -> Fingerprint {
    Fingerprint::of(eps[w.0], eps[w.1], eps[w.2])
}

/// Builds the fingerprints of an event-point list.
pub struct FingerprintGenerator {
    pub min_freq_dist: i16,
    pub max_freq_dist: i16,
    pub min_time_dist: i32,
    pub max_time_dist: i32,
}

impl FingerprintGenerator {
    /// `b` follows `a` within the time and frequency distance bounds.
    pub open spec fn pair_ok(self, a: EventPoint, b: EventPoint) -> bool {
        &&& a.t < b.t
        &&& self.min_time_dist <= b.t - a.t <= self.max_time_dist
        &&& self.min_freq_dist <= bin_distance(b.f, a.f) <= self.max_freq_dist
    }

    /// The indices `i < j < k` form a valid triplet.
    pub open spec fn triple_ok(self, eps: Seq<EventPoint>, i: int, j: int, k: int) -> bool {
        &&& 0 <= i < j < k < eps.len()
        &&& self.pair_ok(eps[i], eps[j])
        &&& self.pair_ok(eps[j], eps[k])
    }

    /// Both steps of the fingerprint keep the time and frequency distance
    /// bounds.
    pub open spec fn within_bounds(self, fp: Fingerprint) -> bool {
        &&& self.min_time_dist <= fp.t2 - fp.t1 <= self.max_time_dist
        &&& self.min_time_dist <= fp.t3 - fp.t2 <= self.max_time_dist
        &&& self.min_freq_dist <= bin_distance(fp.f2, fp.f1) <= self.max_freq_dist
        &&& self.min_freq_dist <= bin_distance(fp.f3, fp.f2) <= self.max_freq_dist
    }

    /// `out` holds one fingerprint for each valid triplet of `eps`, the triplet
    /// being `w` at the same position, sorted by `t1` with ties in index order.
    pub open spec fn generated(
        self,
        eps: Seq<EventPoint>,
        out: Seq<Fingerprint>,
        w: Seq<(int, int, int)>,
    ) -> bool {
        &&& out.len() == w.len()
        &&& forall|n: int|
            0 <= n < w.len() ==> self.triple_ok(eps, w[n].0, w[n].1, w[n].2) && out[n] == fp_at(
                eps,
                #[trigger] w[n],
            )
        &&& forall|n: int, m: int| 0 <= n < m < w.len() ==> w[n] != w[m]
        &&& forall|i: int, j: int, k: int|
            #[trigger] self.triple_ok(eps, i, j, k) ==> witnessed(w, i, j, k)
        &&& forall|n: int, m: int| 0 <= n < m < out.len() ==> out[n].t1 <= out[m].t1
        &&& forall|n: int, m: int|
            0 <= n < m < out.len() && out[n].t1 == out[m].t1 ==> lex_less(w[n], w[m])
    }

    pub fn new(config: &PanakoConfig) -> (r: FingerprintGenerator)
        ensures
            r.min_freq_dist == config.fp_min_freq_dist,
            r.max_freq_dist == config.fp_max_freq_dist,
            r.min_time_dist == config.fp_min_time_dist,
            r.max_time_dist == config.fp_max_time_dist,
    {
        FingerprintGenerator {
            min_freq_dist: config.fp_min_freq_dist,
            max_freq_dist: config.fp_max_freq_dist,
            min_time_dist: config.fp_min_time_dist,
            max_time_dist: config.fp_max_time_dist,
        }
    }

    fn check_pair(&self, a: &EventPoint, b: &EventPoint) -> (r: bool)
        ensures
            r == self.pair_ok(*a, *b),
    {
        let dt: i64 = (b.t as i64) - (a.t as i64);
        let df = distance(b.f, a.f);
        0 < dt && (self.min_time_dist as i64) <= dt && dt <= (self.max_time_dist as i64) && (
        self.min_freq_dist as i32) <= df && df <= (self.max_freq_dist as i32)
    }

    /// What the loops of `generate` have built so far: valid triplets, their
    /// fingerprints, and the position in `order` of each first point, in
    /// strictly increasing (position, second, third) order.
    spec fn built(
        self,
        eps: Seq<EventPoint>,
        order: Seq<usize>,
        out: Seq<Fingerprint>,
        w: Seq<(int, int, int)>,
        ps: Seq<int>,
        bound: int,
    ) -> bool {
        &&& out.len() == w.len()
        &&& ps.len() == w.len()
        &&& forall|x: int| 0 <= x < w.len() ==> self.triple_ok(eps, w[x].0, w[x].1, w[x].2)
        &&& forall|x: int| 0 <= x < w.len() ==> out[x] == fp_at(eps, w[x])
        &&& forall|x: int| 0 <= x < w.len() ==> 0 <= #[trigger] ps[x] <= bound
        &&& forall|x: int| 0 <= x < w.len() ==> order[ps[x]] == w[x].0
        &&& forall|x: int, y: int|
            0 <= x < y < w.len() ==> lex_less((ps[x], w[x].1, w[x].2), (ps[y], w[y].1, w[y].2))
    }

    /// Every valid triplet of event points as a fingerprint, stably sorted by
    /// the time of its first point.
    pub fn generate(&self, event_points: &Vec<EventPoint>) -> (r: Vec<Fingerprint>)
        ensures
            exists|w: Seq<(int, int, int)>| self.generated(event_points@, r@, w),
            forall|n: int| 0 <= n < r.len() ==> (#[trigger] r[n]).wf(),
            forall|n: int| 0 <= n < r.len() ==> self.within_bounds(#[trigger] r[n]),
    {
        let eps = event_points;
        let n = eps.len();
        let sorted = in_time_order(eps);
        let order = time_order(eps);
        let mut out: Vec<Fingerprint> = Vec::new();
        let ghost mut w: Seq<(int, int, int)> = Seq::empty();
        let ghost mut ps: Seq<int> = Seq::empty();
        let mut a: usize = 0;
        while a < n
            invariant
                n == eps.len(),
                sorted ==> times_ascending(eps@),
                is_time_order(eps@, order@),
                a <= n,
                self.built(eps@, order@, out@, w, ps, a as int),
                forall|x: int| 0 <= x < w.len() ==> ps[x] < a,
                forall|b: int, j: int, k: int|
                    0 <= b < a && #[trigger] self.triple_ok(eps@, order[b] as int, j, k) ==> witnessed(
                        w,
                        order[b] as int,
                        j,
                        k,
                    ),
            decreases n - a,
        {
            let i = order[a];
            let mut j: usize = i + 1;
            while j < n && !(sorted && (eps[j].t as i64) - (eps[i].t as i64) > (
            self.max_time_dist as i64))
                invariant
                    n == eps.len(),
                    sorted ==> times_ascending(eps@),
                    i < n,
                    is_time_order(eps@, order@),
                    a < n,
                    i == order[a as int],
                    i < j <= n,
                    self.built(eps@, order@, out@, w, ps, a as int),
                    forall|x: int| 0 <= x < w.len() ==> ps[x] < a || (ps[x] == a && w[x].1 < j),
                    forall|b: int, jj: int, k: int|
                        0 <= b < a && #[trigger] self.triple_ok(eps@, order[b] as int, jj, k)
                            ==> witnessed(w, order[b] as int, jj, k),
                    forall|jj: int, k: int|
                        jj < j && #[trigger] self.triple_ok(eps@, i as int, jj, k) ==> witnessed(
                            w,
                            i as int,
                            jj,
                            k,
                        ),
                decreases n - j,
            {
                if self.check_pair(&eps[i], &eps[j]) {
                    let mut k: usize = j + 1;
                    while k < n && !(sorted && (eps[k].t as i64) - (eps[j].t as i64) > (
                    self.max_time_dist as i64))
                        invariant
                            n == eps.len(),
                            sorted ==> times_ascending(eps@),
                            j < n,
                            is_time_order(eps@, order@),
                            a < n,
                            i == order[a as int],
                            i < j < k <= n,
                            self.pair_ok(eps[i as int], eps[j as int]),
                            self.built(eps@, order@, out@, w, ps, a as int),
                            forall|x: int|
                                0 <= x < w.len() ==> ps[x] < a || (ps[x] == a && (w[x].1 < j || (
                                w[x].1 == j && w[x].2 < k))),
                            forall|b: int, jj: int, kk: int|
                                0 <= b < a && #[trigger] self.triple_ok(
                                    eps@,
                                    order[b] as int,
                                    jj,
                                    kk,
                                ) ==> witnessed(w, order[b] as int, jj, kk),
                            forall|jj: int, kk: int|
                                jj < j && #[trigger] self.triple_ok(eps@, i as int, jj, kk)
                                    ==> witnessed(w, i as int, jj, kk),
                            forall|kk: int|
                                kk < k && #[trigger] self.triple_ok(eps@, i as int, j as int, kk)
                                    ==> witnessed(w, i as int, j as int, kk),
                        decreases n - k,
                    {
                        if self.check_pair(&eps[j], &eps[k]) {
                            let fp = Fingerprint::new(&eps[i], &eps[j], &eps[k]);
                            let ghost ow = w;
                            let ghost ops = ps;
                            let ghost oout = out@;
                            out.push(fp);
                            proof {
                                w = w.push((i as int, j as int, k as int));
                                ps = ps.push(a as int);
                                assert forall|x: int| 0 <= x < ow.len() implies w[x] == ow[x] && ps[x]
                                    == ops[x] && out[x] == oout[x] by {}
                                assert(w[w.len() - 1] == (i as int, j as int, k as int));
                                assert forall|kk: int|
                                    kk < k + 1 && #[trigger] self.triple_ok(
                                        eps@,
                                        i as int,
                                        j as int,
                                        kk,
                                    ) implies witnessed(w, i as int, j as int, kk) by {
                                    if kk == k {
                                        assert(w[w.len() - 1] == (i as int, j as int, kk));
                                    } else {
                                        assert(witnessed(ow, i as int, j as int, kk));
                                        let x = choose|x: int|
                                            0 <= x < ow.len() && ow[x] == (i as int, j as int, kk);
                                        assert(w[x] == ow[x]);
                                    }
                                }
                                assert forall|b: int, jj: int, kk: int|
                                    0 <= b < a && #[trigger] self.triple_ok(
                                        eps@,
                                        order[b] as int,
                                        jj,
                                        kk,
                                    ) implies witnessed(w, order[b] as int, jj, kk) by {
                                    assert(witnessed(ow, order[b] as int, jj, kk));
                                    let x = choose|x: int|
                                        0 <= x < ow.len() && ow[x] == (order[b] as int, jj, kk);
                                    assert(w[x] == ow[x]);
                                }
                                assert forall|jj: int, kk: int|
                                    jj < j && #[trigger] self.triple_ok(eps@, i as int, jj, kk)
                                        implies witnessed(w, i as int, jj, kk) by {
                                    assert(witnessed(ow, i as int, jj, kk));
                                    let x = choose|x: int|
                                        0 <= x < ow.len() && ow[x] == (i as int, jj, kk);
                                    assert(w[x] == ow[x]);
                                }
                            }
                        }
                        k += 1;
                    }
                    proof {
                        assert forall|kk: int| #[trigger]
                            self.triple_ok(eps@, i as int, j as int, kk) implies witnessed(
                            w,
                            i as int,
                            j as int,
                            kk,
                        ) by {
                            if kk >= k {
                                assert(eps@[kk].t >= eps@[k as int].t);
                            }
                        }
                    }
                }
                proof {
                    assert forall|jj: int, kk: int|
                        jj < j + 1 && #[trigger] self.triple_ok(eps@, i as int, jj, kk) implies witnessed(
                        w,
                        i as int,
                        jj,
                        kk,
                    ) by {
                        if jj == j {
                            assert(self.triple_ok(eps@, i as int, j as int, kk));
                        }
                    }
                }
                j += 1;
            }
            proof {
                assert forall|jj: int, k: int| #[trigger]
                    self.triple_ok(eps@, i as int, jj, k) implies witnessed(w, i as int, jj, k) by {
                    if jj >= j {
                        assert(eps@[jj].t >= eps@[j as int].t);
                    }
                }
                assert forall|b: int, jj: int, k: int|
                    0 <= b < a + 1 && #[trigger] self.triple_ok(eps@, order[b] as int, jj, k)
                        implies witnessed(w, order[b] as int, jj, k) by {
                    if b == a {
                        assert(self.triple_ok(eps@, i as int, jj, k));
                    }
                }
            }
            a += 1;
        }
        proof {
            self.lemma_generated(eps@, order@, out@, w, ps);
        }
        out
    }

    proof fn lemma_pair_order(
        self,
        eps: Seq<EventPoint>,
        order: Seq<usize>,
        out: Seq<Fingerprint>,
        w: Seq<(int, int, int)>,
        ps: Seq<int>,
        x: int,
        y: int,
    )
        requires
            is_time_order(eps, order),
            self.built(eps, order, out, w, ps, eps.len() as int),
            forall|z: int| 0 <= z < w.len() ==> ps[z] < eps.len(),
            0 <= x < y < w.len(),
        ensures
            w[x] != w[y],
            out[x].t1 <= out[y].t1,
            out[x].t1 == out[y].t1 ==> lex_less(w[x], w[y]),
    {
        assert(out[x] == fp_at(eps, w[x]));
        assert(out[y] == fp_at(eps, w[y]));
        assert(order[ps[x]] == w[x].0);
        assert(order[ps[y]] == w[y].0);
        assert(ps[x] < eps.len() && ps[y] < eps.len());
        assert(lex_less((ps[x], w[x].1, w[x].2), (ps[y], w[y].1, w[y].2)));
        if ps[x] < ps[y] {
            assert(time_key_less(eps, order[ps[x]] as int, order[ps[y]] as int));
        }
    }

    proof fn lemma_generated(
        self,
        eps: Seq<EventPoint>,
        order: Seq<usize>,
        out: Seq<Fingerprint>,
        w: Seq<(int, int, int)>,
        ps: Seq<int>,
    )
        requires
            is_time_order(eps, order),
            self.built(eps, order, out, w, ps, eps.len() as int),
            forall|x: int| 0 <= x < w.len() ==> ps[x] < eps.len(),
            forall|b: int, j: int, k: int|
                0 <= b < eps.len() && #[trigger] self.triple_ok(eps, order[b] as int, j, k)
                    ==> witnessed(w, order[b] as int, j, k),
        ensures
            self.generated(eps, out, w),
            forall|x: int| 0 <= x < out.len() ==> (#[trigger] out[x]).wf(),
            forall|x: int| 0 <= x < out.len() ==> self.within_bounds(#[trigger] out[x]),
    {
        assert forall|i: int, j: int, k: int| #[trigger] self.triple_ok(eps, i, j, k) implies witnessed(
            w,
            i,
            j,
            k,
        ) by {
            assert(occurs(order, i));
            let b = choose|b: int| 0 <= b < order.len() && order[b] == i;
            assert(self.triple_ok(eps, order[b] as int, j, k));
        }
        assert forall|x: int| 0 <= x < out.len() implies (#[trigger] out[x]).wf() && self.within_bounds(
            out[x],
        ) by {
            assert(out[x] == fp_at(eps, w[x]));
            assert(self.triple_ok(eps, w[x].0, w[x].1, w[x].2));
        }
        assert forall|x: int| 0 <= x < w.len() implies self.triple_ok(eps, w[x].0, w[x].1, w[x].2)
            && out[x] == fp_at(eps, #[trigger] w[x]) by {}
        assert forall|x: int, y: int| 0 <= x < y < w.len() implies w[x] != w[y] by {
            self.lemma_pair_order(eps, order, out, w, ps, x, y);
        }
        assert forall|x: int, y: int| 0 <= x < y < out.len() implies out[x].t1 <= out[y].t1 by {
            self.lemma_pair_order(eps, order, out, w, ps, x, y);
        }
        assert forall|x: int, y: int| 0 <= x < y < out.len() && out[x].t1 == out[y].t1 implies lex_less(
            w[x],
            w[y],
        ) by {
            self.lemma_pair_order(eps, order, out, w, ps, x, y);
        }
    }
}


/// The hash is a function of the three points alone: two well-formed
/// fingerprints of the same points carry the same hash.
pub proof fn hash_is_deterministic(a: Fingerprint, b: Fingerprint)
    requires
        a.wf(),
        b.wf(),
        a.points() == b.points(),
    ensures
        a.hash == b.hash,
{
}

} // verus!
