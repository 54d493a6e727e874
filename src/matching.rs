//! The inverted index and the matcher: candidate generation, time-offset
//! voting, alignment filtering and the estimates of a detection.
use vstd::prelude::*;
use std::collections::HashMap;

use crate::order::{is_key_order, stable_order};

verus! {

broadcast use vstd::std_specs::hash::group_hash_axioms;

/// A fingerprint as the index stores and queries it: hash, `t1`, `f1` and
/// the magnitude key of the first point.
pub type FingerprintTuple = (u64, i32, i16, u32);

/// An index entry: the reference, as its position in the matcher's
/// reference table, and the first point of the fingerprint.
#[derive(Clone, Copy, Debug, PartialEq, Eq, Structural)]
pub struct Posting {
    pub ref_index: usize,
    pub t1: i32,
    pub f1: i16,
}

/// A query fingerprint that met a reference fingerprint with the same hash.
#[derive(Clone, Copy, Debug, PartialEq, Eq, Structural)]
pub struct Match {
    pub ref_index: usize,
    pub query_time: i32,
    pub match_time: i32,
    pub query_f1: i16,
    pub match_f1: i16,
}

impl Match {
    /// Reference time minus query time.
    pub open spec fn delta(self) -> int {
        self.match_time - self.query_time
    }

    pub fn delta_t(&self) -> (r: i64)
        ensures
            r == self.delta(),
    {
        (self.match_time as i64) - (self.query_time as i64)
    }
}

/// The postings stored under `h`, none if the hash is absent.
pub open spec fn postings_of(m: Map<u64, Seq<Posting>>, h: u64) -> Seq<Posting> {
    if m.contains_key(h) {
        m[h]
    } else {
        Seq::empty()
    }
}

/// The index after appending the postings of `fps` for reference `r`, in order.
pub open spec fn appended(m: Map<u64, Seq<Posting>>, r: usize, fps: Seq<FingerprintTuple>) -> Map<
    u64,
    Seq<Posting>,
>
    decreases fps.len(),
{
    if fps.len() == 0 {
        m
    } else {
        let before = appended(m, r, fps.drop_last());
        let fp = fps.last();
        before.insert(fp.0, postings_of(before, fp.0).push(Posting { ref_index: r, t1: fp.1, f1: fp.2 }))
    }
}

/// The matches of one query fingerprint against the postings of its hash.
pub open spec fn matches_for(ps: Seq<Posting>, q: FingerprintTuple) -> Seq<Match> {
    ps.map_values(
        |p: Posting|
            Match {
                ref_index: p.ref_index,
                query_time: q.1,
                match_time: p.t1,
                query_f1: q.2,
                match_f1: p.f1,
            },
    )
}

/// Every match of the query, query fingerprints in order, each against its
/// postings in order.
pub open spec fn candidates(m: Map<u64, Seq<Posting>>, q: Seq<FingerprintTuple>) -> Seq<Match>
    decreases q.len(),
{
    if q.len() == 0 {
        Seq::empty()
    } else {
        candidates(m, q.drop_last()) + matches_for(postings_of(m, q.last().0), q.last())
    }
}

/// Inverted index from hash to postings, with a table of references and
/// their durations.
pub struct Matcher {
    index: HashMap<u64, Vec<Posting>>,
    ref_ids: Vec<String>,
    ref_durations: Vec<Option<u32>>,
}

impl Matcher {
    /// The index, hash to postings.
    pub closed spec fn postings(&self) -> Map<u64, Seq<Posting>> {
        self.index@.map_values(|v: Vec<Posting>| v@)
    }

    /// The reference identifiers, by position.
    pub closed spec fn refs(&self) -> Seq<Seq<char>> {
        self.ref_ids@.map_values(|s: String| s@)
    }

    /// The reference durations in milliseconds, by position.
    pub closed spec fn durations(&self) -> Seq<Option<u32>> {
        self.ref_durations@
    }

    /// One duration slot per reference, distinct identifiers, and postings
    /// that name a known reference.
    pub open spec fn wf(&self) -> bool {
        &&& self.durations().len() == self.refs().len()
        &&& forall|i: int, j: int|
            0 <= i < j < self.refs().len() ==> self.refs()[i] != self.refs()[j]
        &&& forall|h: u64, k: int|
            #![trigger self.postings()[h][k]]
            self.postings().contains_key(h) && 0 <= k < self.postings()[h].len()
                ==> self.postings()[h][k].ref_index < self.refs().len()
    }

    pub fn new() -> (r: Matcher)
        ensures
            r.wf(),
            r.postings() == Map::<u64, Seq<Posting>>::empty(),
            r.refs() == Seq::<Seq<char>>::empty(),
    {
        let r = Matcher { index: HashMap::new(), ref_ids: Vec::new(), ref_durations: Vec::new() };
        assert(r.postings() =~= Map::<u64, Seq<Posting>>::empty());
        assert(r.refs() =~= Seq::<Seq<char>>::empty());
        r
    }

    /// The position of `id` in the reference table, if it is there.
    fn position(&self, id: &String) -> (r: Option<usize>)
        ensures
            match r {
                Some(i) => i < self.refs().len() && self.refs()[i as int] == id@,
                None => forall|i: int| 0 <= i < self.refs().len() ==> self.refs()[i] != id@,
            },
    {
        let mut i: usize = 0;
        while i < self.ref_ids.len()
            invariant
                i <= self.ref_ids.len(),
                self.refs() == self.ref_ids@.map_values(|s: String| s@),
                forall|j: int| 0 <= j < i ==> self.refs()[j] != id@,
            decreases self.ref_ids.len() - i,
        {
            if self.ref_ids[i] == *id {
                return Some(i);
            }
            i += 1;
        }
        None
    }

    /// The position of `id`, appended to the table if new.
    fn intern(&mut self, id: String) -> (r: usize)
        requires
            old(self).wf(),
        ensures
            final(self).wf(),
            final(self).postings() == old(self).postings(),
            r < final(self).refs().len(),
            final(self).refs()[r as int] == id@,
            old(self).refs().contains(id@) ==> final(self).refs() == old(self).refs()
                && final(self).durations() == old(self).durations(),
            !old(self).refs().contains(id@) ==> final(self).refs() == old(self).refs().push(id@)
                && final(self).durations() == old(self).durations().push(None),
    {
        match self.position(&id) {
            Some(i) => i,
            None => {
                let ghost old_refs = self.refs();
                let ghost old_p = self.postings();
                let n = self.ref_ids.len();
                self.ref_ids.push(id);
                self.ref_durations.push(None);
                assert(self.refs() =~= old_refs.push(id@));
                assert(self.durations().len() == self.refs().len());
                assert forall|i: int, j: int|
                    0 <= i < j < self.refs().len() implies self.refs()[i] != self.refs()[j] by {
                    if j == n {
                        assert(old_refs[i] != id@);
                    } else {
                        assert(old_refs[i] != old_refs[j]);
                    }
                }
                assert(self.postings() == old_p);
                assert forall|h: u64, k: int|
                    #![trigger self.postings()[h][k]]
                    self.postings().contains_key(h) && 0 <= k < self.postings()[h].len()
                        implies self.postings()[h][k].ref_index < self.refs().len() by {
                    assert(old_p[h][k].ref_index < old_refs.len());
                }
                n
            },
        }
    }

    /// Appends one posting for `fp` under its hash.
    fn add_posting(&mut self, r: usize, fp: FingerprintTuple)
        requires
            old(self).wf(),
            r < old(self).refs().len(),
        ensures
            final(self).wf(),
            final(self).refs() == old(self).refs(),
            final(self).durations() == old(self).durations(),
            final(self).postings() == old(self).postings().insert(
                fp.0,
                postings_of(old(self).postings(), fp.0).push(Posting { ref_index: r, t1: fp.1, f1: fp.2 }),
            ),
    {
        let ghost old_p = self.postings();
        let p = Posting { ref_index: r, t1: fp.1, f1: fp.2 };
        let mut list = match self.index.remove(&fp.0) {
            Some(v) => v,
            None => Vec::new(),
        };
        assert(list@ == postings_of(old_p, fp.0));
        list.push(p);
        self.index.insert(fp.0, list);
        assert(self.postings() =~= old_p.insert(fp.0, postings_of(old_p, fp.0).push(p)));
    }

    /// Indexes the fingerprints of reference `identifier`.
    pub fn add_fingerprints(&mut self, identifier: String, fingerprints: &Vec<FingerprintTuple>)
        requires
            old(self).wf(),
        ensures
            final(self).wf(),
            exists|r: usize|
                r < final(self).refs().len() && final(self).refs()[r as int] == identifier@
                    && final(self).postings() == appended(old(self).postings(), r, fingerprints@),
            old(self).refs().contains(identifier@) ==> final(self).refs() == old(self).refs(),
            !old(self).refs().contains(identifier@) ==> final(self).refs() == old(self).refs().push(
                identifier@,
            ),
            old(self).refs().contains(identifier@) ==> final(self).durations() == old(
                self,
            ).durations(),
            !old(self).refs().contains(identifier@) ==> final(self).durations() == old(
                self,
            ).durations().push(None),
    {
        let ghost id = identifier@;
        let ghost p0 = self.postings();
        let ghost refs0 = self.refs();
        let r = self.intern(identifier);
        let ghost refs1 = self.refs();
        let ghost durs1 = self.durations();
        let mut i: usize = 0;
        while i < fingerprints.len()
            invariant
                self.wf(),
                i <= fingerprints.len(),
                r < self.refs().len(),
                self.refs() == refs1,
                self.durations() == durs1,
                refs1[r as int] == id,
                self.postings() == appended(p0, r, fingerprints@.take(i as int)),
            decreases fingerprints.len() - i,
        {
            self.add_posting(r, fingerprints[i]);
            assert(fingerprints@.take(i + 1).drop_last() =~= fingerprints@.take(i as int));
            i += 1;
        }
        assert(fingerprints@.take(i as int) =~= fingerprints@);
    }

    /// Records the duration of reference `identifier`, replacing an earlier one.
    pub fn add_duration(&mut self, identifier: String, duration_ms: u32)
        requires
            old(self).wf(),
        ensures
            final(self).wf(),
            final(self).postings() == old(self).postings(),
            exists|r: usize|
                r < final(self).refs().len() && final(self).refs()[r as int] == identifier@
                    && final(self).durations()[r as int] == Some(duration_ms),
            forall|i: int|
                0 <= i < old(self).refs().len() && old(self).refs()[i] != identifier@
                    ==> final(self).durations()[i] == old(self).durations()[i],
            old(self).refs().contains(identifier@) ==> final(self).refs() == old(self).refs(),
            !old(self).refs().contains(identifier@) ==> final(self).refs() == old(self).refs().push(
                identifier@,
            ),
    {
        let ghost id = identifier@;
        let r = self.intern(identifier);
        self.ref_durations.set(r, Some(duration_ms));
        assert(self.durations()[r as int] == Some(duration_ms));
        assert(self.refs()[r as int] == id);
    }

    /// The matches of every query fingerprint against the index.
    pub fn collect_matches(&self, query: &Vec<FingerprintTuple>) -> (r: Vec<Match>)
        requires
            self.wf(),
        ensures
            r@ == candidates(self.postings(), query@),
            forall|k: int| 0 <= k < r.len() ==> (#[trigger] r[k]).ref_index < self.refs().len(),
    {
        let mut out: Vec<Match> = Vec::new();
        let mut i: usize = 0;
        while i < query.len()
            invariant
                self.wf(),
                i <= query.len(),
                out@ == candidates(self.postings(), query@.take(i as int)),
                forall|k: int| 0 <= k < out.len() ==> (#[trigger] out[k]).ref_index < self.refs().len(),
            decreases query.len() - i,
        {
            let q = query[i];
            let ghost ps = postings_of(self.postings(), q.0);
            let ghost base = out@;
            assert(query@.take(i + 1).drop_last() =~= query@.take(i as int));
            match self.index.get(&q.0) {
                Some(list) => {
                    assert(list@ == ps);
                    let mut j: usize = 0;
                    while j < list.len()
                        invariant
                            self.wf(),
                            j <= list.len(),
                            list@ == ps,
                            ps == postings_of(self.postings(), q.0),
                            self.postings().contains_key(q.0),
                            out@ == base + matches_for(ps.take(j as int), q),
                            forall|k: int|
                                0 <= k < base.len() ==> (#[trigger] base[k]).ref_index < self.refs().len(),
                            forall|k: int|
                                0 <= k < out.len() ==> (#[trigger] out[k]).ref_index < self.refs().len(),
                        decreases list.len() - j,
                    {
                        let p = list[j];
                        assert(self.postings()[q.0][j as int] == p);
                        out.push(
                            Match {
                                ref_index: p.ref_index,
                                query_time: q.1,
                                match_time: p.t1,
                                query_f1: q.2,
                                match_f1: p.f1,
                            },
                        );
                        assert(matches_for(ps.take(j + 1), q) =~= matches_for(ps.take(j as int), q).push(
                            out[out.len() - 1],
                        ));
                        assert(out@ =~= base + matches_for(ps.take(j + 1), q));
                        j += 1;
                    }
                    assert(ps.take(j as int) =~= ps);
                },
                None => {
                    assert(ps =~= Seq::<Posting>::empty());
                    assert(matches_for(ps, q) =~= Seq::<Match>::empty());
                    assert(out@ =~= base + matches_for(ps, q));
                },
            }
            i += 1;
        }
        assert(query@.take(i as int) =~= query@);
        out
    }
}


/// The matches of reference `r`, in order.
pub open spec fn of_ref(ms: Seq<Match>, r: int) -> Seq<Match>
    decreases ms.len(),
{
    if ms.len() == 0 {
        Seq::empty()
    } else if ms.last().ref_index == r {
        of_ref(ms.drop_last(), r).push(ms.last())
    } else {
        of_ref(ms.drop_last(), r)
    }
}

/// How many matches each reference has.
fn match_counts(ms: &Vec<Match>, nrefs: usize) -> (counts: Vec<usize>)
    requires
        forall|k: int| 0 <= k < ms.len() ==> (#[trigger] ms[k]).ref_index < nrefs,
    ensures
        counts.len() == nrefs,
        forall|r: int| 0 <= r < nrefs ==> #[trigger] counts[r] == of_ref(ms@, r).len(),
{
    let mut counts: Vec<usize> = Vec::new();
    let mut r: usize = 0;
    while r < nrefs
        invariant
            r <= nrefs,
            counts.len() == r,
            forall|x: int| 0 <= x < r ==> counts[x] == 0,
        decreases nrefs - r,
    {
        counts.push(0);
        r += 1;
    }
    let mut i: usize = 0;
    while i < ms.len()
        invariant
            i <= ms.len(),
            counts.len() == nrefs,
            forall|k: int| 0 <= k < ms.len() ==> (#[trigger] ms[k]).ref_index < nrefs,
            forall|x: int| 0 <= x < nrefs ==> #[trigger] counts[x] == of_ref(ms@.take(i as int), x).len(),
        decreases ms.len() - i,
    {
        assert(ms@.take(i + 1).drop_last() =~= ms@.take(i as int));
        assert(ms@.take(i + 1).last() == ms@[i as int]);
        let x = ms[i].ref_index;
        proof {
            lemma_of_ref_len(ms@.take(i as int), x as int);
        }
        let c = counts[x];
        let ghost old_counts = counts@;
        counts.set(x, c + 1);
        assert forall|y: int| 0 <= y < nrefs implies #[trigger] counts[y] == of_ref(ms@.take(i + 1), y).len() by {
            if y != x {
                assert(counts[y] == old_counts[y]);
            }
        }
        i += 1;
    }
    assert(ms@.take(i as int) =~= ms@);
    counts
}

/// How many matches have time offset `d`.
pub open spec fn count_delta(ms: Seq<Match>, d: int) -> nat
    decreases ms.len(),
{
    if ms.len() == 0 {
        0
    } else {
        count_delta(ms.drop_last(), d) + if ms.last().delta() == d {
            1nat
        } else {
            0nat
        }
    }
}

/// `d` is the most frequent time offset, the smallest one among equals.
pub open spec fn is_best_delta(ms: Seq<Match>, d: int) -> bool {
    &&& forall|e: int| count_delta(ms, e) <= count_delta(ms, d)
    &&& forall|e: int| e < d ==> count_delta(ms, e) < count_delta(ms, d)
}

/// The matches whose time offset is within two frames of `d`, in order.
pub open spec fn near(ms: Seq<Match>, d: int) -> Seq<Match>
    decreases ms.len(),
{
    if ms.len() == 0 {
        Seq::empty()
    } else if d - 2 <= ms.last().delta() <= d + 2 {
        near(ms.drop_last(), d).push(ms.last())
    } else {
        near(ms.drop_last(), d)
    }
}

proof fn lemma_count_delta_present(ms: Seq<Match>, d: int)
    ensures
        count_delta(ms, d) <= ms.len(),
        count_delta(ms, d) > 0 ==> exists|j: int| 0 <= j < ms.len() && ms[j].delta() == d,
    decreases ms.len(),
{
    if ms.len() > 0 {
        lemma_count_delta_present(ms.drop_last(), d);
        if count_delta(ms.drop_last(), d) > 0 {
            let j = choose|j: int| 0 <= j < ms.drop_last().len() && ms.drop_last()[j].delta() == d;
            assert(ms[j] == ms.drop_last()[j]);
        }
        if ms.last().delta() == d {
            assert(ms[ms.len() - 1].delta() == d);
        }
    }
}

proof fn lemma_count_delta_member(ms: Seq<Match>, j: int)
    requires
        0 <= j < ms.len(),
    ensures
        count_delta(ms, ms[j].delta()) > 0,
    decreases ms.len(),
{
    if j < ms.len() - 1 {
        assert(ms.drop_last()[j] == ms[j]);
        lemma_count_delta_member(ms.drop_last(), j);
    }
}

/// The matches of reference `r`, in order.
pub fn matches_of_ref(ms: &Vec<Match>, r: usize) -> (out: Vec<Match>)
    ensures
        out@ == of_ref(ms@, r as int),
{
    let mut out: Vec<Match> = Vec::new();
    let mut i: usize = 0;
    while i < ms.len()
        invariant
            i <= ms.len(),
            out@ == of_ref(ms@.take(i as int), r as int),
        decreases ms.len() - i,
    {
        assert(ms@.take(i + 1).drop_last() =~= ms@.take(i as int));
        if ms[i].ref_index == r {
            out.push(ms[i]);
        }
        i += 1;
    }
    assert(ms@.take(i as int) =~= ms@);
    out
}

/// The count that a histogram holds for `d`, zero where it has no entry.
pub open spec fn hist_count(h: Map<i64, usize>, d: i64) -> int {
    if h.contains_key(d) {
        h[d] as int
    } else {
        0
    }
}

/// How many matches have each time offset.
fn offset_histogram(ms: &Vec<Match>) -> (h: HashMap<i64, usize>)
    ensures
        forall|d: i64| #[trigger] hist_count(h@, d) == count_delta(ms@, d as int),
{
    let mut h: HashMap<i64, usize> = HashMap::new();
    let mut i: usize = 0;
    while i < ms.len()
        invariant
            i <= ms.len(),
            forall|d: i64| #[trigger] hist_count(h@, d) == count_delta(ms@.take(i as int), d as int),
        decreases ms.len() - i,
    {
        assert(ms@.take(i + 1).drop_last() =~= ms@.take(i as int));
        assert(ms@.take(i + 1).last() == ms@[i as int]);
        let e = ms[i].delta_t();
        proof {
            lemma_count_delta_present(ms@.take(i as int), e as int);
        }
        assert(hist_count(h@, e) == count_delta(ms@.take(i as int), e as int));
        let c: usize = match h.get(&e) {
            Some(c) => *c,
            None => 0,
        };
        assert(c == count_delta(ms@.take(i as int), e as int));
        let ghost old_h = h@;
        h.insert(e, c + 1);
        assert forall|d: i64| #[trigger] hist_count(h@, d) == count_delta(ms@.take(i + 1), d as int) by {
            if d != e {
                assert(hist_count(old_h, d) == count_delta(ms@.take(i as int), d as int));
            }
        }
        i += 1;
    }
    assert(ms@.take(i as int) =~= ms@);
    h
}

/// The most frequent time offset, the smallest among equals, with its count.
pub fn best_offset(ms: &Vec<Match>) -> (r: (i64, usize))
    requires
        ms.len() > 0,
    ensures
        is_best_delta(ms@, r.0 as int),
        r.1 == count_delta(ms@, r.0 as int),
        r.1 > 0,
{
    let hist = offset_histogram(ms);
    let mut best = ms[0].delta_t();
    let mut best_count: usize = match hist.get(&best) {
        Some(c) => *c,
        None => 0,
    };
    assert(best_count == hist_count(hist@, best));
    proof {
        lemma_count_delta_member(ms@, 0);
    }
    let mut i: usize = 1;
    while i < ms.len()
        invariant
            1 <= i <= ms.len(),
            forall|d: i64| #[trigger] hist_count(hist@, d) == count_delta(ms@, d as int),
            best_count == count_delta(ms@, best as int),
            best_count > 0,
            forall|j: int|
                0 <= j < i ==> count_delta(ms@, ms[j].delta()) <= best_count && (count_delta(
                    ms@,
                    #[trigger] ms[j].delta(),
                ) == best_count ==> best <= ms[j].delta()),
        decreases ms.len() - i,
    {
        let d = ms[i].delta_t();
        let c: usize = match hist.get(&d) {
            Some(c) => *c,
            None => 0,
        };
        assert(c == hist_count(hist@, d));
        if c > best_count || (c == best_count && d < best) {
            best = d;
            best_count = c;
        }
        i += 1;
    }
    proof {
        assert forall|e: int| count_delta(ms@, e) <= count_delta(ms@, best as int) && (e < best
            ==> count_delta(ms@, e) < count_delta(ms@, best as int)) by {
            lemma_count_delta_present(ms@, e);
            if count_delta(ms@, e) > 0 {
                let j = choose|j: int| 0 <= j < ms@.len() && ms@[j].delta() == e;
                assert(count_delta(ms@, ms[j].delta()) <= best_count);
            }
        }
    }
    (best, best_count)
}

/// The matches within two frames of offset `d`, in order.
pub fn aligned_matches(ms: &Vec<Match>, d: i64) -> (out: Vec<Match>)
    ensures
        out@ == near(ms@, d as int),
{
    let mut out: Vec<Match> = Vec::new();
    let mut i: usize = 0;
    while i < ms.len()
        invariant
            i <= ms.len(),
            out@ == near(ms@.take(i as int), d as int),
        decreases ms.len() - i,
    {
        assert(ms@.take(i + 1).drop_last() =~= ms@.take(i as int));
        let e = ms[i].delta_t();
        let gap: i128 = (e as i128) - (d as i128);
        if -2 <= gap && gap <= 2 {
            out.push(ms[i]);
        }
        i += 1;
    }
    assert(ms@.take(i as int) =~= ms@);
    out
}


/// The query time of a match, or its reference time.
pub open spec fn time_of(m: Match, query_side: bool) -> int {
    if query_side {
        m.query_time as int
    } else {
        m.match_time as int
    }
}

/// The smallest query (or reference) time of the matches.
pub open spec fn min_time(ms: Seq<Match>, query_side: bool) -> int
    decreases ms.len(),
{
    if ms.len() == 0 {
        0
    } else if ms.len() == 1 {
        time_of(ms[0], query_side)
    } else {
        let a = min_time(ms.drop_last(), query_side);
        let b = time_of(ms.last(), query_side);
        if b < a {
            b
        } else {
            a
        }
    }
}

/// The largest query (or reference) time of the matches.
pub open spec fn max_time(ms: Seq<Match>, query_side: bool) -> int
    decreases ms.len(),
{
    if ms.len() == 0 {
        0
    } else if ms.len() == 1 {
        time_of(ms[0], query_side)
    } else {
        let a = max_time(ms.drop_last(), query_side);
        let b = time_of(ms.last(), query_side);
        if b > a {
            b
        } else {
            a
        }
    }
}

/// The smallest and largest query (or reference) time of the matches.
pub fn time_span(ms: &Vec<Match>, query_side: bool) -> (r: (i32, i32))
    requires
        ms.len() > 0,
    ensures
        r.0 == min_time(ms@, query_side),
        r.1 == max_time(ms@, query_side),
{
    let first = if query_side {
        ms[0].query_time
    } else {
        ms[0].match_time
    };
    let mut lo = first;
    let mut hi = first;
    let mut i: usize = 1;
    assert(ms@.take(1).drop_last() =~= Seq::<Match>::empty());
    assert(ms@.take(1)[0] == ms@[0]);
    while i < ms.len()
        invariant
            1 <= i <= ms.len(),
            lo == min_time(ms@.take(i as int), query_side),
            hi == max_time(ms@.take(i as int), query_side),
        decreases ms.len() - i,
    {
        assert(ms@.take(i + 1).drop_last() =~= ms@.take(i as int));
        let v = if query_side {
            ms[i].query_time
        } else {
            ms[i].match_time
        };
        if v < lo {
            lo = v;
        }
        if v > hi {
            hi = v;
        }
        i += 1;
    }
    assert(ms@.take(i as int) =~= ms@);
    (lo, hi)
}

/// The sum of the query times.
pub open spec fn sum_x(ms: Seq<Match>) -> int
    decreases ms.len(),
{
    if ms.len() == 0 {
        0
    } else {
        sum_x(ms.drop_last()) + ms.last().query_time
    }
}

/// The sum of the reference times.
pub open spec fn sum_y(ms: Seq<Match>) -> int
    decreases ms.len(),
{
    if ms.len() == 0 {
        0
    } else {
        sum_y(ms.drop_last()) + ms.last().match_time
    }
}

/// The sum of query time times reference time.
pub open spec fn sum_xy(ms: Seq<Match>) -> int
    decreases ms.len(),
{
    if ms.len() == 0 {
        0
    } else {
        sum_xy(ms.drop_last()) + ms.last().query_time * ms.last().match_time
    }
}

/// The sum of the squared query times.
pub open spec fn sum_xx(ms: Seq<Match>) -> int
    decreases ms.len(),
{
    if ms.len() == 0 {
        0
    } else {
        sum_xx(ms.drop_last()) + ms.last().query_time * ms.last().query_time
    }
}

/// Numerator of the least-squares slope of reference time on query time.
pub open spec fn slope_num(ms: Seq<Match>) -> int {
    ms.len() * sum_xy(ms) - sum_x(ms) * sum_y(ms)
}

/// Denominator of the least-squares slope of reference time on query time.
pub open spec fn slope_den(ms: Seq<Match>) -> int {
    ms.len() * sum_xx(ms) - sum_x(ms) * sum_x(ms)
}

/// The slope `num / den` as a fraction with a positive denominator, clamped
/// to `[1/2, 2]`; one where the slope is undefined.
pub open spec fn time_factor_of(ms: Seq<Match>) -> (int, int) {
    let num = slope_num(ms);
    let den = slope_den(ms);
    if ms.len() < 2 || den == 0 {
        (1, 1)
    } else {
        let n = if den < 0 {
            -num
        } else {
            num
        };
        let d = if den < 0 {
            -den
        } else {
            den
        };
        if 2 * n < d {
            (1, 2)
        } else if n > 2 * d {
            (2, 1)
        } else {
            (n, d)
        }
    }
}

/// The most aligned matches whose regression sums `time_factor` computes
/// exactly in 128 bits (some 32 GiB of matches for one reference).
pub const MAX_ALIGNED: usize = 0x7FFF_FFFF;

/// The score of a detection: its aligned matches, counted up to
/// `MAX_ALIGNED`.
pub open spec fn score_of(al: Seq<Match>) -> int {
    if al.len() <= MAX_ALIGNED {
        al.len() as int
    } else {
        MAX_ALIGNED as int
    }
}

/// The tempo estimate of a detection: the regression slope, or one beyond
/// `MAX_ALIGNED` aligned matches.
pub open spec fn tempo_of(al: Seq<Match>) -> (int, int) {
    if al.len() <= MAX_ALIGNED {
        time_factor_of(al)
    } else {
        (1, 1)
    }
}

/// The tempo estimate of a detection as a fraction `(num, den)`.
pub fn time_factor(ms: &Vec<Match>) -> (r: (i128, i128))
    requires
        ms.len() <= MAX_ALIGNED,
    ensures
        r.0 == time_factor_of(ms@).0,
        r.1 == time_factor_of(ms@).1,
        r.1 > 0,
{
    let n = ms.len();
    let mut sx: i128 = 0;
    let mut sy: i128 = 0;
    let mut sxy: i128 = 0;
    let mut sxx: i128 = 0;
    let mut i: usize = 0;
    while i < n
        invariant
            n == ms.len() <= MAX_ALIGNED,
            i <= n,
            sx == sum_x(ms@.take(i as int)),
            sy == sum_y(ms@.take(i as int)),
            sxy == sum_xy(ms@.take(i as int)),
            sxx == sum_xx(ms@.take(i as int)),
            -(i * 0x8000_0000) <= sx <= i * 0x8000_0000,
            -(i * 0x8000_0000) <= sy <= i * 0x8000_0000,
            -(i * 0x4000_0000_0000_0000) <= sxy <= i * 0x4000_0000_0000_0000,
            0 <= sxx <= i * 0x4000_0000_0000_0000,
        decreases n - i,
    {
        assert(ms@.take(i + 1).drop_last() =~= ms@.take(i as int));
        let x = ms[i].query_time as i128;
        let y = ms[i].match_time as i128;
        assert(-0x4000_0000_0000_0000 <= x * y <= 0x4000_0000_0000_0000) by (nonlinear_arith)
            requires
                -0x8000_0000 <= x <= 0x8000_0000,
                -0x8000_0000 <= y <= 0x8000_0000,
        ;
        assert(0 <= x * x <= 0x4000_0000_0000_0000) by (nonlinear_arith)
            requires
                -0x8000_0000 <= x <= 0x8000_0000,
        ;
        sx = sx + x;
        sy = sy + y;
        sxy = sxy + x * y;
        sxx = sxx + x * x;
        i += 1;
    }
    assert(ms@.take(i as int) =~= ms@);
    let nn = n as i128;
    assert(-0x1000_0000_0000_0000_0000_0000_0000_0000 <= nn * sxy <= 0x1000_0000_0000_0000_0000_0000_0000_0000)
        by (nonlinear_arith)
        requires
            0 <= nn <= 0x7FFF_FFFF,
            -(nn * 0x4000_0000_0000_0000) <= sxy <= nn * 0x4000_0000_0000_0000,
    ;
    assert(0 <= nn * sxx <= 0x1000_0000_0000_0000_0000_0000_0000_0000) by (nonlinear_arith)
        requires
            0 <= nn <= 0x7FFF_FFFF,
            0 <= sxx <= nn * 0x4000_0000_0000_0000,
    ;
    assert(-0x1000_0000_0000_0000_0000_0000_0000_0000 <= sx * sy <= 0x1000_0000_0000_0000_0000_0000_0000_0000)
        by (nonlinear_arith)
        requires
            0 <= nn <= 0x7FFF_FFFF,
            -(nn * 0x8000_0000) <= sx <= nn * 0x8000_0000,
            -(nn * 0x8000_0000) <= sy <= nn * 0x8000_0000,
    ;
    assert(0 <= sx * sx <= 0x1000_0000_0000_0000_0000_0000_0000_0000) by (nonlinear_arith)
        requires
            0 <= nn <= 0x7FFF_FFFF,
            -(nn * 0x8000_0000) <= sx <= nn * 0x8000_0000,
    ;
    let num = nn * sxy - sx * sy;
    let den = nn * sxx - sx * sx;
    if n < 2 || den == 0 {
        (1, 1)
    } else {
        let (p, q) = if den < 0 {
            (-num, -den)
        } else {
            (num, den)
        };
        if 2 * p < q {
            (1, 2)
        } else if p > 2 * q {
            (2, 1)
        } else {
            (p, q)
        }
    }
}


/// The second in which frame `t` falls (8 ms per frame).
pub open spec fn second_of(t: int) -> int {
    (t * 8) / 1000
}

/// The distinct seconds of the query times, in order of first appearance.
pub open spec fn second_list(ms: Seq<Match>) -> Seq<int>
    decreases ms.len(),
{
    if ms.len() == 0 {
        Seq::empty()
    } else {
        let before = second_list(ms.drop_last());
        let sec = second_of(ms.last().query_time as int);
        if before.contains(sec) {
            before
        } else {
            before.push(sec)
        }
    }
}

/// The seconds that a query window `[start, stop]` of frames spans,
/// rounded up.
pub open spec fn window_seconds(start: int, stop: int) -> int {
    ((stop - start) * 8 + 999) / 1000
}

/// The share of the query's seconds that hold a match, as `(covered, total)`,
/// capped at one; `(0, 1)` where there is no window.
pub open spec fn coverage_of(ms: Seq<Match>, start: int, stop: int) -> (int, int) {
    let total = window_seconds(start, stop);
    let covered = second_list(ms).len() as int;
    if ms.len() == 0 || stop <= start || total <= 0 {
        (0, 1)
    } else if covered > total {
        (total, total)
    } else {
        (covered, total)
    }
}

/// The second in which frame `t` falls, rounded down.
fn second_index(t: i32) -> (r: i64)
    ensures
        r == second_of(t as int),
{
    let x: i64 = (t as i64) * 8;
    if x >= 0 {
        x / 1000
    } else {
        let r = -((-x + 999) / 1000);
        assert(r == (x as int) / 1000) by (nonlinear_arith)
            requires
                x < 0,
                r == -((-x + 999) / 1000),
        ;
        r
    }
}

/// The share of the query's seconds in `[query_start, query_stop]` that hold
/// a match, as the fraction `(covered, total)`.
pub fn coverage(ms: &Vec<Match>, query_start: i32, query_stop: i32) -> (r: (u64, u64))
    ensures
        r.0 == coverage_of(ms@, query_start as int, query_stop as int).0,
        r.1 == coverage_of(ms@, query_start as int, query_stop as int).1,
        r.0 <= r.1,
        r.1 > 0,
{
    if ms.len() == 0 || query_stop <= query_start {
        return (0, 1);
    }
    let span: i64 = (query_stop as i64) - (query_start as i64);
    let total: i64 = (span * 8 + 999) / 1000;
    if total <= 0 {
        return (0, 1);
    }
    let mut seen: Vec<i64> = Vec::new();
    let mut i: usize = 0;
    while i < ms.len()
        invariant
            i <= ms.len(),
            seen@.map_values(|x: i64| x as int) == second_list(ms@.take(i as int)),
            seen.len() <= i,
        decreases ms.len() - i,
    {
        assert(ms@.take(i + 1).drop_last() =~= ms@.take(i as int));
        let sec = second_index(ms[i].query_time);
        assert(ms@.take(i + 1).last() == ms@[i as int]);
        let ghost before = second_list(ms@.take(i as int));
        let mut found = false;
        let mut j: usize = 0;
        while j < seen.len()
            invariant
                j <= seen.len(),
                seen@.map_values(|x: i64| x as int) == before,
                found <==> exists|k: int| 0 <= k < j && seen[k] == sec,
            decreases seen.len() - j,
        {
            if seen[j] == sec {
                found = true;
            }
            j += 1;
        }
        proof {
            if found {
                let k = choose|k: int| 0 <= k < j && seen[k] == sec;
                assert(before[k] == sec);
            } else {
                assert forall|k: int| 0 <= k < before.len() implies before[k] != sec as int by {
                    assert(before[k] == seen[k] as int);
                }
            }
        }
        if !found {
            seen.push(sec);
            assert(seen@.map_values(|x: i64| x as int) =~= before.push(sec as int));
        }
        i += 1;
    }
    assert(ms@.take(i as int) =~= ms@);
    let covered = seen.len() as u64;
    if covered > total as u64 {
        (total as u64, total as u64)
    } else {
        (covered, total as u64)
    }
}

/// The pitch ratios `(reference f1, query f1)` of the matches with both bins
/// positive and the ratio within `[1/4, 4]`, in order.
pub open spec fn ratio_list(ms: Seq<Match>) -> Seq<(int, int)>
    decreases ms.len(),
{
    if ms.len() == 0 {
        Seq::empty()
    } else {
        let before = ratio_list(ms.drop_last());
        let m = ms.last();
        let r = m.match_f1 as int;
        let q = m.query_f1 as int;
        if q > 0 && r > 0 && q <= 4 * r && r <= 4 * q {
            before.push((r, q))
        } else {
            before
        }
    }
}

/// A key that orders ratios `a / b` of positive 15-bit bins exactly: two
/// such ratios that differ do so by at least `2^-30`, and the key scales
/// them by `2^32`.
pub open spec fn ratio_key(x: (int, int)) -> int {
    (x.0 * 0x1_0000_0000) / x.1
}

/// The ordering keys of a list of ratios.
pub open spec fn ratio_keys(rs: Seq<(int, int)>) -> Seq<i64> {
    rs.map_values(|x: (int, int)| ratio_key(x) as i64)
}

/// The median of the ratios, read in the order `order`: the middle one, or
/// the mean of the two middle ones; one where there are none.
pub open spec fn median_by(rs: Seq<(int, int)>, order: Seq<usize>) -> (int, int) {
    let n = rs.len();
    if n == 0 {
        (1, 1)
    } else if n % 2 == 1 {
        rs[order[(n / 2) as int] as int]
    } else {
        let a = rs[order[(n / 2 - 1) as int] as int];
        let b = rs[order[(n / 2) as int] as int];
        (a.0 * b.1 + b.0 * a.1, 2 * a.1 * b.1)
    }
}

/// The pitch estimate of a detection: the median of the kept ratios as a
/// fraction `(num, den)`, one where none is kept.
pub fn frequency_factor(ms: &Vec<Match>) -> (r: (i64, i64))
    ensures
        r.1 > 0,
        exists|order: Seq<usize>|
            is_key_order(ratio_keys(ratio_list(ms@)), order) && (
            r.0 as int, r.1 as int) == median_by(ratio_list(ms@), order),
{
    let mut nums: Vec<i64> = Vec::new();
    let mut dens: Vec<i64> = Vec::new();
    let mut keys: Vec<i64> = Vec::new();
    let mut i: usize = 0;
    while i < ms.len()
        invariant
            i <= ms.len(),
            nums.len() == dens.len() == keys.len() == ratio_list(ms@.take(i as int)).len(),
            forall|k: int|
                0 <= k < nums.len() ==> (#[trigger] nums[k] as int, dens[k] as int) == ratio_list(
                    ms@.take(i as int),
                )[k],
            forall|k: int| 0 <= k < nums.len() ==> 0 < #[trigger] nums[k] < 0x8000,
            forall|k: int| 0 <= k < dens.len() ==> 0 < #[trigger] dens[k] < 0x8000,
            forall|k: int|
                0 <= k < keys.len() ==> #[trigger] keys[k] as int == ratio_key(
                    (nums[k] as int, dens[k] as int),
                ),
        decreases ms.len() - i,
    {
        assert(ms@.take(i + 1).drop_last() =~= ms@.take(i as int));
        let r = ms[i].match_f1 as i64;
        let q = ms[i].query_f1 as i64;
        let ghost before = ratio_list(ms@.take(i as int));
        assert(ms@.take(i + 1).last() == ms@[i as int]);
        if q > 0 && r > 0 && q <= 4 * r && r <= 4 * q {
            assert(ratio_list(ms@.take(i + 1)) == before.push((r as int, q as int)));
            nums.push(r);
            dens.push(q);
            assert(0 <= r * 0x1_0000_0000 < 0x8000_0000_0000) by (nonlinear_arith)
                requires
                    0 < r < 0x8000,
            ;
            keys.push((r * 0x1_0000_0000) / q);
        }
        assert forall|k: int| 0 <= k < nums.len() implies (#[trigger] nums[k] as int, dens[k] as int)
            == ratio_list(ms@.take(i + 1))[k] by {
            if k < before.len() {
                assert(ratio_list(ms@.take(i + 1))[k] == before[k]);
            }
        }
        i += 1;
    }
    assert(ms@.take(i as int) =~= ms@);
    let ghost rs = ratio_list(ms@);
    assert(keys@ =~= ratio_keys(rs));
    let order = stable_order(&keys);
    let n = nums.len();
    assert(is_key_order(ratio_keys(rs), order@));
    if n == 0 {
        proof {
            assert(median_by(rs, order@) == (1int, 1int));
        }
        (1, 1)
    } else if n % 2 == 1 {
        let k = order[n / 2];
        assert((nums[k as int] as int, dens[k as int] as int) == ratio_list(ms@.take(i as int))[k as int]);
        assert(rs.len() == n);
        assert(median_by(rs, order@) == (nums[k as int] as int, dens[k as int] as int));
        (nums[k], dens[k])
    } else {
        let a = order[n / 2 - 1];
        let b = order[n / 2];
        let (an, ad, bn, bd) = (nums[a], dens[a], nums[b], dens[b]);
        assert(0 < nums[a as int] < 0x8000 && 0 < dens[a as int] < 0x8000);
        assert(0 < nums[b as int] < 0x8000 && 0 < dens[b as int] < 0x8000);
        assert((nums[a as int] as int, dens[a as int] as int) == ratio_list(ms@.take(i as int))[a as int]);
        assert((nums[b as int] as int, dens[b as int] as int) == ratio_list(ms@.take(i as int))[b as int]);
        assert(0 < an * bd < 0x4000_0000 && 0 < bn * ad < 0x4000_0000 && 0 < ad * bd < 0x4000_0000
            && 0 < 2 * ad * bd < 0x8000_0000) by (nonlinear_arith)
            requires
                0 < an < 0x8000,
                0 < ad < 0x8000,
                0 < bn < 0x8000,
                0 < bd < 0x8000,
        ;
        assert(rs.len() == n);
        assert(median_by(rs, order@) == ((an * bd + bn * ad) as int, (2 * ad * bd) as int));
        (an * bd + bn * ad, 2 * ad * bd)
    }
}


/// One detection: where the query and the reference line up and how well.
/// Times are in milliseconds (8 ms per frame); the factors are fractions
/// `(numerator, denominator)`.
#[derive(Debug)]
pub struct QueryResult {
    pub query_path: String,
    pub query_start_ms: i64,
    pub query_stop_ms: i64,
    pub ref_identifier: Option<String>,
    pub ref_start_ms: i64,
    pub ref_stop_ms: i64,
    pub score: i32,
    pub time_factor: (i128, i128),
    pub frequency_factor: (i64, i64),
    pub seconds_with_match: (u64, u64),
    pub ref_duration_ms: Option<u32>,
    pub absolute_start_ms: Option<i64>,
    pub absolute_end_ms: Option<i64>,
    pub segment_index: Option<usize>,
}

impl QueryResult {
    /// A result that names no reference.
    pub fn empty(query_path: String, query_start_ms: i64, query_stop_ms: i64) -> (r: QueryResult)
        ensures
            r.query_path == query_path,
            r.query_start_ms == query_start_ms,
            r.query_stop_ms == query_stop_ms,
            r.ref_identifier is None,
            r.ref_start_ms == -1000,
            r.ref_stop_ms == -1000,
            r.score == -1,
            r.time_factor == (-1i128, 1i128),
            r.frequency_factor == (-1i64, 1i64),
            r.seconds_with_match == (0u64, 1u64),
            r.ref_duration_ms is None,
            r.absolute_start_ms is None,
            r.absolute_end_ms is None,
            r.segment_index is None,
    {
        QueryResult {
            query_path,
            query_start_ms,
            query_stop_ms,
            ref_identifier: None,
            ref_start_ms: -1000,
            ref_stop_ms: -1000,
            score: -1,
            time_factor: (-1, 1),
            frequency_factor: (-1, 1),
            seconds_with_match: (0, 1),
            ref_duration_ms: None,
            absolute_start_ms: None,
            absolute_end_ms: None,
            segment_index: None,
        }
    }
}

/// The fewest matches, and the fewest aligned matches, that make a detection.
pub const MIN_MATCHES: usize = 5;

/// The best time offset of the matches `g` (there is exactly one).
pub open spec fn best_delta_of(g: Seq<Match>) -> int {
    choose|d: int| is_best_delta(g, d)
}

proof fn lemma_best_delta_unique(g: Seq<Match>, d: int)
    requires
        is_best_delta(g, d),
    ensures
        best_delta_of(g) == d,
{
    let e = best_delta_of(g);
    assert(is_best_delta(g, e));
    if e < d {
        assert(count_delta(g, e) < count_delta(g, d));
    } else if d < e {
        assert(count_delta(g, d) < count_delta(g, e));
    }
}

/// The matches of reference `r` that agree with its best offset.
pub open spec fn aligned_of(ms: Seq<Match>, r: int) -> Seq<Match> {
    near(of_ref(ms, r), best_delta_of(of_ref(ms, r)))
}

/// Reference `r` has enough matches, enough votes for its best offset and
/// enough aligned matches.
pub open spec fn qualifies(ms: Seq<Match>, r: int) -> bool {
    &&& of_ref(ms, r).len() >= MIN_MATCHES
    &&& count_delta(of_ref(ms, r), best_delta_of(of_ref(ms, r))) >= MIN_MATCHES
    &&& aligned_of(ms, r).len() >= MIN_MATCHES
}

impl Matcher {
    /// `res` is the detection of reference `r` among the matches `ms`.
    pub open spec fn describes(
        &self,
        path: Seq<char>,
        ms: Seq<Match>,
        r: int,
        res: QueryResult,
    ) -> bool {
        let al = aligned_of(ms, r);
        let qs = 8 * min_time(al, true);
        let rs = 8 * min_time(al, false);
        &&& res.query_path@ == path
        &&& res.query_start_ms == qs
        &&& res.query_stop_ms == 8 * max_time(al, true)
        &&& res.ref_start_ms == rs
        &&& res.ref_stop_ms == 8 * max_time(al, false)
        &&& res.ref_identifier is Some && res.ref_identifier->Some_0@ == self.refs()[r]
        &&& res.score == score_of(al)
        &&& res.time_factor.0 == tempo_of(al).0
        &&& res.time_factor.1 == tempo_of(al).1
        &&& exists|order: Seq<usize>|
            is_key_order(ratio_keys(ratio_list(al)), order) && (
            res.frequency_factor.0 as int,
            res.frequency_factor.1 as int,
        ) == median_by(ratio_list(al), order)
        &&& res.seconds_with_match.0 == coverage_of(al, min_time(al, true), max_time(al, true)).0
        &&& res.seconds_with_match.1 == coverage_of(al, min_time(al, true), max_time(al, true)).1
        &&& res.ref_duration_ms == self.durations()[r]
        &&& match self.durations()[r] {
            Some(d) => res.absolute_start_ms == Some((qs - rs) as i64) && res.absolute_end_ms == Some(
                (qs - rs + d) as i64,
            ),
            None => res.absolute_start_ms is None && res.absolute_end_ms is None,
        }
        &&& res.segment_index is None
    }

    /// `out` holds the detection of each qualifying reference, once, by
    /// descending score, ties in reference order; `refs` names them.
    pub open spec fn ranked(
        &self,
        path: Seq<char>,
        ms: Seq<Match>,
        out: Seq<QueryResult>,
        refs: Seq<int>,
    ) -> bool {
        &&& refs.len() == out.len()
        &&& forall|n: int|
            0 <= n < out.len() ==> 0 <= refs[n] < self.refs().len() && qualifies(ms, refs[n])
                && self.describes(path, ms, refs[n], #[trigger] out[n])
        &&& forall|n: int, m: int| 0 <= n < m < refs.len() ==> refs[n] != refs[m]
        &&& forall|r: int| 0 <= r < self.refs().len() && qualifies(ms, r) ==> refs.contains(r)
        &&& forall|n: int, m: int|
            0 <= n < m < out.len() ==> out[n].score >= out[m].score && (out[n].score == out[m].score
                ==> refs[n] < refs[m])
    }

    /// `out` is the ranked list of detections for some naming of references.
    pub open spec fn ranks(&self, path: Seq<char>, ms: Seq<Match>, out: Seq<QueryResult>) -> bool {
        exists|refs: Seq<int>| self.ranked(path, ms, out, refs)
    }

    /// The detection of reference `r`.
    #[verifier::rlimit(30)]
    fn detection(&self, query_path: &str, g: &Vec<Match>, r: usize, d: i64) -> (res: QueryResult)
        requires
            self.wf(),
            r < self.refs().len(),
            d == best_delta_of(g@),
            near(g@, d as int).len() >= 1,
        ensures
            forall|ms: Seq<Match>|
                of_ref(ms, r as int) == g@ ==> self.describes(query_path@, ms, r as int, res),
    {
        let al = aligned_matches(g, d);
        let (q0, q1) = time_span(&al, true);
        let (r0, r1) = time_span(&al, false);
        let (tf, score) = if al.len() <= MAX_ALIGNED {
            (time_factor(&al), al.len() as i32)
        } else {
            ((1i128, 1i128), MAX_ALIGNED as i32)
        };
        let ff = frequency_factor(&al);
        let cov = coverage(&al, q0, q1);
        let qs: i64 = 8 * (q0 as i64);
        let rs: i64 = 8 * (r0 as i64);
        let dur = self.ref_durations[r];
        let (abs_start, abs_end) = match dur {
            Some(ms) => (Some(qs - rs), Some(qs - rs + ms as i64)),
            None => (None, None),
        };
        let id = self.ref_ids[r].clone();
        let res = QueryResult {
            query_path: query_path.to_owned(),
            query_start_ms: qs,
            query_stop_ms: 8 * (q1 as i64),
            ref_identifier: Some(id),
            ref_start_ms: rs,
            ref_stop_ms: 8 * (r1 as i64),
            score,
            time_factor: tf,
            frequency_factor: ff,
            seconds_with_match: cov,
            ref_duration_ms: dur,
            absolute_start_ms: abs_start,
            absolute_end_ms: abs_end,
            segment_index: None,
        };
        assert(self.refs()[r as int] == self.ref_ids[r as int]@);
        res
    }

    /// Every detection of the query fingerprints, by descending score.
    pub fn query(&self, query_path: &str, query_fingerprints: &Vec<FingerprintTuple>) -> (r: Vec<
        QueryResult,
    >)
        requires
            self.wf(),
        ensures
            self.ranks(query_path@, candidates(self.postings(), query_fingerprints@), r@),
    {
        let ms = self.collect_matches(query_fingerprints);
        let ghost msv = ms@;
        // which references qualify, in reference order
        let mut found: Vec<usize> = Vec::new();
        let mut deltas: Vec<i64> = Vec::new();
        let mut keys: Vec<i64> = Vec::new();
        let nrefs = self.ref_ids.len();
        let counts = match_counts(&ms, nrefs);
        let mut r: usize = 0;
        while r < nrefs
            invariant
                self.wf(),
                nrefs == self.refs().len(),
                counts.len() == nrefs,
                forall|x: int| 0 <= x < nrefs ==> #[trigger] counts[x] == of_ref(msv, x).len(),
                msv == ms@,
                msv == candidates(self.postings(), query_fingerprints@),
                r <= nrefs,
                found.len() == deltas.len() == keys.len(),
                forall|k: int| 0 <= k < found.len() ==> #[trigger] found[k] < r,
                forall|k: int, l: int| 0 <= k < l < found.len() ==> found[k] < found[l],
                forall|k: int|
                    0 <= k < found.len() ==> qualifies(msv, #[trigger] found[k] as int) && deltas[k]
                        == best_delta_of(of_ref(msv, found[k] as int)) && keys[k] == -score_of(
                        aligned_of(msv, found[k] as int),
                    ),
                forall|x: int| 0 <= x < r && qualifies(msv, x) ==> lists(found@, x),
            decreases nrefs - r,
        {
            let mut ok = false;
            let mut dd: i64 = 0;
            let mut score: usize = 0;
            if counts[r] >= MIN_MATCHES {
                let g = matches_of_ref(&ms, r);
                proof {
                    lemma_of_ref_len(msv, r as int);
                }
                let (d, c) = best_offset(&g);
                proof {
                    lemma_best_delta_unique(g@, d as int);
                }
                if c >= MIN_MATCHES {
                    let al = aligned_matches(&g, d);
                    proof {
                        lemma_near_len(g@, d as int);
                    }
                    if al.len() >= MIN_MATCHES {
                        ok = true;
                        dd = d;
                        score = if al.len() <= MAX_ALIGNED {
                            al.len()
                        } else {
                            MAX_ALIGNED
                        };
                    }
                    assert(ok == qualifies(msv, r as int));
                } else {
                    assert(!qualifies(msv, r as int));
                }
            } else {
                assert(!qualifies(msv, r as int));
            }
            assert(ok ==> dd == best_delta_of(of_ref(msv, r as int)) && score == score_of(
                aligned_of(msv, r as int),
            ));
            let ghost old_found = found@;
            if ok {
                found.push(r);
                deltas.push(dd);
                keys.push(-(score as i64));
            }
            proof {
                assert forall|x: int| 0 <= x < r + 1 && qualifies(msv, x) implies lists(found@, x) by {
                    if x == r {
                        assert(found[found.len() - 1] == r);
                    } else {
                        assert(lists(old_found, x));
                        let i = choose|i: int| 0 <= i < old_found.len() && old_found[i] == x as usize;
                        assert(found[i] == old_found[i]);
                    }
                }
            }
            r += 1;
        }
        let order = stable_order(&keys);
        let mut out: Vec<QueryResult> = Vec::new();
        let ghost mut refs: Seq<int> = Seq::empty();
        let mut a: usize = 0;
        while a < order.len()
            invariant
                self.wf(),
                nrefs == self.refs().len(),
                msv == ms@,
                msv == candidates(self.postings(), query_fingerprints@),
                found.len() == deltas.len() == keys.len(),
                is_key_order(keys@, order@),
                forall|k: int| 0 <= k < found.len() ==> #[trigger] found[k] < nrefs,
                forall|k: int, l: int| 0 <= k < l < found.len() ==> found[k] < found[l],
                forall|k: int|
                    0 <= k < found.len() ==> qualifies(msv, #[trigger] found[k] as int) && deltas[k]
                        == best_delta_of(of_ref(msv, found[k] as int)) && keys[k] == -score_of(
                        aligned_of(msv, found[k] as int),
                    ),
                a <= order.len(),
                out.len() == a,
                refs.len() == a,
                forall|n: int| 0 <= n < a ==> #[trigger] refs[n] == found[order[n] as int] as int,
                forall|n: int|
                    0 <= n < a ==> self.describes(query_path@, msv, refs[n], #[trigger] out[n]),
            decreases order.len() - a,
        {
            let k = order[a];
            let rr = found[k];
            let g = matches_of_ref(&ms, rr);
            proof {
                lemma_of_ref_len(msv, rr as int);
            }
            let res = self.detection(query_path, &g, rr, deltas[k]);
            out.push(res);
            proof {
                refs = refs.push(rr as int);
            }
            a += 1;
        }
        proof {
            self.lemma_ranked(query_path@, msv, found@, keys@, order@, out@, refs);
            assert(self.ranked(
                query_path@,
                candidates(self.postings(), query_fingerprints@),
                out@,
                refs,
            ));
            assert(self.ranks(query_path@, candidates(self.postings(), query_fingerprints@), out@));
        }
        out
    }

    proof fn lemma_ranked(
        &self,
        path: Seq<char>,
        msv: Seq<Match>,
        found: Seq<usize>,
        keys: Seq<i64>,
        order: Seq<usize>,
        out: Seq<QueryResult>,
        refs: Seq<int>,
    )
        requires
            found.len() == keys.len(),
            is_key_order(keys, order),
            forall|k: int| 0 <= k < found.len() ==> #[trigger] found[k] < self.refs().len(),
            forall|k: int, l: int| 0 <= k < l < found.len() ==> found[k] < found[l],
            forall|k: int|
                0 <= k < found.len() ==> qualifies(msv, #[trigger] found[k] as int) && keys[k] == -score_of(
                aligned_of(msv, found[k] as int),
            ),
            forall|x: int| 0 <= x < self.refs().len() && qualifies(msv, x) ==> lists(found, x),
            out.len() == order.len(),
            refs.len() == order.len(),
            forall|n: int| 0 <= n < order.len() ==> #[trigger] refs[n] == found[order[n] as int] as int,
            forall|n: int| 0 <= n < order.len() ==> self.describes(path, msv, refs[n], #[trigger] out[n]),
        ensures
            self.ranked(path, msv, out, refs),
    {
        assert forall|n: int, m: int| 0 <= n < m < out.len() implies out[n].score >= out[m].score && (
        out[n].score == out[m].score ==> refs[n] < refs[m]) && refs[n] != refs[m] by {
            assert(crate::order::key_less(keys, order[n] as int, order[m] as int));
            assert(self.describes(path, msv, refs[n], out[n]));
            assert(self.describes(path, msv, refs[m], out[m]));
            assert(refs[n] == found[order[n] as int] as int);
            assert(refs[m] == found[order[m] as int] as int);
            if order[n] < order[m] {
                assert(found[order[n] as int] < found[order[m] as int]);
            } else {
                assert(found[order[m] as int] < found[order[n] as int]);
            }
        }
        assert forall|n: int, m: int| 0 <= n < m < refs.len() implies refs[n] != refs[m] by {
            assert(out[n].score >= out[m].score);
        }
        assert forall|r: int| 0 <= r < self.refs().len() && qualifies(msv, r) implies refs.contains(r) by {
            assert(lists(found, r));
            let k = choose|k: int| 0 <= k < found.len() && found[k] as int == r;
            assert(crate::order::occurs(order, k));
            let n = choose|n: int| 0 <= n < order.len() && order[n] == k;
            assert(refs[n] == found[order[n] as int] as int);
            assert(refs[n] == r);
        }
        assert forall|n: int| 0 <= n < out.len() implies 0 <= refs[n] < self.refs().len() && qualifies(
            msv,
            refs[n],
        ) && self.describes(path, msv, refs[n], #[trigger] out[n]) by {
            assert(refs[n] == found[order[n] as int] as int);
        }
    }
}

/// `x` stands somewhere in `found`.
pub open spec fn lists(found: Seq<usize>, x: int) -> bool {
    exists|k: int| 0 <= k < found.len() && found[k] as int == x
}

proof fn lemma_of_ref_len(ms: Seq<Match>, r: int)
    ensures
        of_ref(ms, r).len() <= ms.len(),
    decreases ms.len(),
{
    if ms.len() > 0 {
        lemma_of_ref_len(ms.drop_last(), r);
    }
}

proof fn lemma_near_len(ms: Seq<Match>, d: int)
    ensures
        near(ms, d).len() <= ms.len(),
    decreases ms.len(),
{
    if ms.len() > 0 {
        lemma_near_len(ms.drop_last(), d);
    }
}


/// The matches with every reference time moved by `tau` frames.
pub open spec fn shift_refs(ms: Seq<Match>, tau: int) -> Seq<Match> {
    ms.map_values(|m: Match| Match { match_time: (m.match_time + tau) as i32, ..m })
}

/// The shifted reference times stay within `i32`.
pub open spec fn shift_fits(ms: Seq<Match>, tau: int) -> bool {
    forall|k: int| 0 <= k < ms.len() ==> i32::MIN <= #[trigger] ms[k].match_time + tau <= i32::MAX
}

proof fn lemma_shift_sums(ms: Seq<Match>, tau: int)
    requires
        shift_fits(ms, tau),
    ensures
        sum_x(shift_refs(ms, tau)) == sum_x(ms),
        sum_xx(shift_refs(ms, tau)) == sum_xx(ms),
        sum_y(shift_refs(ms, tau)) == sum_y(ms) + ms.len() * tau,
        sum_xy(shift_refs(ms, tau)) == sum_xy(ms) + tau * sum_x(ms),
        forall|d: int| count_delta(shift_refs(ms, tau), d + tau) == #[trigger] count_delta(ms, d),
    decreases ms.len(),
{
    let s = shift_refs(ms, tau);
    if ms.len() > 0 {
        let p = ms.drop_last();
        assert(shift_refs(p, tau) =~= s.drop_last());
        assert(shift_fits(p, tau)) by {
            assert forall|k: int| 0 <= k < p.len() implies i32::MIN <= #[trigger] p[k].match_time + tau
                <= i32::MAX by {
                assert(p[k] == ms[k]);
            }
        }
        lemma_shift_sums(p, tau);
        let m = ms.last();
        assert(i32::MIN <= ms[ms.len() - 1].match_time + tau <= i32::MAX);
        assert(s.last() == Match { match_time: (m.match_time + tau) as i32, ..m });
        assert(s.last().query_time * s.last().match_time == m.query_time * m.match_time + tau
            * m.query_time) by (nonlinear_arith)
            requires
                s.last().query_time == m.query_time,
                s.last().match_time == m.match_time + tau,
        ;
        assert(sum_y(s) == sum_y(ms) + ms.len() * tau) by (nonlinear_arith)
            requires
                sum_y(s) == sum_y(s.drop_last()) + s.last().match_time,
                sum_y(s.drop_last()) == sum_y(p) + p.len() * tau,
                sum_y(ms) == sum_y(p) + m.match_time,
                s.last().match_time == m.match_time + tau,
                p.len() + 1 == ms.len(),
        ;
        assert(sum_xy(s) == sum_xy(ms) + tau * sum_x(ms)) by (nonlinear_arith)
            requires
                sum_xy(s) == sum_xy(s.drop_last()) + s.last().query_time * s.last().match_time,
                sum_xy(s.drop_last()) == sum_xy(p) + tau * sum_x(p),
                sum_xy(ms) == sum_xy(p) + m.query_time * m.match_time,
                sum_x(ms) == sum_x(p) + m.query_time,
                s.last().query_time * s.last().match_time == m.query_time * m.match_time + tau
                    * m.query_time,
        ;
        assert forall|d: int| count_delta(s, d + tau) == #[trigger] count_delta(ms, d) by {
            assert(count_delta(s.drop_last(), d + tau) == count_delta(p, d));
            assert(s.last().delta() == m.delta() + tau);
        }
    } else {
        assert forall|d: int| count_delta(s, d + tau) == #[trigger] count_delta(ms, d) by {
            assert(s.len() == 0);
        }
    }
}

/// Moving every reference time by the same amount leaves the tempo
/// estimate as it was and moves the best offset by that amount: the
/// detection is found again, displaced by the shift.
pub proof fn shift_invariance(ms: Seq<Match>, tau: int)
    requires
        shift_fits(ms, tau),
    ensures
        time_factor_of(shift_refs(ms, tau)) == time_factor_of(ms),
        forall|d: int| is_best_delta(ms, d) <==> is_best_delta(shift_refs(ms, tau), d + tau),
        best_delta_of(shift_refs(ms, tau)) == best_delta_of(ms) + tau || !(exists|d: int|
            is_best_delta(ms, d)),
{
    let s = shift_refs(ms, tau);
    lemma_shift_sums(ms, tau);
    let n = ms.len() as int;
    assert(slope_num(s) == slope_num(ms)) by (nonlinear_arith)
        requires
            slope_num(s) == n * sum_xy(s) - sum_x(s) * sum_y(s),
            slope_num(ms) == n * sum_xy(ms) - sum_x(ms) * sum_y(ms),
            sum_x(s) == sum_x(ms),
            sum_y(s) == sum_y(ms) + n * tau,
            sum_xy(s) == sum_xy(ms) + tau * sum_x(ms),
    ;
    assert(slope_den(s) == slope_den(ms));
    assert forall|d: int| is_best_delta(ms, d) <==> is_best_delta(s, d + tau) by {
        if is_best_delta(ms, d) {
            assert forall|e: int| #[trigger] count_delta(s, e) <= count_delta(s, d + tau) && (e < d + tau
                ==> count_delta(s, e) < count_delta(s, d + tau)) by {
                assert(count_delta(s, (e - tau) + tau) == count_delta(ms, e - tau));
            }
        }
        if is_best_delta(s, d + tau) {
            assert forall|e: int| #[trigger] count_delta(ms, e) <= count_delta(ms, d) && (e < d ==> count_delta(
                ms,
                e,
            ) < count_delta(ms, d)) by {
                assert(count_delta(s, e + tau) == count_delta(ms, e));
                assert(count_delta(s, d + tau) == count_delta(ms, d));
            }
        }
    }
    if exists|d: int| is_best_delta(ms, d) {
        let d = choose|d: int| is_best_delta(ms, d);
        lemma_best_delta_unique(ms, d);
        assert(is_best_delta(s, d + tau));
        lemma_best_delta_unique(s, d + tau);
    }
}


/// Every match pairs a query point with the identical reference point.
pub open spec fn self_aligned(ms: Seq<Match>) -> bool {
    forall|k: int|
        0 <= k < ms.len() ==> (#[trigger] ms[k]).match_time == ms[k].query_time && ms[k].match_f1
            == ms[k].query_f1
}

proof fn lemma_self_aligned_parts(ms: Seq<Match>)
    requires
        self_aligned(ms),
    ensures
        count_delta(ms, 0) == ms.len(),
        forall|d: int| d != 0 ==> #[trigger] count_delta(ms, d) == 0,
        near(ms, 0) == ms,
        sum_y(ms) == sum_x(ms),
        sum_xy(ms) == sum_xx(ms),
        forall|k: int| 0 <= k < ratio_list(ms).len() ==> (#[trigger] ratio_list(ms)[k]).0 == ratio_list(
            ms,
        )[k].1,
    decreases ms.len(),
{
    if ms.len() > 0 {
        let p = ms.drop_last();
        assert forall|k: int| 0 <= k < p.len() implies (#[trigger] p[k]).match_time == p[k].query_time
            && p[k].match_f1 == p[k].query_f1 by {
            assert(p[k] == ms[k]);
        }
        lemma_self_aligned_parts(p);
        assert(ms.last() == ms[ms.len() - 1]);
        assert(near(ms, 0) =~= ms);
        assert forall|d: int| d != 0 implies #[trigger] count_delta(ms, d) == 0 by {
            assert(count_delta(p, d) == 0);
            assert(ms.last().delta() == 0);
        }
        let rp = ratio_list(p);
        assert forall|k: int| 0 <= k < ratio_list(ms).len() implies (#[trigger] ratio_list(ms)[k]).0
            == ratio_list(ms)[k].1 by {
            if k < rp.len() {
                assert(ratio_list(ms)[k] == rp[k]);
            }
        }
    } else {
        assert(near(ms, 0) =~= ms);
    }
}

/// Matching a recording against itself, with every match pairing a point
/// with itself: the best offset is zero, every match is aligned (so the
/// score is the number of matches), and the tempo and pitch estimates are
/// exactly one.
pub proof fn self_match(ms: Seq<Match>)
    requires
        ms.len() > 0,
        self_aligned(ms),
    ensures
        is_best_delta(ms, 0),
        best_delta_of(ms) == 0,
        near(ms, best_delta_of(ms)) == ms,
        time_factor_of(ms).0 == time_factor_of(ms).1,
        forall|order: Seq<usize>|
            is_key_order(ratio_keys(ratio_list(ms)), order) ==> #[trigger] median_by(
                ratio_list(ms),
                order,
            ).0 == median_by(ratio_list(ms), order).1,
{
    lemma_self_aligned_parts(ms);
    assert forall|e: int| #[trigger] count_delta(ms, e) <= count_delta(ms, 0) && (e < 0 ==> count_delta(
        ms,
        e,
    ) < count_delta(ms, 0)) by {
        if e != 0 {
            assert(count_delta(ms, e) == 0);
        }
    }
    lemma_best_delta_unique(ms, 0);
    assert(slope_num(ms) == slope_den(ms));
    let rs = ratio_list(ms);
    assert forall|order: Seq<usize>|
        is_key_order(ratio_keys(rs), order) implies #[trigger] median_by(rs, order).0 == median_by(
        rs,
        order,
    ).1 by {
        let n = rs.len();
        if n > 0 {
            assert(ratio_keys(rs).len() == n);
            let b = rs[order[(n / 2) as int] as int];
            assert(b.0 == b.1);
            if n % 2 == 0 {
                let a = rs[order[(n / 2 - 1) as int] as int];
                assert(a.0 == a.1);
                assert(a.0 * b.1 + b.0 * a.1 == 2 * a.1 * b.1) by (nonlinear_arith)
                    requires
                        a.0 == a.1,
                        b.0 == b.1,
                ;
            }
        }
    }
}


/// Every detection reports a share of covered seconds between zero and one:
/// `covered <= total` and `total > 0`.
pub proof fn coverage_in_unit_range(
    m: Matcher,
    path: Seq<char>,
    ms: Seq<Match>,
    out: Seq<QueryResult>,
)
    requires
        m.ranks(path, ms, out),
    ensures
        forall|n: int|
            0 <= n < out.len() ==> (#[trigger] out[n]).seconds_with_match.0 <= out[n].seconds_with_match.1
                && out[n].seconds_with_match.1 > 0,
{
    let refs = choose|refs: Seq<int>| m.ranked(path, ms, out, refs);
    assert forall|n: int| 0 <= n < out.len() implies (#[trigger] out[n]).seconds_with_match.0
        <= out[n].seconds_with_match.1 && out[n].seconds_with_match.1 > 0 by {
        assert(m.describes(path, ms, refs[n], out[n]));
    }
}

/// The fingerprints' hashes are pairwise distinct.
pub open spec fn distinct_hashes(fps: Seq<FingerprintTuple>) -> bool {
    forall|i: int, j: int| 0 <= i < j < fps.len() ==> fps[i].0 != fps[j].0
}

/// The match of a fingerprint with its own posting under reference 0.
pub open spec fn own_match(f: FingerprintTuple) -> Match {
    Match { ref_index: 0, query_time: f.1, match_time: f.1, query_f1: f.2, match_f1: f.2 }
}

proof fn lemma_distinct_postings(fps: Seq<FingerprintTuple>, h: u64)
    requires
        distinct_hashes(fps),
    ensures
        (forall|i: int| 0 <= i < fps.len() ==> fps[i].0 != h) ==> postings_of(
            appended(Map::empty(), 0, fps),
            h,
        ) == Seq::<Posting>::empty(),
        forall|i: int|
            0 <= i < fps.len() && fps[i].0 == h ==> postings_of(appended(Map::empty(), 0, fps), h)
                == seq![Posting { ref_index: 0, t1: fps[i].1, f1: fps[i].2 }],
    decreases fps.len(),
{
    if fps.len() > 0 {
        let p = fps.drop_last();
        assert forall|i: int, j: int| 0 <= i < j < p.len() implies p[i].0 != p[j].0 by {
            assert(p[i] == fps[i] && p[j] == fps[j]);
        }
        lemma_distinct_postings(p, h);
        lemma_distinct_postings(p, fps.last().0);
        assert forall|i: int| 0 <= i < p.len() implies p[i].0 != fps.last().0 by {
            assert(p[i] == fps[i]);
            assert(fps.last() == fps[fps.len() - 1]);
        }
        assert forall|i: int| 0 <= i < fps.len() && fps[i].0 == h implies postings_of(
            appended(Map::empty(), 0, fps),
            h,
        ) == seq![Posting { ref_index: 0, t1: fps[i].1, f1: fps[i].2 }] by {
            if i < p.len() {
                assert(p[i] == fps[i]);
                assert(h != fps.last().0);
            } else {
                assert(fps[i] == fps.last());
                assert(Seq::<Posting>::empty().push(Posting { ref_index: 0, t1: fps[i].1, f1: fps[i].2 })
                    =~= seq![Posting { ref_index: 0, t1: fps[i].1, f1: fps[i].2 }]);
            }
        }
        if forall|i: int| 0 <= i < fps.len() ==> fps[i].0 != h {
            assert(fps[fps.len() - 1].0 != h);
            assert forall|i: int| 0 <= i < p.len() implies p[i].0 != h by {
                assert(p[i] == fps[i]);
            }
        }
    }
}

proof fn lemma_own_candidates(fps: Seq<FingerprintTuple>, k: int)
    requires
        distinct_hashes(fps),
        0 <= k <= fps.len(),
    ensures
        candidates(appended(Map::empty(), 0, fps), fps.take(k)) == fps.take(k).map_values(
            |f: FingerprintTuple| own_match(f),
        ),
    decreases k,
{
    let mm = appended(Map::empty(), 0, fps);
    let q = fps.take(k);
    if k == 0 {
        assert(q.map_values(|f: FingerprintTuple| own_match(f)) =~= Seq::<Match>::empty());
    } else {
        lemma_own_candidates(fps, k - 1);
        assert(q.drop_last() =~= fps.take(k - 1));
        assert(q.last() == fps[k - 1]);
        lemma_distinct_postings(fps, fps[k - 1].0);
        let ps = postings_of(mm, fps[k - 1].0);
        assert(ps == seq![Posting { ref_index: 0, t1: fps[k - 1].1, f1: fps[k - 1].2 }]);
        assert(matches_for(ps, q.last()) =~= seq![own_match(fps[k - 1])]);
        assert(q.map_values(|f: FingerprintTuple| own_match(f)) =~= fps.take(k - 1).map_values(
            |f: FingerprintTuple| own_match(f),
        ) + seq![own_match(fps[k - 1])]);
    }
}

proof fn lemma_of_ref_all(ms: Seq<Match>, r: int)
    requires
        forall|k: int| 0 <= k < ms.len() ==> (#[trigger] ms[k]).ref_index == r,
    ensures
        of_ref(ms, r) == ms,
    decreases ms.len(),
{
    if ms.len() > 0 {
        let p = ms.drop_last();
        assert forall|k: int| 0 <= k < p.len() implies (#[trigger] p[k]).ref_index == r by {
            assert(p[k] == ms[k]);
        }
        lemma_of_ref_all(p, r);
        assert(ms.last() == ms[ms.len() - 1]);
        assert(p.push(ms.last()) =~= ms);
    }
}

/// Indexing a recording's fingerprints (with distinct hashes, at least five)
/// under the only reference and querying with the same fingerprints finds
/// that reference with every fingerprint aligned: its score is the number of
/// fingerprints and its tempo and pitch estimates are exactly one.
pub proof fn self_query(m: Matcher, path: Seq<char>, fps: Seq<FingerprintTuple>, out: Seq<QueryResult>)
    requires
        m.wf(),
        m.refs().len() == 1,
        m.postings() == appended(Map::empty(), 0, fps),
        distinct_hashes(fps),
        MIN_MATCHES <= fps.len() <= MAX_ALIGNED,
        m.ranks(path, candidates(m.postings(), fps), out),
    ensures
        exists|n: int|
            0 <= n < out.len() && (#[trigger] out[n]).ref_identifier is Some
                && out[n].ref_identifier->Some_0@ == m.refs()[0] && out[n].score == fps.len()
                && out[n].time_factor.0 == out[n].time_factor.1 && out[n].frequency_factor.0
                == out[n].frequency_factor.1,
{
    let ms = candidates(m.postings(), fps);
    lemma_own_candidates(fps, fps.len() as int);
    assert(fps.take(fps.len() as int) =~= fps);
    assert(ms == fps.map_values(|f: FingerprintTuple| own_match(f)));
    assert forall|k: int| 0 <= k < ms.len() implies (#[trigger] ms[k]).ref_index == 0 by {}
    lemma_of_ref_all(ms, 0);
    assert forall|k: int| 0 <= k < ms.len() implies (#[trigger] ms[k]).match_time == ms[k].query_time
        && ms[k].match_f1 == ms[k].query_f1 by {}
    self_match(ms);
    lemma_self_aligned_parts(ms);
    assert(aligned_of(ms, 0) == ms);
    assert(qualifies(ms, 0));
    let refs = choose|refs: Seq<int>| m.ranked(path, ms, out, refs);
    assert(refs.contains(0));
    let n = choose|n: int| 0 <= n < refs.len() && refs[n] == 0;
    assert(m.describes(path, ms, 0, out[n]));
    let order = choose|order: Seq<usize>|
        is_key_order(ratio_keys(ratio_list(ms)), order) && (
        out[n].frequency_factor.0 as int,
        out[n].frequency_factor.1 as int,
    ) == median_by(ratio_list(ms), order);
    assert(median_by(ratio_list(ms), order).0 == median_by(ratio_list(ms), order).1);
}


/// Every match pairs a query point with the same bin `tau` frames later in
/// the reference.
pub open spec fn offset_aligned(ms: Seq<Match>, tau: int) -> bool {
    forall|k: int|
        0 <= k < ms.len() ==> (#[trigger] ms[k]).match_time == ms[k].query_time + tau && ms[k].match_f1
            == ms[k].query_f1
}

proof fn lemma_offset_parts(ms: Seq<Match>, tau: int)
    requires
        offset_aligned(ms, tau),
    ensures
        count_delta(ms, tau) == ms.len(),
        forall|d: int| d != tau ==> #[trigger] count_delta(ms, d) == 0,
        near(ms, tau) == ms,
        sum_y(ms) == sum_x(ms) + ms.len() * tau,
        sum_xy(ms) == sum_xx(ms) + tau * sum_x(ms),
        ms.len() > 0 ==> min_time(ms, false) == min_time(ms, true) + tau,
        forall|k: int| 0 <= k < ratio_list(ms).len() ==> (#[trigger] ratio_list(ms)[k]).0 == ratio_list(
            ms,
        )[k].1,
    decreases ms.len(),
{
    if ms.len() > 0 {
        let p = ms.drop_last();
        assert forall|k: int| 0 <= k < p.len() implies (#[trigger] p[k]).match_time == p[k].query_time
            + tau && p[k].match_f1 == p[k].query_f1 by {
            assert(p[k] == ms[k]);
        }
        lemma_offset_parts(p, tau);
        let m = ms.last();
        assert(m == ms[ms.len() - 1]);
        assert(near(ms, tau) =~= ms);
        assert forall|d: int| d != tau implies #[trigger] count_delta(ms, d) == 0 by {
            assert(count_delta(p, d) == 0);
        }
        assert(sum_y(ms) == sum_x(ms) + ms.len() * tau) by (nonlinear_arith)
            requires
                sum_y(ms) == sum_y(p) + m.match_time,
                sum_x(ms) == sum_x(p) + m.query_time,
                sum_y(p) == sum_x(p) + p.len() * tau,
                m.match_time == m.query_time + tau,
                ms.len() == p.len() + 1,
        ;
        assert(sum_xy(ms) == sum_xx(ms) + tau * sum_x(ms)) by (nonlinear_arith)
            requires
                sum_xy(ms) == sum_xy(p) + m.query_time * m.match_time,
                sum_xx(ms) == sum_xx(p) + m.query_time * m.query_time,
                sum_x(ms) == sum_x(p) + m.query_time,
                sum_xy(p) == sum_xx(p) + tau * sum_x(p),
                m.match_time == m.query_time + tau,
        ;
        let rp = ratio_list(p);
        assert forall|k: int| 0 <= k < ratio_list(ms).len() implies (#[trigger] ratio_list(ms)[k]).0
            == ratio_list(ms)[k].1 by {
            if k < rp.len() {
                assert(ratio_list(ms)[k] == rp[k]);
            }
        }
    } else {
        assert(near(ms, tau) =~= ms);
    }
}

/// The fingerprints with every time moved by `tau` frames.
pub open spec fn shift_fps(fps: Seq<FingerprintTuple>, tau: int) -> Seq<FingerprintTuple> {
    fps.map_values(|f: FingerprintTuple| (f.0, (f.1 + tau) as i32, f.2, f.3))
}

proof fn lemma_paired_candidates(q: Seq<FingerprintTuple>, s: Seq<FingerprintTuple>, k: int)
    requires
        q.len() == s.len(),
        distinct_hashes(s),
        forall|i: int| 0 <= i < q.len() ==> (#[trigger] q[i]).0 == s[i].0,
        0 <= k <= q.len(),
    ensures
        candidates(appended(Map::empty(), 0, s), q.take(k)).len() == k,
        forall|i: int|
            0 <= i < k ==> #[trigger] candidates(appended(Map::empty(), 0, s), q.take(k))[i] == (Match {
                ref_index: 0,
                query_time: q[i].1,
                match_time: s[i].1,
                query_f1: q[i].2,
                match_f1: s[i].2,
            }),
    decreases k,
{
    let mm = appended(Map::empty(), 0, s);
    if k > 0 {
        lemma_paired_candidates(q, s, k - 1);
        let qk = q.take(k);
        assert(qk.drop_last() =~= q.take(k - 1));
        assert(qk.last() == q[k - 1]);
        lemma_distinct_postings(s, s[k - 1].0);
        let ps = postings_of(mm, q[k - 1].0);
        assert(ps == seq![Posting { ref_index: 0, t1: s[k - 1].1, f1: s[k - 1].2 }]);
        let c = candidates(mm, qk);
        assert(c == candidates(mm, q.take(k - 1)) + matches_for(ps, qk.last()));
        assert(matches_for(ps, qk.last()).len() == 1);
        assert forall|i: int| 0 <= i < k implies #[trigger] c[i] == (Match {
            ref_index: 0,
            query_time: q[i].1,
            match_time: s[i].1,
            query_f1: q[i].2,
            match_f1: s[i].2,
        }) by {
            if i < k - 1 {
                assert(c[i] == candidates(mm, q.take(k - 1))[i]);
            } else {
                assert(c[i] == matches_for(ps, qk.last())[0]);
            }
        }
    }
}

/// Indexing a recording with every time shifted by `tau` frames and
/// querying with the unshifted fingerprints (distinct hashes, at least five)
/// finds that reference displaced by exactly `tau` frames (`8 * tau` ms),
/// with every fingerprint aligned and a tempo estimate of exactly one.
pub proof fn shifted_query(
    m: Matcher,
    path: Seq<char>,
    fps: Seq<FingerprintTuple>,
    tau: int,
    out: Seq<QueryResult>,
)
    requires
        m.wf(),
        m.refs().len() == 1,
        forall|i: int| 0 <= i < fps.len() ==> i32::MIN <= #[trigger] fps[i].1 + tau <= i32::MAX,
        m.postings() == appended(Map::empty(), 0, shift_fps(fps, tau)),
        distinct_hashes(fps),
        MIN_MATCHES <= fps.len() <= MAX_ALIGNED,
        m.ranks(path, candidates(m.postings(), fps), out),
    ensures
        exists|n: int|
            0 <= n < out.len() && (#[trigger] out[n]).ref_identifier is Some
                && out[n].ref_identifier->Some_0@ == m.refs()[0] && out[n].score == fps.len()
                && out[n].ref_start_ms - out[n].query_start_ms == 8 * tau && out[n].time_factor.0
                == out[n].time_factor.1,
{
    let sf = shift_fps(fps, tau);
    assert forall|i: int, j: int| 0 <= i < j < sf.len() implies sf[i].0 != sf[j].0 by {}
    assert forall|i: int| 0 <= i < fps.len() implies (#[trigger] fps[i]).0 == sf[i].0 by {}
    lemma_paired_candidates(fps, sf, fps.len() as int);
    assert(fps.take(fps.len() as int) =~= fps);
    let ms = candidates(m.postings(), fps);
    assert forall|k: int| 0 <= k < ms.len() implies (#[trigger] ms[k]).ref_index == 0 by {}
    lemma_of_ref_all(ms, 0);
    assert forall|k: int| 0 <= k < ms.len() implies (#[trigger] ms[k]).match_time == ms[k].query_time
        + tau && ms[k].match_f1 == ms[k].query_f1 by {}
    lemma_offset_parts(ms, tau);
    assert forall|e: int| #[trigger] count_delta(ms, e) <= count_delta(ms, tau) && (e < tau
        ==> count_delta(ms, e) < count_delta(ms, tau)) by {
        if e != tau {
            assert(count_delta(ms, e) == 0);
        }
    }
    lemma_best_delta_unique(ms, tau);
    assert(aligned_of(ms, 0) == ms);
    assert(qualifies(ms, 0));
    let n = ms.len() as int;
    assert(slope_num(ms) == slope_den(ms)) by (nonlinear_arith)
        requires
            slope_num(ms) == n * sum_xy(ms) - sum_x(ms) * sum_y(ms),
            slope_den(ms) == n * sum_xx(ms) - sum_x(ms) * sum_x(ms),
            sum_y(ms) == sum_x(ms) + n * tau,
            sum_xy(ms) == sum_xx(ms) + tau * sum_x(ms),
    ;
    let refs = choose|refs: Seq<int>| m.ranked(path, ms, out, refs);
    assert(refs.contains(0));
    let k = choose|k: int| 0 <= k < refs.len() && refs[k] == 0;
    assert(m.describes(path, ms, 0, out[k]));
}

} // verus!
