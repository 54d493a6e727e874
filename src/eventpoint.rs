//! Event points: local maxima of a spectrogram under a rectangular
//! neighbourhood.
use vstd::prelude::*;

use crate::config::PanakoConfig;

verus! {

/// A local maximum of the spectrogram.
///
/// `m` is the magnitude's ordering key: the IEEE-754 bit pattern of a
/// non-negative `f32`, which orders exactly as the magnitude does.
#[derive(Clone, Copy, Debug, PartialEq, Eq, Structural)]
pub struct EventPoint {
    /// Frame index.
    pub t: i32,
    /// Log-frequency bin index.
    pub f: i16,
    /// Magnitude key.
    pub m: u32,
}

impl EventPoint {
    pub fn new(t: i32, f: i16, m: u32) -> (r: EventPoint)
        ensures
            r == (EventPoint { t, f, m }),
    {
        EventPoint { t, f, m }
    }
}


/// A magnitude matrix indexed by frame, then log-frequency bin. Each
/// magnitude is held as the ordering key described on [`EventPoint`].
#[derive(Debug)]
pub struct Spectrogram {
    pub num_frames: usize,
    pub num_bins: usize,
    pub magnitudes: Vec<Vec<u32>>,
}

impl Spectrogram {
    /// One row per frame and one column per bin; indices fit an event point.
    pub open spec fn wf(&self) -> bool {
        &&& self.magnitudes.len() == self.num_frames
        &&& forall|t: int| 0 <= t < self.num_frames ==> #[trigger] self.magnitudes[t].len() == self.num_bins
        &&& self.num_frames <= i32::MAX
        &&& self.num_bins <= i16::MAX
    }

    pub open spec fn at(&self, t: int, f: int) -> u32 {
        self.magnitudes[t][f]
    }
}

/// `x` lies in `[0, len)` within `half` of `c`.
pub open spec fn in_window(c: int, x: int, half: int, len: int) -> bool {
    &&& 0 <= x < len
    &&& c - half <= x <= c + half
}

/// Lexicographic order on (frame, bin).
pub open spec fn cell_less(t1: int, f1: int, t2: int, f2: int) -> bool {
    t1 < t2 || (t1 == t2 && f1 < f2)
}

/// Finds event points with a frequency pass and a time pass of a max filter.
pub struct EventPointExtractor {
    pub freq_filter_size: usize,
    pub time_filter_size: usize,
}

/// The window `[max(0, c - half), min(len, c + half + 1))`.
fn window(c: usize, half: usize, len: usize) -> (r: (usize, usize))
    requires
        c < len,
    ensures
        r.0 <= c < r.1 <= len,
        forall|x: int| r.0 <= x < r.1 <==> in_window(c as int, x, half as int, len as int),
{
    let lo = if c >= half {
        c - half
    } else {
        0
    };
    let hi = if half >= len - c {
        len
    } else {
        c + half + 1
    };
    (lo, hi)
}

/// `v` is the largest of `row` within `half` of `c`.
pub open spec fn row_window_max(row: Seq<u32>, c: int, half: int, v: u32) -> bool {
    &&& forall|x: int| in_window(c, x, half, row.len() as int) ==> row[x] <= v
    &&& exists|x: int| in_window(c, x, half, row.len() as int) && row[x] == v
}

/// `v` is the largest of column `f` of `rows` within `half` of row `c`.
pub open spec fn column_window_max(rows: Seq<Seq<u32>>, f: int, c: int, half: int, v: u32) -> bool {
    &&& forall|y: int| in_window(c, y, half, rows.len() as int) ==> rows[y][f] <= v
    &&& exists|y: int| in_window(c, y, half, rows.len() as int) && rows[y][f] == v
}

/// The largest of `row` within `half` of `c`.
fn row_max(row: &Vec<u32>, c: usize, half: usize) -> (r: u32)
    requires
        c < row.len(),
    ensures
        row_window_max(row@, c as int, half as int, r),
{
    let (lo, hi) = window(c, half, row.len());
    let mut best = row[lo];
    let mut x = lo + 1;
    while x < hi
        invariant
            lo < x <= hi <= row.len(),
            forall|y: int| lo <= y < hi <==> in_window(c as int, y, half as int, row.len() as int),
            forall|y: int| lo <= y < x ==> row[y] <= best,
            exists|y: int| lo <= y < x && row[y] == best,
        decreases hi - x,
    {
        if row[x] > best {
            best = row[x];
        }
        x += 1;
    }
    best
}

/// The rows of a matrix as sequences.
pub open spec fn rows_view(rows: Seq<Vec<u32>>) -> Seq<Seq<u32>> {
    rows.map_values(|r: Vec<u32>| r@)
}

/// The largest of column `f` of `rows` within `half` of row `c`.
fn column_max(rows: &Vec<Vec<u32>>, f: usize, c: usize, half: usize) -> (r: u32)
    requires
        c < rows.len(),
        forall|t: int| 0 <= t < rows.len() ==> f < #[trigger] rows[t].len(),
    ensures
        column_window_max(rows_view(rows@), f as int, c as int, half as int, r),
{
    let ghost m = rows_view(rows@);
    let (lo, hi) = window(c, half, rows.len());
    assert(f < rows[lo as int].len());
    assert(m[lo as int] == rows[lo as int]@);
    let mut best = rows[lo][f];
    let mut t = lo + 1;
    while t < hi
        invariant
            lo < t <= hi <= rows.len(),
            m == rows_view(rows@),
            forall|y: int| 0 <= y < rows.len() ==> f < #[trigger] rows[y].len(),
            forall|y: int| lo <= y < hi <==> in_window(c as int, y, half as int, rows.len() as int),
            forall|y: int| lo <= y < t ==> m[y][f as int] <= best,
            exists|y: int| lo <= y < t && m[y][f as int] == best,
        decreases hi - t,
    {
        assert(f < rows[t as int].len());
        assert(m[t as int] == rows[t as int]@);
        if rows[t][f] > best {
            best = rows[t][f];
        }
        t += 1;
    }
    assert(m.len() == rows.len());
    let ghost y = choose|y: int| lo <= y < t && m[y][f as int] == best;
    assert(in_window(c as int, y, half as int, rows.len() as int));
    best
}

impl EventPointExtractor {
    pub fn new(config: &PanakoConfig) -> (r: EventPointExtractor)
        ensures
            r.freq_filter_size == config.freq_max_filter_size,
            r.time_filter_size == config.time_max_filter_size,
    {
        EventPointExtractor {
            freq_filter_size: config.freq_max_filter_size,
            time_filter_size: config.time_max_filter_size,
        }
    }

    /// The cell `(t, f)` is positive and no cell of the rectangle around it,
    /// of half extents `time_filter_size / 2` and `freq_filter_size / 2`, is
    /// larger. Magnitudes are compared exactly, by their keys: a neighbour
    /// larger by less than `1e-6` suppresses the cell.
    pub open spec fn is_peak(self, s: Spectrogram, t: int, f: int) -> bool {
        &&& 0 <= t < s.num_frames
        &&& 0 <= f < s.num_bins
        &&& s.at(t, f) > 0
        &&& forall|t2: int, f2: int|
            in_window(t, t2, (self.time_filter_size / 2) as int, s.num_frames as int) && in_window(
                f,
                f2,
                (self.freq_filter_size / 2) as int,
                s.num_bins as int,
            ) ==> s.at(t2, f2) <= s.at(t, f)
    }

    /// Every peak of the spectrogram, in (frame, bin) order.
    pub fn extract(&self, spectrogram: &Spectrogram) -> (r: Vec<EventPoint>)
        requires
            spectrogram.wf(),
        ensures
            forall|n: int|
                0 <= n < r.len() ==> self.is_peak(*spectrogram, r[n].t as int, r[n].f as int)
                    && r[n].m == spectrogram.at(r[n].t as int, r[n].f as int),
            forall|n: int, k: int|
                0 <= n < k < r.len() ==> cell_less(
                    r[n].t as int,
                    r[n].f as int,
                    r[k].t as int,
                    r[k].f as int,
                ),
            forall|t: int, f: int|
                #[trigger] self.is_peak(*spectrogram, t, f) ==> exists|n: int|
                    0 <= n < r.len() && r[n].t == t && r[n].f == f,
    {
        let s = spectrogram;
        let nf = s.num_frames;
        let nb = s.num_bins;
        let fh = self.freq_filter_size / 2;
        let th = self.time_filter_size / 2;
        let ghost fhi = fh as int;
        let ghost thi = th as int;
        // frequency pass
        let mut freq_filtered: Vec<Vec<u32>> = Vec::new();
        let mut t: usize = 0;
        while t < nf
            invariant
                s.wf(),
                nf == s.num_frames,
                nb == s.num_bins,
                fhi == self.freq_filter_size / 2,
                fhi == fh as int,
                t <= nf,
                freq_filtered.len() == t,
                forall|y: int| 0 <= y < t ==> #[trigger] freq_filtered[y].len() == nb,
                forall|y: int, f: int|
                    0 <= y < t && 0 <= f < nb ==> row_window_max(
                        s.magnitudes[y]@,
                        f,
                        fhi,
                        #[trigger] freq_filtered[y][f],
                    ),
            decreases nf - t,
        {
            let row = &s.magnitudes[t];
            let mut out_row: Vec<u32> = Vec::new();
            let mut f: usize = 0;
            while f < nb
                invariant
                    s.wf(),
                    nf == s.num_frames,
                    nb == s.num_bins,
                    t < nf,
                    row == s.magnitudes[t as int],
                    row.len() == nb,
                    fhi == fh as int,
                    f <= nb,
                    out_row.len() == f,
                    forall|g: int| 0 <= g < f ==> row_window_max(row@, g, fhi, #[trigger] out_row[g]),
                decreases nb - f,
            {
                let mx = row_max(row, f, fh);
                let ghost old_row = out_row@;
                out_row.push(mx);
                assert forall|g: int| 0 <= g < f + 1 implies row_window_max(
                    row@,
                    g,
                    fhi,
                    #[trigger] out_row[g],
                ) by {
                    if g < f {
                        assert(out_row[g] == old_row[g]);
                    } else {
                        assert(out_row[g] == mx);
                    }
                }
                f += 1;
            }
            let ghost old_ff = freq_filtered@;
            freq_filtered.push(out_row);
            proof {
                assert forall|y: int| 0 <= y < t + 1 implies #[trigger] freq_filtered[y].len() == nb by {
                    if y < t {
                        assert(freq_filtered[y] == old_ff[y]);
                    }
                }
                assert forall|y: int, f: int|
                    0 <= y < t + 1 && 0 <= f < nb implies row_window_max(
                    s.magnitudes[y]@,
                    f,
                    fhi,
                    #[trigger] freq_filtered[y][f],
                ) by {
                    if y < t {
                        assert(freq_filtered[y] == old_ff[y]);
                    }
                }
            }
            t += 1;
        }
        let ghost ffm = rows_view(freq_filtered@);
        // time pass and comparison
        let mut points: Vec<EventPoint> = Vec::new();
        let mut t: usize = 0;
        while t < nf
            invariant
                s.wf(),
                nf == s.num_frames,
                nb == s.num_bins,
                fhi == self.freq_filter_size / 2,
                thi == self.time_filter_size / 2,
                thi == th as int,
                t <= nf,
                freq_filtered.len() == nf,
                ffm == rows_view(freq_filtered@),
                forall|y: int| 0 <= y < nf ==> #[trigger] freq_filtered[y].len() == nb,
                forall|y: int, f: int|
                    0 <= y < nf && 0 <= f < nb ==> row_window_max(
                        s.magnitudes[y]@,
                        f,
                        fhi,
                        #[trigger] freq_filtered[y][f],
                    ),
                forall|n: int|
                    0 <= n < points.len() ==> self.is_peak(*s, points[n].t as int, points[n].f as int)
                        && points[n].m == s.at(points[n].t as int, points[n].f as int) && points[n].t < t,
                forall|n: int, k: int|
                    0 <= n < k < points.len() ==> cell_less(
                        points[n].t as int,
                        points[n].f as int,
                        points[k].t as int,
                        points[k].f as int,
                    ),
                forall|t2: int, f2: int|
                    t2 < t && #[trigger] self.is_peak(*s, t2, f2) ==> exists|n: int|
                        0 <= n < points.len() && points[n].t == t2 && points[n].f == f2,
            decreases nf - t,
        {
            let mut f: usize = 0;
            while f < nb
                invariant
                    s.wf(),
                    nf == s.num_frames,
                    nb == s.num_bins,
                    fhi == self.freq_filter_size / 2,
                    thi == self.time_filter_size / 2,
                    thi == th as int,
                    t < nf,
                    f <= nb,
                    freq_filtered.len() == nf,
                    ffm == rows_view(freq_filtered@),
                    forall|y: int| 0 <= y < nf ==> #[trigger] freq_filtered[y].len() == nb,
                    forall|y: int, f: int|
                        0 <= y < nf && 0 <= f < nb ==> row_window_max(
                            s.magnitudes[y]@,
                            f,
                            fhi,
                            #[trigger] freq_filtered[y][f],
                        ),
                    forall|n: int|
                        0 <= n < points.len() ==> self.is_peak(*s, points[n].t as int, points[n].f as int)
                            && points[n].m == s.at(points[n].t as int, points[n].f as int)
                            && cell_less(points[n].t as int, points[n].f as int, t as int, f as int),
                    forall|n: int, k: int|
                        0 <= n < k < points.len() ==> cell_less(
                            points[n].t as int,
                            points[n].f as int,
                            points[k].t as int,
                            points[k].f as int,
                        ),
                    forall|t2: int, f2: int|
                        cell_less(t2, f2, t as int, f as int) && #[trigger] self.is_peak(*s, t2, f2)
                            ==> exists|n: int|
                            0 <= n < points.len() && points[n].t == t2 && points[n].f == f2,
                decreases nb - f,
            {
                let filtered = column_max(&freq_filtered, f, t, th);
                assert(s.magnitudes[t as int].len() == nb);
                let original = s.magnitudes[t][f];
                proof {
                    self.lemma_peak_iff(*s, ffm, t as int, f as int, filtered, fhi, thi);
                }
                let ghost old_points = points@;
                if original > 0 && original == filtered {
                    points.push(EventPoint { t: t as i32, f: f as i16, m: original });
                }
                proof {
                    assert forall|n: int| 0 <= n < old_points.len() implies points[n] == old_points[n] by {}
                    assert forall|t2: int, f2: int|
                        cell_less(t2, f2, t as int, f + 1) && #[trigger] self.is_peak(*s, t2, f2)
                            implies exists|n: int|
                            0 <= n < points.len() && points[n].t == t2 && points[n].f == f2 by {
                        if t2 == t && f2 == f {
                            assert(points[points.len() - 1].t == t2);
                        } else {
                            let n = choose|n: int|
                                0 <= n < old_points.len() && old_points[n].t == t2 && old_points[n].f
                                    == f2;
                            assert(points[n] == old_points[n]);
                        }
                    }
                }
                f += 1;
            }
            t += 1;
        }
        points
    }

    /// The cell equals its time-pass maximum exactly when nothing in its
    /// rectangle is larger.
    proof fn lemma_peak_iff(
        self,
        s: Spectrogram,
        ffm: Seq<Seq<u32>>,
        t: int,
        f: int,
        filtered: u32,
        fh: int,
        th: int,
    )
        requires
            s.wf(),
            fh == self.freq_filter_size / 2,
            th == self.time_filter_size / 2,
            0 <= t < s.num_frames,
            0 <= f < s.num_bins,
            ffm.len() == s.num_frames,
            forall|y: int, g: int|
                0 <= y < s.num_frames && 0 <= g < s.num_bins ==> row_window_max(
                    s.magnitudes[y]@,
                    g,
                    fh,
                    #[trigger] ffm[y][g],
                ),
            column_window_max(ffm, f, t, th, filtered),
        ensures
            self.is_peak(s, t, f) <==> (s.at(t, f) > 0 && s.at(t, f) == filtered),
    {
        assert(in_window(t, t, th, s.num_frames as int));
        assert(in_window(f, f, fh, s.num_bins as int));
        assert(s.magnitudes[t].len() == s.num_bins);
        assert(row_window_max(s.magnitudes[t]@, f, fh, ffm[t][f]));
        assert(s.at(t, f) <= ffm[t][f]);
        if s.at(t, f) > 0 && s.at(t, f) == filtered {
            assert forall|t2: int, f2: int|
                in_window(t, t2, th, s.num_frames as int) && in_window(f, f2, fh, s.num_bins as int)
                    implies s.at(t2, f2) <= s.at(t, f) by {
                assert(s.magnitudes[t2].len() == s.num_bins);
                assert(row_window_max(s.magnitudes[t2]@, f, fh, ffm[t2][f]));
            }
        }
        if self.is_peak(s, t, f) {
            let y = choose|y: int| in_window(t, y, th, ffm.len() as int) && ffm[y][f] == filtered;
            assert(s.magnitudes[y].len() == s.num_bins);
            assert(row_window_max(s.magnitudes[y]@, f, fh, ffm[y][f]));
            let f2 = choose|f2: int|
                in_window(f, f2, fh, s.magnitudes[y]@.len() as int) && s.magnitudes[y]@[f2] == ffm[y][f];
            assert(s.at(y, f2) <= s.at(t, f));
        }
    }
}

} // verus!
