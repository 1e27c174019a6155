//! Divides the tracks into pieces: stereo where two recorders share what
//! happens, mono everywhere else. Times are nanoseconds on the clock of a track.

use vstd::prelude::*;

use crate::alignment::{b_time_is_monotone, clocks_agree, lemma_a_bound, lemma_b_bound, seconds, span, span_of, to_seconds, Alignment, REACH_LIMIT};
use crate::order::{orderly, sort, sorted, sorted_is_sorted, sorting_has_one_result, Ranked};
use crate::pairing::{all_timed, max, min, time_of, timed};
use crate::phases::{Evidence, Kind};
use crate::sums::{lemma_sum_of_equals, sum};
use crate::track::{lemma_round_bound, track_views, Track, TrackView, TIME_LIMIT};

verus! {

/// Where only one recorder runs for less than this at the edge of a shared
/// stretch, that joins the stereo file.
pub const EDGE_ABSORB: i64 = 60_000_000_000;

/// Stretches may overlap by this much without competing.
pub const SLACK: i64 = 500_000_000;

/// Shorter pieces are not worth a file.
pub const MIN_PIECE: i64 = 1_000_000_000;

/// Times of phases lie within this.
pub const PIECE_LIMIT: i64 = 80_000_000_000_000_000;

/// Times of mono pieces lie within this.
pub const MONO_LIMIT: i64 = 130_000_000_000_000_000;

/// Times of stereo pieces with one partner lie within this.
pub const STEREO_LIMIT: i64 = 190_000_000_000_000_000;

/// Times of stereo pieces with several partners lie within this.
pub const MERGED_LIMIT: i64 = 260_000_000_000_000_000;

/// Starts of stretches lie within this.
pub const START_BASE: i64 = 100_010_000_000_000;

/// Starts of pieces lie within this.
pub const START_REACH: i64 = 100_012_000_000_000;

/// A stretch in which two tracks are together or apart, on the clock of the first.
#[derive(Debug, Clone, Copy, PartialEq, Eq, Structural)]
pub struct Phase {
    pub kind: Kind,
    pub start: i64,
    pub end: i64,
    pub evidence: Evidence,
}

/// Two tracks that were compared.
#[derive(Debug)]
pub struct Pair {
    pub a: usize,
    pub b: usize,
    /// Whether a stable common offset was found.
    pub ok: bool,
    pub map: Alignment,
    pub phases: Vec<Phase>,
}

impl Pair {
    /// A time of A's clock on B's.
    pub fn to_b(&self, ta: i64) -> (r: i64)
        requires
            self.map.valid(),
            -REACH_LIMIT <= ta <= REACH_LIMIT,
        ensures
            r == self.map.b_time(ta as int),
    {
        self.map.to_b(ta)
    }

    /// A time of B's clock on A's.
    pub fn to_a(&self, tb: i64) -> (r: i64)
        requires
            self.map.valid(),
            -REACH_LIMIT <= tb <= REACH_LIMIT,
        ensures
            r == self.map.a_time(tb as int),
    {
        self.map.to_a(tb)
    }
}

/// Stretch of a piece where the second channel carries audio, on the clock of
/// the reference track.
#[derive(Debug, Clone, Copy, PartialEq, Eq, Structural)]
pub struct Span {
    pub pair: usize,
    pub other: usize,
    pub t0: i64,
    pub t1: i64,
}

/// Time in which one recorder of a stereo piece did not record.
#[derive(Debug, Clone)]
pub struct Silence {
    pub label: String,
    pub length: i128,
}

/// A silence as mathematical values.
pub struct SilenceView {
    pub label: Seq<char>,
    pub length: int,
}

impl View for Silence {
    type V = SilenceView;

    open spec fn view(&self) -> SilenceView {
        SilenceView { label: self.label@, length: self.length as int }
    }
}

/// The silences of a list.
pub open spec fn silence_views(v: Seq<Silence>) -> Seq<SilenceView> {
    v.map_values(|s: Silence| s@)
}

/// A piece that becomes a file.
#[derive(Debug, Clone)]
pub struct Piece {
    pub stereo: bool,
    /// Of a mono piece: whether no other track was compared there.
    pub alone: bool,
    pub left: usize,
    pub right: Option<usize>,
    pub pair: Option<usize>,
    /// Track whose samples run through unchanged; `t0` and `t1` are on its clock.
    pub reference: usize,
    pub t0: i64,
    pub t1: i64,
    /// Where the other channel has audio (stereo only).
    pub spans: Vec<Span>,
    /// Who was silent for how long inside a stereo piece.
    pub silent: Vec<Silence>,
    /// Share of hits and mean coherence, in billionths.
    pub hit_share: Option<i64>,
    pub msc: Option<i64>,
    pub start_secs: i64,
}

/// A piece as mathematical values.
pub struct PieceView {
    pub stereo: bool,
    pub alone: bool,
    pub left: int,
    pub right: Option<int>,
    pub pair: Option<int>,
    pub reference: int,
    pub t0: int,
    pub t1: int,
    pub spans: Seq<Span>,
    pub silent: Seq<SilenceView>,
    pub hit_share: Option<int>,
    pub msc: Option<int>,
    pub start_secs: int,
}

/// A number or nothing.
pub open spec fn opt_usize(x: Option<usize>) -> Option<int> {
    match x {
        Some(i) => Some(i as int),
        None => None,
    }
}

/// A number or nothing.
pub open spec fn opt_i64(x: Option<i64>) -> Option<int> {
    match x {
        Some(i) => Some(i as int),
        None => None,
    }
}

impl View for Piece {
    type V = PieceView;

    open spec fn view(&self) -> PieceView {
        PieceView {
            stereo: self.stereo,
            alone: self.alone,
            left: self.left as int,
            right: opt_usize(self.right),
            pair: opt_usize(self.pair),
            reference: self.reference as int,
            t0: self.t0 as int,
            t1: self.t1 as int,
            spans: self.spans@,
            silent: silence_views(self.silent@),
            hit_share: opt_i64(self.hit_share),
            msc: opt_i64(self.msc),
            start_secs: self.start_secs as int,
        }
    }
}

/// The pieces of a list.
pub open spec fn piece_views(v: Seq<Piece>) -> Seq<PieceView> {
    v.map_values(|p: Piece| p@)
}

/// Whether tracks and pairs can be planned with.
pub open spec fn plannable(t: Seq<TrackView>, p: Seq<Pair>) -> bool {
    &&& all_timed(t)
    &&& forall|k: int| 0 <= k < p.len() ==> fit_pair(t, #[trigger] p[k])
}

/// Whether a pair fits the tracks.
pub open spec fn fit_pair(t: Seq<TrackView>, q: Pair) -> bool {
    &&& q.a < t.len()
    &&& q.b < t.len()
    &&& q.a != q.b
    &&& q.map.valid()
    &&& forall|i: int|
        0 <= i < q.phases@.len() ==> -PIECE_LIMIT <= (#[trigger] q.phases@[i]).start <= PIECE_LIMIT && -PIECE_LIMIT <= q.phases@[i].end <= PIECE_LIMIT
            && fit_evidence(q.phases@[i].evidence)
}

/// Whether evidence was counted: hits are windows, and each measurement of
/// coherence is a 32-bit number.
pub open spec fn fit_evidence(h: Evidence) -> bool {
    h.hits <= h.count <= 0xFFFF_FFFF && h.coherence <= h.measured * 0xFFFF_FFFF
}

// ------------------------------------------------------------------ overlaps

/// The time that pair `k` has in common, on A's clock.
pub open spec fn common(t: Seq<TrackView>, q: Pair) -> (int, int) {
    span_of(q.map, t[q.a as int].duration, t[q.b as int].duration)
}

/// The time of track `x` that pair `k` has in common, if it has any.
pub open spec fn overlap_on(t: Seq<TrackView>, q: Pair, x: int) -> Option<(int, int)> {
    let (s, e) = common(t, q);
    if e <= s {
        None
    } else if x == q.a {
        Some((s, e))
    } else if x == q.b {
        Some((max(q.map.b_time(s), 0), min(q.map.b_time(e), t[x].duration)))
    } else {
        None
    }
}

/// Whether no other pair than `own` has part of the time from `s` to `e` of
/// track `x` in common.
pub open spec fn is_free(t: Seq<TrackView>, p: Seq<Pair>, x: int, s: int, e: int, own: int) -> bool {
    forall|k: int|
        0 <= k < p.len() && k != own ==> (match overlap_on(t, #[trigger] p[k], x) {
            Some((a, b)) => b <= s || a >= e,
            None => true,
        })
}

/// A track has a bounded length.
pub proof fn lemma_duration(t: TrackView)
    requires
        timed(t),
    ensures
        0 <= t.duration <= TIME_LIMIT,
{
    lemma_round_bound(t.frames, t.info.sample_rate);
}

/// The time that a pair has in common, on A's clock.
fn common_time(tracks: &Vec<Track>, q: &Pair) -> (r: (i64, i64))
    requires
        all_timed(track_views(tracks@)),
        fit_pair(track_views(tracks@), *q),
    ensures
        (r.0 as int, r.1 as int) == common(track_views(tracks@), *q),
        0 <= r.0 <= PIECE_LIMIT,
        -PIECE_LIMIT <= r.1 <= PIECE_LIMIT,
{
    let ghost t = track_views(tracks@);
    proof {
        assert(t[q.a as int] == tracks@[q.a as int]@ && t[q.b as int] == tracks@[q.b as int]@);
        lemma_duration(t[q.a as int]);
        lemma_duration(t[q.b as int]);
        lemma_a_bound(q.map, 0, TIME_LIMIT as int);
        lemma_a_bound(q.map, t[q.b as int].duration, TIME_LIMIT as int);
    }
    span(&q.map, time_of(&tracks[q.a]), time_of(&tracks[q.b]))
}

/// The time of track `x` that a pair has in common, if it has any.
fn overlap(tracks: &Vec<Track>, q: &Pair, x: usize) -> (r: Option<(i64, i64)>)
    requires
        all_timed(track_views(tracks@)),
        fit_pair(track_views(tracks@), *q),
        x < tracks.len(),
    ensures
        match r {
            Some((a, b)) => overlap_on(track_views(tracks@), *q, x as int) == Some((a as int, b as int)),
            None => overlap_on(track_views(tracks@), *q, x as int) is None,
        },
{
    let ghost t = track_views(tracks@);
    assert(t[x as int] == tracks@[x as int]@);
    let (s, e) = common_time(tracks, q);
    if e <= s {
        None
    } else if x == q.a {
        Some((s, e))
    } else if x == q.b {
        let a: i64 = q.to_b(s);
        let b: i64 = q.to_b(e);
        Some(
            (
                if a >= 0 {
                    a
                } else {
                    0
                },
                if b <= time_of(&tracks[x]) {
                    b
                } else {
                    time_of(&tracks[x])
                },
            ),
        )
    } else {
        None
    }
}

/// Whether no other pair than `own` has part of a time in common.
fn check_free(tracks: &Vec<Track>, pairs: &Vec<Pair>, x: usize, s: i64, e: i64, own: usize) -> (r: bool)
    requires
        plannable(track_views(tracks@), pairs@),
        x < tracks.len(),
    ensures
        r == is_free(track_views(tracks@), pairs@, x as int, s as int, e as int, own as int),
{
    let ghost t = track_views(tracks@);
    let mut k: usize = 0;
    while k < pairs.len()
        invariant
            k <= pairs.len(),
            t == track_views(tracks@),
            plannable(t, pairs@),
            x < tracks.len(),
            forall|j: int|
                0 <= j < k && j != own ==> (match overlap_on(t, #[trigger] pairs@[j], x as int) {
                    Some((a, b)) => b <= s || a >= e,
                    None => true,
                }),
        decreases pairs.len() - k,
    {
        if k != own {
            assert(fit_pair(t, pairs@[k as int]));
            match overlap(tracks, &pairs[k], x) {
                Some((a, b)) => {
                    if !(b <= s || a >= e) {
                        return false;
                    }
                },
                None => {},
            }
        }
        k = k + 1;
    }
    true
}

// ------------------------------------------------------------------ candidates

/// A stretch that may become a stereo piece.
#[derive(Debug, Clone, Copy, PartialEq, Eq, Structural)]
pub struct Cand {
    pub pair: usize,
    pub phase: usize,
    pub t0: i64,
    pub t1: i64,
    pub hits: u64,
    pub count: u64,
}

impl Cand {
    /// Windows that the share of hits is taken of; at least one.
    pub open spec fn base(self) -> int {
        if self.count == 0 {
            1
        } else {
            self.count as int
        }
    }

    /// Hits; none without windows.
    pub open spec fn top(self) -> int {
        if self.count == 0 {
            0
        } else {
            self.hits as int
        }
    }
}

impl Ranked for Cand {
    /// The larger share of hits first.
    open spec fn below(self, other: Cand) -> bool {
        self.top() * other.base() > other.top() * self.base()
    }

    fn is_below(&self, other: &Cand) -> (r: bool) {
        let (ha, ca): (u128, u128) = if self.count == 0 {
            (0, 1)
        } else {
            (self.hits as u128, self.count as u128)
        };
        let (hb, cb): (u128, u128) = if other.count == 0 {
            (0, 1)
        } else {
            (other.hits as u128, other.count as u128)
        };
        assert(ha * cb <= 0xFFFF_FFFF_FFFF_FFFF * 0xFFFF_FFFF_FFFF_FFFF && hb * ca <= 0xFFFF_FFFF_FFFF_FFFF * 0xFFFF_FFFF_FFFF_FFFF) by (nonlinear_arith)
            requires
                ha <= 0xFFFF_FFFF_FFFF_FFFF,
                hb <= 0xFFFF_FFFF_FFFF_FFFF,
                ca <= 0xFFFF_FFFF_FFFF_FFFF,
                cb <= 0xFFFF_FFFF_FFFF_FFFF,
        ;
        ha * cb > hb * ca
    }
}

/// Sorting candidates by their share of hits never contradicts itself.
pub proof fn candidates_are_orderly(v: Seq<Cand>)
    ensures
        orderly(v),
{
    assert forall|i: int, j: int, k: int|
        #![trigger v[i], v[j], v[k]]
        0 <= i < v.len() && 0 <= j < v.len() && 0 <= k < v.len() && v[i].below(v[k]) implies v[i].below(v[j]) || v[j].below(v[k]) by {
        let (hx, cx) = (v[i].top(), v[i].base());
        let (hy, cy) = (v[j].top(), v[j].base());
        let (hz, cz) = (v[k].top(), v[k].base());
        assert(hx * cy > hy * cx || hy * cz > hz * cy) by (nonlinear_arith)
            requires
                hx * cz > hz * cx,
                cx > 0,
                cy > 0,
                cz > 0,
                hx >= 0,
                hy >= 0,
                hz >= 0,
        ;
    }
}

/// Where the first phase of a pair begins: seconds in which only one recorder
/// runs join it.
pub open spec fn edge_start(t: Seq<TrackView>, p: Seq<Pair>, k: int, start: int) -> int {
    let q = p[k];
    let b = q.map.a_time(0);
    let s = common(t, q).0;
    let (len, ok) = if b > 0 {
        (b, is_free(t, p, q.a as int, 0, s, k))
    } else {
        (-b, is_free(t, p, q.b as int, 0, q.map.b_time(s), k))
    };
    if 0 < len < EDGE_ABSORB && ok {
        min(b, 0)
    } else {
        start
    }
}

/// Where the last phase of a pair ends: seconds in which only one recorder runs
/// join it.
pub open spec fn edge_end(t: Seq<TrackView>, p: Seq<Pair>, k: int, end: int) -> int {
    let q = p[k];
    let da = t[q.a as int].duration;
    let db = t[q.b as int].duration;
    let b = q.map.a_time(db);
    let e = common(t, q).1;
    let (len, ok) = if b < da {
        (da - b, is_free(t, p, q.a as int, e, da, k))
    } else {
        (b - da, is_free(t, p, q.b as int, q.map.b_time(e), db, k))
    };
    if 0 < len < EDGE_ABSORB && ok {
        max(b, da)
    } else {
        end
    }
}

/// The candidate that phase `i` of pair `k` makes.
pub open spec fn cand_of(t: Seq<TrackView>, p: Seq<Pair>, k: int, i: int) -> Cand {
    let h = p[k].phases@[i];
    let n = p[k].phases@.len();
    Cand {
        pair: k as usize,
        phase: i as usize,
        t0: (if i == 0 {
            edge_start(t, p, k, h.start as int)
        } else {
            h.start as int
        }) as i64,
        t1: (if i + 1 == n {
            edge_end(t, p, k, h.end as int)
        } else {
            h.end as int
        }) as i64,
        hits: h.evidence.hits,
        count: h.evidence.count,
    }
}

/// The candidates of the first `n` phases of pair `k`: its stretches together.
pub open spec fn cands_in(t: Seq<TrackView>, p: Seq<Pair>, k: int, n: int) -> Seq<Cand>
    decreases n,
{
    if n <= 0 {
        Seq::empty()
    } else if p[k].ok && p[k].phases@[n - 1].kind == Kind::Together {
        cands_in(t, p, k, n - 1).push(cand_of(t, p, k, n - 1))
    } else {
        cands_in(t, p, k, n - 1)
    }
}

/// The candidates of the first `m` pairs.
pub open spec fn cands(t: Seq<TrackView>, p: Seq<Pair>, m: int) -> Seq<Cand>
    decreases m,
{
    if m <= 0 {
        Seq::empty()
    } else {
        cands(t, p, m - 1) + cands_in(t, p, m - 1, p[m - 1].phases@.len() as int)
    }
}

/// Whether a candidate is one of a pair, within the bounds of time.
pub open spec fn cand_ok(c: Cand, p: Seq<Pair>) -> bool {
    c.pair < p.len() && c.phase < p[c.pair as int].phases@.len() && -PIECE_LIMIT <= c.t0 <= PIECE_LIMIT && -PIECE_LIMIT <= c.t1 <= PIECE_LIMIT
}

/// Where the first phase of a pair begins.
fn find_start(tracks: &Vec<Track>, pairs: &Vec<Pair>, k: usize, start: i64) -> (r: i64)
    requires
        plannable(track_views(tracks@), pairs@),
        k < pairs.len(),
        -PIECE_LIMIT <= start <= PIECE_LIMIT,
    ensures
        r == edge_start(track_views(tracks@), pairs@, k as int, start as int),
        -PIECE_LIMIT <= r <= PIECE_LIMIT,
{
    let ghost t = track_views(tracks@);
    let q = &pairs[k];
    assert(fit_pair(t, pairs@[k as int]));
    proof {
        lemma_a_bound(q.map, 0, 0);
    }
    let b: i64 = q.to_a(0);
    let (s, _) = common_time(tracks, q);
    let (len, ok): (i64, bool) = if b > 0 {
        (b, check_free(tracks, pairs, q.a, 0, s, k))
    } else {
        (-b, check_free(tracks, pairs, q.b, 0, q.to_b(s), k))
    };
    if 0 < len && len < EDGE_ABSORB && ok {
        if b <= 0 {
            b
        } else {
            0
        }
    } else {
        start
    }
}

/// Where the last phase of a pair ends.
fn find_end(tracks: &Vec<Track>, pairs: &Vec<Pair>, k: usize, end: i64) -> (r: i64)
    requires
        plannable(track_views(tracks@), pairs@),
        k < pairs.len(),
        -PIECE_LIMIT <= end <= PIECE_LIMIT,
    ensures
        r == edge_end(track_views(tracks@), pairs@, k as int, end as int),
        -PIECE_LIMIT <= r <= PIECE_LIMIT,
{
    let ghost t = track_views(tracks@);
    let q = &pairs[k];
    assert(fit_pair(t, pairs@[k as int]));
    assert(t[q.a as int] == tracks@[q.a as int]@ && t[q.b as int] == tracks@[q.b as int]@);
    assert(timed(t[q.a as int]) && timed(t[q.b as int]));
    let da: i64 = time_of(&tracks[q.a]);
    let db: i64 = time_of(&tracks[q.b]);
    proof {
        lemma_duration(t[q.a as int]);
        lemma_duration(t[q.b as int]);
        lemma_a_bound(q.map, db as int, TIME_LIMIT as int);
    }
    let b: i64 = q.to_a(db);
    let (_, e) = common_time(tracks, q);
    let (len, ok): (i64, bool) = if b < da {
        (da - b, check_free(tracks, pairs, q.a, e, da, k))
    } else {
        (b - da, check_free(tracks, pairs, q.b, q.to_b(e), db, k))
    };
    if 0 < len && len < EDGE_ABSORB && ok {
        if b >= da {
            b
        } else {
            da
        }
    } else {
        end
    }
}

/// The stretches that may become stereo pieces.
fn find_cands(tracks: &Vec<Track>, pairs: &Vec<Pair>) -> (r: Vec<Cand>)
    requires
        plannable(track_views(tracks@), pairs@),
    ensures
        r@ == cands(track_views(tracks@), pairs@, pairs.len() as int),
        forall|j: int| 0 <= j < r.len() ==> cand_ok(#[trigger] r@[j], pairs@),
{
    let ghost t = track_views(tracks@);
    let mut out: Vec<Cand> = Vec::new();
    let mut k: usize = 0;
    while k < pairs.len()
        invariant
            k <= pairs.len(),
            t == track_views(tracks@),
            plannable(t, pairs@),
            out@ == cands(t, pairs@, k as int),
            forall|j: int| 0 <= j < out.len() ==> cand_ok(#[trigger] out@[j], pairs@),
        decreases pairs.len() - k,
    {
        let ghost before = out@;
        assert(fit_pair(t, pairs@[k as int]));
        let n: usize = pairs[k].phases.len();
        let mut i: usize = 0;
        assert(before + cands_in(t, pairs@, k as int, 0) =~= before);
        while i < n
            invariant
                i <= n == pairs@[k as int].phases.len(),
                k < pairs.len(),
                t == track_views(tracks@),
                plannable(t, pairs@),
                fit_pair(t, pairs@[k as int]),
                out@ == before + cands_in(t, pairs@, k as int, i as int),
                forall|j: int| 0 <= j < out.len() ==> cand_ok(#[trigger] out@[j], pairs@),
            decreases n - i,
        {
            let h = pairs[k].phases[i];
            assert(-PIECE_LIMIT <= pairs@[k as int].phases@[i as int].start <= PIECE_LIMIT);
            if pairs[k].ok && h.kind == Kind::Together {
                let t0: i64 = if i == 0 {
                    find_start(tracks, pairs, k, h.start)
                } else {
                    h.start
                };
                let t1: i64 = if i + 1 == n {
                    find_end(tracks, pairs, k, h.end)
                } else {
                    h.end
                };
                let c = Cand { pair: k, phase: i, t0, t1, hits: h.evidence.hits, count: h.evidence.count };
                out.push(c);
                assert(c == cand_of(t, pairs@, k as int, i as int));
                assert(out@ =~= before + cands_in(t, pairs@, k as int, i + 1));
            }
            i = i + 1;
        }
        k = k + 1;
    }
    out
}

// ------------------------------------------------------------------ choosing

/// The time of track `x` that a candidate takes, if it takes any.
pub open spec fn claim(t: Seq<TrackView>, p: Seq<Pair>, c: Cand, x: int) -> Option<(int, int)> {
    let q = p[c.pair as int];
    if x == q.a {
        Some((max(c.t0 as int, 0), min(c.t1 as int, t[x].duration)))
    } else if x == q.b {
        Some((max(q.map.b_time(c.t0 as int), 0), min(q.map.b_time(c.t1 as int), t[x].duration)))
    } else {
        None
    }
}

/// Whether two times compete: they overlap by more than the slack at both ends.
pub open spec fn overlaps(a: (int, int), b: (int, int)) -> bool {
    a.0 < b.1 - SLACK && a.1 > b.0 + SLACK
}

/// Whether a chosen candidate `d` keeps candidate `c` from track `x`.
pub open spec fn clash_on(t: Seq<TrackView>, p: Seq<Pair>, d: Cand, c: Cand, x: int) -> bool {
    match (claim(t, p, d, x), claim(t, p, c, x)) {
        (Some(i), Some(j)) => overlaps(i, j),
        _ => false,
    }
}

/// Whether a chosen candidate `d` keeps candidate `c` from one of its tracks.
pub open spec fn clash(t: Seq<TrackView>, p: Seq<Pair>, d: Cand, c: Cand) -> bool {
    let q = p[c.pair as int];
    clash_on(t, p, d, c, q.a as int) || clash_on(t, p, d, c, q.b as int)
}

/// Whether one of the chosen candidates `s` keeps candidate `c` from its tracks.
pub open spec fn blocked(t: Seq<TrackView>, p: Seq<Pair>, s: Seq<Cand>, c: Cand) -> bool {
    exists|q: int| 0 <= q < s.len() && clash(t, p, #[trigger] s[q], c)
}

/// The candidates chosen among the first `n`: each one that no chosen one before
/// it keeps from its tracks.
pub open spec fn chosen(t: Seq<TrackView>, p: Seq<Pair>, c: Seq<Cand>, n: int) -> Seq<Cand>
    decreases n,
{
    if n <= 0 {
        Seq::empty()
    } else {
        let s = chosen(t, p, c, n - 1);
        if blocked(t, p, s, c[n - 1]) {
            s
        } else {
            s.push(c[n - 1])
        }
    }
}

/// The time of track `x` that a candidate takes.
fn claim_of(tracks: &Vec<Track>, pairs: &Vec<Pair>, c: &Cand, x: usize) -> (r: Option<(i64, i64)>)
    requires
        plannable(track_views(tracks@), pairs@),
        cand_ok(*c, pairs@),
        x < tracks.len(),
    ensures
        match r {
            Some((a, b)) => claim(track_views(tracks@), pairs@, *c, x as int) == Some((a as int, b as int)) && 0 <= a <= MONO_LIMIT && -REACH_LIMIT <= b <= TIME_LIMIT,
            None => claim(track_views(tracks@), pairs@, *c, x as int) is None,
        },
{
    let ghost t = track_views(tracks@);
    let q = &pairs[c.pair];
    assert(fit_pair(t, pairs@[c.pair as int]));
    assert(t[x as int] == tracks@[x as int]@);
    proof {
        lemma_duration(t[x as int]);
        lemma_b_bound(q.map, c.t0 as int, PIECE_LIMIT as int);
        lemma_b_bound(q.map, c.t1 as int, PIECE_LIMIT as int);
    }
    let (a, b): (i64, i64) = if x == q.a {
        (c.t0, c.t1)
    } else if x == q.b {
        (q.to_b(c.t0), q.to_b(c.t1))
    } else {
        return None;
    };
    Some(
        (
            if a >= 0 {
                a
            } else {
                0
            },
            if b <= time_of(&tracks[x]) {
                b
            } else {
                time_of(&tracks[x])
            },
        ),
    )
}

/// Whether a chosen candidate keeps another one from track `x`.
fn clashes_on(tracks: &Vec<Track>, pairs: &Vec<Pair>, d: &Cand, c: &Cand, x: usize) -> (r: bool)
    requires
        plannable(track_views(tracks@), pairs@),
        cand_ok(*d, pairs@),
        cand_ok(*c, pairs@),
        x < tracks.len(),
    ensures
        r == clash_on(track_views(tracks@), pairs@, *d, *c, x as int),
{
    match (claim_of(tracks, pairs, d, x), claim_of(tracks, pairs, c, x)) {
        (Some(i), Some(j)) => i.0 < j.1 - SLACK && i.1 > j.0 + SLACK,
        _ => false,
    }
}

/// Takes the candidates in the given order, each one that no chosen one before
/// it keeps from its tracks.
fn choose_cands(tracks: &Vec<Track>, pairs: &Vec<Pair>, c: &Vec<Cand>) -> (r: Vec<Cand>)
    requires
        plannable(track_views(tracks@), pairs@),
        forall|j: int| 0 <= j < c.len() ==> cand_ok(#[trigger] c@[j], pairs@),
    ensures
        r@ == chosen(track_views(tracks@), pairs@, c@, c.len() as int),
        forall|j: int| 0 <= j < r.len() ==> cand_ok(#[trigger] r@[j], pairs@),
{
    let ghost t = track_views(tracks@);
    let mut out: Vec<Cand> = Vec::new();
    let mut i: usize = 0;
    while i < c.len()
        invariant
            i <= c.len(),
            t == track_views(tracks@),
            plannable(t, pairs@),
            forall|j: int| 0 <= j < c.len() ==> cand_ok(#[trigger] c@[j], pairs@),
            out@ == chosen(t, pairs@, c@, i as int),
            forall|j: int| 0 <= j < out.len() ==> cand_ok(#[trigger] out@[j], pairs@),
        decreases c.len() - i,
    {
        let x = c[i];
        assert(cand_ok(c@[i as int], pairs@));
        assert(fit_pair(t, pairs@[x.pair as int]));
        let mut taken = false;
        let mut q: usize = 0;
        while q < out.len()
            invariant
                q <= out.len(),
                t == track_views(tracks@),
                plannable(t, pairs@),
                cand_ok(x, pairs@),
                fit_pair(t, pairs@[x.pair as int]),
                forall|j: int| 0 <= j < out.len() ==> cand_ok(#[trigger] out@[j], pairs@),
                taken == exists|j: int| 0 <= j < q && clash(t, pairs@, #[trigger] out@[j], x),
            decreases out.len() - q,
        {
            assert(cand_ok(out@[q as int], pairs@));
            let a: usize = pairs[x.pair].a;
            let b: usize = pairs[x.pair].b;
            if clashes_on(tracks, pairs, &out[q], &x, a) || clashes_on(tracks, pairs, &out[q], &x, b) {
                assert(clash(t, pairs@, out@[q as int], x));
                taken = true;
            }
            q = q + 1;
        }
        if !taken {
            out.push(x);
        }
        i = i + 1;
    }
    out
}

/// A stretch becomes stereo only where no stretch with a larger share of hits,
/// chosen before it, takes the same time of one of its tracks.
pub proof fn chosen_stretches_do_not_clash(t: Seq<TrackView>, p: Seq<Pair>, c: Seq<Cand>, n: int)
    requires
        0 <= n <= c.len(),
    ensures
        forall|i: int, j: int| 0 <= i < j < chosen(t, p, c, n).len() ==> !clash(t, p, #[trigger] chosen(t, p, c, n)[i], #[trigger] chosen(t, p, c, n)[j]),
    decreases n,
{
    if n > 0 {
        chosen_stretches_do_not_clash(t, p, c, n - 1);
        let s = chosen(t, p, c, n - 1);
        let u = chosen(t, p, c, n);
        assert forall|i: int, j: int| 0 <= i < j < u.len() implies !clash(t, p, #[trigger] u[i], #[trigger] u[j]) by {
            assert(u[i] == s[i]);
            if j < s.len() {
                assert(u[j] == s[j]);
            } else {
                assert(!blocked(t, p, s, c[n - 1]));
            }
        }
    }
}

// ------------------------------------------------------------------ pieces

/// A share in billionths.
pub open spec fn share(h: Evidence) -> Option<int> {
    if h.count == 0 {
        None
    } else {
        Some(h.hits * 1_000_000_000 / (h.count as int))
    }
}

/// Mean coherence in billionths.
pub open spec fn mean(h: Evidence) -> Option<int> {
    if h.measured == 0 {
        None
    } else {
        Some(h.coherence as int / (h.measured as int))
    }
}

/// The stereo piece of a candidate.
pub open spec fn stereo_piece(t: Seq<TrackView>, p: Seq<Pair>, c: Cand) -> PieceView {
    let q = p[c.pair as int];
    let h = q.phases@[c.phase as int].evidence;
    PieceView {
        stereo: true,
        alone: false,
        left: q.a as int,
        right: Some(q.b as int),
        pair: Some(c.pair as int),
        reference: q.a as int,
        t0: c.t0 as int,
        t1: c.t1 as int,
        spans: seq![Span { pair: c.pair, other: q.b, t0: c.t0, t1: c.t1 }],
        silent: Seq::empty(),
        hit_share: share(h),
        msc: mean(h),
        start_secs: t[q.a as int].start_secs + seconds(c.t0 as int),
    }
}

/// The mono piece of track `x` from `s` to `e`.
pub open spec fn mono_piece(t: Seq<TrackView>, x: int, s: int, e: int, alone: bool) -> PieceView {
    PieceView {
        stereo: false,
        alone: alone,
        left: x,
        right: None,
        pair: None,
        reference: x,
        t0: s,
        t1: e,
        spans: Seq::empty(),
        silent: Seq::empty(),
        hit_share: None,
        msc: None,
        start_secs: t[x].start_secs + seconds(s),
    }
}

/// Whether no pair has part of the time of track `x` in common, up to the slack.
pub open spec fn is_alone(t: Seq<TrackView>, p: Seq<Pair>, x: int, s: int, e: int) -> bool {
    forall|k: int|
        0 <= k < p.len() ==> (match overlap_on(t, #[trigger] p[k], x) {
            Some((a, b)) => b <= s + SLACK || a >= e - SLACK,
            None => true,
        })
}

/// A time of a track.
#[derive(Debug, Clone, Copy, PartialEq, Eq, Structural)]
pub struct Interval {
    pub start: i64,
    pub end: i64,
}

impl Ranked for Interval {
    open spec fn below(self, other: Interval) -> bool {
        self.start < other.start
    }

    fn is_below(&self, other: &Interval) -> (r: bool) {
        self.start < other.start
    }
}

/// The times of track `x` that the first `n` chosen candidates take.
pub open spec fn claims_on(t: Seq<TrackView>, p: Seq<Pair>, s: Seq<Cand>, x: int, n: int) -> Seq<Interval>
    decreases n,
{
    if n <= 0 {
        Seq::empty()
    } else {
        match claim(t, p, s[n - 1], x) {
            Some((a, b)) => claims_on(t, p, s, x, n - 1).push(Interval { start: a as i64, end: b as i64 }),
            None => claims_on(t, p, s, x, n - 1),
        }
    }
}

/// The piece of track `x` from `pos` to `s`, if it is worth a file.
pub open spec fn rest(t: Seq<TrackView>, p: Seq<Pair>, x: int, pos: int, s: int) -> Seq<PieceView> {
    if s - pos >= MIN_PIECE {
        seq![mono_piece(t, x, pos, s, is_alone(t, p, x, pos, s))]
    } else {
        Seq::empty()
    }
}

/// The pieces of track `x` from `pos` on that lie between the taken times from `k` on.
pub open spec fn between(t: Seq<TrackView>, p: Seq<Pair>, x: int, c: Seq<Interval>, k: int, pos: int) -> Seq<PieceView>
    decreases c.len() - k,
{
    if k >= c.len() {
        rest(t, p, x, pos, t[x].duration)
    } else {
        rest(t, p, x, pos, c[k].start as int) + between(t, p, x, c, k + 1, max(pos, c[k].end as int))
    }
}

/// The mono pieces of track `x`.
pub open spec fn monos(t: Seq<TrackView>, p: Seq<Pair>, s: Seq<Cand>, x: int) -> Seq<PieceView> {
    between(t, p, x, sorted(claims_on(t, p, s, x, s.len() as int)), 0, 0)
}

/// The mono pieces of the first `n` tracks.
pub open spec fn all_monos(t: Seq<TrackView>, p: Seq<Pair>, s: Seq<Cand>, n: int) -> Seq<PieceView>
    decreases n,
{
    if n <= 0 {
        Seq::empty()
    } else {
        all_monos(t, p, s, n - 1) + monos(t, p, s, n - 1)
    }
}

/// The candidates that become stereo: those with the larger share of hits first.
pub open spec fn winners(t: Seq<TrackView>, p: Seq<Pair>) -> Seq<Cand> {
    let c = sorted(cands(t, p, p.len() as int));
    chosen(t, p, c, c.len() as int)
}

/// All pieces: the stereo ones, then what is left of each track.
pub open spec fn pieces(t: Seq<TrackView>, p: Seq<Pair>) -> Seq<PieceView> {
    let s = winners(t, p);
    Seq::new(s.len(), |i: int| stereo_piece(t, p, s[i])) + all_monos(t, p, s, t.len() as int)
}

/// Whether a time lies in a piece.
pub open spec fn in_piece(v: PieceView, time: int) -> bool {
    v.t0 <= time < v.t1
}

/// Whether a time lies in one of the taken times.
pub open spec fn in_claim(c: Seq<Interval>, time: int) -> bool {
    exists|j: int| 0 <= j < c.len() && (#[trigger] c[j]).start <= time < c[j].end
}

/// Whether a time lies in a rest too short for a file.
pub open spec fn in_short_rest(c: Seq<Interval>, dur: int, time: int) -> bool {
    exists|u: int, v: int| u <= time < v && v - u < MIN_PIECE && #[trigger] is_rest(c, dur, u, v)
}

/// Whether a rest goes from the start or a taken time's end to the end or a
/// taken time's start.
pub open spec fn is_rest(c: Seq<Interval>, dur: int, u: int, v: int) -> bool {
    &&& u == 0 || (exists|j: int| 0 <= j < c.len() && (#[trigger] c[j]).end == u)
    &&& v == dur || (exists|j: int| 0 <= j < c.len() && (#[trigger] c[j]).start == v)
}

/// No time from `pos` on is lost.
proof fn lemma_covered(t: Seq<TrackView>, p: Seq<Pair>, x: int, c: Seq<Interval>, k: int, pos: int, time: int)
    requires
        0 <= k <= c.len(),
        pos <= time < t[x].duration,
        pos == 0 || (exists|j: int| 0 <= j < c.len() && (#[trigger] c[j]).end == pos),
    ensures
        in_claim(c, time) || in_short_rest(c, t[x].duration, time) || (exists|i: int|
            0 <= i < between(t, p, x, c, k, pos).len() && in_piece(#[trigger] between(t, p, x, c, k, pos)[i], time)),
    decreases c.len() - k,
{
    let all = between(t, p, x, c, k, pos);
    if k >= c.len() {
        let d = t[x].duration;
        if d - pos >= MIN_PIECE {
            assert(in_piece(all[0], time));
        } else {
            assert(is_rest(c, d, pos, d));
        }
    } else {
        let s = c[k].start as int;
        let first = rest(t, p, x, pos, s);
        let more = between(t, p, x, c, k + 1, max(pos, c[k].end as int));
        if time < s {
            if s - pos >= MIN_PIECE {
                assert(all[0] == first[0]);
                assert(in_piece(all[0], time));
            } else {
                assert(is_rest(c, t[x].duration, pos, s));
            }
        } else if time < c[k].end {
            assert(in_claim(c, time));
        } else {
            lemma_covered(t, p, x, c, k + 1, max(pos, c[k].end as int), time);
            if !in_claim(c, time) && !in_short_rest(c, t[x].duration, time) {
                let i = choose|i: int| 0 <= i < more.len() && in_piece(#[trigger] more[i], time);
                assert(all[first.len() + i] == more[i]);
            }
        }
    }
}

/// No time of a track is lost: each lies in a stereo piece, in a mono piece, or
/// in a rest too short for a file.
pub proof fn no_time_is_lost(t: Seq<TrackView>, p: Seq<Pair>, s: Seq<Cand>, x: int, time: int)
    requires
        0 <= x < t.len(),
        0 <= time < t[x].duration,
    ensures
        ({
            let c = sorted(claims_on(t, p, s, x, s.len() as int));
            in_claim(c, time) || in_short_rest(c, t[x].duration, time) || (exists|i: int|
                0 <= i < monos(t, p, s, x).len() && in_piece(#[trigger] monos(t, p, s, x)[i], time))
        }),
{
    let c = sorted(claims_on(t, p, s, x, s.len() as int));
    lemma_covered(t, p, x, c, 0, 0, time);
    if !in_claim(c, time) && !in_short_rest(c, t[x].duration, time) {
        let all = between(t, p, x, c, 0, 0);
        let i = choose|i: int| 0 <= i < all.len() && in_piece(#[trigger] all[i], time);
        assert(in_piece(monos(t, p, s, x)[i], time));
    }
}

/// Times sorted by their start.
spec fn by_start(c: Seq<Interval>) -> bool {
    forall|i: int, j: int| #![trigger c[i], c[j]] 0 <= i < j < c.len() ==> c[i].start <= c[j].start
}

/// The pieces from `pos` on lie outside the taken times.
proof fn lemma_apart(t: Seq<TrackView>, p: Seq<Pair>, x: int, c: Seq<Interval>, k: int, pos: int, i: int, j: int)
    requires
        by_start(c),
        0 <= k <= c.len(),
        forall|m: int| 0 <= m < k ==> (#[trigger] c[m]).end <= pos,
        forall|m: int| 0 <= m < c.len() ==> (#[trigger] c[m]).end <= t[x].duration,
        0 <= i < between(t, p, x, c, k, pos).len(),
        0 <= j < c.len(),
    ensures
        ({
            let v = between(t, p, x, c, k, pos)[i];
            pos <= v.t0 && (c[j].end <= v.t0 || v.t1 <= c[j].start)
        }),
    decreases c.len() - k,
{
    if k < c.len() {
        let s = c[k].start as int;
        let first = rest(t, p, x, pos, s);
        let next = max(pos, c[k].end as int);
        let more = between(t, p, x, c, k + 1, next);
        if i < first.len() {
            assert(between(t, p, x, c, k, pos)[i] == first[i]);
            if j >= k {
                assert(c[k].start <= c[j].start);
            }
        } else {
            assert(between(t, p, x, c, k, pos)[i] == more[i - first.len()]);
            lemma_apart(t, p, x, c, k + 1, next, i - first.len(), j);
        }
    }
}

/// No time of a track goes into two files: a mono piece lies outside every time
/// that a stereo piece takes of the track.
pub proof fn no_time_is_used_twice(t: Seq<TrackView>, p: Seq<Pair>, s: Seq<Cand>, x: int, i: int, j: int)
    requires
        -REACH_LIMIT <= t[x].duration <= REACH_LIMIT,
        forall|k: int| 0 <= k < s.len() ==> cand_ok(#[trigger] s[k], p) && p[s[k].pair as int].map.valid(),
        0 <= i < monos(t, p, s, x).len(),
        0 <= j < sorted(claims_on(t, p, s, x, s.len() as int)).len(),
    ensures
        ({
            let v = monos(t, p, s, x)[i];
            let c = sorted(claims_on(t, p, s, x, s.len() as int))[j];
            c.end <= v.t0 || v.t1 <= c.start
        }),
{
    let all = claims_on(t, p, s, x, s.len() as int);
    let c = sorted(all);
    sorted_is_sorted(all);
    let q = choose|q: Seq<int>| #[trigger] crate::order::arranged(all, c, q) && (orderly(all) ==> crate::order::in_order(all, q));
    lemma_claims_inside(t, p, s, x, s.len() as int);
    assert forall|a: int, b: int| #![trigger c[a], c[b]] 0 <= a < b < c.len() implies c[a].start <= c[b].start by {
        assert(c[a] == all[q[a]] && c[b] == all[q[b]]);
        assert(crate::order::stands_before(all, q[a], q[b]));
    }
    assert forall|m: int| 0 <= m < c.len() implies (#[trigger] c[m]).end <= t[x].duration by {
        assert(c[m] == all[q[m]]);
    }
    lemma_apart(t, p, x, c, 0, 0, i, j);
}

/// Taken times end with the track.
proof fn lemma_claims_inside(t: Seq<TrackView>, p: Seq<Pair>, s: Seq<Cand>, x: int, n: int)
    requires
        -REACH_LIMIT <= t[x].duration <= REACH_LIMIT,
        0 <= n <= s.len(),
        forall|k: int| 0 <= k < s.len() ==> cand_ok(#[trigger] s[k], p) && p[s[k].pair as int].map.valid(),
    ensures
        forall|m: int| 0 <= m < claims_on(t, p, s, x, n).len() ==> (#[trigger] claims_on(t, p, s, x, n)[m]).end <= t[x].duration,
    decreases n,
{
    if n > 0 {
        lemma_claims_inside(t, p, s, x, n - 1);
        let a = claims_on(t, p, s, x, n - 1);
        let b = claims_on(t, p, s, x, n);
        let c = s[n - 1];
        lemma_b_bound(p[c.pair as int].map, c.t1 as int, PIECE_LIMIT as int);
        assert forall|m: int| 0 <= m < b.len() implies (#[trigger] b[m]).end <= t[x].duration by {
            if m < a.len() {
                assert(b[m] == a[m]);
            }
        }
    }
}

/// The stereo piece of a candidate.
fn make_stereo(tracks: &Vec<Track>, pairs: &Vec<Pair>, c: &Cand) -> (r: Piece)
    requires
        plannable(track_views(tracks@), pairs@),
        cand_ok(*c, pairs@),
    ensures
        r@ == stereo_piece(track_views(tracks@), pairs@, *c),
        piece_ok(track_views(tracks@), pairs@, r@),
{
    let ghost t = track_views(tracks@);
    let q = &pairs[c.pair];
    assert(fit_pair(t, pairs@[c.pair as int]));
    let h = q.phases[c.phase].evidence;
    assert(fit_evidence(q.phases@[c.phase as int].evidence));
    assert(t[q.a as int] == tracks@[q.a as int]@ && timed(t[q.a as int]));
    let mut spans: Vec<Span> = Vec::new();
    spans.push(Span { pair: c.pair, other: q.b, t0: c.t0, t1: c.t1 });
    let hit_share: Option<i64> = if h.count == 0 {
        None
    } else {
        proof {
            lemma_quotient(h.hits * 1_000_000_000, h.count as int);
        }
        Some((h.hits as u128 * 1_000_000_000 / h.count as u128) as i64)
    };
    let msc: Option<i64> = if h.measured == 0 {
        None
    } else {
        assert(0 <= h.coherence as int / (h.measured as int) <= 0xFFFF_FFFF) by (nonlinear_arith)
            requires
                0 <= h.coherence <= h.measured * 0xFFFF_FFFF,
                h.measured > 0,
        ;
        Some((h.coherence / h.measured) as i64)
    };
    let silent: Vec<Silence> = Vec::new();
    assert(silence_views(silent@) =~= Seq::<SilenceView>::empty());
    assert(lengths(silence_views(silent@)).len() == 0);
    assert(spans@ =~= seq![Span { pair: c.pair, other: q.b, t0: c.t0, t1: c.t1 }]);
    Piece {
        stereo: true,
        alone: false,
        left: q.a,
        right: Some(q.b),
        pair: Some(c.pair),
        reference: q.a,
        t0: c.t0,
        t1: c.t1,
        spans,
        silent,
        hit_share,
        msc,
        start_secs: tracks[q.a].start_secs + to_seconds(c.t0),
    }
}

/// A quotient is no larger than what is divided.
proof fn lemma_quotient(n: int, d: int)
    requires
        0 <= n,
        0 < d,
    ensures
        0 <= n / d <= n,
{
    assert(0 <= n / d <= n) by (nonlinear_arith)
        requires
            0 <= n,
            0 < d,
    ;
}

/// Whether no pair has part of a time in common.
fn check_alone(tracks: &Vec<Track>, pairs: &Vec<Pair>, x: usize, s: i64, e: i64) -> (r: bool)
    requires
        plannable(track_views(tracks@), pairs@),
        x < tracks.len(),
        -REACH_LIMIT <= s <= REACH_LIMIT,
        -REACH_LIMIT <= e <= REACH_LIMIT,
    ensures
        r == is_alone(track_views(tracks@), pairs@, x as int, s as int, e as int),
{
    let ghost t = track_views(tracks@);
    let mut k: usize = 0;
    while k < pairs.len()
        invariant
            k <= pairs.len(),
            t == track_views(tracks@),
            plannable(t, pairs@),
            x < tracks.len(),
            -REACH_LIMIT <= s <= REACH_LIMIT,
            -REACH_LIMIT <= e <= REACH_LIMIT,
            forall|j: int|
                0 <= j < k ==> (match overlap_on(t, #[trigger] pairs@[j], x as int) {
                    Some((a, b)) => b <= s + SLACK || a >= e - SLACK,
                    None => true,
                }),
        decreases pairs.len() - k,
    {
        assert(fit_pair(t, pairs@[k as int]));
        match overlap(tracks, &pairs[k], x) {
            Some((a, b)) => {
                if !(b <= s + SLACK || a >= e - SLACK) {
                    return false;
                }
            },
            None => {},
        }
        k = k + 1;
    }
    true
}

/// The lengths of silences.
pub open spec fn lengths(s: Seq<SilenceView>) -> Seq<int> {
    s.map_values(|x: SilenceView| x.length)
}

/// All silences together.
pub open spec fn total(s: Seq<SilenceView>) -> int {
    sum(lengths(s))
}

/// Whether silences can be counted together.
pub open spec fn silences_ok(s: Seq<SilenceView>) -> bool {
    &&& forall|i: int| 0 <= i < s.len() ==> 0 <= (#[trigger] s[i]).length
    &&& total(s) <= i128::MAX
}

/// The silence that a piece has or can still give: all of its own, and its length
/// where it is a gap.
pub open spec fn worth(v: PieceView) -> int {
    total(v.silent) + MONO_LIMIT
}

/// The silences that pieces have or can still give.
pub open spec fn worths(v: Seq<PieceView>) -> Seq<int> {
    v.map_values(|x: PieceView| worth(x))
}

/// Whether all silences that come of pieces can be counted together.
pub open spec fn countable(v: Seq<PieceView>) -> bool {
    sum(worths(v)) <= i128::MAX
}

/// Whether pieces have no silences.
pub open spec fn quiet(v: Seq<PieceView>) -> bool {
    forall|i: int| 0 <= i < v.len() ==> (#[trigger] v[i]).silent.len() == 0
}

/// Whether starts lie where stretches begin.
pub open spec fn rooted(v: Seq<PieceView>) -> bool {
    forall|i: int| 0 <= i < v.len() ==> -START_BASE <= (#[trigger] v[i]).start_secs <= START_BASE
}

/// All silences of pieces without any can be counted together.
pub proof fn lemma_quiet_is_countable(v: Seq<PieceView>)
    requires
        quiet(v),
        v.len() <= usize::MAX,
    ensures
        countable(v),
{
    assert forall|i: int| 0 <= i < worths(v).len() implies #[trigger] worths(v)[i] == MONO_LIMIT by {
        assert(v[i].silent.len() == 0);
        assert(lengths(v[i].silent).len() == 0);
    }
    lemma_sum_of_equals(worths(v), MONO_LIMIT as int);
    let n = v.len() as int;
    assert(n * 130_000_000_000_000_000 <= 0x7FFF_FFFF_FFFF_FFFF_FFFF_FFFF_FFFF_FFFF) by (nonlinear_arith)
        requires
            0 <= n <= 0xFFFF_FFFF_FFFF_FFFF,
    ;
}

/// Mono pieces of a track have no silences.
proof fn lemma_between_quiet(t: Seq<TrackView>, p: Seq<Pair>, x: int, c: Seq<Interval>, k: int, pos: int)
    requires
        0 <= k <= c.len(),
    ensures
        quiet(between(t, p, x, c, k, pos)),
    decreases c.len() - k,
{
    if k < c.len() {
        lemma_between_quiet(t, p, x, c, k + 1, max(pos, c[k].end as int));
    }
}

/// Mono pieces have no silences.
proof fn lemma_monos_quiet(t: Seq<TrackView>, p: Seq<Pair>, s: Seq<Cand>, n: int)
    ensures
        quiet(all_monos(t, p, s, n)),
    decreases n,
{
    if n > 0 {
        lemma_monos_quiet(t, p, s, n - 1);
        lemma_between_quiet(t, p, n - 1, sorted(claims_on(t, p, s, n - 1, s.len() as int)), 0, 0);
    }
}

/// No piece of tracks has silences at first.
pub proof fn pieces_begin_quiet(t: Seq<TrackView>, p: Seq<Pair>)
    ensures
        quiet(pieces(t, p)),
{
    lemma_monos_quiet(t, p, winners(t, p), t.len() as int);
}

/// Whether a span ties its track and the reference track by their pair.
pub open spec fn tied(p: Seq<Pair>, reference: int, s: Span) -> bool {
    let q = p[s.pair as int];
    (q.a == reference && q.b == s.other) || (q.b == reference && q.a == s.other)
}

/// Whether times lie within a limit.
pub open spec fn within(v: PieceView, limit: int) -> bool {
    &&& -limit <= v.t0 <= limit
    &&& -limit <= v.t1 <= limit
    &&& forall|i: int| 0 <= i < v.spans.len() ==> -limit <= (#[trigger] v.spans[i]).t0 <= limit && -limit <= v.spans[i].t1 <= limit
}

/// Whether a piece is one of these tracks and pairs, within the bounds of time.
pub open spec fn piece_ok(t: Seq<TrackView>, p: Seq<Pair>, v: PieceView) -> bool {
    &&& 0 <= v.left < t.len()
    &&& 0 <= v.reference < t.len()
    &&& v.right matches Some(r) ==> 0 <= r < t.len()
    &&& -START_REACH <= v.start_secs <= START_REACH
    &&& v.silent.len() == 0 ==> -START_BASE <= v.start_secs <= START_BASE
    &&& silences_ok(v.silent)
    &&& forall|i: int| 0 <= i < v.spans.len() ==> (#[trigger] v.spans[i]).pair < p.len() && v.spans[i].other < t.len() && tied(p, v.reference, v.spans[i])
    &&& if v.stereo {
        &&& v.spans.len() > 0
        &&& v.spans.len() == 1 ==> within(v, STEREO_LIMIT as int)
        &&& v.spans.len() > 1 ==> within(v, MERGED_LIMIT as int)
    } else {
        &&& v.reference == v.left
        &&& v.right is None
        &&& v.spans.len() == 0
        &&& 0 <= v.t0
        &&& v.t0 + MIN_PIECE <= v.t1 <= MONO_LIMIT
    }
}

/// Whether all pieces are ones of these tracks and pairs.
pub open spec fn pieces_ok(t: Seq<TrackView>, p: Seq<Pair>, v: Seq<PieceView>) -> bool {
    forall|i: int| 0 <= i < v.len() ==> piece_ok(t, p, #[trigger] v[i])
}

/// Appends the piece of track `x` from `pos` to `s`, if it is worth a file.
fn push_rest(out: &mut Vec<Piece>, tracks: &Vec<Track>, pairs: &Vec<Pair>, x: usize, pos: i64, s: i64)
    requires
        plannable(track_views(tracks@), pairs@),
        x < tracks.len(),
        0 <= pos <= MONO_LIMIT,
        -REACH_LIMIT <= s <= MONO_LIMIT,
        pieces_ok(track_views(tracks@), pairs@, piece_views(old(out)@)),
    ensures
        pieces_ok(track_views(tracks@), pairs@, piece_views(final(out)@)),
        piece_views(final(out)@) == piece_views(old(out)@) + rest(track_views(tracks@), pairs@, x as int, pos as int, s as int),
{
    let ghost t = track_views(tracks@);
    let ghost o = out@;
    if s - pos >= MIN_PIECE {
        let alone = check_alone(tracks, pairs, x, pos, s);
        assert(t[x as int] == tracks@[x as int]@ && timed(t[x as int]));
        let spans: Vec<Span> = Vec::new();
        let silent: Vec<Silence> = Vec::new();
        assert(silence_views(silent@) =~= Seq::<SilenceView>::empty());
        assert(lengths(silence_views(silent@)).len() == 0);
        assert(spans@ =~= Seq::<Span>::empty());
        let m = Piece {
            stereo: false,
            alone,
            left: x,
            right: None,
            pair: None,
            reference: x,
            t0: pos,
            t1: s,
            spans,
            silent,
            hit_share: None,
            msc: None,
            start_secs: tracks[x].start_secs + to_seconds(pos),
        };
        out.push(m);
        assert(piece_views(out@) =~= piece_views(o).push(m@));
        assert(piece_ok(t, pairs@, m@));
    }
    assert(piece_views(out@) =~= piece_views(o) + rest(t, pairs@, x as int, pos as int, s as int));
}

/// Appends the mono pieces of track `x`.
fn push_monos(out: &mut Vec<Piece>, tracks: &Vec<Track>, pairs: &Vec<Pair>, s: &Vec<Cand>, x: usize)
    requires
        plannable(track_views(tracks@), pairs@),
        forall|j: int| 0 <= j < s.len() ==> cand_ok(#[trigger] s@[j], pairs@),
        x < tracks.len(),
        pieces_ok(track_views(tracks@), pairs@, piece_views(old(out)@)),
    ensures
        pieces_ok(track_views(tracks@), pairs@, piece_views(final(out)@)),
        piece_views(final(out)@) == piece_views(old(out)@) + monos(track_views(tracks@), pairs@, s@, x as int),
{
    let ghost t = track_views(tracks@);
    let mut c: Vec<Interval> = Vec::new();
    let mut i: usize = 0;
    while i < s.len()
        invariant
            i <= s.len(),
            t == track_views(tracks@),
            plannable(t, pairs@),
            forall|j: int| 0 <= j < s.len() ==> cand_ok(#[trigger] s@[j], pairs@),
            x < tracks.len(),
            c@ == claims_on(t, pairs@, s@, x as int, i as int),
            forall|j: int| 0 <= j < c.len() ==> 0 <= (#[trigger] c@[j]).start <= MONO_LIMIT && -REACH_LIMIT <= c@[j].end <= TIME_LIMIT,
        decreases s.len() - i,
    {
        match claim_of(tracks, pairs, &s[i], x) {
            Some((a, b)) => c.push(Interval { start: a, end: b }),
            None => {},
        }
        i = i + 1;
    }
    let ghost all = c@;
    sort(&mut c);
    proof {
        sorting_has_one_result(all, c@);
        let q = choose|q: Seq<int>| #[trigger] crate::order::arranged(all, c@, q) && (orderly(all) ==> crate::order::in_order(all, q));
        assert forall|j: int| 0 <= j < c@.len() implies 0 <= (#[trigger] c@[j]).start <= MONO_LIMIT && -REACH_LIMIT <= c@[j].end <= TIME_LIMIT by {
            assert(c@[j] == all[q[j]]);
        }
        assert(t[x as int] == tracks@[x as int]@);
        lemma_duration(t[x as int]);
    }
    let ghost o = piece_views(out@);
    let mut pos: i64 = 0;
    let mut k: usize = 0;
    assert(piece_views(out@) + between(t, pairs@, x as int, c@, 0, 0) =~= o + monos(t, pairs@, s@, x as int));
    while k < c.len()
        invariant
            k <= c.len(),
            t == track_views(tracks@),
            plannable(t, pairs@),
            x < tracks.len(),
            0 <= pos <= MONO_LIMIT,
            pieces_ok(t, pairs@, piece_views(out@)),
            forall|j: int| 0 <= j < c.len() ==> 0 <= (#[trigger] c@[j]).start <= MONO_LIMIT && -REACH_LIMIT <= c@[j].end <= TIME_LIMIT,
            piece_views(out@) + between(t, pairs@, x as int, c@, k as int, pos as int) == o + monos(t, pairs@, s@, x as int),
        decreases c.len() - k,
    {
        let iv = c[k];
        assert(0 <= c@[k as int].start <= MONO_LIMIT && -REACH_LIMIT <= c@[k as int].end <= TIME_LIMIT);
        let ghost before = piece_views(out@);
        push_rest(out, tracks, pairs, x, pos, iv.start);
        let ghost was = pos as int;
        if iv.end > pos {
            pos = iv.end;
        }
        k = k + 1;
        assert(piece_views(out@) + between(t, pairs@, x as int, c@, k as int, pos as int) =~= before + between(t, pairs@, x as int, c@, k - 1, was));
    }
    let ghost before = piece_views(out@);
    push_rest(out, tracks, pairs, x, pos, time_of(&tracks[x]));
}

/// Divides the tracks into pieces.
pub fn divide(tracks: &Vec<Track>, pairs: &Vec<Pair>) -> (r: Vec<Piece>)
    requires
        plannable(track_views(tracks@), pairs@),
    ensures
        piece_views(r@) == pieces(track_views(tracks@), pairs@),
        pieces_ok(track_views(tracks@), pairs@, piece_views(r@)),
{
    let ghost t = track_views(tracks@);
    let mut c = find_cands(tracks, pairs);
    let ghost all = c@;
    sort(&mut c);
    proof {
        candidates_are_orderly(all);
        sorting_has_one_result(all, c@);
        let q = choose|q: Seq<int>| #[trigger] crate::order::arranged(all, c@, q) && (orderly(all) ==> crate::order::in_order(all, q));
        assert forall|j: int| 0 <= j < c@.len() implies cand_ok(#[trigger] c@[j], pairs@) by {
            assert(c@[j] == all[q[j]]);
        }
    }
    let s = choose_cands(tracks, pairs, &c);
    let mut out: Vec<Piece> = Vec::new();
    let mut i: usize = 0;
    let ghost stereo = Seq::new(s@.len(), |i: int| stereo_piece(t, pairs@, s@[i]));
    while i < s.len()
        invariant
            i <= s.len(),
            t == track_views(tracks@),
            plannable(t, pairs@),
            forall|j: int| 0 <= j < s.len() ==> cand_ok(#[trigger] s@[j], pairs@),
            stereo == Seq::new(s@.len(), |i: int| stereo_piece(t, pairs@, s@[i])),
            piece_views(out@) == stereo.take(i as int),
            pieces_ok(t, pairs@, piece_views(out@)),
        decreases s.len() - i,
    {
        let ghost o = out@;
        let m = make_stereo(tracks, pairs, &s[i]);
        out.push(m);
        assert(piece_views(out@) =~= piece_views(o).push(m@));
        assert(piece_views(out@) =~= stereo.take(i + 1));
        i = i + 1;
    }
    assert(stereo.take(i as int) =~= stereo);
    let mut x: usize = 0;
    assert(stereo + all_monos(t, pairs@, s@, 0) =~= stereo);
    while x < tracks.len()
        invariant
            x <= tracks.len(),
            t == track_views(tracks@),
            plannable(t, pairs@),
            forall|j: int| 0 <= j < s.len() ==> cand_ok(#[trigger] s@[j], pairs@),
            piece_views(out@) == stereo + all_monos(t, pairs@, s@, x as int),
            pieces_ok(t, pairs@, piece_views(out@)),
        decreases tracks.len() - x,
    {
        push_monos(&mut out, tracks, pairs, &s, x);
        assert(piece_views(out@) =~= stereo + all_monos(t, pairs@, s@, x + 1));
        x = x + 1;
    }
    out
}

// ------------------------------------------------------------------ where pieces begin

/// Whether a piece begins, to half a second, when its reference track had run for
/// as long as the piece's time says.
pub open spec fn begins_on_time(t: Seq<TrackView>, v: PieceView) -> bool {
    let late = v.start_secs * 1_000_000_000 - (t[v.reference].start_secs * 1_000_000_000 + v.t0);
    -500_000_000 <= late <= 500_000_000
}

/// Whole seconds are within half a second.
proof fn lemma_half_second(x: int)
    ensures
        -500_000_000 <= seconds(x) * 1_000_000_000 - x <= 500_000_000,
{
}

/// Mono pieces of a track begin on time and lie inside it.
proof fn lemma_between_on_time(t: Seq<TrackView>, p: Seq<Pair>, x: int, c: Seq<Interval>, k: int, pos: int, i: int)
    requires
        0 <= k <= c.len(),
        0 <= i < between(t, p, x, c, k, pos).len(),
    ensures
        ({
            let v = between(t, p, x, c, k, pos)[i];
            begins_on_time(t, v) && v.left == x && v.reference == x && !v.stereo && v.right is None && v.t0 + 1_000_000_000 <= v.t1 && pos <= v.t0
        }),
    decreases c.len() - k,
{
    if k >= c.len() {
        lemma_half_second(pos);
    } else {
        lemma_half_second(pos);
        let a = rest(t, p, x, pos, c[k].start as int);
        if i >= a.len() {
            lemma_between_on_time(t, p, x, c, k + 1, max(pos, c[k].end as int), i - a.len());
        }
    }
}

/// Mono pieces begin on time.
proof fn lemma_monos_on_time(t: Seq<TrackView>, p: Seq<Pair>, s: Seq<Cand>, n: int, i: int)
    requires
        0 <= i < all_monos(t, p, s, n).len(),
    ensures
        ({
            let v = all_monos(t, p, s, n)[i];
            begins_on_time(t, v) && v.left == v.reference && !v.stereo && v.right is None && v.t0 + 1_000_000_000 <= v.t1 && 0 <= v.t0 && 0 <= v.left < n
        }),
    decreases n,
{
    if n > 0 {
        let a = all_monos(t, p, s, n - 1);
        if i < a.len() {
            lemma_monos_on_time(t, p, s, n - 1, i);
        } else {
            lemma_between_on_time(t, p, n - 1, sorted(claims_on(t, p, s, n - 1, s.len() as int)), 0, 0, i - a.len());
        }
    }
}

/// Every piece begins, to half a second, at the start of the track that runs
/// through it plus the time at which it is cut from it: an excerpt carries the
/// time of day of its own beginning, not that of its track. A mono piece is of
/// one track, at least a second long and begins inside it.
pub proof fn pieces_begin_on_time(t: Seq<TrackView>, p: Seq<Pair>, i: int)
    requires
        0 <= i < pieces(t, p).len(),
    ensures
        ({
            let v = pieces(t, p)[i];
            let late = v.start_secs * 1_000_000_000 - (t[v.reference].start_secs * 1_000_000_000 + v.t0);
            &&& -500_000_000 <= late <= 500_000_000
            &&& v.left == v.reference
            &&& !v.stereo ==> v.right is None && 0 <= v.t0 && v.t0 + 1_000_000_000 <= v.t1
        }),
{
    let s = winners(t, p);
    let n = s.len();
    if i < n {
        lemma_half_second(s[i].t0 as int);
    } else {
        lemma_monos_on_time(t, p, s, t.len() as int, i - n);
    }
}

/// Two pieces of one track that begin so many seconds apart have starts that are
/// so many seconds apart, up to one.
pub proof fn starts_keep_their_distance(t: Seq<TrackView>, p: Seq<Pair>, i: int, j: int)
    requires
        0 <= i < pieces(t, p).len(),
        0 <= j < pieces(t, p).len(),
        pieces(t, p)[i].reference == pieces(t, p)[j].reference,
    ensures
        ({
            let (v, w) = (pieces(t, p)[i], pieces(t, p)[j]);
            let off = (w.start_secs - v.start_secs) * 1_000_000_000 - (w.t0 - v.t0);
            -1_000_000_000 <= off <= 1_000_000_000
        }),
{
    pieces_begin_on_time(t, p, i);
    pieces_begin_on_time(t, p, j);
}

// ------------------------------------------------------------------ what becomes stereo

/// A candidate comes from a stretch together of a pair with a stable offset.
proof fn lemma_cands_in(t: Seq<TrackView>, p: Seq<Pair>, k: int, n: int, i: int)
    requires
        0 <= k < p.len(),
        n <= p[k].phases@.len(),
        p.len() <= usize::MAX,
        0 <= i < cands_in(t, p, k, n).len(),
    ensures
        ({
            let c = cands_in(t, p, k, n)[i];
            c.pair == k && c.phase < n && p[k].ok && p[k].phases@[c.phase as int].kind == Kind::Together && c == cand_of(t, p, k, c.phase as int)
        }),
    decreases n,
{
    if n > 0 {
        let a = cands_in(t, p, k, n - 1);
        if i < a.len() {
            lemma_cands_in(t, p, k, n - 1, i);
        } else {
            assert(p[k].phases@.len() == p[k].phases.len());
        }
    }
}

/// A candidate comes from a stretch together of a pair with a stable offset.
proof fn lemma_cands(t: Seq<TrackView>, p: Seq<Pair>, m: int, i: int)
    requires
        0 <= m <= p.len(),
        p.len() <= usize::MAX,
        0 <= i < cands(t, p, m).len(),
    ensures
        ({
            let c = cands(t, p, m)[i];
            let k = c.pair as int;
            c.pair < m && c.phase < p[k].phases@.len() && p[k].ok && p[k].phases@[c.phase as int].kind == Kind::Together && c == cand_of(
                t,
                p,
                k,
                c.phase as int,
            )
        }),
    decreases m,
{
    if m > 0 {
        let a = cands(t, p, m - 1);
        if i < a.len() {
            lemma_cands(t, p, m - 1, i);
        } else {
            lemma_cands_in(t, p, m - 1, p[m - 1].phases@.len() as int, i - a.len());
        }
    }
}

/// Every stretch together of such a pair is a candidate.
proof fn lemma_cands_in_has(t: Seq<TrackView>, p: Seq<Pair>, k: int, n: int, i: int)
    requires
        0 <= k < p.len(),
        0 <= i < n <= p[k].phases@.len(),
        p[k].ok,
        p[k].phases@[i].kind == Kind::Together,
    ensures
        cands_in(t, p, k, n).contains(cand_of(t, p, k, i)),
    decreases n,
{
    let b = cands_in(t, p, k, n);
    if i == n - 1 {
        assert(b[b.len() - 1] == cand_of(t, p, k, i));
    } else {
        lemma_cands_in_has(t, p, k, n - 1, i);
        let a = cands_in(t, p, k, n - 1);
        let j = choose|j: int| 0 <= j < a.len() && a[j] == cand_of(t, p, k, i);
        assert(b[j] == cand_of(t, p, k, i));
    }
}

/// Every stretch together of such a pair is a candidate.
proof fn lemma_cands_has(t: Seq<TrackView>, p: Seq<Pair>, m: int, k: int, i: int)
    requires
        0 <= k < m <= p.len(),
        0 <= i < p[k].phases@.len(),
        p[k].ok,
        p[k].phases@[i].kind == Kind::Together,
    ensures
        cands(t, p, m).contains(cand_of(t, p, k, i)),
    decreases m,
{
    let b = cands(t, p, m);
    let a = cands(t, p, m - 1);
    if k == m - 1 {
        let c = cands_in(t, p, k, p[k].phases@.len() as int);
        lemma_cands_in_has(t, p, k, p[k].phases@.len() as int, i);
        let j = choose|j: int| 0 <= j < c.len() && c[j] == cand_of(t, p, k, i);
        assert(b[a.len() + j] == cand_of(t, p, k, i));
    } else {
        lemma_cands_has(t, p, m - 1, k, i);
        let j = choose|j: int| 0 <= j < a.len() && a[j] == cand_of(t, p, k, i);
        assert(b[j] == cand_of(t, p, k, i));
    }
}

/// What is chosen was there, in its order.
proof fn lemma_chosen_from(t: Seq<TrackView>, p: Seq<Pair>, c: Seq<Cand>, n: int, i: int)
    requires
        0 <= n <= c.len(),
        0 <= i < chosen(t, p, c, n).len(),
    ensures
        exists|j: int| 0 <= j < n && #[trigger] c[j] == chosen(t, p, c, n)[i],
    decreases n,
{
    if n > 0 {
        let a = chosen(t, p, c, n - 1);
        if i < a.len() {
            lemma_chosen_from(t, p, c, n - 1, i);
        } else {
            assert(c[n - 1] == chosen(t, p, c, n)[i]);
        }
    }
}

/// What nothing before it keeps from its tracks is chosen.
proof fn lemma_chosen_has(t: Seq<TrackView>, p: Seq<Pair>, c: Seq<Cand>, n: int, i: int)
    requires
        0 <= i < n <= c.len(),
        forall|j: int| 0 <= j < i ==> !clash(t, p, #[trigger] c[j], c[i]),
    ensures
        chosen(t, p, c, n).contains(c[i]),
    decreases n,
{
    let b = chosen(t, p, c, n);
    let a = chosen(t, p, c, n - 1);
    if i == n - 1 {
        if blocked(t, p, a, c[i]) {
            let q = choose|q: int| 0 <= q < a.len() && clash(t, p, #[trigger] a[q], c[i]);
            lemma_chosen_from(t, p, c, n - 1, q);
        }
        assert(b[b.len() - 1] == c[i]);
    } else {
        lemma_chosen_has(t, p, c, n - 1, i);
        let k = choose|k: int| 0 <= k < a.len() && a[k] == c[i];
        assert(b[k] == c[i]);
    }
}

/// Only what two recorders share becomes stereo: every stereo piece is a stretch
/// together of a pair with a stable common offset, with the tracks of that pair on
/// the left and on the right, cut where the stretch is cut; only where it is the
/// first or the last stretch of its pair may it be longer.
pub proof fn stereo_pieces_are_shared_stretches(t: Seq<TrackView>, p: Seq<Pair>, i: int)
    requires
        p.len() <= usize::MAX,
        0 <= i < pieces(t, p).len(),
        pieces(t, p)[i].stereo,
    ensures
        exists|k: int, h: int|
            #![trigger p[k].phases@[h]]
            0 <= k < p.len() && 0 <= h < p[k].phases@.len() && p[k].ok && p[k].phases@[h].kind == Kind::Together && ({
                let v = pieces(t, p)[i];
                &&& v.left == p[k].a && v.right == Some(p[k].b as int) && v.pair == Some(k) && v.reference == p[k].a
                &&& v.spans.len() == 1 && v.spans[0].pair == k && v.spans[0].other == p[k].b && v.spans[0].t0 == v.t0 && v.spans[0].t1 == v.t1
                &&& h > 0 ==> v.t0 == p[k].phases@[h].start
                &&& h + 1 < p[k].phases@.len() ==> v.t1 == p[k].phases@[h].end
                &&& v.hit_share == share(p[k].phases@[h].evidence) && v.msc == mean(p[k].phases@[h].evidence)
                &&& !v.alone && v.silent.len() == 0
            }),
{
    let s = winners(t, p);
    let all = cands(t, p, p.len() as int);
    let c = sorted(all);
    if i < s.len() {
        lemma_chosen_from(t, p, c, c.len() as int, i);
        let j = choose|j: int| 0 <= j < c.len() && #[trigger] c[j] == s[i];
        candidates_are_orderly(all);
        sorted_is_sorted(all);
        let q = choose|q: Seq<int>| #[trigger] crate::order::arranged(all, c, q) && (orderly(all) ==> crate::order::in_order(all, q));
        assert(c[j] == all[q[j]]);
        lemma_cands(t, p, p.len() as int, q[j]);
        let k = s[i].pair as int;
        let h = s[i].phase as int;
        assert(p[k].phases@[h].kind == Kind::Together);
        let v = pieces(t, p)[i];
        assert(v == stereo_piece(t, p, s[i]));
    } else {
        lemma_monos_on_time(t, p, s, t.len() as int, i - s.len());
    }
}

/// The part of both tracks' time that two stretches have in common decides: they
/// compete where that is more than half a second, and not where it is less. Which
/// one is asked does not matter.
pub proof fn stretches_compete_for_half_a_second(a: (int, int), b: (int, int))
    requires
        a.1 - a.0 > 500_000_000,
        b.1 - b.0 > 500_000_000,
    ensures
        overlaps(a, b) <==> min(a.1, b.1) - max(a.0, b.0) > 500_000_000,
        overlaps(a, b) == overlaps(b, a),
{
}

/// A stretch together becomes stereo unless one with at least as large a share of
/// hits competes with it for one of its tracks.
pub proof fn shared_stretches_become_stereo(t: Seq<TrackView>, p: Seq<Pair>, k: int, h: int)
    requires
        p.len() <= usize::MAX,
        0 <= k < p.len(),
        0 <= h < p[k].phases@.len(),
        p[k].ok,
        p[k].phases@[h].kind == Kind::Together,
        p[k].phases@[h].evidence.count > 0,
        forall|d: Cand|
            #[trigger] clash(t, p, d, cand_of(t, p, k, h)) && cands(t, p, p.len() as int).contains(d) && d != cand_of(t, p, k, h) ==> d.hits
                * p[k].phases@[h].evidence.count < p[k].phases@[h].evidence.hits * d.count,
        forall|d: Cand| cands(t, p, p.len() as int).contains(d) ==> (#[trigger] d.count) > 0,
    ensures
        exists|i: int|
            0 <= i < pieces(t, p).len() && (#[trigger] pieces(t, p)[i]).stereo && pieces(t, p)[i].left == p[k].a && pieces(t, p)[i].right == Some(p[k].b as int)
                && pieces(t, p)[i].pair == Some(k) && (h > 0 ==> pieces(t, p)[i].t0 == p[k].phases@[h].start) && (h + 1 < p[k].phases@.len() ==> pieces(t, p)[i].t1
                == p[k].phases@[h].end),
{
    let all = cands(t, p, p.len() as int);
    let c = sorted(all);
    let x = cand_of(t, p, k, h);
    lemma_cands_has(t, p, p.len() as int, k, h);
    candidates_are_orderly(all);
    sorted_is_sorted(all);
    let q = choose|q: Seq<int>| #[trigger] crate::order::arranged(all, c, q) && (orderly(all) ==> crate::order::in_order(all, q));
    let m = choose|m: int| 0 <= m < all.len() && all[m] == x;
    assert(q.contains(m));
    let w = choose|w: int| 0 <= w < q.len() && q[w] == m;
    assert(c[w] == x);
    // The first place at which the stretch stands.
    let f = lemma_first(c, x, w);
    assert forall|j: int| 0 <= j < f implies !clash(t, p, #[trigger] c[j], c[f]) by {
        assert(c[j] == all[q[j]]);
        assert(all.contains(c[j]));
        assert(crate::order::stands_before(all, q[j], q[f]));
        assert(c[f] == all[q[f]]);
        if clash(t, p, c[j], x) {
            assert(c[j] != x);
            assert(c[j].count > 0);
            assert(c[f].below(c[j]));
        }
    }
    lemma_chosen_has(t, p, c, c.len() as int, f);
    let s = winners(t, p);
    let i = choose|i: int| 0 <= i < s.len() && s[i] == x;
    assert(pieces(t, p)[i] == stereo_piece(t, p, x));
    assert(p[k].phases@.len() == p[k].phases.len());
}

/// The first place of a candidate.
proof fn lemma_first(c: Seq<Cand>, x: Cand, w: int) -> (f: int)
    requires
        0 <= w < c.len(),
        c[w] == x,
    ensures
        0 <= f <= w,
        c[f] == x,
        forall|j: int| 0 <= j < f ==> #[trigger] c[j] != x,
    decreases w,
{
    if exists|j: int| 0 <= j < w && #[trigger] c[j] == x {
        let j = choose|j: int| 0 <= j < w && #[trigger] c[j] == x;
        lemma_first(c, x, j)
    } else {
        w
    }
}

/// Where only two tracks were compared, the seconds before their common time join
/// the first stretch if they are less than a minute, and the seconds behind it
/// the last one; longer ones stay out of it. `b` is where the second track begins
/// or ends on the clock of the first.
pub proof fn short_edges_join(t: Seq<TrackView>, p: Seq<Pair>)
    requires
        p.len() == 1,
    ensures
        ({
            let q = p[0];
            let b = q.map.a_time(0);
            let n = q.phases@.len() as int;
            &&& n > 0 && b != 0 && -60_000_000_000 < b < 60_000_000_000 ==> edge_start(t, p, 0, q.phases@[0].start as int) == min(b, 0)
            &&& n > 0 && (b == 0 || b <= -60_000_000_000 || b >= 60_000_000_000) ==> edge_start(t, p, 0, q.phases@[0].start as int) == q.phases@[0].start
        }),
        ({
            let q = p[0];
            let n = q.phases@.len() as int;
            let e = q.map.a_time(t[q.b as int].duration);
            let d = e - t[q.a as int].duration;
            &&& n > 0 && d != 0 && -60_000_000_000 < d < 60_000_000_000 ==> edge_end(t, p, 0, q.phases@[n - 1].end as int) == max(e, t[q.a as int].duration)
            &&& n > 0 && (d == 0 || d <= -60_000_000_000 || d >= 60_000_000_000) ==> edge_end(t, p, 0, q.phases@[n - 1].end as int) == q.phases@[n - 1].end
        }),
{
}

/// A share of hits is exact to a billionth, and so is a mean coherence.
pub proof fn shares_are_exact(h: Evidence)
    ensures
        share(h) is Some <==> h.count > 0,
        share(h) matches Some(s) ==> s * h.count <= h.hits * 1_000_000_000 < (s + 1) * h.count,
        mean(h) is Some <==> h.measured > 0,
        mean(h) matches Some(m) ==> m * h.measured <= h.coherence < (m + 1) * h.measured,
{
    if h.count > 0 {
        lemma_exact(h.hits * 1_000_000_000, h.count as int);
    }
    if h.measured > 0 {
        lemma_exact(h.coherence as int, h.measured as int);
    }
}

/// A quotient is the largest that fits.
proof fn lemma_exact(n: int, d: int)
    requires
        d > 0,
    ensures
        (n / d) * d <= n < (n / d + 1) * d,
{
    vstd::arithmetic::div_mod::lemma_fundamental_div_mod(n, d);
    let q = n / d;
    assert(q * d == d * q && (q + 1) * d == d * q + d) by (nonlinear_arith);
}

/// A mono piece is marked as recorded alone exactly where no other track that it
/// was compared with runs for more than half a second of it; so one without any
/// comparison always is, and one inside the common time of a pair never.
pub proof fn lone_pieces_were_not_compared(t: Seq<TrackView>, p: Seq<Pair>, x: int, s: int, e: int, k: int)
    requires
        0 <= k < p.len(),
        e - s > 1_000_000_000,
        p[k].a == x,
        ({
            let from = max(p[k].map.a_time(0), 0);
            let to = min(p[k].map.a_time(t[p[k].b as int].duration), t[x].duration);
            from < to && min(to, e) - max(from, s) > 500_000_000 && to - from > 500_000_000
        }),
    ensures
        !is_alone(t, p, x, s, e),
        is_alone(t, Seq::empty(), x, s, e),
{
    assert(overlap_on(t, p[k], x) is Some);
}

/// A stretch takes the same time of both its tracks, on the clock of each, as
/// far as the track goes; of any other track it takes nothing.
pub proof fn stretches_take_of_both_tracks(t: Seq<TrackView>, p: Seq<Pair>, c: Cand, x: int)
    requires
        p[c.pair as int].a != p[c.pair as int].b,
        0 <= c.t0 <= c.t1 <= t[p[c.pair as int].a as int].duration,
        0 <= p[c.pair as int].map.b_time(c.t0 as int),
        p[c.pair as int].map.b_time(c.t1 as int) <= t[p[c.pair as int].b as int].duration,
    ensures
        claim(t, p, c, p[c.pair as int].a as int) == Some((c.t0 as int, c.t1 as int)),
        claim(t, p, c, p[c.pair as int].b as int) == Some((p[c.pair as int].map.b_time(c.t0 as int), p[c.pair as int].map.b_time(c.t1 as int))),
        claim(t, p, c, x) is Some <==> x == p[c.pair as int].a || x == p[c.pair as int].b,
{
}

/// The seconds before the common time of a pair stay out of its first stretch
/// where another pair has part of them in common with the track that runs alone
/// there, and the seconds behind it out of its last one.
pub proof fn edges_of_others_stay_out(t: Seq<TrackView>, p: Seq<Pair>, k: int, o: int, a: int, b: int)
    requires
        0 <= k < p.len(),
        0 <= o < p.len(),
        o != k,
    ensures
        ({
            let q = p[k];
            let from = q.map.a_time(0);
            let s = common(t, q).0;
            let start = q.phases@[0].start as int;
            &&& from > 0 && overlap_on(t, p[o], q.a as int) == Some((a, b)) && a < s && b > 0 ==> edge_start(t, p, k, start) == start
            &&& from < 0 && overlap_on(t, p[o], q.b as int) == Some((a, b)) && a < q.map.b_time(s) && b > 0 ==> edge_start(t, p, k, start) == start
        }),
        ({
            let q = p[k];
            let da = t[q.a as int].duration;
            let db = t[q.b as int].duration;
            let to = q.map.a_time(db);
            let e = common(t, q).1;
            let end = q.phases@.last().end as int;
            &&& to < da && overlap_on(t, p[o], q.a as int) == Some((a, b)) && a < da && b > e ==> edge_end(t, p, k, end) == end
            &&& to > da && overlap_on(t, p[o], q.b as int) == Some((a, b)) && a < db && b > q.map.b_time(e) ==> edge_end(t, p, k, end) == end
        }),
{
    assert(p[o] == p[o]);
}

/// A pair has the common time of its tracks on the clock of each, and nothing of
/// any other track.
pub proof fn common_time_is_on_both_clocks(t: Seq<TrackView>, q: Pair, x: int)
    requires
        q.map.valid(),
        q.a != q.b,
        common(t, q).0 < common(t, q).1,
        0 <= t[q.b as int].duration,
    ensures
        overlap_on(t, q, q.a as int) == Some(common(t, q)),
        overlap_on(t, q, q.b as int) matches Some((u, v)) && ({
            let (s, e) = common(t, q);
            &&& 0 <= u && u - q.map.b_time(s) <= 1 && q.map.b_time(s) <= u
            &&& v <= t[q.b as int].duration && v == q.map.b_time(e)
        }),
        x != q.a && x != q.b ==> overlap_on(t, q, x) is None,
{
    let (s, e) = common(t, q);
    let d = t[q.b as int].duration;
    clocks_agree(q.map, 0);
    clocks_agree(q.map, d);
    b_time_is_monotone(q.map, q.map.a_time(0), s);
    b_time_is_monotone(q.map, e, q.map.a_time(d));
}

/// A rest of a track that lasts a second or longer becomes a file; only shorter
/// ones do not.
pub proof fn only_rests_below_a_second_are_dropped(t: Seq<TrackView>, p: Seq<Pair>, x: int, c: Seq<Interval>, from: int, to: int, time: int)
    ensures
        to - from >= 1_000_000_000 ==> rest(t, p, x, from, to).len() == 1 && ({
            let v = rest(t, p, x, from, to)[0];
            &&& v.t0 == from && v.t1 == to && v.left == x && v.reference == x && !v.stereo
            &&& v.alone <==> is_alone(t, p, x, from, to)
        }),
        to - from < 1_000_000_000 ==> rest(t, p, x, from, to).len() == 0,
        in_short_rest(c, t[x].duration, time) ==> exists|u: int, v: int| u <= time < v && v - u < 1_000_000_000 && #[trigger] is_rest(c, t[x].duration, u, v),
{
}

} // verus!
