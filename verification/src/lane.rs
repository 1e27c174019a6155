//! The second channel of a stereo file: which samples of the other track belong
//! to which frames of the reference track. Positions between samples are in
//! billionths of a sample.

use vstd::prelude::*;

use crate::alignment::{floor_div, frame_at, to_frame, Alignment, UNIT};
use crate::items::{file_bytes, frame_range, stereo_frames};
use crate::pairing::{max, min, timed};
use crate::plan::{piece_ok, plannable, within, Pair, Piece, PieceView, Span, MERGED_LIMIT};
use crate::recording::{round_div, rounded, rounding_is_to_the_nearest};
use crate::render::{float_stereo_fmt, reference_is_left, stereo_format};
use crate::track::{track_views, Track, TrackView};
use crate::wav::{header_bytes, header_has_announced_size, write_header, RIFF_LIMIT};

verus! {

/// Seconds from a track's start that frames lie within.
pub const FRAME_LIMIT: i64 = 800_000_000;

/// Billionths of a sample.
pub const SAMPLE: i128 = 1_000_000_000;

// ------------------------------------------------------------------ positions

/// The time of frame `k`, in picoseconds.
pub open spec fn tick(k: int, rate: int) -> int {
    k * 1_000_000_000_000 / rate
}

/// A time of A's clock on B's, in picoseconds.
pub open spec fn b_tick(m: Alignment, t: int) -> int {
    t - m.offset * 1000 - m.drift * t / (UNIT as int)
}

/// A time of B's clock on A's, in picoseconds.
pub open spec fn a_tick(m: Alignment, t: int) -> int {
    (t + m.offset * 1000) * UNIT / (UNIT - m.drift)
}

/// Where frame `k` of track `from` falls in the other track of a pair.
pub open spec fn place(q: Pair, from: int, k: int, rate: int, other: int) -> int {
    let t = tick(k, rate);
    (if from == q.a {
        b_tick(q.map, t)
    } else {
        a_tick(q.map, t)
    }) * other / 1000
}

/// Whether a frame lies within the bounds of time.
pub open spec fn frame_ok(k: int, rate: int) -> bool {
    -FRAME_LIMIT * rate <= k <= FRAME_LIMIT * rate
}

/// Bounds on times and positions.
proof fn lemma_place_bound(q: Pair, from: int, k: int, rate: int, other: int)
    requires
        q.map.valid(),
        0 < rate <= u32::MAX,
        0 < other <= u32::MAX,
        frame_ok(k, rate),
    ensures
        -800_000_000_000_000_000_000 <= tick(k, rate) <= 800_000_000_000_000_000_000,
        -1_000_000_000_000_000_000_000 <= b_tick(q.map, tick(k, rate)) <= 1_000_000_000_000_000_000_000,
        -1_000_000_000_000_000_000_000 <= a_tick(q.map, tick(k, rate)) <= 1_000_000_000_000_000_000_000,
        -4_400_000_000_000_000_000_000_000_000 <= place(q, from, k, rate, other) <= 4_400_000_000_000_000_000_000_000_000,
{
    let t = tick(k, rate);
    let n = k * 1_000_000_000_000;
    vstd::arithmetic::div_mod::lemma_fundamental_div_mod(n, rate);
    assert(rate * t <= n < rate * t + rate);
    assert(t <= 800_000_000_000_000_000_000) by (nonlinear_arith)
        requires
            rate * t <= n,
            n == k * 1_000_000_000_000,
            k <= 800_000_000 * rate,
            rate > 0,
    ;
    assert(t >= -800_000_000_000_000_000_000) by (nonlinear_arith)
        requires
            n < rate * t + rate,
            n == k * 1_000_000_000_000,
            k >= -800_000_000 * rate,
            rate > 0,
    ;
    let u = UNIT as int;
    let d = q.map.drift as int;
    let p = d * t / u;
    assert(-80_000_000_000_000_000_000 * u <= d * t <= 80_000_000_000_000_000_000 * u) by (nonlinear_arith)
        requires
            -100_000_000_000 <= d <= 100_000_000_000,
            -800_000_000_000_000_000_000 <= t <= 800_000_000_000_000_000_000,
            u == 1_000_000_000_000,
    ;
    vstd::arithmetic::div_mod::lemma_fundamental_div_mod(d * t, u);
    assert(-80_000_000_000_000_000_001 <= p <= 80_000_000_000_000_000_000) by (nonlinear_arith)
        requires
            u * p <= d * t < u * p + u,
            -80_000_000_000_000_000_000 * u <= d * t <= 80_000_000_000_000_000_000 * u,
            u > 0,
    ;
    let s = t + q.map.offset * 1000;
    let e = u - d;
    let a = s * u / e;
    vstd::arithmetic::div_mod::lemma_fundamental_div_mod(s * u, e);
    assert(e * a <= s * u < e * a + e);
    assert(a <= 1_000_000_000_000_000_000_000) by (nonlinear_arith)
        requires
            e * a <= s * u,
            s <= 840_000_000_000_000_000_000,
            9 * u <= 10 * e,
            u > 0,
            e > 0,
    ;
    assert(a >= -1_000_000_000_000_000_000_000) by (nonlinear_arith)
        requires
            s * u < e * a + e,
            s >= -840_000_000_000_000_000_000,
            9 * u <= 10 * e,
            u > 0,
            e > 0,
    ;
    let x = if from == q.a {
        b_tick(q.map, t)
    } else {
        a_tick(q.map, t)
    };
    assert(-4_295_000_000_000_000_000_000_000_000_000 <= x * other <= 4_295_000_000_000_000_000_000_000_000_000) by (nonlinear_arith)
        requires
            -1_000_000_000_000_000_000_000 <= x <= 1_000_000_000_000_000_000_000,
            0 < other <= 4_294_967_295,
    ;
}

/// Where frame `k` of track `from` falls in the other track of a pair.
pub fn place_of(q: &Pair, from: usize, k: i64, rate: u32, other: u32) -> (r: i128)
    requires
        q.map.valid(),
        rate > 0,
        other > 0,
        frame_ok(k as int, rate as int),
    ensures
        r == place(*q, from as int, k as int, rate as int, other as int),
        -4_400_000_000_000_000_000_000_000_000 <= r <= 4_400_000_000_000_000_000_000_000_000,
{
    proof {
        lemma_place_bound(*q, from as int, k as int, rate as int, other as int);
    }
    let t: i128 = floor_div(k as i128 * 1_000_000_000_000, rate as i128);
    let shift: i128 = q.map.offset as i128 * 1000;
    let x: i128 = if from == q.a {
        let d: i128 = q.map.drift as i128;
        assert(-200_000_000_000_000_000_000_000_000_000_000 <= d * t <= 200_000_000_000_000_000_000_000_000_000_000) by (nonlinear_arith)
            requires
                -100_000_000_000 <= d <= 100_000_000_000,
                -800_000_000_000_000_000_000 <= t <= 800_000_000_000_000_000_000,
        ;
        t - shift - floor_div(d * t, 1_000_000_000_000)
    } else {
        floor_div((t + shift) * 1_000_000_000_000, 1_000_000_000_000 - q.map.drift as i128)
    };
    assert(-4_295_000_000_000_000_000_000_000_000_000 <= x * other <= 4_295_000_000_000_000_000_000_000_000_000) by (nonlinear_arith)
        requires
            -1_000_000_000_000_000_000_000 <= x <= 1_000_000_000_000_000_000_000,
            0 < other <= 4_294_967_295,
    ;
    floor_div(x * other as i128, 1000)
}

/// A later frame falls no earlier in the other track.
pub proof fn places_are_in_order(q: Pair, from: int, j: int, k: int, rate: int, other: int)
    requires
        q.map.valid(),
        0 < rate,
        0 < other,
        j <= k,
    ensures
        place(q, from, j, rate, other) <= place(q, from, k, rate, other),
{
    let s = tick(j, rate);
    let t = tick(k, rate);
    vstd::arithmetic::div_mod::lemma_div_is_ordered(j * 1_000_000_000_000, k * 1_000_000_000_000, rate);
    let u = UNIT as int;
    let d = q.map.drift as int;
    let x = if from == q.a {
        b_tick(q.map, s)
    } else {
        a_tick(q.map, s)
    };
    let y = if from == q.a {
        b_tick(q.map, t)
    } else {
        a_tick(q.map, t)
    };
    if from == q.a {
        let a = d * s / u;
        let b = d * t / u;
        vstd::arithmetic::div_mod::lemma_fundamental_div_mod(d * s, u);
        vstd::arithmetic::div_mod::lemma_fundamental_div_mod(d * t, u);
        assert(b - a <= t - s) by (nonlinear_arith)
            requires
                u * b <= d * t,
                d * s < u * a + u,
                s <= t,
                d <= u,
                u > 0,
        ;
    } else {
        let e = u - d;
        let a = (s + q.map.offset * 1000) * u;
        let b = (t + q.map.offset * 1000) * u;
        assert(a <= b) by (nonlinear_arith)
            requires
                a == (s + q.map.offset * 1000) * u,
                b == (t + q.map.offset * 1000) * u,
                s <= t,
                u > 0,
        ;
        vstd::arithmetic::div_mod::lemma_div_is_ordered(a, b, e);
    }
    assert(x * other <= y * other) by (nonlinear_arith)
        requires
            x <= y,
            other > 0,
    ;
    vstd::arithmetic::div_mod::lemma_div_is_ordered(x * other, y * other, 1000);
}

// ------------------------------------------------------------------ reading a lane

/// A place between samples: how many samples after the first one read, and how
/// far behind that sample, in billionths.
#[derive(Debug, Clone, Copy, PartialEq, Eq, Structural)]
pub struct Tap {
    pub index: u64,
    pub behind: u32,
}

/// What to read of the other track for a block of frames.
#[derive(Debug)]
pub enum LaneRead {
    /// Nothing: the channel is silent there.
    Silent,
    /// Samples as they are, from `start` on, for the frames from `at` on.
    Shifted { at: usize, count: usize, start: i64 },
    /// Samples between those read from `first` on, for the frames from `at` on.
    Between { at: usize, first: i64, span: u64, taps: Vec<Tap> },
}

/// Whether the drift over a lane stays below half a sample.
pub open spec fn is_exact(q: Pair, from: int, rate: int, other: int, s0: int, s1: int) -> bool {
    let d = place(q, from, s1, rate, other) - place(q, from, s0, rate, other) - (s1 - s0) * SAMPLE;
    rate == other && -(SAMPLE / 2) < d < SAMPLE / 2
}

/// What to read of the other track for `len` frames from frame `k0` on, where
/// the lane holds frames `s0` to `s1`: a whole number of samples further where
/// the drift stays below half a sample, otherwise between samples.
pub open spec fn lane_spec(q: Pair, from: int, rate: int, other: int, s0: int, s1: int, k0: int, len: int, r: LaneRead) -> bool {
    let a = max(k0, s0);
    let b = min(k0 + len, s1);
    if b <= a {
        r is Silent
    } else if is_exact(q, from, rate, other, s0, s1) {
        r matches LaneRead::Shifted { at, count, start } && at == a - k0 && count == b - a && start == a + round_div(
            place(q, from, s0, rate, other),
            SAMPLE as int,
        ) - s0
    } else {
        r matches LaneRead::Between { at, first, span, taps } && at == a - k0 && taps.len() == b - a && first == place(q, from, a, rate, other) / (SAMPLE as int)
            - 1 && first + span - 1 == place(q, from, b - 1, rate, other) / (SAMPLE as int) + 2 && (forall|j: int|
            0 <= j < taps.len() ==> {
                let x = place(q, from, a + j, rate, other);
                (#[trigger] taps@[j]).index == x / (SAMPLE as int) - first && taps@[j].behind == x % (SAMPLE as int) && 1 <= taps@[j].index && taps@[j].index + 2
                    < span
            })
    }
}

/// What to read of the other track for a block of frames.
pub fn lane_read(q: &Pair, from: usize, rate: u32, other: u32, s0: i64, s1: i64, k0: i64, len: usize) -> (r: LaneRead)
    requires
        q.map.valid(),
        rate > 0,
        other > 0,
        frame_ok(s0 as int, rate as int),
        frame_ok(s1 as int, rate as int),
        frame_ok(k0 as int, rate as int),
        frame_ok(k0 + len, rate as int),
    ensures
        lane_spec(*q, from as int, rate as int, other as int, s0 as int, s1 as int, k0 as int, len as int, r),
{
    let end: i64 = (k0 as i128 + len as i128) as i64;
    let a: i64 = if k0 >= s0 {
        k0
    } else {
        s0
    };
    let b: i64 = if end <= s1 {
        end
    } else {
        s1
    };
    if b <= a {
        return LaneRead::Silent;
    }
    let p0: i128 = place_of(q, from, s0, rate, other);
    let p1: i128 = place_of(q, from, s1, rate, other);
    let d: i128 = p1 - p0 - (s1 as i128 - s0 as i128) * 1_000_000_000;
    let at: usize = (a as i128 - k0 as i128) as usize;
    if rate == other && -500_000_000 < d && d < 500_000_000 {
        proof {
            lemma_round_sample(p0 as int);
        }
        let whole: i128 = rounded(p0, 1_000_000_000);
        let start: i64 = (a as i128 + whole - s0 as i128) as i64;
        return LaneRead::Shifted { at, count: (b as i128 - a as i128) as usize, start };
    }
    let pa: i128 = place_of(q, from, a, rate, other);
    let pb: i128 = place_of(q, from, b - 1, rate, other);
    proof {
        places_are_in_order(*q, from as int, a as int, b - 1, rate as int, other as int);
    }
    let first: i64 = (floor_div(pa, 1_000_000_000) - 1) as i64;
    let last: i64 = (floor_div(pb, 1_000_000_000) + 2) as i64;
    let span: u64 = (last as i128 - first as i128 + 1) as u64;
    let mut taps: Vec<Tap> = Vec::new();
    let n: usize = (b as i128 - a as i128) as usize;
    let mut j: usize = 0;
    while j < n
        invariant
            j <= n,
            n == b - a,
            q.map.valid(),
            rate > 0,
            other > 0,
            frame_ok(a as int, rate as int),
            frame_ok(b as int, rate as int),
            first == place(*q, from as int, a as int, rate as int, other as int) / (SAMPLE as int) - 1,
            first + span - 1 == place(*q, from as int, b - 1, rate as int, other as int) / (SAMPLE as int) + 2,
            -4_400_000_000_000_000_001 <= first <= 4_400_000_000_000_000_000,
            taps.len() == j,
            forall|i: int|
                0 <= i < j ==> {
                    let x = place(*q, from as int, a + i, rate as int, other as int);
                    (#[trigger] taps@[i]).index == x / (SAMPLE as int) - first && taps@[i].behind == x % (SAMPLE as int) && 1 <= taps@[i].index && taps@[i].index
                        + 2 < span
                },
        decreases n - j,
    {
        let k: i64 = (a as i128 + j as i128) as i64;
        let x: i128 = place_of(q, from, k, rate, other);
        proof {
            places_are_in_order(*q, from as int, a as int, k as int, rate as int, other as int);
            places_are_in_order(*q, from as int, k as int, b - 1, rate as int, other as int);
        }
        let i: i128 = floor_div(x, 1_000_000_000);
        taps.push(Tap { index: (i - first as i128) as u64, behind: (x - i * 1_000_000_000) as u32 });
        j = j + 1;
    }
    LaneRead::Between { at, first, span, taps }
}

/// A position rounded to whole samples.
proof fn lemma_round_sample(n: int)
    ensures
        n >= 0 ==> round_div(n, 1_000_000_000) == (2 * n + 1_000_000_000) / 2_000_000_000,
        n < 0 ==> round_div(n, 1_000_000_000) == -((1_000_000_000 - 2 * n) / 2_000_000_000),
{
}

// ------------------------------------------------------------------ the file

/// Frames of the reference track during which the second channel carries
/// another track.
#[derive(Debug, Clone, Copy, PartialEq, Eq, Structural)]
pub struct Lane {
    pub pair: usize,
    pub other: usize,
    pub s0: i64,
    pub s1: i64,
}

/// What a stereo file is made of.
#[derive(Debug)]
pub struct StereoFile {
    pub header: Vec<u8>,
    /// First frame on the clock of the reference track.
    pub first: i64,
    pub frames: u64,
    pub lanes: Vec<Lane>,
    /// Whether the reference track is heard on the left.
    pub main_left: bool,
}

/// The lane of a span.
pub open spec fn lane_of(s: Span, rate: int, l: Lane) -> bool {
    l.pair == s.pair && l.other == s.other && l.s0 == frame_at(s.t0 as int, rate) && l.s1 == frame_at(s.t1 as int, rate)
}

impl StereoFile {
    /// Whether all frames lie within the bounds of time.
    pub open spec fn fits(self, rate: int) -> bool {
        &&& frame_ok(self.first as int, rate)
        &&& frame_ok(self.first + self.frames, rate)
        &&& forall|i: int|
            0 <= i < self.lanes@.len() ==> frame_ok((#[trigger] self.lanes@[i]).s0 as int, rate) && frame_ok(self.lanes@[i].s1 as int, rate)
    }

    /// The block of at most one second that follows `done` frames: its first
    /// frame on the clock of the reference track, and how many there are.
    pub fn block(&self, rate: u32, done: u64) -> (r: (i64, u64))
        requires
            rate > 0,
            self.fits(rate as int),
            done <= self.frames,
        ensures
            r.0 == self.first + done,
            r.1 == min(self.frames - done, rate as int),
            frame_ok(r.0 as int, rate as int),
            frame_ok(r.0 + r.1, rate as int),
    {
        let left: u64 = self.frames - done;
        let n: u64 = if left <= rate as u64 {
            left
        } else {
            rate as u64
        };
        ((self.first as i128 + done as i128) as i64, n)
    }
}

/// Frames of bounded times lie within the bounds of time.
pub proof fn lemma_frame_ok(t: int, rate: int, limit: int)
    requires
        0 < rate,
        0 <= limit,
        -limit * 1_000_000_000 <= t <= limit * 1_000_000_000,
    ensures
        -limit * rate <= frame_at(t, rate) <= limit * rate,
{
    let n = t * rate;
    assert(-limit * rate * 1_000_000_000 <= n <= limit * rate * 1_000_000_000) by (nonlinear_arith)
        requires
            n == t * rate,
            0 < rate,
            -limit * 1_000_000_000 <= t <= limit * 1_000_000_000,
    ;
    lemma_round_sample(n);
}

/// What the stereo file of a piece is made of.
pub fn stereo_file(tracks: &Vec<Track>, pairs: &Vec<Pair>, v: &Piece) -> (r: StereoFile)
    requires
        plannable(track_views(tracks@), pairs@),
        piece_ok(track_views(tracks@), pairs@, v@),
        v.stereo,
        tracks@[v.reference as int].info.sample_rate * 8 <= u32::MAX,
    ensures
        ({
            let x = tracks@[v.reference as int]@;
            let rate = x.info.sample_rate;
            let n = stereo_frames(track_views(tracks@), v@);
            &&& r.frames == n
            &&& r.first == frame_at(v.t0 as int, rate)
            &&& r.header@ == header_bytes(stereo_format(rate), n * 8, n, RIFF_LIMIT as int)
            &&& r.lanes.len() == v.spans.len()
            &&& forall|i: int| 0 <= i < v.spans.len() ==> lane_of(v.spans@[i], rate, #[trigger] r.lanes@[i])
            &&& r.main_left == (v.reference == v.left || x.label == tracks@[v.left as int]@.label)
            &&& r.fits(rate)
        }),
{
    let ghost t = track_views(tracks@);
    let x = &tracks[v.reference];
    let rate: u32 = x.info.sample_rate;
    proof {
        assert(t[v.reference as int] == x@);
        assert(timed(t[v.reference as int]));
        assert(rate > 0);
        lemma_frame_ok(v.t0 as int, rate as int, 260_000_000);
        lemma_frame_ok(v.t1 - v.t0, rate as int, 520_000_000);
    }
    let first: i64 = to_frame(v.t0, rate);
    let n: i64 = to_frame(v.t1 - v.t0, rate);
    let frames: u64 = if n >= 0 {
        n as u64
    } else {
        0
    };
    let mut lanes: Vec<Lane> = Vec::new();
    let mut i: usize = 0;
    while i < v.spans.len()
        invariant
            i <= v.spans.len(),
            i == lanes.len(),
            rate > 0,
            within(v@, MERGED_LIMIT as int),
            forall|k: int| 0 <= k < i ==> lane_of(v.spans@[k], rate as int, #[trigger] lanes@[k]),
            forall|k: int| 0 <= k < i ==> frame_ok((#[trigger] lanes@[k]).s0 as int, rate as int) && frame_ok(lanes@[k].s1 as int, rate as int),
        decreases v.spans.len() - i,
    {
        let s = v.spans[i];
        assert(v@.spans[i as int] == s);
        proof {
            lemma_frame_ok(s.t0 as int, rate as int, 260_000_000);
            lemma_frame_ok(s.t1 as int, rate as int, 260_000_000);
        }
        lanes.push(Lane { pair: s.pair, other: s.other, s0: to_frame(s.t0, rate), s1: to_frame(s.t1, rate) });
        i = i + 1;
    }
    let fmt = float_stereo_fmt(rate);
    let mut header: Vec<u8> = Vec::new();
    proof {
        lemma_format_len(rate as int);
    }
    write_header(&mut header, fmt.as_slice(), frames * 8, frames, RIFF_LIMIT);
    assert(header@ =~= header_bytes(stereo_format(rate as int), frames * 8, frames as int, RIFF_LIMIT as int));
    StereoFile { header, first, frames, lanes, main_left: reference_is_left(tracks, v.reference, v.left) }
}

/// The format of a stereo file has 16 bytes.
proof fn lemma_format_len(rate: int)
    requires
        0 <= rate,
        rate * 8 <= u32::MAX,
    ensures
        stereo_format(rate).len() == 16,
{
    crate::bytes::le16_roundtrip(3);
    crate::bytes::le16_roundtrip(2);
    crate::bytes::le16_roundtrip(8);
    crate::bytes::le16_roundtrip(32);
    crate::bytes::le32_roundtrip(rate);
    crate::bytes::le32_roundtrip(rate * 8);
}

/// The file of a piece has the size that the plan shows: the header with the
/// frames that follow, filled up to even length.
pub proof fn planned_size_is_written(t: Seq<TrackView>, p: Seq<Pair>, v: PieceView)
    requires
        plannable(t, p),
        piece_ok(t, p, v),
        t[v.reference].info.sample_rate * 8 <= u32::MAX,
    ensures
        v.stereo ==> ({
            let n = stereo_frames(t, v);
            header_bytes(stereo_format(t[v.reference].info.sample_rate), n * 8, n, RIFF_LIMIT as int).len() + n * 8 == file_bytes(t, v)
        }),
        !v.stereo ==> ({
            let x = t[v.left];
            let (f0, f1) = frame_range(x, v.t0, v.t1);
            let data = (f1 - f0) * x.info.block_align;
            header_bytes(x.info.fmt, data, f1 - f0, RIFF_LIMIT as int).len() + data + data % 2 == file_bytes(t, v)
        }),
{
    let x = t[v.reference];
    let rate = x.info.sample_rate;
    assert(timed(x));
    if v.stereo {
        let n = stereo_frames(t, v);
        lemma_frame_ok(v.t1 - v.t0, rate, 520_000_000);
        lemma_format_len(rate);
        assert(n <= 520_000_000 * 536_870_911);
        header_has_announced_size(stereo_format(rate), n * 8, n, RIFF_LIMIT as int);
    } else {
        let (f0, f1) = frame_range(x, v.t0, v.t1);
        let n = f1 - f0;
        let a = x.info.block_align;
        lemma_frame_ok(v.t0, rate, 260_000_000);
        assert(frame_at(v.t0, rate) >= 0) by {
            assert(v.t0 * rate >= 0) by (nonlinear_arith)
                requires
                    v.t0 >= 0,
                    rate > 0,
            ;
            lemma_round_sample(v.t0 * rate);
        }
        assert(0 <= n <= x.frames);
        assert(0 <= n * a <= x.frames * a) by (nonlinear_arith)
            requires
                0 <= n <= x.frames,
                a >= 0,
        ;
        header_has_announced_size(x.info.fmt, n * a, n, RIFF_LIMIT as int);
    }
}

/// Times in picoseconds are the times in nanoseconds, more finely.
pub proof fn ticks_are_finer_times(m: Alignment, t: int)
    requires
        m.valid(),
    ensures
        1000 * m.b_time(t) - 1000 < b_tick(m, 1000 * t) <= 1000 * m.b_time(t),
        1000 * m.a_time(t) <= a_tick(m, 1000 * t) < 1000 * m.a_time(t) + 1000,
{
    let u = UNIT as int;
    let x = m.drift * t;
    assert(m.drift * (1000 * t) == 1000 * x) by (nonlinear_arith)
        requires
            x == m.drift * t,
    ;
    lemma_thousandfold(x, u);
    let y = (t + m.offset) * u;
    let d = u - m.drift;
    assert((1000 * t + m.offset * 1000) * u == 1000 * y) by (nonlinear_arith)
        requires
            y == (t + m.offset) * u,
    ;
    lemma_thousandfold(y, d);
}

proof fn lemma_thousandfold(x: int, d: int)
    requires
        d > 0,
    ensures
        1000 * (x / d) <= (1000 * x) / d < 1000 * (x / d) + 1000,
{
    let q = x / d;
    vstd::arithmetic::div_mod::lemma_fundamental_div_mod(x, d);
    vstd::arithmetic::div_mod::lemma_fundamental_div_mod(1000 * x, d);
    vstd::arithmetic::div_mod::lemma_mod_bound(x, d);
    vstd::arithmetic::div_mod::lemma_mod_bound(1000 * x, d);
    let p = (1000 * x) / d;
    assert(1000 * q <= p < 1000 * q + 1000) by (nonlinear_arith)
        requires
            d > 0,
            d * q <= x < d * q + d,
            d * p <= 1000 * x < d * p + d,
    ;
}

/// At equal sample rates and without drift, a frame falls in the other track by
/// the offset earlier if it comes from the first track of the pair, and by as
/// much later if it comes from the second, to a tiny part of a sample.
pub proof fn frames_fall_by_the_offset(q: Pair, from: int, k: int, rate: int)
    requires
        q.map.valid(),
        q.map.drift == 0,
        0 < rate,
    ensures
        ({
            let shift = q.map.offset * rate * 1000;
            let sample = k * 1_000_000_000_000;
            let p = 1000 * place(q, from, k, rate, rate);
            &&& from == q.a ==> sample - shift - rate - 1000 < p <= sample - shift
            &&& from != q.a ==> sample + shift - rate - 1000 < p <= sample + shift
        }),
{
    let t = tick(k, rate);
    let n = k * 1_000_000_000_000;
    vstd::arithmetic::div_mod::lemma_fundamental_div_mod(n, rate);
    vstd::arithmetic::div_mod::lemma_mod_bound(n, rate);
    assert(q.map.drift * t == 0) by (nonlinear_arith)
        requires
            q.map.drift == 0,
    ;
    let o = q.map.offset as int;
    let y = t + o * 1000;
    assert(y * UNIT / (UNIT - 0) == y) by {
        vstd::arithmetic::div_mod::lemma_div_multiples_vanish(y, UNIT as int);
        assert(y * UNIT == UNIT * y) by (nonlinear_arith);
    }
    let x = if from == q.a {
        t - o * 1000
    } else {
        y
    };
    let sign = if from == q.a {
        -1int
    } else {
        1int
    };
    assert(place(q, from, k, rate, rate) == x * rate / 1000);
    let z = x * rate;
    let p = z / 1000;
    assert(z - 1000 < 1000 * p <= z);
    assert(z == t * rate + sign * (o * rate * 1000)) by (nonlinear_arith)
        requires
            z == x * rate,
            x == t + sign * (o * 1000),
    ;
    assert(n - rate < t * rate <= n) by (nonlinear_arith)
        requires
            n == rate * t + n % rate,
            0 <= n % rate < rate,
    ;
}

/// Whatever is read of the other track lies where it belongs: nothing outside
/// the lane; shifted samples begin with the one nearest to where the lane begins
/// in the other track; and a sample between two others is told by the sample
/// before it and by how far behind that it lies.
pub proof fn lanes_read_what_belongs_there(q: Pair, from: int, rate: int, other: int, s0: int, s1: int, k0: int, len: int, r: LaneRead)
    requires
        q.map.valid(),
        0 < rate,
        0 < other,
        lane_spec(q, from, rate, other, s0, s1, k0, len, r),
    ensures
        r is Silent <==> k0 + len <= k0 || s1 <= s0 || k0 + len <= s0 || s1 <= k0,
        r matches LaneRead::Shifted { at, count, start } ==> ({
            let begin = start - (k0 + at - s0);
            &&& rate == other
            &&& s0 <= k0 + at && k0 <= k0 + at && k0 + at + count <= s1 && at + count <= len
            &&& at == 0 || k0 + at == s0
            &&& at + count == len || k0 + at + count == s1
            &&& -1_000_000_000 <= 2 * (begin * 1_000_000_000 - place(q, from, s0, rate, other)) <= 1_000_000_000
        }),
        r matches LaneRead::Between { at, first, span, taps } ==> ({
            &&& s0 <= k0 + at && k0 + at + taps.len() <= s1 && at + taps.len() <= len
            &&& at == 0 || k0 + at == s0
            &&& at + taps.len() == len || k0 + at + taps.len() == s1
            &&& forall|j: int|
                0 <= j < taps.len() ==> (first + (#[trigger] taps@[j]).index) * 1_000_000_000 + taps@[j].behind == place(q, from, k0 + at + j, rate, other)
                    && taps@[j].behind < 1_000_000_000 && 1 <= taps@[j].index && taps@[j].index + 2 < span
        }),
{
    rounding_is_to_the_nearest(place(q, from, s0, rate, other), SAMPLE as int);
    if let LaneRead::Between { at, first, span, taps } = r {
        assert forall|j: int| 0 <= j < taps.len() implies (first + (#[trigger] taps@[j]).index) * 1_000_000_000 + taps@[j].behind == place(
            q,
            from,
            k0 + at + j,
            rate,
            other,
        ) && taps@[j].behind < 1_000_000_000 && 1 <= taps@[j].index && taps@[j].index + 2 < span by {
            let x = place(q, from, k0 + at + j, rate, other);
            assert(max(k0, s0) + j == k0 + at + j);
        }
    }
}

/// Samples are taken as they are only where both recorders have the same sample
/// rate and the drift over the lane stays below half a sample.
pub proof fn drifting_lanes_are_not_shifted(q: Pair, from: int, rate: int, other: int, s0: int, s1: int, k0: int, len: int, r: LaneRead)
    requires
        lane_spec(q, from, rate, other, s0, s1, k0, len, r),
        rate != other || 2 * (place(q, from, s1, rate, other) - place(q, from, s0, rate, other)) >= (2 * (s1 - s0) + 1) * 1_000_000_000 || 2 * (place(
            q,
            from,
            s1,
            rate,
            other,
        ) - place(q, from, s0, rate, other)) <= (2 * (s1 - s0) - 1) * 1_000_000_000,
    ensures
        !(r is Shifted),
{
}

/// Where both recorders have the same sample rate and the drift over the lane
/// stays below half a sample, samples are taken as they are, not between others.
pub proof fn steady_lanes_are_shifted(q: Pair, from: int, rate: int, s0: int, s1: int, k0: int, len: int, r: LaneRead)
    requires
        lane_spec(q, from, rate, rate, s0, s1, k0, len, r),
        s0 < s1,
        k0 < s1,
        s0 < k0 + len,
        0 < len,
        ({
            let d = 2 * (place(q, from, s1, rate, rate) - place(q, from, s0, rate, rate)) - 2 * (s1 - s0) * 1_000_000_000;
            -1_000_000_000 < d < 1_000_000_000
        }),
    ensures
        r is Shifted,
{
}

} // verus!
