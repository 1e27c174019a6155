//! Which windows of two tracks are compared with each other. Onset curves have
//! one value per millisecond; times are in nanoseconds where not said otherwise.

use vstd::prelude::*;

use crate::alignment::{b_time_is_monotone, lemma_b_bound, span, span_of, to_frame, Alignment, REACH_LIMIT};
use crate::pairing::{time_of, timed};
use crate::phases::HOP;
use crate::plan::lemma_duration;
use crate::recording::{round_div, rounded, rounding_is_to_the_nearest};
use crate::track::Track;

verus! {

/// Milliseconds of a window that the offset is refined with, and the step
/// between such windows.
pub const FINE_WINDOW: i64 = 60_000;

/// Milliseconds that the refined offset may differ from the coarse one.
pub const FINE_SEARCH: i64 = 1000;

/// Milliseconds of a window that is tested for common events.
pub const FRAME_WINDOW: i64 = 20_000;

/// Milliseconds that events of such a window may be shifted.
pub const FRAME_SEARCH: i64 = 300;

/// Steps of ten milliseconds around the nominal offset that are searched.
pub const COARSE_REACH: i64 = 30_000;

/// Milliseconds and offsets lie within these bounds.
pub const MS_LIMIT: i64 = 1_000_000_000_000;

// ------------------------------------------------------------------ the curve

/// The frame before which the `k`-th millisecond of a track ends.
pub open spec fn boundary(k: int, rate: int) -> int {
    round_div(k * rate, 1000)
}

/// The frame before which the `k`-th millisecond of a track ends.
pub fn ms_boundary(k: u64, rate: u32) -> (r: u64)
    requires
        k <= 1_000_000_000_000,
    ensures
        r == boundary(k as int, rate as int),
{
    let a: u128 = k as u128;
    let b: u128 = rate as u128;
    assert(0 <= a * b <= 4_294_967_295_000_000_000_000) by (nonlinear_arith)
        requires
            0 <= a <= 1_000_000_000_000,
            0 <= b <= 4_294_967_295,
    ;
    ((2 * (a * b) + 1000) / 2000) as u64
}

/// Later milliseconds end no earlier.
pub proof fn boundaries_are_in_order(j: int, k: int, rate: int)
    requires
        0 <= j <= k,
        0 <= rate,
    ensures
        0 <= boundary(j, rate) <= boundary(k, rate),
{
    assert(0 <= j * rate <= k * rate) by (nonlinear_arith)
        requires
            0 <= j <= k,
            0 <= rate,
    ;
}

// ------------------------------------------------------------------ the coarse offset

/// Which of `len` lags, of which the first is `first` (both in steps of ten
/// milliseconds), are searched around an offset of `nominal` seconds: those
/// within five minutes, or all if there are none.
pub open spec fn coarse_spec(first: int, len: int, nominal: int) -> (int, int) {
    let lo = nominal * 100 - COARSE_REACH - first;
    let hi = nominal * 100 + COARSE_REACH - first + 1;
    let a = if lo < 0 {
        0
    } else {
        lo
    };
    let b = if hi > len {
        len
    } else {
        hi
    };
    if a < b {
        (a, b)
    } else {
        (0, len)
    }
}

/// Which lags are searched for the coarse offset.
pub fn coarse_range(first: i64, len: usize, nominal: i64) -> (r: (usize, usize))
    requires
        -MS_LIMIT <= first <= MS_LIMIT,
        len <= MS_LIMIT,
        -MS_LIMIT <= nominal <= MS_LIMIT,
    ensures
        (r.0 as int, r.1 as int) == coarse_spec(first as int, len as int, nominal as int),
        r.0 <= r.1 <= len,
{
    let lo: i64 = nominal * 100 - COARSE_REACH - first;
    let hi: i64 = nominal * 100 + COARSE_REACH - first + 1;
    let n: i64 = len as i64;
    let a: i64 = if lo < 0 {
        0
    } else {
        lo
    };
    let b: i64 = if hi > n {
        n
    } else {
        hi
    };
    if a < b {
        (a as usize, b as usize)
    } else {
        (0, len)
    }
}

// ------------------------------------------------------------------ the refined offset

/// A window of A and the place of B that it is compared with, in milliseconds.
#[derive(Debug, Clone, Copy, PartialEq, Eq, Structural)]
pub struct FineWindow {
    pub a: i64,
    /// Where the searched part of B begins.
    pub from: i64,
    /// Where it ends.
    pub to: i64,
}

/// The first window, for a coarse offset in milliseconds.
pub open spec fn fine_start(coarse: int) -> int {
    if coarse - FINE_SEARCH > 0 {
        coarse - FINE_SEARCH
    } else {
        0
    }
}

/// Where windows end at the latest.
pub open spec fn fine_end(coarse: int, len_a: int, len_b: int) -> int {
    if len_b + coarse + FINE_SEARCH < len_a {
        len_b + coarse + FINE_SEARCH
    } else {
        len_a
    }
}

/// The window at time `t`.
pub open spec fn fine_at(t: int, coarse: int) -> FineWindow {
    FineWindow {
        a: t as i64,
        from: (t - coarse - FINE_SEARCH) as i64,
        to: (t - coarse + FINE_WINDOW + FINE_SEARCH) as i64,
    }
}

/// Whether a window lies inside both curves.
pub open spec fn fine_inside(t: int, coarse: int, len_a: int, len_b: int) -> bool {
    t - coarse - FINE_SEARCH >= 0 && t - coarse + FINE_WINDOW + FINE_SEARCH <= len_b && t + FINE_WINDOW <= len_a
}

/// The windows from time `t` on.
pub open spec fn fine_from(t: int, coarse: int, len_a: int, len_b: int) -> Seq<FineWindow>
    decreases fine_end(coarse, len_a, len_b) - t,
{
    if t + FINE_WINDOW > fine_end(coarse, len_a, len_b) {
        Seq::empty()
    } else {
        let rest = fine_from(t + FINE_WINDOW, coarse, len_a, len_b);
        if fine_inside(t, coarse, len_a, len_b) {
            seq![fine_at(t, coarse)] + rest
        } else {
            rest
        }
    }
}

/// The windows that the offset is refined with, every minute, as far as they lie
/// inside both curves.
pub fn fine_windows(coarse: i64, len_a: usize, len_b: usize) -> (r: Vec<FineWindow>)
    requires
        -MS_LIMIT <= coarse <= MS_LIMIT,
        len_a <= MS_LIMIT,
        len_b <= MS_LIMIT,
    ensures
        r@ == fine_from(fine_start(coarse as int), coarse as int, len_a as int, len_b as int),
        forall|i: int|
            0 <= i < r.len() ==> 0 <= (#[trigger] r@[i]).a && r@[i].a + FINE_WINDOW <= len_a && 0 <= r@[i].from && r@[i].to == r@[i].from + FINE_WINDOW + 2
                * FINE_SEARCH && r@[i].to <= len_b,
{
    let la: i64 = len_a as i64;
    let lb: i64 = len_b as i64;
    let end: i64 = if lb + coarse + FINE_SEARCH < la {
        lb + coarse + FINE_SEARCH
    } else {
        la
    };
    let mut t: i64 = if coarse - FINE_SEARCH > 0 {
        coarse - FINE_SEARCH
    } else {
        0
    };
    let ghost all = fine_from(t as int, coarse as int, len_a as int, len_b as int);
    let mut out: Vec<FineWindow> = Vec::new();
    assert(out@ + all =~= all);
    while t + FINE_WINDOW <= end
        invariant
            0 <= t <= 2 * MS_LIMIT,
            -MS_LIMIT <= coarse <= MS_LIMIT,
            la == len_a <= MS_LIMIT,
            lb == len_b <= MS_LIMIT,
            end == fine_end(coarse as int, len_a as int, len_b as int),
            end <= MS_LIMIT,
            all == out@ + fine_from(t as int, coarse as int, len_a as int, len_b as int),
            forall|i: int|
                0 <= i < out.len() ==> 0 <= (#[trigger] out@[i]).a && out@[i].a + FINE_WINDOW <= len_a && 0 <= out@[i].from && out@[i].to == out@[i].from
                    + FINE_WINDOW + 2 * FINE_SEARCH && out@[i].to <= len_b,
        decreases 3 * MS_LIMIT - t,
    {
        let from: i64 = t - coarse - FINE_SEARCH;
        let to: i64 = t - coarse + FINE_WINDOW + FINE_SEARCH;
        let ghost rest = fine_from(t + FINE_WINDOW, coarse as int, len_a as int, len_b as int);
        if from >= 0 && to <= lb && t + FINE_WINDOW <= la {
            let ghost o = out@;
            let w = FineWindow { a: t, from, to };
            out.push(w);
            assert(o + (seq![w] + rest) =~= out@ + rest);
        }
        t = t + FINE_WINDOW;
    }
    assert(out@ =~= all);
    out
}

/// The offset that a window shows: `d` is the place of its peak, in milliseconds
/// from the coarse offset.
pub fn window_lag(w: &FineWindow, d: i64) -> (r: i64)
    requires
        -MS_LIMIT <= w.a <= MS_LIMIT,
        -MS_LIMIT <= w.from <= MS_LIMIT,
        -MS_LIMIT <= d <= MS_LIMIT,
    ensures
        r == w.a + d - FINE_SEARCH - w.from,
{
    w.a + d - FINE_SEARCH - w.from
}

/// A window whose peak lies at the coarse offset shows that offset.
pub proof fn central_peak_is_the_coarse_offset(t: int, coarse: int)
    requires
        -MS_LIMIT <= t <= MS_LIMIT,
        -MS_LIMIT <= coarse <= MS_LIMIT,
    ensures
        fine_at(t, coarse).a + 0 - FINE_SEARCH - fine_at(t, coarse).from == coarse,
{
}

// ------------------------------------------------------------------ windows of events

/// A window that is tested for common events: its time on A's clock, and its
/// places in the curves of both tracks.
#[derive(Debug, Clone, Copy, PartialEq, Eq, Structural)]
pub struct FrameWindow {
    pub t: i64,
    pub a: i64,
    pub b: i64,
}

/// Whether a window lies inside both curves.
pub open spec fn frame_inside(w: FrameWindow, len_a: int, len_b: int) -> bool {
    w.a >= 0 && w.a + FRAME_WINDOW <= len_a && w.b - FRAME_SEARCH >= 0 && w.b + FRAME_WINDOW + FRAME_SEARCH <= len_b
}

/// The window at time `t`.
pub open spec fn frame_window(m: Alignment, t: int) -> FrameWindow {
    FrameWindow { t: t as i64, a: round_div(t, 1_000_000) as i64, b: round_div(m.b_time(t), 1_000_000) as i64 }
}

/// The windows from time `t` to time `end`.
pub open spec fn frames_from(m: Alignment, t: int, end: int, len_a: int, len_b: int) -> Seq<FrameWindow>
    decreases end - t,
{
    if t + FRAME_WINDOW * 1_000_000 > end {
        Seq::empty()
    } else {
        let w = frame_window(m, t);
        let rest = frames_from(m, t + HOP, end, len_a, len_b);
        if frame_inside(w, len_a, len_b) {
            seq![w] + rest
        } else {
            rest
        }
    }
}

/// The windows of the time that tracks `a` and `b` have in common, every ten
/// seconds, as far as they lie inside both curves.
pub fn frame_windows(tracks: &Vec<Track>, a: usize, b: usize, m: &Alignment, len_a: usize, len_b: usize) -> (r: Vec<FrameWindow>)
    requires
        a < tracks.len(),
        b < tracks.len(),
        timed(tracks@[a as int]@),
        timed(tracks@[b as int]@),
        m.valid(),
    ensures
        ({
            let (s, e) = span_of(*m, tracks@[a as int]@.duration, tracks@[b as int]@.duration);
            r@ == frames_from(*m, s, e, len_a as int, len_b as int)
        }),
        forall|i: int| 0 <= i < r.len() ==> frame_inside(#[trigger] r@[i], len_a as int, len_b as int),
        forall|i: int|
            0 <= i < r.len() ==> 0 <= (#[trigger] r@[i]).a && r@[i].a + 20_000 <= len_a && 300 <= r@[i].b && r@[i].b + 20_300 <= len_b,
        forall|i: int| 0 <= i < r.len() ==> 0 <= (#[trigger] r@[i]).t <= REACH_LIMIT,
{
    proof {
        lemma_duration(tracks@[a as int]@);
        lemma_duration(tracks@[b as int]@);
    }
    let (s, e) = span(m, time_of(&tracks[a]), time_of(&tracks[b]));
    let ghost all = frames_from(*m, s as int, e as int, len_a as int, len_b as int);
    let mut t: i64 = s;
    let mut out: Vec<FrameWindow> = Vec::new();
    assert(out@ + all =~= all);
    while (t as i128) + 20_000_000_000 <= e as i128
        invariant
            0 <= t,
            e <= REACH_LIMIT,
            m.valid(),
            all == out@ + frames_from(*m, t as int, e as int, len_a as int, len_b as int),
            forall|i: int| 0 <= i < out.len() ==> frame_inside(#[trigger] out@[i], len_a as int, len_b as int),
            forall|i: int| 0 <= i < out.len() ==> 0 <= (#[trigger] out@[i]).t <= REACH_LIMIT,
        decreases (if e >= t {
            e - t + 1
        } else {
            0
        }),
    {
        let tb: i64 = m.to_b(t);
        proof {
            lemma_round_ms(t as int);
            lemma_round_ms(tb as int);
        }
        let w = FrameWindow { t, a: rounded(t as i128, 1_000_000) as i64, b: rounded(tb as i128, 1_000_000) as i64 };
        assert(w == frame_window(*m, t as int));
        let ghost rest = frames_from(*m, t + HOP, e as int, len_a as int, len_b as int);
        let wide: i128 = w.b as i128 + FRAME_WINDOW as i128 + FRAME_SEARCH as i128;
        if w.a >= 0 && w.a as i128 + FRAME_WINDOW as i128 <= len_a as i128 && w.b >= FRAME_SEARCH && wide <= len_b as i128 {
            let ghost o = out@;
            out.push(w);
            assert(o + (seq![w] + rest) =~= out@ + rest);
        }
        t = t + HOP;
    }
    assert(out@ =~= all);
    out
}

/// Later windows lie no earlier in the curves, and their places are not cut off.
proof fn lemma_windows_move_on(m: Alignment, t: int, u: int)
    requires
        m.valid(),
        0 <= t <= u <= REACH_LIMIT,
    ensures
        frame_window(m, t).t == t,
        frame_window(m, t).a <= frame_window(m, u).a,
        frame_window(m, t).b <= frame_window(m, u).b,
        0 <= frame_window(m, t).a,
{
    let (x, y) = (m.b_time(t), m.b_time(u));
    b_time_is_monotone(m, t, u);
    lemma_b_bound(m, t, REACH_LIMIT as int);
    lemma_b_bound(m, u, REACH_LIMIT as int);
    lemma_round_ms(t);
    lemma_round_ms(u);
    lemma_round_ms(x);
    lemma_round_ms(y);
}

/// Once a window no longer lies inside the curves, no later one does.
proof fn lemma_none_left(m: Alignment, t: int, end: int, len_a: int, len_b: int)
    requires
        m.valid(),
        0 <= t,
        end <= REACH_LIMIT,
        !frame_inside(frame_window(m, t), len_a, len_b),
        frame_window(m, t).b - FRAME_SEARCH >= 0,
    ensures
        frames_from(m, t, end, len_a, len_b).len() == 0,
    decreases end - t,
{
    if t + FRAME_WINDOW * 1_000_000 <= end {
        if t + HOP + FRAME_WINDOW * 1_000_000 <= end {
            lemma_windows_move_on(m, t, t + HOP);
            lemma_none_left(m, t + HOP, end, len_a, len_b);
        }
    }
}

/// The windows that are tested follow each other without a break, a step apart.
pub proof fn windows_follow_each_other(m: Alignment, t: int, end: int, len_a: int, len_b: int)
    requires
        m.valid(),
        0 <= t,
        end <= REACH_LIMIT,
    ensures
        ({
            let v = frames_from(m, t, end, len_a, len_b);
            forall|i: int, j: int| #![trigger v[i], v[j]] 0 <= i < j < v.len() && j == i + 1 ==> v[i].t + HOP == v[j].t
        }),
        ({
            let v = frames_from(m, t, end, len_a, len_b);
            v.len() > 0 && frame_inside(frame_window(m, t), len_a, len_b) ==> v[0].t == t
        }),
    decreases end - t,
{
    if t + FRAME_WINDOW * 1_000_000 <= end {
        let w = frame_window(m, t);
        let u = t + HOP;
        let rest = frames_from(m, u, end, len_a, len_b);
        windows_follow_each_other(m, u, end, len_a, len_b);
        lemma_windows_move_on(m, t, t);
        if frame_inside(w, len_a, len_b) && rest.len() > 0 {
            lemma_windows_move_on(m, t, u);
            if !frame_inside(frame_window(m, u), len_a, len_b) {
                lemma_none_left(m, u, end, len_a, len_b);
            }
            let v = seq![w] + rest;
            assert(frames_from(m, t, end, len_a, len_b) == v);
            assert forall|i: int, j: int| #![trigger v[i], v[j]] 0 <= i < j < v.len() && j == i + 1 implies v[i].t + HOP == v[j].t by {
                assert(v[j] == rest[j - 1]);
                if i > 0 {
                    assert(v[i] == rest[i - 1]);
                }
            }
        }
    }
}

/// The windows that are tested lie inside the time in common.
pub proof fn windows_lie_inside(m: Alignment, t: int, end: int, len_a: int, len_b: int)
    requires
        m.valid(),
        0 <= t,
        end <= REACH_LIMIT,
    ensures
        ({
            let v = frames_from(m, t, end, len_a, len_b);
            forall|i: int| 0 <= i < v.len() ==> t <= (#[trigger] v[i]).t && v[i].t + HOP <= end
        }),
    decreases end - t,
{
    if t + FRAME_WINDOW * 1_000_000 <= end {
        let w = frame_window(m, t);
        let rest = frames_from(m, t + HOP, end, len_a, len_b);
        let v = frames_from(m, t, end, len_a, len_b);
        windows_lie_inside(m, t + HOP, end, len_a, len_b);
        lemma_windows_move_on(m, t, t);
        assert forall|i: int| 0 <= i < v.len() implies t <= (#[trigger] v[i]).t && v[i].t + HOP <= end by {
            if frame_inside(w, len_a, len_b) {
                if i > 0 {
                    assert(v[i] == rest[i - 1]);
                }
            } else {
                assert(v[i] == rest[i]);
            }
        }
    }
}

/// Nanoseconds rounded to milliseconds.
proof fn lemma_round_ms(n: int)
    ensures
        n >= 0 ==> round_div(n, 1_000_000) == (2 * n + 1_000_000) / 2_000_000,
        n < 0 ==> round_div(n, 1_000_000) == -((1_000_000 - 2 * n) / 2_000_000),
{
}

// ------------------------------------------------------------------ excerpts

/// What is read of a track to judge its coherence with another: so many frames
/// from `start` on, of which the first `warm` settle the filter, and then every
/// `factor`-th counts.
#[derive(Debug, Clone, Copy, PartialEq, Eq, Structural)]
pub struct Excerpt {
    pub start: i64,
    pub frames: u64,
    pub warm: u64,
    pub factor: u64,
}

/// What is read of a track for the window of 20 seconds from time `t` on, for
/// about three thousand samples per second.
pub fn excerpt(rate: u32, t: i64) -> (r: Excerpt)
    requires
        -3 * REACH_LIMIT <= t <= 3 * REACH_LIMIT,
    ensures
        r.warm == rate / 10,
        r.factor == (if round_div(rate as int, 3000) > 1 {
            round_div(rate as int, 3000)
        } else {
            1
        }),
        r.start == crate::alignment::frame_at(t as int, rate as int) - r.warm,
        r.frames == 20 * rate + r.warm,
        -1_000_000_000 <= 2 * ((r.start + r.warm) * 1_000_000_000 - t * rate) <= 1_000_000_000,
        10 * r.warm <= rate < 10 * r.warm + 10,
        rate >= 1500 ==> -1500 <= r.factor * 3000 - rate <= 1500,
        rate < 4500 ==> r.factor == 1,
{
    proof {
        crate::alignment::times_fall_on_the_nearest_frame(t as int, rate as int, 0);
    }
    let warm: u64 = (rate / 10) as u64;
    let f: u64 = (2 * rate as u64 + 3000) / 6000;
    let factor: u64 = if f > 1 {
        f
    } else {
        1
    };
    let start: i64 = to_frame(t, rate) - warm as i64;
    Excerpt { start, frames: 20 * rate as u64 + warm, warm, factor }
}

/// The boundary of a millisecond lies on the frame nearest to it.
pub proof fn boundaries_lie_on_the_nearest_frame(k: int, rate: int)
    requires
        0 <= k,
        0 <= rate,
    ensures
        -1000 <= 2 * (boundary(k, rate) * 1000 - k * rate) <= 1000,
        boundary(0, rate) == 0,
        boundary(1000, rate) == rate,
{
    rounding_is_to_the_nearest(k * rate, 1000);
    assert(k * rate >= 0) by (nonlinear_arith)
        requires
            0 <= k,
            0 <= rate,
    ;
    assert(0 * rate == 0) by (nonlinear_arith);
    rounding_is_to_the_nearest(0, 1000);
    rounding_is_to_the_nearest(1000 * rate, 1000);
}

/// Of the lags on hand, all those within five minutes of what the names say are
/// searched, and no others; where there are none of those, all are.
pub proof fn offsets_within_five_minutes_are_searched(first: int, len: int, nominal: int, k: int)
    requires
        0 <= k < len,
    ensures
        ({
            let (a, b) = coarse_spec(first, len, nominal);
            let near = -30_000 <= first + k - nominal * 100 <= 30_000;
            &&& 0 <= a < b <= len
            &&& near ==> a <= k < b
            &&& !near && a <= k < b ==> a == 0 && b == len && forall|j: int|
                0 <= j < len ==> !(-30_000 <= #[trigger] (first + j) - nominal * 100 <= 30_000)
        }),
{
}

proof fn lemma_fine_listed(t: int, coarse: int, len_a: int, len_b: int, m: int)
    requires
        0 <= m,
        t + 60_000 * m + 60_000 <= fine_end(coarse, len_a, len_b),
        fine_inside(t + 60_000 * m, coarse, len_a, len_b),
    ensures
        fine_from(t, coarse, len_a, len_b).contains(fine_at(t + 60_000 * m, coarse)),
    decreases m,
{
    let v = fine_from(t, coarse, len_a, len_b);
    let rest = fine_from(t + FINE_WINDOW, coarse, len_a, len_b);
    if m == 0 {
        assert(v[0] == fine_at(t, coarse));
    } else {
        lemma_fine_listed(t + 60_000, coarse, len_a, len_b, m - 1);
        let w = fine_at(t + 60_000 * m, coarse);
        assert(t + 60_000 + 60_000 * (m - 1) == t + 60_000 * m);
        let k = choose|k: int| 0 <= k < rest.len() && rest[k] == w;
        if fine_inside(t, coarse, len_a, len_b) {
            assert(v[k + 1] == w);
        } else {
            assert(v[k] == w);
        }
    }
}

/// The offset is refined in every minute of the time in common: from the first
/// moment at which the tracks can overlap on, each minute that lies inside both
/// curves, with a second to search on either side, is a window. A peak in a
/// window that lies some way from the middle shows an offset that differs from
/// the coarse one by as much.
pub proof fn every_minute_is_searched(coarse: int, len_a: int, len_b: int, m: int, d: int)
    requires
        -MS_LIMIT <= coarse <= MS_LIMIT,
        0 <= m <= MS_LIMIT / 60_000,
        0 <= len_a <= MS_LIMIT,
        0 <= len_b <= MS_LIMIT,
        ({
            let t = fine_start(coarse) + 60_000 * m;
            t + 60_000 <= len_a && 0 <= t - coarse - 1000 && t - coarse + 61_000 <= len_b
        }),
    ensures
        fine_start(coarse) >= 0,
        fine_start(coarse) == 0 || fine_start(coarse) == coarse - 1000,
        exists|k: int|
            0 <= k < fine_from(fine_start(coarse), coarse, len_a, len_b).len() && ({
                let w = #[trigger] fine_from(fine_start(coarse), coarse, len_a, len_b)[k];
                w.a == fine_start(coarse) + 60_000 * m && w.to - w.from == 62_000 && w.a + d - 1000 - w.from == coarse + d
            }),
{
    let t = fine_start(coarse) + 60_000 * m;
    lemma_fine_listed(fine_start(coarse), coarse, len_a, len_b, m);
    let v = fine_from(fine_start(coarse), coarse, len_a, len_b);
    let k = choose|k: int| 0 <= k < v.len() && v[k] == fine_at(t, coarse);
    assert(v[k].a == t);
}

proof fn lemma_frame_listed(m: Alignment, t: int, end: int, len_a: int, len_b: int, n: int)
    requires
        0 <= n,
        t + 10_000_000_000 * n + 20_000_000_000 <= end,
        frame_inside(frame_window(m, t + 10_000_000_000 * n), len_a, len_b),
    ensures
        frames_from(m, t, end, len_a, len_b).contains(frame_window(m, t + 10_000_000_000 * n)),
    decreases n,
{
    let v = frames_from(m, t, end, len_a, len_b);
    let rest = frames_from(m, t + HOP, end, len_a, len_b);
    if n == 0 {
        assert(v[0] == frame_window(m, t));
    } else {
        lemma_frame_listed(m, t + 10_000_000_000, end, len_a, len_b, n - 1);
        let w = frame_window(m, t + 10_000_000_000 * n);
        assert(t + 10_000_000_000 + 10_000_000_000 * (n - 1) == t + 10_000_000_000 * n);
        let k = choose|k: int| 0 <= k < rest.len() && rest[k] == w;
        if frame_inside(frame_window(m, t), len_a, len_b) {
            assert(v[k + 1] == w);
        } else {
            assert(v[k] == w);
        }
    }
}

/// Common events are looked for in every step of ten seconds of the time in
/// common: where both curves hold the 20 seconds from there on, with 300
/// milliseconds to shift on either side, there is a window. It stands at the
/// same moment on both clocks, to a millisecond.
pub proof fn every_ten_seconds_are_tested(m: Alignment, s: int, end: int, len_a: int, len_b: int, n: int)
    requires
        m.valid(),
        0 <= s,
        end <= REACH_LIMIT,
        0 <= n,
        s + 10_000_000_000 * n + 20_000_000_000 <= end,
        ({
            let w = frame_window(m, s + 10_000_000_000 * n);
            w.a + 20_000 <= len_a && 300 <= w.b && w.b + 20_300 <= len_b
        }),
    ensures
        ({
            let t = s + 10_000_000_000 * n;
            let w = frame_window(m, t);
            &&& frames_from(m, s, end, len_a, len_b).contains(w)
            &&& w.t == t
            &&& -1_000_000 <= 2 * (w.a * 1_000_000 - t) <= 1_000_000
            &&& -1_000_000 <= 2 * (w.b * 1_000_000 - m.b_time(t)) <= 1_000_000
        }),
{
    let t = s + 10_000_000_000 * n;
    rounding_is_to_the_nearest(t, 1_000_000);
    rounding_is_to_the_nearest(m.b_time(t), 1_000_000);
    lemma_b_bound(m, t, REACH_LIMIT as int);
    assert(0 <= round_div(t, 1_000_000));
    lemma_frame_listed(m, s, end, len_a, len_b, n);
}

} // verus!
