//! The clocks of two recorders: a constant offset and a slow drift. Times are
//! nanoseconds on the clock of one track, zero at its start.

use vstd::prelude::*;

use crate::pairing::{max, min};
use crate::recording::{round_div, rounded, rounding_is_to_the_nearest};

verus! {

/// Parts that a drift is counted in.
pub const UNIT: i64 = 1_000_000_000_000;

/// Largest offset (231 days).
pub const OFFSET_LIMIT: i64 = 40_000_000_000_000_000;

/// Largest drift (a tenth).
pub const DRIFT_LIMIT: i64 = 100_000_000_000;

/// Times that can be taken to another clock.
pub const REACH_LIMIT: i64 = 275_000_000_000_000_000;

/// How the clock of track B runs against that of track A.
#[derive(Debug, Clone, Copy, PartialEq, Eq, Structural)]
pub struct Alignment {
    /// Where B's start lies on A's clock, by the line through A's zero.
    pub offset: i64,
    /// By how much the offset grows per unit of time, in billionths of a thousandth.
    pub drift: i64,
}

impl Alignment {
    /// Whether offset and drift are of a size that recorders have.
    pub open spec fn valid(self) -> bool {
        -OFFSET_LIMIT <= self.offset <= OFFSET_LIMIT && -DRIFT_LIMIT <= self.drift <= DRIFT_LIMIT
    }

    /// Whether offset and drift lie within the bounds.
    pub fn is_valid(&self) -> (r: bool)
        ensures
            r == self.valid(),
    {
        -OFFSET_LIMIT <= self.offset && self.offset <= OFFSET_LIMIT && -DRIFT_LIMIT <= self.drift && self.drift <= DRIFT_LIMIT
    }

    /// A time of A's clock on B's.
    pub open spec fn b_time(self, ta: int) -> int {
        ta - self.offset - self.drift * ta / (UNIT as int)
    }

    /// A time of B's clock on A's.
    pub open spec fn a_time(self, tb: int) -> int {
        (tb + self.offset) * UNIT / (UNIT - self.drift)
    }

    /// A time of A's clock on B's.
    pub fn to_b(&self, ta: i64) -> (r: i64)
        requires
            self.valid(),
            -REACH_LIMIT <= ta <= REACH_LIMIT,
        ensures
            r == self.b_time(ta as int),
    {
        proof {
            lemma_product(self.drift as int, ta as int, DRIFT_LIMIT as int, REACH_LIMIT as int);
            lemma_b_bound(*self, ta as int, REACH_LIMIT as int);
        }
        let n: i128 = self.drift as i128 * ta as i128;
        let f: i128 = floor_div(n, 1_000_000_000_000);
        (ta as i128 - self.offset as i128 - f) as i64
    }

    /// A time of B's clock on A's.
    pub fn to_a(&self, tb: i64) -> (r: i64)
        requires
            self.valid(),
            -REACH_LIMIT <= tb <= REACH_LIMIT,
        ensures
            r == self.a_time(tb as int),
    {
        let s: i128 = tb as i128 + self.offset as i128;
        let n: i128 = s * 1_000_000_000_000;
        let d: i128 = 1_000_000_000_000 - self.drift as i128;
        proof {
            lemma_a_bound(*self, tb as int, REACH_LIMIT as int);
        }
        floor_div(n, d) as i64
    }
}

/// The quotient rounded down.
pub fn floor_div(n: i128, d: i128) -> (r: i128)
    requires
        0 < d,
        n > i128::MIN,
    ensures
        r == n as int / d as int,
{
    if n >= 0 {
        n / d
    } else {
        let m: i128 = -n;
        let q: i128 = m / d;
        let e: i128 = m % d;
        proof {
            vstd::arithmetic::div_mod::lemma_fundamental_div_mod(m as int, d as int);
            let k = if e == 0 {
                -q
            } else {
                -q - 1
            };
            let rest = n - d * k;
            assert(0 <= rest < d) by (nonlinear_arith)
                requires
                    m == d * q + e,
                    0 <= e < d,
                    n == -m,
                    rest == n - d * k,
                    k == (if e == 0 {
                        -q
                    } else {
                        -q - 1
                    }),
            ;
            vstd::arithmetic::div_mod::lemma_fundamental_div_mod_converse(n as int, d as int, k as int, rest as int);
            assert(q <= m) by (nonlinear_arith)
                requires
                    m == d * q + e,
                    0 <= e < d,
                    d >= 1,
                    q >= 0,
            ;
        }
        if e == 0 {
            -q
        } else {
            -q - 1
        }
    }
}

/// A product of bounded numbers is bounded.
proof fn lemma_product(x: int, y: int, a: int, b: int)
    requires
        -a <= x <= a,
        -b <= y <= b,
    ensures
        -(a * b) <= x * y <= a * b,
{
    assert(-(a * b) <= x * y <= a * b) by (nonlinear_arith)
        requires
            -a <= x <= a,
            -b <= y <= b,
    ;
}

/// How far a time can lie on B's clock.
pub proof fn lemma_b_bound(m: Alignment, t: int, limit: int)
    requires
        m.valid(),
        -limit <= t <= limit,
        0 <= limit,
    ensures
        -(limit + limit / 10 + OFFSET_LIMIT + 1) <= m.b_time(t) <= limit + limit / 10 + OFFSET_LIMIT + 1,
{
    let d = m.drift as int;
    let n = d * t;
    lemma_product(d, t, DRIFT_LIMIT as int, limit);
    let u = UNIT as int;
    let q = n / u;
    assert(u * q <= n < u * q + u) by {
        vstd::arithmetic::div_mod::lemma_fundamental_div_mod(n, u);
    }
    assert(DRIFT_LIMIT * limit * 10 == limit * u);
}

/// How far a time can lie on A's clock.
pub proof fn lemma_a_bound(m: Alignment, t: int, limit: int)
    requires
        m.valid(),
        -limit <= t <= limit,
        0 <= limit,
    ensures
        -((limit + OFFSET_LIMIT) * 10 / 9 + 1) <= m.a_time(t) <= (limit + OFFSET_LIMIT) * 10 / 9 + 1,
{
    let u = UNIT as int;
    let e = u - m.drift;
    let s = t + m.offset;
    let top = limit + OFFSET_LIMIT;
    let q = s * u / e;
    vstd::arithmetic::div_mod::lemma_fundamental_div_mod(s * u, e);
    assert(e * q <= s * u < e * q + e);
    assert(9 * u <= 10 * e);
    assert(9 * q <= 10 * top) by (nonlinear_arith)
        requires
            e * q <= s * u,
            s <= top,
            9 * u <= 10 * e,
            u > 0,
            e > 0,
            top >= 0,
    ;
    assert(9 * (q + 1) >= -10 * top) by (nonlinear_arith)
        requires
            s * u < e * q + e,
            s >= -top,
            9 * u <= 10 * e,
            u > 0,
            e > 0,
            top >= 0,
    ;
}

/// A later time of A's clock is no earlier one of B's.
pub proof fn b_time_is_monotone(m: Alignment, x: int, y: int)
    requires
        m.valid(),
        x <= y,
    ensures
        m.b_time(x) <= m.b_time(y),
{
    let u = UNIT as int;
    let d = m.drift as int;
    let p = d * x / u;
    let q = d * y / u;
    vstd::arithmetic::div_mod::lemma_fundamental_div_mod(d * x, u);
    vstd::arithmetic::div_mod::lemma_fundamental_div_mod(d * y, u);
    assert(q - p <= y - x) by (nonlinear_arith)
        requires
            u * q <= d * y,
            d * x < u * p + u,
            x <= y,
            d <= u,
            u > 0,
    ;
}

/// A later time of B's clock is no earlier one of A's.
pub proof fn a_time_is_monotone(m: Alignment, x: int, y: int)
    requires
        m.valid(),
        x <= y,
    ensures
        m.a_time(x) <= m.a_time(y),
{
    let u = UNIT as int;
    let e = u - m.drift;
    let a = (x + m.offset) * u;
    let b = (y + m.offset) * u;
    assert(a <= b) by (nonlinear_arith)
        requires
            a == (x + m.offset) * u,
            b == (y + m.offset) * u,
            x <= y,
            u > 0,
    ;
    vstd::arithmetic::div_mod::lemma_div_is_ordered(a, b, e);
}

/// Taking a time of B's clock to A's and back gives the same nanosecond or the
/// one before.
pub proof fn clocks_agree(m: Alignment, t: int)
    requires
        m.valid(),
    ensures
        t - 1 <= m.b_time(m.a_time(t)) <= t,
{
    let u = UNIT as int;
    let d = m.drift as int;
    let e = u - d;
    let s = t + m.offset;
    let a = m.a_time(t);
    let p = d * a / u;
    vstd::arithmetic::div_mod::lemma_fundamental_div_mod(s * u, e);
    vstd::arithmetic::div_mod::lemma_fundamental_div_mod(d * a, u);
    assert(e * a <= s * u < e * a + e);
    assert(u * p <= d * a < u * p + u);
    assert(u * a == e * a + d * a) by (nonlinear_arith)
        requires
            e == u - d,
    ;
    // u * (a - p) lies between e * a and e * a + u.
    assert(u * (a - p) == u * a - u * p) by (nonlinear_arith);
    assert(a - p <= s) by (nonlinear_arith)
        requires
            u * (a - p) < e * a + u,
            e * a <= s * u,
            u > 0,
    ;
    assert(a - p >= s - 1) by (nonlinear_arith)
        requires
            u * (a - p) >= e * a,
            s * u < e * a + e,
            e < 2 * u,
            u > 0,
    ;
}

/// Taking a time of A's clock to B's and back gives the same nanosecond or one
/// of the two after it.
pub proof fn clocks_agree_back(m: Alignment, t: int)
    requires
        m.valid(),
    ensures
        t <= m.a_time(m.b_time(t)) <= t + 2,
{
    let u = UNIT as int;
    let d = m.drift as int;
    let e = u - d;
    let p = d * t / u;
    let s = t - p;
    let a = s * u / e;
    assert(m.b_time(t) + m.offset == s);
    vstd::arithmetic::div_mod::lemma_fundamental_div_mod(d * t, u);
    vstd::arithmetic::div_mod::lemma_fundamental_div_mod(s * u, e);
    assert(u * p <= d * t < u * p + u);
    assert(e * a <= s * u < e * a + e);
    assert(s * u == u * t - u * p) by (nonlinear_arith)
        requires
            s == t - p,
    ;
    assert(u * t == e * t + d * t) by (nonlinear_arith)
        requires
            e == u - d,
    ;
    // s * u lies between e * t and e * t + u.
    assert(a >= t) by (nonlinear_arith)
        requires
            e * t <= s * u,
            s * u < e * a + e,
            e > 0,
    ;
    assert(a <= t + 2) by (nonlinear_arith)
        requires
            e * a <= s * u,
            s * u < e * t + u,
            u <= 2 * e,
            e > 0,
    ;
}

/// Both clocks run at nearly the same pace: what lasts a time on one lasts
/// between four fifths and six fifths of it on the other, up to rounding.
pub proof fn clocks_run_alike(m: Alignment, x: int, y: int)
    requires
        m.valid(),
        x <= y,
    ensures
        4 * (y - x) - 10 <= 5 * (m.b_time(y) - m.b_time(x)) <= 6 * (y - x) + 10,
        4 * (y - x) - 10 <= 5 * (m.a_time(y) - m.a_time(x)) <= 6 * (y - x) + 10,
{
    let u = UNIT as int;
    let d = m.drift as int;
    let p = d * x / u;
    let q = d * y / u;
    vstd::arithmetic::div_mod::lemma_fundamental_div_mod(d * x, u);
    vstd::arithmetic::div_mod::lemma_fundamental_div_mod(d * y, u);
    let w = y - x;
    assert(d * y - d * x == d * w) by (nonlinear_arith)
        requires
            w == y - x,
    ;
    assert(u * (q - p) == u * q - u * p) by (nonlinear_arith);
    assert(-u * w <= 10 * (d * w) <= u * w) by (nonlinear_arith)
        requires
            -u <= 10 * d <= u,
            w >= 0,
    ;
    assert(-w - 10 <= 10 * (q - p) <= w + 10) by (nonlinear_arith)
        requires
            d * w - u < u * (q - p) < d * w + u,
            -u * w <= 10 * (d * w) <= u * w,
            u > 0,
    ;
    let e = u - d;
    let s = (x + m.offset) * u;
    let r = (y + m.offset) * u;
    let a = s / e;
    let b = r / e;
    vstd::arithmetic::div_mod::lemma_fundamental_div_mod(s, e);
    vstd::arithmetic::div_mod::lemma_fundamental_div_mod(r, e);
    assert(r - s == u * w) by (nonlinear_arith)
        requires
            s == (x + m.offset) * u,
            r == (y + m.offset) * u,
            w == y - x,
    ;
    assert(e * (b - a) == e * b - e * a) by (nonlinear_arith);
    assert(10 * w - 11 <= 11 * (b - a) && 9 * (b - a) <= 10 * w + 9) by (nonlinear_arith)
        requires
            u * w - e < e * (b - a) < u * w + e,
            9 * u <= 10 * e <= 11 * u,
            w >= 0,
            u > 0,
    ;
}

/// The time that two tracks have in common, on A's clock.
pub open spec fn span_of(m: Alignment, dur_a: int, dur_b: int) -> (int, int) {
    (max(m.a_time(0), 0), min(m.a_time(dur_b), dur_a))
}

/// The time that two tracks have in common, on A's clock.
pub fn span(m: &Alignment, dur_a: i64, dur_b: i64) -> (r: (i64, i64))
    requires
        m.valid(),
        0 <= dur_b <= REACH_LIMIT,
    ensures
        (r.0 as int, r.1 as int) == span_of(*m, dur_a as int, dur_b as int),
{
    let s: i64 = m.to_a(0);
    let e: i64 = m.to_a(dur_b);
    (
        if s >= 0 {
            s
        } else {
            0
        },
        if e <= dur_a {
            e
        } else {
            dur_a
        },
    )
}

/// Frames of a time at a sample rate, to the nearest.
pub open spec fn frame_at(t: int, rate: int) -> int {
    round_div(t * rate, 1_000_000_000)
}

/// Frames of a time at a sample rate, to the nearest.
pub fn to_frame(t: i64, rate: u32) -> (r: i64)
    requires
        -3 * REACH_LIMIT <= t <= 3 * REACH_LIMIT,
    ensures
        r == frame_at(t as int, rate as int),
        -3_600_000_000_000_000_000 <= r <= 3_600_000_000_000_000_000,
        t >= 0 ==> r >= 0,
{
    let x: i128 = t as i128;
    let y: i128 = rate as i128;
    assert(-3_550_000_000_000_000_000_000_000_000 <= x * y <= 3_550_000_000_000_000_000_000_000_000) by (nonlinear_arith)
        requires
            -825_000_000_000_000_000 <= x <= 825_000_000_000_000_000,
            0 <= y <= 4_294_967_295,
    ;
    assert(x >= 0 ==> x * y >= 0) by (nonlinear_arith)
        requires
            y >= 0,
    ;
    proof {
        lemma_round_nano(x * y);
    }
    rounded(x * y, 1_000_000_000) as i64
}

/// Nanoseconds rounded to seconds.
proof fn lemma_round_nano(n: int)
    ensures
        n >= 0 ==> round_div(n, 1_000_000_000) == (2 * n + 1_000_000_000) / 2_000_000_000,
        n < 0 ==> round_div(n, 1_000_000_000) == -((1_000_000_000 - 2 * n) / 2_000_000_000),
{
}

/// Whole seconds of a time, to the nearest.
pub open spec fn seconds(t: int) -> int {
    round_div(t, 1_000_000_000)
}

/// Whole seconds of a time, to the nearest.
pub fn to_seconds(t: i64) -> (r: i64)
    ensures
        r == seconds(t as int),
        -9_223_372_037 <= r <= 9_223_372_037,
        t >= 0 ==> r >= 0,
{
    proof {
        lemma_round_nano(t as int);
    }
    rounded(t as i128, 1_000_000_000) as i64
}

/// Without drift, the clock of B runs behind that of A by the offset, exactly. With
/// drift the lag is the offset at A's zero and grows in proportion to the time,
/// to the nanosecond; so B begins at the offset on A's clock, as far as drift
/// goes.
pub proof fn lag_is_offset_and_drift(m: Alignment, time: int)
    requires
        m.valid(),
    ensures
        m.drift == 0 ==> m.b_time(time) == time - m.offset && m.a_time(time) == time + m.offset,
        m.b_time(0) == -m.offset,
        ({
            let lag = time - m.b_time(time) - m.offset;
            lag * 1_000_000_000_000 <= m.drift * time < (lag + 1) * 1_000_000_000_000
        }),
        m.offset == 0 ==> m.a_time(0) == 0,
{
    vstd::arithmetic::div_mod::lemma_fundamental_div_mod(m.drift * time, UNIT as int);
    if m.drift == 0 {
        assert(m.drift * time == 0) by (nonlinear_arith)
            requires
                m.drift == 0,
        ;
        vstd::arithmetic::div_mod::lemma_div_multiples_vanish(time + m.offset, UNIT as int);
    }
    assert(m.drift * 0 == 0);
}

/// A time falls on the frame nearest to it, and lasts the seconds nearest to it.
pub proof fn times_fall_on_the_nearest_frame(t: int, rate: int, secs: int)
    ensures
        -1_000_000_000 <= 2 * (frame_at(t, rate) * 1_000_000_000 - t * rate) <= 1_000_000_000,
        -1_000_000_000 <= 2 * (seconds(t) * 1_000_000_000 - t) <= 1_000_000_000,
        frame_at(secs * 1_000_000_000, rate) == secs * rate,
{
    rounding_is_to_the_nearest(t * rate, 1_000_000_000);
    rounding_is_to_the_nearest(t, 1_000_000_000);
    let n = secs * 1_000_000_000 * rate;
    rounding_is_to_the_nearest(n, 1_000_000_000);
    assert(n == secs * rate * 1_000_000_000) by (nonlinear_arith)
        requires
            n == secs * 1_000_000_000 * rate,
    ;
}

/// Two tracks have in common what lies on both: a time is in the span exactly if
/// it is inside the first track and, on the clock of the second, inside that, to
/// two nanoseconds at the ends.
pub proof fn the_span_lies_on_both(m: Alignment, dur_a: int, dur_b: int, t: int)
    requires
        m.valid(),
    ensures
        ({
            let (s, e) = span_of(m, dur_a, dur_b);
            &&& s <= t <= e ==> 0 <= t <= dur_a && -1 <= m.b_time(t) <= dur_b
            &&& 0 <= t <= dur_a && 0 <= m.b_time(t) && m.b_time(t) < dur_b ==> s <= t + 2 && t <= e
        }),
{
    let (s, e) = span_of(m, dur_a, dur_b);
    clocks_agree(m, 0);
    clocks_agree(m, dur_b);
    clocks_agree_back(m, t);
    if m.a_time(0) <= t {
        b_time_is_monotone(m, m.a_time(0), t);
    }
    if t <= m.a_time(dur_b) {
        b_time_is_monotone(m, t, m.a_time(dur_b));
    }
    if 0 <= m.b_time(t) {
        a_time_is_monotone(m, 0, m.b_time(t));
    }
    if m.b_time(t) < dur_b {
        a_time_is_monotone(m, m.b_time(t), dur_b);
    }
}

} // verus!
