//! Bringing a file to its target loudness: which gain it needs, how gain and
//! limiter ceiling are tuned from measurement to measurement, and how far the
//! work is. Levels are in millionths of a decibel or loudness unit; a level that
//! is not finite (silence) is none.

use vstd::prelude::*;

use crate::recording::{round_div, rounded};

verus! {

/// Loudness that a finished file has.
pub const TARGET_LUFS: i64 = -16_000_000;

/// True peak that a finished file does not exceed.
pub const CEILING_DBTP: i64 = -1_500_000;

/// Bit rate of a finished file, in thousands of bits per second.
pub const BITRATE_KBPS: u32 = 192;

/// Largest gain.
pub const MAX_GAIN: i64 = 40_000_000;

/// Deviation from the target loudness that is accepted.
pub const LUFS_TOLERANCE: i64 = 300_000;

/// How far the encoder may push the true peak above the ceiling.
pub const PEAK_TOLERANCE: i64 = 100_000;

/// Accuracy of the search before encoding.
pub const PCM_TOLERANCE: i64 = 50_000;

/// Loudness that encoding usually takes away; the search aims this much louder.
pub const CODEC_LOSS: i64 = 150_000;

/// How far below the ceiling the limiter starts.
pub const CODEC_MARGIN: i64 = 500_000;

/// Loudness at and below which a file is silent.
pub const SILENCE_LUFS: i64 = -70_000_000;

/// Measurements of a search.
pub const TRIES: u32 = 5;

/// Measured levels lie within these bounds.
pub const LEVEL_LIMIT: i64 = 1_000_000_000_000;

/// Gain, ceiling and aim are kept within this (a thousand million decibels).
pub const TUNING_LIMIT: i64 = 1_000_000_000_000_000;

/// What was measured of a file.
#[derive(Debug, Clone, Copy, PartialEq, Eq, Structural)]
pub struct Loudness {
    pub lufs: Option<i64>,
    pub true_peak: Option<i64>,
    pub lra: i64,
}

/// Whether a level lies within the bounds.
pub open spec fn level_ok(x: Option<i64>) -> bool {
    x matches Some(v) ==> -LEVEL_LIMIT <= v <= LEVEL_LIMIT
}

impl Loudness {
    /// Whether the levels lie within the bounds.
    pub open spec fn valid(self) -> bool {
        level_ok(self.lufs) && level_ok(self.true_peak)
    }

    /// Whether the levels lie within the bounds.
    pub fn is_valid(&self) -> (r: bool)
        ensures
            r == self.valid(),
    {
        let a = match self.lufs {
            Some(v) => -LEVEL_LIMIT <= v && v <= LEVEL_LIMIT,
            None => true,
        };
        let b = match self.true_peak {
            Some(v) => -LEVEL_LIMIT <= v && v <= LEVEL_LIMIT,
            None => true,
        };
        a && b
    }
}

/// The distance of two numbers.
pub open spec fn distance(a: int, b: int) -> int {
    if a >= b {
        a - b
    } else {
        b - a
    }
}

// ------------------------------------------------------------------ the gain

/// The gain of a file, and what is noted about it.
#[derive(Debug, Clone, Copy, PartialEq, Eq, Structural)]
pub struct Gain {
    /// None: there is nothing to amplify.
    pub gain: Option<i64>,
    /// How far peaks would exceed the ceiling after the gain.
    pub limited: i64,
    pub note: Option<GainNote>,
}

/// What is noted about the gain of a file.
#[derive(Debug, Clone, Copy, PartialEq, Eq, Structural)]
pub enum GainNote {
    Capped,
    Silent,
}

impl GainNote {
    /// The note in words.
    pub open spec fn words(self) -> Seq<char> {
        match self {
            GainNote::Capped => "sehr leise, Verstärkung auf +40 dB begrenzt"@,
            GainNote::Silent => "Stille, keine Lautheit messbar"@,
        }
    }

    /// The note in words.
    pub fn text(&self) -> (r: &'static str)
        ensures
            r@ == self.words(),
    {
        match *self {
            GainNote::Capped => "sehr leise, Verstärkung auf +40 dB begrenzt",
            GainNote::Silent => "Stille, keine Lautheit messbar",
        }
    }
}

/// Whether a file is loud enough to be measured.
pub open spec fn is_audible(l: Loudness) -> bool {
    l.lufs matches Some(v) && v > SILENCE_LUFS
}

/// The gain to the target loudness, no larger than the largest.
pub open spec fn gain_to_target(lufs: int) -> int {
    if TARGET_LUFS - lufs > MAX_GAIN {
        MAX_GAIN as int
    } else {
        TARGET_LUFS - lufs
    }
}

/// How far a peak exceeds the ceiling.
pub open spec fn excess(peak: int, gain: int) -> int {
    if peak + gain - CEILING_DBTP > 0 {
        peak + gain - CEILING_DBTP
    } else {
        0
    }
}

/// The static gain of a file from its loudness.
pub fn static_gain(l: &Loudness) -> (r: Gain)
    requires
        l.valid(),
    ensures
        !is_audible(*l) ==> r.gain is None && r.limited == 0 && r.note == Some(GainNote::Silent),
        is_audible(*l) ==> ({
            let v = l.lufs->0;
            let g = gain_to_target(v as int);
            &&& r.gain matches Some(x) && x == g
            &&& r.note == (if TARGET_LUFS - v > MAX_GAIN {
                Some(GainNote::Capped)
            } else {
                None
            })
            &&& r.limited == match l.true_peak {
                Some(p) => excess(p as int, g),
                None => 0,
            }
        }),
        r.gain matches Some(x) ==> -LEVEL_LIMIT + TARGET_LUFS <= x <= MAX_GAIN,
        r.gain matches Some(x) ==> (l.lufs matches Some(v) && (v + x == -16_000_000 || (x == 40_000_000 && v + x < -16_000_000))),
        r.gain matches Some(x) ==> (l.true_peak matches Some(p) ==> p + x - r.limited <= -1_500_000 && (r.limited > 0 ==> p + x - r.limited
            == -1_500_000)),
        r.gain is Some <==> (l.lufs matches Some(v) && v > -70_000_000),
{
    if let Some(v) = l.lufs {
        if v > SILENCE_LUFS {
            let d: i64 = TARGET_LUFS - v;
            let capped = d > MAX_GAIN;
            let g: i64 = if capped {
                MAX_GAIN
            } else {
                d
            };
            let limited: i64 = match l.true_peak {
                Some(p) => if p + g - CEILING_DBTP > 0 {
                    p + g - CEILING_DBTP
                } else {
                    0
                },
                None => 0,
            };
            let note = if capped {
                Some(GainNote::Capped)
            } else {
                None
            };
            return Gain { gain: Some(g), limited, note };
        }
    }
    Gain { gain: None, limited: 0, note: Some(GainNote::Silent) }
}

// ------------------------------------------------------------------ tuning

/// What is to be done next.
#[derive(Debug, Clone, Copy, PartialEq, Eq, Structural)]
pub enum Step {
    /// Measure the limited signal.
    Level,
    /// Encode it.
    Encode,
    /// Measure the encoded file.
    Check,
    /// Nothing: the file is finished.
    Done,
}

impl Step {
    /// The step in words.
    pub fn text(&self) -> (r: &'static str)
        ensures
            r@ == match *self {
                Step::Level => "Pegel einstellen"@,
                Step::Encode => "MP3 kodieren"@,
                Step::Check => "Nachmessen"@,
                Step::Done => ""@,
            },
    {
        match *self {
            Step::Level => "Pegel einstellen",
            Step::Encode => "MP3 kodieren",
            Step::Check => "Nachmessen",
            Step::Done => "",
        }
    }

    /// Relative cost of the step, in hundredths.
    pub open spec fn cost(self) -> int {
        match self {
            Step::Level => 35,
            Step::Encode => 100,
            Step::Check => 30,
            Step::Done => 0,
        }
    }

    /// Relative cost of the steps that must still follow, in hundredths.
    pub open spec fn cost_after(self) -> int {
        match self {
            Step::Level => 130,
            Step::Encode => 30,
            Step::Check => 0,
            Step::Done => 0,
        }
    }

    /// Relative cost of the step and of those that must still follow.
    pub fn costs(&self) -> (r: (u64, u64))
        ensures
            r.0 == self.cost(),
            r.1 == self.cost_after(),
    {
        match *self {
            Step::Level => (35, 130),
            Step::Encode => (100, 30),
            Step::Check => (30, 0),
            Step::Done => (0, 0),
        }
    }
}

/// Gain and limiter ceiling of a file while they are tuned.
#[derive(Debug, Clone, Copy)]
pub struct Tuning {
    pub gain: i64,
    pub ceiling: i64,
    /// Loudness that the limited signal is to have.
    pub target: i64,
    /// Measurements of this search.
    pub tries: u32,
    /// Gain and loudness of the last measurement of this search.
    pub previous: Option<(i64, i64)>,
    pub step: Step,
    /// What was measured of the encoded file.
    pub result: Option<Loudness>,
}

/// By how much the gain is raised for a loudness that is `err` too low. Heavy
/// limiting swallows part of every extra decibel, so the step follows the slope
/// between the last two measurements, taken for no less than a fifth and no
/// more than one.
pub open spec fn raise(err: int, previous: Option<(i64, i64)>, gain: int, lufs: int) -> int {
    match previous {
        Some((g1, l1)) => if distance(gain, g1 as int) > 1000 {
            let (dl, dg) = if gain > g1 {
                (lufs - l1, gain - g1)
            } else {
                (l1 - lufs, g1 - gain)
            };
            if 5 * dl < dg {
                5 * err
            } else if dl > dg {
                err
            } else {
                round_div(err * dg, dl)
            }
        } else {
            err
        },
        None => err,
    }
}

/// A level kept between the limit and a highest one.
pub open spec fn limited(x: int, most: int) -> int {
    if x > most {
        most
    } else if x < -TUNING_LIMIT {
        -TUNING_LIMIT
    } else {
        x
    }
}

/// A level kept between the limit and a highest one.
fn limit(x: i64, most: i64) -> (r: i64)
    ensures
        r == limited(x as int, most as int),
{
    if x > most {
        most
    } else if x < -TUNING_LIMIT {
        -TUNING_LIMIT
    } else {
        x
    }
}

/// The gain to try next.
pub open spec fn next_gain(t: Tuning, lufs: int) -> int {
    limited(t.gain + raise(t.target - lufs, t.previous, t.gain as int, lufs), MAX_GAIN as int)
}

/// Whether a loudness meets the target.
pub open spec fn loud_enough(l: Loudness) -> bool {
    l.lufs matches Some(v) ==> distance(TARGET_LUFS as int, v as int) <= LUFS_TOLERANCE
}

/// Whether a true peak stays below the ceiling.
pub open spec fn low_enough(l: Loudness) -> bool {
    l.true_peak matches Some(p) ==> p - CEILING_DBTP <= PEAK_TOLERANCE
}

/// Whether a loudness lies below the target by more than is accepted.
pub open spec fn too_quiet(l: Loudness) -> bool {
    l.lufs matches Some(v) && v < TARGET_LUFS - LUFS_TOLERANCE
}

/// Whether a file can stay as it is: it meets the target, or it is too quiet
/// even with the largest gain.
pub open spec fn acceptable_with(gain: int, l: Loudness) -> bool {
    low_enough(l) && (loud_enough(l) || (too_quiet(l) && gain == MAX_GAIN))
}

/// Where the limiter stands after a check: lower by what the peak was too high,
/// and a little more.
pub open spec fn next_ceiling(t: Tuning, l: Loudness) -> int {
    if low_enough(l) {
        t.ceiling as int
    } else {
        limited(t.ceiling - (l.true_peak->0 - CEILING_DBTP + 50_000), CEILING_DBTP - CODEC_MARGIN)
    }
}

/// What the search aims at after a check: moved by what the loudness missed.
pub open spec fn next_target(t: Tuning, l: Loudness) -> int {
    if loud_enough(l) {
        t.target as int
    } else {
        limited(t.target + TARGET_LUFS - l.lufs->0, TUNING_LIMIT as int)
    }
}

impl Tuning {
    /// Whether the levels lie within bounds; the gain never exceeds the largest,
    /// the limiter never rises above where it started, and the work is done only
    /// with a file that can stay as it is.
    pub open spec fn wf(self) -> bool {
        &&& self.tries < TRIES || self.step != Step::Level
        &&& self.tries <= TRIES
        &&& -TUNING_LIMIT <= self.gain <= MAX_GAIN
        &&& -TUNING_LIMIT <= self.ceiling <= CEILING_DBTP - CODEC_MARGIN
        &&& -TUNING_LIMIT <= self.target <= TUNING_LIMIT
        &&& self.previous matches Some((g, l)) ==> -TUNING_LIMIT <= g <= MAX_GAIN && -LEVEL_LIMIT <= l <= LEVEL_LIMIT
        &&& self.step == Step::Done ==> (self.result matches Some(l) && acceptable_with(self.gain as int, l))
    }

    /// Steps that are left at most before the next verdict on the file.
    pub open spec fn steps_left(self) -> int {
        match self.step {
            Step::Level => TRIES - self.tries + 2,
            Step::Encode => 2,
            Step::Check => 1,
            Step::Done => 0,
        }
    }

    /// Starts with the static gain.
    pub fn start(gain: i64) -> (r: Tuning)
        requires
            -LEVEL_LIMIT + TARGET_LUFS <= gain <= MAX_GAIN,
        ensures
            r.wf(),
            r.gain == gain,
            r.ceiling == CEILING_DBTP - CODEC_MARGIN,
            r.target == TARGET_LUFS + CODEC_LOSS,
            r.ceiling == -2_000_000 && r.target == -15_850_000,
            r.tries == 0,
            r.previous is None,
            r.step == Step::Level,
            r.result is None,
    {
        Tuning {
            gain,
            ceiling: CEILING_DBTP - CODEC_MARGIN,
            target: TARGET_LUFS + CODEC_LOSS,
            tries: 0,
            previous: None,
            step: Step::Level,
            result: None,
        }
    }

    /// Takes in the loudness of the limited signal: tries another gain as long
    /// as the target is missed, that changes anything, and tries are left.
    pub fn leveled(&mut self, lufs: Option<i64>)
        requires
            old(self).wf(),
            old(self).step == Step::Level,
            level_ok(lufs),
        ensures
            final(self).wf(),
            final(self).steps_left() < old(self).steps_left(),
            final(self).ceiling == old(self).ceiling,
            final(self).target == old(self).target,
            final(self).result == old(self).result,
            lufs matches Some(l) ==> -50_000 <= old(self).target - l <= 50_000 ==> final(self).step == Step::Encode && final(self).gain == old(self).gain,
            final(self).step == Step::Level ==> final(self).tries < 5 && (lufs matches Some(l) && (l < old(self).target - 50_000 || l > old(self).target
                + 50_000)),
            final(self).tries > old(self).tries ==> (final(self).step == Step::Level <==> final(self).tries < 5),
            match lufs {
                None => final(self).step == Step::Encode && final(self).gain == old(self).gain,
                Some(l) => {
                    let g = next_gain(*old(self), l as int);
                    if distance(old(self).target as int, l as int) <= PCM_TOLERANCE || distance(g, old(self).gain as int) < 10_000 {
                        final(self).step == Step::Encode && final(self).gain == old(self).gain
                    } else {
                        &&& final(self).gain == g
                        &&& final(self).tries == old(self).tries + 1
                        &&& final(self).previous == Some((old(self).gain, l))
                        &&& final(self).step == (if final(self).tries < TRIES {
                            Step::Level
                        } else {
                            Step::Encode
                        })
                    }
                },
            },
    {
        let l: i64 = match lufs {
            Some(l) => l,
            None => {
                self.step = Step::Encode;
                return;
            },
        };
        let err: i64 = self.target - l;
        if -PCM_TOLERANCE <= err && err <= PCM_TOLERANCE {
            self.step = Step::Encode;
            return;
        }
        proof {
            lemma_raise(err as int, self.previous, self.gain as int, l as int);
        }
        let up: i64 = raise_by(err, self.previous, self.gain, l);
        let g: i64 = limit(self.gain + up, MAX_GAIN);
        if -10_000 < g - self.gain && g - self.gain < 10_000 {
            self.step = Step::Encode;
            return;
        }
        self.previous = Some((self.gain, l));
        self.gain = g;
        self.tries = self.tries + 1;
        if self.tries == TRIES {
            self.step = Step::Encode;
        }
    }

    /// Takes in that the file is encoded.
    pub fn encoded(&mut self)
        requires
            old(self).wf(),
            old(self).step == Step::Encode,
        ensures
            final(self).wf(),
            final(self).steps_left() < old(self).steps_left(),
            *final(self) == (Tuning { step: Step::Check, ..*old(self) }),
    {
        self.step = Step::Check;
    }

    /// Takes in the loudness of the encoded file: it is done if the file can stay
    /// as it is; otherwise the search starts anew with what was missed.
    pub fn checked(&mut self, l: Loudness)
        requires
            old(self).wf(),
            old(self).step == Step::Check,
            l.valid(),
        ensures
            final(self).wf(),
            final(self).result == Some(l),
            final(self).gain == old(self).gain,
            if acceptable_with(old(self).gain as int, l) {
                &&& final(self).step == Step::Done
                &&& final(self).ceiling == old(self).ceiling
                &&& final(self).target == old(self).target
            } else {
                &&& final(self).step == Step::Level
                &&& final(self).tries == 0
                &&& final(self).previous is None
                &&& final(self).ceiling == next_ceiling(*old(self), l)
                &&& final(self).target == next_target(*old(self), l)
            },
    {
        self.result = Some(l);
        let mut ceiling: i64 = self.ceiling;
        let mut target: i64 = self.target;
        let mut low = true;
        let mut loud = true;
        if let Some(p) = l.true_peak {
            if p - CEILING_DBTP > PEAK_TOLERANCE {
                low = false;
                ceiling = limit(ceiling - (p - CEILING_DBTP + 50_000), CEILING_DBTP - CODEC_MARGIN);
            }
        }
        if let Some(v) = l.lufs {
            let err: i64 = TARGET_LUFS - v;
            if err > LUFS_TOLERANCE || err < -LUFS_TOLERANCE {
                loud = err > 0 && self.gain == MAX_GAIN;
                target = limit(target + err, TUNING_LIMIT);
            }
        }
        if low && loud {
            self.step = Step::Done;
            return;
        }
        self.ceiling = ceiling;
        self.target = target;
        self.tries = 0;
        self.previous = None;
        self.step = Step::Level;
    }
}

/// The gain is raised by no more than five times what is missing.
proof fn lemma_raise(err: int, previous: Option<(i64, i64)>, gain: int, lufs: int)
    requires
        -2_000_000_000_000_000 <= err <= 2_000_000_000_000_000,
    ensures
        -10_000_000_000_000_001 <= raise(err, previous, gain, lufs) <= 10_000_000_000_000_001,
{
    if let Some((g1, l1)) = previous {
        if distance(gain, g1 as int) > 1000 {
            let (dl, dg) = if gain > g1 {
                (lufs - l1, gain - g1)
            } else {
                (l1 - lufs, g1 - gain)
            };
            if 5 * dl >= dg && dl <= dg {
                lemma_quotient(err, dg, dl);
            }
        }
    }
}

/// A quotient by no less than a fifth is no more than five times as large.
proof fn lemma_quotient(err: int, dg: int, dl: int)
    requires
        0 < dg <= 5 * dl,
        -2_000_000_000_000_000 <= err <= 2_000_000_000_000_000,
    ensures
        -10_000_000_000_000_001 <= round_div(err * dg, dl) <= 10_000_000_000_000_001,
{
    let m = if err * dg >= 0 {
        err * dg
    } else {
        -(err * dg)
    };
    assert(m <= 10_000_000_000_000_000 * dl) by (nonlinear_arith)
        requires
            m == err * dg || m == -(err * dg),
            0 < dg <= 5 * dl,
            -2_000_000_000_000_000 <= err <= 2_000_000_000_000_000,
    ;
    let q = (2 * m + dl) / (2 * dl);
    vstd::arithmetic::div_mod::lemma_fundamental_div_mod(2 * m + dl, 2 * dl);
    assert(q <= 10_000_000_000_000_001) by (nonlinear_arith)
        requires
            2 * dl * q <= 2 * m + dl,
            m <= 10_000_000_000_000_000 * dl,
            dl > 0,
    ;
    assert(q >= 0) by (nonlinear_arith)
        requires
            q == (2 * m + dl) / (2 * dl),
            m >= 0,
            dl > 0,
    ;
}

/// By how much the gain is raised.
fn raise_by(err: i64, previous: Option<(i64, i64)>, gain: i64, lufs: i64) -> (r: i64)
    requires
        -2_000_000_000_000_000 <= err <= 2_000_000_000_000_000,
        -TUNING_LIMIT <= gain <= MAX_GAIN,
        -LEVEL_LIMIT <= lufs <= LEVEL_LIMIT,
        previous matches Some((g, l)) ==> -TUNING_LIMIT <= g <= MAX_GAIN && -LEVEL_LIMIT <= l <= LEVEL_LIMIT,
    ensures
        r == raise(err as int, previous, gain as int, lufs as int),
{
    proof {
        lemma_raise(err as int, previous, gain as int, lufs as int);
    }
    if let Some((g1, l1)) = previous {
        if gain - g1 > 1000 || g1 - gain > 1000 {
            let (dl, dg): (i64, i64) = if gain > g1 {
                (lufs - l1, gain - g1)
            } else {
                (l1 - lufs, g1 - gain)
            };
            if 5 * dl < dg {
                return 5 * err;
            }
            if dl > dg {
                return err;
            }
            let e: i128 = err as i128;
            let d: i128 = dg as i128;
            assert(-14_000_000_000_000_000_000_000_000_000_000 <= e * d <= 14_000_000_000_000_000_000_000_000_000_000) by (nonlinear_arith)
                requires
                    -2_000_000_000_000_000 <= e <= 2_000_000_000_000_000,
                    0 <= d <= 7_000_000_000_000_000,
            ;
            return rounded(e * d, dl as i128) as i64;
        }
    }
    err
}

/// A round ends: no state has more than seven steps before the next verdict, and
/// every step before it leaves fewer.
pub proof fn rounds_end(t: Tuning)
    requires
        t.wf(),
    ensures
        0 <= t.steps_left() <= 7,
        t.steps_left() == 0 <==> t.step == Step::Done,
{
}

/// A round after a missed target is not the same again: the limiter stands
/// lower, or the search aims elsewhere, as far as the bounds of levels go.
pub proof fn missed_targets_change_the_aim(t: Tuning, l: Loudness)
    requires
        t.wf(),
        l.valid(),
        !acceptable_with(t.gain as int, l),
        -TUNING_LIMIT / 2 <= t.ceiling,
        -TUNING_LIMIT / 2 <= t.target <= TUNING_LIMIT / 2,
    ensures
        next_ceiling(t, l) <= t.ceiling,
        next_ceiling(t, l) < t.ceiling || next_target(t, l) != t.target,
{
}

/// A finished file stays below -1.4 dBTP and meets the target loudness to
/// 0.3 LU, unless it is still too quiet with the largest gain of 40 dB.
pub proof fn finished_files_meet_the_target(t: Tuning)
    requires
        t.wf(),
        t.step == Step::Done,
    ensures
        t.result is Some,
        (t.result->Some_0).true_peak matches Some(p) ==> p <= -1_400_000,
        (t.result->Some_0).lufs matches Some(v) ==> -16_300_000 <= v <= -15_700_000 || (v < -16_300_000 && t.gain == 40_000_000),
{
}

// ------------------------------------------------------------------ how far

/// Progress of one file across all its steps, in weighted milliseconds of audio.
/// The total grows when an extra step is needed.
#[derive(Debug, Clone, Copy, PartialEq, Eq, Structural)]
pub struct Work {
    pub done: u64,
    pub total: u64,
    /// What was done when the step at hand began.
    pub base: u64,
    /// Cost of the step at hand, in hundredths.
    pub weight: u64,
    pub dur_ms: u64,
}

/// A count that does not exceed the largest.
pub open spec fn capped(x: int) -> int {
    if x > u64::MAX {
        u64::MAX as int
    } else {
        x
    }
}

/// A count plus part of a duration, as far as it can be counted.
fn plus_part(a: u64, amount: u64, weight: u64, unit: u64) -> (r: u64)
    requires
        unit > 0,
        weight <= 1000,
    ensures
        r == capped(a + amount * weight / (unit as int)),
{
    let n: u128 = amount as u128;
    let w: u128 = weight as u128;
    assert(0 <= n * w <= 18_446_744_073_709_551_615_000) by (nonlinear_arith)
        requires
            0 <= n <= 18_446_744_073_709_551_615,
            0 <= w <= 1000,
    ;
    let x: u128 = a as u128 + n * w / unit as u128;
    if x > u64::MAX as u128 {
        u64::MAX
    } else {
        x as u64
    }
}

impl Work {
    /// Where the step at hand ends.
    pub open spec fn end_of_step(self) -> int {
        capped(self.base + self.dur_ms * self.weight / 100)
    }

    /// Whether no more is done than there is.
    pub open spec fn wf(self) -> bool {
        &&& self.base <= self.done <= self.end_of_step()
        &&& self.end_of_step() <= self.total
        &&& self.weight <= 100
    }

    /// A file of this length: two searches, encoding and checking are expected.
    pub fn new(dur_ms: u64) -> (r: Work)
        ensures
            r.wf(),
            r.done == 0,
            r.total == capped(dur_ms * 200 / 100),
            r.base == 0,
            r.weight == 0,
            r.dur_ms == dur_ms,
    {
        Work { done: 0, total: plus_part(0, dur_ms, 200, 100), base: 0, weight: 0, dur_ms }
    }

    /// Begins a step; the total grows if the steps that must still follow do not
    /// fit into it.
    pub fn begin(&mut self, step: Step)
        requires
            old(self).wf(),
        ensures
            final(self).wf(),
            final(self).done == old(self).done,
            final(self).base == old(self).done,
            final(self).weight == step.cost(),
            final(self).dur_ms == old(self).dur_ms,
            ({
                let end = capped(old(self).done + old(self).dur_ms * (step.cost() + step.cost_after()) / 100);
                final(self).total == if end > old(self).total {
                    end
                } else {
                    old(self).total as int
                }
            }),
    {
        let (weight, after) = step.costs();
        self.base = self.done;
        self.weight = weight;
        let end: u64 = plus_part(self.done, self.dur_ms, weight + after, 100);
        if end > self.total {
            self.total = end;
        }
        proof {
            let d = self.dur_ms as int;
            assert(d * weight <= d * (weight + after)) by (nonlinear_arith)
                requires
                    d >= 0,
                    weight >= 0,
                    after >= 0,
            ;
            assert(d * weight / 100 <= d * (weight + after) / 100);
            assert(d * weight >= 0) by (nonlinear_arith)
                requires
                    d >= 0,
                    weight >= 0,
            ;
        }
    }

    /// Takes in how many microseconds of audio the step at hand has done.
    pub fn advance(&mut self, us: u64)
        requires
            old(self).wf(),
        ensures
            final(self).wf(),
            ({
                let most = capped(old(self).dur_ms * 1000);
                let part = if us <= most {
                    us as int
                } else {
                    most
                };
                let reached = capped(old(self).base + part * old(self).weight / 100_000);
                *final(self) == (Work {
                    done: (if reached > old(self).done {
                        reached
                    } else {
                        old(self).done as int
                    }) as u64,
                    ..*old(self)
                })
            }),
    {
        let most: u64 = plus_part(0, self.dur_ms, 1000, 1);
        let part: u64 = if us <= most {
            us
        } else {
            most
        };
        let reached: u64 = plus_part(self.base, part, self.weight, 100_000);
        proof {
            let p = part as int;
            let w = self.weight as int;
            let d = self.dur_ms as int;
            assert(p * w <= d * 1000 * w) by (nonlinear_arith)
                requires
                    0 <= p <= d * 1000,
                    w >= 0,
            ;
            assert(d * 1000 * w == 1000 * (d * w)) by (nonlinear_arith);
            assert(p * w / 100_000 <= d * w / 100);
        }
        if reached > self.done {
            self.done = reached;
        }
    }

    /// Ends the step at hand.
    pub fn end(&mut self)
        requires
            old(self).wf(),
        ensures
            final(self).wf(),
            *final(self) == (Work { done: old(self).end_of_step() as u64, ..*old(self) }),
    {
        self.done = plus_part(self.base, self.dur_ms, self.weight, 100);
    }

    /// Nothing is left: what was done is all there was.
    pub fn finish(&mut self)
        ensures
            *final(self) == (Work { total: old(self).done, ..*old(self) }),
    {
        self.total = self.done;
    }
}

/// The bar is full only at the end: as long as a step must still follow the one
/// at hand, less is done than there is. (Files shorter than a tenth of a second
/// are too short to be counted so finely.)
pub proof fn bar_is_full_only_at_the_end(w: Work, step: Step)
    requires
        w.wf(),
        w.weight == step.cost(),
        w.total >= capped(w.base + w.dur_ms * (step.cost() + step.cost_after()) / 100),
        step.cost_after() > 0,
        w.dur_ms >= 100,
        w.total < u64::MAX,
    ensures
        w.done < w.total,
{
    let d = w.dur_ms as int;
    let c = step.cost();
    let a = step.cost_after();
    assert(d * (c + a) == d * c + d * a) by (nonlinear_arith);
    assert(d * a >= 3000 && d * c >= 0) by (nonlinear_arith)
        requires
            d >= 100,
            a >= 30,
            c >= 0,
    ;
}

// ------------------------------------------------------------------ what gain and tuning achieve

/// The gain brings every file that can be heard to -16 LUFS, whether it is
/// quieter or louder than that. Only a file that would need more than 40 dB stays
/// below, with those 40 dB.
pub proof fn gain_reaches_the_target(l: Loudness)
    ensures
        is_audible(l) <==> (l.lufs matches Some(v) && v > -70_000_000),
        l.lufs matches Some(v) ==> v + gain_to_target(v as int) <= -16_000_000 && gain_to_target(v as int) <= 40_000_000,
        l.lufs matches Some(v) ==> v + gain_to_target(v as int) == -16_000_000 || (gain_to_target(v as int) == 40_000_000 && v < -56_000_000),
{
}

/// Two files that need no more than 40 dB are equally loud after their gains, and
/// a file that is louder by so much gets so much less.
pub proof fn gains_level_files(x: int, y: int)
    requires
        x >= -56_000_000,
        y >= -56_000_000,
    ensures
        x + gain_to_target(x) == y + gain_to_target(y),
        gain_to_target(x) - gain_to_target(y) == y - x,
        gain_to_target(-16_000_000) == 0,
{
}

/// The limiter takes off what a peak has above -1.5 dBTP after the gain: nothing
/// of a peak that stays below, and of any other as much as brings it there.
pub proof fn limiter_brings_peaks_to_the_ceiling(peak: int, gain: int)
    ensures
        excess(peak, gain) >= 0,
        peak + gain - excess(peak, gain) <= -1_500_000,
        peak + gain <= -1_500_000 ==> excess(peak, gain) == 0,
        excess(peak, gain) > 0 ==> peak + gain - excess(peak, gain) == -1_500_000,
{
}

/// A file that meets the target, with its peaks below -1.4 dBTP, stays as it is,
/// whatever its gain.
pub proof fn files_on_target_stay(gain: int, l: Loudness)
    requires
        l.true_peak matches Some(p) ==> p <= -1_400_000,
        l.lufs matches Some(v) ==> -16_300_000 <= v <= -15_700_000,
    ensures
        acceptable_with(gain, l),
{
}

/// A file that misses the target is worked on again: one with a peak above
/// -1.4 dBTP, one that is too loud, and one that is too quiet with a gain that
/// can still be raised.
pub proof fn files_off_target_are_worked_on(gain: int, l: Loudness)
    requires
        (l.true_peak matches Some(p) && p > -1_400_000) || (l.lufs matches Some(v) && (v > -15_700_000 || (v < -16_300_000 && gain < 40_000_000))),
    ensures
        !acceptable_with(gain, l),
{
}

/// Without a measurement before it, the gain is raised by what is missing. After
/// one it follows the slope: were the loudness to go on rising with the gain as
/// it did between the last two measurements, the next one would be on target, to
/// the nearest millionth. A slope of less than a fifth or more than one counts as
/// that.
pub proof fn search_follows_the_slope(err: int, g1: i64, l1: i64, gain: int, lufs: int)
    ensures
        raise(err, None, gain, lufs) == err,
        -1000 <= gain - g1 <= 1000 ==> raise(err, Some((g1, l1)), gain, lufs) == err,
        ({
            let r = raise(err, Some((g1, l1)), gain, lufs);
            let rise = lufs - l1;
            let step = gain - g1;
            &&& step > 1000 && step <= 5 * rise && rise <= step ==> -rise <= 2 * (r * rise - err * step) <= rise
            &&& step < -1000 && 5 * rise <= step && step <= rise ==> rise <= 2 * (r * rise - err * step) <= -rise
            &&& (step > 1000 && rise > step) || (step < -1000 && rise < step) ==> r == err
            &&& (step > 1000 && 5 * rise < step) || (step < -1000 && 5 * rise > step) ==> r == 5 * err
        }),
{
    let r = raise(err, Some((g1, l1)), gain, lufs);
    let rise = lufs - l1;
    let step = gain - g1;
    if step > 1000 && step <= 5 * rise && rise <= step {
        lemma_nearest(err * step, rise);
    }
    if step < -1000 && 5 * rise <= step && step <= rise {
        assert(err * (-step) == -(err * step)) by (nonlinear_arith);
        lemma_nearest(err * (-step), -rise);
        assert(r * (-rise) == -(r * rise)) by (nonlinear_arith);
    }
}

/// A rounded quotient is the nearest.
proof fn lemma_nearest(n: int, d: int)
    requires
        d > 0,
    ensures
        -d <= 2 * (round_div(n, d) * d - n) <= d,
{
    let m = if n >= 0 {
        n
    } else {
        -n
    };
    let q = (2 * m + d) / (2 * d);
    vstd::arithmetic::div_mod::lemma_fundamental_div_mod(2 * m + d, 2 * d);
    assert(2 * d * q == 2 * (q * d)) by (nonlinear_arith);
    assert((-q) * d == -(q * d)) by (nonlinear_arith);
}

/// The next gain lies on the side where the loudness is missing, never above
/// 40 dB, and no further than five times what is missing.
pub proof fn next_gain_goes_the_right_way(t: Tuning, lufs: int)
    requires
        t.wf(),
        -LEVEL_LIMIT <= lufs <= LEVEL_LIMIT,
    ensures
        next_gain(t, lufs) <= 40_000_000,
        lufs <= t.target ==> t.gain <= next_gain(t, lufs) <= t.gain + 5 * (t.target - lufs) + 1,
        lufs >= t.target ==> next_gain(t, lufs) <= t.gain,
        t.previous is None && -TUNING_LIMIT <= t.gain + t.target - lufs <= 40_000_000 ==> next_gain(t, lufs) == t.gain + (t.target - lufs),
{
    let err = t.target - lufs;
    if let Some((g1, l1)) = t.previous {
        let rise = lufs - l1;
        let step = t.gain - g1;
        search_follows_the_slope(err, g1, l1, t.gain as int, lufs);
        let (dl, dg) = if step > 0 {
            (rise, step)
        } else {
            (-rise, -step)
        };
        if dg > 1000 && dg <= 5 * dl && dl <= dg {
            let r = round_div(err * dg, dl);
            lemma_nearest(err * dg, dl);
            assert(err >= 0 ==> 0 <= r <= 5 * err + 1) by (nonlinear_arith)
                requires
                    -dl <= 2 * (r * dl - err * dg) <= dl,
                    0 < dg <= 5 * dl,
                    dl <= dg,
            ;
            assert(err <= 0 ==> r <= 0) by (nonlinear_arith)
                requires
                    -dl <= 2 * (r * dl - err * dg) <= dl,
                    0 < dg,
                    dl > 0,
            ;
        }
    }
}

/// After a check the limiter stands where it stood if the peak was low enough.
/// Otherwise it stands so much lower that a peak as far above it as this one
/// would end a twentieth of a decibel below -1.5 dBTP.
pub proof fn limiter_follows_the_peak(t: Tuning, l: Loudness)
    requires
        t.wf(),
        l.valid(),
        -TUNING_LIMIT / 2 <= t.ceiling,
    ensures
        (l.true_peak matches Some(p) ==> p <= -1_400_000) ==> next_ceiling(t, l) == t.ceiling,
        l.true_peak matches Some(p) ==> p > -1_400_000 ==> next_ceiling(t, l) + (p - t.ceiling) == -1_550_000,
{
}

/// After a check the search aims where it did if the loudness was right, and
/// otherwise elsewhere by exactly what was missed.
pub proof fn aim_moves_by_what_was_missed(t: Tuning, l: Loudness)
    requires
        t.wf(),
        l.valid(),
        -TUNING_LIMIT / 2 <= t.target <= TUNING_LIMIT / 2,
    ensures
        (l.lufs matches Some(v) ==> -16_300_000 <= v <= -15_700_000) ==> next_target(t, l) == t.target,
        l.lufs matches Some(v) ==> !(-16_300_000 <= v <= -15_700_000) ==> v + (next_target(t, l) - t.target) == -16_000_000,
{
}

/// What must still follow a step is the steps after it.
pub proof fn costs_follow_the_steps()
    ensures
        Step::Level.cost_after() == Step::Encode.cost() + Step::Check.cost(),
        Step::Encode.cost_after() == Step::Check.cost(),
        Step::Check.cost_after() == 0,
        2 * Step::Level.cost() + Step::Encode.cost() + Step::Check.cost() == 200,
{
}

} // verus!
