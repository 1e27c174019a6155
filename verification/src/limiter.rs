//! The look-ahead of the limiter: which gain is needed when, and which frame
//! leaves the delay line for it. Gains and samples are given by the bits of
//! 32-bit floating-point numbers; gains are never negative, so that their bits
//! are in the same order as the gains themselves.

use std::collections::VecDeque;
use vstd::prelude::*;

verus! {

/// Frames that the limiter looks ahead at a sample rate: five milliseconds, at
/// least one.
pub open spec fn look_ahead(rate: int) -> int {
    let n = (rate + 100) / 200;
    if n < 1 {
        1
    } else {
        n
    }
}

// ------------------------------------------------------------------ minima

/// Whether `m` is the least of the values from place `from` to before place `to`.
pub open spec fn is_least(h: Seq<u32>, from: int, to: int, m: u32) -> bool {
    &&& exists|k: int| from <= k < to && #[trigger] h[k] == m
    &&& forall|k: int| from <= k < to ==> m <= #[trigger] h[k]
}

/// The first place of the window that ends before place `n`.
pub open spec fn window_start(n: int, look: int) -> int {
    if n - 1 - look < 0 {
        0
    } else {
        n - 1 - look
    }
}

/// The least of the last values, for one value after the other.
pub struct Minima {
    look: u64,
    count: u64,
    /// Places and values that can still become the least.
    mins: VecDeque<(u64, u32)>,
    seen: Ghost<Seq<u32>>,
}

impl Minima {
    /// All values so far.
    pub closed spec fn values(self) -> Seq<u32> {
        self.seen@
    }

    /// How far back the window reaches from its last value.
    pub closed spec fn reach(self) -> int {
        self.look as int
    }

    /// Places and values grow along the queue, which holds no place outside the
    /// window; every value of the window is followed or matched by one in the
    /// queue that is no greater.
    pub closed spec fn wf(self) -> bool {
        let h = self.seen@;
        let q = self.mins@;
        let n = h.len() as int;
        &&& self.count == n
        &&& forall|j: int|
            0 <= j < q.len() ==> window_start(n, self.look as int) <= (#[trigger] q[j]).0 < n && q[j].1 == h[q[j].0 as int]
        &&& forall|i: int, j: int| #![trigger q[i], q[j]] 0 <= i < j < q.len() ==> q[i].0 < q[j].0 && q[i].1 < q[j].1
        &&& forall|k: int| window_start(n, self.look as int) <= k < n ==> covered(q, #[trigger] h[k], k)
    }

    /// No values yet.
    pub fn new(look: u64) -> (r: Minima)
        ensures
            r.wf(),
            r.values() == Seq::<u32>::empty(),
            r.reach() == look,
    {
        Minima { look, count: 0, mins: VecDeque::new(), seen: Ghost(Seq::empty()) }
    }

    /// Takes one more value and returns the least of the window that ends with it.
    pub fn next(&mut self, x: u32) -> (r: u32)
        requires
            old(self).wf(),
            old(self).values().len() < u64::MAX,
        ensures
            final(self).wf(),
            final(self).values() == old(self).values().push(x),
            final(self).reach() == old(self).reach(),
            is_least(final(self).values(), window_start(final(self).values().len() as int, final(self).reach()), final(self).values().len() as int, r),
    {
        let ghost h = self.seen@;
        let ghost q0 = self.mins@;
        let ghost n = h.len() as int;
        let ghost lo = window_start(n, self.look as int);
        while self.mins.len() > 0 && self.mins[self.mins.len() - 1].1 >= x
            invariant
                self.look == old(self).look,
                self.count == old(self).count,
                self.seen == old(self).seen,
                h == self.seen@,
                n == h.len(),
                lo == window_start(n, self.look as int),
                forall|j: int| 0 <= j < self.mins@.len() ==> lo <= (#[trigger] self.mins@[j]).0 < n && self.mins@[j].1 == h[self.mins@[j].0 as int],
                forall|i: int, j: int|
                    #![trigger self.mins@[i], self.mins@[j]]
                    0 <= i < j < self.mins@.len() ==> self.mins@[i].0 < self.mins@[j].0 && self.mins@[i].1 < self.mins@[j].1,
                forall|k: int| lo <= k < n ==> covered(self.mins@, #[trigger] h[k], k) || x <= h[k],
            decreases self.mins@.len(),
        {
            let ghost q = self.mins@;
            let _ = self.mins.pop_back();
            proof {
                assert(self.mins@ =~= q.drop_last());
                assert forall|k: int| lo <= k < n implies covered(self.mins@, #[trigger] h[k], k) || x <= h[k] by {
                    if covered(q, h[k], k) {
                        let j = choose|j: int| 0 <= j < q.len() && (#[trigger] q[j]).0 >= k && q[j].1 <= h[k];
                        if j < q.len() - 1 {
                            assert(self.mins@[j] == q[j]);
                        }
                    }
                }
            }
        }
        let ghost q1 = self.mins@;
        self.mins.push_back((self.count, x));
        let ghost g = h.push(x);
        let ghost m = n + 1;
        let ghost lo2 = window_start(m, self.look as int);
        proof {
            let q = self.mins@;
            assert forall|j: int| 0 <= j < q.len() implies lo <= (#[trigger] q[j]).0 < m && q[j].1 == g[q[j].0 as int] by {
                if j < q1.len() {
                    assert(q[j] == q1[j]);
                }
            }
            assert forall|i: int, j: int| #![trigger q[i], q[j]] 0 <= i < j < q.len() implies q[i].0 < q[j].0 && q[i].1 < q[j].1 by {
                assert(q[i] == q1[i]);
                if j < q1.len() {
                    assert(q[j] == q1[j]);
                } else {
                    assert(q1[i].1 <= q1[q1.len() - 1].1);
                }
            }
            assert forall|k: int| lo2 <= k < m implies covered(q, #[trigger] g[k], k) by {
                assert(q[q.len() - 1] == (self.count, x));
                if k < n {
                    assert(g[k] == h[k]);
                    if covered(q1, h[k], k) {
                        let j = choose|j: int| 0 <= j < q1.len() && (#[trigger] q1[j]).0 >= k && q1[j].1 <= h[k];
                        assert(q[j] == q1[j]);
                    }
                }
            }
        }
        while self.mins.len() > 0 && (self.mins[0].0 as u128) + (self.look as u128) < self.count as u128
            invariant
                self.look == old(self).look,
                self.count == old(self).count,
                self.seen == old(self).seen,
                self.count == n,
                m == n + 1,
                g.len() == m,
                lo2 == window_start(m, self.look as int),
                forall|j: int| 0 <= j < self.mins@.len() ==> 0 <= (#[trigger] self.mins@[j]).0 < m && self.mins@[j].1 == g[self.mins@[j].0 as int],
                forall|i: int, j: int|
                    #![trigger self.mins@[i], self.mins@[j]]
                    0 <= i < j < self.mins@.len() ==> self.mins@[i].0 < self.mins@[j].0 && self.mins@[i].1 < self.mins@[j].1,
                forall|k: int| lo2 <= k < m ==> covered(self.mins@, #[trigger] g[k], k),
            decreases self.mins@.len(),
        {
            let ghost q = self.mins@;
            let _ = self.mins.pop_front();
            proof {
                assert(self.mins@ =~= q.drop_first());
                assert forall|k: int| lo2 <= k < m implies covered(self.mins@, #[trigger] g[k], k) by {
                    let j = choose|j: int| 0 <= j < q.len() && (#[trigger] q[j]).0 >= k && q[j].1 <= g[k];
                    assert(j > 0);
                    assert(self.mins@[j - 1] == q[j]);
                }
            }
        }
        self.count = self.count + 1;
        self.seen = Ghost(g);
        proof {
            let q = self.mins@;
            assert(covered(q, g[n], n));
            assert(q.len() > 0);
            assert forall|j: int| 0 <= j < q.len() implies lo2 <= (#[trigger] q[j]).0 by {
                assert(q[0].0 <= q[j].0);
            }
            let k0 = q[0].0 as int;
            assert(g[k0] == q[0].1);
            assert forall|k: int| lo2 <= k < m implies q[0].1 <= #[trigger] g[k] by {
                let j = choose|j: int| 0 <= j < q.len() && (#[trigger] q[j]).0 >= k && q[j].1 <= g[k];
                assert(q[0].1 <= q[j].1);
            }
        }
        self.mins[0].1
    }
}

/// Whether the queue holds a value at place `k` or later that is no greater.
pub open spec fn covered(q: Seq<(u64, u32)>, x: u32, k: int) -> bool {
    exists|j: int| 0 <= j < q.len() && (#[trigger] q[j]).0 >= k && q[j].1 <= x
}

// ------------------------------------------------------------------ the limiter

/// The bits of a frame's two samples; a mono frame has only the first.
pub type Samples = (u32, u32);

/// What leaves the delay line.
pub struct Emission {
    /// The least gain of the window: what the smooth gain takes in.
    pub least: u32,
    /// The least gain that the smooth gain no longer counts.
    pub dropped: Option<u32>,
    /// How many gains the smooth gain is the mean of.
    pub count: u64,
    pub samples: Samples,
    /// Whether the frame is one of the recording, not of the silence behind it.
    pub keep: bool,
}

/// A look-ahead limiter. Each frame needs a gain, which is known once the next
/// frame has come in.
pub struct Limiter {
    look: u64,
    delay: VecDeque<Samples>,
    minima: Minima,
    ramp: VecDeque<u32>,
    fed: u64,
    given: u64,
    emitted: u64,
    frames: Ghost<Seq<Samples>>,
    lows: Ghost<Seq<u32>>,
}

/// Frames that have left the delay line when `fed` frames came in.
pub open spec fn left(fed: int, look: int) -> int {
    if fed - 1 - look < 0 {
        0
    } else {
        fed - 1 - look
    }
}

/// The lesser of two numbers.
pub open spec fn lesser(a: int, b: int) -> int {
    if a <= b {
        a
    } else {
        b
    }
}

/// The last `n` values.
pub open spec fn last_of(v: Seq<u32>, n: int) -> Seq<u32> {
    if v.len() <= n {
        v
    } else {
        v.skip(v.len() - n)
    }
}

impl Limiter {
    /// All frames that came in.
    pub closed spec fn history(self) -> Seq<Samples> {
        self.frames@
    }

    /// The gains that frames need, as far as they are known.
    pub closed spec fn needs(self) -> Seq<u32> {
        self.minima.values()
    }

    /// The least gains of the windows so far.
    pub closed spec fn least_gains(self) -> Seq<u32> {
        self.lows@
    }

    /// How many frames it looks ahead.
    pub closed spec fn ahead(self) -> int {
        self.look as int
    }

    /// How many frames are of the recording.
    pub closed spec fn real_count(self) -> int {
        self.given as int
    }

    /// How many frames of the recording have left.
    pub closed spec fn emitted_count(self) -> int {
        self.emitted as int
    }

    /// The delay line holds the frames that have not left yet; the gain of each
    /// frame but the last is known; the smooth gain counts the last windows.
    pub closed spec fn wf(self) -> bool {
        self.given <= self.fed && self.wf_with(self.given as int)
    }

    /// As `wf`, where `given` frames are of the recording.
    spec fn wf_with(self, given: int) -> bool {
        let n = self.frames@.len() as int;
        let out = left(n, self.look as int);
        &&& self.look < u64::MAX
        &&& self.fed == n
        &&& self.minima.wf()
        &&& self.minima.reach() == self.look
        &&& self.minima.values().len() == (if n == 0 {
            0
        } else {
            n - 1
        })
        &&& self.delay@ == self.frames@.skip(out)
        &&& self.lows@.len() == out
        &&& self.ramp@ == last_of(self.lows@, self.look + 1)
        &&& self.emitted == lesser(out, given)
        &&& forall|i: int| 0 <= i < self.lows@.len() ==> is_least(self.minima.values(), i, i + self.look + 1, #[trigger] self.lows@[i])
    }

    /// How many frames have left, as a function of those that came in.
    pub proof fn leaving(self)
        requires
            self.wf(),
        ensures
            self.emitted_count() == lesser(left(self.history().len() as int, self.ahead()), self.real_count()),
            self.real_count() <= self.history().len(),
            self.least_gains().len() == left(self.history().len() as int, self.ahead()),
            self.needs().len() == (if self.history().len() == 0 {
                0
            } else {
                self.history().len() - 1
            }),
    {
    }

    /// A limiter for a sample rate.
    pub fn new(rate: u32) -> (r: Limiter)
        ensures
            r.wf(),
            r.ahead() == look_ahead(rate as int),
            r.history() == Seq::<Samples>::empty(),
            r.needs() == Seq::<u32>::empty(),
            r.least_gains() == Seq::<u32>::empty(),
            r.real_count() == 0,
    {
        let n: u64 = (rate as u64 + 100) / 200;
        let look: u64 = if n < 1 {
            1
        } else {
            n
        };
        let r = Limiter {
            look,
            delay: VecDeque::new(),
            minima: Minima::new(look),
            ramp: VecDeque::new(),
            fed: 0,
            given: 0,
            emitted: 0,
            frames: Ghost(Seq::empty()),
            lows: Ghost(Seq::empty()),
        };
        assert(r.delay@ =~= r.frames@.skip(0));
        r
    }

    /// Takes one more frame, and the gain that the frame before it needs (the
    /// first frame has none before it).
    #[verifier::spinoff_prover]
    #[verifier::rlimit(40)]
    fn feed(&mut self, frame: Samples, need: u32) -> (r: Option<Emission>)
        requires
            old(self).wf_with(old(self).given as int),
            old(self).history().len() < u64::MAX,
        ensures
            final(self).wf_with(old(self).given as int),
            final(self).given == old(self).given,
            taken(*old(self), *final(self), frame, need, r),
    {
        let ghost f0 = self.frames@;
        let ghost n = f0.len() as int;
        let first = self.fed == 0;
        self.fed = self.fed + 1;
        self.delay.push_back(frame);
        self.frames = Ghost(f0.push(frame));
        assert(self.delay@ =~= self.frames@.skip(left(n, self.look as int)));
        if first {
            return None;
        }
        let ghost h0 = self.minima.values();
        let m: u32 = self.minima.next(need);
        proof {
            assert forall|i: int| 0 <= i < self.lows@.len() implies is_least(self.minima.values(), i, i + self.look + 1, #[trigger] self.lows@[i]) by {
                lemma_still_least(h0, need, i, i + self.look + 1, self.lows@[i]);
            }
        }
        // The gain of frame `fed - 2` is known now.
        if self.fed - 2 < self.look {
            return None;
        }
        let ghost lows0 = self.lows@;
        self.ramp.push_back(m);
        self.lows = Ghost(lows0.push(m));
        let mut dropped: Option<u32> = None;
        if (self.ramp.len() as u128) > self.look as u128 + 1 {
            dropped = self.ramp.pop_front();
        }
        assert(self.ramp@ =~= last_of(self.lows@, self.look + 1));
        let samples = match self.delay.pop_front() {
            Some(s) => s,
            None => (0u32, 0u32),
        };
        assert(self.delay@ =~= self.frames@.skip(left(n + 1, self.look as int)));
        let keep = self.emitted < self.given;
        if keep {
            self.emitted = self.emitted + 1;
        }
        Some(Emission { least: m, dropped, count: self.ramp.len() as u64, samples, keep })
    }

    /// Takes the next frame of the recording.
    pub fn push(&mut self, frame: Samples, need: u32) -> (r: Option<Emission>)
        requires
            old(self).wf(),
            old(self).history().len() == old(self).real_count(),
            old(self).history().len() < u64::MAX,
        ensures
            final(self).wf(),
            final(self).real_count() == old(self).real_count() + 1,
            taken(*old(self), *final(self), frame, need, r),
            counted(*old(self), *final(self), r),
    {
        self.given = self.given + 1;
        self.feed(frame, need)
    }

    /// Whether frames of the recording are still in the delay line.
    pub fn is_holding(&self) -> (r: bool)
        requires
            self.wf(),
        ensures
            r == (self.emitted_count() < self.real_count()),
    {
        self.emitted < self.given
    }

    /// Takes a frame of the silence behind the recording.
    pub fn drain(&mut self, need: u32) -> (r: Option<Emission>)
        requires
            old(self).wf(),
            old(self).emitted_count() < old(self).real_count(),
            old(self).history().len() < u64::MAX,
        ensures
            final(self).wf(),
            final(self).real_count() == old(self).real_count(),
            taken(*old(self), *final(self), (0u32, 0u32), need, r),
            counted(*old(self), *final(self), r),
    {
        self.feed((0u32, 0u32), need)
    }
}

/// A least value stays so when more values follow.
proof fn lemma_still_least(h: Seq<u32>, x: u32, from: int, to: int, m: u32)
    requires
        0 <= from <= to <= h.len(),
        is_least(h, from, to, m),
    ensures
        is_least(h.push(x), from, to, m),
{
    let g = h.push(x);
    let k = choose|k: int| from <= k < to && #[trigger] h[k] == m;
    assert(g[k] == m);
    assert forall|k: int| from <= k < to implies m <= #[trigger] g[k] by {
        assert(g[k] == h[k]);
    }
}

/// The recording comes out whole: frames of it are held back exactly until the
/// silence behind it is one frame longer than the look-ahead.
pub proof fn recording_comes_out_whole(l: Limiter)
    requires
        l.wf(),
    ensures
        l.emitted_count() <= l.real_count(),
        l.emitted_count() < l.real_count() <==> (l.real_count() > 0 && l.history().len() < l.real_count() + l.ahead() + 1),
{
}

/// The recording: the frames that came in before the silence behind it.
pub open spec fn recording(l: Limiter) -> Seq<Samples> {
    l.history().take(l.real_count())
}

/// The frames of the recording that have left.
pub open spec fn output(l: Limiter) -> Seq<Samples> {
    l.history().take(l.emitted_count())
}

/// What leaves is the recording from its start on, frame by frame: taking a frame
/// adds the one that is kept to the output, or nothing.
pub proof fn output_grows_by_kept_frames(a: Limiter, b: Limiter, frame: Samples, need: u32, r: Option<Emission>)
    requires
        a.wf(),
        b.wf(),
        taken(a, b, frame, need, r),
        counted(a, b, r),
    ensures
        output(b) == if r matches Some(e) && e.keep {
            output(a).push((r->Some_0).samples)
        } else {
            output(a)
        },
{
    a.leaving();
    b.leaving();
    assert(output(b) =~= if r matches Some(e) && e.keep {
        output(a).push((r->Some_0).samples)
    } else {
        output(a)
    });
}

/// Once no frame is held back, the output is the recording: as many frames, in
/// order, without delay. No more silence is taken then, so it stays so.
pub proof fn output_is_the_recording(l: Limiter)
    requires
        l.wf(),
        l.emitted_count() >= l.real_count(),
    ensures
        output(l) == recording(l),
        output(l).len() == l.real_count(),
{
    l.leaving();
}

/// Where every frame needs the same gain, the smooth gain counts that gain only:
/// a recording without peaks keeps its level.
pub proof fn even_needs_give_an_even_gain(l: Limiter, gain: u32, i: int)
    requires
        l.wf(),
        forall|k: int| 0 <= k < l.needs().len() ==> #[trigger] l.needs()[k] == gain,
        0 <= i < l.least_gains().len(),
    ensures
        l.least_gains()[i] == gain,
{
    assert(is_least(l.needs(), i, i + l.ahead() + 1, l.least_gains()[i]));
    let k = choose|k: int| i <= k < i + l.ahead() + 1 && #[trigger] l.needs()[k] == l.least_gains()[i];
    l.leaving();
}

/// The gain is down when a peak leaves: every window that the smooth gain
/// counts when frame `k` leaves needs no more gain than frame `k` allows.
pub proof fn gain_is_down_when_a_peak_leaves(l: Limiter, k: int, i: int)
    requires
        l.wf(),
        0 <= k < l.least_gains().len(),
        0 <= i <= k,
        k - l.ahead() <= i,
    ensures
        l.least_gains()[i] <= l.needs()[k],
{
    assert(is_least(l.needs(), i, i + l.ahead() + 1, l.least_gains()[i]));
}

/// What taking a frame does: with enough frames ahead, the frame whose turn it
/// is leaves, and the smooth gain takes in the least gain of its window.
pub open spec fn taken(a: Limiter, b: Limiter, frame: Samples, need: u32, r: Option<Emission>) -> bool {
    let n = b.history().len() as int;
    let out = left(a.history().len() as int, a.ahead());
    &&& b.ahead() == a.ahead()
    &&& b.history() == a.history().push(frame)
    &&& b.needs() == (if n == 1 {
        a.needs()
    } else {
        a.needs().push(need)
    })
    &&& if left(n, a.ahead()) == out {
        r is None && b.least_gains() == a.least_gains()
    } else {
        r matches Some(e) && {
            &&& is_least(b.needs(), window_start(n - 1, a.ahead()), n - 1, e.least)
            &&& b.least_gains() == a.least_gains().push(e.least)
            &&& e.samples == b.history()[out]
            &&& e.keep == (out < b.real_count())
            &&& e.count == lesser(out + 1, a.ahead() + 1)
            &&& e.dropped == (if out + 1 > a.ahead() + 1 {
                Some(b.least_gains()[out - a.ahead() - 1])
            } else {
                None
            })
        }
    }
}

/// The frames that are kept are those of the recording, one after the other.
pub open spec fn counted(a: Limiter, b: Limiter, r: Option<Emission>) -> bool {
    if r matches Some(e) && e.keep {
        &&& r matches Some(e) && e.samples == b.history()[a.emitted_count()]
        &&& b.emitted_count() == a.emitted_count() + 1
    } else {
        b.emitted_count() == a.emitted_count()
    }
}

// ------------------------------------------------------------------ decimation

/// Counts frames for downsampling by a whole factor.
#[derive(Debug, Clone, Copy, PartialEq, Eq, Structural)]
pub struct Decimator {
    pub factor: u32,
    pub phase: u32,
}

impl Decimator {
    /// Whether the phase is one of the factor.
    pub open spec fn wf(self) -> bool {
        self.phase < self.factor
    }

    /// Downsampling by a factor.
    pub fn new(factor: u32) -> (r: Decimator)
        requires
            factor > 0,
        ensures
            r.wf(),
            r.factor == factor,
            r.phase == 0,
    {
        Decimator { factor, phase: 0 }
    }

    /// Takes one frame; true where it completes one of the lower rate.
    pub fn step(&mut self) -> (r: bool)
        requires
            old(self).wf(),
        ensures
            final(self).wf(),
            final(self).factor == old(self).factor,
            r == (old(self).phase + 1 == old(self).factor),
            final(self).phase == (if r {
                0
            } else {
                old(self).phase + 1
            }),
    {
        self.phase = self.phase + 1;
        if self.phase == self.factor {
            self.phase = 0;
            true
        } else {
            false
        }
    }
}

/// The phase after `n` frames.
pub open spec fn phase_after(d: Decimator, n: int) -> int
    decreases n,
{
    if n <= 0 {
        d.phase as int
    } else if phase_after(d, n - 1) + 1 == d.factor {
        0
    } else {
        phase_after(d, n - 1) + 1
    }
}

/// How many of `n` frames complete one of the lower rate.
pub open spec fn completed(d: Decimator, n: int) -> int
    decreases n,
{
    if n <= 0 {
        0
    } else {
        completed(d, n - 1) + if phase_after(d, n - 1) + 1 == d.factor {
            1int
        } else {
            0int
        }
    }
}

/// Of `n` frames from the start on, every `factor`-th completes one of the
/// lower rate.
pub proof fn every_factor_th_frame_counts(d: Decimator, n: int)
    requires
        d.wf(),
        d.phase == 0,
        n >= 0,
    ensures
        completed(d, n) == n / (d.factor as int),
        phase_after(d, n) == n % (d.factor as int),
    decreases n,
{
    let f = d.factor as int;
    if n > 0 {
        every_factor_th_frame_counts(d, n - 1);
        let q = (n - 1) / f;
        let r = (n - 1) % f;
        vstd::arithmetic::div_mod::lemma_fundamental_div_mod(n - 1, f);
        if r + 1 == f {
            assert(n == f * (q + 1) + 0) by (nonlinear_arith)
                requires
                    n - 1 == f * q + r,
                    r + 1 == f,
            ;
            vstd::arithmetic::div_mod::lemma_fundamental_div_mod_converse(n, f, q + 1, 0);
        } else {
            assert(n == q * f + (r + 1)) by (nonlinear_arith)
                requires
                    n - 1 == f * q + r,
            ;
            vstd::arithmetic::div_mod::lemma_fundamental_div_mod_converse(n, f, q, r + 1);
        }
    } else {
        vstd::arithmetic::div_mod::lemma_div_basics(f);
        vstd::arithmetic::div_mod::lemma_small_mod(0, f as nat);
    }
}

/// The limiter looks five milliseconds ahead, to the nearest frame, and one
/// frame at least.
pub proof fn looks_five_milliseconds_ahead(rate: int)
    requires
        0 <= rate,
    ensures
        1 <= look_ahead(rate),
        100 <= rate ==> -100 <= 200 * look_ahead(rate) - rate <= 100,
        rate < 100 ==> look_ahead(rate) == 1,
        look_ahead(rate) <= look_ahead(rate + 1),
{
}

/// The least gain of a window is the one that the loudest frame in it needs: no
/// frame from the one that leaves up to the end of the look-ahead needs less,
/// and one of them needs just that.
pub proof fn gains_are_as_low_as_the_loudest_frame_needs(l: Limiter, i: int)
    requires
        l.wf(),
        0 <= i < l.least_gains().len(),
    ensures
        forall|k: int| i <= k <= i + l.ahead() ==> l.least_gains()[i] <= #[trigger] l.needs()[k],
        exists|k: int| i <= k <= i + l.ahead() && #[trigger] l.needs()[k] == l.least_gains()[i],
{
    assert(is_least(l.needs(), i, i + l.ahead() + 1, l.least_gains()[i]));
}

} // verus!
