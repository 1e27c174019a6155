//! From windows in which two tracks do or do not share events to stretches in
//! which they are together or apart. Times are nanoseconds.

use vstd::prelude::*;

use crate::order::{sort, sorted_from, Ranked};
use crate::track::SECOND;

verus! {

/// Windows begin this far apart.
pub const HOP: i64 = 10_000_000_000;

/// Windows on each side of one that its share of hits is taken over.
pub const REACH: usize = 2;

/// Shortest stretch together.
pub const MIN_TOGETHER: i64 = 180_000_000_000;

/// Shortest stretch apart.
pub const MIN_APART: i64 = 120_000_000_000;

/// How far a cut may move to fall into a pause.
pub const SNAP_WINDOW: i64 = 30_000_000_000;

/// Mean coherence below which a stretch is not taken for shared, in billionths.
pub const DEMOTE_MSC: i64 = 20_000_000;

/// Deviation of an event peak from the common offset that still is a hit, in milliseconds.
pub const LAG_TOLERANCE_MS: i32 = 20;

/// Prominence that a peak needs to be a hit, in millionths.
pub const MIN_PROMINENCE: i64 = 6_000_000;

/// Decibels below the median (in millionths) at which a microphone is silent.
pub const SILENCE: i64 = 20_000_000;

/// Times in this module lie within these bounds.
pub const CLOCK_LIMIT: i64 = 800_000_000_000_000_000;

/// One window.
#[derive(Debug, Clone, Copy, PartialEq, Eq, Structural)]
pub struct Frame {
    /// Its start.
    pub t: i64,
    /// Whether both tracks share a sharp event at the common offset.
    pub hit: bool,
    /// Whether there is anything to hear.
    pub active: bool,
    /// Mean coherence in billionths, where it could be measured.
    pub msc: Option<u32>,
}

/// Whether two tracks record the same events.
#[derive(Debug, Clone, Copy, PartialEq, Eq, Structural)]
pub enum Kind {
    Together,
    Apart,
}

/// A stretch of one kind.
#[derive(Debug, Clone, Copy, PartialEq, Eq, Structural)]
pub struct Ph {
    pub kind: Kind,
    pub start: i64,
    pub end: i64,
}

/// Whether a window is a hit: a sharp peak close to the common offset.
pub fn is_hit(lag_ms: i32, prominence: i64) -> (r: bool)
    ensures
        r == (-LAG_TOLERANCE_MS <= lag_ms <= LAG_TOLERANCE_MS && prominence >= MIN_PROMINENCE),
        r <==> -20 <= lag_ms && lag_ms <= 20 && prominence >= 6_000_000,
{
    -LAG_TOLERANCE_MS <= lag_ms && lag_ms <= LAG_TOLERANCE_MS && prominence >= MIN_PROMINENCE
}

// ------------------------------------------------------------------ windows to kinds

/// Active windows among those from `from` to `to`.
pub open spec fn actives(f: Seq<Frame>, from: int, to: int) -> int
    decreases to - from,
{
    if to <= from {
        0
    } else {
        actives(f, from, to - 1) + (if f[to - 1].active {
            1int
        } else {
            0int
        })
    }
}

/// Active hits among the windows from `from` to `to`.
pub open spec fn hits(f: Seq<Frame>, from: int, to: int) -> int
    decreases to - from,
{
    if to <= from {
        0
    } else {
        hits(f, from, to - 1) + (if f[to - 1].active && f[to - 1].hit {
            1int
        } else {
            0int
        })
    }
}

/// First window around window `i`.
pub open spec fn around_from(i: int) -> int {
    if i < REACH {
        0
    } else {
        i - REACH
    }
}

/// One past the last window around window `i`.
pub open spec fn around_to(n: int, i: int) -> int {
    if i + REACH + 1 > n {
        n
    } else {
        i + REACH + 1
    }
}

/// What a window says by itself: together where at least 60 % of the active
/// windows around it are hits, apart where at most 20 % are.
pub open spec fn verdict(f: Seq<Frame>, i: int) -> Option<Kind> {
    let n = f.len() as int;
    let h = hits(f, around_from(i), around_to(n, i));
    let a = actives(f, around_from(i), around_to(n, i));
    if !f[i].active {
        None
    } else if h * 10 >= a * 6 {
        Some(Kind::Together)
    } else if h * 10 <= a * 2 {
        Some(Kind::Apart)
    } else {
        None
    }
}

/// The last verdict up to window `i`.
pub open spec fn verdict_before(f: Seq<Frame>, i: int) -> Option<Kind>
    decreases i + 1,
{
    if i < 0 {
        None
    } else if verdict(f, i) is Some {
        verdict(f, i)
    } else {
        verdict_before(f, i - 1)
    }
}

/// The first verdict from window `i` on.
pub open spec fn verdict_after(f: Seq<Frame>, i: int) -> Option<Kind>
    decreases f.len() - i,
{
    if i >= f.len() {
        None
    } else if verdict(f, i) is Some {
        verdict(f, i)
    } else {
        verdict_after(f, i + 1)
    }
}

/// The kind of window `i`: the last verdict, else the next one, else together.
pub open spec fn kind_at(f: Seq<Frame>, i: int) -> Kind {
    match verdict_before(f, i) {
        Some(k) => k,
        None => match verdict_after(f, i) {
            Some(k) => k,
            None => Kind::Together,
        },
    }
}

/// Counts active windows and active hits.
fn tally(f: &Vec<Frame>, from: usize, to: usize) -> (r: (u64, u64))
    requires
        from <= to <= f.len(),
    ensures
        r.0 == actives(f@, from as int, to as int),
        r.1 == hits(f@, from as int, to as int),
        r.1 <= r.0 <= to - from,
{
    let mut a: u64 = 0;
    let mut h: u64 = 0;
    let mut i: usize = from;
    while i < to
        invariant
            from <= i <= to <= f.len(),
            a == actives(f@, from as int, i as int),
            h == hits(f@, from as int, i as int),
            h <= a <= i - from,
        decreases to - i,
    {
        if f[i].active {
            a = a + 1;
            if f[i].hit {
                h = h + 1;
            }
        }
        i = i + 1;
    }
    (a, h)
}

/// What a window says by itself.
fn judge(f: &Vec<Frame>, i: usize) -> (r: Option<Kind>)
    requires
        i < f.len(),
    ensures
        r == verdict(f@, i as int),
{
    if !f[i].active {
        return None;
    }
    let from: usize = if i < REACH {
        0
    } else {
        i - REACH
    };
    let to: usize = if f.len() - i <= REACH {
        f.len()
    } else {
        i + REACH + 1
    };
    let (a, h) = tally(f, from, to);
    if h * 10 >= a * 6 {
        Some(Kind::Together)
    } else if h * 10 <= a * 2 {
        Some(Kind::Apart)
    } else {
        None
    }
}

/// The kind of every window.
pub fn classify(f: &Vec<Frame>) -> (r: Vec<Kind>)
    ensures
        r.len() == f.len(),
        forall|i: int| 0 <= i < f.len() ==> #[trigger] r@[i] == kind_at(f@, i),
{
    let n: usize = f.len();
    let mut said: Vec<Option<Kind>> = Vec::new();
    let mut last: Option<Kind> = None;
    let mut i: usize = 0;
    while i < n
        invariant
            i <= n == f.len(),
            said.len() == i,
            last == verdict_before(f@, i - 1),
            forall|k: int| 0 <= k < i ==> #[trigger] said@[k] == verdict_before(f@, k),
        decreases n - i,
    {
        let v = judge(f, i);
        if v.is_some() {
            last = v;
        }
        said.push(last);
        i = i + 1;
    }
    let mut out: Vec<Kind> = Vec::new();
    let mut next: Option<Kind> = None;
    let mut left: usize = n;
    // From the last window back: what is open takes the next verdict.
    while left > 0
        invariant
            left <= n == f.len(),
            said.len() == n,
            out.len() == n - left,
            next == verdict_after(f@, left as int),
            forall|k: int| 0 <= k < n ==> #[trigger] said@[k] == verdict_before(f@, k),
            forall|k: int| left <= k < n ==> #[trigger] out@[n - 1 - k] == kind_at(f@, k),
        decreases left,
    {
        let i: usize = left - 1;
        let v = judge(f, i);
        if v.is_some() {
            next = v;
        }
        let k = match said[i] {
            Some(k) => k,
            None => match next {
                Some(k) => k,
                None => Kind::Together,
            },
        };
        let ghost o = out@;
        out.push(k);
        assert forall|j: int| i <= j < n implies #[trigger] out@[n - 1 - j] == kind_at(f@, j) by {
            if j > i {
                assert(out@[n - 1 - j] == o[n - 1 - j]);
            }
        }
        left = i;
    }
    let mut r: Vec<Kind> = Vec::new();
    let mut i: usize = 0;
    while i < n
        invariant
            i <= n == f.len(),
            out.len() == n,
            r.len() == i,
            forall|k: int| 0 <= k < n ==> #[trigger] out@[n - 1 - k] == kind_at(f@, k),
            forall|k: int| 0 <= k < i ==> #[trigger] r@[k] == kind_at(f@, k),
        decreases n - i,
    {
        assert(out@[n - 1 - i] == kind_at(f@, i as int));
        r.push(out[n - 1 - i]);
        i = i + 1;
    }
    r
}

// ------------------------------------------------------------------ stretches

/// A list of stretches with one more, joined to the last one if it is of the same kind.
pub open spec fn extended(v: Seq<Ph>, p: Ph) -> Seq<Ph> {
    if v.len() > 0 && v.last().kind == p.kind {
        v.drop_last().push(Ph { kind: p.kind, start: v.last().start, end: p.end })
    } else {
        v.push(p)
    }
}

/// The stretches of the first `n` windows.
pub open spec fn stretches(f: Seq<Frame>, n: int) -> Seq<Ph>
    decreases n,
{
    if n <= 0 {
        Seq::empty()
    } else {
        extended(stretches(f, n - 1), Ph { kind: kind_at(f, n - 1), start: f[n - 1].t, end: (f[n - 1].t + HOP) as i64 })
    }
}

/// The first `n` stretches with neighbours of the same kind joined.
pub open spec fn rejoined(v: Seq<Ph>, n: int) -> Seq<Ph>
    decreases n,
{
    if n <= 0 {
        Seq::empty()
    } else {
        extended(rejoined(v, n - 1), v[n - 1])
    }
}

/// Appends a stretch, joined to the last one if it is of the same kind.
fn extend(v: &mut Vec<Ph>, p: Ph)
    ensures
        final(v)@ == extended(old(v)@, p),
{
    let n: usize = v.len();
    if n > 0 && v[n - 1].kind == p.kind {
        let start: i64 = v[n - 1].start;
        v.set(n - 1, Ph { kind: p.kind, start, end: p.end });
        assert(v@ =~= extended(old(v)@, p));
    } else {
        v.push(p);
    }
}

/// Whether windows lie within the bounds of time.
pub open spec fn frames_bounded(f: Seq<Frame>) -> bool {
    forall|i: int| 0 <= i < f.len() ==> -CLOCK_LIMIT <= (#[trigger] f[i]).t <= CLOCK_LIMIT
}

/// The stretches of windows of one kind.
pub fn to_phases(kinds: &Vec<Kind>, f: &Vec<Frame>) -> (r: Vec<Ph>)
    requires
        kinds.len() == f.len(),
        frames_bounded(f@),
        forall|i: int| 0 <= i < f.len() ==> #[trigger] kinds@[i] == kind_at(f@, i),
    ensures
        r@ == stretches(f@, f.len() as int),
{
    let mut out: Vec<Ph> = Vec::new();
    let mut i: usize = 0;
    while i < f.len()
        invariant
            i <= f.len() == kinds.len(),
            frames_bounded(f@),
            forall|k: int| 0 <= k < f.len() ==> #[trigger] kinds@[k] == kind_at(f@, k),
            out@ == stretches(f@, i as int),
        decreases f.len() - i,
    {
        let p = Ph { kind: kinds[i], start: f[i].t, end: f[i].t + HOP };
        extend(&mut out, p);
        i = i + 1;
    }
    out
}

/// Joins neighbours of the same kind.
pub fn rejoin(v: &Vec<Ph>) -> (r: Vec<Ph>)
    ensures
        r@ == rejoined(v@, v.len() as int),
{
    let mut out: Vec<Ph> = Vec::new();
    let mut i: usize = 0;
    while i < v.len()
        invariant
            i <= v.len(),
            out@ == rejoined(v@, i as int),
        decreases v.len() - i,
    {
        extend(&mut out, v[i]);
        i = i + 1;
    }
    out
}

// ------------------------------------------------------------------ short stretches

/// Length of a stretch.
pub open spec fn length(p: Ph) -> int {
    p.end - p.start
}

/// The shortest length of a stretch of this kind.
pub open spec fn least(kind: Kind) -> int {
    match kind {
        Kind::Together => MIN_TOGETHER as int,
        Kind::Apart => MIN_APART as int,
    }
}

/// Whether a stretch is too short for its kind.
pub open spec fn too_short(p: Ph) -> bool {
    length(p) < least(p.kind)
}

/// Whether no stretch is too short.
pub open spec fn all_long(v: Seq<Ph>) -> bool {
    forall|k: int| 0 <= k < v.len() ==> !too_short(#[trigger] v[k])
}

/// The shortest length of a stretch of this kind.
fn least_of(kind: Kind) -> (r: i64)
    ensures
        r == least(kind),
{
    match kind {
        Kind::Together => MIN_TOGETHER,
        Kind::Apart => MIN_APART,
    }
}

/// The shortest of the first `n` stretches that are too short, the first one of several.
pub open spec fn shortest(v: Seq<Ph>, n: int) -> Option<int>
    decreases n,
{
    if n <= 0 {
        None
    } else {
        match shortest(v, n - 1) {
            None => if too_short(v[n - 1]) {
                Some(n - 1)
            } else {
                None
            },
            Some(i) => if too_short(v[n - 1]) && length(v[n - 1]) < length(v[i]) {
                Some(n - 1)
            } else {
                Some(i)
            },
        }
    }
}

/// The longer neighbour of stretch `i`, the one before it if both are equal.
pub open spec fn longest(v: Seq<Ph>, i: int) -> int {
    if i == 0 {
        1
    } else if i + 1 >= v.len() {
        i - 1
    } else if length(v[i + 1]) > length(v[i - 1]) {
        i + 1
    } else {
        i - 1
    }
}

/// Stretch `i` takes the kind of its longer neighbour and is joined to it.
pub open spec fn absorbed(v: Seq<Ph>, i: int) -> Seq<Ph> {
    let w = v.update(i, Ph { kind: v[longest(v, i)].kind, ..v[i] });
    rejoined(w, w.len() as int)
}

/// Stretches that are too short take the kind of their longer neighbour,
/// shortest first, until none is left or only one remains.
pub open spec fn merged(v: Seq<Ph>) -> Seq<Ph>
    decreases v.len(),
{
    if v.len() <= 1 {
        v
    } else {
        match shortest(v, v.len() as int) {
            None => v,
            Some(i) => if absorbed(v, i).len() < v.len() {
                merged(absorbed(v, i))
            } else {
                absorbed(v, i)
            },
        }
    }
}

/// Whether all times of stretches are within the bounds.
pub open spec fn bounded(v: Seq<Ph>) -> bool {
    forall|i: int| 0 <= i < v.len() ==> -CLOCK_LIMIT - HOP <= (#[trigger] v[i]).start <= CLOCK_LIMIT + HOP && -CLOCK_LIMIT - HOP <= v[i].end <= CLOCK_LIMIT + HOP
}

/// Joining takes its times from the stretches joined, keeps the first start and
/// the last end, and leaves no more stretches than there were.
proof fn lemma_rejoined(v: Seq<Ph>, n: int)
    requires
        0 <= n <= v.len(),
    ensures
        rejoined(v, n).len() <= n,
        n > 0 ==> rejoined(v, n).len() > 0 && rejoined(v, n)[0].start == v[0].start && rejoined(v, n).last().end == v[n - 1].end && rejoined(v, n).last().kind
            == v[n - 1].kind,
        bounded(v) ==> bounded(rejoined(v, n)),
    decreases n,
{
    if n > 0 {
        lemma_rejoined(v, n - 1);
        let a = rejoined(v, n - 1);
        let b = rejoined(v, n);
        if bounded(v) {
            assert forall|i: int| 0 <= i < b.len() implies -CLOCK_LIMIT - HOP <= (#[trigger] b[i]).start <= CLOCK_LIMIT + HOP && -CLOCK_LIMIT - HOP <= b[i].end
                <= CLOCK_LIMIT + HOP by {
                if i < a.len() - 1 {
                    assert(b[i] == a[i]);
                } else if i == a.len() - 1 {
                    assert(a[i] == a.last());
                }
            }
        }
    }
}

/// Two neighbours of the same kind leave at least one stretch less.
proof fn lemma_rejoined_shrinks(v: Seq<Ph>, n: int, k: int)
    requires
        0 < k < n <= v.len(),
        v[k - 1].kind == v[k].kind,
    ensures
        rejoined(v, n).len() < n,
    decreases n,
{
    if n == k + 1 {
        lemma_rejoined(v, k);
    } else {
        lemma_rejoined_shrinks(v, n - 1, k);
    }
}

/// The shortest stretch is one of those that are too short, and none that is
/// too short is left over where there is no shortest.
proof fn lemma_shortest(v: Seq<Ph>, n: int)
    requires
        0 <= n <= v.len(),
    ensures
        match shortest(v, n) {
            Some(i) => 0 <= i < n && too_short(v[i]) && (forall|k: int| 0 <= k < n && too_short(#[trigger] v[k]) ==> length(v[i]) <= length(v[k])),
            None => forall|k: int| 0 <= k < n ==> !too_short(#[trigger] v[k]),
        },
    decreases n,
{
    if n > 0 {
        lemma_shortest(v, n - 1);
    }
}

/// Absorbing a stretch leaves fewer of them and keeps start and end.
proof fn lemma_absorbed(v: Seq<Ph>, i: int)
    requires
        v.len() > 1,
        0 <= i < v.len(),
    ensures
        0 < absorbed(v, i).len() < v.len(),
        absorbed(v, i)[0].start == v[0].start,
        absorbed(v, i).last().end == v.last().end,
        bounded(v) ==> bounded(absorbed(v, i)),
{
    let j = longest(v, i);
    let w = v.update(i, Ph { kind: v[j].kind, ..v[i] });
    lemma_rejoined(w, w.len() as int);
    if j < i {
        lemma_rejoined_shrinks(w, w.len() as int, i);
    } else {
        lemma_rejoined_shrinks(w, w.len() as int, j);
    }
    if bounded(v) {
        assert forall|k: int| 0 <= k < w.len() implies -CLOCK_LIMIT - HOP <= (#[trigger] w[k]).start <= CLOCK_LIMIT + HOP && -CLOCK_LIMIT - HOP <= w[k].end <= CLOCK_LIMIT
            + HOP by {
            assert(v[k].start == w[k].start && v[k].end == w[k].end);
        }
    }
}

/// No stretch is too short afterwards, unless it is the only one; and what the
/// stretches cover starts and ends where it did.
pub proof fn merged_stretches_are_long(v: Seq<Ph>)
    requires
        v.len() > 0,
    ensures
        merged(v).len() > 0,
        merged(v).len() == 1 || (forall|k: int| 0 <= k < merged(v).len() ==> !too_short(#[trigger] merged(v)[k])),
        merged(v)[0].start == v[0].start,
        merged(v).last().end == v.last().end,
        merged(v).len() <= v.len(),
        bounded(v) ==> bounded(merged(v)),
    decreases v.len(),
{
    if v.len() > 1 {
        lemma_shortest(v, v.len() as int);
        match shortest(v, v.len() as int) {
            None => {},
            Some(i) => {
                lemma_absorbed(v, i);
                merged_stretches_are_long(absorbed(v, i));
            },
        }
    }
}

/// The shortest stretch that is too short.
fn find_shortest(v: &Vec<Ph>) -> (r: Option<usize>)
    requires
        bounded(v@),
    ensures
        match r {
            Some(i) => i < v.len() && shortest(v@, v.len() as int) == Some(i as int),
            None => shortest(v@, v.len() as int) is None,
        },
{
    let mut best: Option<usize> = None;
    let mut i: usize = 0;
    while i < v.len()
        invariant
            i <= v.len(),
            bounded(v@),
            match best {
                Some(b) => b < i && shortest(v@, i as int) == Some(b as int),
                None => shortest(v@, i as int) is None,
            },
        decreases v.len() - i,
    {
        let len: i64 = v[i].end - v[i].start;
        let short = match v[i].kind {
            Kind::Together => len < MIN_TOGETHER,
            Kind::Apart => len < MIN_APART,
        };
        if short {
            best = match best {
                None => Some(i),
                Some(b) => {
                    assert(-CLOCK_LIMIT - HOP <= v@[b as int].start);
                    let other: i64 = v[b].end - v[b].start;
                    if len < other {
                        Some(i)
                    } else {
                        Some(b)
                    }
                },
            };
        }
        i = i + 1;
    }
    best
}

/// Stretches that are too short take the kind of their longer neighbour,
/// shortest first, so a brief gap inside a long stretch never swallows the
/// stretch.
pub fn merge_short(v: Vec<Ph>) -> (r: Vec<Ph>)
    requires
        bounded(v@),
    ensures
        r@ == merged(v@),
        bounded(r@),
{
    let ghost start = v@;
    let mut v = v;
    while v.len() > 1
        invariant
            bounded(v@),
            merged(v@) == merged(start),
        ensures
            bounded(v@),
            v@ == merged(start),
        decreases v.len(),
    {
        let i: usize = match find_shortest(&v) {
            Some(i) => i,
            None => break,
        };
        let j: usize = if i == 0 {
            1
        } else if i + 1 >= v.len() {
            i - 1
        } else {
            assert(bounded(v@));
            let after: i64 = v[i + 1].end - v[i + 1].start;
            let before: i64 = v[i - 1].end - v[i - 1].start;
            if after > before {
                i + 1
            } else {
                i - 1
            }
        };
        assert(j == longest(v@, i as int));
        let ghost old_v = v@;
        let k = v[j].kind;
        let (s, e) = (v[i].start, v[i].end);
        v.set(i, Ph { kind: k, start: s, end: e });
        assert(v@ =~= old_v.update(i as int, Ph { kind: old_v[j as int].kind, ..old_v[i as int] }));
        proof {
            lemma_absorbed(old_v, i as int);
        }
        v = rejoin(&v);
    }
    v
}

// ------------------------------------------------------------------ evidence

/// Whether a window counts for the time from `s` to `e`.
pub open spec fn counts(f: Frame, s: int, e: int) -> bool {
    f.active && s <= f.t < e
}

/// Windows among the first `n` that count.
pub open spec fn count_in(f: Seq<Frame>, s: int, e: int, n: int) -> nat
    decreases n,
{
    if n <= 0 {
        0
    } else {
        count_in(f, s, e, n - 1) + (if counts(f[n - 1], s, e) {
            1nat
        } else {
            0nat
        })
    }
}

/// Hits among the first `n` windows that count.
pub open spec fn hits_in(f: Seq<Frame>, s: int, e: int, n: int) -> nat
    decreases n,
{
    if n <= 0 {
        0
    } else {
        hits_in(f, s, e, n - 1) + (if counts(f[n - 1], s, e) && f[n - 1].hit {
            1nat
        } else {
            0nat
        })
    }
}

/// Measured coherence among the first `n` windows that count: how many, and the sum.
pub open spec fn msc_in(f: Seq<Frame>, s: int, e: int, n: int) -> (nat, nat)
    decreases n,
{
    if n <= 0 {
        (0, 0)
    } else {
        let (c, m) = msc_in(f, s, e, n - 1);
        match f[n - 1].msc {
            Some(x) => if counts(f[n - 1], s, e) {
                (c + 1, m + x as nat)
            } else {
                (c, m)
            },
            None => (c, m),
        }
    }
}

/// What the windows of a time say.
#[derive(Debug, Clone, Copy, PartialEq, Eq, Structural)]
pub struct Evidence {
    /// Windows that count, and hits among them.
    pub count: u64,
    pub hits: u64,
    /// Windows with measured coherence, and its sum in billionths.
    pub measured: u64,
    pub coherence: u64,
}

/// What the windows of a time say.
pub open spec fn evidence(f: Seq<Frame>, s: int, e: int) -> Evidence {
    let n = f.len() as int;
    let m = msc_in(f, s, e, n);
    Evidence { count: count_in(f, s, e, n) as u64, hits: hits_in(f, s, e, n) as u64, measured: m.0 as u64, coherence: m.1 as u64 }
}

/// Whether evidence is too weak for a stretch together: fewer than 40 % hits,
/// or hardly any coherence.
pub open spec fn is_weak(x: Evidence) -> bool {
    (x.count > 0 && x.hits * 10 < x.count * 4) || (x.measured > 0 && x.coherence < DEMOTE_MSC * x.measured)
}

/// Whether there are few enough windows to count (136 years of them).
pub open spec fn countable_frames(f: Seq<Frame>) -> bool {
    f.len() <= 0xFFFF_FFFF
}

/// What the windows from `s` to `e` say.
pub fn weigh(f: &Vec<Frame>, s: i64, e: i64) -> (r: Evidence)
    requires
        countable_frames(f@),
    ensures
        r == evidence(f@, s as int, e as int),
        r.hits <= r.count <= f.len(),
        r.measured <= f.len(),
        r.coherence <= r.measured * 0xFFFF_FFFF,
{
    let mut x = Evidence { count: 0, hits: 0, measured: 0, coherence: 0 };
    let mut i: usize = 0;
    while i < f.len()
        invariant
            i <= f.len() <= 0xFFFF_FFFF,
            x.count == count_in(f@, s as int, e as int, i as int),
            x.hits == hits_in(f@, s as int, e as int, i as int),
            (x.measured as nat, x.coherence as nat) == msc_in(f@, s as int, e as int, i as int),
            x.hits <= x.count <= i,
            x.measured <= i,
            x.coherence <= x.measured * 0xFFFF_FFFF,
        decreases f.len() - i,
    {
        if f[i].active && s <= f[i].t && f[i].t < e {
            x.count = x.count + 1;
            if f[i].hit {
                x.hits = x.hits + 1;
            }
            match f[i].msc {
                Some(m) => {
                    assert(x.coherence + m <= 0xFFFF_FFFF * 0xFFFF_FFFF);
                    x.measured = x.measured + 1;
                    x.coherence = x.coherence + m as u64;
                },
                None => {},
            }
        }
        i = i + 1;
    }
    x
}

/// Stretches together without enough evidence become apart: a wrong stereo pair
/// costs more than two mono files.
pub open spec fn demoted(f: Seq<Frame>, v: Seq<Ph>) -> Seq<Ph> {
    Seq::new(
        v.len(),
        |i: int|
            Ph {
                kind: if v[i].kind == Kind::Together && is_weak(evidence(f, v[i].start as int, v[i].end as int)) {
                    Kind::Apart
                } else {
                    v[i].kind
                },
                ..v[i]
            },
    )
}

/// One round of weighing and merging.
pub open spec fn reviewed(f: Seq<Frame>, v: Seq<Ph>) -> Seq<Ph> {
    merged(demoted(f, v))
}

/// The stretches that windows make, three times weighed.
pub open spec fn settled(f: Seq<Frame>) -> Seq<Ph> {
    reviewed(f, reviewed(f, reviewed(f, merged(stretches(f, f.len() as int)))))
}

/// Stretches drawn out to the times `s` and `e`.
pub open spec fn drawn_out(v: Seq<Ph>, s: int, e: int) -> Seq<Ph> {
    let w = v.update(0, Ph { start: s as i64, ..v[0] });
    w.update(w.len() - 1, Ph { end: e as i64, ..w.last() })
}

/// The stretches of the time from `s` to `e` before cuts are moved; without any
/// window it is one stretch together.
pub open spec fn uncut(f: Seq<Frame>, s: int, e: int) -> Seq<Ph> {
    if f.len() == 0 {
        seq![Ph { kind: Kind::Together, start: s as i64, end: e as i64 }]
    } else {
        drawn_out(settled(f), s, e)
    }
}

/// Windows make stretches within the bounds.
proof fn lemma_stretches(f: Seq<Frame>, n: int)
    requires
        frames_bounded(f),
        0 <= n <= f.len(),
    ensures
        bounded(stretches(f, n)),
        n > 0 ==> stretches(f, n).len() > 0,
    decreases n,
{
    if n > 0 {
        lemma_stretches(f, n - 1);
        let a = stretches(f, n - 1);
        let b = stretches(f, n);
        assert(-CLOCK_LIMIT <= f[n - 1].t <= CLOCK_LIMIT);
        assert forall|i: int| 0 <= i < b.len() implies -CLOCK_LIMIT - HOP <= (#[trigger] b[i]).start <= CLOCK_LIMIT + HOP && -CLOCK_LIMIT - HOP <= b[i].end <= CLOCK_LIMIT
            + HOP by {
            if i < a.len() - 1 {
                assert(b[i] == a[i]);
            } else if i == a.len() - 1 {
                assert(a[i] == a.last());
            }
        }
    }
}

/// One round of weighing and merging.
fn review(f: &Vec<Frame>, v: Vec<Ph>) -> (r: Vec<Ph>)
    requires
        countable_frames(f@),
        bounded(v@),
        v.len() > 0,
    ensures
        r@ == reviewed(f@, v@),
        bounded(r@),
        r.len() > 0,
{
    let mut w: Vec<Ph> = Vec::new();
    let mut i: usize = 0;
    while i < v.len()
        invariant
            i <= v.len(),
            countable_frames(f@),
            bounded(v@),
            w.len() == i,
            forall|k: int| 0 <= k < i ==> #[trigger] w@[k] == demoted(f@, v@)[k],
        decreases v.len() - i,
    {
        let x = weigh(f, v[i].start, v[i].end);
        let weak = (x.count > 0 && x.hits * 10 < x.count * 4) || (x.measured > 0 && x.coherence < 20_000_000 * x.measured);
        let kind = if weak && v[i].kind == Kind::Together {
            Kind::Apart
        } else {
            v[i].kind
        };
        w.push(Ph { kind, start: v[i].start, end: v[i].end });
        i = i + 1;
    }
    assert(w@ =~= demoted(f@, v@));
    proof {
        assert forall|k: int| 0 <= k < w@.len() implies -CLOCK_LIMIT - HOP <= (#[trigger] w@[k]).start <= CLOCK_LIMIT + HOP && -CLOCK_LIMIT - HOP <= w@[k].end
            <= CLOCK_LIMIT + HOP by {
            assert(v@[k].start == w@[k].start && v@[k].end == w@[k].end);
        }
        merged_stretches_are_long(w@);
    }
    merge_short(w)
}

/// The stretches of the time from `s` to `e` before cuts are moved.
pub fn phases_uncut(f: &Vec<Frame>, s: i64, e: i64) -> (r: Vec<Ph>)
    requires
        countable_frames(f@),
        frames_bounded(f@),
        -CLOCK_LIMIT <= s <= CLOCK_LIMIT,
        -CLOCK_LIMIT <= e <= CLOCK_LIMIT,
    ensures
        r@ == uncut(f@, s as int, e as int),
        bounded(r@),
        r.len() > 0,
{
    let mut out: Vec<Ph> = Vec::new();
    if f.len() == 0 {
        out.push(Ph { kind: Kind::Together, start: s, end: e });
        assert(out@ =~= uncut(f@, s as int, e as int));
        return out;
    }
    let kinds = classify(f);
    let first = to_phases(&kinds, f);
    proof {
        lemma_stretches(f@, f.len() as int);
        merged_stretches_are_long(first@);
    }
    let mut v = merge_short(first);
    v = review(f, v);
    v = review(f, v);
    v = review(f, v);
    let ghost w = v@;
    let n: usize = v.len();
    let k0 = v[0];
    v.set(0, Ph { kind: k0.kind, start: s, end: k0.end });
    let k1 = v[n - 1];
    v.set(n - 1, Ph { kind: k1.kind, start: k1.start, end: e });
    assert(v@ =~= drawn_out(w, s as int, e as int));
    v
}

// ------------------------------------------------------------------ cuts

/// How much of a stretch a moved cut leaves: half a minute, or where cuts are
/// moved with care, as much as its kind asks for.
pub open spec fn margin(p: Ph, careful: bool) -> int {
    if careful {
        least(p.kind)
    } else {
        SNAP_WINDOW as int
    }
}

/// Earliest and latest place for the cut before stretch `i`: near where it is,
/// and so that enough of both stretches is left.
pub open spec fn cut_range(v: Seq<Ph>, i: int, careful: bool) -> (int, int) {
    let t = v[i].start;
    let a = v[i - 1].start + margin(v[i - 1], careful);
    let b = v[i].end - margin(v[i], careful);
    (
        if a > t - SNAP_WINDOW {
            a
        } else {
            t - SNAP_WINDOW
        },
        if b < t + SNAP_WINDOW {
            b
        } else {
            t + SNAP_WINDOW
        },
    )
}

/// How many places, a second apart, the cut before stretch `i` may take; none
/// where there is hardly any room.
pub open spec fn cut_places(v: Seq<Ph>, i: int, careful: bool) -> int {
    let (lo, hi) = cut_range(v, i, careful);
    if hi - lo < 2 * SECOND {
        0
    } else {
        (hi - lo + SECOND - 1) / (SECOND as int)
    }
}

/// The quietest of the first `n` places, the first one of several; none where
/// all are unmeasured (the largest number).
pub open spec fn quietest(loud: Seq<i64>, n: int) -> Option<int>
    decreases n,
{
    if n <= 0 {
        None
    } else {
        match quietest(loud, n - 1) {
            None => if loud[n - 1] < i64::MAX {
                Some(n - 1)
            } else {
                None
            },
            Some(k) => if loud[n - 1] < loud[k] {
                Some(n - 1)
            } else {
                Some(k)
            },
        }
    }
}

/// The stretches with the cut before stretch `i` moved to the quietest place.
pub open spec fn cut_moved(v: Seq<Ph>, i: int, loud: Seq<i64>, careful: bool) -> Seq<Ph> {
    match quietest(loud, loud.len() as int) {
        None => if cut_places(v, i, careful) == 0 {
            v
        } else {
            v.update(i - 1, Ph { end: v[i].start, ..v[i - 1] })
        },
        Some(k) => {
            let c = (cut_range(v, i, careful).0 + k * SECOND) as i64;
            v.update(i - 1, Ph { end: c, ..v[i - 1] }).update(i, Ph { start: c, ..v[i] })
        },
    }
}

/// How much of a stretch a moved cut leaves.
fn margin_of(p: &Ph, careful: bool) -> (r: i64)
    ensures
        r == margin(*p, careful),
{
    if careful {
        least_of(p.kind)
    } else {
        SNAP_WINDOW
    }
}

/// The first of the places that the cut before stretch `i` may take, and how
/// many there are, a second apart.
pub fn cut_window(v: &Vec<Ph>, i: usize, careful: bool) -> (r: (i64, usize))
    requires
        bounded(v@),
        0 < i < v.len(),
    ensures
        r.0 == cut_range(v@, i as int, careful).0,
        r.1 == cut_places(v@, i as int, careful),
        r.1 <= 60,
{
    assert(-CLOCK_LIMIT - HOP <= v@[i - 1].start <= CLOCK_LIMIT + HOP && -CLOCK_LIMIT - HOP <= v@[i as int].end <= CLOCK_LIMIT + HOP);
    let t: i64 = v[i].start;
    let a: i64 = v[i - 1].start + margin_of(&v[i - 1], careful);
    let b: i64 = v[i].end - margin_of(&v[i], careful);
    let lo: i64 = if a > t - SNAP_WINDOW {
        a
    } else {
        t - SNAP_WINDOW
    };
    let hi: i64 = if b < t + SNAP_WINDOW {
        b
    } else {
        t + SNAP_WINDOW
    };
    if hi - lo < 2_000_000_000 {
        (lo, 0)
    } else {
        (lo, ((hi - lo + 999_999_999) / 1_000_000_000) as usize)
    }
}

/// The quietest place.
fn find_quietest(loud: &Vec<i64>) -> (r: Option<usize>)
    ensures
        match r {
            Some(k) => k < loud.len() && quietest(loud@, loud.len() as int) == Some(k as int),
            None => quietest(loud@, loud.len() as int) is None,
        },
{
    let mut best: Option<usize> = None;
    let mut i: usize = 0;
    while i < loud.len()
        invariant
            i <= loud.len(),
            match best {
                Some(k) => k < i && quietest(loud@, i as int) == Some(k as int),
                None => quietest(loud@, i as int) is None,
            },
        decreases loud.len() - i,
    {
        best = match best {
            None => if loud[i] < i64::MAX {
                Some(i)
            } else {
                None
            },
            Some(k) => if loud[i] < loud[k] {
                Some(i)
            } else {
                Some(k)
            },
        };
        i = i + 1;
    }
    best
}

/// Moves the cut before stretch `i` to the quietest of its places, so that no
/// word is split. `loud` says how loud each place is.
pub fn move_cut(v: &mut Vec<Ph>, i: usize, loud: &Vec<i64>, careful: bool)
    requires
        bounded(old(v)@),
        0 < i < old(v).len(),
        loud.len() == cut_places(old(v)@, i as int, careful),
    ensures
        final(v)@ == cut_moved(old(v)@, i as int, loud@, careful),
        bounded(final(v)@),
        final(v).len() == old(v).len(),
        tiled(old(v)@) ==> tiled(final(v)@),
        final(v)@[0].start == old(v)@[0].start,
        final(v)@.last().end == old(v)@.last().end,
        careful && tiled(old(v)@) && all_long(old(v)@) ==> all_long(final(v)@),
{
    let ghost o = v@;
    let (lo, n) = cut_window(v, i, careful);
    let (p, q) = (v[i - 1], v[i]);
    proof {
        assert(-CLOCK_LIMIT - HOP <= o[i - 1].start <= CLOCK_LIMIT + HOP);
        assert(-CLOCK_LIMIT - HOP <= o[i as int].end <= CLOCK_LIMIT + HOP);
    }
    match find_quietest(loud) {
        Some(k) => {
            proof {
                lemma_cut_inside(o, i as int, k as int, careful);
            }
            let c: i64 = lo + k as i64 * 1_000_000_000;
            v.set(i - 1, Ph { kind: p.kind, start: p.start, end: c });
            v.set(i, Ph { kind: q.kind, start: c, end: q.end });
        },
        None => {
            if n > 0 {
                v.set(i - 1, Ph { kind: p.kind, start: p.start, end: q.start });
            }
        },
    }
    assert forall|k: int| 0 <= k < v@.len() implies -CLOCK_LIMIT - HOP <= (#[trigger] v@[k]).start <= CLOCK_LIMIT + HOP && -CLOCK_LIMIT - HOP <= v@[k].end
        <= CLOCK_LIMIT + HOP by {
        assert(-CLOCK_LIMIT - HOP <= o[k].start <= CLOCK_LIMIT + HOP);
    }
    proof {
        if tiled(o) {
            moved_cuts_tile(o, i as int, loud@, careful);
            if careful && all_long(o) {
                moved_cuts_leave_long_stretches(o, i as int, loud@);
            }
        }
    }
}

/// A moved cut leaves enough of the stretches on both sides, and moves by at most
/// 30 seconds.
pub proof fn lemma_cut_inside(v: Seq<Ph>, i: int, k: int, careful: bool)
    requires
        0 < i < v.len(),
        0 <= k < cut_places(v, i, careful),
    ensures
        ({
            let c = cut_range(v, i, careful).0 + k * SECOND;
            v[i - 1].start + margin(v[i - 1], careful) <= c < v[i].end - margin(v[i], careful) && v[i].start - SNAP_WINDOW <= c < v[i].start + SNAP_WINDOW
        }),
{
}

/// Whether no stretch is too short.
pub fn are_long(v: &Vec<Ph>) -> (r: bool)
    requires
        bounded(v@),
    ensures
        r == all_long(v@),
{
    let mut i: usize = 0;
    while i < v.len()
        invariant
            i <= v.len(),
            bounded(v@),
            forall|k: int| 0 <= k < i ==> !too_short(#[trigger] v@[k]),
        decreases v.len() - i,
    {
        assert(-CLOCK_LIMIT - HOP <= v@[i as int].start <= CLOCK_LIMIT + HOP);
        if v[i].end - v[i].start < least_of(v[i].kind) {
            assert(too_short(v@[i as int]));
            return false;
        }
        i = i + 1;
    }
    true
}

/// Stretches while their cuts are moved: first freely; where that leaves one
/// that is too short, once more from the start and with care.
#[derive(Debug)]
pub struct Cutting {
    pub first: Vec<Ph>,
    pub now: Vec<Ph>,
    /// The stretch whose cut is next.
    pub at: usize,
    pub careful: bool,
}

impl Cutting {
    /// Whether the stretches cover what they did at first; with care none is too
    /// short if none was, and without it the work ends only if none is.
    pub open spec fn wf(self) -> bool {
        &&& bounded(self.first@)
        &&& bounded(self.now@)
        &&& self.now@.len() == self.first@.len()
        &&& 0 < self.at <= self.now@.len()
        &&& self.now@[0].start == self.first@[0].start
        &&& self.now@.last().end == self.first@.last().end
        &&& tiled(self.first@) ==> tiled(self.now@)
        &&& self.careful && tiled(self.first@) && all_long(self.first@) ==> all_long(self.now@)
        &&& !self.careful && 1 < self.at && self.at == self.now@.len() ==> all_long(self.now@)
    }

    /// Cuts that are still to be moved, at most.
    pub open spec fn cuts_left(self) -> int {
        self.now@.len() - self.at + (if self.careful {
            0
        } else {
            self.now@.len() as int
        })
    }

    /// Begins with the first cut.
    pub fn start(v: Vec<Ph>) -> (r: Cutting)
        requires
            bounded(v@),
            v.len() > 0,
        ensures
            r.wf(),
            r.first@ == v@,
            r.now@ == v@,
            r.at == 1,
            !r.careful,
    {
        let mut now: Vec<Ph> = Vec::new();
        let mut i: usize = 0;
        while i < v.len()
            invariant
                i <= v.len(),
                now@ == v@.take(i as int),
            decreases v.len() - i,
        {
            now.push(v[i]);
            i = i + 1;
            assert(now@ =~= v@.take(i as int));
        }
        assert(now@ =~= v@);
        Cutting { first: v, now, at: 1, careful: false }
    }

    /// The first of the places for the cut that is next, and how many there are,
    /// a second apart; nothing once all cuts are moved.
    pub fn window(&self) -> (r: Option<(i64, usize)>)
        requires
            self.wf(),
        ensures
            match r {
                Some((lo, n)) => {
                    &&& self.at < self.now.len()
                    &&& lo == cut_range(self.now@, self.at as int, self.careful).0
                    &&& n == cut_places(self.now@, self.at as int, self.careful)
                    &&& n <= 60
                },
                None => self.at == self.now.len(),
            },
    {
        if self.at < self.now.len() {
            Some(cut_window(&self.now, self.at, self.careful))
        } else {
            None
        }
    }

    /// Moves the cut that is next. `loud` says how loud each of its places is.
    pub fn take(&mut self, loud: &Vec<i64>)
        requires
            old(self).wf(),
            old(self).at < old(self).now.len(),
            loud.len() == cut_places(old(self).now@, old(self).at as int, old(self).careful),
        ensures
            final(self).wf(),
            final(self).cuts_left() < old(self).cuts_left(),
            final(self).first@ == old(self).first@,
            ({
                let w = cut_moved(old(self).now@, old(self).at as int, loud@, old(self).careful);
                if !old(self).careful && old(self).at + 1 == w.len() && !all_long(w) {
                    &&& final(self).now@ == old(self).first@
                    &&& final(self).at == 1
                    &&& final(self).careful
                } else {
                    &&& final(self).now@ == w
                    &&& final(self).at == old(self).at + 1
                    &&& final(self).careful == old(self).careful
                }
            }),
    {
        move_cut(&mut self.now, self.at, loud, self.careful);
        self.at = self.at + 1;
        if !self.careful && self.at == self.now.len() && !are_long(&self.now) {
            let mut i: usize = 0;
            let n: usize = self.first.len();
            while i < n
                invariant
                    i <= n == self.first.len() == self.now.len(),
                    self.first@ == old(self).first@,
                    forall|k: int| 0 <= k < i ==> #[trigger] self.now@[k] == self.first@[k],
                decreases n - i,
            {
                let p = self.first[i];
                self.now.set(i, p);
                i = i + 1;
            }
            assert(self.now@ =~= self.first@);
            self.at = 1;
            self.careful = true;
        }
    }
}

// ------------------------------------------------------------------ what holds of all stretches

/// Whether each stretch ends where the next one begins.
pub open spec fn tiled(v: Seq<Ph>) -> bool {
    forall|i: int, j: int| #![trigger v[i], v[j]] 0 <= i < j < v.len() && j == i + 1 ==> v[i].end == v[j].start
}

/// Whether windows follow each other without a break.
pub open spec fn even(f: Seq<Frame>) -> bool {
    forall|i: int, j: int| #![trigger f[i], f[j]] 0 <= i < j < f.len() && j == i + 1 ==> f[i].t + HOP == f[j].t
}

/// Adding a stretch that begins where the last one ends keeps the tiling.
proof fn lemma_extended_tiled(v: Seq<Ph>, p: Ph)
    requires
        tiled(v),
        v.len() > 0 ==> v.last().end == p.start,
    ensures
        tiled(extended(v, p)),
        extended(v, p).len() > 0,
        extended(v, p).last().end == p.end,
{
    let w = extended(v, p);
    assert forall|i: int, j: int| #![trigger w[i], w[j]] 0 <= i < j < w.len() && j == i + 1 implies w[i].end == w[j].start by {
        if i + 1 < v.len() {
            assert(w[i] == v[i]);
            assert(v[i].end == v[i + 1].start);
        } else {
            assert(v[i] == v.last());
        }
    }
}

/// The stretches of windows without a break tile.
proof fn lemma_stretches_tiled(f: Seq<Frame>, n: int)
    requires
        even(f),
        frames_bounded(f),
        0 <= n <= f.len(),
    ensures
        tiled(stretches(f, n)),
        n > 0 ==> stretches(f, n).len() > 0 && stretches(f, n).last().end == f[n - 1].t + HOP,
    decreases n,
{
    if n > 0 {
        lemma_stretches_tiled(f, n - 1);
        assert(-CLOCK_LIMIT <= f[n - 1].t <= CLOCK_LIMIT);
        if n > 1 {
            assert(f[n - 2].t + HOP == f[n - 2 + 1].t);
        }
        lemma_extended_tiled(stretches(f, n - 1), Ph { kind: kind_at(f, n - 1), start: f[n - 1].t, end: (f[n - 1].t + HOP) as i64 });
    }
}

/// Joining keeps the tiling.
proof fn lemma_rejoined_tiled(v: Seq<Ph>, n: int)
    requires
        tiled(v),
        0 <= n <= v.len(),
    ensures
        tiled(rejoined(v, n)),
        n > 0 ==> rejoined(v, n).len() > 0 && rejoined(v, n).last().end == v[n - 1].end,
    decreases n,
{
    if n > 0 {
        lemma_rejoined_tiled(v, n - 1);
        if n > 1 {
            assert(v[n - 2].end == v[n - 2 + 1].start);
        }
        lemma_extended_tiled(rejoined(v, n - 1), v[n - 1]);
    }
}

/// Merging keeps the tiling.
proof fn lemma_merged_tiled(v: Seq<Ph>)
    requires
        tiled(v),
    ensures
        tiled(merged(v)),
    decreases v.len(),
{
    if v.len() > 1 {
        lemma_shortest(v, v.len() as int);
        match shortest(v, v.len() as int) {
            None => {},
            Some(i) => {
                let w = v.update(i, Ph { kind: v[longest(v, i)].kind, ..v[i] });
                assert forall|k: int, j: int| #![trigger w[k], w[j]] 0 <= k < j < w.len() && j == k + 1 implies w[k].end == w[j].start by {
                    assert(v[k].end == v[k + 1].start);
                }
                lemma_rejoined_tiled(w, w.len() as int);
                lemma_absorbed(v, i);
                lemma_merged_tiled(absorbed(v, i));
            },
        }
    }
}

/// A round of weighing and merging keeps the tiling.
proof fn lemma_reviewed_tiled(f: Seq<Frame>, v: Seq<Ph>)
    requires
        tiled(v),
        v.len() > 0,
    ensures
        tiled(reviewed(f, v)),
        reviewed(f, v).len() > 0,
{
    let w = demoted(f, v);
    assert forall|k: int, j: int| #![trigger w[k], w[j]] 0 <= k < j < w.len() && j == k + 1 implies w[k].end == w[j].start by {
        assert(v[k].end == v[k + 1].start);
    }
    lemma_merged_tiled(w);
    merged_stretches_are_long(w);
}

/// The stretches cover the whole time without gap or overlap.
pub proof fn stretches_tile(f: Seq<Frame>, s: int, e: int)
    requires
        even(f),
        frames_bounded(f),
        -CLOCK_LIMIT <= s <= CLOCK_LIMIT,
        -CLOCK_LIMIT <= e <= CLOCK_LIMIT,
    ensures
        tiled(uncut(f, s, e)),
        uncut(f, s, e).len() > 0,
        uncut(f, s, e)[0].start == s,
        uncut(f, s, e).last().end == e,
{
    if f.len() > 0 {
        let v = stretches(f, f.len() as int);
        lemma_stretches_tiled(f, f.len() as int);
        lemma_merged_tiled(v);
        merged_stretches_are_long(v);
        lemma_reviewed_tiled(f, merged(v));
        lemma_reviewed_tiled(f, reviewed(f, merged(v)));
        lemma_reviewed_tiled(f, reviewed(f, reviewed(f, merged(v))));
        let w = settled(f);
        let u = drawn_out(w, s, e);
        assert forall|i: int, j: int| #![trigger u[i], u[j]] 0 <= i < j < u.len() && j == i + 1 implies u[i].end == u[j].start by {
            assert(w[i].end == w[i + 1].start);
        }
    }
}

/// Moving a cut keeps the tiling and what is covered.
pub proof fn moved_cuts_tile(v: Seq<Ph>, i: int, loud: Seq<i64>, careful: bool)
    requires
        tiled(v),
        0 < i < v.len(),
    ensures
        tiled(cut_moved(v, i, loud, careful)),
        cut_moved(v, i, loud, careful).len() == v.len(),
        cut_moved(v, i, loud, careful)[0].start == v[0].start,
        cut_moved(v, i, loud, careful).last().end == v.last().end,
{
    let w = cut_moved(v, i, loud, careful);
    assert(v[i - 1].end == v[i - 1 + 1].start);
    assert forall|k: int, j: int| #![trigger w[k], w[j]] 0 <= k < j < w.len() && j == k + 1 implies w[k].end == w[j].start by {
        assert(v[k].end == v[k + 1].start);
    }
}

/// The quietest place is one of those looked at.
proof fn lemma_quietest(loud: Seq<i64>, n: int)
    requires
        0 <= n <= loud.len(),
    ensures
        quietest(loud, n) matches Some(k) ==> 0 <= k < n,
    decreases n,
{
    if n > 0 {
        lemma_quietest(loud, n - 1);
    }
}

/// Moving a cut with care makes no stretch too short.
pub proof fn moved_cuts_leave_long_stretches(v: Seq<Ph>, i: int, loud: Seq<i64>)
    requires
        tiled(v),
        bounded(v),
        all_long(v),
        0 < i < v.len(),
        loud.len() == cut_places(v, i, true),
    ensures
        all_long(cut_moved(v, i, loud, true)),
{
    let w = cut_moved(v, i, loud, true);
    lemma_quietest(loud, loud.len() as int);
    assert(v[i - 1].end == v[i - 1 + 1].start);
    if let Some(k) = quietest(loud, loud.len() as int) {
        lemma_cut_inside(v, i, k, true);
        assert(-CLOCK_LIMIT - HOP <= v[i - 1].start && v[i].end <= CLOCK_LIMIT + HOP);
    }
    assert forall|k: int| 0 <= k < w.len() implies !too_short(#[trigger] w[k]) by {
        assert(!too_short(v[k]));
    }
}

/// Windows make stretches from the first window to the last.
proof fn lemma_stretches_reach(f: Seq<Frame>, n: int)
    requires
        frames_bounded(f),
        0 < n <= f.len(),
    ensures
        stretches(f, n).len() > 0,
        stretches(f, n)[0].start == f[0].t,
        stretches(f, n).last().end == f[n - 1].t + HOP,
    decreases n,
{
    assert(-CLOCK_LIMIT <= f[n - 1].t <= CLOCK_LIMIT);
    if n > 1 {
        lemma_stretches_reach(f, n - 1);
    } else {
        assert(stretches(f, 0) =~= Seq::empty());
    }
}

/// The stretches of the time from `s` to `e` are as long as their kinds ask for,
/// unless there is only one. The windows lie between `s` and `e`.
pub proof fn stretches_are_long(f: Seq<Frame>, s: int, e: int)
    requires
        frames_bounded(f),
        -CLOCK_LIMIT <= s <= CLOCK_LIMIT,
        -CLOCK_LIMIT <= e <= CLOCK_LIMIT,
        f.len() > 0 ==> s <= f[0].t && f.last().t + HOP <= e,
    ensures
        uncut(f, s, e).len() == 1 || all_long(uncut(f, s, e)),
{
    if f.len() > 0 {
        lemma_stretches_reach(f, f.len() as int);
        let v = merged(stretches(f, f.len() as int));
        merged_stretches_are_long(stretches(f, f.len() as int));
        merged_stretches_are_long(demoted(f, v));
        let v2 = reviewed(f, v);
        merged_stretches_are_long(demoted(f, v2));
        let v3 = reviewed(f, v2);
        merged_stretches_are_long(demoted(f, v3));
        let w = settled(f);
        let u = drawn_out(w, s, e);
        if w.len() > 1 {
            assert forall|k: int| 0 <= k < u.len() implies !too_short(#[trigger] u[k]) by {
                assert(!too_short(w[k]));
            }
        }
    }
}

/// The stretches after the first `n` cuts were moved, each by what is known of
/// its places.
pub open spec fn cuts_moved(v: Seq<Ph>, loud: Seq<Seq<i64>>, n: int, careful: bool) -> Seq<Ph>
    decreases n,
{
    if n <= 0 {
        v
    } else {
        cut_moved(cuts_moved(v, loud, n - 1, careful), n, loud[n - 1], careful)
    }
}

/// Whether something is known of every place of each of the first `n` cuts.
pub open spec fn places_known(v: Seq<Ph>, loud: Seq<Seq<i64>>, n: int, careful: bool) -> bool {
    forall|i: int| 0 < i <= n ==> (#[trigger] loud[i - 1]).len() == cut_places(cuts_moved(v, loud, i - 1, careful), i, careful)
}

/// Moving cuts keeps the tiling, the bounds and what is covered; with care it
/// makes no stretch too short.
proof fn lemma_cuts(v: Seq<Ph>, loud: Seq<Seq<i64>>, n: int, careful: bool)
    requires
        tiled(v),
        bounded(v),
        0 <= n < v.len(),
        places_known(v, loud, n, careful),
    ensures
        ({
            let r = cuts_moved(v, loud, n, careful);
            &&& tiled(r)
            &&& bounded(r)
            &&& r.len() == v.len()
            &&& r[0].start == v[0].start
            &&& r.last().end == v.last().end
            &&& careful && all_long(v) ==> all_long(r)
        }),
    decreases n,
{
    if n > 0 {
        lemma_cuts(v, loud, n - 1, careful);
        let u = cuts_moved(v, loud, n - 1, careful);
        let w = cut_moved(u, n, loud[n - 1], careful);
        moved_cuts_tile(u, n, loud[n - 1], careful);
        if careful && all_long(v) {
            moved_cuts_leave_long_stretches(u, n, loud[n - 1]);
        }
        lemma_quietest(loud[n - 1], loud[n - 1].len() as int);
        assert(-CLOCK_LIMIT - HOP <= u[n - 1].start && u[n].end <= CLOCK_LIMIT + HOP);
        if let Some(k) = quietest(loud[n - 1], loud[n - 1].len() as int) {
            lemma_cut_inside(u, n, k, careful);
        }
        assert forall|k: int| 0 <= k < w.len() implies -CLOCK_LIMIT - HOP <= (#[trigger] w[k]).start <= CLOCK_LIMIT + HOP && -CLOCK_LIMIT - HOP
            <= w[k].end <= CLOCK_LIMIT + HOP by {
            assert(-CLOCK_LIMIT - HOP <= u[k].start <= CLOCK_LIMIT + HOP);
        }
    }
}

/// The stretches with all cuts moved: freely, and where that leaves a stretch
/// that is too short, with care instead.
pub open spec fn cuts_settled(v: Seq<Ph>, free: Seq<Seq<i64>>, held: Seq<Seq<i64>>) -> Seq<Ph> {
    let w = cuts_moved(v, free, v.len() - 1, false);
    if v.len() == 1 || all_long(w) {
        w
    } else {
        cuts_moved(v, held, v.len() - 1, true)
    }
}

/// After all cuts are moved, the stretches still cover the whole time without
/// gap or overlap, and none is too short unless there is only one.
pub proof fn phases_tile_and_are_long(f: Seq<Frame>, s: int, e: int, free: Seq<Seq<i64>>, held: Seq<Seq<i64>>)
    requires
        even(f),
        frames_bounded(f),
        -CLOCK_LIMIT <= s <= CLOCK_LIMIT,
        -CLOCK_LIMIT <= e <= CLOCK_LIMIT,
        f.len() > 0 ==> s <= f[0].t && f.last().t + HOP <= e,
        places_known(uncut(f, s, e), free, uncut(f, s, e).len() - 1, false),
        places_known(uncut(f, s, e), held, uncut(f, s, e).len() - 1, true),
    ensures
        ({
            let r = cuts_settled(uncut(f, s, e), free, held);
            &&& tiled(r)
            &&& bounded(r)
            &&& r.len() == uncut(f, s, e).len()
            &&& r[0].start == s
            &&& r.last().end == e
            &&& r.len() == 1 || all_long(r)
        }),
{
    let u = uncut(f, s, e);
    stretches_tile(f, s, e);
    stretches_are_long(f, s, e);
    lemma_uncut_bounded(f, s, e);
    lemma_cuts(u, free, u.len() - 1, false);
    lemma_cuts(u, held, u.len() - 1, true);
}

/// The stretches lie within the bounds.
proof fn lemma_uncut_bounded(f: Seq<Frame>, s: int, e: int)
    requires
        frames_bounded(f),
        -CLOCK_LIMIT <= s <= CLOCK_LIMIT,
        -CLOCK_LIMIT <= e <= CLOCK_LIMIT,
    ensures
        bounded(uncut(f, s, e)),
{
    if f.len() > 0 {
        lemma_stretches(f, f.len() as int);
        merged_stretches_are_long(stretches(f, f.len() as int));
        let v = merged(stretches(f, f.len() as int));
        lemma_demoted_bounded(f, v);
        merged_stretches_are_long(demoted(f, v));
        let v2 = reviewed(f, v);
        lemma_demoted_bounded(f, v2);
        merged_stretches_are_long(demoted(f, v2));
        let v3 = reviewed(f, v2);
        lemma_demoted_bounded(f, v3);
        merged_stretches_are_long(demoted(f, v3));
        let w = settled(f);
        let u = uncut(f, s, e);
        assert forall|k: int| 0 <= k < u.len() implies -CLOCK_LIMIT - HOP <= (#[trigger] u[k]).start <= CLOCK_LIMIT + HOP && -CLOCK_LIMIT - HOP
            <= u[k].end <= CLOCK_LIMIT + HOP by {
            assert(-CLOCK_LIMIT - HOP <= w[k].start <= CLOCK_LIMIT + HOP);
        }
    }
}

/// Weighing keeps the bounds.
proof fn lemma_demoted_bounded(f: Seq<Frame>, v: Seq<Ph>)
    requires
        bounded(v),
    ensures
        bounded(demoted(f, v)),
{
    let w = demoted(f, v);
    assert forall|k: int| 0 <= k < w.len() implies -CLOCK_LIMIT - HOP <= (#[trigger] w[k]).start <= CLOCK_LIMIT + HOP && -CLOCK_LIMIT - HOP <= w[k].end
        <= CLOCK_LIMIT + HOP by {
        assert(-CLOCK_LIMIT - HOP <= v[k].start <= CLOCK_LIMIT + HOP);
    }
}

// ------------------------------------------------------------------ silence

/// A level in millionths of a decibel.
#[derive(Debug, Clone, Copy, PartialEq, Eq, Structural)]
pub struct Level {
    pub value: i64,
}

impl Ranked for Level {
    open spec fn below(self, other: Level) -> bool {
        self.value < other.value
    }

    fn is_below(&self, other: &Level) -> (r: bool) {
        self.value < other.value
    }
}

/// Twice the median of sorted levels.
pub open spec fn middle(s: Seq<Level>) -> int {
    let n = s.len() as int;
    if n == 0 {
        0
    } else if n % 2 == 1 {
        2 * s[n / 2].value
    } else {
        s[n / 2 - 1].value + s[n / 2].value
    }
}

/// Whether levels are of a size that levels have.
pub open spec fn levels_bounded(v: Seq<Level>) -> bool {
    forall|i: int| 0 <= i < v.len() ==> -1_000_000_000_000 <= (#[trigger] v[i]).value <= 1_000_000_000_000
}

/// Whether `m` is twice the median of levels.
pub open spec fn is_middle(v: Seq<Level>, m: int) -> bool {
    exists|s: Seq<Level>| #[trigger] sorted_from(v, s) && m == middle(s)
}

/// Twice the median.
pub fn double_median(v: &Vec<Level>) -> (r: i64)
    requires
        levels_bounded(v@),
    ensures
        is_middle(v@, r as int),
        -2_000_000_000_000 <= r <= 2_000_000_000_000,
{
    let mut s: Vec<Level> = Vec::new();
    let mut i: usize = 0;
    while i < v.len()
        invariant
            i <= v.len(),
            s@ == v@.take(i as int),
        decreases v.len() - i,
    {
        s.push(v[i]);
        i = i + 1;
    }
    assert(s@ =~= v@);
    sort(&mut s);
    let n: usize = s.len();
    proof {
        let p = choose|p: Seq<int>| #[trigger] crate::order::arranged(v@, s@, p) && (crate::order::orderly(v@) ==> crate::order::in_order(v@, p));
        assert forall|k: int| 0 <= k < n implies -1_000_000_000_000 <= (#[trigger] s@[k]).value <= 1_000_000_000_000 by {
            assert(s@[k] == v@[p[k]]);
        }
        assert(sorted_from(v@, s@));
    }
    if n == 0 {
        0
    } else if n % 2 == 1 {
        2 * s[n / 2].value
    } else {
        s[n / 2 - 1].value + s[n / 2].value
    }
}

/// Whether a window with these levels is active, for microphones with these
/// medians, each taken twice: not both are far below theirs.
pub open spec fn is_heard(x: int, y: int, ma: int, mb: int) -> bool {
    !(2 * x < ma - 2 * SILENCE && 2 * y < mb - 2 * SILENCE)
}

/// A window is active if either microphone is no more than 20 dB below its
/// median, and silent if both are further below; how loud the recorders are in
/// themselves does not matter.
pub proof fn windows_are_heard_by_either_microphone(x: int, y: int, ma: int, mb: int, up: int, down: int)
    ensures
        is_heard(x, y, ma, mb) <==> 2 * x + 40_000_000 >= ma || 2 * y + 40_000_000 >= mb,
        is_heard(x, y, ma, mb) == is_heard(y, x, mb, ma),
        is_heard(x + up, y + down, ma + 2 * up, mb + 2 * down) == is_heard(x, y, ma, mb),
{
}

/// Which windows are active: those in which not both microphones are far below
/// their median. Windows where both are quiet carry no evidence either way.
pub fn mark_active(a: &Vec<Level>, b: &Vec<Level>) -> (r: Vec<bool>)
    requires
        a.len() == b.len(),
        levels_bounded(a@),
        levels_bounded(b@),
    ensures
        r.len() == a.len(),
        exists|ma: int, mb: int|
            #[trigger] is_middle(a@, ma) && #[trigger] is_middle(b@, mb) && (forall|i: int|
                0 <= i < a.len() ==> #[trigger] r@[i] == is_heard(a@[i].value as int, b@[i].value as int, ma, mb) && r@[i] == !(2 * a@[i].value < ma - 2 * SILENCE && 2 * b@[i].value < mb
                    - 2 * SILENCE)),
{
    let ma: i64 = double_median(a);
    let mb: i64 = double_median(b);
    let mut r: Vec<bool> = Vec::new();
    let mut i: usize = 0;
    while i < a.len()
        invariant
            i <= a.len() == b.len(),
            levels_bounded(a@),
            levels_bounded(b@),
            -2_000_000_000_000 <= ma <= 2_000_000_000_000,
            -2_000_000_000_000 <= mb <= 2_000_000_000_000,
            r.len() == i,
            forall|k: int| 0 <= k < i ==> #[trigger] r@[k] == !(2 * a@[k].value < ma - 2 * SILENCE && 2 * b@[k].value < mb - 2 * SILENCE),
        decreases a.len() - i,
    {
        let quiet_a = 2 * a[i].value < ma - 2 * SILENCE;
        let quiet_b = 2 * b[i].value < mb - 2 * SILENCE;
        r.push(!(quiet_a && quiet_b));
        i = i + 1;
    }
    assert(is_middle(a@, ma as int) && is_middle(b@, mb as int));
    r
}

// ------------------------------------------------------------------ what windows say

/// One for a window that there is something to hear in, nothing for any other.
pub open spec fn heard(f: Seq<Frame>, j: int) -> int {
    if 0 <= j < f.len() && f[j].active {
        1
    } else {
        0
    }
}

/// One for a window with a shared event, nothing for any other.
pub open spec fn shared(f: Seq<Frame>, j: int) -> int {
    if 0 <= j < f.len() && f[j].active && f[j].hit {
        1
    } else {
        0
    }
}

/// The windows around a window are the two before it and the two behind it.
proof fn lemma_around(f: Seq<Frame>, i: int)
    requires
        0 <= i < f.len(),
    ensures
        actives(f, around_from(i), around_to(f.len() as int, i)) == heard(f, i - 2) + heard(f, i - 1) + heard(f, i) + heard(f, i + 1) + heard(f, i + 2),
        hits(f, around_from(i), around_to(f.len() as int, i)) == shared(f, i - 2) + shared(f, i - 1) + shared(f, i) + shared(f, i + 1) + shared(f, i + 2),
{
    reveal_with_fuel(actives, 7);
    reveal_with_fuel(hits, 7);
}

/// A window in which there is something to hear is together where at least three
/// fifths of the windows heard around it, two on each side, share an event, and
/// apart where at most one fifth does.
pub proof fn windows_follow_their_surroundings(f: Seq<Frame>, i: int)
    requires
        0 <= i < f.len(),
        f[i].active,
    ensures
        ({
            let a = heard(f, i - 2) + heard(f, i - 1) + heard(f, i) + heard(f, i + 1) + heard(f, i + 2);
            let h = shared(f, i - 2) + shared(f, i - 1) + shared(f, i) + shared(f, i + 1) + shared(f, i + 2);
            &&& 5 * h >= 3 * a ==> kind_at(f, i) == Kind::Together
            &&& 5 * h <= a ==> kind_at(f, i) == Kind::Apart
            &&& a < 5 * h < 3 * a && i > 0 ==> kind_at(f, i) == kind_at(f, i - 1)
        }),
{
    lemma_around(f, i);
    if i > 0 {
        lemma_no_verdict(f, i);
    }
}

/// A window without a verdict of its own has the kind of the one before it.
proof fn lemma_no_verdict(f: Seq<Frame>, i: int)
    requires
        0 < i < f.len(),
    ensures
        verdict(f, i) is None ==> kind_at(f, i) == kind_at(f, i - 1),
{
}

/// A window in which neither microphone has anything to hear says nothing: it has
/// the kind of the window before it.
pub proof fn silent_windows_take_the_kind_before(f: Seq<Frame>, i: int)
    requires
        0 < i < f.len(),
        !f[i].active,
    ensures
        kind_at(f, i) == kind_at(f, i - 1),
{
    lemma_no_verdict(f, i);
}

/// Silent windows at the start have the kind of the first one in which there is
/// something to hear and that is clear; and where nothing can be heard at all,
/// everything is together.
pub proof fn silence_at_the_start_takes_the_kind_behind(f: Seq<Frame>, i: int)
    requires
        0 <= i < f.len(),
        forall|k: int| 0 <= k <= i ==> !(#[trigger] f[k]).active,
    ensures
        i + 1 < f.len() ==> kind_at(f, i) == kind_at(f, i + 1),
        i + 1 == f.len() ==> kind_at(f, i) == Kind::Together,
    decreases i,
{
    lemma_none_before(f, i);
    if i + 1 < f.len() {
        assert(verdict_before(f, i + 1) == verdict(f, i + 1));
    }
}

/// Without anything to hear there is no verdict.
proof fn lemma_none_before(f: Seq<Frame>, i: int)
    requires
        -1 <= i < f.len(),
        forall|k: int| 0 <= k <= i ==> !(#[trigger] f[k]).active,
    ensures
        verdict_before(f, i) is None,
    decreases i + 1,
{
    if i >= 0 {
        assert(!f[i].active);
        lemma_none_before(f, i - 1);
    }
}

/// All verdicts are of one kind.
proof fn lemma_one_kind(f: Seq<Frame>, kind: Kind, i: int)
    requires
        forall|k: int| 0 <= k < f.len() && (#[trigger] f[k]).active ==> verdict(f, k) == Some(kind),
        -1 <= i <= f.len(),
    ensures
        i < f.len() ==> (verdict_before(f, i) matches Some(x) ==> x == kind),
        0 <= i ==> (verdict_after(f, i) matches Some(x) ==> x == kind),
    decreases 2 * f.len(),
{
    lemma_one_before(f, kind, i);
    lemma_one_after(f, kind, i);
}

/// All verdicts before a window are of one kind.
proof fn lemma_one_before(f: Seq<Frame>, kind: Kind, i: int)
    requires
        forall|k: int| 0 <= k < f.len() && (#[trigger] f[k]).active ==> verdict(f, k) == Some(kind),
        -1 <= i <= f.len(),
    ensures
        i < f.len() ==> (verdict_before(f, i) matches Some(x) ==> x == kind),
    decreases i + 1,
{
    if 0 <= i < f.len() {
        lemma_one_before(f, kind, i - 1);
        if f[i].active {
            assert(verdict(f, i) == Some(kind));
        }
    }
}

/// All verdicts behind a window are of one kind.
proof fn lemma_one_after(f: Seq<Frame>, kind: Kind, i: int)
    requires
        forall|k: int| 0 <= k < f.len() && (#[trigger] f[k]).active ==> verdict(f, k) == Some(kind),
        -1 <= i <= f.len(),
    ensures
        0 <= i ==> (verdict_after(f, i) matches Some(x) ==> x == kind),
    decreases f.len() - i,
{
    if 0 <= i < f.len() {
        lemma_one_after(f, kind, i + 1);
        if f[i].active {
            assert(verdict(f, i) == Some(kind));
        }
    }
}

/// Where something can be heard, there is a verdict.
proof fn lemma_some_verdict(f: Seq<Frame>, x: int, i: int)
    requires
        0 <= x < f.len(),
        verdict(f, x) is Some,
        0 <= i < f.len(),
    ensures
        verdict_before(f, i) is Some || verdict_after(f, i) is Some,
{
    if x <= i {
        lemma_verdict_before(f, x, i);
    } else {
        lemma_verdict_after(f, x, i);
    }
}

/// A verdict before a window is found.
proof fn lemma_verdict_before(f: Seq<Frame>, x: int, i: int)
    requires
        0 <= x <= i < f.len(),
        verdict(f, x) is Some,
    ensures
        verdict_before(f, i) is Some,
    decreases i,
{
    if x < i {
        lemma_verdict_before(f, x, i - 1);
    }
}

/// A verdict behind a window is found.
proof fn lemma_verdict_after(f: Seq<Frame>, x: int, i: int)
    requires
        0 <= i <= x < f.len(),
        verdict(f, x) is Some,
    ensures
        verdict_after(f, i) is Some,
    decreases f.len() - i,
{
    if i < x {
        lemma_verdict_after(f, x, i + 1);
    }
}

/// If all windows are of one kind there is one stretch.
proof fn lemma_one_stretch(f: Seq<Frame>, kind: Kind, n: int)
    requires
        0 < n <= f.len(),
        forall|k: int| 0 <= k < f.len() ==> #[trigger] kind_at(f, k) == kind,
    ensures
        stretches(f, n).len() == 1,
        stretches(f, n)[0].kind == kind,
    decreases n,
{
    assert(kind_at(f, n - 1) == kind);
    reveal_with_fuel(stretches, 2);
    if n > 1 {
        lemma_one_stretch(f, kind, n - 1);
    }
}

/// Hits are no fewer than windows that count where each of those is one, and
/// coherence is no less than each of them has.
proof fn lemma_strong(f: Seq<Frame>, s: int, e: int, n: int)
    requires
        0 <= n <= f.len(),
        countable_frames(f),
        forall|k: int| 0 <= k < f.len() && (#[trigger] f[k]).active ==> f[k].hit && (f[k].msc matches Some(x) ==> x >= 20_000_000),
    ensures
        hits_in(f, s, e, n) == count_in(f, s, e, n),
        count_in(f, s, e, n) <= n,
        msc_in(f, s, e, n).0 <= n,
        20_000_000 * msc_in(f, s, e, n).0 <= msc_in(f, s, e, n).1 <= 0xFFFF_FFFF * msc_in(f, s, e, n).0,
    decreases n,
{
    if n > 0 {
        lemma_strong(f, s, e, n - 1);
        if counts(f[n - 1], s, e) {
            assert(f[n - 1].active);
        }
    }
}

/// Two recorders that share every event they hear make one stereo stretch, from
/// the first to the last, however long nobody speaks in between.
pub proof fn shared_events_make_one_stretch(f: Seq<Frame>, s: int, e: int)
    requires
        countable_frames(f),
        frames_bounded(f),
        forall|k: int| 0 <= k < f.len() && (#[trigger] f[k]).active ==> f[k].hit && (f[k].msc matches Some(x) ==> x >= 20_000_000),
    ensures
        forall|i: int| 0 <= i < f.len() ==> #[trigger] kind_at(f, i) == Kind::Together,
        uncut(f, s, e) == seq![Ph { kind: Kind::Together, start: s as i64, end: e as i64 }],
{
    assert forall|k: int| 0 <= k < f.len() && (#[trigger] f[k]).active implies verdict(f, k) == Some(Kind::Together) by {
        lemma_around(f, k);
        assert forall|j: int| #[trigger] shared(f, j) == heard(f, j) by {
            if 0 <= j < f.len() && f[j].active {
                assert(f[j].hit);
            }
        }
    }
    assert forall|i: int| 0 <= i < f.len() implies #[trigger] kind_at(f, i) == Kind::Together by {
        lemma_one_kind(f, Kind::Together, i);
    }
    if f.len() > 0 {
        let n = f.len() as int;
        lemma_one_stretch(f, Kind::Together, n);
        let v = stretches(f, n);
        let (a, b) = (v[0].start as int, v[0].end as int);
        lemma_strong(f, a, b, n);
        let x = evidence(f, a, b);
        let m = msc_in(f, a, b, n);
        assert(m.1 <= u64::MAX) by (nonlinear_arith)
            requires
                m.1 <= 0xFFFF_FFFF * m.0,
                m.0 <= 0xFFFF_FFFF,
        ;
        assert(!is_weak(x));
        assert(demoted(f, v) =~= v);
        assert(uncut(f, s, e) =~= seq![Ph { kind: Kind::Together, start: s as i64, end: e as i64 }]);
    } else {
        assert(uncut(f, s, e) =~= seq![Ph { kind: Kind::Together, start: s as i64, end: e as i64 }]);
    }
}

/// Two recorders that hear something but share no event make one stretch apart.
pub proof fn nothing_shared_makes_one_stretch_apart(f: Seq<Frame>, s: int, e: int, x: int)
    requires
        0 <= x < f.len(),
        f[x].active,
        forall|k: int| 0 <= k < f.len() && (#[trigger] f[k]).active ==> !f[k].hit,
    ensures
        forall|i: int| 0 <= i < f.len() ==> #[trigger] kind_at(f, i) == Kind::Apart,
        uncut(f, s, e) == seq![Ph { kind: Kind::Apart, start: s as i64, end: e as i64 }],
{
    assert forall|k: int| 0 <= k < f.len() && (#[trigger] f[k]).active implies verdict(f, k) == Some(Kind::Apart) by {
        lemma_around(f, k);
        assert forall|j: int| #[trigger] shared(f, j) == 0 by {
            if 0 <= j < f.len() && f[j].active {
                assert(!f[j].hit);
            }
        }
        assert(heard(f, k) == 1);
    }
    assert forall|i: int| 0 <= i < f.len() implies #[trigger] kind_at(f, i) == Kind::Apart by {
        lemma_one_kind(f, Kind::Apart, i);
        lemma_some_verdict(f, x, i);
    }
    let n = f.len() as int;
    lemma_one_stretch(f, Kind::Apart, n);
    let v = stretches(f, n);
    assert(demoted(f, v) =~= v);
    assert(uncut(f, s, e) =~= seq![Ph { kind: Kind::Apart, start: s as i64, end: e as i64 }]);
}

// ------------------------------------------------------------------ what stretches keep

/// Whether one of the stretches covers a time, and is of a kind.
pub open spec fn covers(v: Seq<Ph>, start: int, end: int, kind: Kind) -> bool {
    exists|m: int| 0 <= m < v.len() && (#[trigger] v[m]).start <= start && end <= v[m].end && v[m].kind == kind
}

/// Whether stretches come one after the other.
pub open spec fn climbing(v: Seq<Ph>) -> bool {
    forall|i: int, j: int| #![trigger v[i], v[j]] 0 <= i <= j < v.len() ==> v[i].start <= v[j].start && v[i].end <= v[j].end
}

/// One more stretch leaves those before it covered, and is covered itself.
proof fn lemma_extended_covers(v: Seq<Ph>, p: Ph)
    requires
        climbing(v),
        v.len() > 0 ==> v.last().start <= p.start && v.last().end <= p.end,
    ensures
        climbing(extended(v, p)),
        extended(v, p).len() > 0,
        extended(v, p).last().start <= p.start,
        extended(v, p).last().end == p.end,
        covers(extended(v, p), p.start as int, p.end as int, p.kind),
        forall|s: int, e: int, k: Kind| #[trigger] covers(v, s, e, k) ==> covers(extended(v, p), s, e, k),
{
    let w = extended(v, p);
    assert(w[w.len() - 1].end == p.end);
    assert forall|i: int, j: int| #![trigger w[i], w[j]] 0 <= i <= j < w.len() implies w[i].start <= w[j].start && w[i].end <= w[j].end by {
        if v.len() > 0 {
            if i < v.len() {
                assert(v[i].start <= v[v.len() - 1].start && v[i].end <= v[v.len() - 1].end);
            }
            if j < v.len() {
                assert(v[i].start <= v[j].start && v[i].end <= v[j].end);
            }
        }
    }
    assert forall|s: int, e: int, k: Kind| #[trigger] covers(v, s, e, k) implies covers(w, s, e, k) by {
        let m = choose|m: int| 0 <= m < v.len() && (#[trigger] v[m]).start <= s && e <= v[m].end && v[m].kind == k;
        assert(w[m].start <= s && e <= w[m].end && w[m].kind == k);
    }
}

/// Joining leaves every stretch covered.
proof fn lemma_rejoined_covers(v: Seq<Ph>, n: int)
    requires
        climbing(v),
        0 <= n <= v.len(),
    ensures
        climbing(rejoined(v, n)),
        n > 0 ==> rejoined(v, n).len() > 0 && rejoined(v, n).last().start <= v[n - 1].start && rejoined(v, n).last().end == v[n - 1].end,
        forall|k: int| 0 <= k < n ==> covers(rejoined(v, n), (#[trigger] v[k]).start as int, v[k].end as int, v[k].kind),
    decreases n,
{
    if n > 0 {
        lemma_rejoined_covers(v, n - 1);
        if n > 1 {
            assert(v[n - 2].start <= v[n - 1].start && v[n - 2].end <= v[n - 1].end);
        }
        lemma_extended_covers(rejoined(v, n - 1), v[n - 1]);
        assert forall|k: int| 0 <= k < n implies covers(rejoined(v, n), (#[trigger] v[k]).start as int, v[k].end as int, v[k].kind) by {
            if k < n - 1 {
                assert(covers(rejoined(v, n - 1), v[k].start as int, v[k].end as int, v[k].kind));
            }
        }
    }
}

/// The window of every time is in a stretch of its kind, and neighbouring
/// stretches are of different kinds: a stretch goes as far as its kind does.
pub proof fn stretches_go_as_far_as_their_kind(f: Seq<Frame>, n: int)
    requires
        even(f),
        frames_bounded(f),
        0 <= n <= f.len(),
    ensures
        climbing(stretches(f, n)),
        forall|k: int| 0 <= k < n ==> covers(stretches(f, n), (#[trigger] f[k]).t as int, f[k].t + 10_000_000_000, kind_at(f, k)),
        forall|m: int, q: int|
            #![trigger stretches(f, n)[m], stretches(f, n)[q]]
            0 <= m < q < stretches(f, n).len() && q == m + 1 ==> stretches(f, n)[m].kind != stretches(f, n)[q].kind,
        n > 0 ==> stretches(f, n).len() > 0 && stretches(f, n).last().start <= f[n - 1].t && stretches(f, n).last().end == f[n - 1].t + 10_000_000_000,
    decreases n,
{
    if n > 0 {
        stretches_go_as_far_as_their_kind(f, n - 1);
        let a = stretches(f, n - 1);
        let b = stretches(f, n);
        let p = Ph { kind: kind_at(f, n - 1), start: f[n - 1].t, end: (f[n - 1].t + HOP) as i64 };
        assert(-CLOCK_LIMIT <= f[n - 1].t <= CLOCK_LIMIT);
        if n > 1 {
            assert(f[n - 2].t + HOP == f[n - 2 + 1].t);
        }
        lemma_extended_covers(a, p);
        assert forall|k: int| 0 <= k < n implies covers(b, (#[trigger] f[k]).t as int, f[k].t + 10_000_000_000, kind_at(f, k)) by {
            if k < n - 1 {
                assert(covers(a, f[k].t as int, f[k].t + 10_000_000_000, kind_at(f, k)));
            }
        }
        assert forall|m: int, q: int| #![trigger b[m], b[q]] 0 <= m < q < b.len() && q == m + 1 implies b[m].kind != b[q].kind by {
            if q < a.len() {
                assert(a[m].kind != a[q].kind);
                assert(b[q].kind == a[q].kind);
            }
        }
    }
}

/// How long a stretch must be: three minutes together, two minutes apart.
pub open spec fn lasts(p: Ph) -> bool {
    p.end - p.start >= if p.kind == Kind::Together {
        180_000_000_000int
    } else {
        120_000_000_000int
    }
}

/// A stretch that is long enough is never swallowed: all of its time stays of its
/// kind, whatever short stretches are around it.
pub proof fn long_stretches_stay(v: Seq<Ph>, k: int)
    requires
        climbing(v),
        0 <= k < v.len(),
        lasts(v[k]),
    ensures
        covers(merged(v), v[k].start as int, v[k].end as int, v[k].kind),
    decreases v.len(),
{
    if v.len() > 1 {
        lemma_shortest(v, v.len() as int);
        match shortest(v, v.len() as int) {
            None => {
                assert(merged(v)[k] == v[k]);
            },
            Some(i) => {
                let w = v.update(i, Ph { kind: v[longest(v, i)].kind, ..v[i] });
                lemma_updated_climbs(v, i, v[longest(v, i)].kind);
                lemma_rejoined_covers(w, w.len() as int);
                lemma_absorbed(v, i);
                assert(w[k] == v[k]);
                let r = absorbed(v, i);
                let m = choose|m: int| 0 <= m < r.len() && (#[trigger] r[m]).start <= v[k].start && v[k].end <= r[m].end && r[m].kind == v[k].kind;
                long_stretches_stay(r, m);
                let u = choose|u: int| 0 <= u < merged(r).len() && (#[trigger] merged(r)[u]).start <= r[m].start && r[m].end <= merged(r)[u].end && merged(r)[u].kind
                    == r[m].kind;
                assert(merged(v)[u].start <= v[k].start && v[k].end <= merged(v)[u].end);
            },
        }
    } else {
        assert(merged(v)[k] == v[k]);
    }
}

/// Another kind leaves the times as they are.
proof fn lemma_updated_climbs(v: Seq<Ph>, i: int, kind: Kind)
    requires
        climbing(v),
        0 <= i < v.len(),
    ensures
        climbing(v.update(i, Ph { kind, ..v[i] })),
{
    let w = v.update(i, Ph { kind, ..v[i] });
    assert forall|a: int, b: int| #![trigger w[a], w[b]] 0 <= a <= b < w.len() implies w[a].start <= w[b].start && w[a].end <= w[b].end by {
        assert(v[a].start <= v[b].start && v[a].end <= v[b].end);
    }
}

/// The shortest of the stretches that are too short goes to its longer neighbour:
/// where that one is long enough, both become one stretch of its kind.
pub proof fn short_stretches_join_their_longer_neighbour(v: Seq<Ph>, i: int, j: int)
    requires
        climbing(v),
        0 <= i < v.len(),
        0 <= j < v.len(),
        j == i - 1 || j == i + 1,
        !lasts(v[i]),
        lasts(v[j]),
        forall|k: int| 0 <= k < v.len() && k != i && !lasts(#[trigger] v[k]) ==> v[i].end - v[i].start < v[k].end - v[k].start,
        j == i - 1 && i + 1 < v.len() ==> v[i + 1].end - v[i + 1].start <= v[j].end - v[j].start,
        j == i + 1 && i > 0 ==> v[i - 1].end - v[i - 1].start < v[j].end - v[j].start,
    ensures
        covers(merged(v), v[i].start as int, v[i].end as int, v[j].kind),
        covers(merged(v), v[j].start as int, v[j].end as int, v[j].kind),
{
    lemma_shortest(v, v.len() as int);
    let s = shortest(v, v.len() as int);
    assert(too_short(v[i]));
    assert(s is Some);
    let x = s->0;
    assert(too_short(v[x]) && length(v[x]) <= length(v[i]));
    assert(x == i) by {
        if x != i {
            assert(!lasts(v[x]));
        }
    }
    assert(longest(v, i) == j);
    let w = v.update(i, Ph { kind: v[j].kind, ..v[i] });
    lemma_updated_climbs(v, i, v[j].kind);
    lemma_absorbed(v, i);
    let r = absorbed(v, i);
    let (lo, hi) = if j < i {
        (j, i)
    } else {
        (i, j)
    };
    lemma_joined_pair(w, hi, w.len() as int);
    let m = choose|m: int| 0 <= m < r.len() && (#[trigger] r[m]).start <= w[lo].start && w[hi].end <= r[m].end && r[m].kind == w[hi].kind;
    assert(v[lo].start <= v[hi].start && v[lo].end <= v[hi].end);
    lemma_rejoined_covers(w, w.len() as int);
    assert(lasts(r[m]));
    long_stretches_stay(r, m);
    let u = choose|u: int| 0 <= u < merged(r).len() && (#[trigger] merged(r)[u]).start <= r[m].start && r[m].end <= merged(r)[u].end && merged(r)[u].kind == r[m].kind;
    assert(merged(v)[u].start <= v[i].start && v[i].end <= merged(v)[u].end);
    assert(merged(v)[u].start <= v[j].start && v[j].end <= merged(v)[u].end);
}

/// Two neighbours of one kind are covered by one stretch.
proof fn lemma_joined_pair(v: Seq<Ph>, k: int, n: int)
    requires
        climbing(v),
        0 < k < n <= v.len(),
        v[k - 1].kind == v[k].kind,
    ensures
        covers(rejoined(v, n), v[k - 1].start as int, v[k].end as int, v[k].kind),
    decreases n,
{
    lemma_rejoined_covers(v, n - 1);
    if n > 1 {
        assert(v[n - 2].start <= v[n - 1].start && v[n - 2].end <= v[n - 1].end);
    }
    lemma_extended_covers(rejoined(v, n - 1), v[n - 1]);
    if n == k + 1 {
        lemma_rejoined(v, k);
        let a = rejoined(v, k);
        let b = rejoined(v, n);
        assert(a.last().start <= v[k - 1].start);
        assert(b[b.len() - 1].start == a.last().start);
    } else {
        lemma_joined_pair(v, k, n - 1);
    }
}

/// Stretches that are all long enough stay as they are.
pub proof fn long_stretches_are_settled(v: Seq<Ph>)
    requires
        forall|k: int| 0 <= k < v.len() ==> lasts(#[trigger] v[k]),
    ensures
        merged(v) == v,
{
    lemma_shortest(v, v.len() as int);
    if let Some(i) = shortest(v, v.len() as int) {
        assert(lasts(v[i]));
    }
}

/// After all, stretches together last three minutes at least and stretches apart
/// two, unless there is only one. The windows lie between `s` and `e`.
pub proof fn stretches_last(f: Seq<Frame>, s: int, e: int, k: int)
    requires
        frames_bounded(f),
        -CLOCK_LIMIT <= s <= CLOCK_LIMIT,
        -CLOCK_LIMIT <= e <= CLOCK_LIMIT,
        f.len() > 0 ==> s <= f[0].t && f.last().t + HOP <= e,
        0 <= k < uncut(f, s, e).len(),
    ensures
        uncut(f, s, e).len() == 1 || lasts(uncut(f, s, e)[k]),
{
    stretches_are_long(f, s, e);
    if uncut(f, s, e).len() != 1 {
        assert(!too_short(uncut(f, s, e)[k]));
    }
}

// ------------------------------------------------------------------ what evidence is

/// One more window adds to the evidence on a time what it says: nothing where
/// there is nothing to hear or it begins outside; else it counts, as a hit if it
/// is one, with its coherence if that was measured.
pub proof fn windows_add_to_the_evidence(f: Seq<Frame>, x: Frame, s: int, e: int)
    requires
        f.len() < 0xFFFF_FFFF,
    ensures
        ({
            let a = evidence(f, s, e);
            let b = evidence(f.push(x), s, e);
            let inside = x.active && s <= x.t && x.t < e;
            &&& b.count == a.count + if inside { 1int } else { 0int }
            &&& b.hits == a.hits + if inside && x.hit { 1int } else { 0int }
            &&& b.measured == a.measured + if inside && x.msc is Some { 1int } else { 0int }
            &&& b.coherence == a.coherence + if inside && x.msc is Some { x.msc->0 as int } else { 0int }
        }),
        evidence(Seq::empty(), s, e) == (Evidence { count: 0, hits: 0, measured: 0, coherence: 0 }),
{
    let n = f.len() as int;
    let g = f.push(x);
    lemma_same_evidence(f, g, s, e, n);
    lemma_evidence_bounds(f, s, e, n);
    lemma_evidence_bounds(g, s, e, n + 1);
    let m = msc_in(g, s, e, n + 1);
    assert(m.1 <= u64::MAX) by (nonlinear_arith)
        requires
            m.1 <= 0xFFFF_FFFF * m.0,
            m.0 <= 0xFFFF_FFFF,
    ;
    let m = msc_in(f, s, e, n);
    assert(m.1 <= u64::MAX) by (nonlinear_arith)
        requires
            m.1 <= 0xFFFF_FFFF * m.0,
            m.0 <= 0xFFFF_FFFF,
    ;
}

/// Windows behind the first `n` do not matter for those.
proof fn lemma_same_evidence(f: Seq<Frame>, g: Seq<Frame>, s: int, e: int, n: int)
    requires
        0 <= n <= f.len(),
        n <= g.len(),
        forall|k: int| 0 <= k < n ==> #[trigger] f[k] == g[k],
    ensures
        count_in(f, s, e, n) == count_in(g, s, e, n),
        hits_in(f, s, e, n) == hits_in(g, s, e, n),
        msc_in(f, s, e, n) == msc_in(g, s, e, n),
    decreases n,
{
    if n > 0 {
        lemma_same_evidence(f, g, s, e, n - 1);
        assert(f[n - 1] == g[n - 1]);
    }
}

/// Evidence is no more than there are windows.
proof fn lemma_evidence_bounds(f: Seq<Frame>, s: int, e: int, n: int)
    requires
        0 <= n <= f.len(),
    ensures
        hits_in(f, s, e, n) <= count_in(f, s, e, n) <= n,
        msc_in(f, s, e, n).0 <= n,
        msc_in(f, s, e, n).1 <= 0xFFFF_FFFF * msc_in(f, s, e, n).0,
    decreases n,
{
    if n > 0 {
        lemma_evidence_bounds(f, s, e, n - 1);
    }
}

/// A stretch together stays so exactly if at least two fifths of its windows are
/// hits and their mean coherence, where it was measured, is at least 0.02. A
/// stretch apart stays apart, and no stretch changes its time.
pub proof fn weak_stretches_fall_apart(f: Seq<Frame>, v: Seq<Ph>, i: int)
    requires
        0 <= i < v.len(),
    ensures
        demoted(f, v).len() == v.len(),
        demoted(f, v)[i].start == v[i].start,
        demoted(f, v)[i].end == v[i].end,
        demoted(f, v)[i].kind == Kind::Together <==> v[i].kind == Kind::Together && ({
            let x = evidence(f, v[i].start as int, v[i].end as int);
            5 * x.hits >= 2 * x.count && x.coherence >= 20_000_000 * x.measured
        }),
{
    let n = f.len() as int;
    lemma_evidence_bounds(f, v[i].start as int, v[i].end as int, n);
    let x = evidence(f, v[i].start as int, v[i].end as int);
    assert(x.measured == 0 ==> x.coherence >= 20_000_000 * x.measured);
    assert(x.count == 0 ==> 5 * x.hits >= 2 * x.count);
}

// ------------------------------------------------------------------ where cuts go

/// A cut may go anywhere within half a minute of where it is, as long as half a
/// minute of both stretches is left, or with care as much as they must last: to
/// every such place, in steps of a second from the earliest one, but not at all
/// where there are less than two seconds of room.
pub proof fn cuts_have_room(v: Seq<Ph>, i: int, careful: bool, c: int)
    requires
        0 < i < v.len(),
    ensures
        ({
            let least_of = |p: Ph|
                if !careful {
                    30_000_000_000int
                } else if p.kind == Kind::Together {
                    180_000_000_000int
                } else {
                    120_000_000_000int
                };
            let (lo, hi) = cut_range(v, i, careful);
            let n = cut_places(v, i, careful);
            &&& lo <= c <= hi <==> v[i].start - 30_000_000_000 <= c <= v[i].start + 30_000_000_000 && c - v[i - 1].start >= least_of(v[i - 1]) && v[i].end - c
                >= least_of(v[i])
            &&& hi - lo < 2_000_000_000 ==> n == 0
            &&& hi - lo >= 2_000_000_000 ==> lo + (n - 1) * 1_000_000_000 < hi <= lo + n * 1_000_000_000
        }),
{
}

/// A cut goes to the quietest of its places, to the first of several; both
/// stretches meet there, and nothing else changes. Where nothing was measured it
/// stays.
pub proof fn cuts_go_to_the_quietest_place(v: Seq<Ph>, i: int, loud: Seq<i64>, careful: bool)
    requires
        0 < i < v.len(),
        tiled(v),
        bounded(v),
        loud.len() == cut_places(v, i, careful),
    ensures
        ({
            let r = cut_moved(v, i, loud, careful);
            &&& r.len() == v.len()
            &&& forall|k: int| 0 <= k < r.len() ==> (#[trigger] r[k]).kind == v[k].kind && (k != i - 1 ==> r[k].end == v[k].end) && (k != i ==> r[k].start == v[k].start)
            &&& r[i - 1].end == r[i].start
            &&& (forall|k: int| 0 <= k < loud.len() ==> #[trigger] loud[k] == i64::MAX) ==> r[i].start == v[i].start
            &&& (exists|k: int| 0 <= k < loud.len() && #[trigger] loud[k] != i64::MAX) ==> exists|k: int|
                0 <= k < loud.len() && r[i].start == cut_range(v, i, careful).0 + k * 1_000_000_000 && (forall|j: int|
                    0 <= j < loud.len() ==> loud[k] <= #[trigger] loud[j]) && (forall|j: int| 0 <= j < k ==> loud[k] < #[trigger] loud[j]) && #[trigger] loud[k] == loud[k]
        }),
{
    let r = cut_moved(v, i, loud, careful);
    lemma_quietest_first(loud, loud.len() as int);
    assert(v[i - 1].end == v[i - 1 + 1].start);
    if let Some(k) = quietest(loud, loud.len() as int) {
        lemma_cut_inside(v, i, k, careful);
        assert(loud[k] == loud[k]);
    }
}

/// The quietest place is the first of the lowest.
proof fn lemma_quietest_first(loud: Seq<i64>, n: int)
    requires
        0 <= n <= loud.len(),
    ensures
        match quietest(loud, n) {
            Some(k) => 0 <= k < n && loud[k] < i64::MAX && (forall|j: int| 0 <= j < n ==> loud[k] <= #[trigger] loud[j]) && (forall|j: int|
                0 <= j < k ==> loud[k] < #[trigger] loud[j]),
            None => forall|j: int| 0 <= j < n ==> #[trigger] loud[j] == i64::MAX,
        },
    decreases n,
{
    if n > 0 {
        lemma_quietest_first(loud, n - 1);
    }
}

/// The median lies in the middle: as many levels lie below as above it, and
/// levels turned over have their median turned over.
pub proof fn median_is_the_middle(s: Seq<Level>, t: Seq<Level>)
    requires
        s.len() > 0,
        t.len() == s.len(),
        forall|i: int, j: int| #![trigger s[i], s[j]] 0 <= i <= j < s.len() ==> s[i].value <= s[j].value,
        forall|i: int| 0 <= i < s.len() ==> (#[trigger] t[i]).value == -s[s.len() - 1 - i].value,
    ensures
        2 * s[(s.len() as int - 1) / 2].value <= middle(s) <= 2 * s[s.len() as int / 2].value,
        middle(t) == -middle(s),
{
    let n = s.len() as int;
    assert(s[(n - 1) / 2].value <= s[n / 2].value);
    assert(t[n / 2].value == -s[n - 1 - n / 2].value);
    if n % 2 == 0 {
        assert(t[n / 2 - 1].value == -s[n - 1 - (n / 2 - 1)].value);
    }
}

/// Stretches after so many rounds, in each of which those together without enough
/// evidence fall apart and those too short are merged.
pub open spec fn rounds(f: Seq<Frame>, v: Seq<Ph>, n: nat) -> Seq<Ph>
    decreases n,
{
    if n == 0 {
        v
    } else {
        merged(demoted(f, rounds(f, v, (n - 1) as nat)))
    }
}

/// The stretches that windows make are merged and then go through three rounds;
/// where a round changes nothing, no further one would.
pub proof fn stretches_are_weighed_three_times(f: Seq<Frame>)
    ensures
        settled(f) == rounds(f, merged(stretches(f, f.len() as int)), 3),
        rounds(f, merged(stretches(f, f.len() as int)), 2) == rounds(f, merged(stretches(f, f.len() as int)), 3) ==> reviewed(f, settled(f)) == settled(f),
{
    reveal_with_fuel(rounds, 4);
}

/// Where cuts that are moved freely leave every stretch long enough, they are
/// taken; otherwise they are moved with care. A stretch that is the only one has
/// no cut.
pub proof fn care_is_taken_where_needed(v: Seq<Ph>, free: Seq<Seq<i64>>, held: Seq<Seq<i64>>)
    ensures
        (forall|k: int| 0 <= k < v.len() ==> lasts(#[trigger] cuts_moved(v, free, v.len() - 1, false)[k])) && cuts_moved(v, free, v.len() - 1, false).len() == v.len() ==> cuts_settled(v, free, held)
            == cuts_moved(v, free, v.len() - 1, false),
        v.len() > 1 && (exists|k: int| 0 <= k < cuts_moved(v, free, v.len() - 1, false).len() && !lasts(#[trigger] cuts_moved(v, free, v.len() - 1, false)[k])) ==> cuts_settled(
            v,
            free,
            held,
        ) == cuts_moved(v, held, v.len() - 1, true),
        v.len() == 1 ==> cuts_settled(v, free, held) == v,
{
    let w = cuts_moved(v, free, v.len() - 1, false);
    assert forall|k: int| 0 <= k < w.len() implies (too_short(#[trigger] w[k]) <==> !lasts(w[k])) by {}
    if v.len() == 1 {
        assert(w == v);
    }
}

} // verus!
