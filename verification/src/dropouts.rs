//! Puts stretches together that belong to one situation: a recorder that was
//! switched off for a while between two shared stretches, and time in which
//! only one recorder ran before, after or between them.

use vstd::prelude::*;

use crate::alignment::{a_time_is_monotone, b_time_is_monotone, clocks_agree, clocks_agree_back, clocks_run_alike, floor_div, lemma_a_bound, lemma_b_bound, seconds, to_seconds, REACH_LIMIT};
use crate::pairing::{max, min, time_of, timed};
use crate::plan::{countable, fit_pair, in_piece, lengths, opt_i64, piece_ok, piece_views, pieces_ok, plannable, rooted, silence_views, tied, total, within, worth, worths, Pair, Piece, PieceView, Silence, SilenceView, silences_ok, Span, MERGED_LIMIT, MIN_PIECE, MONO_LIMIT, START_BASE, STEREO_LIMIT};
use crate::sums::{lemma_sum_covers, lemma_sum_positive, lemma_sum_push, lemma_sum_remove, lemma_sum_update, sum};
use crate::text::same;
use crate::track::{lemma_round_bound, track_views, Track, TrackView};

verus! {

/// Ends this close together are one place.
pub const TOLERANCE: i64 = 50_000_000;

// ------------------------------------------------------------------ clocks

/// A time of track `from` on the clock of the other track of a pair.
pub open spec fn map_time(q: Pair, from: int, time: int) -> int {
    if from == q.a {
        q.map.b_time(time)
    } else {
        q.map.a_time(time)
    }
}

/// Where a stereo piece begins on the clock of track `x`, if the piece begins
/// with that track.
pub open spec fn start_on(p: Seq<Pair>, v: PieceView, x: int) -> Option<int> {
    if v.reference == x {
        Some(v.t0)
    } else if v.spans.len() > 0 && v.spans[0].other == x {
        Some(map_time(p[v.spans[0].pair as int], v.reference, v.t0))
    } else {
        None
    }
}

/// Where a stereo piece ends on the clock of track `x`, if the piece ends with
/// that track.
pub open spec fn end_on(p: Seq<Pair>, v: PieceView, x: int) -> Option<int> {
    if v.reference == x {
        Some(v.t1)
    } else if v.spans.len() > 0 && v.spans.last().other == x {
        Some(map_time(p[v.spans.last().pair as int], v.reference, v.t1))
    } else {
        None
    }
}

/// Whether all of a stereo piece can be told on the clock of track `x`.
pub open spec fn is_all_on(v: PieceView, x: int) -> bool {
    v.reference == x || (v.spans.len() == 1 && v.spans[0].other == x)
}

/// A piece on the clock of track `x`.
pub open spec fn rebased(p: Seq<Pair>, v: PieceView, x: int) -> PieceView {
    if v.reference == x {
        v
    } else {
        let s = v.spans[0];
        let q = p[s.pair as int];
        PieceView {
            reference: x,
            t0: map_time(q, v.reference, v.t0),
            t1: map_time(q, v.reference, v.t1),
            spans: seq![
                Span {
                    pair: s.pair,
                    other: v.reference as usize,
                    t0: map_time(q, v.reference, s.t0 as int) as i64,
                    t1: map_time(q, v.reference, s.t1 as int) as i64,
                },
            ],
            ..v
        }
    }
}

/// How far a time can lie on the other clock.
pub proof fn lemma_map_bound(q: Pair, from: int, time: int, limit: int)
    requires
        q.map.valid(),
        -limit <= time <= limit,
        0 <= limit,
    ensures
        -((limit + 40_000_000_000_000_000) * 10 / 9 + 1) <= map_time(q, from, time) <= (limit + 40_000_000_000_000_000) * 10 / 9 + 1,
{
    lemma_a_bound(q.map, time, limit);
    lemma_b_bound(q.map, time, limit);
}

/// A time of track `from` on the clock of the other track of a pair.
fn map_clock(q: &Pair, from: usize, time: i64) -> (r: i64)
    requires
        q.map.valid(),
        -REACH_LIMIT <= time <= REACH_LIMIT,
    ensures
        r == map_time(*q, from as int, time as int),
{
    if from == q.a {
        q.to_b(time)
    } else {
        q.to_a(time)
    }
}

/// Where a stereo piece begins or ends on the clock of track `x`, if the piece
/// begins or ends with that track.
fn time_on(tracks: &Vec<Track>, pairs: &Vec<Pair>, v: &Piece, x: usize, end: bool) -> (r: Option<i64>)
    requires
        plannable(track_views(tracks@), pairs@),
        piece_ok(track_views(tracks@), pairs@, v@),
        v.stereo,
    ensures
        ({
            let w = if end {
                end_on(pairs@, v@, x as int)
            } else {
                start_on(pairs@, v@, x as int)
            };
            match r {
                Some(a) => w == Some(a as int) && -2 * REACH_LIMIT <= a <= 2 * REACH_LIMIT,
                None => w is None,
            }
        }),
{
    let time: i64 = if end {
        v.t1
    } else {
        v.t0
    };
    assert(within(v@, MERGED_LIMIT as int));
    if v.reference == x {
        return Some(time);
    }
    let i: usize = if end {
        v.spans.len() - 1
    } else {
        0
    };
    let s = v.spans[i];
    assert(v@.spans[i as int] == s);
    if s.other != x {
        return None;
    }
    let q = &pairs[s.pair];
    assert(fit_pair(track_views(tracks@), pairs@[s.pair as int]));
    proof {
        lemma_map_bound(*q, v.reference as int, time as int, MERGED_LIMIT as int);
    }
    Some(map_clock(q, v.reference, time))
}

// ------------------------------------------------------------------ silences

/// Silences with one more; a recorder is listed once.
pub open spec fn with_silence(s: Seq<SilenceView>, label: Seq<char>, length: int, from: int) -> Seq<SilenceView>
    decreases s.len() - from,
{
    if from >= s.len() {
        s.push(SilenceView { label: label, length: length })
    } else if s[from].label == label {
        s.update(from, SilenceView { label: label, length: s[from].length + length })
    } else {
        with_silence(s, label, length, from + 1)
    }
}

/// Silences with the first `n` of others.
pub open spec fn with_silences(s: Seq<SilenceView>, more: Seq<SilenceView>, n: int) -> Seq<SilenceView>
    decreases n,
{
    if n <= 0 {
        s
    } else {
        with_silence(with_silences(s, more, n - 1), more[n - 1].label, more[n - 1].length, 0)
    }
}

/// One more silence adds its length.
proof fn lemma_with_silence(s: Seq<SilenceView>, label: Seq<char>, length: int, from: int)
    requires
        forall|i: int| 0 <= i < s.len() ==> 0 <= (#[trigger] s[i]).length,
        0 <= length,
        0 <= from,
    ensures
        forall|i: int| 0 <= i < with_silence(s, label, length, from).len() ==> 0 <= (#[trigger] with_silence(s, label, length, from)[i]).length,
        total(with_silence(s, label, length, from)) == total(s) + length,
    decreases s.len() - from,
{
    let r = with_silence(s, label, length, from);
    if from >= s.len() {
        assert(lengths(r) =~= lengths(s).push(length));
        lemma_sum_push(lengths(s), length);
    } else if s[from].label == label {
        assert(lengths(r) =~= lengths(s).update(from, s[from].length + length));
        lemma_sum_update(lengths(s), from, s[from].length + length);
    } else {
        lemma_with_silence(s, label, length, from + 1);
    }
}

/// More silences add their lengths.
proof fn lemma_with_silences(s: Seq<SilenceView>, more: Seq<SilenceView>, n: int)
    requires
        forall|i: int| 0 <= i < s.len() ==> 0 <= (#[trigger] s[i]).length,
        forall|i: int| 0 <= i < more.len() ==> 0 <= (#[trigger] more[i]).length,
        0 <= n <= more.len(),
    ensures
        forall|i: int| 0 <= i < with_silences(s, more, n).len() ==> 0 <= (#[trigger] with_silences(s, more, n)[i]).length,
        total(with_silences(s, more, n)) == total(s) + total(more.take(n)),
        0 <= total(more.take(n)) <= total(more),
    decreases n,
{
    lemma_total_grows(more, n);
    if n > 0 {
        lemma_with_silences(s, more, n - 1);
        lemma_with_silence(with_silences(s, more, n - 1), more[n - 1].label, more[n - 1].length, 0);
        assert(lengths(more.take(n)) =~= lengths(more.take(n - 1)).push(more[n - 1].length));
        lemma_sum_push(lengths(more.take(n - 1)), more[n - 1].length);
    } else {
        assert(lengths(more.take(0)).len() == 0);
    }
}

/// Some silences are no longer than all together.
pub proof fn lemma_total_grows(s: Seq<SilenceView>, n: int)
    requires
        forall|i: int| 0 <= i < s.len() ==> 0 <= (#[trigger] s[i]).length,
        0 <= n <= s.len(),
    ensures
        0 <= total(s.take(n)) <= total(s),
    decreases s.len() - n,
{
    if n < s.len() {
        lemma_total_grows(s, n + 1);
        assert(lengths(s.take(n + 1)) =~= lengths(s.take(n)).push(s[n].length));
        lemma_sum_push(lengths(s.take(n)), s[n].length);
    } else {
        assert(s.take(n) =~= s);
    }
    assert forall|i: int| 0 <= i < lengths(s.take(n)).len() implies 0 <= #[trigger] lengths(s.take(n))[i] by {
        assert(s[i].length >= 0);
    }
    lemma_sum_positive(lengths(s.take(n)));
}

/// Adds a silence.
fn add_silence(v: &mut Vec<Silence>, label: &str, length: i128)
    requires
        silences_ok(silence_views(old(v)@)),
        0 <= length,
        total(silence_views(old(v)@)) + length <= i128::MAX,
    ensures
        silence_views(final(v)@) == with_silence(silence_views(old(v)@), label@, length as int, 0),
        silences_ok(silence_views(final(v)@)),
        total(silence_views(final(v)@)) == total(silence_views(old(v)@)) + length,
{
    let ghost s = silence_views(v@);
    proof {
        lemma_with_silence(s, label@, length as int, 0);
    }
    let mut i: usize = 0;
    while i < v.len()
        invariant
            i <= v.len(),
            s == silence_views(v@),
            s == silence_views(old(v)@),
            silences_ok(s),
            0 <= length,
            total(s) + length <= i128::MAX,
            silences_ok(with_silence(s, label@, length as int, 0)),
            total(with_silence(s, label@, length as int, 0)) == total(s) + length,
            with_silence(s, label@, length as int, 0) == with_silence(s, label@, length as int, i as int),
        decreases v.len() - i,
    {
        assert(s[i as int] == v@[i as int]@);
        if same(v[i].label.as_str(), label) {
            proof {
                assert forall|k: int| 0 <= k < lengths(s).len() implies 0 <= #[trigger] lengths(s)[k] by {
                    assert(s[k].length >= 0);
                }
                lemma_sum_covers(lengths(s), i as int);
                assert(lengths(s)[i as int] == s[i as int].length);
            }
            let mut x = v.remove(i);
            x.length = x.length + length;
            v.insert(i, x);
            assert(silence_views(v@) =~= with_silence(s, label@, length as int, 0));
            return;
        }
        i = i + 1;
    }
    let x = Silence { label: label.to_string(), length };
    v.push(x);
    assert(silence_views(v@) =~= s.push(x@));
}

/// Adds silences.
fn add_silences(v: &mut Vec<Silence>, more: &Vec<Silence>)
    requires
        silences_ok(silence_views(old(v)@)),
        silences_ok(silence_views(more@)),
        total(silence_views(old(v)@)) + total(silence_views(more@)) <= i128::MAX,
    ensures
        silence_views(final(v)@) == with_silences(silence_views(old(v)@), silence_views(more@), more.len() as int),
        silences_ok(silence_views(final(v)@)),
        total(silence_views(final(v)@)) == total(silence_views(old(v)@)) + total(silence_views(more@)),
{
    let ghost s = silence_views(v@);
    let ghost m = silence_views(more@);
    let mut i: usize = 0;
    while i < more.len()
        invariant
            i <= more.len(),
            m == silence_views(more@),
            silences_ok(s),
            silences_ok(m),
            silences_ok(silence_views(v@)),
            silence_views(v@) == with_silences(s, m, i as int),
            total(s) + total(m) <= i128::MAX,
        decreases more.len() - i,
    {
        assert(m[i as int] == more@[i as int]@);
        proof {
            lemma_with_silences(s, m, i as int);
            lemma_with_silences(s, m, i + 1);
            lemma_with_silence(with_silences(s, m, i as int), m[i as int].label, m[i as int].length, 0);
        }
        add_silence(v, more[i].label.as_str(), more[i].length);
        i = i + 1;
    }
    proof {
        lemma_with_silences(s, m, i as int);
        assert(m.take(i as int) =~= m);
    }
}

/// The recorder of a stereo piece that track `x` is not of.
pub open spec fn partner(t: Seq<TrackView>, v: PieceView, x: int) -> Seq<char> {
    if t[v.left].label != t[x].label {
        t[v.left].label
    } else {
        match v.right {
            Some(r) => t[r].label,
            None => Seq::empty(),
        }
    }
}

/// The recorder of a stereo piece that track `x` is not of.
fn partner_label(tracks: &Vec<Track>, v: &Piece, x: usize) -> (r: String)
    requires
        x < tracks.len(),
        v.left < tracks.len(),
        v.right matches Some(i) ==> i < tracks.len(),
    ensures
        r@ == partner(track_views(tracks@), v@, x as int),
{
    let ghost t = track_views(tracks@);
    assert(t[x as int] == tracks@[x as int]@ && t[v.left as int] == tracks@[v.left as int]@);
    if !same(tracks[v.left].label.as_str(), tracks[x].label.as_str()) {
        tracks[v.left].label.clone()
    } else {
        match v.right {
            Some(i) => {
                assert(t[i as int] == tracks@[i as int]@);
                tracks[i].label.clone()
            },
            None => {
                let r = String::new();
                assert(r@ =~= partner(t, v@, x as int));
                r
            },
        }
    }
}

// ------------------------------------------------------------------ copies

/// A copy of silences.
fn copy_silences(v: &Vec<Silence>) -> (r: Vec<Silence>)
    ensures
        silence_views(r@) == silence_views(v@),
{
    let mut out: Vec<Silence> = Vec::new();
    let mut i: usize = 0;
    while i < v.len()
        invariant
            i <= v.len(),
            out.len() == i,
            forall|k: int| 0 <= k < i ==> (#[trigger] out@[k])@ == v@[k]@,
        decreases v.len() - i,
    {
        out.push(Silence { label: v[i].label.clone(), length: v[i].length });
        i = i + 1;
    }
    assert(silence_views(out@) =~= silence_views(v@));
    out
}

/// A copy of spans.
fn copy_spans(v: &Vec<Span>) -> (r: Vec<Span>)
    ensures
        r@ == v@,
{
    let mut out: Vec<Span> = Vec::new();
    let mut i: usize = 0;
    while i < v.len()
        invariant
            i <= v.len(),
            out@ == v@.take(i as int),
        decreases v.len() - i,
    {
        out.push(v[i]);
        i = i + 1;
    }
    assert(out@ =~= v@);
    out
}

impl Piece {
    /// A copy of the piece.
    pub fn copy(&self) -> (r: Piece)
        ensures
            r@ == self@,
    {
        Piece {
            stereo: self.stereo,
            alone: self.alone,
            left: self.left,
            right: self.right,
            pair: self.pair,
            reference: self.reference,
            t0: self.t0,
            t1: self.t1,
            spans: copy_spans(&self.spans),
            silent: copy_silences(&self.silent),
            hit_share: self.hit_share,
            msc: self.msc,
            start_secs: self.start_secs,
        }
    }
}

/// A piece on the clock of track `x`.
fn rebase(tracks: &Vec<Track>, pairs: &Vec<Pair>, v: &Piece, x: usize) -> (r: Piece)
    requires
        plannable(track_views(tracks@), pairs@),
        piece_ok(track_views(tracks@), pairs@, v@),
        v.stereo,
        is_all_on(v@, x as int),
        x < tracks.len(),
    ensures
        r@ == rebased(pairs@, v@, x as int),
        within(r@, MERGED_LIMIT as int),
{
    if v.reference == x {
        return v.copy();
    }
    let s = v.spans[0];
    assert(v@.spans[0] == s);
    assert(s.pair < pairs.len() && within(v@, STEREO_LIMIT as int));
    let q = &pairs[s.pair];
    assert(fit_pair(track_views(tracks@), pairs@[s.pair as int]));
    proof {
        lemma_map_bound(*q, v.reference as int, v.t0 as int, STEREO_LIMIT as int);
        lemma_map_bound(*q, v.reference as int, v.t1 as int, STEREO_LIMIT as int);
        lemma_map_bound(*q, v.reference as int, s.t0 as int, STEREO_LIMIT as int);
        lemma_map_bound(*q, v.reference as int, s.t1 as int, STEREO_LIMIT as int);
    }
    let mut spans: Vec<Span> = Vec::new();
    spans.push(Span { pair: s.pair, other: v.reference, t0: map_clock(q, v.reference, s.t0), t1: map_clock(q, v.reference, s.t1) });
    let mut r = v.copy();
    r.reference = x;
    r.t0 = map_clock(q, v.reference, v.t0);
    r.t1 = map_clock(q, v.reference, v.t1);
    r.spans = spans;
    assert(r@.spans =~= rebased(pairs@, v@, x as int).spans);
    r
}

// ------------------------------------------------------------------ recorders switched off

/// Whether two times are one place.
pub open spec fn meets(a: int, b: int) -> bool {
    -TOLERANCE <= a - b <= TOLERANCE
}

/// Whether a mono piece is time in which only its recorder ran.
pub open spec fn is_gap(v: PieceView) -> bool {
    !v.stereo && v.alone
}

/// Whether stereo piece `v` ends where gap `g` begins.
pub open spec fn ends_at(t: Seq<TrackView>, p: Seq<Pair>, v: PieceView, g: PieceView) -> bool {
    v.stereo && (end_on(p, v, g.reference) matches Some(e) && meets(min(e, t[g.reference].duration), g.t0))
}

/// Whether stereo piece `v` begins where gap `g` ends.
pub open spec fn starts_at(p: Seq<Pair>, v: PieceView, g: PieceView) -> bool {
    v.stereo && (start_on(p, v, g.reference) matches Some(s) && meets(max(s, 0), g.t1))
}

/// The recorder on the right of a piece, if there is one.
pub open spec fn right_label(t: Seq<TrackView>, v: PieceView) -> Option<Seq<char>> {
    match v.right {
        Some(r) => Some(t[r].label),
        None => None,
    }
}

/// Whether two pieces are of the same recorders.
pub open spec fn same_labels(t: Seq<TrackView>, a: PieceView, b: PieceView) -> bool {
    t[a.left].label == t[b.left].label && right_label(t, a) == right_label(t, b)
}

/// Whether gap `g` is a dropout between the stereo pieces `x` and `y`, all of
/// which can be told on the clock of the recorder that kept running.
pub open spec fn is_dropout(t: Seq<TrackView>, p: Seq<Pair>, v: Seq<PieceView>, g: int, x: int, y: int) -> bool {
    is_gap(v[g]) && ends_at(t, p, v[x], v[g]) && y != x && starts_at(p, v[y], v[g]) && same_labels(t, v[x], v[y]) && is_all_on(v[x], v[g].reference)
        && is_all_on(v[y], v[g].reference)
}

/// The first piece from `y` on that continues piece `x` after gap `g`.
pub open spec fn next_after(t: Seq<TrackView>, p: Seq<Pair>, v: Seq<PieceView>, g: int, x: int, y: int) -> Option<int>
    decreases v.len() - y,
{
    if y >= v.len() {
        None
    } else if is_dropout(t, p, v, g, x, y) {
        Some(y)
    } else {
        next_after(t, p, v, g, x, y + 1)
    }
}

/// The first pieces, the earlier one from `x` on, that gap `g` lies between.
pub open spec fn around_gap(t: Seq<TrackView>, p: Seq<Pair>, v: Seq<PieceView>, g: int, x: int) -> Option<(int, int)>
    decreases v.len() - x,
{
    if x >= v.len() {
        None
    } else {
        match next_after(t, p, v, g, x, 0) {
            Some(y) => Some((x, y)),
            None => around_gap(t, p, v, g, x + 1),
        }
    }
}

/// The first dropout, from gap `g` on: the gap and the pieces around it.
pub open spec fn first_dropout(t: Seq<TrackView>, p: Seq<Pair>, v: Seq<PieceView>, g: int) -> Option<(int, int, int)>
    decreases v.len() - g,
{
    if g >= v.len() {
        None
    } else {
        match around_gap(t, p, v, g, 0) {
            Some((x, y)) => Some((g, x, y)),
            None => first_dropout(t, p, v, g + 1),
        }
    }
}

/// Two measures weighed by the lengths of the pieces.
pub open spec fn weighed(u: Option<int>, v: Option<int>, da: int, db: int) -> Option<int> {
    match (u, v) {
        (Some(a), Some(b)) => if da >= 0 && db >= 0 && da + db > 0 {
            Some((a * da + b * db) / (da + db))
        } else {
            Some(a)
        },
        (Some(a), None) => Some(a),
        (None, b) => b,
    }
}

/// The pieces `a` and `b`, on the clock of track `x`, with the gap between them.
pub open spec fn joined(t: Seq<TrackView>, a: PieceView, b: PieceView, x: int, start: int, gap: int) -> PieceView {
    let da = a.t1 - a.t0;
    let db = b.t1 - b.t0;
    PieceView {
        start_secs: start,
        t1: b.t1,
        spans: a.spans + b.spans,
        silent: with_silence(with_silences(a.silent, b.silent, b.silent.len() as int), partner(t, a, x), gap, 0),
        hit_share: weighed(a.hit_share, b.hit_share, da, db),
        msc: weighed(a.msc, b.msc, da, db),
        ..a
    }
}

/// A list without three of its places.
pub open spec fn without(v: Seq<PieceView>, g: int, x: int, y: int) -> Seq<PieceView> {
    let lo = min(g, min(x, y));
    let hi = max(g, max(x, y));
    let mid = g + x + y - lo - hi;
    v.remove(hi).remove(mid).remove(lo)
}

/// The pieces with a dropout closed.
pub open spec fn closed_up(t: Seq<TrackView>, p: Seq<Pair>, v: Seq<PieceView>, g: int, x: int, y: int) -> Seq<PieceView> {
    let r = v[g].reference;
    without(v, g, x, y).push(joined(t, rebased(p, v[x], r), rebased(p, v[y], r), r, v[x].start_secs, v[g].t1 - v[g].t0))
}

/// The pieces with all dropouts closed, first one first.
pub open spec fn dropouts_closed(t: Seq<TrackView>, p: Seq<Pair>, v: Seq<PieceView>) -> Seq<PieceView>
    decreases v.len(),
{
    match first_dropout(t, p, v, 0) {
        None => v,
        Some((g, x, y)) => {
            let w = closed_up(t, p, v, g, x, y);
            if w.len() < v.len() {
                dropouts_closed(t, p, w)
            } else {
                w
            }
        },
    }
}

/// A found piece is one, and comes after where the search began.
proof fn lemma_next_after(t: Seq<TrackView>, p: Seq<Pair>, v: Seq<PieceView>, g: int, x: int, y: int)
    requires
        0 <= y,
    ensures
        match next_after(t, p, v, g, x, y) {
            Some(k) => y <= k < v.len() && is_dropout(t, p, v, g, x, k),
            None => forall|k: int| y <= k < v.len() ==> !is_dropout(t, p, v, g, x, k),
        },
    decreases v.len() - y,
{
    if y < v.len() && !is_dropout(t, p, v, g, x, y) {
        lemma_next_after(t, p, v, g, x, y + 1);
    }
}

/// Found pieces are around the gap.
proof fn lemma_around_gap(t: Seq<TrackView>, p: Seq<Pair>, v: Seq<PieceView>, g: int, x: int)
    requires
        0 <= x,
    ensures
        match around_gap(t, p, v, g, x) {
            Some((k, y)) => x <= k < v.len() && 0 <= y < v.len() && is_dropout(t, p, v, g, k, y),
            None => forall|k: int, y: int| x <= k < v.len() && 0 <= y < v.len() ==> !is_dropout(t, p, v, g, k, y),
        },
    decreases v.len() - x,
{
    if x < v.len() {
        lemma_next_after(t, p, v, g, x, 0);
        if next_after(t, p, v, g, x, 0) is None {
            lemma_around_gap(t, p, v, g, x + 1);
        }
    }
}

/// A found dropout is one.
pub proof fn lemma_first_dropout(t: Seq<TrackView>, p: Seq<Pair>, v: Seq<PieceView>, g: int)
    requires
        0 <= g,
    ensures
        match first_dropout(t, p, v, g) {
            Some((k, x, y)) => g <= k < v.len() && 0 <= x < v.len() && 0 <= y < v.len() && is_dropout(t, p, v, k, x, y),
            None => forall|k: int, x: int, y: int| g <= k < v.len() && 0 <= x < v.len() && 0 <= y < v.len() ==> !is_dropout(t, p, v, k, x, y),
        },
    decreases v.len() - g,
{
    if g < v.len() {
        lemma_around_gap(t, p, v, g, 0);
        if around_gap(t, p, v, g, 0) is None {
            lemma_first_dropout(t, p, v, g + 1);
        }
    }
}

/// Closing a dropout leaves fewer pieces.
pub proof fn lemma_closed_up_len(t: Seq<TrackView>, p: Seq<Pair>, v: Seq<PieceView>, g: int, x: int, y: int)
    requires
        0 <= g < v.len(),
        0 <= x < v.len(),
        0 <= y < v.len(),
        is_dropout(t, p, v, g, x, y),
    ensures
        g != x,
        g != y,
        x != y,
        closed_up(t, p, v, g, x, y).len() == v.len() - 2,
{
}

/// In the end no recorder was switched off between two shared stretches of the
/// same recorders that can be told on the clock of the one that kept running:
/// every such dropout is closed.
pub proof fn no_dropout_is_left(t: Seq<TrackView>, p: Seq<Pair>, v: Seq<PieceView>, g: int, x: int, y: int)
    requires
        0 <= g < dropouts_closed(t, p, v).len(),
        0 <= x < dropouts_closed(t, p, v).len(),
        0 <= y < dropouts_closed(t, p, v).len(),
    ensures
        !is_dropout(t, p, dropouts_closed(t, p, v), g, x, y),
    decreases v.len(),
{
    lemma_first_dropout(t, p, v, 0);
    match first_dropout(t, p, v, 0) {
        None => {},
        Some((a, b, c)) => {
            lemma_closed_up_len(t, p, v, a, b, c);
            no_dropout_is_left(t, p, closed_up(t, p, v, a, b, c), g, x, y);
        },
    }
}

/// Whether two times are one place.
fn meet(a: i64, b: i64) -> (r: bool)
    requires
        -REACH_LIMIT * 2 <= a <= REACH_LIMIT * 2,
        -REACH_LIMIT * 2 <= b <= REACH_LIMIT * 2,
    ensures
        r == meets(a as int, b as int),
{
    -TOLERANCE <= a - b && a - b <= TOLERANCE
}

/// Whether stereo piece `v` ends where gap `g` begins.
fn check_ends_at(tracks: &Vec<Track>, pairs: &Vec<Pair>, v: &Piece, g: &Piece) -> (r: bool)
    requires
        plannable(track_views(tracks@), pairs@),
        piece_ok(track_views(tracks@), pairs@, v@),
        piece_ok(track_views(tracks@), pairs@, g@),
        is_gap(g@),
    ensures
        r == ends_at(track_views(tracks@), pairs@, v@, g@),
{
    if !v.stereo {
        return false;
    }
    let ghost t = track_views(tracks@);
    assert(t[g.reference as int] == tracks@[g.reference as int]@ && timed(t[g.reference as int]));
    proof {
        lemma_round_bound(t[g.reference as int].frames, t[g.reference as int].info.sample_rate);
    }
    let d: i64 = time_of(&tracks[g.reference]);
    match time_on(tracks, pairs, v, g.reference, true) {
        Some(e) => meet(
            if e <= d {
                e
            } else {
                d
            },
            g.t0,
        ),
        None => false,
    }
}

/// Whether stereo piece `v` begins where gap `g` ends.
fn check_starts_at(tracks: &Vec<Track>, pairs: &Vec<Pair>, v: &Piece, g: &Piece) -> (r: bool)
    requires
        plannable(track_views(tracks@), pairs@),
        piece_ok(track_views(tracks@), pairs@, v@),
        piece_ok(track_views(tracks@), pairs@, g@),
        is_gap(g@),
    ensures
        r == starts_at(pairs@, v@, g@),
{
    if !v.stereo {
        return false;
    }
    match time_on(tracks, pairs, v, g.reference, false) {
        Some(s) => meet(
            if s >= 0 {
                s
            } else {
                0
            },
            g.t1,
        ),
        None => false,
    }
}

/// Whether two pieces are of the same recorders.
fn check_same_labels(tracks: &Vec<Track>, pairs: &Vec<Pair>, a: &Piece, b: &Piece) -> (r: bool)
    requires
        piece_ok(track_views(tracks@), pairs@, a@),
        piece_ok(track_views(tracks@), pairs@, b@),
    ensures
        r == same_labels(track_views(tracks@), a@, b@),
{
    let ghost t = track_views(tracks@);
    assert(t[a.left as int] == tracks@[a.left as int]@ && t[b.left as int] == tracks@[b.left as int]@);
    let right = match (a.right, b.right) {
        (Some(i), Some(j)) => {
            assert(t[i as int] == tracks@[i as int]@ && t[j as int] == tracks@[j as int]@);
            same(tracks[i].label.as_str(), tracks[j].label.as_str())
        },
        (None, None) => true,
        _ => false,
    };
    right && same(tracks[a.left].label.as_str(), tracks[b.left].label.as_str())
}

/// Whether all of a stereo piece can be told on the clock of track `x`.
fn check_all_on(v: &Piece, x: usize) -> (r: bool)
    ensures
        r == is_all_on(v@, x as int),
{
    v.reference == x || (v.spans.len() == 1 && v.spans[0].other == x)
}

/// The first dropout: the gap and the pieces around it.
fn find_dropout(tracks: &Vec<Track>, pairs: &Vec<Pair>, v: &Vec<Piece>) -> (r: Option<(usize, usize, usize)>)
    requires
        plannable(track_views(tracks@), pairs@),
        pieces_ok(track_views(tracks@), pairs@, piece_views(v@)),
    ensures
        match r {
            Some((g, x, y)) => first_dropout(track_views(tracks@), pairs@, piece_views(v@), 0) == Some((g as int, x as int, y as int)),
            None => first_dropout(track_views(tracks@), pairs@, piece_views(v@), 0) is None,
        },
{
    let ghost t = track_views(tracks@);
    let ghost w = piece_views(v@);
    let n: usize = v.len();
    let mut g: usize = 0;
    while g < n
        invariant
            g <= n == v.len(),
            t == track_views(tracks@),
            w == piece_views(v@),
            plannable(t, pairs@),
            pieces_ok(t, pairs@, w),
            first_dropout(t, pairs@, w, 0) == first_dropout(t, pairs@, w, g as int),
        decreases n - g,
    {
        assert(w[g as int] == v@[g as int]@ && piece_ok(t, pairs@, w[g as int]));
        proof {
            lemma_around_gap(t, pairs@, w, g as int, 0);
        }
        if !v[g].stereo && v[g].alone {
            let mut x: usize = 0;
            while x < n
                invariant
                    g < n == v.len(),
                    x <= n,
                    t == track_views(tracks@),
                    w == piece_views(v@),
                    plannable(t, pairs@),
                    pieces_ok(t, pairs@, w),
                    w[g as int] == v@[g as int]@,
                    is_gap(w[g as int]),
                    first_dropout(t, pairs@, w, 0) == first_dropout(t, pairs@, w, g as int),
                    around_gap(t, pairs@, w, g as int, 0) == around_gap(t, pairs@, w, g as int, x as int),
                decreases n - x,
            {
                assert(w[x as int] == v@[x as int]@ && piece_ok(t, pairs@, w[x as int]) && piece_ok(t, pairs@, w[g as int]));
                proof {
                    lemma_next_after(t, pairs@, w, g as int, x as int, 0);
                }
                if check_ends_at(tracks, pairs, &v[x], &v[g]) && check_all_on(&v[x], v[g].reference) {
                    let mut y: usize = 0;
                    while y < n
                        invariant
                            g < n == v.len(),
                            x < n,
                            y <= n,
                            t == track_views(tracks@),
                            w == piece_views(v@),
                            plannable(t, pairs@),
                            pieces_ok(t, pairs@, w),
                            w[g as int] == v@[g as int]@,
                            w[x as int] == v@[x as int]@,
                            is_gap(w[g as int]),
                            ends_at(t, pairs@, w[x as int], w[g as int]),
                            is_all_on(w[x as int], w[g as int].reference),
                            first_dropout(t, pairs@, w, 0) == first_dropout(t, pairs@, w, g as int),
                            around_gap(t, pairs@, w, g as int, 0) == around_gap(t, pairs@, w, g as int, x as int),
                            next_after(t, pairs@, w, g as int, x as int, 0) == next_after(t, pairs@, w, g as int, x as int, y as int),
                        decreases n - y,
                    {
                        assert(w[y as int] == v@[y as int]@ && piece_ok(t, pairs@, w[y as int]) && piece_ok(t, pairs@, w[g as int]) && piece_ok(
                            t,
                            pairs@,
                            w[x as int],
                        ));
                        if y != x && check_starts_at(tracks, pairs, &v[y], &v[g]) && check_same_labels(tracks, pairs, &v[x], &v[y])
                            && check_all_on(&v[y], v[g].reference) {
                            return Some((g, x, y));
                        }
                        y = y + 1;
                    }
                }
                x = x + 1;
            }
        }
        g = g + 1;
    }
    None
}

/// Two measures weighed by the lengths of the pieces.
fn weigh(u: Option<i64>, v: Option<i64>, da: i64, db: i64) -> (r: Option<i64>)
    requires
        -3 * REACH_LIMIT <= da <= 3 * REACH_LIMIT,
        -3 * REACH_LIMIT <= db <= 3 * REACH_LIMIT,
    ensures
        opt_i64(r) == weighed(opt_i64(u), opt_i64(v), da as int, db as int),
{
    match (u, v) {
        (Some(a), Some(b)) => if da >= 0 && db >= 0 && da + db > 0 {
            let x: i128 = a as i128;
            let y: i128 = b as i128;
            let p: i128 = da as i128;
            let q: i128 = db as i128;
            proof {
                lemma_weighed(x as int, y as int, p as int, q as int);
            }
            Some(floor_div(x * p + y * q, p + q) as i64)
        } else {
            Some(a)
        },
        (Some(a), None) => Some(a),
        (None, b) => b,
    }
}

/// A weighed mean lies between its parts.
proof fn lemma_weighed(a: int, b: int, p: int, q: int)
    requires
        i64::MIN <= a <= i64::MAX,
        i64::MIN <= b <= i64::MAX,
        0 <= p <= 3 * REACH_LIMIT,
        0 <= q <= 3 * REACH_LIMIT,
        p + q > 0,
    ensures
        -0x1000_0000_0000_0000_0000_0000_0000_0000 < a * p < 0x1000_0000_0000_0000_0000_0000_0000_0000,
        -0x1000_0000_0000_0000_0000_0000_0000_0000 < b * q < 0x1000_0000_0000_0000_0000_0000_0000_0000,
        i64::MIN <= (a * p + b * q) / (p + q) <= i64::MAX,
{
    assert(-0x1000_0000_0000_0000_0000_0000_0000_0000 < a * p < 0x1000_0000_0000_0000_0000_0000_0000_0000) by (nonlinear_arith)
        requires
            -0x8000_0000_0000_0000 <= a <= 0x8000_0000_0000_0000,
            0 <= p <= 825_000_000_000_000_000,
    ;
    assert(-0x1000_0000_0000_0000_0000_0000_0000_0000 < b * q < 0x1000_0000_0000_0000_0000_0000_0000_0000) by (nonlinear_arith)
        requires
            -0x8000_0000_0000_0000 <= b <= 0x8000_0000_0000_0000,
            0 <= q <= 825_000_000_000_000_000,
    ;
    let lo: int = -0x8000_0000_0000_0000;
    let hi: int = 0x7FFF_FFFF_FFFF_FFFF;
    let n = a * p + b * q;
    let d = p + q;
    assert(lo * d <= n <= hi * d) by (nonlinear_arith)
        requires
            n == a * p + b * q,
            d == p + q,
            lo <= a <= hi,
            lo <= b <= hi,
            p >= 0,
            q >= 0,
    ;
    vstd::arithmetic::div_mod::lemma_fundamental_div_mod(n, d);
    let k = n / d;
    assert(d * k <= n < d * k + d);
    assert(k <= hi) by (nonlinear_arith)
        requires
            d * k <= n,
            n <= hi * d,
            d > 0,
    ;
    assert(k >= lo) by (nonlinear_arith)
        requires
            n < d * k + d,
            lo * d <= n,
            d > 0,
    ;
}

/// The pieces around a gap as one.
fn join(tracks: &Vec<Track>, pairs: &Vec<Pair>, v: &Vec<Piece>, g: usize, x: usize, y: usize) -> (r: Piece)
    requires
        plannable(track_views(tracks@), pairs@),
        pieces_ok(track_views(tracks@), pairs@, piece_views(v@)),
        g < v.len(),
        x < v.len(),
        y < v.len(),
        is_dropout(track_views(tracks@), pairs@, piece_views(v@), g as int, x as int, y as int),
        countable(piece_views(v@)),
    ensures
        ({
            let t = track_views(tracks@);
            let w = piece_views(v@);
            let z = w[g as int].reference;
            &&& r@ == joined(
                t,
                rebased(pairs@, w[x as int], z),
                rebased(pairs@, w[y as int], z),
                z,
                w[x as int].start_secs,
                w[g as int].t1 - w[g as int].t0,
            )
            &&& piece_ok(t, pairs@, r@)
            &&& worth(r@) <= worth(w[x as int]) + worth(w[y as int]) + worth(w[g as int])
        }),
{
    let ghost t = track_views(tracks@);
    let ghost w = piece_views(v@);
    assert(w[g as int] == v@[g as int]@ && w[x as int] == v@[x as int]@ && w[y as int] == v@[y as int]@);
    assert(piece_ok(t, pairs@, w[g as int]) && piece_ok(t, pairs@, w[x as int]) && piece_ok(t, pairs@, w[y as int]));
    let z: usize = v[g].reference;
    let gap: i64 = v[g].t1 - v[g].t0;
    let a = rebase(tracks, pairs, &v[x], z);
    let b = rebase(tracks, pairs, &v[y], z);
    let da: i64 = a.t1 - a.t0;
    let db: i64 = b.t1 - b.t0;
    let hit_share = weigh(a.hit_share, b.hit_share, da, db);
    let msc = weigh(a.msc, b.msc, da, db);
    let other = partner_label(tracks, &a, z);
    proof {
        lemma_worths_without(t, pairs@, w, g as int, x as int, y as int);
    }
    let mut silent = copy_silences(&a.silent);
    add_silences(&mut silent, &b.silent);
    add_silence(&mut silent, other.as_str(), gap as i128);
    let mut spans = copy_spans(&a.spans);
    let mut i: usize = 0;
    assert(spans@ =~= a.spans@ + b.spans@.take(0));
    while i < b.spans.len()
        invariant
            i <= b.spans.len(),
            spans@ == a.spans@ + b.spans@.take(i as int),
        decreases b.spans.len() - i,
    {
        spans.push(b.spans[i]);
        i = i + 1;
        assert(spans@ =~= a.spans@ + b.spans@.take(i as int));
    }
    assert(b.spans@.take(i as int) =~= b.spans@);
    let r = Piece {
        stereo: a.stereo,
        alone: a.alone,
        left: a.left,
        right: a.right,
        pair: a.pair,
        reference: a.reference,
        t0: a.t0,
        t1: b.t1,
        spans,
        silent,
        hit_share,
        msc,
        start_secs: v[x].start_secs,
    };
    proof {
        let m = r@;
        assert forall|k: int| 0 <= k < m.spans.len() implies (#[trigger] m.spans[k]).pair < pairs.len() && m.spans[k].other < t.len() && tied(pairs@, m.reference, m.spans[k]) && -MERGED_LIMIT <= m.spans[k].t0
            <= MERGED_LIMIT && -MERGED_LIMIT <= m.spans[k].t1 <= MERGED_LIMIT by {
            if k < a.spans.len() {
                assert(m.spans[k] == a@.spans[k]);
                assert(a@.spans[k] == a@.spans[k]);
                if w[x as int].reference == z {
                    assert(a@.spans[k] == w[x as int].spans[k]);
                } else {
                    assert(w[x as int].spans[0].pair < pairs.len());
                }
            } else {
                let j = k - a.spans.len();
                assert(m.spans[k] == b@.spans[j]);
                if w[y as int].reference == z {
                    assert(b@.spans[j] == w[y as int].spans[j]);
                } else {
                    assert(w[y as int].spans[0].pair < pairs.len());
                }
            }
        }
    }
    r
}

/// A piece of a list with one place removed is a piece of the list.
proof fn lemma_removed(w: Seq<PieceView>, i: int, k: int)
    requires
        0 <= i < w.len(),
        0 <= k < w.len() - 1,
    ensures
        w.remove(i)[k] == w[if k < i {
            k
        } else {
            k + 1
        }],
{
}

/// What is left after removing pieces is still in order.
proof fn lemma_without_ok(t: Seq<TrackView>, p: Seq<Pair>, w: Seq<PieceView>, g: int, x: int, y: int)
    requires
        pieces_ok(t, p, w),
        0 <= g < w.len(),
        0 <= x < w.len(),
        0 <= y < w.len(),
        g != x,
        g != y,
        x != y,
    ensures
        pieces_ok(t, p, without(w, g, x, y)),
{
    let lo = min(g, min(x, y));
    let hi = max(g, max(x, y));
    let mid = g + x + y - lo - hi;
    let r1 = w.remove(hi);
    let r2 = r1.remove(mid);
    assert forall|k: int| 0 <= k < r1.len() implies piece_ok(t, p, #[trigger] r1[k]) by {
        lemma_removed(w, hi, k);
    }
    assert forall|k: int| 0 <= k < r2.len() implies piece_ok(t, p, #[trigger] r2[k]) by {
        lemma_removed(r1, mid, k);
    }
    let r3 = r2.remove(lo);
    assert forall|k: int| 0 <= k < r3.len() implies piece_ok(t, p, #[trigger] r3[k]) by {
        lemma_removed(r2, lo, k);
    }
}

/// What is left after removing pieces keeps its starts.
proof fn lemma_without_rooted(w: Seq<PieceView>, g: int, x: int, y: int)
    requires
        rooted(w),
        0 <= g < w.len(),
        0 <= x < w.len(),
        0 <= y < w.len(),
        g != x,
        g != y,
        x != y,
    ensures
        rooted(without(w, g, x, y)),
{
    let lo = min(g, min(x, y));
    let hi = max(g, max(x, y));
    let mid = g + x + y - lo - hi;
    let a = w.remove(hi);
    let b = a.remove(mid);
    let c = b.remove(lo);
    assert forall|k: int| 0 <= k < c.len() implies -START_BASE <= (#[trigger] c[k]).start_secs <= START_BASE by {
        lemma_removed(b, lo, k);
        let k1 = if k < lo {
            k
        } else {
            k + 1
        };
        lemma_removed(a, mid, k1);
        let k2 = if k1 < mid {
            k1
        } else {
            k1 + 1
        };
        lemma_removed(w, hi, k2);
    }
}

/// A piece has a worth that is not negative.
proof fn lemma_worth(t: Seq<TrackView>, p: Seq<Pair>, v: PieceView)
    requires
        piece_ok(t, p, v),
    ensures
        0 <= total(v.silent),
{
    assert forall|k: int| 0 <= k < lengths(v.silent).len() implies 0 <= #[trigger] lengths(v.silent)[k] by {
        assert(v.silent[k].length >= 0);
    }
    lemma_sum_positive(lengths(v.silent));
}

/// Removing three pieces takes their worth away.
proof fn lemma_worths_without(t: Seq<TrackView>, p: Seq<Pair>, w: Seq<PieceView>, g: int, x: int, y: int)
    requires
        pieces_ok(t, p, w),
        0 <= g < w.len(),
        0 <= x < w.len(),
        0 <= y < w.len(),
        g != x,
        g != y,
        x != y,
    ensures
        sum(worths(without(w, g, x, y))) == sum(worths(w)) - worth(w[g]) - worth(w[x]) - worth(w[y]),
        0 <= sum(worths(without(w, g, x, y))),
        0 <= total(w[g].silent),
        0 <= total(w[x].silent),
        0 <= total(w[y].silent),
{
    let lo = min(g, min(x, y));
    let hi = max(g, max(x, y));
    let mid = g + x + y - lo - hi;
    let a = w.remove(hi);
    let b = a.remove(mid);
    let c = b.remove(lo);
    assert(worths(a) =~= worths(w).remove(hi));
    assert(worths(b) =~= worths(a).remove(mid));
    assert(worths(c) =~= worths(b).remove(lo));
    lemma_sum_remove(worths(w), hi);
    lemma_sum_remove(worths(a), mid);
    lemma_sum_remove(worths(b), lo);
    assert(a[mid] == w[mid] && b[lo] == w[lo]);
    lemma_worth(t, p, w[g]);
    lemma_worth(t, p, w[x]);
    lemma_worth(t, p, w[y]);
    lemma_without_ok(t, p, w, g, x, y);
    assert forall|k: int| 0 <= k < worths(c).len() implies 0 <= #[trigger] worths(c)[k] by {
        assert(piece_ok(t, p, c[k]));
        lemma_worth(t, p, c[k]);
    }
    lemma_sum_positive(worths(c));
}

/// Removes three pieces.
fn remove_three(v: &mut Vec<Piece>, g: usize, x: usize, y: usize)
    requires
        g < old(v).len(),
        x < old(v).len(),
        y < old(v).len(),
        g != x,
        g != y,
        x != y,
    ensures
        piece_views(final(v)@) == without(piece_views(old(v)@), g as int, x as int, y as int),
        final(v).len() == old(v).len() - 3,
{
    let lo: usize = if g <= x && g <= y {
        g
    } else if x <= y {
        x
    } else {
        y
    };
    let hi: usize = if g >= x && g >= y {
        g
    } else if x >= y {
        x
    } else {
        y
    };
    let mid: usize = if g != lo && g != hi {
        g
    } else if x != lo && x != hi {
        x
    } else {
        y
    };
    let ghost w = piece_views(v@);
    v.remove(hi);
    assert(piece_views(v@) =~= w.remove(hi as int));
    let ghost w = piece_views(v@);
    v.remove(mid);
    assert(piece_views(v@) =~= w.remove(mid as int));
    let ghost w = piece_views(v@);
    v.remove(lo);
    assert(piece_views(v@) =~= w.remove(lo as int));
}

/// Closes all dropouts: one recorder switched off for a while between two
/// stereo stretches of the same two recorders, while the other kept running.
/// The stretches and the gap become one stereo piece on the running recorder's
/// clock, with silence on the missing channel.
pub fn merge_dropouts(tracks: &Vec<Track>, pairs: &Vec<Pair>, v: &mut Vec<Piece>)
    requires
        plannable(track_views(tracks@), pairs@),
        pieces_ok(track_views(tracks@), pairs@, piece_views(old(v)@)),
        countable(piece_views(old(v)@)),
        rooted(piece_views(old(v)@)),
    ensures
        piece_views(final(v)@) == dropouts_closed(track_views(tracks@), pairs@, piece_views(old(v)@)),
        pieces_ok(track_views(tracks@), pairs@, piece_views(final(v)@)),
        countable(piece_views(final(v)@)),
        rooted(piece_views(final(v)@)),
{
    let ghost t = track_views(tracks@);
    let ghost first = piece_views(v@);
    loop
        invariant
            t == track_views(tracks@),
            plannable(t, pairs@),
            pieces_ok(t, pairs@, piece_views(v@)),
            countable(piece_views(v@)),
            rooted(piece_views(v@)),
            dropouts_closed(t, pairs@, piece_views(v@)) == dropouts_closed(t, pairs@, first),
        ensures
            pieces_ok(t, pairs@, piece_views(v@)),
            countable(piece_views(v@)),
            rooted(piece_views(v@)),
            piece_views(v@) == dropouts_closed(t, pairs@, first),
        decreases v.len(),
    {
        let ghost w = piece_views(v@);
        let (g, x, y) = match find_dropout(tracks, pairs, v) {
            Some(f) => f,
            None => break,
        };
        proof {
            lemma_first_dropout(t, pairs@, w, 0);
            lemma_closed_up_len(t, pairs@, w, g as int, x as int, y as int);
        }
        let m = join(tracks, pairs, v, g, x, y);
        remove_three(v, g, x, y);
        let ghost rest = piece_views(v@);
        v.push(m);
        proof {
            assert(piece_views(v@) =~= rest.push(m@));
            lemma_without_ok(t, pairs@, w, g as int, x as int, y as int);
            lemma_worths_without(t, pairs@, w, g as int, x as int, y as int);
            assert(worths(rest.push(m@)) =~= worths(rest).push(worth(m@)));
            lemma_sum_push(worths(rest), worth(m@));
            lemma_without_rooted(w, g as int, x as int, y as int);
        }
    }
}

// ------------------------------------------------------------------ one recorder alone

/// The first stereo piece from `x` on that gap `g` adjoins, and whether the gap
/// comes after it.
pub open spec fn neighbour(t: Seq<TrackView>, p: Seq<Pair>, v: Seq<PieceView>, g: int, x: int) -> Option<(int, bool)>
    decreases v.len() - x,
{
    if x >= v.len() {
        None
    } else if ends_at(t, p, v[x], v[g]) {
        Some((x, true))
    } else if starts_at(p, v[x], v[g]) {
        Some((x, false))
    } else {
        neighbour(t, p, v, g, x + 1)
    }
}

/// The first gap from `g` on that adjoins a stereo piece.
pub open spec fn first_gap(t: Seq<TrackView>, p: Seq<Pair>, v: Seq<PieceView>, g: int) -> Option<(int, int, bool)>
    decreases v.len() - g,
{
    if g >= v.len() {
        None
    } else if !is_gap(v[g]) {
        first_gap(t, p, v, g + 1)
    } else {
        match neighbour(t, p, v, g, 0) {
            Some((x, after)) => Some((g, x, after)),
            None => first_gap(t, p, v, g + 1),
        }
    }
}

/// The span that a stereo piece ends or begins with.
pub open spec fn outer(v: PieceView, end: bool) -> int {
    if end {
        v.spans.len() - 1
    } else {
        0
    }
}

/// A time of track `x` on the clock of a stereo piece that ends or begins with
/// that track.
pub open spec fn on_piece(p: Seq<Pair>, v: PieceView, x: int, time: int, end: bool) -> int {
    if v.reference == x {
        time
    } else {
        map_time(p[v.spans[outer(v, end)].pair as int], x, time)
    }
}

/// A stereo piece with the gap after or before it.
pub open spec fn grown(t: Seq<TrackView>, p: Seq<Pair>, v: PieceView, g: PieceView, after: bool) -> PieceView {
    let x = g.reference;
    let t0 = if after {
        v.t0
    } else {
        on_piece(p, v, x, g.t0, false)
    };
    let t1 = if after {
        on_piece(p, v, x, g.t1, true)
    } else {
        v.t1
    };
    PieceView {
        t0: t0,
        t1: t1,
        start_secs: if after {
            v.start_secs
        } else {
            v.start_secs - seconds(v.t0 - t0)
        },
        spans: if v.reference == x {
            v.spans
        } else if after {
            v.spans.update(outer(v, true), Span { t1: t1 as i64, ..v.spans.last() })
        } else {
            v.spans.update(0, Span { t0: t0 as i64, ..v.spans[0] })
        },
        silent: with_silence(v.silent, partner(t, v, x), g.t1 - g.t0, 0),
        ..v
    }
}

/// The pieces with gap `g` joined to piece `x`.
pub open spec fn taken_in(t: Seq<TrackView>, p: Seq<Pair>, v: Seq<PieceView>, g: int, x: int, after: bool) -> Seq<PieceView> {
    v.update(x, grown(t, p, v[x], v[g], after)).remove(g)
}

/// The pieces with all gaps joined to the stereo pieces they adjoin, first one first.
pub open spec fn gaps_taken_in(t: Seq<TrackView>, p: Seq<Pair>, v: Seq<PieceView>) -> Seq<PieceView>
    decreases v.len(),
{
    match first_gap(t, p, v, 0) {
        None => v,
        Some((g, x, after)) => {
            let w = taken_in(t, p, v, g, x, after);
            if w.len() < v.len() {
                gaps_taken_in(t, p, w)
            } else {
                w
            }
        },
    }
}

/// A found neighbour is one.
proof fn lemma_neighbour(t: Seq<TrackView>, p: Seq<Pair>, v: Seq<PieceView>, g: int, x: int)
    requires
        0 <= x,
    ensures
        match neighbour(t, p, v, g, x) {
            Some((k, after)) => x <= k < v.len() && if after {
                ends_at(t, p, v[k], v[g])
            } else {
                starts_at(p, v[k], v[g])
            },
            None => forall|k: int| x <= k < v.len() ==> !ends_at(t, p, #[trigger] v[k], v[g]) && !starts_at(p, v[k], v[g]),
        },
    decreases v.len() - x,
{
    if x < v.len() && !ends_at(t, p, v[x], v[g]) && !starts_at(p, v[x], v[g]) {
        lemma_neighbour(t, p, v, g, x + 1);
    }
}

/// A found gap is one.
pub proof fn lemma_first_gap(t: Seq<TrackView>, p: Seq<Pair>, v: Seq<PieceView>, g: int)
    requires
        0 <= g,
    ensures
        match first_gap(t, p, v, g) {
            Some((k, x, after)) => g <= k < v.len() && 0 <= x < v.len() && is_gap(v[k]) && v[x].stereo && if after {
                ends_at(t, p, v[x], v[k])
            } else {
                starts_at(p, v[x], v[k])
            },
            None => forall|k: int, x: int|
                #![trigger v[k], v[x]]
                g <= k < v.len() && 0 <= x < v.len() && is_gap(v[k]) ==> !ends_at(t, p, v[x], v[k]) && !starts_at(p, v[x], v[k]),
        },
    decreases v.len() - g,
{
    if g < v.len() {
        lemma_neighbour(t, p, v, g, 0);
        if !is_gap(v[g]) || neighbour(t, p, v, g, 0) is None {
            lemma_first_gap(t, p, v, g + 1);
        }
    }
}

/// In the end only parallel, different conversations are split: no time in which
/// just one recorder ran adjoins a stereo piece.
pub proof fn no_lone_gap_is_left(t: Seq<TrackView>, p: Seq<Pair>, v: Seq<PieceView>, g: int, x: int)
    requires
        0 <= g < gaps_taken_in(t, p, v).len(),
        0 <= x < gaps_taken_in(t, p, v).len(),
        is_gap(gaps_taken_in(t, p, v)[g]),
    ensures
        !ends_at(t, p, gaps_taken_in(t, p, v)[x], gaps_taken_in(t, p, v)[g]),
        !starts_at(p, gaps_taken_in(t, p, v)[x], gaps_taken_in(t, p, v)[g]),
    decreases v.len(),
{
    lemma_first_gap(t, p, v, 0);
    match first_gap(t, p, v, 0) {
        None => {},
        Some((a, b, after)) => {
            no_lone_gap_is_left(t, p, taken_in(t, p, v, a, b, after), g, x);
        },
    }
}

/// The first gap that adjoins a stereo piece.
fn find_gap(tracks: &Vec<Track>, pairs: &Vec<Pair>, v: &Vec<Piece>) -> (r: Option<(usize, usize, bool)>)
    requires
        plannable(track_views(tracks@), pairs@),
        pieces_ok(track_views(tracks@), pairs@, piece_views(v@)),
    ensures
        match r {
            Some((g, x, after)) => first_gap(track_views(tracks@), pairs@, piece_views(v@), 0) == Some((g as int, x as int, after)),
            None => first_gap(track_views(tracks@), pairs@, piece_views(v@), 0) is None,
        },
{
    let ghost t = track_views(tracks@);
    let ghost w = piece_views(v@);
    let n: usize = v.len();
    let mut g: usize = 0;
    while g < n
        invariant
            g <= n == v.len(),
            t == track_views(tracks@),
            w == piece_views(v@),
            plannable(t, pairs@),
            pieces_ok(t, pairs@, w),
            first_gap(t, pairs@, w, 0) == first_gap(t, pairs@, w, g as int),
        decreases n - g,
    {
        assert(w[g as int] == v@[g as int]@ && piece_ok(t, pairs@, w[g as int]));
        if !v[g].stereo && v[g].alone {
            let mut x: usize = 0;
            while x < n
                invariant
                    g < n == v.len(),
                    x <= n,
                    t == track_views(tracks@),
                    w == piece_views(v@),
                    plannable(t, pairs@),
                    pieces_ok(t, pairs@, w),
                    w[g as int] == v@[g as int]@,
                    is_gap(w[g as int]),
                    first_gap(t, pairs@, w, 0) == first_gap(t, pairs@, w, g as int),
                    neighbour(t, pairs@, w, g as int, 0) == neighbour(t, pairs@, w, g as int, x as int),
                decreases n - x,
            {
                assert(w[x as int] == v@[x as int]@ && piece_ok(t, pairs@, w[x as int]) && piece_ok(t, pairs@, w[g as int]));
                if check_ends_at(tracks, pairs, &v[x], &v[g]) {
                    return Some((g, x, true));
                }
                if check_starts_at(tracks, pairs, &v[x], &v[g]) {
                    return Some((g, x, false));
                }
                x = x + 1;
            }
        }
        g = g + 1;
    }
    None
}

/// Whether a start keeps up with the time that a piece begins at: it moves
/// forward by no more than twice as much.
spec fn paced(v: PieceView) -> bool {
    v.start_secs <= START_BASE && (v.start_secs + START_BASE) * 1_000_000_000 + 1_200_000_000_000_000_000 >= 2 * v.t0
}

/// Taking in a gap before a piece moves its beginning forward.
proof fn lemma_gap_before(t: Seq<TrackView>, p: Seq<Pair>, v: PieceView, g: PieceView)
    requires
        plannable(t, p),
        piece_ok(t, p, v),
        piece_ok(t, p, g),
        is_gap(g),
        starts_at(p, v, g),
    ensures
        on_piece(p, v, g.reference, g.t0, false) <= v.t0,
{
    let x = g.reference;
    if v.reference != x {
        let s = v.spans[0];
        let q = p[s.pair as int];
        assert(fit_pair(t, q));
        assert(tied(p, v.reference, s));
        let s0 = map_time(q, v.reference, v.t0);
        lemma_map_back(q, v.reference, x, v.t0);
        lemma_map_pace(q, x, g.t0, s0);
    }
}

/// A stereo piece with the gap after or before it.
fn grow(tracks: &Vec<Track>, pairs: &Vec<Pair>, v: &Piece, g: &Piece, after: bool) -> (r: Piece)
    requires
        plannable(track_views(tracks@), pairs@),
        piece_ok(track_views(tracks@), pairs@, v@),
        piece_ok(track_views(tracks@), pairs@, g@),
        v.stereo,
        is_gap(g@),
        if after {
            end_on(pairs@, v@, g.reference as int) is Some
        } else {
            starts_at(pairs@, v@, g@)
        },
        paced(v@),
        worth(v@) + worth(g@) <= i128::MAX,
    ensures
        worth(r@) <= worth(v@) + worth(g@),
        paced(r@),
        r@ == grown(track_views(tracks@), pairs@, v@, g@, after),
        piece_ok(track_views(tracks@), pairs@, r@),
{
    let ghost t = track_views(tracks@);
    let x: usize = g.reference;
    let own = v.reference == x;
    let mut r = v.copy();
    if !own {
        let i: usize = if after {
            v.spans.len() - 1
        } else {
            0
        };
        let mut s = v.spans[i];
        assert(v@.spans[i as int] == s);
        assert(s.pair < pairs.len() && s.other < t.len());
        assert(fit_pair(t, pairs@[s.pair as int]));
        let q = &pairs[s.pair];
        proof {
            lemma_map_bound(*q, x as int, g.t0 as int, MONO_LIMIT as int);
            lemma_map_bound(*q, x as int, g.t1 as int, MONO_LIMIT as int);
        }
        if after {
            let e: i64 = map_clock(q, x, g.t1);
            r.t1 = e;
            s.t1 = e;
        } else {
            let b: i64 = map_clock(q, x, g.t0);
            r.t0 = b;
            s.t0 = b;
        }
        r.spans.set(i, s);
    } else if after {
        r.t1 = g.t1;
    } else {
        r.t0 = g.t0;
    }
    if !after {
        let moved: i64 = to_seconds(v.t0 - r.t0);
        proof {
            lemma_gap_before(t, pairs@, v@, g@);
        }
        r.start_secs = v.start_secs - moved;
    }
    let other = partner_label(tracks, v, x);
    proof {
        lemma_worth(t, pairs@, v@);
        lemma_worth(t, pairs@, g@);
    }
    add_silence(&mut r.silent, other.as_str(), (g.t1 - g.t0) as i128);
    proof {
        let a = r@;
        let b = grown(t, pairs@, v@, g@, after);
        assert(a.spans =~= b.spans);
        assert(a == b);
        assert forall|k: int| 0 <= k < a.spans.len() implies (#[trigger] a.spans[k]).pair < pairs.len() && a.spans[k].other < t.len() && tied(pairs@, a.reference, a.spans[k]) by {
            assert(v@.spans[k].pair < pairs.len());
        }
        if a.spans.len() == 1 {
            assert(within(v@, STEREO_LIMIT as int));
            assert(v@.spans[0].t0 <= STEREO_LIMIT);
            assert(within(a, STEREO_LIMIT as int));
        } else {
            assert(within(v@, MERGED_LIMIT as int));
            assert forall|k: int| 0 <= k < a.spans.len() implies -MERGED_LIMIT <= (#[trigger] a.spans[k]).t0 <= MERGED_LIMIT && -MERGED_LIMIT
                <= a.spans[k].t1 <= MERGED_LIMIT by {
                assert(v@.spans[k].t0 <= MERGED_LIMIT);
            }
            assert(within(a, MERGED_LIMIT as int));
        }
    }
    r
}

/// Two pieces are worth no more than all.
proof fn lemma_worths_of_two(t: Seq<TrackView>, p: Seq<Pair>, w: Seq<PieceView>, g: int, x: int)
    requires
        pieces_ok(t, p, w),
        0 <= g < w.len(),
        0 <= x < w.len(),
        g != x,
    ensures
        worth(w[g]) + worth(w[x]) <= sum(worths(w)),
{
    let a = worths(w).update(x, 0);
    assert forall|k: int| 0 <= k < a.len() implies 0 <= #[trigger] a[k] by {
        assert(piece_ok(t, p, w[k]));
        lemma_worth(t, p, w[k]);
    }
    lemma_sum_update(worths(w), x, 0);
    lemma_sum_covers(a, g);
}

/// Only parallel, different conversations are split. While just one recorder
/// runs before, after or between shared stretches, that audio stays in the
/// adjacent stereo piece and the other channel is silent, however long it is.
pub fn extend_alone(tracks: &Vec<Track>, pairs: &Vec<Pair>, v: &mut Vec<Piece>)
    requires
        plannable(track_views(tracks@), pairs@),
        pieces_ok(track_views(tracks@), pairs@, piece_views(old(v)@)),
        countable(piece_views(old(v)@)),
        rooted(piece_views(old(v)@)),
    ensures
        piece_views(final(v)@) == gaps_taken_in(track_views(tracks@), pairs@, piece_views(old(v)@)),
        pieces_ok(track_views(tracks@), pairs@, piece_views(final(v)@)),
{
    let ghost t = track_views(tracks@);
    let ghost first = piece_views(v@);
    assert forall|k: int| 0 <= k < v.len() implies paced(#[trigger] piece_views(v@)[k]) by {
        assert(piece_ok(t, pairs@, first[k]));
        assert(first[k].t0 <= MERGED_LIMIT);
        assert(-START_BASE <= first[k].start_secs);
    }
    loop
        invariant
            t == track_views(tracks@),
            plannable(t, pairs@),
            pieces_ok(t, pairs@, piece_views(v@)),
            countable(piece_views(v@)),
            forall|k: int| 0 <= k < v.len() ==> paced(#[trigger] piece_views(v@)[k]),
            gaps_taken_in(t, pairs@, piece_views(v@)) == gaps_taken_in(t, pairs@, first),
        ensures
            pieces_ok(t, pairs@, piece_views(v@)),
            piece_views(v@) == gaps_taken_in(t, pairs@, first),
        decreases v.len(),
    {
        let ghost w = piece_views(v@);
        let (g, x, after) = match find_gap(tracks, pairs, v) {
            Some(f) => f,
            None => break,
        };
        proof {
            lemma_first_gap(t, pairs@, w, 0);
            assert(w[g as int] == v@[g as int]@ && w[x as int] == v@[x as int]@);
            assert(piece_ok(t, pairs@, w[g as int]) && piece_ok(t, pairs@, w[x as int]));
            lemma_worths_of_two(t, pairs@, w, g as int, x as int);
            assert(paced(w[x as int]));
        }
        let m = grow(tracks, pairs, &v[x], &v[g], after);
        v.set(x, m);
        assert(piece_views(v@) =~= w.update(x as int, m@));
        let ghost u = piece_views(v@);
        v.remove(g);
        assert(piece_views(v@) =~= u.remove(g as int));
        proof {
            assert(worths(u) =~= worths(w).update(x as int, worth(m@)));
            lemma_sum_update(worths(w), x as int, worth(m@));
            assert(worths(u.remove(g as int)) =~= worths(u).remove(g as int));
            lemma_sum_remove(worths(u), g as int);
            assert forall|k: int| 0 <= k < u.len() implies piece_ok(t, pairs@, #[trigger] u[k]) by {
                if k != x {
                    assert(u[k] == w[k]);
                }
            }
            let c = u.remove(g as int);
            assert forall|k: int| 0 <= k < c.len() implies piece_ok(t, pairs@, #[trigger] c[k]) && paced(c[k]) by {
                lemma_removed(u, g as int, k);
                let j = if k < g {
                    k
                } else {
                    k + 1
                };
                if j != x {
                    assert(u[j] == w[j]);
                    assert(paced(w[j]));
                }
            }
        }
    }
}

// ------------------------------------------------------------------ nothing is lost

/// Whether a gap lies inside its track and is worth a file.
pub open spec fn is_whole_gap(t: Seq<TrackView>, g: PieceView) -> bool {
    0 <= g.t0 && g.t0 + MIN_PIECE <= g.t1 <= t[g.reference].duration
}

/// Closing a dropout loses no time: the joined piece covers both stretches and
/// the gap between them, on the clock of the recorder that kept running.
pub proof fn closing_loses_nothing(t: Seq<TrackView>, p: Seq<Pair>, v: Seq<PieceView>, g: int, x: int, y: int, time: int)
    requires
        is_dropout(t, p, v, g, x, y),
        is_whole_gap(t, v[g]),
        ({
            let a = rebased(p, v[x], v[g].reference);
            let b = rebased(p, v[y], v[g].reference);
            &&& a.t0 + TOLERANCE <= a.t1
            &&& b.t0 + TOLERANCE <= b.t1
            &&& in_piece(a, time) || in_piece(v[g], time) || in_piece(b, time)
        }),
    ensures
        ({
            let r = v[g].reference;
            in_piece(joined(t, rebased(p, v[x], r), rebased(p, v[y], r), r, v[x].start_secs, v[g].t1 - v[g].t0), time)
        }),
{
}

/// Between the tracks of a pair a later time stays later, and nearly as much.
pub proof fn lemma_map_pace(q: Pair, from: int, x: int, y: int)
    requires
        q.map.valid(),
        x <= y,
    ensures
        4 * (y - x) - 10 <= 5 * (map_time(q, from, y) - map_time(q, from, x)) <= 6 * (y - x) + 10,
        map_time(q, from, x) <= map_time(q, from, y),
{
    clocks_run_alike(q.map, x, y);
    a_time_is_monotone(q.map, x, y);
    b_time_is_monotone(q.map, x, y);
}

/// A time taken from one track of a pair to the other and back is the same, up
/// to two nanoseconds.
pub proof fn lemma_map_back(q: Pair, one: int, two: int, time: int)
    requires
        q.map.valid(),
        (q.a == one && q.b == two) || (q.b == one && q.a == two),
        q.a != q.b,
    ensures
        time - 2 <= map_time(q, two, map_time(q, one, time)) <= time + 2,
{
    clocks_agree(q.map, time);
    clocks_agree_back(q.map, time);
}

/// Taking in a gap loses no time: the grown piece covers all that it did, and
/// the gap as well.
pub proof fn growing_loses_nothing(t: Seq<TrackView>, p: Seq<Pair>, v: PieceView, g: PieceView, after: bool, time: int)
    requires
        plannable(t, p),
        piece_ok(t, p, v),
        if after {
            ends_at(t, p, v, g)
        } else {
            starts_at(p, v, g)
        },
        is_whole_gap(t, g),
        v.t0 + 2 * TOLERANCE <= v.t1,
    ensures
        in_piece(v, time) ==> in_piece(grown(t, p, v, g, after), time),
        in_piece(g, time) ==> grown(t, p, v, g, after).t0 <= on_piece(p, v, g.reference, time, after) <= grown(t, p, v, g, after).t1,
{
    let x = g.reference;
    if v.reference != x {
        let s = v.spans[outer(v, after)];
        let q = p[s.pair as int];
        assert(fit_pair(t, q));
        assert(tied(p, v.reference, s));
        let s0 = map_time(q, v.reference, v.t0);
        let s1 = map_time(q, v.reference, v.t1);
        lemma_map_back(q, v.reference, x, v.t0);
        lemma_map_back(q, v.reference, x, v.t1);
        if after {
            // The stretch ends where the gap begins, up to the tolerance.
            if g.t0 <= s1 {
                lemma_map_pace(q, x, g.t0, s1);
            } else {
                lemma_map_pace(q, x, s1, g.t0);
            }
            lemma_map_pace(q, x, s1, g.t1);
        } else {
            if g.t1 <= s0 {
                lemma_map_pace(q, x, g.t1, s0);
            } else {
                lemma_map_pace(q, x, s0, g.t1);
            }
            lemma_map_pace(q, x, g.t0, s0);
        }
        if in_piece(g, time) {
            lemma_map_pace(q, x, g.t0, time);
            lemma_map_pace(q, x, time, g.t1);
        }
    }
}

// ------------------------------------------------------------------ what closing and growing do

/// A lone stretch is a dropout exactly where one shared stretch ends when it
/// begins and another of the same recorders, left and right, begins when it ends,
/// to a twentieth of a second. Here all of them are on one clock.
pub proof fn dropouts_lie_between_like_stretches(t: Seq<TrackView>, p: Seq<Pair>, v: Seq<PieceView>, g: int, x: int, y: int)
    requires
        v[x].reference == v[g].reference,
        v[y].reference == v[g].reference,
        v[x].right is Some,
        v[y].right is Some,
    ensures
        is_dropout(t, p, v, g, x, y) <==> ({
            let a = min(v[x].t1, t[v[g].reference].duration) - v[g].t0;
            let b = max(v[y].t0, 0) - v[g].t1;
            &&& !v[g].stereo && v[g].alone && v[x].stereo && v[y].stereo && x != y
            &&& -50_000_000 <= a <= 50_000_000
            &&& -50_000_000 <= b <= 50_000_000
            &&& t[v[x].left].label == t[v[y].left].label
            &&& t[v[x].right->0].label == t[v[y].right->0].label
        }),
{
}

/// The recorder that is silent while only one runs is the other one of the piece.
pub proof fn the_other_recorder_is_silent(t: Seq<TrackView>, v: PieceView, x: int)
    requires
        v.right is Some,
        t[v.left].label != t[v.right->0].label,
        t[x].label == t[v.left].label || t[x].label == t[v.right->0].label,
    ensures
        partner(t, v, x) != t[x].label,
        partner(t, v, x) == t[v.left].label || partner(t, v, x) == t[v.right->0].label,
{
}

/// How long a recorder was silent, by a list of silences.
pub open spec fn silence_of(s: Seq<SilenceView>, label: Seq<char>) -> int
    decreases s.len(),
{
    if s.len() == 0 {
        0
    } else {
        silence_of(s.drop_last(), label) + (if s.last().label == label {
            s.last().length
        } else {
            0
        })
    }
}

/// Silence of a changed entry.
proof fn lemma_silence_updated(s: Seq<SilenceView>, i: int, length: int, label: Seq<char>)
    requires
        0 <= i < s.len(),
    ensures
        silence_of(s.update(i, SilenceView { label: s[i].label, length }), label) == silence_of(s, label) + (if s[i].label == label {
            length - s[i].length
        } else {
            0
        }),
    decreases s.len(),
{
    let w = s.update(i, SilenceView { label: s[i].label, length });
    if i == s.len() - 1 {
        assert(w.drop_last() =~= s.drop_last());
    } else {
        assert(w.drop_last() =~= s.drop_last().update(i, SilenceView { label: s[i].label, length }));
        lemma_silence_updated(s.drop_last(), i, length, label);
    }
}

/// One more silence counts for its recorder, in full, and for no other; and a
/// recorder that is listed once stays so.
pub proof fn silences_add_up(s: Seq<SilenceView>, who: Seq<char>, length: int, from: int, label: Seq<char>)
    requires
        0 <= from <= s.len(),
        forall|i: int| 0 <= i < from ==> (#[trigger] s[i]).label != who,
    ensures
        silence_of(with_silence(s, who, length, from), label) == silence_of(s, label) + (if label == who {
            length
        } else {
            0
        }),
        (forall|i: int, j: int| #![trigger s[i], s[j]] 0 <= i < j < s.len() ==> s[i].label != s[j].label) ==> (forall|i: int, j: int|
            #![trigger with_silence(s, who, length, from)[i], with_silence(s, who, length, from)[j]]
            0 <= i < j < with_silence(s, who, length, from).len() ==> with_silence(s, who, length, from)[i].label != with_silence(s, who, length, from)[j].label),
    decreases s.len() - from,
{
    let w = with_silence(s, who, length, from);
    if from >= s.len() {
        assert(w.drop_last() =~= s);
    } else if s[from].label == who {
        lemma_silence_updated(s, from, s[from].length + length, label);
        assert(w =~= s.update(from, SilenceView { label: s[from].label, length: s[from].length + length }));
        if forall|i: int, j: int| #![trigger s[i], s[j]] 0 <= i < j < s.len() ==> s[i].label != s[j].label {
            assert forall|i: int, j: int| #![trigger w[i], w[j]] 0 <= i < j < w.len() implies w[i].label != w[j].label by {
                assert(s[i].label != s[j].label);
            }
        }
    } else {
        silences_add_up(s, who, length, from + 1, label);
    }
}

/// What a closed dropout is: from the beginning of the first stretch to the end
/// of the second, with its recorders and start, the sound of both where it was,
/// and as much silence more as the gap is long.
pub proof fn closed_dropouts_span_both(t: Seq<TrackView>, a: PieceView, b: PieceView, x: int, start: int, gap: int, i: int)
    requires
        0 <= gap,
        forall|k: int| 0 <= k < a.silent.len() ==> 0 <= (#[trigger] a.silent[k]).length,
        forall|k: int| 0 <= k < b.silent.len() ==> 0 <= (#[trigger] b.silent[k]).length,
    ensures
        ({
            let j = joined(t, a, b, x, start, gap);
            &&& j.t0 == a.t0 && j.t1 == b.t1 && j.start_secs == start
            &&& j.stereo == a.stereo && j.left == a.left && j.right == a.right && j.reference == a.reference && j.pair == a.pair
            &&& j.spans.len() == a.spans.len() + b.spans.len()
            &&& 0 <= i < a.spans.len() ==> j.spans[i] == a.spans[i]
            &&& 0 <= i < b.spans.len() ==> j.spans[a.spans.len() + i] == b.spans[i]
            &&& total(j.silent) == total(a.silent) + total(b.silent) + gap
        }),
{
    let n = b.silent.len() as int;
    lemma_with_silences(a.silent, b.silent, n);
    assert(b.silent.take(n) =~= b.silent);
    lemma_with_silence(with_silences(a.silent, b.silent, n), partner(t, a, x), gap, 0);
}

/// Where both stretches were measured, the whole has the mean of their measures,
/// each weighed by its length, rounded down; where one was, it has that one's.
pub proof fn measures_are_weighed(u: int, v: int, da: int, db: int)
    requires
        da >= 0,
        db >= 0,
        da + db > 0,
    ensures
        weighed(Some(u), Some(v), da, db) matches Some(m) && m * (da + db) <= u * da + v * db < (m + 1) * (da + db),
        weighed(Some(u), Some(v), da, db) == weighed(Some(v), Some(u), db, da),
        weighed(Some(u), None, da, db) == Some(u),
        weighed(None, Some(v), da, db) == Some(v),
        weighed(None, None, da, db) is None,
{
    let n = u * da + v * db;
    let d = da + db;
    vstd::arithmetic::div_mod::lemma_fundamental_div_mod(n, d);
    let q = n / d;
    assert(q * d == d * q && (q + 1) * d == d * q + d) by (nonlinear_arith);
}

/// A piece told on the clock of its other track is the same piece: its times,
/// taken back, are what they were to two nanoseconds, its recorders keep their
/// sides, and the track that it was told on before is the second one now.
pub proof fn another_clock_tells_the_same(p: Seq<Pair>, v: PieceView, x: int)
    requires
        v.stereo,
        v.spans.len() == 1,
        v.spans[0].other == x,
        v.reference != x,
        tied(p, v.reference, v.spans[0]),
        p[v.spans[0].pair as int].map.valid(),
        0 <= v.reference <= usize::MAX,
    ensures
        ({
            let r = rebased(p, v, x);
            let q = p[v.spans[0].pair as int];
            &&& r.reference == x && r.spans.len() == 1 && r.spans[0].other == v.reference && r.spans[0].pair == v.spans[0].pair
            &&& r.left == v.left && r.right == v.right && r.start_secs == v.start_secs && r.silent == v.silent
            &&& v.t0 - 2 <= map_time(q, x, r.t0) <= v.t0 + 2
            &&& v.t1 - 2 <= map_time(q, x, r.t1) <= v.t1 + 2
        }),
{
    let q = p[v.spans[0].pair as int];
    lemma_map_back(q, v.reference, x, v.t0);
    lemma_map_back(q, v.reference, x, v.t1);
}

/// A stretch that takes in a lone one behind it ends where that ends; one that
/// takes in a lone one before it begins where that begins, and its time of day
/// moves as far as its beginning, to half a second. The recorders stay, and there
/// is as much silence more as the lone stretch is long.
pub proof fn grown_stretches_reach_as_far(t: Seq<TrackView>, p: Seq<Pair>, v: PieceView, g: PieceView, after: bool)
    requires
        g.t0 <= g.t1,
        forall|k: int| 0 <= k < v.silent.len() ==> 0 <= (#[trigger] v.silent[k]).length,
    ensures
        ({
            let r = grown(t, p, v, g, after);
            let off = (r.start_secs - v.start_secs) * 1_000_000_000 - (r.t0 - v.t0);
            &&& r.stereo == v.stereo && r.left == v.left && r.right == v.right && r.reference == v.reference
            &&& total(r.silent) == total(v.silent) + (g.t1 - g.t0)
            &&& after ==> r.t0 == v.t0 && r.start_secs == v.start_secs
            &&& !after ==> r.t1 == v.t1 && -500_000_000 <= off <= 500_000_000
            &&& v.reference == g.reference && after ==> r.t1 == g.t1 && r.spans == v.spans
            &&& v.reference == g.reference && !after ==> r.t0 == g.t0 && r.spans == v.spans
        }),
{
    lemma_with_silence(v.silent, partner(t, v, g.reference), g.t1 - g.t0, 0);
}

/// Closing dropouts makes no mono piece.
proof fn lemma_closed_monos(t: Seq<TrackView>, p: Seq<Pair>, v: Seq<PieceView>)
    ensures
        forall|i: int| 0 <= i < dropouts_closed(t, p, v).len() && !(#[trigger] dropouts_closed(t, p, v)[i]).stereo ==> v.contains(dropouts_closed(t, p, v)[i]),
    decreases v.len(),
{
    lemma_first_dropout(t, p, v, 0);
    if let Some((g, x, y)) = first_dropout(t, p, v, 0) {
        lemma_closed_up_len(t, p, v, g, x, y);
        let w = closed_up(t, p, v, g, x, y);
        lemma_closed_monos(t, p, w);
        let r = dropouts_closed(t, p, v);
        assert forall|i: int| 0 <= i < r.len() && !(#[trigger] r[i]).stereo implies v.contains(r[i]) by {
            assert(w.contains(r[i]));
            let k = choose|k: int| 0 <= k < w.len() && w[k] == r[i];
            assert(k < w.len() - 1);
            let lo = min(g, min(x, y));
            let hi = max(g, max(x, y));
            let mid = g + x + y - lo - hi;
            let a = v.remove(hi);
            let b = a.remove(mid);
            lemma_removed(b, lo, k);
            let k1 = if k < lo {
                k
            } else {
                k + 1
            };
            lemma_removed(a, mid, k1);
            let k2 = if k1 < mid {
                k1
            } else {
                k1 + 1
            };
            lemma_removed(v, hi, k2);
        }
    } else {
        assert forall|i: int| 0 <= i < v.len() implies v.contains(#[trigger] v[i]) by {}
    }
}

/// Taking in gaps makes no mono piece.
proof fn lemma_taken_monos(t: Seq<TrackView>, p: Seq<Pair>, v: Seq<PieceView>)
    ensures
        forall|i: int| 0 <= i < gaps_taken_in(t, p, v).len() && !(#[trigger] gaps_taken_in(t, p, v)[i]).stereo ==> v.contains(gaps_taken_in(t, p, v)[i]),
    decreases v.len(),
{
    lemma_first_gap(t, p, v, 0);
    if let Some((g, x, after)) = first_gap(t, p, v, 0) {
        let u = v.update(x, grown(t, p, v[x], v[g], after));
        let w = taken_in(t, p, v, g, x, after);
        lemma_taken_monos(t, p, w);
        let r = gaps_taken_in(t, p, v);
        assert forall|i: int| 0 <= i < r.len() && !(#[trigger] r[i]).stereo implies v.contains(r[i]) by {
            assert(w.contains(r[i]));
            let k = choose|k: int| 0 <= k < w.len() && w[k] == r[i];
            lemma_removed(u, g, k);
            let j = if k < g {
                k
            } else {
                k + 1
            };
            assert(u[j] == r[i]);
            assert(j != x);
            assert(v[j] == r[i]);
        }
    } else {
        assert forall|i: int| 0 <= i < v.len() implies v.contains(#[trigger] v[i]) by {}
    }
}

/// Closing dropouts and taking in lone stretches makes no mono piece and changes
/// none: each that is left was there before.
pub proof fn mono_pieces_stay_as_they_are(t: Seq<TrackView>, p: Seq<Pair>, v: Seq<PieceView>, i: int)
    requires
        0 <= i < gaps_taken_in(t, p, dropouts_closed(t, p, v)).len(),
        !gaps_taken_in(t, p, dropouts_closed(t, p, v))[i].stereo,
    ensures
        v.contains(gaps_taken_in(t, p, dropouts_closed(t, p, v))[i]),
{
    let w = dropouts_closed(t, p, v);
    lemma_taken_monos(t, p, w);
    let m = gaps_taken_in(t, p, w)[i];
    assert(w.contains(m));
    lemma_closed_monos(t, p, v);
    let k = choose|k: int| 0 <= k < w.len() && w[k] == m;
    assert(v.contains(w[k]));
}

/// Where a stretch begins or ends on the clock of its other track is the same
/// moment, to two nanoseconds: the first span tells its beginning, the last one
/// its end.
pub proof fn ends_are_told_by_the_outer_spans(p: Seq<Pair>, v: PieceView, x: int)
    requires
        v.spans.len() > 0,
        v.reference != x,
        forall|i: int| 0 <= i < v.spans.len() ==> tied(p, v.reference, #[trigger] v.spans[i]) && p[v.spans[i].pair as int].map.valid(),
    ensures
        start_on(p, v, x) is Some <==> v.spans[0].other == x,
        end_on(p, v, x) is Some <==> v.spans[v.spans.len() - 1].other == x,
        start_on(p, v, x) matches Some(s) ==> v.t0 - 2 <= map_time(p[v.spans[0].pair as int], x, s) <= v.t0 + 2,
        end_on(p, v, x) matches Some(e) ==> v.t1 - 2 <= map_time(p[v.spans[v.spans.len() - 1].pair as int], x, e) <= v.t1 + 2,
        start_on(p, v, v.reference) == Some(v.t0),
        end_on(p, v, v.reference) == Some(v.t1),
{
    assert(tied(p, v.reference, v.spans[0]));
    assert(tied(p, v.reference, v.spans[v.spans.len() - 1]));
    if v.spans[0].other == x {
        lemma_map_back(p[v.spans[0].pair as int], v.reference, x, v.t0);
    }
    if v.spans.last().other == x {
        lemma_map_back(p[v.spans.last().pair as int], v.reference, x, v.t1);
    }
}

/// A stretch that takes in a lone one of its other track reaches as far as that
/// does, on its own clock to two nanoseconds, and so does the sound of that
/// track in it; its other spans stay.
pub proof fn spans_grow_with_their_stretch(t: Seq<TrackView>, p: Seq<Pair>, v: PieceView, g: PieceView, i: int)
    requires
        plannable(t, p),
        piece_ok(t, p, v),
        v.stereo,
        v.reference != g.reference,
        -MONO_LIMIT <= g.t0 <= g.t1 <= MONO_LIMIT,
        0 <= i < v.spans.len(),
    ensures
        v.spans[v.spans.len() - 1].other == g.reference ==> ({
            let r = grown(t, p, v, g, true);
            let n = v.spans.len() - 1;
            &&& g.t1 - 2 <= map_time(p[v.spans[n].pair as int], v.reference, r.t1) <= g.t1 + 2
            &&& r.spans.len() == v.spans.len()
            &&& r.spans[n].t1 == r.t1 && r.spans[n].t0 == v.spans[n].t0 && r.spans[n].other == v.spans[n].other && r.spans[n].pair == v.spans[n].pair
            &&& i != n ==> r.spans[i] == v.spans[i]
        }),
        v.spans[0].other == g.reference ==> ({
            let r = grown(t, p, v, g, false);
            &&& g.t0 - 2 <= map_time(p[v.spans[0].pair as int], v.reference, r.t0) <= g.t0 + 2
            &&& r.spans.len() == v.spans.len()
            &&& r.spans[0].t0 == r.t0 && r.spans[0].t1 == v.spans[0].t1 && r.spans[0].other == v.spans[0].other && r.spans[0].pair == v.spans[0].pair
            &&& i != 0 ==> r.spans[i] == v.spans[i]
        }),
{
    let n = v.spans.len() - 1;
    assert(tied(p, v.reference, v.spans[0]));
    assert(tied(p, v.reference, v.spans[n]));
    let q0 = p[v.spans[0].pair as int];
    let q1 = p[v.spans[n].pair as int];
    assert(fit_pair(t, q0));
    assert(fit_pair(t, q1));
    if v.spans[n].other == g.reference {
        lemma_map_back(q1, g.reference, v.reference, g.t1);
        lemma_map_bound(q1, g.reference, g.t1, MONO_LIMIT as int);
    }
    if v.spans[0].other == g.reference {
        lemma_map_back(q0, g.reference, v.reference, g.t0);
        lemma_map_bound(q0, g.reference, g.t0, MONO_LIMIT as int);
    }
}

proof fn lemma_silences_add_up(s: Seq<SilenceView>, more: Seq<SilenceView>, n: int, label: Seq<char>)
    requires
        0 <= n <= more.len(),
    ensures
        silence_of(with_silences(s, more, n), label) == silence_of(s, label) + silence_of(more.take(n), label),
    decreases n,
{
    if n > 0 {
        lemma_silences_add_up(s, more, n - 1, label);
        silences_add_up(with_silences(s, more, n - 1), more[n - 1].label, more[n - 1].length, 0, label);
        assert(more.take(n).drop_last() =~= more.take(n - 1));
    } else {
        assert(more.take(0) =~= Seq::<SilenceView>::empty());
    }
}

/// The silence of a gap counts for the recorder that was off and for no other,
/// besides what the stretches on either side had; and a stretch that takes in a
/// lone one has as much silence more of the recorder that was off.
pub proof fn silence_is_of_the_recorder_that_was_off(t: Seq<TrackView>, p: Seq<Pair>, a: PieceView, b: PieceView, g: PieceView, x: int, start: int, gap: int, after: bool, label: Seq<char>)
    requires
        a.right is Some,
        t[a.left].label != t[a.right->0].label,
        t[x].label == t[a.left].label || t[x].label == t[a.right->0].label,
        t[g.reference].label == t[x].label,
        label == t[a.left].label || label == t[a.right->0].label,
    ensures
        silence_of(joined(t, a, b, x, start, gap).silent, label) == silence_of(a.silent, label) + silence_of(b.silent, label) + (if label
            == t[x].label {
            0
        } else {
            gap
        }),
        silence_of(grown(t, p, a, g, after).silent, label) == silence_of(a.silent, label) + (if label == t[x].label {
            0
        } else {
            g.t1 - g.t0
        }),
{
    lemma_silences_add_up(a.silent, b.silent, b.silent.len() as int, label);
    assert(b.silent.take(b.silent.len() as int) =~= b.silent);
    let s = with_silences(a.silent, b.silent, b.silent.len() as int);
    silences_add_up(s, partner(t, a, x), gap, 0, label);
    silences_add_up(a.silent, partner(t, a, g.reference), g.t1 - g.t0, 0, label);
}

/// A dropout that is closed makes one piece of three, which begins when the first
/// did; every other piece stays as it was.
pub proof fn closing_leaves_the_others(t: Seq<TrackView>, p: Seq<Pair>, v: Seq<PieceView>, g: int, x: int, y: int, k: int)
    requires
        0 <= g < v.len(),
        0 <= x < v.len(),
        0 <= y < v.len(),
        is_dropout(t, p, v, g, x, y),
        0 <= k < v.len(),
        k != g && k != x && k != y,
    ensures
        ({
            let w = closed_up(t, p, v, g, x, y);
            &&& w.len() == v.len() - 2
            &&& w.contains(v[k])
            &&& w.last().start_secs == v[x].start_secs
            &&& w.last().reference == v[g].reference
            &&& w.last().t0 == rebased(p, v[x], v[g].reference).t0
            &&& w.last().t1 == rebased(p, v[y], v[g].reference).t1
        }),
{
    lemma_closed_up_len(t, p, v, g, x, y);
    let w = closed_up(t, p, v, g, x, y);
    let lo = min(g, min(x, y));
    let hi = max(g, max(x, y));
    let mid = g + x + y - lo - hi;
    assert(lo < mid < hi);
    let at = k - (if k > hi {
        1int
    } else {
        0
    }) - (if k > mid {
        1int
    } else {
        0
    }) - (if k > lo {
        1int
    } else {
        0
    });
    assert(w[at] == v[k]);
}

/// A lone stretch that is taken in goes into the piece it adjoins; every other
/// piece stays as it was.
pub proof fn taking_in_leaves_the_others(t: Seq<TrackView>, p: Seq<Pair>, v: Seq<PieceView>, g: int, x: int, after: bool, k: int)
    requires
        0 <= g < v.len(),
        0 <= x < v.len(),
        0 <= k < v.len(),
        g != x && k != g && k != x,
    ensures
        ({
            let w = taken_in(t, p, v, g, x, after);
            &&& w.len() == v.len() - 1
            &&& w.contains(v[k])
            &&& w.contains(grown(t, p, v[x], v[g], after))
        }),
{
    let w = taken_in(t, p, v, g, x, after);
    let at = if k < g {
        k
    } else {
        k - 1
    };
    let to = if x < g {
        x
    } else {
        x - 1
    };
    assert(w[at] == v[k]);
    assert(w[to] == grown(t, p, v[x], v[g], after));
}

} // verus!
