//! No audio is lost: every time of a track goes into a file, but for rests that
//! are too short for one.

use vstd::prelude::*;

use crate::alignment::{b_time_is_monotone, clocks_run_alike, lemma_a_bound, lemma_b_bound, span_of};
use crate::compare::with_evidence;
use crate::dropouts::{closed_up, dropouts_closed, ends_at, first_dropout, first_gap, gaps_taken_in, grown, is_all_on, is_dropout, is_gap, is_whole_gap, joined, lemma_closed_up_len, lemma_first_dropout, lemma_first_gap, lemma_map_back, lemma_map_bound, lemma_map_pace, map_time, on_piece, outer, rebased, starts_at, taken_in, without, TOLERANCE};
use crate::order::{sorted, sorted_is_sorted};
use crate::pairing::{max, min, timed};
use crate::phases::{all_long, even, frames_bounded, stretches_are_long, stretches_tile, tiled, too_short, uncut, Cutting, Frame, Kind, Ph, HOP};
use crate::plan::{all_monos, between, cand_of, candidates_are_orderly, cands, cands_in, chosen, claim, claims_on, fit_pair, in_claim, in_piece, in_short_rest, monos, no_time_is_lost, pieces, plannable, rest, stereo_piece, tied, winners, within, Cand, Interval, Pair, PieceView, Span, MIN_PIECE, PIECE_LIMIT, STEREO_LIMIT};
use crate::track::{lemma_round_bound, TrackView, SECOND, TIME_LIMIT};

verus! {

/// A time that goes from one clock to another and back may come back so many
/// nanoseconds away.
pub const NEAR: i64 = 8;

/// Half of the shortest file.
const HALF: i64 = 500_000_000;

// ------------------------------------------------------------------ what a piece holds

/// Whether a span holds a time of track `x`, up to a slack.
pub open spec fn span_holds(p: Seq<Pair>, s: Span, x: int, time: int, slack: int) -> bool {
    s.other == x && s.t0 - slack <= map_time(p[s.pair as int], x, time) <= s.t1 + slack
}

/// Whether a piece holds a time of track `x`, up to a slack: on its own clock,
/// or as the other channel.
pub open spec fn holds(p: Seq<Pair>, v: PieceView, x: int, time: int, slack: int) -> bool {
    (v.reference == x && v.t0 - slack <= time <= v.t1 + slack) || (exists|i: int|
        0 <= i < v.spans.len() && span_holds(p, #[trigger] v.spans[i], x, time, slack))
}

/// Whether one of the pieces holds a time of track `x`, to some nanoseconds.
pub open spec fn is_held(p: Seq<Pair>, w: Seq<PieceView>, x: int, time: int) -> bool {
    exists|k: int| 0 <= k < w.len() && holds(p, #[trigger] w[k], x, time, NEAR as int)
}

/// Whether a time of track `x` lies in a rest of the track too short for a file.
pub open spec fn is_short_rest(t: Seq<TrackView>, p: Seq<Pair>, x: int, time: int) -> bool {
    in_short_rest(sorted(claims_on(t, p, winners(t, p), x, winners(t, p).len() as int)), t[x].duration, time)
}

/// Whether every stretch that becomes stereo takes at least a second of both
/// tracks.
pub open spec fn lasting(t: Seq<TrackView>, p: Seq<Pair>) -> bool {
    forall|i: int, x: int|
        #![trigger claim(t, p, winners(t, p)[i], x)]
        0 <= i < winners(t, p).len() ==> (claim(t, p, winners(t, p)[i], x) matches Some((a, b)) ==> a + MIN_PIECE <= b)
}

/// A time that a piece holds is held with more slack too.
proof fn lemma_slack(p: Seq<Pair>, v: PieceView, x: int, time: int, a: int, b: int)
    requires
        holds(p, v, x, time, a),
        a <= b,
    ensures
        holds(p, v, x, time, b),
{
    if !(v.reference == x && v.t0 - a <= time <= v.t1 + a) {
        let i = choose|i: int| 0 <= i < v.spans.len() && span_holds(p, #[trigger] v.spans[i], x, time, a);
        assert(span_holds(p, v.spans[i], x, time, b));
    }
}

/// Whether the spans of a piece are of its pairs.
spec fn spans_ok(t: Seq<TrackView>, p: Seq<Pair>, v: PieceView) -> bool {
    &&& 0 <= v.reference < t.len()
    &&& forall|i: int| 0 <= i < v.spans.len() ==> (#[trigger] v.spans[i]).pair < p.len() && tied(p, v.reference, v.spans[i])
}

// ------------------------------------------------------------------ recorders switched off

/// The slack with which a piece holds times while dropouts are closed.
spec fn slack_of(v: PieceView) -> int {
    if !v.stereo {
        0
    } else if v.spans.len() == 1 {
        2
    } else {
        8
    }
}

/// Whether a piece has the shape that it has while dropouts are closed: its
/// spans fill it, and a mono piece lies inside its track.
spec fn shaped(t: Seq<TrackView>, p: Seq<Pair>, v: PieceView) -> bool {
    &&& spans_ok(t, p, v)
    &&& if v.stereo {
        &&& v.spans.len() > 0
        &&& v.spans[0].t0 == v.t0
        &&& v.spans.last().t1 == v.t1
        &&& v.spans.len() == 1 ==> within(v, STEREO_LIMIT as int) && v.t0 + MIN_PIECE <= v.t1
        &&& forall|i: int| 0 <= i < v.spans.len() ==> v.t0 <= (#[trigger] v.spans[i]).t0 && v.spans[i].t0 + HALF <= v.spans[i].t1 && v.spans[i].t1 <= v.t1
    } else {
        is_whole_gap(t, v) && v.spans.len() == 0
    }
}

/// Whether all pieces have that shape.
spec fn all_shaped(t: Seq<TrackView>, p: Seq<Pair>, v: Seq<PieceView>) -> bool {
    forall|k: int| 0 <= k < v.len() ==> shaped(t, p, #[trigger] v[k])
}

/// Whether one of the pieces holds a time of track `x`, each with its slack.
spec fn listed(p: Seq<Pair>, v: Seq<PieceView>, x: int, time: int) -> bool {
    exists|k: int| 0 <= k < v.len() && holds(p, #[trigger] v[k], x, time, slack_of(v[k]))
}

/// A piece on the clock of its other track is still long.
proof fn lemma_rebased(t: Seq<TrackView>, p: Seq<Pair>, v: PieceView, r: int)
    requires
        plannable(t, p),
        shaped(t, p, v),
        v.stereo,
        is_all_on(v, r),
        v.reference != r,
    ensures
        ({
            let a = rebased(p, v, r);
            &&& a.spans.len() == 1
            &&& a.spans[0].t0 == a.t0
            &&& a.spans[0].t1 == a.t1
            &&& a.t0 + HALF <= a.t1
            &&& a.spans[0].pair == v.spans[0].pair
            &&& a.spans[0].other == v.reference
            &&& tied(p, r, a.spans[0])
        }),
{
    let s = v.spans[0];
    let q = p[s.pair as int];
    assert(fit_pair(t, q));
    assert(tied(p, v.reference, s));
    lemma_map_bound(q, v.reference, v.t0, STEREO_LIMIT as int);
    lemma_map_bound(q, v.reference, v.t1, STEREO_LIMIT as int);
    lemma_map_pace(q, v.reference, v.t0, v.t1);
}

/// What a piece holds, it holds on the clock of its other track.
proof fn lemma_rebased_holds(t: Seq<TrackView>, p: Seq<Pair>, v: PieceView, r: int, x: int, time: int)
    requires
        plannable(t, p),
        shaped(t, p, v),
        v.stereo,
        is_all_on(v, r),
        v.reference != r,
        holds(p, v, x, time, 2),
    ensures
        holds(p, rebased(p, v, r), x, time, 8),
{
    let a = rebased(p, v, r);
    let s = v.spans[0];
    let q = p[s.pair as int];
    assert(fit_pair(t, q));
    assert(tied(p, v.reference, s));
    lemma_rebased(t, p, v, r);
    if v.reference == x && v.t0 - 2 <= time <= v.t1 + 2 {
        if time <= v.t0 {
            lemma_map_pace(q, x, time, v.t0);
        } else {
            lemma_map_pace(q, x, v.t0, time);
        }
        if time <= v.t1 {
            lemma_map_pace(q, x, time, v.t1);
        } else {
            lemma_map_pace(q, x, v.t1, time);
        }
        assert(span_holds(p, a.spans[0], x, time, 8));
    } else {
        let m = map_time(q, r, time);
        assert(span_holds(p, s, x, time, 2));
        lemma_map_back(q, r, v.reference, time);
        if m <= v.t0 {
            lemma_map_pace(q, v.reference, m, v.t0);
        } else {
            lemma_map_pace(q, v.reference, v.t0, m);
        }
        if m <= v.t1 {
            lemma_map_pace(q, v.reference, m, v.t1);
        } else {
            lemma_map_pace(q, v.reference, v.t1, m);
        }
    }
}

/// The pieces around a dropout follow each other.
proof fn lemma_around(t: Seq<TrackView>, p: Seq<Pair>, v: Seq<PieceView>, g: int, x: int, y: int)
    requires
        plannable(t, p),
        all_shaped(t, p, v),
        0 <= g < v.len(),
        0 <= x < v.len(),
        0 <= y < v.len(),
        is_dropout(t, p, v, g, x, y),
    ensures
        ({
            let r = v[g].reference;
            let a = rebased(p, v[x], r);
            let b = rebased(p, v[y], r);
            a.t0 + HALF <= a.t1 && a.t1 < b.t0 && b.t0 + HALF <= b.t1 && a.t1 - TOLERANCE <= v[g].t0 && v[g].t1 <= b.t0 + TOLERANCE
        }),
{
    let r = v[g].reference;
    assert(shaped(t, p, v[g]) && shaped(t, p, v[x]) && shaped(t, p, v[y]));
    if v[x].reference != r {
        lemma_rebased(t, p, v[x], r);
    } else {
        assert(v[x].spans[0].t0 + HALF <= v[x].spans[0].t1);
    }
    if v[y].reference != r {
        lemma_rebased(t, p, v[y], r);
    } else {
        assert(v[y].spans[0].t0 + HALF <= v[y].spans[0].t1);
    }
}

/// A piece on another clock has spans that fill it.
proof fn lemma_rebased_spans(t: Seq<TrackView>, p: Seq<Pair>, v: PieceView, r: int, i: int)
    requires
        plannable(t, p),
        shaped(t, p, v),
        v.stereo,
        is_all_on(v, r),
        0 <= i < rebased(p, v, r).spans.len(),
    ensures
        ({
            let a = rebased(p, v, r);
            let s = a.spans[i];
            &&& s.pair < p.len()
            &&& tied(p, r, s)
            &&& a.t0 <= s.t0
            &&& s.t0 + HALF <= s.t1
            &&& s.t1 <= a.t1
        }),
{
    if v.reference != r {
        lemma_rebased(t, p, v, r);
        assert(v.spans[0].pair < p.len());
    } else {
        assert(v.spans[i].pair < p.len());
        assert(v.t0 <= v.spans[i].t0);
    }
}

/// A closed dropout has the shape.
proof fn lemma_joined_shaped(t: Seq<TrackView>, p: Seq<Pair>, v: Seq<PieceView>, g: int, x: int, y: int)
    requires
        plannable(t, p),
        all_shaped(t, p, v),
        0 <= g < v.len(),
        0 <= x < v.len(),
        0 <= y < v.len(),
        is_dropout(t, p, v, g, x, y),
    ensures
        ({
            let r = v[g].reference;
            let j = joined(t, rebased(p, v[x], r), rebased(p, v[y], r), r, v[x].start_secs, v[g].t1 - v[g].t0);
            j.stereo && j.reference == r && j.spans.len() > 1 && shaped(t, p, j)
        }),
{
    let r = v[g].reference;
    let a = rebased(p, v[x], r);
    let b = rebased(p, v[y], r);
    let j = joined(t, a, b, r, v[x].start_secs, v[g].t1 - v[g].t0);
    assert(shaped(t, p, v[g]) && shaped(t, p, v[x]) && shaped(t, p, v[y]));
    lemma_around(t, p, v, g, x, y);
    let n = a.spans.len() as int;
    if v[x].reference != r {
        lemma_rebased(t, p, v[x], r);
    }
    if v[y].reference != r {
        lemma_rebased(t, p, v[y], r);
    }
    assert forall|i: int| 0 <= i < j.spans.len() implies (#[trigger] j.spans[i]).pair < p.len() && tied(p, r, j.spans[i]) && j.t0 <= j.spans[i].t0
        && j.spans[i].t0 + HALF <= j.spans[i].t1 && j.spans[i].t1 <= j.t1 by {
        if i < n {
            assert(j.spans[i] == a.spans[i]);
            lemma_rebased_spans(t, p, v[x], r, i);
        } else {
            assert(j.spans[i] == b.spans[i - n]);
            lemma_rebased_spans(t, p, v[y], r, i - n);
        }
    }
    assert(j.spans[0] == a.spans[0]);
    assert(j.spans.last() == b.spans.last());
}

/// A closed dropout holds what its pieces held.
proof fn lemma_joined_holds(t: Seq<TrackView>, p: Seq<Pair>, v: Seq<PieceView>, g: int, x: int, y: int, k: int, z: int, time: int)
    requires
        plannable(t, p),
        all_shaped(t, p, v),
        0 <= g < v.len(),
        0 <= x < v.len(),
        0 <= y < v.len(),
        is_dropout(t, p, v, g, x, y),
        k == g || k == x || k == y,
        holds(p, v[k], z, time, slack_of(v[k])),
    ensures
        ({
            let r = v[g].reference;
            holds(p, joined(t, rebased(p, v[x], r), rebased(p, v[y], r), r, v[x].start_secs, v[g].t1 - v[g].t0), z, time, 8)
        }),
{
    let r = v[g].reference;
    let a = rebased(p, v[x], r);
    let b = rebased(p, v[y], r);
    let j = joined(t, a, b, r, v[x].start_secs, v[g].t1 - v[g].t0);
    assert(shaped(t, p, v[g]) && shaped(t, p, v[x]) && shaped(t, p, v[y]));
    lemma_around(t, p, v, g, x, y);
    let n = a.spans.len() as int;
    if k == g {
        assert(v[g].spans.len() == 0);
        assert(v[g].reference == z && v[g].t0 <= time <= v[g].t1);
    } else {
        let c = if k == x {
            a
        } else {
            b
        };
        if v[k].reference == r {
            lemma_slack(p, v[k], z, time, slack_of(v[k]), 8);
        } else {
            lemma_rebased_holds(t, p, v[k], r, z, time);
        }
        assert(holds(p, c, z, time, 8));
        if !(c.reference == z && c.t0 - 8 <= time <= c.t1 + 8) {
            let i = choose|i: int| 0 <= i < c.spans.len() && span_holds(p, #[trigger] c.spans[i], z, time, 8);
            if k == x {
                assert(j.spans[i] == a.spans[i]);
            } else {
                assert(j.spans[n + i] == b.spans[i]);
            }
        }
    }
}

/// Where a piece stands after three others were removed.
proof fn lemma_without(v: Seq<PieceView>, g: int, x: int, y: int, k: int) -> (m: int)
    requires
        0 <= g < v.len(),
        0 <= x < v.len(),
        0 <= y < v.len(),
        0 <= k < v.len(),
        g != x,
        g != y,
        x != y,
        k != g,
        k != x,
        k != y,
    ensures
        0 <= m < without(v, g, x, y).len(),
        without(v, g, x, y)[m] == v[k],
{
    let lo = min(g, min(x, y));
    let hi = max(g, max(x, y));
    let mid = g + x + y - lo - hi;
    let k1 = if k < hi {
        k
    } else {
        k - 1
    };
    let k2 = if k1 < mid {
        k1
    } else {
        k1 - 1
    };
    let k3 = if k2 < lo {
        k2
    } else {
        k2 - 1
    };
    assert(v.remove(hi)[k1] == v[k]);
    assert(v.remove(hi).remove(mid)[k2] == v[k]);
    k3
}

/// What is left after removing pieces has the shape.
proof fn lemma_without_shaped(t: Seq<TrackView>, p: Seq<Pair>, v: Seq<PieceView>, g: int, x: int, y: int)
    requires
        all_shaped(t, p, v),
        0 <= g < v.len(),
        0 <= x < v.len(),
        0 <= y < v.len(),
        g != x,
        g != y,
        x != y,
    ensures
        all_shaped(t, p, without(v, g, x, y)),
{
    let lo = min(g, min(x, y));
    let hi = max(g, max(x, y));
    let mid = g + x + y - lo - hi;
    let r1 = v.remove(hi);
    let r2 = r1.remove(mid);
    let r3 = r2.remove(lo);
    assert forall|k: int| 0 <= k < r1.len() implies shaped(t, p, #[trigger] r1[k]) by {
        assert(r1[k] == v[if k < hi { k } else { k + 1 }]);
    }
    assert forall|k: int| 0 <= k < r2.len() implies shaped(t, p, #[trigger] r2[k]) by {
        assert(r2[k] == r1[if k < mid { k } else { k + 1 }]);
    }
    assert forall|k: int| 0 <= k < r3.len() implies shaped(t, p, #[trigger] r3[k]) by {
        assert(r3[k] == r2[if k < lo { k } else { k + 1 }]);
    }
}

/// Closing all dropouts loses no time.
proof fn lemma_closing(t: Seq<TrackView>, p: Seq<Pair>, v: Seq<PieceView>, z: int, time: int)
    requires
        plannable(t, p),
        all_shaped(t, p, v),
        listed(p, v, z, time),
    ensures
        all_shaped(t, p, dropouts_closed(t, p, v)),
        listed(p, dropouts_closed(t, p, v), z, time),
    decreases v.len(),
{
    lemma_first_dropout(t, p, v, 0);
    if let Some((g, x, y)) = first_dropout(t, p, v, 0) {
        lemma_closed_up_len(t, p, v, g, x, y);
        let w = closed_up(t, p, v, g, x, y);
        let rest = without(v, g, x, y);
        lemma_joined_shaped(t, p, v, g, x, y);
        lemma_without_shaped(t, p, v, g, x, y);
        assert forall|k: int| 0 <= k < w.len() implies shaped(t, p, #[trigger] w[k]) by {
            if k < rest.len() {
                assert(w[k] == rest[k]);
            }
        }
        let k = choose|k: int| 0 <= k < v.len() && holds(p, #[trigger] v[k], z, time, slack_of(v[k]));
        if k == g || k == x || k == y {
            lemma_joined_holds(t, p, v, g, x, y, k, z, time);
            let m = rest.len() as int;
            assert(holds(p, w[m], z, time, slack_of(w[m])));
        } else {
            let m = lemma_without(v, g, x, y, k);
            assert(w[m] == v[k]);
            assert(holds(p, w[m], z, time, slack_of(w[m])));
        }
        lemma_closing(t, p, w, z, time);
    }
}

// ------------------------------------------------------------------ one recorder alone

/// Whether a piece has the shape that it has while gaps are taken in: its spans
/// lie inside it, and the outer ones reach to its ends.
spec fn grounded(t: Seq<TrackView>, p: Seq<Pair>, v: PieceView) -> bool {
    &&& spans_ok(t, p, v)
    &&& if v.stereo {
        &&& v.spans.len() > 0
        &&& v.t0 + HALF <= v.spans[0].t1
        &&& v.spans.last().t0 + HALF <= v.t1
        &&& forall|i: int| 0 <= i < v.spans.len() ==> v.t0 <= (#[trigger] v.spans[i]).t0 && v.spans[i].t1 <= v.t1
    } else {
        is_whole_gap(t, v) && v.spans.len() == 0
    }
}

/// Whether all pieces have that shape.
spec fn all_grounded(t: Seq<TrackView>, p: Seq<Pair>, v: Seq<PieceView>) -> bool {
    forall|k: int| 0 <= k < v.len() ==> grounded(t, p, #[trigger] v[k])
}

/// The slack with which a piece holds times while gaps are taken in.
spec fn loose(v: PieceView) -> int {
    if v.stereo {
        8
    } else {
        0
    }
}

/// Whether one of the pieces holds a time of track `x`, each with its slack.
spec fn kept(p: Seq<Pair>, v: Seq<PieceView>, x: int, time: int) -> bool {
    exists|k: int| 0 <= k < v.len() && holds(p, #[trigger] v[k], x, time, loose(v[k]))
}

/// Where the ends of a gap lie on the clock of the piece that it adjoins.
proof fn lemma_adjoins(t: Seq<TrackView>, p: Seq<Pair>, v: PieceView, g: PieceView, after: bool)
    requires
        plannable(t, p),
        grounded(t, p, v),
        grounded(t, p, g),
        v.stereo,
        is_gap(g),
        if after {
            ends_at(t, p, v, g)
        } else {
            starts_at(p, v, g)
        },
    ensures
        ({
            let x = g.reference;
            let a = on_piece(p, v, x, g.t0, after);
            let b = on_piece(p, v, x, g.t1, after);
            &&& i64::MIN <= a <= b <= i64::MAX
            &&& after ==> v.t1 <= b && v.t1 <= a + 2 * TOLERANCE
            &&& !after ==> a <= v.t0 && b <= v.t0 + 2 * TOLERANCE
        }),
{
    let x = g.reference;
    assert(timed(t[x]));
    lemma_round_bound(t[x].frames, t[x].info.sample_rate);
    if v.reference != x {
        let s = v.spans[outer(v, after)];
        let q = p[s.pair as int];
        assert(s.pair < p.len() && tied(p, v.reference, s));
        assert(fit_pair(t, q));
        lemma_map_bound(q, x, g.t0, TIME_LIMIT as int);
        lemma_map_bound(q, x, g.t1, TIME_LIMIT as int);
        lemma_map_pace(q, x, g.t0, g.t1);
        if after {
            let e = map_time(q, v.reference, v.t1);
            lemma_map_back(q, v.reference, x, v.t1);
            if g.t0 <= e {
                lemma_map_pace(q, x, g.t0, e);
            } else {
                lemma_map_pace(q, x, e, g.t0);
            }
            lemma_map_pace(q, x, e, g.t1);
        } else {
            let b = map_time(q, v.reference, v.t0);
            lemma_map_back(q, v.reference, x, v.t0);
            if g.t1 <= b {
                lemma_map_pace(q, x, g.t1, b);
            } else {
                lemma_map_pace(q, x, b, g.t1);
            }
            lemma_map_pace(q, x, g.t0, b);
        }
    }
}

/// A grown piece keeps its shape.
proof fn lemma_grown(t: Seq<TrackView>, p: Seq<Pair>, v: PieceView, g: PieceView, after: bool)
    requires
        plannable(t, p),
        grounded(t, p, v),
        grounded(t, p, g),
        v.stereo,
        is_gap(g),
        if after {
            ends_at(t, p, v, g)
        } else {
            starts_at(p, v, g)
        },
    ensures
        grounded(t, p, grown(t, p, v, g, after)),
        grown(t, p, v, g, after).stereo,
{
    lemma_adjoins(t, p, v, g, after);
    let w = grown(t, p, v, g, after);
    assert(v.t0 <= v.spans[0].t0 && v.spans.last().t1 <= v.t1);
    assert forall|i: int| 0 <= i < w.spans.len() implies (#[trigger] w.spans[i]).pair < p.len() && tied(p, w.reference, w.spans[i]) && w.t0 <= w.spans[i].t0
        && w.spans[i].t1 <= w.t1 by {
        assert(v.spans[i].pair < p.len() && tied(p, v.reference, v.spans[i]) && v.t0 <= v.spans[i].t0);
    }
}

/// A grown piece holds what it held, and the gap.
proof fn lemma_grown_holds(t: Seq<TrackView>, p: Seq<Pair>, v: PieceView, g: PieceView, after: bool, z: int, time: int)
    requires
        plannable(t, p),
        grounded(t, p, v),
        grounded(t, p, g),
        v.stereo,
        is_gap(g),
        if after {
            ends_at(t, p, v, g)
        } else {
            starts_at(p, v, g)
        },
    ensures
        holds(p, v, z, time, 8) ==> holds(p, grown(t, p, v, g, after), z, time, 8),
        holds(p, g, z, time, 0) ==> holds(p, grown(t, p, v, g, after), z, time, 8),
{
    lemma_adjoins(t, p, v, g, after);
    let w = grown(t, p, v, g, after);
    let x = g.reference;
    if holds(p, v, z, time, 8) && !(v.reference == z && v.t0 - 8 <= time <= v.t1 + 8) {
        let i = choose|i: int| 0 <= i < v.spans.len() && span_holds(p, #[trigger] v.spans[i], z, time, 8);
        assert(v.t0 <= v.spans[i].t0 && v.spans[i].t1 <= v.t1);
        assert(span_holds(p, w.spans[i], z, time, 8));
    }
    if holds(p, g, z, time, 0) {
        assert(z == x && g.t0 <= time <= g.t1);
        if v.reference != x {
            let i = outer(v, after);
            let q = p[v.spans[i].pair as int];
            assert(v.spans[i].pair < p.len());
            assert(fit_pair(t, q));
            lemma_map_pace(q, x, g.t0, time);
            lemma_map_pace(q, x, time, g.t1);
            assert(span_holds(p, w.spans[i], z, time, 8));
        } else {
            assert(v.t0 <= v.spans[0].t0 && v.spans[0].t1 <= v.t1);
        }
    }
}

/// Taking in all gaps loses no time.
proof fn lemma_taking_in(t: Seq<TrackView>, p: Seq<Pair>, v: Seq<PieceView>, z: int, time: int)
    requires
        plannable(t, p),
        all_grounded(t, p, v),
        kept(p, v, z, time),
    ensures
        kept(p, gaps_taken_in(t, p, v), z, time),
    decreases v.len(),
{
    lemma_first_gap(t, p, v, 0);
    if let Some((g, x, after)) = first_gap(t, p, v, 0) {
        assert(grounded(t, p, v[g]) && grounded(t, p, v[x]));
        let m = grown(t, p, v[x], v[g], after);
        let u = v.update(x, m);
        let w = taken_in(t, p, v, g, x, after);
        lemma_grown(t, p, v[x], v[g], after);
        lemma_grown_holds(t, p, v[x], v[g], after, z, time);
        assert forall|k: int| 0 <= k < u.len() implies grounded(t, p, #[trigger] u[k]) by {
            if k != x {
                assert(u[k] == v[k]);
            }
        }
        assert forall|k: int| 0 <= k < w.len() implies grounded(t, p, #[trigger] w[k]) by {
            assert(w[k] == u[if k < g { k } else { k + 1 }]);
        }
        let k = choose|k: int| 0 <= k < v.len() && holds(p, #[trigger] v[k], z, time, loose(v[k]));
        let n = if k == g {
            x
        } else {
            k
        };
        assert(holds(p, u[n], z, time, loose(u[n])));
        let i = if n < g {
            n
        } else {
            n - 1
        };
        assert(w[i] == u[n]);
        lemma_taking_in(t, p, w, z, time);
    }
}

// ------------------------------------------------------------------ the pieces to begin with

/// Rests worth a file lie inside their track.
proof fn lemma_between(t: Seq<TrackView>, p: Seq<Pair>, x: int, c: Seq<Interval>, k: int, pos: int)
    requires
        0 <= k <= c.len(),
        0 <= pos,
        forall|j: int| 0 <= j < c.len() ==> (#[trigger] c[j]).start <= t[x].duration,
    ensures
        forall|i: int|
            0 <= i < between(t, p, x, c, k, pos).len() ==> {
                let v = #[trigger] between(t, p, x, c, k, pos)[i];
                !v.stereo && v.reference == x && v.spans.len() == 0 && is_whole_gap(t, v)
            },
    decreases c.len() - k,
{
    if k < c.len() {
        lemma_between(t, p, x, c, k + 1, max(pos, c[k].end as int));
        let a = rest(t, p, x, pos, c[k].start as int);
        let b = between(t, p, x, c, k + 1, max(pos, c[k].end as int));
        let all = between(t, p, x, c, k, pos);
        assert forall|i: int| 0 <= i < all.len() implies {
            let v = #[trigger] all[i];
            !v.stereo && v.reference == x && v.spans.len() == 0 && is_whole_gap(t, v)
        } by {
            if i < a.len() {
                assert(all[i] == a[i]);
            } else {
                assert(all[i] == b[i - a.len()]);
            }
        }
    }
}

/// A taken time is one that a stretch takes.
proof fn lemma_claims_from(t: Seq<TrackView>, p: Seq<Pair>, s: Seq<Cand>, x: int, n: int, m: int) -> (i: int)
    requires
        plannable(t, p),
        0 <= x < t.len(),
        0 <= n <= s.len(),
        all_bounded(p, s),
        0 <= m < claims_on(t, p, s, x, n).len(),
    ensures
        0 <= i < n,
        claim(t, p, s[i], x) == Some((claims_on(t, p, s, x, n)[m].start as int, claims_on(t, p, s, x, n)[m].end as int)),
    decreases n,
{
    let a = claims_on(t, p, s, x, n - 1);
    if m < a.len() {
        assert(claims_on(t, p, s, x, n)[m] == a[m]);
        lemma_claims_from(t, p, s, x, n - 1, m)
    } else {
        let c = s[n - 1];
        let q = p[c.pair as int];
        assert(bounded(p, c));
        assert(fit_pair(t, q));
        assert(timed(t[x]));
        lemma_round_bound(t[x].frames, t[x].info.sample_rate);
        lemma_b_bound(q.map, c.t0 as int, STEREO_LIMIT as int);
        lemma_b_bound(q.map, c.t1 as int, STEREO_LIMIT as int);
        n - 1
    }
}

/// The pieces of a track are among those of all tracks.
proof fn lemma_all_monos(t: Seq<TrackView>, p: Seq<Pair>, s: Seq<Cand>, n: int, x: int, i: int) -> (k: int)
    requires
        0 <= x < n,
        0 <= i < monos(t, p, s, x).len(),
    ensures
        0 <= k < all_monos(t, p, s, n).len(),
        all_monos(t, p, s, n)[k] == monos(t, p, s, x)[i],
    decreases n,
{
    let a = all_monos(t, p, s, n - 1);
    if x == n - 1 {
        assert(all_monos(t, p, s, n)[a.len() + i] == monos(t, p, s, x)[i]);
        a.len() + i
    } else {
        let k = lemma_all_monos(t, p, s, n - 1, x, i);
        assert(all_monos(t, p, s, n)[k] == a[k]);
        k
    }
}

/// The pieces of all tracks have the shape.
proof fn lemma_all_monos_shaped(t: Seq<TrackView>, p: Seq<Pair>, s: Seq<Cand>, n: int)
    requires
        0 <= n <= t.len(),
        forall|x: int, j: int|
            0 <= x < t.len() && 0 <= j < sorted(claims_on(t, p, s, x, s.len() as int)).len() ==> (#[trigger] sorted(claims_on(t, p, s, x, s.len() as int))[j]).start
                <= t[x].duration,
    ensures
        all_shaped(t, p, all_monos(t, p, s, n)),
    decreases n,
{
    if n > 0 {
        lemma_all_monos_shaped(t, p, s, n - 1);
        let a = all_monos(t, p, s, n - 1);
        let b = monos(t, p, s, n - 1);
        let c = sorted(claims_on(t, p, s, n - 1, s.len() as int));
        lemma_between(t, p, n - 1, c, 0, 0);
        let all = all_monos(t, p, s, n);
        assert forall|k: int| 0 <= k < all.len() implies shaped(t, p, #[trigger] all[k]) by {
            if k < a.len() {
                assert(all[k] == a[k]);
            } else {
                assert(all[k] == b[k - a.len()]);
            }
        }
    }
}

/// Whether a stretch is of a pair and lies within bounds.
spec fn bounded(p: Seq<Pair>, c: Cand) -> bool {
    c.pair < p.len() && -STEREO_LIMIT <= c.t0 <= STEREO_LIMIT && -STEREO_LIMIT <= c.t1 <= STEREO_LIMIT
}

/// Whether all stretches are so.
spec fn all_bounded(p: Seq<Pair>, s: Seq<Cand>) -> bool {
    forall|k: int| 0 <= k < s.len() ==> bounded(p, #[trigger] s[k])
}

/// The stretch that a phase makes lies within bounds.
proof fn lemma_cand(t: Seq<TrackView>, p: Seq<Pair>, k: int, i: int)
    requires
        plannable(t, p),
        0 <= k < p.len() <= usize::MAX,
        0 <= i < p[k].phases@.len(),
    ensures
        bounded(p, cand_of(t, p, k, i)),
{
    let q = p[k];
    assert(fit_pair(t, q));
    assert(timed(t[q.a as int]) && timed(t[q.b as int]));
    lemma_round_bound(t[q.a as int].frames, t[q.a as int].info.sample_rate);
    lemma_round_bound(t[q.b as int].frames, t[q.b as int].info.sample_rate);
    lemma_a_bound(q.map, 0, 0);
    lemma_a_bound(q.map, t[q.b as int].duration, TIME_LIMIT as int);
    assert(-PIECE_LIMIT <= q.phases@[i].start <= PIECE_LIMIT);
}

/// The stretches of a pair lie within bounds.
proof fn lemma_cands_in(t: Seq<TrackView>, p: Seq<Pair>, k: int, n: int)
    requires
        plannable(t, p),
        0 <= k < p.len() <= usize::MAX,
        0 <= n <= p[k].phases@.len(),
    ensures
        all_bounded(p, cands_in(t, p, k, n)),
    decreases n,
{
    if n > 0 {
        lemma_cands_in(t, p, k, n - 1);
        lemma_cand(t, p, k, n - 1);
    }
}

/// The stretches of the pairs lie within bounds.
proof fn lemma_cands(t: Seq<TrackView>, p: Seq<Pair>, m: int)
    requires
        plannable(t, p),
        0 <= m <= p.len() <= usize::MAX,
    ensures
        all_bounded(p, cands(t, p, m)),
    decreases m,
{
    if m > 0 {
        lemma_cands(t, p, m - 1);
        lemma_cands_in(t, p, m - 1, p[m - 1].phases@.len() as int);
    }
}

/// The chosen stretches lie within bounds.
proof fn lemma_chosen(t: Seq<TrackView>, p: Seq<Pair>, c: Seq<Cand>, n: int)
    requires
        0 <= n <= c.len(),
        all_bounded(p, c),
    ensures
        all_bounded(p, chosen(t, p, c, n)),
    decreases n,
{
    if n > 0 {
        lemma_chosen(t, p, c, n - 1);
        assert(bounded(p, c[n - 1]));
    }
}

/// The stretches that become stereo lie within bounds.
proof fn lemma_winners(t: Seq<TrackView>, p: Seq<Pair>)
    requires
        plannable(t, p),
        p.len() <= usize::MAX,
    ensures
        all_bounded(p, winners(t, p)),
{
    let all = cands(t, p, p.len() as int);
    let c = sorted(all);
    lemma_cands(t, p, p.len() as int);
    candidates_are_orderly(all);
    sorted_is_sorted(all);
    let q = choose|q: Seq<int>| #[trigger] crate::order::arranged(all, c, q) && (crate::order::orderly(all) ==> crate::order::in_order(all, q));
    assert forall|k: int| 0 <= k < c.len() implies bounded(p, #[trigger] c[k]) by {
        assert(c[k] == all[q[k]]);
    }
    lemma_chosen(t, p, c, c.len() as int);
}

/// A taken time is one that a winner takes.
proof fn lemma_sorted_claim(t: Seq<TrackView>, p: Seq<Pair>, x: int, j: int) -> (i: int)
    requires
        plannable(t, p),
        p.len() <= usize::MAX,
        0 <= x < t.len(),
        0 <= j < sorted(claims_on(t, p, winners(t, p), x, winners(t, p).len() as int)).len(),
    ensures
        0 <= i < winners(t, p).len(),
        ({
            let c = sorted(claims_on(t, p, winners(t, p), x, winners(t, p).len() as int))[j];
            claim(t, p, winners(t, p)[i], x) == Some((c.start as int, c.end as int))
        }),
{
    let s = winners(t, p);
    let all = claims_on(t, p, s, x, s.len() as int);
    let c = sorted(all);
    sorted_is_sorted(all);
    let q = choose|q: Seq<int>| #[trigger] crate::order::arranged(all, c, q) && (crate::order::orderly(all) ==> crate::order::in_order(all, q));
    assert(c[j] == all[q[j]]);
    lemma_winners(t, p);
    lemma_claims_from(t, p, s, x, s.len() as int, q[j])
}

/// To begin with, the pieces have the shape.
proof fn lemma_pieces_shaped(t: Seq<TrackView>, p: Seq<Pair>)
    requires
        plannable(t, p),
        p.len() <= usize::MAX,
        lasting(t, p),
    ensures
        all_shaped(t, p, pieces(t, p)),
{
    let s = winners(t, p);
    let all = pieces(t, p);
    assert forall|x: int, j: int|
        0 <= x < t.len() && 0 <= j < sorted(claims_on(t, p, s, x, s.len() as int)).len() implies (#[trigger] sorted(claims_on(t, p, s, x, s.len() as int))[j]).start
        <= t[x].duration by {
        let i = lemma_sorted_claim(t, p, x, j);
        assert(claim(t, p, winners(t, p)[i], x) is Some);
    }
    lemma_all_monos_shaped(t, p, s, t.len() as int);
    let m = all_monos(t, p, s, t.len() as int);
    lemma_winners(t, p);
    assert forall|k: int| 0 <= k < all.len() implies shaped(t, p, #[trigger] all[k]) by {
        if k < s.len() {
            let v = all[k];
            assert(bounded(p, s[k]));
            assert(v == stereo_piece(t, p, s[k]));
            let q = p[s[k].pair as int];
            assert(fit_pair(t, q));
            assert(claim(t, p, winners(t, p)[k], q.a as int) is Some);
            assert(v.spans[0].t0 == v.t0);
        } else {
            assert(all[k] == m[k - s.len()]);
        }
    }
}

/// To begin with, every time is in a piece, but for rests too short for one.
proof fn lemma_pieces_listed(t: Seq<TrackView>, p: Seq<Pair>, x: int, time: int)
    requires
        plannable(t, p),
        p.len() <= usize::MAX,
        0 <= x < t.len(),
        0 <= time < t[x].duration,
        !is_short_rest(t, p, x, time),
    ensures
        listed(p, pieces(t, p), x, time),
{
    let s = winners(t, p);
    let c = sorted(claims_on(t, p, s, x, s.len() as int));
    let all = pieces(t, p);
    no_time_is_lost(t, p, s, x, time);
    lemma_winners(t, p);
    if in_claim(c, time) {
        let j = choose|j: int| 0 <= j < c.len() && (#[trigger] c[j]).start <= time < c[j].end;
        let i = lemma_sorted_claim(t, p, x, j);
        let v = stereo_piece(t, p, s[i]);
        assert(all[i] == v);
        let q = p[s[i].pair as int];
        assert(bounded(p, s[i]));
        assert(fit_pair(t, q));
        if x != q.a {
            let b0 = map_time(q, q.a as int, v.t0);
            let b1 = map_time(q, q.a as int, v.t1);
            lemma_map_back(q, q.a as int, x, v.t0);
            lemma_map_back(q, q.a as int, x, v.t1);
            lemma_map_pace(q, x, b0, time);
            lemma_map_pace(q, x, time, b1);
            assert(span_holds(p, v.spans[0], x, time, 2));
        }
        assert(holds(p, all[i], x, time, slack_of(all[i])));
    } else {
        let i = choose|i: int| 0 <= i < monos(t, p, s, x).len() && in_piece(#[trigger] monos(t, p, s, x)[i], time);
        let k = lemma_all_monos(t, p, s, t.len() as int, x, i);
        let m = all_monos(t, p, s, t.len() as int);
        assert(all[s.len() + k] == m[k]);
        lemma_mono_of(t, p, s, x, i);
        assert(holds(p, all[s.len() + k], x, time, slack_of(all[s.len() + k])));
    }
}

/// A mono piece is of its track.
proof fn lemma_mono_of(t: Seq<TrackView>, p: Seq<Pair>, s: Seq<Cand>, x: int, i: int)
    requires
        0 <= i < monos(t, p, s, x).len(),
    ensures
        monos(t, p, s, x)[i].reference == x,
        !monos(t, p, s, x)[i].stereo,
{
    lemma_between_of(t, p, x, sorted(claims_on(t, p, s, x, s.len() as int)), 0, 0, i);
}

/// A rest is of its track.
proof fn lemma_between_of(t: Seq<TrackView>, p: Seq<Pair>, x: int, c: Seq<Interval>, k: int, pos: int, i: int)
    requires
        0 <= k <= c.len(),
        0 <= i < between(t, p, x, c, k, pos).len(),
    ensures
        between(t, p, x, c, k, pos)[i].reference == x,
        !between(t, p, x, c, k, pos)[i].stereo,
    decreases c.len() - k,
{
    if k < c.len() {
        let a = rest(t, p, x, pos, c[k].start as int);
        if i >= a.len() {
            lemma_between_of(t, p, x, c, k + 1, max(pos, c[k].end as int), i - a.len());
        }
    }
}

// ------------------------------------------------------------------ the law

/// No audio is lost: every time of a track is held by one of the pieces that
/// become files, to some nanoseconds, unless it lies in a rest of the track too
/// short for a file. The stretches that become stereo take at least a second of
/// both their tracks.
pub proof fn no_audio_is_lost(t: Seq<TrackView>, p: Seq<Pair>, x: int, time: int)
    requires
        plannable(t, p),
        p.len() <= usize::MAX,
        lasting(t, p),
        0 <= x < t.len(),
        0 <= time < t[x].duration,
        !is_short_rest(t, p, x, time),
    ensures
        is_held(p, gaps_taken_in(t, p, dropouts_closed(t, p, pieces(t, p))), x, time),
{
    let v = pieces(t, p);
    lemma_pieces_shaped(t, p);
    lemma_pieces_listed(t, p, x, time);
    lemma_closing(t, p, v, x, time);
    let w = dropouts_closed(t, p, v);
    assert forall|k: int| 0 <= k < w.len() implies grounded(t, p, #[trigger] w[k]) by {
        assert(shaped(t, p, w[k]));
        if w[k].stereo {
            let n = w[k].spans.len() - 1;
            assert(w[k].t0 <= w[k].spans[0].t0 && w[k].t0 <= w[k].spans[n].t0);
        }
    }
    let k = choose|k: int| 0 <= k < w.len() && holds(p, #[trigger] w[k], x, time, slack_of(w[k]));
    lemma_slack(p, w[k], x, time, slack_of(w[k]), loose(w[k]));
    lemma_taking_in(t, p, w, x, time);
    let u = gaps_taken_in(t, p, w);
    let k = choose|k: int| 0 <= k < u.len() && holds(p, #[trigger] u[k], x, time, loose(u[k]));
    lemma_slack(p, u[k], x, time, loose(u[k]), NEAR as int);
}

// ------------------------------------------------------------------ stretches that last

/// Whether the stretches of a pair are those of its time in common: they cover
/// it without gap or overlap, and none is too short unless there is only one.
/// That time is at least two seconds long.
pub open spec fn is_divided(t: Seq<TrackView>, q: Pair, v: Seq<Ph>) -> bool {
    let (s, e) = span_of(q.map, t[q.a as int].duration, t[q.b as int].duration);
    &&& s + 2 * SECOND <= e
    &&& v.len() > 0
    &&& tiled(v)
    &&& v[0].start == s
    &&& v.last().end == e
    &&& v.len() == 1 || all_long(v)
    &&& q.phases@.len() == v.len()
    &&& forall|i: int| 0 <= i < v.len() ==> (#[trigger] q.phases@[i]).start == v[i].start && q.phases@[i].end == v[i].end
}

/// What an analysis does divides a pair: windows that follow each other inside
/// the time in common make stretches, their cuts are moved until none is left,
/// and each stretch becomes a phase.
pub proof fn analysed_pairs_are_divided(t: Seq<TrackView>, q: Pair, f: Seq<Frame>, c: Cutting)
    requires
        fit_pair(t, q),
        timed(t[q.a as int]),
        timed(t[q.b as int]),
        even(f),
        frames_bounded(f),
        ({
            let (s, e) = span_of(q.map, t[q.a as int].duration, t[q.b as int].duration);
            &&& s + 2 * SECOND <= e
            &&& f.len() > 0 ==> s <= f[0].t && f.last().t + HOP <= e
            &&& c.first@ == uncut(f, s, e)
        }),
        c.wf(),
        c.at == c.now@.len(),
        q.phases@.len() == c.now@.len(),
        forall|i: int| 0 <= i < c.now@.len() ==> #[trigger] q.phases@[i] == with_evidence(f, c.now@[i]),
    ensures
        is_divided(t, q, c.now@),
{
    let (s, e) = span_of(q.map, t[q.a as int].duration, t[q.b as int].duration);
    lemma_round_bound(t[q.a as int].frames, t[q.a as int].info.sample_rate);
    lemma_round_bound(t[q.b as int].frames, t[q.b as int].info.sample_rate);
    lemma_a_bound(q.map, 0, 0);
    lemma_a_bound(q.map, t[q.b as int].duration, TIME_LIMIT as int);
    stretches_tile(f, s, e);
    stretches_are_long(f, s, e);
}

/// Stretches that cover a time in sequence lie inside it.
proof fn lemma_inside(v: Seq<Ph>, i: int)
    requires
        tiled(v),
        0 <= i < v.len(),
        forall|k: int| 0 <= k < v.len() ==> (#[trigger] v[k]).start <= v[k].end,
    ensures
        v[0].start <= v[i].start,
    decreases i,
{
    if i > 0 {
        lemma_inside(v, i - 1);
        assert(v[i - 1].end == v[i - 1 + 1].start);
    }
}

/// Stretches that cover a time in sequence end inside it.
proof fn lemma_ends_inside(v: Seq<Ph>, i: int)
    requires
        tiled(v),
        0 <= i < v.len(),
        forall|k: int| 0 <= k < v.len() ==> (#[trigger] v[k]).start <= v[k].end,
    ensures
        v[i].end <= v.last().end,
    decreases v.len() - i,
{
    if i + 1 < v.len() {
        lemma_ends_inside(v, i + 1);
        assert(v[i].end == v[i + 1].start);
    }
}

/// A stretch of a divided pair lies in the time in common for two seconds.
proof fn lemma_divided(t: Seq<TrackView>, q: Pair, v: Seq<Ph>, i: int)
    requires
        is_divided(t, q, v),
        0 <= i < v.len(),
    ensures
        ({
            let (s, e) = span_of(q.map, t[q.a as int].duration, t[q.b as int].duration);
            s <= q.phases@[i].start && q.phases@[i].start + 2 * SECOND <= q.phases@[i].end && q.phases@[i].end <= e
        }),
{
    assert forall|k: int| 0 <= k < v.len() implies (#[trigger] v[k]).start + 2 * SECOND <= v[k].end by {
        if v.len() > 1 {
            assert(!too_short(v[k]));
        }
    }
    lemma_inside(v, i);
    lemma_ends_inside(v, i);
}

/// The stretch that a phase of a divided pair makes takes a second of both
/// tracks.
proof fn lemma_cand_lasts(t: Seq<TrackView>, p: Seq<Pair>, k: int, v: Seq<Ph>, i: int, x: int)
    requires
        plannable(t, p),
        0 <= k < p.len() <= usize::MAX,
        is_divided(t, p[k], v),
        0 <= i < v.len(),
    ensures
        claim(t, p, cand_of(t, p, k, i), x) matches Some((a, b)) ==> a + MIN_PIECE <= b,
{
    let q = p[k];
    let c = cand_of(t, p, k, i);
    let h = q.phases@[i];
    let (da, db) = (t[q.a as int].duration, t[q.b as int].duration);
    assert(fit_pair(t, q));
    assert(timed(t[q.a as int]) && timed(t[q.b as int]));
    lemma_round_bound(t[q.a as int].frames, t[q.a as int].info.sample_rate);
    lemma_round_bound(t[q.b as int].frames, t[q.b as int].info.sample_rate);
    lemma_a_bound(q.map, 0, 0);
    lemma_a_bound(q.map, db, TIME_LIMIT as int);
    lemma_divided(t, q, v, i);
    assert(c.t0 <= h.start && h.end <= c.t1);
    b_time_is_monotone(q.map, c.t0 as int, h.start as int);
    b_time_is_monotone(q.map, h.end as int, c.t1 as int);
    clocks_run_alike(q.map, h.start as int, h.end as int);
    b_time_is_monotone(q.map, q.map.a_time(0), h.start as int);
    b_time_is_monotone(q.map, h.end as int, q.map.a_time(db));
    lemma_map_back(q, q.b as int, q.a as int, 0);
    lemma_map_back(q, q.b as int, q.a as int, db);
}

/// Every stretch that becomes stereo comes from a phase of a pair that is
/// aligned.
proof fn lemma_cands_from(t: Seq<TrackView>, p: Seq<Pair>, m: int, j: int) -> (r: (int, int))
    requires
        0 <= m <= p.len(),
        0 <= j < cands(t, p, m).len(),
    ensures
        0 <= r.0 < m,
        p[r.0].ok,
        0 <= r.1 < p[r.0].phases@.len(),
        cands(t, p, m)[j] == cand_of(t, p, r.0, r.1),
    decreases m,
{
    let a = cands(t, p, m - 1);
    if j < a.len() {
        lemma_cands_from(t, p, m - 1, j)
    } else {
        let i = lemma_cands_in_from(t, p, m - 1, p[m - 1].phases@.len() as int, j - a.len());
        (m - 1, i)
    }
}

/// Every stretch of a pair comes from one of its phases.
proof fn lemma_cands_in_from(t: Seq<TrackView>, p: Seq<Pair>, k: int, n: int, j: int) -> (i: int)
    requires
        0 <= n <= p[k].phases@.len(),
        0 <= j < cands_in(t, p, k, n).len(),
    ensures
        0 <= i < n,
        p[k].ok,
        cands_in(t, p, k, n)[j] == cand_of(t, p, k, i),
    decreases n,
{
    if n > 0 && p[k].ok && p[k].phases@[n - 1].kind == Kind::Together && j == cands_in(t, p, k, n - 1).len() {
        n - 1
    } else {
        lemma_cands_in_from(t, p, k, n - 1, j)
    }
}

/// A chosen stretch is one of those to choose from.
proof fn lemma_chosen_from(t: Seq<TrackView>, p: Seq<Pair>, c: Seq<Cand>, n: int, j: int) -> (i: int)
    requires
        0 <= n <= c.len(),
        0 <= j < chosen(t, p, c, n).len(),
    ensures
        0 <= i < n,
        chosen(t, p, c, n)[j] == c[i],
    decreases n,
{
    if j == chosen(t, p, c, n - 1).len() {
        n - 1
    } else {
        lemma_chosen_from(t, p, c, n - 1, j)
    }
}

/// The stretches that an analysis finds last: where each aligned pair has the
/// stretches of its time in common, every one that becomes stereo takes at least
/// a second of both tracks. `v` are the stretches of each pair.
pub proof fn analysed_stretches_last(t: Seq<TrackView>, p: Seq<Pair>, v: Seq<Seq<Ph>>)
    requires
        plannable(t, p),
        p.len() <= usize::MAX,
        v.len() == p.len(),
        forall|k: int| 0 <= k < p.len() ==> (#[trigger] p[k]).ok ==> is_divided(t, p[k], v[k]),
    ensures
        lasting(t, p),
{
    let w = winners(t, p);
    let all = cands(t, p, p.len() as int);
    let c = sorted(all);
    candidates_are_orderly(all);
    sorted_is_sorted(all);
    let q = choose|q: Seq<int>| #[trigger] crate::order::arranged(all, c, q) && (crate::order::orderly(all) ==> crate::order::in_order(all, q));
    assert forall|i: int, x: int|
        #![trigger claim(t, p, winners(t, p)[i], x)]
        0 <= i < winners(t, p).len() implies (claim(t, p, winners(t, p)[i], x) matches Some((a, b)) ==> a + MIN_PIECE <= b) by {
        let j = lemma_chosen_from(t, p, c, c.len() as int, i);
        assert(c[j] == all[q[j]]);
        let (k, h) = lemma_cands_from(t, p, p.len() as int, q[j]);
        assert(w[i] == cand_of(t, p, k, h));
        lemma_cand_lasts(t, p, k, v[k], h, x);
    }
}

} // verus!
