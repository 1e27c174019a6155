//! What the comparison of two tracks says: whether they share events at one
//! stable offset, and in which stretches they are together.

use vstd::prelude::*;

use crate::alignment::{lag_is_offset_and_drift, span, span_of, Alignment};
use crate::phases::{countable_frames, evidence, weigh, Evidence, Frame, Kind, Ph};
use crate::pairing::{max, min, time_of, timed};
use crate::plan::{fit_evidence, lemma_duration, Pair, Phase};
use crate::track::Track;

verus! {

/// Windows that a stable offset rests on at least.
pub const MIN_WINDOWS: usize = 3;

/// Residual of a stable offset, in nanoseconds, which it stays below.
pub const MAX_RESIDUAL: i64 = 30_000_000;

/// Prominence that the coarse offset needs, in millionths.
pub const MIN_COARSE: i64 = 6_000_000;

/// Seconds by which the starts of compared tracks differ at most.
pub const START_REACH: i64 = 40_000_000;

/// A line through the offsets of windows.
#[derive(Debug, Clone, Copy, PartialEq, Eq, Structural)]
pub struct Fit {
    /// Offset and drift of the clocks.
    pub map: Alignment,
    /// Nanoseconds.
    pub residual: i64,
    /// Windows on the line.
    pub windows: usize,
}

/// What the search for a common offset found.
#[derive(Debug, Clone, Copy)]
pub struct Search {
    /// Prominence of the coarse offset, in millionths.
    pub prominence: i64,
    /// Windows that were looked at.
    pub windows: usize,
    pub fit: Option<Fit>,
}

/// Why two tracks could not be aligned.
#[derive(Debug, Clone, Copy, PartialEq, Eq, Structural)]
pub enum Note {
    TooShort,
    NoEvents,
}

impl Note {
    /// The reason in words.
    pub fn text(&self) -> (r: &'static str)
        ensures
            r@ == match *self {
                Note::TooShort => "zu wenig gemeinsame Aufnahmezeit"@,
                Note::NoEvents => "keine gemeinsamen Ereignisse mit stabilem Versatz"@,
            },
    {
        match *self {
            Note::TooShort => "zu wenig gemeinsame Aufnahmezeit",
            Note::NoEvents => "keine gemeinsamen Ereignisse mit stabilem Versatz",
        }
    }
}

/// A pair and what is noted about it.
#[derive(Debug)]
pub struct Comparison {
    pub pair: Pair,
    pub note: Option<Note>,
}

/// Whether a line is a stable common offset, of clocks that may belong to one
/// event.
pub open spec fn is_stable(s: Search, f: Fit) -> bool {
    f.map.valid() && f.windows >= MIN_WINDOWS && f.residual < MAX_RESIDUAL && s.prominence >= MIN_COARSE
}

/// The line of a search, if it is a stable common offset.
pub open spec fn stable_fit(s: Option<Search>) -> Option<Fit> {
    match s {
        Some(x) => match x.fit {
            Some(f) => if is_stable(x, f) {
                Some(f)
            } else {
                None
            },
            None => None,
        },
        None => None,
    }
}

/// Windows that a search looked at.
pub open spec fn windows_of(s: Option<Search>) -> int {
    match s {
        Some(x) => x.windows as int,
        None => 0,
    }
}

/// Evidence of nothing.
pub open spec fn no_evidence() -> Evidence {
    Evidence { count: 0, hits: 0, measured: 0, coherence: 0 }
}

/// The stretch apart that two tracks have in common by their names alone.
pub open spec fn nominal_phases(map: Alignment, dur_a: int, dur_b: int) -> Seq<Phase> {
    let (s, e) = span_of(map, dur_a, dur_b);
    if e > s {
        seq![Phase { kind: Kind::Apart, start: s as i64, end: e as i64, evidence: no_evidence() }]
    } else {
        Seq::empty()
    }
}

/// Judges what the search for a common offset of tracks `a` and `b` found. With
/// a stable offset the tracks are aligned by it; otherwise they are placed by
/// their start times and are apart.
pub fn judge(tracks: &Vec<Track>, a: usize, b: usize, search: Option<Search>) -> (r: Comparison)
    requires
        a < tracks.len(),
        b < tracks.len(),
        timed(tracks@[a as int]@),
        timed(tracks@[b as int]@),
        -START_REACH <= tracks@[b as int].start_secs - tracks@[a as int].start_secs <= START_REACH,
    ensures
        r.pair.a == a,
        r.pair.b == b,
        r.pair.map.valid(),
        !r.pair.ok ==> forall|t: int| tracks@[a as int].start_secs * 1_000_000_000 + t == tracks@[b as int].start_secs * 1_000_000_000 + #[trigger] r.pair.map.b_time(t),
        search is None ==> r.note == Some(Note::TooShort),
        search matches Some(x) ==> !r.pair.ok ==> (r.note == Some(Note::TooShort) <==> x.windows == 0),
        r.pair.ok <==> r.note is None,
        match stable_fit(search) {
            Some(f) => r.pair.ok && r.pair.map == f.map && r.pair.phases@ == Seq::<Phase>::empty() && r.note is None,
            None => {
                &&& !r.pair.ok
                &&& r.pair.map.offset == (tracks@[b as int].start_secs - tracks@[a as int].start_secs) * 1_000_000_000
                &&& r.pair.map.drift == 0
                &&& r.pair.phases@ == nominal_phases(r.pair.map, tracks@[a as int]@.duration, tracks@[b as int]@.duration)
                &&& r.note == Some(
                    if windows_of(search) == 0 {
                        Note::TooShort
                    } else {
                        Note::NoEvents
                    },
                )
            },
        },
{
    let mut windows: usize = 0;
    if let Some(x) = search {
        windows = x.windows;
        if let Some(f) = x.fit {
            if f.map.is_valid() && f.windows >= MIN_WINDOWS && f.residual < MAX_RESIDUAL && x.prominence >= MIN_COARSE {
                return Comparison { pair: Pair { a, b, ok: true, map: f.map, phases: Vec::new() }, note: None };
            }
        }
    }
    let offset: i64 = (tracks[b].start_secs - tracks[a].start_secs) * 1_000_000_000;
    let map = Alignment { offset, drift: 0 };
    let mut phases: Vec<Phase> = Vec::new();
    proof {
        lemma_duration(tracks@[b as int]@);
    }
    let (s, e) = span(&map, time_of(&tracks[a]), time_of(&tracks[b]));
    if e > s {
        phases.push(Phase { kind: Kind::Apart, start: s, end: e, evidence: Evidence { count: 0, hits: 0, measured: 0, coherence: 0 } });
    }
    let note = if windows == 0 {
        Note::TooShort
    } else {
        Note::NoEvents
    };
    let r = Comparison { pair: Pair { a, b, ok: false, map, phases }, note: Some(note) };
    assert(r.pair.phases@ =~= nominal_phases(map, tracks@[a as int]@.duration, tracks@[b as int]@.duration));
    proof {
        assert forall|t: int| tracks@[a as int].start_secs * 1_000_000_000 + t == tracks@[b as int].start_secs * 1_000_000_000 + #[trigger] r.pair.map.b_time(t) by {
            lag_is_offset_and_drift(r.pair.map, t);
        }
    }
    r
}

/// A stretch with what its windows say.
pub open spec fn with_evidence(f: Seq<Frame>, p: Ph) -> Phase {
    Phase { kind: p.kind, start: p.start, end: p.end, evidence: evidence(f, p.start as int, p.end as int) }
}

/// Stretches with what their windows say.
pub fn weighed(f: &Vec<Frame>, v: &Vec<Ph>) -> (r: Vec<Phase>)
    requires
        countable_frames(f@),
    ensures
        r.len() == v.len(),
        forall|i: int| 0 <= i < v.len() ==> #[trigger] r@[i] == with_evidence(f@, v@[i]),
        forall|i: int| 0 <= i < v.len() ==> fit_evidence((#[trigger] r@[i]).evidence),
{
    let mut out: Vec<Phase> = Vec::new();
    let mut i: usize = 0;
    while i < v.len()
        invariant
            i <= v.len(),
            countable_frames(f@),
            out.len() == i,
            forall|k: int| 0 <= k < i ==> #[trigger] out@[k] == with_evidence(f@, v@[k]),
            forall|k: int| 0 <= k < i ==> fit_evidence((#[trigger] out@[k]).evidence),
        decreases v.len() - i,
    {
        let p = v[i];
        out.push(Phase { kind: p.kind, start: p.start, end: p.end, evidence: weigh(f, p.start, p.end) });
        i = i + 1;
    }
    out
}

/// An offset is trusted where three windows or more lie on its line, less than
/// 30 milliseconds from it, and where it stands out sixfold; fewer windows, a
/// wider spread or a weaker peak are not trusted, and neither is no line at all.
pub proof fn trusted_offsets_are_well_founded(s: Search, f: Fit)
    requires
        s.fit == Some(f),
        f.map.valid(),
    ensures
        f.windows >= 3 && f.residual < 30_000_000 && s.prominence >= 6_000_000 <==> stable_fit(Some(s)) == Some(f),
        f.windows < 3 || f.residual >= 30_000_000 || s.prominence < 6_000_000 <==> stable_fit(Some(s)) is None,
        stable_fit(None) is None,
{
}

/// Tracks that are placed by their names alone are apart as long as both run:
/// from the later of their starts to the earlier of their ends, on the clock of
/// the first.
pub proof fn named_times_make_one_stretch_apart(x: int, y: int, dur_a: int, dur_b: int, map: Alignment)
    requires
        map.valid(),
        map.drift == 0,
        map.offset == (y - x) * 1_000_000_000,
        0 <= dur_a <= 275_000_000_000_000_000,
        0 <= dur_b <= 275_000_000_000_000_000,
    ensures
        ({
            let v = nominal_phases(map, dur_a, dur_b);
            let late = max(x, y) * 1_000_000_000;
            let early = min(x * 1_000_000_000 + dur_a, y * 1_000_000_000 + dur_b);
            &&& early <= late ==> v.len() == 0
            &&& early > late ==> v.len() == 1 && v[0].kind is Apart && v[0].start + x * 1_000_000_000 == late && v[0].end + x * 1_000_000_000 == early
                && v[0].evidence.count == 0
        }),
{
    lag_is_offset_and_drift(map, 0);
    lag_is_offset_and_drift(map, dur_b);
}

} // verus!
