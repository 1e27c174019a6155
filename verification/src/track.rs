//! Tracks to synchronise: finished files or recordings still in parts, and the
//! order of the recorders they come from.

use std::cmp::Ordering;
use vstd::prelude::*;

use crate::calendar::{civil, civil_from_secs, civil_undoes_second_number, date_text, fmt_date, fmt_time, second_number, seconds_count_on, time_text, valid_date, valid_time};
use crate::names::{dji_from, output_label, is_output_label, parse_dji_name, parse_track_name, track_of};
use crate::recording::{recording_views, round_div, rounded, rounding_is_to_the_nearest, lemma_round_div, Recording, RecordingView};
use crate::scan::{skipped_views, Skipped, SkippedView};
use crate::text::{all_digits, is_digit, lex_less, lex_less_is_total_order, number, same, text_less, to_chars};
use crate::wav::{WavFacts, WavInfo};

verus! {

/// Nanoseconds of a second.
pub const SECOND: i64 = 1_000_000_000;

/// Tracks that are synchronised are shorter than this (231 days).
pub const TIME_LIMIT: i64 = 20_000_000_000_000_000;

/// A track has no more bytes, and so no more frames, than files can have.
pub const FILE_LIMIT: u64 = 4_000_000_000_000_000_000;

/// Starts lie this close to 1970 (three million years).
pub const START_LIMIT: i64 = 100_000_000_000_000;

// ------------------------------------------------------------------ labels

/// A label as a number, if it is one that fits 64 bits.
pub open spec fn as_number(s: Seq<char>) -> Option<int> {
    let d = if s.len() > 0 && s[0] == '+' {
        s.drop_first()
    } else {
        s
    };
    if d.len() > 0 && all_digits(d) && number(d) <= u64::MAX {
        Some(number(d))
    } else {
        None
    }
}

/// Whether label `a` comes before label `b`: numbers by value, anything else by
/// its characters.
pub open spec fn label_below(a: Seq<char>, b: Seq<char>) -> bool {
    match (as_number(a), as_number(b)) {
        (Some(x), Some(y)) => x < y,
        _ => lex_less(a, b),
    }
}

/// More digits make no smaller number.
proof fn lemma_number_grows(s: Seq<char>, n: int)
    requires
        all_digits(s),
        0 <= n <= s.len(),
    ensures
        0 <= number(s.take(n)) <= number(s),
    decreases s.len() - n,
{
    if n == s.len() {
        assert(s.take(n) =~= s);
        lemma_number_nonneg(s);
    } else {
        lemma_number_grows(s, n + 1);
        let t = s.take(n + 1);
        assert(t.drop_last() =~= s.take(n));
        assert(is_digit(s[n]));
        assert(all_digits(s.take(n))) by {
            assert forall|i: int| 0 <= i < n implies is_digit(#[trigger] s.take(n)[i]) by {
                assert(is_digit(s[i]));
            }
        }
        lemma_number_nonneg(s.take(n));
    }
}

/// Digits make no negative number.
proof fn lemma_number_nonneg(s: Seq<char>)
    requires
        all_digits(s),
    ensures
        0 <= number(s),
    decreases s.len(),
{
    if s.len() > 0 {
        let t = s.drop_last();
        assert forall|i: int| 0 <= i < t.len() implies is_digit(#[trigger] t[i]) by {
            assert(is_digit(s[i]));
        }
        lemma_number_nonneg(t);
        assert(is_digit(s[s.len() - 1]));
    }
}

/// A label as a number.
fn parse_number(s: &str) -> (r: Option<u64>)
    ensures
        match r {
            Some(n) => as_number(s@) == Some(n as int),
            None => as_number(s@) is None,
        },
{
    let v = to_chars(s);
    let from: usize = if v.len() > 0 && v[0] == '+' {
        1
    } else {
        0
    };
    let ghost d = v@.skip(from as int);
    proof {
        assert(from == 1 ==> d =~= s@.drop_first());
        assert(from == 0 ==> d =~= s@);
        assert(d.take(0) =~= Seq::<char>::empty());
    }
    if from == v.len() {
        return None;
    }
    let mut n: u64 = 0;
    let mut i: usize = from;
    while i < v.len()
        invariant
            from <= i <= v.len(),
            d == v@.skip(from as int),
            all_digits(d.take((i - from) as int)),
            n == number(d.take((i - from) as int)),
            as_number(s@) == if d.len() > 0 && all_digits(d) && number(d) <= u64::MAX {
                Some(number(d))
            } else {
                None
            },
        decreases v.len() - i,
    {
        let c = v[i];
        let ghost k = (i - from) as int;
        assert(d[k] == c);
        if c < '0' || c > '9' {
            assert(!is_digit(d[k]));
            return None;
        }
        let x: u64 = (c as u32 - 48) as u64;
        proof {
            let t = d.take(k + 1);
            assert(t.drop_last() =~= d.take(k));
            assert(t.last() == c);
            assert forall|j: int| 0 <= j < t.len() implies is_digit(#[trigger] t[j]) by {
                if j < k {
                    assert(t[j] == d.take(k)[j]);
                }
            }
        }
        if n > (u64::MAX - x) / 10 {
            proof {
                if all_digits(d) {
                    lemma_number_grows(d, k + 1);
                }
            }
            return None;
        }
        n = n * 10 + x;
        i = i + 1;
    }
    assert(d.take((i - from) as int) =~= d);
    Some(n)
}

/// Whether label `a` comes before label `b`.
pub fn label_less(a: &str, b: &str) -> (r: bool)
    ensures
        r == label_below(a@, b@),
{
    match (parse_number(a), parse_number(b)) {
        (Some(x), Some(y)) => x < y,
        _ => text_less(a, b),
    }
}

/// The order of two labels: numbers by value, anything else by its characters.
pub fn label_order(a: &str, b: &str) -> (r: Ordering)
    ensures
        r == if label_below(a@, b@) {
            Ordering::Less
        } else if label_below(b@, a@) {
            Ordering::Greater
        } else {
            Ordering::Equal
        },
{
    if label_less(a, b) {
        Ordering::Less
    } else if label_less(b, a) {
        Ordering::Greater
    } else {
        Ordering::Equal
    }
}

// ------------------------------------------------------------------ tracks

/// A run of audio bytes in a file.
#[derive(Debug, Clone)]
pub struct Segment {
    /// Which of the files handed in this is.
    pub file: usize,
    pub path: String,
    pub offset: u64,
    pub len: u64,
}

/// A run of audio bytes as mathematical values.
pub struct SegmentView {
    pub file: int,
    pub path: Seq<char>,
    pub offset: int,
    pub len: int,
}

impl View for Segment {
    type V = SegmentView;

    open spec fn view(&self) -> SegmentView {
        SegmentView { file: self.file as int, path: self.path@, offset: self.offset as int, len: self.len as int }
    }
}

/// The runs of a list.
pub open spec fn segment_views(v: Seq<Segment>) -> Seq<SegmentView> {
    v.map_values(|s: Segment| s@)
}

/// One recording of one recorder.
#[derive(Debug, Clone)]
pub struct Track {
    pub id: usize,
    pub name: String,
    pub path: String,
    /// The recorder.
    pub label: String,
    pub day: String,
    pub start: String,
    pub end: String,
    /// Seconds since local midnight at the start.
    pub clock0: i64,
    /// Nanoseconds.
    pub duration: i128,
    pub start_secs: i64,
    pub info: WavInfo,
    pub segments: Vec<Segment>,
    pub frames: u64,
}

/// A track as mathematical values.
pub struct TrackView {
    pub id: int,
    pub name: Seq<char>,
    pub path: Seq<char>,
    pub label: Seq<char>,
    pub day: Seq<char>,
    pub start: Seq<char>,
    pub end: Seq<char>,
    pub clock0: int,
    pub duration: int,
    pub start_secs: int,
    pub info: WavFacts,
    pub segments: Seq<SegmentView>,
    pub frames: int,
}

impl View for Track {
    type V = TrackView;

    open spec fn view(&self) -> TrackView {
        TrackView {
            id: self.id as int,
            name: self.name@,
            path: self.path@,
            label: self.label@,
            day: self.day@,
            start: self.start@,
            end: self.end@,
            clock0: self.clock0 as int,
            duration: self.duration as int,
            start_secs: self.start_secs as int,
            info: self.info@,
            segments: segment_views(self.segments@),
            frames: self.frames as int,
        }
    }
}

/// The tracks of a list.
pub open spec fn track_views(v: Seq<Track>) -> Seq<TrackView> {
    v.map_values(|t: Track| t@)
}

/// Frames of the first `n` runs.
pub open spec fn segment_frames(s: Seq<SegmentView>, align: int, n: int) -> int
    decreases n,
{
    if n <= 0 {
        0
    } else {
        segment_frames(s, align, n - 1) + s[n - 1].len / align
    }
}

/// The track that runs of audio make.
pub open spec fn track_made(name: Seq<char>, path: Seq<char>, label: Seq<char>, start_secs: int, info: WavFacts, segments: Seq<SegmentView>) -> TrackView {
    let frames = segment_frames(segments, info.block_align, segments.len() as int);
    let a = civil(start_secs);
    let e = civil(start_secs + round_div(frames, info.sample_rate));
    TrackView {
        id: 0,
        name: name,
        path: path,
        label: label,
        day: date_text(a.0, a.1, a.2),
        start: time_text(a.3, a.4, a.5),
        end: time_text(e.3, e.4, e.5),
        clock0: a.3 * 3600 + a.4 * 60 + a.5,
        duration: round_div(frames * SECOND, info.sample_rate),
        start_secs: start_secs,
        info: info,
        segments: segments,
        frames: frames,
    }
}

/// Whether a number of frames stays below the limit of time.
pub open spec fn short_enough(frames: int, rate: int) -> bool {
    frames * SECOND <= TIME_LIMIT * rate
}

/// Adds up the frames of runs.
fn count_frames(segments: &Vec<Segment>, align: u16) -> (r: u64)
    requires
        align > 0,
        segment_frames(segment_views(segments@), align as int, segments.len() as int) <= FILE_LIMIT,
    ensures
        r == segment_frames(segment_views(segments@), align as int, segments.len() as int),
{
    let ghost v = segment_views(segments@);
    let mut n: u64 = 0;
    let mut i: usize = 0;
    while i < segments.len()
        invariant
            i <= segments.len(),
            align > 0,
            v == segment_views(segments@),
            n == segment_frames(v, align as int, i as int),
            segment_frames(v, align as int, segments.len() as int) <= FILE_LIMIT,
        decreases segments.len() - i,
    {
        assert(v[i as int] == segments@[i as int]@);
        proof {
            lemma_frames_grow(v, align as int, i + 1, v.len() as int);
        }
        n = n + segments[i].len / align as u64;
        i = i + 1;
    }
    n
}

/// More runs have more frames.
proof fn lemma_frames_grow(s: Seq<SegmentView>, align: int, n: int, m: int)
    requires
        align > 0,
        0 <= n <= m <= s.len(),
        forall|i: int| 0 <= i < s.len() ==> (#[trigger] s[i]).len >= 0,
    ensures
        0 <= segment_frames(s, align, n) <= segment_frames(s, align, m),
    decreases m, n,
{
    if n < m {
        lemma_frames_grow(s, align, n, m - 1);
        let x = s[m - 1].len;
        assert(x / align >= 0) by (nonlinear_arith)
            requires
                x >= 0,
                align > 0,
        ;
    } else if n > 0 {
        lemma_frames_grow(s, align, n - 1, n - 1);
        let x = s[n - 1].len;
        assert(x / align >= 0) by (nonlinear_arith)
            requires
                x >= 0,
                align > 0,
        ;
    }
}

/// Makes a track of runs of audio.
pub fn make_track(name: String, path: String, label: String, start_secs: i64, info: WavInfo, segments: Vec<Segment>) -> (r: Track)
    requires
        info@.sound(),
        -START_LIMIT <= start_secs <= START_LIMIT,
        segment_frames(segment_views(segments@), info@.block_align, segments.len() as int) <= FILE_LIMIT,
    ensures
        r@ == track_made(name@, path@, label@, start_secs as int, info@, segment_views(segments@)),
{
    let frames: u64 = count_frames(&segments, info.block_align);
    let rate: i128 = info.sample_rate as i128;
    proof {
        let n = frames as int;
        lemma_round_div(n, rate as int);
        assert(0 <= (2 * n + rate) / (2 * rate) <= n + 1) by (nonlinear_arith)
            requires
                0 <= n,
                0 < rate,
        ;
    }
    let duration: i128 = rounded(frames as i128 * 1_000_000_000, rate);
    let secs: i64 = rounded(frames as i128, rate) as i64;
    let (y, mo, d, h, mi, s) = civil_from_secs(start_secs);
    let (_, _, _, eh, emi, es) = civil_from_secs(start_secs + secs);
    Track {
        id: 0,
        name,
        path,
        label,
        day: fmt_date(y, mo, d),
        start: fmt_time(h, mi, s),
        end: fmt_time(eh, emi, es),
        clock0: h * 3600 + mi * 60 + s,
        duration,
        start_secs,
        info,
        segments,
        frames,
    }
}

/// Bounds on the length of a track in seconds and nanoseconds.
pub proof fn lemma_round_bound(frames: int, rate: int)
    requires
        0 <= frames,
        0 < rate,
        short_enough(frames, rate),
    ensures
        0 <= round_div(frames * SECOND, rate) <= TIME_LIMIT,
        0 <= round_div(frames, rate) <= TIME_LIMIT,
{
    let n = frames * SECOND;
    assert(0 <= (2 * n + rate) / (2 * rate) <= TIME_LIMIT) by (nonlinear_arith)
        requires
            0 <= n <= TIME_LIMIT * rate,
            0 < rate,
    ;
    assert(frames <= TIME_LIMIT * rate) by (nonlinear_arith)
        requires
            frames * SECOND <= TIME_LIMIT * rate,
            0 <= frames,
            SECOND == 1_000_000_000,
    ;
    assert(0 <= (2 * frames + rate) / (2 * rate) <= TIME_LIMIT) by (nonlinear_arith)
        requires
            0 <= frames <= TIME_LIMIT * rate,
            0 < rate,
    ;
}

// ------------------------------------------------------------------ loading

/// What a WAV file is by its name.
#[derive(Debug)]
pub enum Role {
    /// A file that was synchronised before.
    Output,
    /// A track: start and label.
    Finished(i64, String),
    /// Neither; perhaps a part of a recording.
    Other,
}

/// A WAV file that was found, with what reading its header gave.
#[derive(Debug)]
pub struct Found {
    pub file: usize,
    pub path: String,
    pub name: String,
    pub header: Result<WavInfo, String>,
}

/// What a scan for recordings in parts gave. `ignored_names` are the file names
/// of the ignored files.
#[derive(Debug)]
pub struct Scanned {
    pub recordings: Vec<Recording>,
    pub duplicates: Vec<Skipped>,
    pub ignored: Vec<Skipped>,
    pub ignored_names: Vec<String>,
}

/// The tracks to synchronise.
#[derive(Debug)]
pub struct Loaded {
    pub tracks: Vec<Track>,
    pub ignored: Vec<Skipped>,
    pub source: Source,
}

/// Where tracks come from.
#[derive(Debug, Clone, Copy, PartialEq, Eq, Structural)]
pub enum Source {
    /// Finished tracks.
    Tracks,
    /// Recordings in parts.
    Chunks,
    Mixed,
}

impl Source {
    /// The source in words.
    pub fn text(&self) -> (r: &'static str)
        ensures
            r@ == match *self {
                Source::Tracks => "tracks"@,
                Source::Chunks => "chunks"@,
                Source::Mixed => "mixed"@,
            },
    {
        match self {
            Source::Tracks => "tracks",
            Source::Chunks => "chunks",
            Source::Mixed => "mixed",
        }
    }
}

/// What a WAV file is by its name.
pub fn role_of(name: &str) -> (r: Role)
    ensures
        match r {
            Role::Other => track_of(name@) is None,
            Role::Output => track_of(name@) matches Some((_, label)) && output_label(label),
            Role::Finished(t, l) => track_of(name@) == Some((t as int, l@)) && !output_label(l@) && -START_LIMIT <= t <= START_LIMIT,
        },
{
    match parse_track_name(name) {
        None => Role::Other,
        Some((t, label)) => if is_output_label(label.as_str()) {
            Role::Output
        } else {
            Role::Finished(t, label)
        },
    }
}

/// The run of all audio of a file.
pub open spec fn whole_run(f: Found, info: WavFacts) -> Seq<SegmentView> {
    seq![SegmentView { file: f.file as int, path: f.path@, offset: info.data_offset, len: info.data_len }]
}

/// Whether a file is a finished track by its name.
pub open spec fn is_finished(f: Found) -> bool {
    track_of(f.name@) matches Some((_, label)) && !output_label(label)
}

/// Whether a file becomes a track.
pub open spec fn becomes_track(f: Found) -> bool {
    is_finished(f) && (f.header matches Ok(info) && info.data_len > 0 && info@.kind() is Some)
}

/// The track that a file becomes.
pub open spec fn file_track(f: Found) -> TrackView {
    let (start, label) = track_of(f.name@)->Some_0;
    let info = f.header->Ok_0;
    track_made(f.name@, f.path@, label, start, info@, whole_run(f, info@))
}

/// Why a finished track is not used.
pub open spec fn file_reason(f: Found) -> Seq<char> {
    match f.header {
        Ok(_) => "Audioformat wird nicht unterstützt"@,
        Err(e) => "nicht lesbar: "@ + e@,
    }
}

/// The tracks of the first `n` files.
pub open spec fn file_tracks(f: Seq<Found>, n: int) -> Seq<TrackView>
    decreases n,
{
    if n <= 0 {
        Seq::empty()
    } else if becomes_track(f[n - 1]) {
        file_tracks(f, n - 1).push(file_track(f[n - 1]))
    } else {
        file_tracks(f, n - 1)
    }
}

/// The finished tracks among the first `n` files that are not used.
pub open spec fn file_ignored(f: Seq<Found>, n: int) -> Seq<SkippedView>
    decreases n,
{
    if n <= 0 {
        Seq::empty()
    } else if is_finished(f[n - 1]) && !becomes_track(f[n - 1]) {
        file_ignored(f, n - 1).push(SkippedView { path: f[n - 1].path@, reason: file_reason(f[n - 1]) })
    } else {
        file_ignored(f, n - 1)
    }
}

/// The files among the first `n` that are neither finished nor synchronised.
pub open spec fn file_others(f: Seq<Found>, n: int) -> Seq<SkippedView>
    decreases n,
{
    if n <= 0 {
        Seq::empty()
    } else if track_of(f[n - 1].name@) is None {
        file_others(f, n - 1).push(SkippedView { path: f[n - 1].path@, reason: "weder Track noch DJI-Aufnahme"@ })
    } else {
        file_others(f, n - 1)
    }
}

/// Whether one of the files is a part of a recording by its name.
pub open spec fn any_part(f: Seq<Found>) -> bool {
    exists|i: int| 0 <= i < f.len() && track_of((#[trigger] f[i]).name@) is None && dji_from(f[i].name@, 0) is Some
}

/// Whether a track is the finished form of a recording: same label, start and
/// length within two seconds.
pub open spec fn is_finished_form(t: TrackView, r: RecordingView) -> bool {
    let d = t.frames * r.sample_rate - r.frames * t.info.sample_rate;
    let two = 2 * t.info.sample_rate * r.sample_rate;
    t.label == r.label && -2 <= t.start_secs - r.start_secs <= 2 && -two <= d <= two
}

/// Whether a recording exists as a finished track already.
pub open spec fn already_merged(t: Seq<TrackView>, r: RecordingView) -> bool {
    exists|i: int| 0 <= i < t.len() && is_finished_form(#[trigger] t[i], r)
}

/// The runs of audio of a recording.
pub open spec fn recording_runs(r: RecordingView) -> Seq<SegmentView> {
    Seq::new(
        r.parts.len(),
        |k: int| SegmentView { file: r.parts[k].file, path: r.parts[k].path, offset: r.parts[k].info.data_offset, len: r.parts[k].info.data_len },
    )
}

/// The track that a recording in parts becomes.
pub open spec fn recording_track(r: RecordingView) -> TrackView {
    track_made(r.out_name, r.parts[0].path, r.label, r.start_secs, r.parts[0].info, recording_runs(r))
}

/// Whether a recording in parts becomes a track.
pub open spec fn recording_playable(r: RecordingView) -> bool {
    r.parts[0].info.kind() is Some
}

/// The tracks of the first `n` recordings that are not finished yet.
pub open spec fn part_tracks(t: Seq<TrackView>, r: Seq<RecordingView>, n: int) -> Seq<TrackView>
    decreases n,
{
    if n <= 0 {
        Seq::empty()
    } else if !already_merged(t, r[n - 1]) && recording_playable(r[n - 1]) {
        part_tracks(t, r, n - 1).push(recording_track(r[n - 1]))
    } else {
        part_tracks(t, r, n - 1)
    }
}

/// The recordings among the first `n` that are not used.
pub open spec fn part_ignored(t: Seq<TrackView>, r: Seq<RecordingView>, n: int) -> Seq<SkippedView>
    decreases n,
{
    if n <= 0 {
        Seq::empty()
    } else if !already_merged(t, r[n - 1]) && !recording_playable(r[n - 1]) {
        part_ignored(t, r, n - 1).push(SkippedView { path: r[n - 1].parts[0].path, reason: "Audioformat wird nicht unterstützt"@ })
    } else {
        part_ignored(t, r, n - 1)
    }
}

/// The files that a scan ignored, without those that are tracks by name.
pub open spec fn scan_ignored(s: Seq<Skipped>, names: Seq<String>, n: int) -> Seq<SkippedView>
    decreases n,
{
    if n <= 0 {
        Seq::empty()
    } else if track_of(names[n - 1]@) is None {
        scan_ignored(s, names, n - 1).push(s[n - 1]@)
    } else {
        scan_ignored(s, names, n - 1)
    }
}

/// Whether a recording can be placed in time.
pub open spec fn placeable(r: RecordingView) -> bool {
    &&& r.parts.len() > 0
    &&& r.parts[0].info.sound()
    &&& -START_LIMIT <= r.start_secs <= START_LIMIT
    &&& segment_frames(recording_runs(r), r.parts[0].info.block_align, r.parts.len() as int) <= FILE_LIMIT
}

/// Whether the frames of parts are no more than files can have.
pub fn is_short(x: &Recording, align: u16) -> (r: bool)
    requires
        align > 0,
    ensures
        r == (segment_frames(recording_runs(x@), align as int, x.parts.len() as int) <= FILE_LIMIT),
{
    let ghost v = recording_runs(x@);
    let mut n: u64 = 0;
    let mut i: usize = 0;
    while i < x.parts.len()
        invariant
            i <= x.parts.len() == v.len(),
            align > 0,
            v == recording_runs(x@),
            n == segment_frames(v, align as int, i as int),
            n <= FILE_LIMIT,
        decreases x.parts.len() - i,
    {
        assert(x@.parts[i as int] == x.parts@[i as int]@);
        assert forall|k: int| 0 <= k < v.len() implies (#[trigger] v[k]).len >= 0 by {
            assert(x@.parts[k] == x.parts@[k]@);
        }
        proof {
            lemma_frames_grow(v, align as int, i + 1, v.len() as int);
        }
        let more: u64 = x.parts[i].info.data_len / align as u64;
        if more > FILE_LIMIT - n {
            return false;
        }
        n = n + more;
        i = i + 1;
    }
    true
}

/// What loading gives, for files and what a scan found (needed only where a
/// file is a part of a recording).
pub open spec fn loads(f: Seq<Found>, s: Scanned) -> (Seq<TrackView>, Seq<SkippedView>, bool, bool) {
    let n = f.len() as int;
    let done = file_tracks(f, n);
    let recs = recording_views(s.recordings@);
    if any_part(f) {
        let more = part_tracks(done, recs, recs.len() as int);
        (
            done + more,
            file_ignored(f, n) + skipped_views(s.duplicates@) + scan_ignored(s.ignored@, s.ignored_names@, s.ignored.len() as int) + part_ignored(
                done,
                recs,
                recs.len() as int,
            ),
            done.len() > 0,
            more.len() > 0,
        )
    } else {
        (done, file_ignored(f, n) + file_others(f, n), done.len() > 0, false)
    }
}

/// Whether one of the files is a part of a recording by its name, so that a scan
/// for recordings is needed.
pub fn needs_scan(files: &Vec<Found>) -> (r: bool)
    ensures
        r == any_part(files@),
{
    let mut i: usize = 0;
    while i < files.len()
        invariant
            i <= files.len(),
            forall|k: int| 0 <= k < i ==> !(track_of((#[trigger] files@[k]).name@) is None && dji_from(files@[k].name@, 0) is Some),
        decreases files.len() - i,
    {
        let name = files[i].name.as_str();
        if parse_track_name(name).is_none() && parse_dji_name(name).is_some() {
            assert(track_of(files@[i as int].name@) is None && dji_from(files@[i as int].name@, 0) is Some);
            return true;
        }
        i = i + 1;
    }
    false
}

/// Appends a skipped file to a list.
fn skip_file(out: &mut Vec<Skipped>, path: &str, reason: &str)
    ensures
        skipped_views(final(out)@) == skipped_views(old(out)@).push(SkippedView { path: path@, reason: reason@ }),
{
    let s = Skipped { path: path.to_string(), reason: reason.to_string() };
    out.push(s);
    assert(skipped_views(out@) =~= skipped_views(old(out)@).push(SkippedView { path: path@, reason: reason@ }));
}

/// A run of all audio has no more frames than bytes.
proof fn lemma_whole_run(f: Found, info: WavFacts)
    requires
        info.data_len >= 0,
        info.block_align > 0,
    ensures
        segment_frames(whole_run(f, info), info.block_align, 1) <= info.data_len,
{
    let (n, d) = (info.data_len, info.block_align);
    assert(segment_frames(whole_run(f, info), d, 0) == 0);
    assert(n / d <= n) by (nonlinear_arith)
        requires
            n >= 0,
            d > 0,
    ;
}

/// Makes a finished track of a file, or says why not.
fn load_track(f: &Found, start: i64, label: String) -> (r: Result<Track, String>)
    requires
        track_of(f.name@) == Some((start as int, label@)),
        !output_label(label@),
        -START_LIMIT <= start <= START_LIMIT,
        f.header matches Ok(info) ==> info@.sound() && info.data_len <= FILE_LIMIT,
    ensures
        match r {
            Ok(t) => becomes_track(*f) && t@ == file_track(*f),
            Err(e) => !becomes_track(*f) && e@ == file_reason(*f),
        },
{
    match &f.header {
        Ok(info) => {
            if info.sample_kind().is_some() && info.data_len > 0 {
                let mut runs: Vec<Segment> = Vec::new();
                runs.push(Segment { file: f.file, path: f.path.clone(), offset: info.data_offset, len: info.data_len });
                assert(segment_views(runs@) =~= whole_run(*f, info@));
                proof {
                    lemma_whole_run(*f, info@);
                }
                Ok(make_track(f.name.clone(), f.path.clone(), label, start, info.copy(), runs))
            } else {
                Err("Audioformat wird nicht unterstützt".to_string())
            }
        },
        Err(e) => {
            let mut reason = "nicht lesbar: ".to_string();
            reason.append(e.as_str());
            Err(reason)
        },
    }
}

/// Whether a track is the finished form of a recording.
fn check_finished_form(t: &Track, r: &Recording) -> (b: bool)
    requires
        -START_LIMIT <= t.start_secs <= START_LIMIT,
        -START_LIMIT <= r.start_secs <= START_LIMIT,
    ensures
        b == is_finished_form(t@, r@),
{
    let x: i128 = t.info.sample_rate as i128;
    let y: i128 = r.sample_rate as i128;
    let f: i128 = t.frames as i128;
    let g: i128 = r.frames as i128;
    assert(0 <= f * y <= 0x1_0000_0000_0000_0000_0000_0000 && 0 <= g * x <= 0x1_0000_0000_0000_0000_0000_0000 && 0 <= 2 * x * y <= 0x1_0000_0000_0000_0000_0000_0000)
        by (nonlinear_arith)
        requires
            0 <= f <= 0x1_0000_0000_0000_0000,
            0 <= g <= 0x1_0000_0000_0000_0000,
            0 <= x <= 0x1_0000_0000,
            0 <= y <= 0x1_0000_0000,
    ;
    assert(0 <= 2 * x <= 0x2_0000_0000);
    let d: i128 = f * y - g * x;
    let two: i128 = 2 * x * y;
    let s: i64 = t.start_secs - r.start_secs;
    same(t.label.as_str(), r.label.as_str()) && -2 <= s && s <= 2 && -two <= d && d <= two
}

/// Whether a recording exists as a finished track already.
fn check_merged(tracks: &Vec<Track>, n: usize, r: &Recording) -> (b: bool)
    requires
        n <= tracks.len(),
        forall|i: int| 0 <= i < n ==> -START_LIMIT <= (#[trigger] tracks@[i]).start_secs <= START_LIMIT,
        -START_LIMIT <= r.start_secs <= START_LIMIT,
    ensures
        b == already_merged(track_views(tracks@).take(n as int), r@),
{
    let ghost t = track_views(tracks@).take(n as int);
    let mut i: usize = 0;
    while i < n
        invariant
            i <= n <= tracks.len(),
            t == track_views(tracks@).take(n as int),
            forall|k: int| 0 <= k < n ==> -START_LIMIT <= (#[trigger] tracks@[k]).start_secs <= START_LIMIT,
            -START_LIMIT <= r.start_secs <= START_LIMIT,
            forall|k: int| 0 <= k < i ==> !is_finished_form(#[trigger] t[k], r@),
        decreases n - i,
    {
        assert(t[i as int] == tracks@[i as int]@);
        if check_finished_form(&tracks[i], r) {
            return true;
        }
        i = i + 1;
    }
    false
}

/// Makes a track of a recording in parts; nothing if its audio cannot be used.
fn track_of_recording(r: &Recording) -> (t: Option<Track>)
    requires
        placeable(r@),
    ensures
        match t {
            Some(t) => recording_playable(r@) && t@ == recording_track(r@),
            None => !recording_playable(r@),
        },
{
    let ghost v = r@;
    assert(v.parts.len() == r.parts.len() && v.parts[0] == r.parts@[0]@);
    if r.parts[0].info.sample_kind().is_none() {
        return None;
    }
    let mut runs: Vec<Segment> = Vec::new();
    let mut k: usize = 0;
    while k < r.parts.len()
        invariant
            k <= r.parts.len(),
            v == r@,
            v.parts.len() == r.parts.len(),
            runs.len() == k,
            forall|j: int| 0 <= j < k ==> (#[trigger] runs@[j])@ == recording_runs(v)[j],
        decreases r.parts.len() - k,
    {
        assert(v.parts[k as int] == r.parts@[k as int]@);
        runs.push(
            Segment { file: r.parts[k].file, path: r.parts[k].path.clone(), offset: r.parts[k].info.data_offset, len: r.parts[k].info.data_len },
        );
        k = k + 1;
    }
    assert(segment_views(runs@) =~= recording_runs(v));
    Some(make_track(r.out_name.clone(), r.parts[0].path.clone(), r.label.clone(), r.start_secs, r.parts[0].info.copy(), runs))
}

/// A track keeps the start it was made with.
spec fn starts_in_range(v: Seq<Track>) -> bool {
    forall|i: int| 0 <= i < v.len() ==> -START_LIMIT <= (#[trigger] v[i]).start_secs <= START_LIMIT
}

/// The finished tracks among the files, those that are not used, and whether a
/// file is a part of a recording.
fn load_files(files: &Vec<Found>, tracks: &mut Vec<Track>, ignored: &mut Vec<Skipped>) -> (parts: bool)
    requires
        old(tracks).len() == 0,
        old(ignored).len() == 0,
        forall|i: int| 0 <= i < files.len() ==> ((#[trigger] files@[i]).header matches Ok(info) ==> info@.sound() && info.data_len <= FILE_LIMIT),
    ensures
        track_views(final(tracks)@) == file_tracks(files@, files.len() as int),
        starts_in_range(final(tracks)@),
        skipped_views(final(ignored)@) == file_ignored(files@, files.len() as int),
        parts == any_part(files@),
{
    let mut parts = false;
    let mut i: usize = 0;
    assert(track_views(tracks@) =~= Seq::<TrackView>::empty());
    assert(skipped_views(ignored@) =~= Seq::<SkippedView>::empty());
    while i < files.len()
        invariant
            i <= files.len(),
            forall|k: int| 0 <= k < files.len() ==> ((#[trigger] files@[k]).header matches Ok(info) ==> info@.sound() && info.data_len <= FILE_LIMIT),
            track_views(tracks@) == file_tracks(files@, i as int),
            starts_in_range(tracks@),
            skipped_views(ignored@) == file_ignored(files@, i as int),
            parts == exists|k: int| 0 <= k < i && track_of((#[trigger] files@[k]).name@) is None && dji_from(files@[k].name@, 0) is Some,
        decreases files.len() - i,
    {
        let ghost t0 = tracks@;
        match role_of(files[i].name.as_str()) {
            Role::Output => {},
            Role::Other => {
                if parse_dji_name(files[i].name.as_str()).is_some() {
                    parts = true;
                }
            },
            Role::Finished(start, label) => {
                match load_track(&files[i], start, label) {
                    Ok(t) => {
                        tracks.push(t);
                        assert(track_views(tracks@) =~= track_views(t0).push(t@));
                    },
                    Err(e) => {
                        skip_file(ignored, files[i].path.as_str(), e.as_str());
                    },
                }
            },
        }
        i = i + 1;
    }
    parts
}

/// Loads the tracks to synchronise. Recordings that exist only in parts are
/// used directly; where the finished track is there as well, it is used.
pub fn load(files: &Vec<Found>, scanned: &Scanned) -> (r: Result<Loaded, String>)
    requires
        forall|i: int| 0 <= i < files.len() ==> ((#[trigger] files@[i]).header matches Ok(info) ==> info@.sound() && info.data_len <= FILE_LIMIT),
        forall|i: int| 0 <= i < scanned.recordings.len() ==> placeable((#[trigger] scanned.recordings@[i])@),
        scanned.ignored_names.len() == scanned.ignored.len(),
    ensures
        ({
            let (tracks, ignored, files_used, parts_used) = loads(files@, *scanned);
            match r {
                Ok(l) => {
                    &&& track_views(l.tracks@) == tracks
                    &&& skipped_views(l.ignored@) == ignored
                    &&& files_used || parts_used
                    &&& l.source == if files_used && parts_used {
                        Source::Mixed
                    } else if files_used {
                        Source::Tracks
                    } else {
                        Source::Chunks
                    }
                },
                Err(e) => !files_used && !parts_used && e@ == "Keine Tracks und keine DJI-Aufnahmen gefunden."@,
            }
        }),
{
    let mut tracks: Vec<Track> = Vec::new();
    let mut ignored: Vec<Skipped> = Vec::new();
    let has_parts = load_files(files, &mut tracks, &mut ignored);
    let from_files: usize = tracks.len();
    let ghost done = track_views(tracks@);
    assert(done.len() == from_files);
    let ghost base = skipped_views(ignored@);
    if has_parts {
        let ghost recs = recording_views(scanned.recordings@);
        add_copies(&mut ignored, &scanned.duplicates);
        let ghost b1 = skipped_views(ignored@);
        let mut i: usize = 0;
        assert(b1 =~= b1 + scan_ignored(scanned.ignored@, scanned.ignored_names@, 0));
        while i < scanned.ignored.len()
            invariant
                i <= scanned.ignored.len() == scanned.ignored_names.len(),
                skipped_views(ignored@) == b1 + scan_ignored(scanned.ignored@, scanned.ignored_names@, i as int),
            decreases scanned.ignored.len() - i,
        {
            if parse_track_name(scanned.ignored_names[i].as_str()).is_none() {
                skip_file(&mut ignored, scanned.ignored[i].path.as_str(), scanned.ignored[i].reason.as_str());
                assert(skipped_views(ignored@) =~= b1 + scan_ignored(scanned.ignored@, scanned.ignored_names@, i + 1));
            }
            i = i + 1;
        }
        let ghost b2 = skipped_views(ignored@);
        let mut k: usize = 0;
        assert(track_views(tracks@) =~= done + part_tracks(done, recs, 0));
        assert(b2 =~= b2 + part_ignored(done, recs, 0));
        while k < scanned.recordings.len()
            invariant
                k <= scanned.recordings.len(),
                recs == recording_views(scanned.recordings@),
                done.len() == from_files <= tracks.len(),
                starts_in_range(tracks@),
                forall|j: int| 0 <= j < scanned.recordings.len() ==> placeable((#[trigger] scanned.recordings@[j])@),
                track_views(tracks@) == done + part_tracks(done, recs, k as int),
                skipped_views(ignored@) == b2 + part_ignored(done, recs, k as int),
            decreases scanned.recordings.len() - k,
        {
            assert(recs[k as int] == scanned.recordings@[k as int]@);
            assert(track_views(tracks@).take(from_files as int) =~= done);
            let ghost t0 = tracks@;
            if !check_merged(&tracks, from_files, &scanned.recordings[k]) {
                match track_of_recording(&scanned.recordings[k]) {
                    Some(t) => {
                        tracks.push(t);
                        assert(track_views(tracks@) =~= track_views(t0).push(t@));
                        assert(track_views(tracks@) =~= done + part_tracks(done, recs, k + 1));
                    },
                    None => {
                        assert(recs[k as int].parts[0] == scanned.recordings@[k as int].parts@[0]@);
                        skip_file(&mut ignored, scanned.recordings[k].parts[0].path.as_str(), "Audioformat wird nicht unterstützt");
                        assert(skipped_views(ignored@) =~= b2 + part_ignored(done, recs, k + 1));
                    },
                }
            }
            k = k + 1;
        }
        assert(track_views(tracks@).len() == tracks.len());
        assert(skipped_views(ignored@) =~= loads(files@, *scanned).1);
    } else {
        let mut i: usize = 0;
        assert(base =~= base + file_others(files@, 0));
        while i < files.len()
            invariant
                i <= files.len(),
                skipped_views(ignored@) == base + file_others(files@, i as int),
            decreases files.len() - i,
        {
            if parse_track_name(files[i].name.as_str()).is_none() {
                skip_file(&mut ignored, files[i].path.as_str(), "weder Track noch DJI-Aufnahme");
                assert(skipped_views(ignored@) =~= base + file_others(files@, i + 1));
            }
            i = i + 1;
        }
    }
    let more: bool = tracks.len() > from_files;
    if from_files > 0 && more {
        Ok(Loaded { tracks, ignored, source: Source::Mixed })
    } else if from_files > 0 {
        Ok(Loaded { tracks, ignored, source: Source::Tracks })
    } else if more {
        Ok(Loaded { tracks, ignored, source: Source::Chunks })
    } else {
        Err("Keine Tracks und keine DJI-Aufnahmen gefunden.".to_string())
    }
}

/// Appends copies of skipped files to a list.
fn add_copies(out: &mut Vec<Skipped>, v: &Vec<Skipped>)
    ensures
        skipped_views(final(out)@) == skipped_views(old(out)@) + skipped_views(v@),
{
    let ghost o = skipped_views(out@);
    let ghost all = skipped_views(v@);
    let mut i: usize = 0;
    assert(o + all.take(0) =~= o);
    while i < v.len()
        invariant
            i <= v.len(),
            all == skipped_views(v@),
            skipped_views(out@) == o + all.take(i as int),
        decreases v.len() - i,
    {
        assert(all[i as int] == v@[i as int]@);
        skip_file(out, v[i].path.as_str(), v[i].reason.as_str());
        assert(skipped_views(out@) =~= o + all.take(i + 1));
        i = i + 1;
    }
    assert(all.take(i as int) =~= all);
}

/// Labels that are numbers follow each other by value, however many digits they
/// have; labels that are none by their letters. Of two labels at most one comes
/// first.
pub proof fn labels_have_an_order(a: Seq<char>, b: Seq<char>)
    ensures
        a.len() > 0 && all_digits(a) && b.len() > 0 && all_digits(b) && number(a) <= u64::MAX && number(b) <= u64::MAX ==> (label_below(a, b)
            <==> number(a) < number(b)),
        a.len() > 0 && !is_digit(a[0]) && a[0] != '+' ==> (label_below(a, b) <==> lex_less(a, b)) && (label_below(b, a) <==> lex_less(b, a)),
        !label_below(a, a),
        !(label_below(a, b) && label_below(b, a)),
{
    lex_less_is_total_order(a, b, a);
    if a.len() > 0 && !is_digit(a[0]) && a[0] != '+' {
        assert(!all_digits(a));
    }
    if a.len() > 0 && all_digits(a) {
        assert(is_digit(a[0]));
    }
    if b.len() > 0 && all_digits(b) {
        assert(is_digit(b[0]));
    }
}

/// A track lasts as long as its frames, to half a nanosecond; it begins on the
/// day and at the time of its start and ends its length later.
pub proof fn tracks_last_as_long_as_their_frames(name: Seq<char>, path: Seq<char>, label: Seq<char>, start: int, info: WavFacts, runs: Seq<SegmentView>, y: int, m: int, d: int, h: int, mi: int, s: int)
    requires
        info.sample_rate > 0,
        valid_date(y, m, d),
        valid_time(h, mi, s),
        start == second_number(y, m, d, h, mi, s),
    ensures
        ({
            let t = track_made(name, path, label, start, info, runs);
            &&& t.name == name && t.path == path && t.label == label && t.start_secs == start && t.info == info && t.segments == runs
            &&& -info.sample_rate <= 2 * (t.duration * info.sample_rate - t.frames * 1_000_000_000) <= info.sample_rate
            &&& t.clock0 == start % 86_400
            &&& t.clock0 == 3600 * h + 60 * mi + s
            &&& t.day == date_text(y, m, d)
            &&& t.start == time_text(h, mi, s)
        }),
{
    let t = track_made(name, path, label, start, info, runs);
    civil_undoes_second_number(y, m, d, h, mi, s);
    seconds_count_on(y, m, d, h, mi, s);
    rounding_is_to_the_nearest(t.frames * SECOND, info.sample_rate);
}

/// A track that is a number of seconds long ends that much after its start.
pub proof fn tracks_end_their_length_later(name: Seq<char>, path: Seq<char>, label: Seq<char>, start: int, info: WavFacts, runs: Seq<SegmentView>, secs: int, y: int, m: int, d: int, h: int, mi: int, s: int)
    requires
        info.sample_rate > 0,
        0 <= secs,
        segment_frames(runs, info.block_align, runs.len() as int) == secs * info.sample_rate,
        valid_date(y, m, d),
        valid_time(h, mi, s),
        start + secs == second_number(y, m, d, h, mi, s),
    ensures
        track_made(name, path, label, start, info, runs).end == time_text(h, mi, s),
        track_made(name, path, label, start, info, runs).duration == secs * 1_000_000_000,
{
    let f = secs * info.sample_rate;
    civil_undoes_second_number(y, m, d, h, mi, s);
    rounding_is_to_the_nearest(f, info.sample_rate);
    rounding_is_to_the_nearest(f * SECOND, info.sample_rate);
    lemma_exact(round_div(f, info.sample_rate), secs, info.sample_rate);
    assert(f * SECOND == (secs * SECOND) * info.sample_rate) by (nonlinear_arith)
        requires
            f == secs * info.sample_rate,
    ;
    lemma_exact(round_div(f * SECOND, info.sample_rate), secs * SECOND, info.sample_rate);
}

proof fn lemma_exact(q: int, secs: int, rate: int)
    requires
        rate > 0,
        -rate <= 2 * (q * rate - secs * rate) <= rate,
    ensures
        q == secs,
{
    assert(q == secs) by (nonlinear_arith)
        requires
            rate > 0,
            -rate <= 2 * (q * rate - secs * rate) <= rate,
    ;
}

/// Each run of audio counts the whole frames in it.
pub proof fn runs_count_their_whole_frames(s: Seq<SegmentView>, align: int, n: int)
    requires
        0 <= n < s.len(),
        align > 0,
    ensures
        segment_frames(s, align, 0) == 0,
        ({
            let more = segment_frames(s, align, n + 1) - segment_frames(s, align, n);
            more * align <= s[n].len < (more + 1) * align
        }),
{
    let l = s[n].len;
    assert(l / align * align <= l < (l / align + 1) * align) by (nonlinear_arith)
        requires
            align > 0,
    ;
}

/// A recording is known as a track already where a track of its recorder begins
/// and lasts as it does, to two seconds; then it is not loaded again.
pub proof fn merged_recordings_are_not_loaded_twice(t: Seq<TrackView>, i: int, r: Seq<RecordingView>, n: int)
    requires
        0 <= i < t.len(),
        0 < n <= r.len(),
        t[i].info.sample_rate == r[n - 1].sample_rate,
        r[n - 1].sample_rate > 0,
        t[i].label == r[n - 1].label,
        -2 <= t[i].start_secs - r[n - 1].start_secs <= 2,
        -2 * r[n - 1].sample_rate <= t[i].frames - r[n - 1].frames <= 2 * r[n - 1].sample_rate,
    ensures
        part_tracks(t, r, n) == part_tracks(t, r, n - 1),
        part_ignored(t, r, n) == part_ignored(t, r, n - 1),
{
    let (a, b, s) = (t[i].frames, r[n - 1].frames, r[n - 1].sample_rate);
    assert(-(2 * s * s) <= a * s - b * s <= 2 * s * s) by (nonlinear_arith)
        requires
            s > 0,
            -2 * s <= a - b <= 2 * s,
    ;
    assert(is_finished_form(t[i], r[n - 1]));
}

/// A recording that no track of its recorder matches in start and length, to two
/// seconds, is loaded, with all its parts, if its format can be played.
pub proof fn other_recordings_are_loaded(t: Seq<TrackView>, r: Seq<RecordingView>, n: int)
    requires
        0 < n <= r.len(),
        r[n - 1].sample_rate > 0,
        forall|i: int|
            0 <= i < t.len() ==> (#[trigger] t[i]).label != r[n - 1].label || t[i].start_secs - r[n - 1].start_secs > 2 || r[n - 1].start_secs
                - t[i].start_secs > 2 || (t[i].info.sample_rate == r[n - 1].sample_rate && (t[i].frames - r[n - 1].frames > 2 * r[n - 1].sample_rate
                || r[n - 1].frames - t[i].frames > 2 * r[n - 1].sample_rate)),
    ensures
        r[n - 1].parts[0].info.kind() is Some ==> ({
            let v = part_tracks(t, r, n);
            &&& v == part_tracks(t, r, n - 1).push(v.last())
            &&& v.last().label == r[n - 1].label
            &&& v.last().start_secs == r[n - 1].start_secs
            &&& v.last().name == r[n - 1].out_name
            &&& v.last().segments.len() == r[n - 1].parts.len()
            &&& forall|k: int|
                0 <= k < r[n - 1].parts.len() ==> (#[trigger] v.last().segments[k]).path == r[n - 1].parts[k].path && v.last().segments[k].offset
                    == r[n - 1].parts[k].info.data_offset && v.last().segments[k].len == r[n - 1].parts[k].info.data_len
        }),
        r[n - 1].parts[0].info.kind() is None ==> part_tracks(t, r, n) == part_tracks(t, r, n - 1) && part_ignored(t, r, n).last().path
            == r[n - 1].parts[0].path,
{
    let x = r[n - 1];
    assert forall|i: int| 0 <= i < t.len() implies !is_finished_form(#[trigger] t[i], x) by {
        let (a, b, s) = (t[i].frames, x.frames, x.sample_rate);
        if t[i].info.sample_rate == s {
            if a - b > 2 * s {
                assert(a * s - b * s > 2 * s * s) by (nonlinear_arith)
                    requires
                        s > 0,
                        a - b > 2 * s,
                ;
            }
            if b - a > 2 * s {
                assert(a * s - b * s < -(2 * s * s)) by (nonlinear_arith)
                    requires
                        s > 0,
                        b - a > 2 * s,
                ;
            }
        }
    }
}

/// A file with the name of a finished track that holds audio that can be played
/// is a track, with its whole audio; one with such a name that cannot be played
/// is reported.
pub proof fn finished_files_are_tracks(f: Seq<Found>, n: int, start: int, label: Seq<char>)
    requires
        0 < n <= f.len(),
        track_of(f[n - 1].name@) == Some((start, label)),
        !output_label(label),
    ensures
        f[n - 1].header matches Ok(info) ==> info.data_len > 0 && info@.kind() is Some ==> ({
            let v = file_tracks(f, n);
            &&& v == file_tracks(f, n - 1).push(v.last())
            &&& v.last().start_secs == start && v.last().label == label && v.last().name == f[n - 1].name@
            &&& v.last().segments.len() == 1
            &&& v.last().segments[0].offset == info.data_offset && v.last().segments[0].len == info.data_len && v.last().segments[0].path == f[n
                - 1].path@
            &&& file_ignored(f, n) == file_ignored(f, n - 1)
        }),
        (f[n - 1].header matches Ok(info) ==> info.data_len == 0 || info@.kind() is None) ==> file_tracks(f, n) == file_tracks(f, n - 1)
            && file_ignored(f, n).len() == file_ignored(f, n - 1).len() + 1 && file_ignored(f, n).last().path == f[n - 1].path@,
{
}

/// A file that was synchronised before is neither used nor reported.
pub proof fn earlier_results_are_passed_over(f: Seq<Found>, n: int, start: int, label: Seq<char>)
    requires
        0 < n <= f.len(),
        track_of(f[n - 1].name@) == Some((start, label)),
        output_label(label),
    ensures
        file_tracks(f, n) == file_tracks(f, n - 1),
        file_ignored(f, n) == file_ignored(f, n - 1),
        file_others(f, n) == file_others(f, n - 1),
{
}

/// Finished tracks are always used; recordings in parts are used besides where
/// one of the files is a part by its name, and other files are reported where
/// none is.
pub proof fn finished_tracks_come_first(f: Seq<Found>, s: Scanned, i: int)
    requires
        0 <= i < file_tracks(f, f.len() as int).len(),
    ensures
        ({
            let (tracks, ignored, files_used, parts_used) = loads(f, s);
            &&& tracks[i] == file_tracks(f, f.len() as int)[i]
            &&& files_used
            &&& parts_used <==> tracks.len() > file_tracks(f, f.len() as int).len()
            &&& (forall|k: int| 0 <= k < f.len() ==> dji_from((#[trigger] f[k]).name@, 0) is None) ==> !parts_used && tracks == file_tracks(
                f,
                f.len() as int,
            ) && ignored.len() == file_ignored(f, f.len() as int).len() + file_others(f, f.len() as int).len()
        }),
{
    let done = file_tracks(f, f.len() as int);
    let recs = recording_views(s.recordings@);
    let more = part_tracks(done, recs, recs.len() as int);
    assert((done + more)[i] == done[i]);
}

/// What a scan skipped is reported here too, but for files that are tracks by
/// their names.
pub proof fn skipped_files_are_reported(s: Seq<Skipped>, names: Seq<String>, n: int)
    requires
        0 < n <= s.len(),
        names.len() == s.len(),
    ensures
        track_of(names[n - 1]@) is None ==> scan_ignored(s, names, n) == scan_ignored(s, names, n - 1).push(s[n - 1]@),
        track_of(names[n - 1]@) is Some ==> scan_ignored(s, names, n) == scan_ignored(s, names, n - 1),
{
}

} // verus!
