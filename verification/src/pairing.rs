//! Which tracks are worth comparing, and the clock that a pair of them shares.

use vstd::prelude::*;

use crate::order::{arranged, in_order, orderly, sort, sorted_from, stands_before, Ranked};
use crate::paths::{common_of, common_place, neighbours_share_their_folder, places, Place, PlaceView};
use crate::text::{lex_less_is_total_order, same};
use crate::track::{label_below, label_less, labels_have_an_order, lemma_round_bound, short_enough, track_views, Track, TrackView, SECOND, START_LIMIT};

verus! {

// ------------------------------------------------------------------ order

impl Ranked for Track {
    /// By start, then by label.
    open spec fn below(self, other: Track) -> bool {
        self.start_secs < other.start_secs || (self.start_secs == other.start_secs && label_below(self.label@, other.label@))
    }

    fn is_below(&self, other: &Track) -> (r: bool) {
        self.start_secs < other.start_secs || (self.start_secs == other.start_secs && label_less(self.label.as_str(), other.label.as_str()))
    }
}

/// The tracks numbered in sequence.
pub open spec fn with_ids(v: Seq<TrackView>) -> Seq<TrackView> {
    Seq::new(v.len(), |i: int| TrackView { id: i, ..v[i] })
}

/// Sorts tracks by start and label and numbers them.
pub fn order_tracks(tracks: &mut Vec<Track>)
    ensures
        exists|v: Seq<Track>| #[trigger] sorted_from(old(tracks)@, v) && track_views(final(tracks)@) == with_ids(track_views(v)),
{
    sort(tracks);
    let ghost v = tracks@;
    let n: usize = tracks.len();
    let mut i: usize = 0;
    while i < n
        invariant
            i <= n == tracks.len(),
            n == v.len(),
            forall|k: int| 0 <= k < i ==> (#[trigger] tracks@[k])@ == with_ids(track_views(v))[k],
            forall|k: int| i <= k < n ==> #[trigger] tracks@[k] == v[k],
        decreases n - i,
    {
        let mut t = tracks.remove(i);
        t.id = i;
        tracks.insert(i, t);
        i = i + 1;
    }
    assert(track_views(tracks@) =~= with_ids(track_views(v)));
}

/// The name of a recorder.
#[derive(Debug, Clone)]
pub struct Label {
    pub text: String,
}

impl Ranked for Label {
    open spec fn below(self, other: Label) -> bool {
        label_below(self.text@, other.text@)
    }

    fn is_below(&self, other: &Label) -> (r: bool) {
        label_less(self.text.as_str(), other.text.as_str())
    }
}

/// The labels of a list.
pub open spec fn label_texts(v: Seq<Label>) -> Seq<Seq<char>> {
    v.map_values(|l: Label| l.text@)
}

/// The labels of the first `n` tracks, each once.
pub open spec fn labels_seen(t: Seq<TrackView>, n: int) -> Seq<Seq<char>>
    decreases n,
{
    if n <= 0 {
        Seq::empty()
    } else if labels_seen(t, n - 1).contains(t[n - 1].label) {
        labels_seen(t, n - 1)
    } else {
        labels_seen(t, n - 1).push(t[n - 1].label)
    }
}

/// Whether a label is in a list.
fn has_label(v: &Vec<Label>, s: &str) -> (r: bool)
    ensures
        r == label_texts(v@).contains(s@),
{
    let mut i: usize = 0;
    while i < v.len()
        invariant
            i <= v.len(),
            forall|k: int| 0 <= k < i ==> (#[trigger] v@[k]).text@ != s@,
        decreases v.len() - i,
    {
        if same(v[i].text.as_str(), s) {
            assert(label_texts(v@)[i as int] == s@);
            return true;
        }
        i = i + 1;
    }
    assert forall|k: int| 0 <= k < label_texts(v@).len() implies #[trigger] label_texts(v@)[k] != s@ by {
        assert(v@[k].text@ != s@);
    }
    false
}

/// The recorders of the tracks, in order.
pub fn labels(tracks: &Vec<Track>) -> (r: Vec<Label>)
    ensures
        exists|v: Seq<Label>| label_texts(v) == labels_seen(track_views(tracks@), tracks.len() as int) && #[trigger] sorted_from(v, r@),
{
    let ghost t = track_views(tracks@);
    let mut out: Vec<Label> = Vec::new();
    let mut i: usize = 0;
    assert(label_texts(out@) =~= Seq::<Seq<char>>::empty());
    while i < tracks.len()
        invariant
            i <= tracks.len(),
            t == track_views(tracks@),
            label_texts(out@) == labels_seen(t, i as int),
        decreases tracks.len() - i,
    {
        assert(t[i as int] == tracks@[i as int]@);
        if !has_label(&out, tracks[i].label.as_str()) {
            let ghost o = out@;
            let l = Label { text: tracks[i].label.clone() };
            out.push(l);
            assert(label_texts(out@) =~= label_texts(o).push(l.text@));
        }
        i = i + 1;
    }
    let ghost v = out@;
    sort(&mut out);
    assert(label_texts(v) == labels_seen(t, tracks.len() as int) && sorted_from(v, out@));
    out
}

// ------------------------------------------------------------------ candidates

/// Shortest track that is compared, in seconds.
pub const MIN_TRACK_S: i128 = 60;

/// How far apart two tracks may lie by their names, in seconds: the search
/// reaches 300 seconds, and 60 of them must overlap.
pub const MAX_DISTANCE_S: i128 = 240;

/// The later of two numbers.
pub open spec fn max(a: int, b: int) -> int {
    if a >= b {
        a
    } else {
        b
    }
}

/// The earlier of two numbers.
pub open spec fn min(a: int, b: int) -> int {
    if a <= b {
        a
    } else {
        b
    }
}

/// Whether a track reaches up to the given second.
pub open spec fn reaches(t: TrackView, second: int) -> bool {
    (second - t.start_secs) * t.info.sample_rate <= t.frames
}

/// Whether two tracks are worth comparing: of two recorders, both long enough,
/// and not too far apart by their names.
pub open spec fn comparable(x: TrackView, y: TrackView) -> bool {
    let s = max(x.start_secs, y.start_secs) - MAX_DISTANCE_S;
    x.label != y.label && x.frames >= MIN_TRACK_S * x.info.sample_rate && y.frames >= MIN_TRACK_S * y.info.sample_rate && reaches(x, s) && reaches(y, s)
}

/// A pair with the smaller label first.
pub open spec fn ordered_pair(t: Seq<TrackView>, i: int, j: int) -> (int, int) {
    if label_below(t[j].label, t[i].label) {
        (j, i)
    } else {
        (i, j)
    }
}

/// The pairs of track `i` with those from `i` to `n` that are worth comparing.
pub open spec fn partners(t: Seq<TrackView>, i: int, n: int) -> Seq<(int, int)>
    decreases n - i,
{
    if n <= i + 1 {
        Seq::empty()
    } else if comparable(t[i], t[n - 1]) {
        partners(t, i, n - 1).push(ordered_pair(t, i, n - 1))
    } else {
        partners(t, i, n - 1)
    }
}

/// All pairs that are worth comparing.
pub open spec fn pairs_of(t: Seq<TrackView>, n: int) -> Seq<(int, int)>
    decreases n,
{
    if n <= 0 {
        Seq::empty()
    } else {
        pairs_of(t, n - 1) + partners(t, n - 1, t.len() as int)
    }
}

/// Bytes of audio of a track stay below this.
pub const BYTE_LIMIT: u64 = 4_000_000_000_000_000_000;

/// Whether a track can be placed in time.
pub open spec fn timed(t: TrackView) -> bool {
    &&& t.info.sound()
    &&& -START_LIMIT <= t.start_secs <= START_LIMIT
    &&& 0 <= t.frames <= u64::MAX
    &&& short_enough(t.frames, t.info.sample_rate)
    &&& t.frames * t.info.block_align <= BYTE_LIMIT
    &&& t.duration == crate::recording::round_div(t.frames * SECOND, t.info.sample_rate)
}

/// Whether all tracks can be placed in time.
pub open spec fn all_timed(t: Seq<TrackView>) -> bool {
    forall|i: int| 0 <= i < t.len() ==> timed(#[trigger] t[i])
}

/// Whether a track can be placed in time.
pub fn is_timed(t: &Track) -> (r: bool)
    ensures
        r == timed(t@),
{
    let i = &t.info;
    if i.channels == 0 || i.sample_rate == 0 || i.block_align == 0 || i.fmt.len() < 16 || i.fmt.len() > 1024 {
        return false;
    }
    if i.data_len % i.block_align as u64 != 0 || i.data_offset > i.file_size || i.data_len > i.file_size - i.data_offset {
        return false;
    }
    if t.start_secs < -START_LIMIT || t.start_secs > START_LIMIT {
        return false;
    }
    let n: i128 = t.frames as i128;
    let rate: i128 = i.sample_rate as i128;
    let align: i128 = i.block_align as i128;
    assert(0 <= n * align <= 0x1_0000_0000_0000_0000_0000_0000) by (nonlinear_arith)
        requires
            0 <= n <= 0x1_0000_0000_0000_0000,
            0 <= align <= 0x1_0000,
    ;
    if n * 1_000_000_000 > 20_000_000_000_000_000 * rate || n * align > 4_000_000_000_000_000_000 {
        return false;
    }
    t.duration == crate::recording::rounded(n * 1_000_000_000, rate)
}

/// The length of a track that can be placed in time, in nanoseconds.
pub fn time_of(t: &Track) -> (r: i64)
    requires
        timed(t@),
    ensures
        r == t@.duration,
{
    proof {
        lemma_round_bound(t@.frames, t@.info.sample_rate);
    }
    t.duration as i64
}

/// Whether a track reaches up to the given second.
fn check_reaches(t: &Track, second: i64) -> (r: bool)
    requires
        timed(t@),
        -2 * START_LIMIT <= second <= 2 * START_LIMIT,
    ensures
        r == reaches(t@, second as int),
{
    let d: i128 = second as i128 - t.start_secs as i128;
    let rate: i128 = t.info.sample_rate as i128;
    assert(-0x1_0000_0000_0000_0000_0000_0000 <= d * rate <= 0x1_0000_0000_0000_0000_0000_0000) by (nonlinear_arith)
        requires
            -0x1_0000_0000_0000_0000 <= d <= 0x1_0000_0000_0000_0000,
            0 <= rate <= 0x1_0000_0000,
    ;
    d * rate <= t.frames as i128
}

/// Whether two tracks are worth comparing.
fn check_comparable(x: &Track, y: &Track) -> (r: bool)
    requires
        timed(x@),
        timed(y@),
    ensures
        r == comparable(x@, y@),
{
    let later: i64 = if x.start_secs >= y.start_secs {
        x.start_secs
    } else {
        y.start_secs
    };
    let s: i64 = later - 240;
    !same(x.label.as_str(), y.label.as_str()) && x.frames as i128 >= 60 * x.info.sample_rate as i128 && y.frames as i128 >= 60
        * y.info.sample_rate as i128 && check_reaches(x, s) && check_reaches(y, s)
}

/// The pairs of tracks that are worth comparing, each with the smaller label first.
pub fn candidate_pairs(tracks: &Vec<Track>) -> (r: Vec<(usize, usize)>)
    requires
        all_timed(track_views(tracks@)),
    ensures
        crate::group::pairs_view(r@) == pairs_of(track_views(tracks@), tracks.len() as int),
{
    let ghost t = track_views(tracks@);
    let n: usize = tracks.len();
    let mut out: Vec<(usize, usize)> = Vec::new();
    let mut i: usize = 0;
    assert(crate::group::pairs_view(out@) =~= Seq::<(int, int)>::empty());
    while i < n
        invariant
            i <= n == tracks.len(),
            t == track_views(tracks@),
            all_timed(t),
            crate::group::pairs_view(out@) == pairs_of(t, i as int),
        decreases n - i,
    {
        let ghost before = crate::group::pairs_view(out@);
        let mut j: usize = i + 1;
        assert(before =~= before + partners(t, i as int, i + 1));
        while j < n
            invariant
                i < j <= n == tracks.len(),
                t == track_views(tracks@),
                all_timed(t),
                crate::group::pairs_view(out@) == before + partners(t, i as int, j as int),
            decreases n - j,
        {
            let ghost o = out@;
            assert(t[i as int] == tracks@[i as int]@ && t[j as int] == tracks@[j as int]@);
            assert(timed(t[i as int]) && timed(t[j as int]));
            if check_comparable(&tracks[i], &tracks[j]) {
                let p: (usize, usize) = if label_less(tracks[j].label.as_str(), tracks[i].label.as_str()) {
                    (j, i)
                } else {
                    (i, j)
                };
                out.push(p);
                assert(crate::group::pairs_view(out@) =~= crate::group::pairs_view(o).push((p.0 as int, p.1 as int)));
                assert(crate::group::pairs_view(out@) =~= before + partners(t, i as int, j + 1));
            }
            j = j + 1;
        }
        i = i + 1;
    }
    out
}

/// What holds of a pair of tracks that is compared: both are among the tracks
/// and worth comparing, and the first has the smaller label.
pub open spec fn well_paired(t: Seq<TrackView>, p: (int, int)) -> bool {
    &&& 0 <= p.0 < t.len()
    &&& 0 <= p.1 < t.len()
    &&& p.0 != p.1
    &&& comparable(t[p.0], t[p.1])
    &&& !label_below(t[p.1].label, t[p.0].label)
}

/// Labels are never before each other.
proof fn lemma_label_below(a: Seq<char>, b: Seq<char>)
    requires
        label_below(a, b),
    ensures
        !label_below(b, a),
{
    lex_less_is_total_order(a, b, a);
}

/// The pairs of one track are well paired.
proof fn lemma_partners(t: Seq<TrackView>, i: int, n: int)
    requires
        0 <= i < t.len(),
        n <= t.len(),
    ensures
        forall|k: int| 0 <= k < partners(t, i, n).len() ==> well_paired(t, #[trigger] partners(t, i, n)[k]),
    decreases n - i,
{
    if n > i + 1 {
        lemma_partners(t, i, n - 1);
        if label_below(t[n - 1].label, t[i].label) {
            lemma_label_below(t[n - 1].label, t[i].label);
        }
        let before = partners(t, i, n - 1);
        let all = partners(t, i, n);
        assert(comparable(t[i], t[n - 1]) == comparable(t[n - 1], t[i]));
        assert forall|k: int| 0 <= k < all.len() implies well_paired(t, #[trigger] all[k]) by {
            if k < before.len() {
                assert(all[k] == before[k]);
            } else {
                assert(all[k] == ordered_pair(t, i, n - 1));
            }
        }
    }
}

/// Every pair that is compared joins two recorders, and its first track, which
/// is heard on the left, has the smaller label.
pub proof fn smaller_label_comes_first(t: Seq<TrackView>, n: int)
    requires
        0 <= n <= t.len(),
    ensures
        forall|k: int| 0 <= k < pairs_of(t, n).len() ==> well_paired(t, #[trigger] pairs_of(t, n)[k]),
    decreases n,
{
    if n > 0 {
        smaller_label_comes_first(t, n - 1);
        lemma_partners(t, n - 1, t.len() as int);
        let a = pairs_of(t, n - 1);
        let b = partners(t, n - 1, t.len() as int);
        assert forall|k: int| 0 <= k < pairs_of(t, n).len() implies well_paired(t, #[trigger] pairs_of(t, n)[k]) by {
            if k < a.len() {
                assert(pairs_of(t, n)[k] == a[k]);
            } else {
                assert(pairs_of(t, n)[k] == b[k - a.len()]);
            }
        }
    }
}

/// Whether a track is in one of the pairs.
pub open spec fn paired(p: Seq<(int, int)>, x: int) -> bool {
    exists|k: int| 0 <= k < p.len() && ((#[trigger] p[k]).0 == x || p[k].1 == x)
}

/// Which of the first `n` tracks are in one of the pairs.
pub open spec fn needed(p: Seq<(int, int)>, n: int) -> Seq<int>
    decreases n,
{
    if n <= 0 {
        Seq::empty()
    } else if paired(p, n - 1) {
        needed(p, n - 1).push(n - 1)
    } else {
        needed(p, n - 1)
    }
}

/// Which of `n` tracks are to be analysed: those in one of the pairs.
pub fn needed_tracks(pairs: &Vec<(usize, usize)>, n: usize) -> (r: Vec<usize>)
    ensures
        crate::scan::indices(r@) == needed(crate::group::pairs_view(pairs@), n as int),
{
    let ghost p = crate::group::pairs_view(pairs@);
    let mut out: Vec<usize> = Vec::new();
    let mut i: usize = 0;
    assert(crate::scan::indices(out@) =~= Seq::<int>::empty());
    while i < n
        invariant
            i <= n,
            p == crate::group::pairs_view(pairs@),
            crate::scan::indices(out@) == needed(p, i as int),
        decreases n - i,
    {
        let mut found = false;
        let mut k: usize = 0;
        while k < pairs.len()
            invariant
                k <= pairs.len(),
                p == crate::group::pairs_view(pairs@),
                found == exists|j: int| 0 <= j < k && ((#[trigger] p[j]).0 == i || p[j].1 == i),
            decreases pairs.len() - k,
        {
            assert(p[k as int] == (pairs@[k as int].0 as int, pairs@[k as int].1 as int));
            if pairs[k].0 == i || pairs[k].1 == i {
                found = true;
            }
            k = k + 1;
        }
        if found {
            let ghost o = out@;
            out.push(i);
            assert(crate::scan::indices(out@) =~= crate::scan::indices(o).push(i as int));
        }
        i = i + 1;
    }
    out
}

// ------------------------------------------------------------------ where results go

/// Where synchronised files go: in the folder that holds all sources, or next
/// to it where it is the folder of the tracks.
pub open spec fn sync_place(roots: Seq<PlaceView>) -> PlaceView {
    let c = common_place(roots);
    if c.is_named("tracks"@) {
        c.up().child("sync"@)
    } else {
        c.child("sync"@)
    }
}

/// Where synchronised files go.
pub fn default_out_dir(roots: &Vec<Place>) -> (r: Place)
    requires
        roots.len() > 0,
    ensures
        r@ == sync_place(places(roots@)),
{
    let c = common_of(roots);
    if c.is_named("tracks") {
        c.up().child("sync")
    } else {
        c.child("sync")
    }
}

/// Synchronised files lie inside the folder given or next to the two given; from
/// a folder of tracks they go beside it, not into it.
pub proof fn results_lie_beside_the_tracks(p: PlaceView, a: Seq<char>, b: Seq<char>)
    requires
        p.parts.len() > 0,
        a != b,
        p.parts.last() != "tracks"@,
    ensures
        sync_place(seq![p]) == p.child("sync"@),
        sync_place(seq![p.child(a), p.child(b)]) == p.child("sync"@),
        sync_place(seq![p.child("tracks"@)]) == p.child("sync"@),
{
    neighbours_share_their_folder(p, a, b);
    neighbours_share_their_folder(p.child("tracks"@), a, b);
    neighbours_share_their_folder(p, "tracks"@, b);
}

/// Two tracks of different recorders that are a minute long at least, where the
/// later begins no more than four minutes after the end of the earlier, are
/// compared, whatever their order in the list.
pub proof fn close_tracks_are_compared(t: Seq<TrackView>, i: int, j: int)
    requires
        0 <= i < t.len(),
        0 <= j < t.len(),
        i != j,
        t[i].label != t[j].label,
        t[i].info.sample_rate > 0,
        t[j].info.sample_rate > 0,
        t[i].frames >= 60 * t[i].info.sample_rate,
        t[j].frames >= 60 * t[j].info.sample_rate,
        t[i].start_secs <= t[j].start_secs,
        (t[j].start_secs - 240 - t[i].start_secs) * t[i].info.sample_rate <= t[i].frames,
    ensures
        pairs_of(t, t.len() as int).contains((i, j)) || pairs_of(t, t.len() as int).contains((j, i)),
        label_below(t[i].label, t[j].label) ==> pairs_of(t, t.len() as int).contains((i, j)),
        label_below(t[j].label, t[i].label) ==> pairs_of(t, t.len() as int).contains((j, i)),
{
    let n = t.len() as int;
    labels_have_an_order(t[i].label, t[j].label);
    assert((t[j].start_secs - 240 - t[j].start_secs) * t[j].info.sample_rate <= t[j].frames) by (nonlinear_arith)
        requires
            t[j].info.sample_rate > 0,
            t[j].frames >= 60 * t[j].info.sample_rate,
    ;
    assert(comparable(t[i], t[j]));
    assert(comparable(t[j], t[i]));
    if i < j {
        lemma_pair_listed(t, n, i, j);
    } else {
        lemma_pair_listed(t, n, j, i);
    }
}

proof fn lemma_partner_listed(t: Seq<TrackView>, i: int, j: int, n: int)
    requires
        0 <= i < j < n <= t.len(),
        comparable(t[i], t[j]),
    ensures
        partners(t, i, n).contains(ordered_pair(t, i, j)),
    decreases n,
{
    let v = partners(t, i, n);
    if n - 1 == j {
        assert(v.last() == ordered_pair(t, i, j));
    } else {
        lemma_partner_listed(t, i, j, n - 1);
        let w = partners(t, i, n - 1);
        let k = choose|k: int| 0 <= k < w.len() && w[k] == ordered_pair(t, i, j);
        assert(v[k] == w[k]);
    }
}

proof fn lemma_pair_listed(t: Seq<TrackView>, n: int, i: int, j: int)
    requires
        0 <= i < j < t.len(),
        i < n <= t.len(),
        comparable(t[i], t[j]),
    ensures
        pairs_of(t, n).contains(ordered_pair(t, i, j)),
    decreases n,
{
    let v = pairs_of(t, n);
    let before = pairs_of(t, n - 1);
    if n - 1 == i {
        lemma_partner_listed(t, i, j, t.len() as int);
        let w = partners(t, i, t.len() as int);
        let k = choose|k: int| 0 <= k < w.len() && w[k] == ordered_pair(t, i, j);
        assert(v[before.len() + k] == w[k]);
    } else {
        lemma_pair_listed(t, n - 1, i, j);
        let k = choose|k: int| 0 <= k < before.len() && before[k] == ordered_pair(t, i, j);
        assert(v[k] == before[k]);
    }
}

/// Tracks of the same recorder are not compared, nor one that is shorter than a
/// minute, nor one that ends more than four minutes before the other begins.
pub proof fn unfit_tracks_are_not_compared(t: Seq<TrackView>, k: int)
    requires
        0 <= k < pairs_of(t, t.len() as int).len(),
    ensures
        ({
            let p = pairs_of(t, t.len() as int)[k];
            let (x, y) = (t[p.0], t[p.1]);
            &&& x.label != y.label
            &&& x.frames >= 60 * x.info.sample_rate
            &&& y.frames >= 60 * y.info.sample_rate
            &&& (y.start_secs - 240 - x.start_secs) * x.info.sample_rate <= x.frames || y.start_secs < x.start_secs
            &&& (x.start_secs - 240 - y.start_secs) * y.info.sample_rate <= y.frames || x.start_secs < y.start_secs
        }),
{
    smaller_label_comes_first(t, t.len() as int);
    assert(well_paired(t, pairs_of(t, t.len() as int)[k]));
}

/// Exactly the tracks that are compared with another one are analysed, each once
/// and in order.
pub proof fn compared_tracks_are_analysed(p: Seq<(int, int)>, n: int)
    requires
        0 <= n,
    ensures
        forall|k: int| 0 <= k < p.len() && 0 <= (#[trigger] p[k]).0 < n ==> needed(p, n).contains(p[k].0),
        forall|k: int| 0 <= k < p.len() && 0 <= (#[trigger] p[k]).1 < n ==> needed(p, n).contains(p[k].1),
        forall|m: int|
            0 <= m < needed(p, n).len() ==> 0 <= #[trigger] needed(p, n)[m] < n && (exists|k: int|
                0 <= k < p.len() && ((#[trigger] p[k]).0 == needed(p, n)[m] || p[k].1 == needed(p, n)[m])),
        forall|l: int, m: int| 0 <= l < m < needed(p, n).len() ==> #[trigger] needed(p, n)[l] < #[trigger] needed(p, n)[m],
    decreases n,
{
    if n > 0 {
        compared_tracks_are_analysed(p, n - 1);
        let v = needed(p, n);
        let w = needed(p, n - 1);
        assert forall|x: int| #[trigger] w.contains(x) implies v.contains(x) by {
            let m = choose|m: int| 0 <= m < w.len() && w[m] == x;
            assert(v[m] == x);
        }
        assert forall|k: int| 0 <= k < p.len() && 0 <= (#[trigger] p[k]).0 < n implies v.contains(p[k].0) by {
            if p[k].0 == n - 1 {
                assert(paired(p, n - 1));
                assert(v.last() == n - 1);
            }
        }
        assert forall|k: int| 0 <= k < p.len() && 0 <= (#[trigger] p[k]).1 < n implies v.contains(p[k].1) by {
            if p[k].1 == n - 1 {
                assert(paired(p, n - 1));
                assert(v.last() == n - 1);
            }
        }
        assert forall|m: int| 0 <= m < v.len() implies 0 <= #[trigger] v[m] < n && (exists|k: int|
            0 <= k < p.len() && ((#[trigger] p[k]).0 == v[m] || p[k].1 == v[m])) by {
            if m < w.len() {
                assert(v[m] == w[m]);
            }
        }
    }
}

/// Tracks that were put in order are numbered in sequence, none begins before
/// the one in front of it, and of those that begin together the one with the
/// smaller label comes first.
pub proof fn tracks_stand_by_their_start(before: Seq<Track>, v: Seq<Track>, i: int, j: int)
    requires
        orderly(before),
        sorted_from(before, v),
        0 <= i < j < v.len(),
    ensures
        with_ids(track_views(v))[i].id == i,
        with_ids(track_views(v))[i].start_secs <= with_ids(track_views(v))[j].start_secs,
        with_ids(track_views(v))[i].start_secs == with_ids(track_views(v))[j].start_secs ==> !label_below(
            with_ids(track_views(v))[j].label,
            with_ids(track_views(v))[i].label,
        ),
        with_ids(track_views(v))[i].label == v[i].label@,
        with_ids(track_views(v))[i].frames == v[i].frames,
        v.len() == before.len(),
{
    let p = choose|p: Seq<int>| #[trigger] arranged(before, v, p) && (orderly(before) ==> in_order(before, p));
    assert(v[i] == before[p[i]] && v[j] == before[p[j]]);
    assert(stands_before(before, p[i], p[j]));
    assert(!v[j].below(v[i]));
}

/// Of two numbers, one is the later and one the earlier.
pub proof fn one_is_later(a: int, b: int)
    ensures
        max(a, b) >= a && max(a, b) >= b,
        min(a, b) <= a && min(a, b) <= b,
        max(a, b) + min(a, b) == a + b,
        max(a, b) == a || max(a, b) == b,
{
}

/// The recorders are those of the tracks, each once.
pub proof fn recorders_are_listed_once(t: Seq<TrackView>, n: int)
    requires
        0 <= n <= t.len(),
    ensures
        labels_seen(t, n).no_duplicates(),
        forall|i: int| 0 <= i < n ==> labels_seen(t, n).contains((#[trigger] t[i]).label),
        forall|x: Seq<char>| #[trigger] labels_seen(t, n).contains(x) ==> exists|i: int| 0 <= i < n && (#[trigger] t[i]).label == x,
    decreases n,
{
    if n > 0 {
        recorders_are_listed_once(t, n - 1);
        let v = labels_seen(t, n);
        let w = labels_seen(t, n - 1);
        let x = t[n - 1].label;
        assert forall|y: Seq<char>| #[trigger] w.contains(y) implies v.contains(y) by {
            let k = choose|k: int| 0 <= k < w.len() && w[k] == y;
            assert(v[k] == y);
        }
        if !w.contains(x) {
            assert(v.last() == x);
            assert(v.no_duplicates());
        }
        assert forall|y: Seq<char>| #[trigger] v.contains(y) implies exists|i: int| 0 <= i < n && (#[trigger] t[i]).label == y by {
            let k = choose|k: int| 0 <= k < v.len() && v[k] == y;
            if k < w.len() {
                assert(w[k] == y);
                assert(w.contains(y));
            } else {
                assert(t[n - 1].label == y);
            }
        }
    }
}

proof fn lemma_partners_climb(t: Seq<TrackView>, i: int, n: int)
    requires
        0 <= i,
    ensures
        forall|k: int| 0 <= k < partners(t, i, n).len() ==> min((#[trigger] partners(t, i, n)[k]).0, partners(t, i, n)[k].1) == i,
        forall|k: int| 0 <= k < partners(t, i, n).len() ==> i < max((#[trigger] partners(t, i, n)[k]).0, partners(t, i, n)[k].1) < n,
        forall|k: int, l: int|
            #![trigger partners(t, i, n)[k], partners(t, i, n)[l]]
            0 <= k < l < partners(t, i, n).len() ==> max(partners(t, i, n)[k].0, partners(t, i, n)[k].1) < max(partners(t, i, n)[l].0, partners(t, i, n)[l].1),
    decreases n - i,
{
    if n > i + 1 {
        lemma_partners_climb(t, i, n - 1);
        let v = partners(t, i, n);
        let w = partners(t, i, n - 1);
        assert(forall|k: int| 0 <= k < w.len() ==> v[k] == w[k]);
    }
}

/// No two tracks are compared twice, in whatever order.
pub proof fn pairs_are_compared_once(t: Seq<TrackView>, n: int)
    requires
        0 <= n,
    ensures
        forall|k: int, l: int|
            #![trigger pairs_of(t, n)[k], pairs_of(t, n)[l]]
            0 <= k < l < pairs_of(t, n).len() ==> pairs_of(t, n)[k] != pairs_of(t, n)[l] && pairs_of(t, n)[k] != (pairs_of(t, n)[l].1, pairs_of(t, n)[l].0),
        forall|k: int| 0 <= k < pairs_of(t, n).len() ==> min((#[trigger] pairs_of(t, n)[k]).0, pairs_of(t, n)[k].1) < n,
    decreases n,
{
    if n > 0 {
        pairs_are_compared_once(t, n - 1);
        lemma_partners_climb(t, n - 1, t.len() as int);
        let v = pairs_of(t, n);
        let w = pairs_of(t, n - 1);
        let x = partners(t, n - 1, t.len() as int);
        assert(forall|k: int| 0 <= k < w.len() ==> v[k] == w[k]);
        assert(forall|k: int| w.len() <= k < v.len() ==> v[k] == x[k - w.len()]);
    }
}

} // verus!
