//! Pieces with their names, clocks and sizes, as they are shown and written.

use vstd::prelude::*;

use crate::alignment::{frame_at, seconds, to_frame, to_seconds, REACH_LIMIT};
use crate::calendar::{civil, civil_from_secs, date_text, fmt_date, fmt_time, time_text};
use crate::dropouts::{dropouts_closed, extend_alone, gaps_taken_in, lemma_total_grows, merge_dropouts, mono_pieces_stay_as_they_are};
use crate::names::{mono_file_name, mono_label, numbered, numbered_name, stem, stereo_file_name, stereo_label, track_file};
use crate::order::{arranged, in_order, orderly, sort, sorted_from, Ranked};
use crate::pairing::{max, min, timed};
use crate::coverage::{holds, is_held, is_short_rest, lasting, no_audio_is_lost, NEAR};
use crate::lane::lemma_frame_ok;
use crate::plan::{divide, lemma_quiet_is_countable, lengths, piece_ok, piece_views, pieces, pieces_begin_on_time, pieces_begin_quiet, pieces_ok, plannable, silences_ok, total, Pair, Piece, PieceView, START_BASE};
use crate::sums::lemma_sum_push;
use crate::text::{dec, digit_char, lex_less, lex_less_is_total_order, number, same, text_less, texts};
use crate::track::{track_views, Track, TrackView};
use crate::wav::{output_size, total_size};

verus! {

/// A piece as it is shown and written.
#[derive(Debug, Clone)]
pub struct Item {
    pub id: usize,
    pub name: String,
    pub day: String,
    pub start: String,
    pub end: String,
    /// Nanoseconds since local midnight at the start.
    pub clock0: i64,
    /// Nanoseconds.
    pub duration: i64,
    /// Nanoseconds in which one recorder was switched off inside this piece.
    pub dropout: i128,
    pub bytes: u64,
    pub piece: Piece,
}

/// An item as mathematical values.
pub struct ItemView {
    pub id: int,
    pub name: Seq<char>,
    pub day: Seq<char>,
    pub start: Seq<char>,
    pub end: Seq<char>,
    pub clock0: int,
    pub duration: int,
    pub dropout: int,
    pub bytes: int,
    pub piece: PieceView,
}

impl View for Item {
    type V = ItemView;

    open spec fn view(&self) -> ItemView {
        ItemView {
            id: self.id as int,
            name: self.name@,
            day: self.day@,
            start: self.start@,
            end: self.end@,
            clock0: self.clock0 as int,
            duration: self.duration as int,
            dropout: self.dropout as int,
            bytes: self.bytes as int,
            piece: self.piece@,
        }
    }
}

/// The items of a list.
pub open spec fn item_views(v: Seq<Item>) -> Seq<ItemView> {
    v.map_values(|i: Item| i@)
}

impl Item {
    /// The kind of file in words.
    pub fn kind(&self) -> (r: &'static str)
        ensures
            r@ == if self.piece.stereo {
                "stereo"@
            } else {
                "mono"@
            },
    {
        if self.piece.stereo {
            "stereo"
        } else {
            "mono"
        }
    }

    /// Why this stretch is what it is.
    pub fn reason(&self) -> (r: &'static str)
        ensures
            r@ == if self.piece.stereo {
                "gemeinsam"@
            } else if self.piece.alone {
                "allein"@
            } else {
                "getrennt"@
            },
    {
        if self.piece.stereo {
            "gemeinsam"
        } else if self.piece.alone {
            "allein"
        } else {
            "getrennt"
        }
    }
}

// ------------------------------------------------------------------ sizes

/// First frame and one past the last frame of the time from `t0` to `t1` of a track.
pub open spec fn frame_range(t: TrackView, t0: int, t1: int) -> (int, int) {
    let rate = t.info.sample_rate;
    let f1 = min(max(frame_at(t1, rate), 0), t.frames);
    (min(frame_at(max(t0, 0), rate), f1), f1)
}

/// First frame and one past the last frame of a time of a track.
pub fn mono_frames(t: &Track, t0: i64, t1: i64) -> (r: (u64, u64))
    requires
        -2 * REACH_LIMIT <= t0 <= 2 * REACH_LIMIT,
        -2 * REACH_LIMIT <= t1 <= 2 * REACH_LIMIT,
    ensures
        (r.0 as int, r.1 as int) == frame_range(t@, t0 as int, t1 as int),
        r.0 <= r.1 <= t.frames,
{
    let rate: u32 = t.info.sample_rate;
    let from: i64 = if t0 >= 0 {
        t0
    } else {
        0
    };
    let a: i64 = to_frame(from, rate);
    let b: i64 = to_frame(t1, rate);
    let b: u64 = if b >= 0 {
        b as u64
    } else {
        0
    };
    let f1: u64 = if b <= t.frames {
        b
    } else {
        t.frames
    };
    let f0: u64 = if a as u64 <= f1 {
        a as u64
    } else {
        f1
    };
    (f0, f1)
}

/// Frames of a stereo piece.
pub open spec fn stereo_frames(t: Seq<TrackView>, v: PieceView) -> int {
    max(frame_at(v.t1 - v.t0, t[v.reference].info.sample_rate), 0)
}

/// Size of the file of a piece.
pub open spec fn file_bytes(t: Seq<TrackView>, v: PieceView) -> int {
    if v.stereo {
        total_size(16, stereo_frames(t, v) * 8)
    } else {
        let x = t[v.left];
        let (f0, f1) = frame_range(x, v.t0, v.t1);
        total_size(x.info.fmt.len() as int, (f1 - f0) * x.info.block_align)
    }
}

/// Whole seconds of a piece.
pub open spec fn piece_seconds(v: PieceView) -> int {
    max(seconds(v.t1 - v.t0), 0)
}

/// What a piece is named for.
pub open spec fn piece_label(t: Seq<TrackView>, v: PieceView) -> Seq<char> {
    if v.stereo {
        stereo_label(
            t[v.left].label,
            match v.right {
                Some(r) => t[r].label,
                None => Seq::empty(),
            },
        )
    } else {
        mono_label(t[v.left].label)
    }
}

/// The item of a piece.
pub open spec fn item_of(t: Seq<TrackView>, v: PieceView) -> ItemView {
    let a = civil(v.start_secs);
    let e = civil(v.start_secs + piece_seconds(v));
    ItemView {
        id: 0,
        name: track_file(v.start_secs, piece_seconds(v), piece_label(t, v)),
        day: date_text(a.0, a.1, a.2),
        start: time_text(a.3, a.4, a.5),
        end: time_text(e.3, e.4, e.5),
        clock0: t[v.reference].clock0 * 1_000_000_000 + v.t0,
        duration: v.t1 - v.t0,
        dropout: total(v.silent),
        bytes: file_bytes(t, v),
        piece: v,
    }
}

/// Whether the starts of tracks on the clock are times of a day.
pub open spec fn clocks_ok(t: Seq<TrackView>) -> bool {
    forall|i: int| 0 <= i < t.len() ==> 0 <= (#[trigger] t[i]).clock0 < 86_400
}

/// Size of the file of a piece.
fn bytes_of(tracks: &Vec<Track>, pairs: &Vec<Pair>, v: &Piece) -> (r: u64)
    requires
        plannable(track_views(tracks@), pairs@),
        piece_ok(track_views(tracks@), pairs@, v@),
    ensures
        r == file_bytes(track_views(tracks@), v@),
{
    let ghost t = track_views(tracks@);
    if v.stereo {
        let x = &tracks[v.reference];
        assert(t[v.reference as int] == x@);
        let n: i64 = to_frame(v.t1 - v.t0, x.info.sample_rate);
        proof {
            assert(timed(t[v.reference as int]));
            let rate = x.info.sample_rate as int;
            lemma_frame_ok(v.t1 - v.t0, rate, 520_000_000);
            assert(520_000_000 * rate <= 520_000_000 * 4_294_967_295) by (nonlinear_arith)
                requires
                    rate <= 4_294_967_295,
            ;
        }
        let n: u64 = if n >= 0 {
            n as u64
        } else {
            0
        };
        output_size(16, n * 8)
    } else {
        let x = &tracks[v.left];
        assert(t[v.left as int] == x@ && timed(t[v.left as int]));
        let (f0, f1) = mono_frames(x, v.t0, v.t1);
        proof {
            let n = f1 - f0;
            let align = x.info.block_align as int;
            assert(0 <= n * align <= x.frames * align) by (nonlinear_arith)
                requires
                    0 <= n <= x.frames,
                    align >= 0,
            ;
        }
        output_size(x.info.fmt.len(), (f1 - f0) * x.info.block_align as u64)
    }
}

/// All silences together.
fn sum_silences(v: &Piece) -> (r: i128)
    requires
        silences_ok(v@.silent),
    ensures
        r == total(v@.silent),
{
    let ghost s = v@.silent;
    assert(s.len() == v.silent.len());
    let mut sum: i128 = 0;
    let mut i: usize = 0;
    assert(lengths(s.take(0)).len() == 0);
    while i < v.silent.len()
        invariant
            i <= v.silent.len(),
            s == v@.silent,
            s.len() == v.silent.len(),
            silences_ok(s),
            sum == total(s.take(i as int)),
        decreases v.silent.len() - i,
    {
        assert(s[i as int] == v.silent@[i as int]@);
        proof {
            lemma_total_grows(s, i as int);
            lemma_total_grows(s, i + 1);
            assert(lengths(s.take(i + 1)) =~= lengths(s.take(i as int)).push(s[i as int].length));
            lemma_sum_push(lengths(s.take(i as int)), s[i as int].length);
        }
        sum = sum + v.silent[i].length;
        i = i + 1;
    }
    assert(s.take(i as int) =~= s);
    sum
}

/// The item of a piece.
fn make_item(tracks: &Vec<Track>, pairs: &Vec<Pair>, v: Piece) -> (r: Item)
    requires
        plannable(track_views(tracks@), pairs@),
        clocks_ok(track_views(tracks@)),
        piece_ok(track_views(tracks@), pairs@, v@),
    ensures
        r@ == item_of(track_views(tracks@), v@),
{
    let ghost t = track_views(tracks@);
    assert(t[v.reference as int] == tracks@[v.reference as int]@ && t[v.left as int] == tracks@[v.left as int]@);
    assert(0 <= t[v.reference as int].clock0 < 86_400);
    let duration: i64 = v.t1 - v.t0;
    let secs: i64 = to_seconds(duration);
    let secs: i64 = if secs >= 0 {
        secs
    } else {
        0
    };
    let (y, mo, d, h, mi, s) = civil_from_secs(v.start_secs);
    let (_, _, _, eh, emi, es) = civil_from_secs(v.start_secs + secs);
    let name = if v.stereo {
        match v.right {
            Some(r) => {
                assert(t[r as int] == tracks@[r as int]@);
                stereo_file_name(v.start_secs, secs, tracks[v.left].label.as_str(), tracks[r].label.as_str())
            },
            None => {
                let none = String::new();
                assert(none@ =~= Seq::<char>::empty());
                stereo_file_name(v.start_secs, secs, tracks[v.left].label.as_str(), none.as_str())
            },
        }
    } else {
        mono_file_name(v.start_secs, secs, tracks[v.left].label.as_str())
    };
    Item {
        id: 0,
        name,
        day: fmt_date(y, mo, d),
        start: fmt_time(h, mi, s),
        end: fmt_time(eh, emi, es),
        clock0: tracks[v.reference].clock0 * 1_000_000_000 + v.t0,
        duration,
        dropout: sum_silences(&v),
        bytes: bytes_of(tracks, pairs, &v),
        piece: v,
    }
}

// ------------------------------------------------------------------ order

impl Ranked for Item {
    /// By start, then mono before stereo, then by name.
    open spec fn below(self, other: Item) -> bool {
        let a = self.piece;
        let b = other.piece;
        a.start_secs < b.start_secs || (a.start_secs == b.start_secs && ((!a.stereo && b.stereo) || (a.stereo == b.stereo && lex_less(
            self.name@,
            other.name@,
        ))))
    }

    fn is_below(&self, other: &Item) -> (r: bool) {
        let a = &self.piece;
        let b = &other.piece;
        a.start_secs < b.start_secs || (a.start_secs == b.start_secs && ((!a.stereo && b.stereo) || (a.stereo == b.stereo && text_less(
            self.name.as_str(),
            other.name.as_str(),
        ))))
    }
}

/// Sorting items never contradicts itself.
pub proof fn items_are_orderly(v: Seq<Item>)
    ensures
        orderly(v),
{
    assert forall|i: int, j: int| #![trigger v[i], v[j]] 0 <= i < v.len() && 0 <= j < v.len() && v[i].below(v[j]) implies !v[j].below(v[i]) by {
        lex_less_is_total_order(v[i].name@, v[j].name@, v[i].name@);
    }
    assert forall|i: int, j: int, k: int|
        #![trigger v[i], v[j], v[k]]
        0 <= i < v.len() && 0 <= j < v.len() && 0 <= k < v.len() && v[i].below(v[k]) implies v[i].below(v[j]) || v[j].below(v[k]) by {
        let (a, b, c) = (v[i].name@, v[j].name@, v[k].name@);
        lex_less_is_total_order(a, b, c);
        lex_less_is_total_order(b, a, c);
        lex_less_is_total_order(a, c, b);
        lex_less_is_total_order(c, b, a);
        lex_less_is_total_order(b, c, a);
        lex_less_is_total_order(c, a, b);
    }
}

// ------------------------------------------------------------------ names

/// The first number from `n` on whose name is not taken, after at most `tries`
/// that are.
pub open spec fn first_free(used: Seq<Seq<char>>, name: Seq<char>, n: nat, tries: nat) -> nat
    decreases tries,
{
    if tries == 0 || !used.contains(numbered(name, n)) {
        n
    } else {
        first_free(used, name, n + 1, (tries - 1) as nat)
    }
}

/// A name that is not taken: the wanted one, or the first free number behind it.
pub open spec fn unique_name(used: Seq<Seq<char>>, name: Seq<char>) -> Seq<char> {
    if used.contains(name) {
        numbered(name, first_free(used, name, 2, used.len()))
    } else {
        name
    }
}

/// The names that the first `n` items get.
pub open spec fn names_given(v: Seq<ItemView>, n: int) -> Seq<Seq<char>>
    decreases n,
{
    if n <= 0 {
        Seq::empty()
    } else {
        let u = names_given(v, n - 1);
        u.push(unique_name(u, v[n - 1].name))
    }
}

/// The items numbered in sequence, each with a name of its own.
pub open spec fn told_apart(v: Seq<ItemView>) -> Seq<ItemView> {
    Seq::new(v.len(), |i: int| ItemView { id: i, name: names_given(v, v.len() as int)[i], ..v[i] })
}

/// A number is read back from its decimal form.
pub proof fn lemma_number_of_dec(n: nat)
    ensures
        number(dec(n)) == n,
    decreases n,
{
    if n >= 10 {
        lemma_number_of_dec(n / 10);
        let d = dec(n);
        assert(d.drop_last() =~= dec(n / 10));
        assert(d.last() == digit_char(n % 10));
    } else {
        let d = dec(n);
        assert(d.drop_last() =~= Seq::<char>::empty());
        assert(number(Seq::<char>::empty()) == 0);
        assert(d.last() == digit_char(n));
    }
}

/// Different numbers give different names.
proof fn lemma_numbered_differs(name: Seq<char>, a: nat, b: nat)
    requires
        numbered(name, a) == numbered(name, b),
    ensures
        a == b,
{
    let front = stem(name) + "_"@;
    let x = numbered(name, a);
    let y = numbered(name, b);
    let back = ".wav"@;
    assert(x.subrange(front.len() as int, x.len() - back.len()) =~= dec(a));
    assert(y.subrange(front.len() as int, y.len() - back.len()) =~= dec(b));
    lemma_number_of_dec(a);
    lemma_number_of_dec(b);
}

/// Where the tried names are all taken, there are at least as many taken ones.
proof fn lemma_taken(used: Seq<Seq<char>>, name: Seq<char>, from: nat, count: nat)
    requires
        forall|k: nat| from <= k < from + count ==> used.contains(#[trigger] numbered(name, k)),
    ensures
        count <= used.len(),
    decreases count,
{
    let s = Set::new(|x: Seq<char>| exists|k: nat| from <= k < from + count && x == #[trigger] numbered(name, k));
    lemma_numbered_set(name, from, count);
    assert(s.subset_of(used.to_set())) by {
        assert forall|x: Seq<char>| s.contains(x) implies used.to_set().contains(x) by {
            let k = choose|k: nat| from <= k < from + count && x == #[trigger] numbered(name, k);
            assert(used.contains(numbered(name, k)));
        }
    }
    vstd::seq_lib::seq_to_set_is_finite(used);
    vstd::set_lib::lemma_len_subset(s, used.to_set());
    used.lemma_cardinality_of_set();
}

/// So many numbers give so many names.
proof fn lemma_numbered_set(name: Seq<char>, from: nat, count: nat)
    ensures
        ({
            let s = Set::new(|x: Seq<char>| exists|k: nat| from <= k < from + count && x == #[trigger] numbered(name, k));
            s.finite() && s.len() == count
        }),
    decreases count,
{
    let s = Set::new(|x: Seq<char>| exists|k: nat| from <= k < from + count && x == #[trigger] numbered(name, k));
    if count == 0 {
        assert(s =~= Set::<Seq<char>>::empty());
    } else {
        let c = (count - 1) as nat;
        lemma_numbered_set(name, from, c);
        let r = Set::new(|x: Seq<char>| exists|k: nat| from <= k < from + c && x == #[trigger] numbered(name, k));
        let y = numbered(name, from + c);
        assert(!r.contains(y)) by {
            if r.contains(y) {
                let k = choose|k: nat| from <= k < from + c && y == #[trigger] numbered(name, k);
                lemma_numbered_differs(name, k, from + c);
            }
        }
        assert(s =~= r.insert(y)) by {
            assert forall|x: Seq<char>| s.contains(x) == r.insert(y).contains(x) by {
                if s.contains(x) {
                    let k = choose|k: nat| from <= k < from + count && x == #[trigger] numbered(name, k);
                    if k < from + c {
                        assert(r.contains(x));
                    }
                }
                if x == y {
                    assert(from <= from + c < from + count && x == numbered(name, from + c));
                } else if r.contains(x) {
                    let k = choose|k: nat| from <= k < from + c && x == #[trigger] numbered(name, k);
                    assert(from <= k < from + count && x == numbered(name, k));
                }
            }
        }
    }
}

/// The name found is not taken.
proof fn lemma_first_free(used: Seq<Seq<char>>, name: Seq<char>, from: nat, done: nat, tries: nat)
    requires
        done + tries == used.len(),
        forall|k: nat| from <= k < from + done ==> used.contains(#[trigger] numbered(name, k)),
    ensures
        !used.contains(numbered(name, first_free(used, name, from + done, tries))),
    decreases tries,
{
    let n = from + done;
    if used.contains(numbered(name, n)) {
        if tries == 0 {
            assert forall|k: nat| from <= k < from + (done + 1) implies used.contains(#[trigger] numbered(name, k)) by {
                if k < from + done {
                } else {
                    assert(k == n);
                }
            }
            lemma_taken(used, name, from, done + 1);
        } else {
            assert forall|k: nat| from <= k < from + (done + 1) implies used.contains(#[trigger] numbered(name, k)) by {
                if k < from + done {
                } else {
                    assert(k == n);
                }
            }
            lemma_first_free(used, name, from, done + 1, (tries - 1) as nat);
        }
    }
}

/// No two items get the same name.
pub proof fn names_are_unique(v: Seq<ItemView>, n: int)
    requires
        0 <= n <= v.len(),
    ensures
        names_given(v, n).len() == n,
        forall|i: int, j: int| 0 <= i < j < n ==> #[trigger] names_given(v, n)[i] != #[trigger] names_given(v, n)[j],
    decreases n,
{
    if n > 0 {
        names_are_unique(v, n - 1);
        let u = names_given(v, n - 1);
        let w = names_given(v, n);
        lemma_first_free(u, v[n - 1].name, 2, 0, u.len());
        assert(!u.contains(w[n - 1]));
        assert forall|i: int, j: int| 0 <= i < j < n implies #[trigger] w[i] != #[trigger] w[j] by {
            assert(w[i] == u[i]);
            if j < n - 1 {
                assert(w[j] == u[j]);
            }
        }
    }
}

/// Whether a name is in a list.
pub fn has_text(v: &Vec<String>, s: &str) -> (r: bool)
    ensures
        r == texts(v@).contains(s@),
{
    let mut i: usize = 0;
    while i < v.len()
        invariant
            i <= v.len(),
            forall|k: int| 0 <= k < i ==> (#[trigger] v@[k])@ != s@,
        decreases v.len() - i,
    {
        if same(v[i].as_str(), s) {
            assert(texts(v@)[i as int] == s@);
            return true;
        }
        i = i + 1;
    }
    assert forall|k: int| 0 <= k < texts(v@).len() implies #[trigger] texts(v@)[k] != s@ by {
        assert(v@[k]@ != s@);
    }
    false
}

/// A name that is not taken.
fn find_name(used: &Vec<String>, name: &str) -> (r: String)
    ensures
        r@ == unique_name(texts(used@), name@),
{
    let ghost u = texts(used@);
    if !has_text(used, name) {
        return name.to_string();
    }
    let mut n: u128 = 2;
    let mut left: usize = used.len();
    let mut candidate = numbered_name(name, n);
    assert(u.len() == used.len());
    while left > 0 && has_text(used, candidate.as_str())
        invariant
            u == texts(used@),
            left <= used.len(),
            n == 2 + (used.len() - left),
            candidate@ == numbered(name@, n as nat),
            first_free(u, name@, 2, u.len()) == first_free(u, name@, n as nat, left as nat),
        decreases left,
    {
        n = n + 1;
        left = left - 1;
        candidate = numbered_name(name, n);
    }
    candidate
}

/// Numbers items in sequence and gives each a name of its own.
pub fn tell_apart(v: &mut Vec<Item>)
    ensures
        item_views(final(v)@) == told_apart(item_views(old(v)@)),
{
    let ghost w = item_views(v@);
    let n: usize = v.len();
    let mut used: Vec<String> = Vec::new();
    let mut i: usize = 0;
    assert(texts(used@) =~= Seq::<Seq<char>>::empty());
    proof {
        names_are_unique(w, n as int);
    }
    while i < n
        invariant
            i <= n == v.len(),
            n == w.len(),
            texts(used@) == names_given(w, i as int),
            names_given(w, n as int).len() == n,
            forall|k: int| 0 <= k < i ==> (#[trigger] v@[k])@ == told_apart(w)[k],
            forall|k: int| i <= k < n ==> (#[trigger] v@[k])@ == w[k],
        decreases n - i,
    {
        let ghost u = used@;
        assert(v@[i as int]@ == w[i as int]);
        let name = find_name(&used, v[i].name.as_str());
        used.push(name.clone());
        assert(texts(used@) =~= texts(u).push(name@));
        proof {
            lemma_names_stay(w, i + 1, n as int, i as int);
        }
        let mut x = v.remove(i);
        x.id = i;
        x.name = name;
        v.insert(i, x);
        i = i + 1;
    }
    assert(item_views(v@) =~= told_apart(w));
}

/// A name once given stays.
proof fn lemma_names_stay(v: Seq<ItemView>, n: int, m: int, i: int)
    requires
        0 <= i < n <= m <= v.len(),
    ensures
        names_given(v, n).len() == n,
        names_given(v, m)[i] == names_given(v, n)[i],
    decreases m,
{
    names_are_unique(v, n);
    if n < m {
        lemma_names_stay(v, n, m - 1, i);
        names_are_unique(v, m - 1);
        assert(names_given(v, m)[i] == names_given(v, m - 1)[i]);
    }
}

// ------------------------------------------------------------------ the plan

/// The pieces of tracks with dropouts closed and lone gaps taken in.
pub open spec fn final_pieces(t: Seq<TrackView>, p: Seq<Pair>) -> Seq<PieceView> {
    gaps_taken_in(t, p, dropouts_closed(t, p, pieces(t, p)))
}

/// The items of pieces.
pub open spec fn items_of(t: Seq<TrackView>, v: Seq<PieceView>) -> Seq<ItemView> {
    Seq::new(v.len(), |i: int| item_of(t, v[i]))
}

/// Sorting and naming keeps the pieces of items.
proof fn lemma_items_ok(t: Seq<TrackView>, p: Seq<Pair>, w: Seq<PieceView>, raw: Seq<Item>, srt: Seq<Item>, out: Seq<Item>)
    requires
        pieces_ok(t, p, w),
        raw.len() == w.len(),
        forall|k: int| 0 <= k < raw.len() ==> (#[trigger] raw[k])@.piece == w[k],
        sorted_from(raw, srt),
        item_views(out) == told_apart(item_views(srt)),
    ensures
        forall|i: int| 0 <= i < out.len() ==> piece_ok(t, p, (#[trigger] out[i]).piece@),
{
    let q = choose|q: Seq<int>| #[trigger] arranged(raw, srt, q) && (orderly(raw) ==> in_order(raw, q));
    let v = item_views(srt);
    assert forall|i: int| 0 <= i < out.len() implies piece_ok(t, p, (#[trigger] out[i]).piece@) by {
        assert(item_views(out)[i] == out[i]@);
        assert(item_views(out).len() == v.len());
        assert(told_apart(v)[i].piece == v[i].piece);
        assert(srt[i] == raw[q[i]]);
        assert(raw[q[i]]@.piece == w[q[i]]);
        assert(piece_ok(t, p, w[q[i]]));
    }
}

/// The pieces of items.
pub open spec fn item_pieces(v: Seq<Item>) -> Seq<PieceView> {
    Seq::new(v.len(), |i: int| v[i].piece@)
}

/// Sorting and naming loses no piece.
proof fn lemma_items_hold(p: Seq<Pair>, w: Seq<PieceView>, raw: Seq<Item>, srt: Seq<Item>, out: Seq<Item>, x: int, time: int)
    requires
        raw.len() == w.len(),
        forall|k: int| 0 <= k < raw.len() ==> (#[trigger] raw[k])@.piece == w[k],
        sorted_from(raw, srt),
        item_views(out) == told_apart(item_views(srt)),
        is_held(p, w, x, time),
    ensures
        is_held(p, item_pieces(out), x, time),
{
    let q = choose|q: Seq<int>| #[trigger] arranged(raw, srt, q) && (orderly(raw) ==> in_order(raw, q));
    let k = choose|k: int| 0 <= k < w.len() && holds(p, #[trigger] w[k], x, time, NEAR as int);
    assert(q.contains(k));
    let m = choose|m: int| 0 <= m < q.len() && q[m] == k;
    let v = item_views(srt);
    assert(item_views(out).len() == v.len());
    assert(item_views(out)[m] == out[m]@);
    assert(told_apart(v)[m].piece == v[m].piece);
    assert(srt[m] == raw[q[m]]);
    assert(raw[q[m]]@.piece == w[q[m]]);
    assert(item_pieces(out)[m] == w[k]);
}

/// Whether every time of the tracks is in an item, but for rests too short for a
/// file.
pub open spec fn nothing_lost(t: Seq<TrackView>, p: Seq<Pair>, v: Seq<Item>) -> bool {
    forall|x: int, time: int|
        0 <= x < t.len() && 0 <= time < t[x].duration && !is_short_rest(t, p, x, time) ==> #[trigger] is_held(p, item_pieces(v), x, time)
}

/// No audio is lost on the way from the tracks to the items.
proof fn lemma_nothing_lost(t: Seq<TrackView>, p: Seq<Pair>, v: Seq<Item>)
    requires
        plannable(t, p),
        p.len() <= usize::MAX,
        arranged_items(t, final_pieces(t, p), v),
    ensures
        lasting(t, p) ==> nothing_lost(t, p, v),
{
    let w = final_pieces(t, p);
    let (raw, srt) = choose|raw: Seq<Item>, srt: Seq<Item>|
        item_views(raw) == items_of(t, w) && #[trigger] sorted_from(raw, srt) && item_views(v) == told_apart(item_views(srt));
    assert(item_views(raw).len() == raw.len());
    assert forall|k: int| 0 <= k < raw.len() implies (#[trigger] raw[k])@.piece == w[k] by {
        assert(item_views(raw)[k] == items_of(t, w)[k]);
    }
    if lasting(t, p) {
        assert forall|x: int, time: int|
            0 <= x < t.len() && 0 <= time < t[x].duration && !is_short_rest(t, p, x, time) implies #[trigger] is_held(p, item_pieces(v), x, time) by {
            no_audio_is_lost(t, p, x, time);
            lemma_items_hold(p, w, raw, srt, v, x, time);
        }
    }
}

/// Whether these are the items of the pieces, in order, each with a name of its
/// own.
pub open spec fn arranged_items(t: Seq<TrackView>, w: Seq<PieceView>, v: Seq<Item>) -> bool {
    exists|raw: Seq<Item>, srt: Seq<Item>|
        item_views(raw) == items_of(t, w) && #[trigger] sorted_from(raw, srt) && item_views(v) == told_apart(item_views(srt))
}

/// The items of pieces, in order, each with a name of its own.
fn arrange_items(tracks: &Vec<Track>, pairs: &Vec<Pair>, v: &Vec<Piece>) -> (r: Vec<Item>)
    requires
        plannable(track_views(tracks@), pairs@),
        clocks_ok(track_views(tracks@)),
        pieces_ok(track_views(tracks@), pairs@, piece_views(v@)),
    ensures
        arranged_items(track_views(tracks@), piece_views(v@), r@),
        forall|i: int| 0 <= i < r.len() ==> piece_ok(track_views(tracks@), pairs@, (#[trigger] r@[i]).piece@),
{
    let ghost t = track_views(tracks@);
    let ghost w = piece_views(v@);
    let mut out: Vec<Item> = Vec::new();
    let mut i: usize = 0;
    while i < v.len()
        invariant
            i <= v.len(),
            t == track_views(tracks@),
            w == piece_views(v@),
            plannable(t, pairs@),
            clocks_ok(t),
            pieces_ok(t, pairs@, w),
            out.len() == i,
            forall|k: int| 0 <= k < i ==> (#[trigger] out@[k])@ == item_of(t, w[k]),
        decreases v.len() - i,
    {
        assert(w[i as int] == v@[i as int]@ && piece_ok(t, pairs@, w[i as int]));
        out.push(make_item(tracks, pairs, v[i].copy()));
        i = i + 1;
    }
    assert(item_views(out@) =~= items_of(t, w));
    let ghost raw = out@;
    sort(&mut out);
    let ghost srt = out@;
    tell_apart(&mut out);
    assert(sorted_from(raw, srt));
    proof {
        lemma_items_ok(t, pairs@, w, raw, srt, out@);
    }
    out
}

/// Plans the files: pieces of the tracks, in order, each with a name of its own.
/// No audio is lost where the stretches that become stereo last.
pub fn plan_items(tracks: &Vec<Track>, pairs: &Vec<Pair>) -> (r: Vec<Item>)
    requires
        plannable(track_views(tracks@), pairs@),
        clocks_ok(track_views(tracks@)),
    ensures
        arranged_items(track_views(tracks@), final_pieces(track_views(tracks@), pairs@), r@),
        forall|i: int| 0 <= i < r.len() ==> piece_ok(track_views(tracks@), pairs@, (#[trigger] r@[i]).piece@),
        lasting(track_views(tracks@), pairs@) ==> nothing_lost(track_views(tracks@), pairs@, r@),
{
    let mut v = divide(tracks, pairs);
    proof {
        pieces_begin_quiet(track_views(tracks@), pairs@);
        assert(piece_views(v@).len() == v.len());
        lemma_quiet_is_countable(piece_views(v@));
        assert forall|i: int| 0 <= i < piece_views(v@).len() implies -START_BASE <= (#[trigger] piece_views(v@)[i]).start_secs <= START_BASE by {
            assert(piece_ok(track_views(tracks@), pairs@, piece_views(v@)[i]));
        }
    }
    merge_dropouts(tracks, pairs, &mut v);
    extend_alone(tracks, pairs, &mut v);
    let r = arrange_items(tracks, pairs, &v);
    assert(pairs.len() <= usize::MAX);
    proof {
        lemma_nothing_lost(track_views(tracks@), pairs@, r@);
    }
    r
}

// ------------------------------------------------------------------ what items tell

/// What is shown of a piece: it lasts from its first to its last time, is silent
/// for as long as its silences say, and its start and end are the times of day of
/// its start and of its start plus its length in whole seconds; the name has the
/// same start and length and tells the recorders, the left one first.
pub proof fn items_tell_their_piece(t: Seq<TrackView>, v: PieceView)
    requires
        v.t0 <= v.t1,
    ensures
        ({
            let i = item_of(t, v);
            let secs = piece_seconds(v);
            let a = civil(v.start_secs);
            let e = civil(v.start_secs + secs);
            &&& i.piece == v
            &&& i.duration == v.t1 - v.t0
            &&& i.dropout == total(v.silent)
            &&& -500_000_000 <= secs * 1_000_000_000 - (v.t1 - v.t0) <= 500_000_000
            &&& i.day == date_text(a.0, a.1, a.2)
            &&& i.start == time_text(a.3, a.4, a.5)
            &&& i.end == time_text(e.3, e.4, e.5)
            &&& i.clock0 - v.t0 == 1_000_000_000 * t[v.reference].clock0
            &&& v.stereo && v.right is Some ==> i.name == track_file(v.start_secs, secs, "stereo_L-"@ + t[v.left].label + "_R-"@ + t[v.right->0].label)
            &&& !v.stereo ==> i.name == track_file(v.start_secs, secs, "mono_"@ + t[v.left].label)
        }),
{
}

/// A frame number is the nearest to its time.
proof fn lemma_frame_nearest(time: int, rate: int)
    requires
        rate >= 0,
    ensures
        -500_000_000 <= frame_at(time, rate) * 1_000_000_000 - time * rate <= 500_000_000,
{
    lemma_nano_nearest(time * rate);
}

/// A number of billionths, rounded, is the nearest.
proof fn lemma_nano_nearest(n: int)
    ensures
        -500_000_000 <= crate::recording::round_div(n, 1_000_000_000) * 1_000_000_000 - n <= 500_000_000,
{
}

/// Frames of a mono piece are those of its time, to half a frame at either end,
/// and none from outside the track: for a time inside the track, nothing is cut
/// off but what lies outside that time.
pub proof fn mono_frames_are_those_of_the_time(x: TrackView, t0: int, t1: int)
    requires
        0 <= t0 <= t1,
        x.info.sample_rate > 0,
        0 <= x.frames,
    ensures
        ({
            let rate = x.info.sample_rate;
            let (f0, f1) = frame_range(x, t0, t1);
            &&& 0 <= f0 <= f1 <= x.frames
            &&& t1 * rate + 500_000_000 <= x.frames * 1_000_000_000 ==> -500_000_000 <= f0 * 1_000_000_000 - t0 * rate <= 500_000_000 && -500_000_000 <= f1
                * 1_000_000_000 - t1 * rate <= 500_000_000
            &&& t1 * rate >= x.frames * 1_000_000_000 ==> f1 == x.frames
        }),
{
    let rate = x.info.sample_rate;
    assert(0 <= t0 * rate <= t1 * rate) by (nonlinear_arith)
        requires
            0 <= t0 <= t1,
            rate > 0,
    ;
    lemma_frame_nearest(t0, rate);
    lemma_frame_nearest(t1, rate);
}

/// Two mono pieces of a track that follow each other share no frame and leave
/// none out.
pub proof fn mono_pieces_meet(x: TrackView, t0: int, t1: int, t2: int)
    requires
        0 <= t0 <= t1 <= t2,
        x.info.sample_rate > 0,
        0 <= x.frames,
    ensures
        frame_range(x, t0, t1).1 == frame_range(x, t1, t2).0,
{
    let rate = x.info.sample_rate;
    assert(0 <= t0 * rate <= t1 * rate <= t2 * rate) by (nonlinear_arith)
        requires
            0 <= t0 <= t1 <= t2,
            rate > 0,
    ;
    lemma_nano_order(t1 * rate, t2 * rate);
}

/// Rounding keeps the order.
proof fn lemma_nano_order(n: int, m: int)
    requires
        0 <= n <= m,
    ensures
        0 <= crate::recording::round_div(n, 1_000_000_000) <= crate::recording::round_div(m, 1_000_000_000),
{
}

/// Files are as large as what they hold: a header of 64 bytes and the format, and
/// eight bytes for each frame of a stereo piece, or the bytes of the frames of a
/// mono piece; filled up to an even number.
pub proof fn files_hold_their_frames(t: Seq<TrackView>, v: PieceView)
    requires
        v.t0 <= v.t1,
        0 <= t[v.reference].info.sample_rate,
    ensures
        v.stereo ==> ({
            let n = (file_bytes(t, v) - 80) / 8;
            let rate = t[v.reference].info.sample_rate;
            file_bytes(t, v) == 80 + 8 * n && -500_000_000 <= n * 1_000_000_000 - (v.t1 - v.t0) * rate <= 500_000_000
        }),
        !v.stereo ==> ({
            let x = t[v.left].info;
            let (f0, f1) = frame_range(t[v.left], v.t0, v.t1);
            let n = (f1 - f0) * x.block_align;
            file_bytes(t, v) == 64 + x.fmt.len() + x.fmt.len() % 2 + n + n % 2
        }),
{
    let rate = t[v.reference].info.sample_rate;
    assert(0 <= (v.t1 - v.t0) * rate) by (nonlinear_arith)
        requires
            v.t0 <= v.t1,
            0 <= rate,
    ;
    lemma_frame_nearest(v.t1 - v.t0, rate);
}

/// In a plan items stand by their start; of those that start together, mono
/// before stereo, and of those of one kind by name as first given. They are
/// numbered from zero on, and a name that no item before it has stays as it is.
pub proof fn items_stand_by_their_start(t: Seq<TrackView>, w: Seq<PieceView>, v: Seq<Item>, i: int, j: int)
    requires
        arranged_items(t, w, v),
        0 <= i < j < v.len(),
    ensures
        v[i].id == i && v[j].id == j,
        v[i].piece@.start_secs <= v[j].piece@.start_secs,
        v[i].piece@.start_secs == v[j].piece@.start_secs ==> !(v[i].piece@.stereo && !v[j].piece@.stereo),
        v[i].name@ != v[j].name@,
{
    let (raw, srt) = choose|raw: Seq<Item>, srt: Seq<Item>|
        item_views(raw) == items_of(t, w) && #[trigger] sorted_from(raw, srt) && item_views(v) == told_apart(item_views(srt));
    items_are_orderly(raw);
    let q = choose|q: Seq<int>| #[trigger] arranged(raw, srt, q) && (orderly(raw) ==> in_order(raw, q));
    let s = item_views(srt);
    assert(item_views(v).len() == s.len());
    assert(item_views(v)[i] == v[i]@ && item_views(v)[j] == v[j]@);
    assert(told_apart(s)[i].piece == s[i].piece && told_apart(s)[j].piece == s[j].piece);
    assert(s[i] == srt[i]@ && s[j] == srt[j]@);
    assert(srt[i] == raw[q[i]] && srt[j] == raw[q[j]]);
    assert(crate::order::stands_before(raw, q[i], q[j]));
    names_are_unique(s, s.len() as int);
    assert(names_given(s, s.len() as int)[i] != names_given(s, s.len() as int)[j]);
}

/// A wanted name that is free is given; one that is taken gets a number, the
/// first one from two on that is free.
pub proof fn taken_names_get_the_first_free_number(used: Seq<Seq<char>>, name: Seq<char>)
    ensures
        !used.contains(name) ==> unique_name(used, name) == name,
        used.contains(name) ==> exists|n: nat|
            2 <= n && unique_name(used, name) == #[trigger] numbered(name, n) && !used.contains(numbered(name, n)) && (forall|k: nat|
                2 <= k < n ==> used.contains(#[trigger] numbered(name, k))),
{
    if used.contains(name) {
        let n = first_free(used, name, 2, used.len());
        lemma_first_free_is_first(used, name, 2, used.len());
        if used.contains(numbered(name, n)) {
            assert(n == 2 + used.len());
            assert forall|k: nat| 2 <= k < 2 + (used.len() + 1) implies used.contains(#[trigger] numbered(name, k)) by {
                if k == n {
                }
            }
            lemma_taken(used, name, 2, used.len() + 1);
        }
        assert(unique_name(used, name) == numbered(name, n));
    }
}

/// All numbers before the first free one are taken.
proof fn lemma_first_free_is_first(used: Seq<Seq<char>>, name: Seq<char>, n: nat, tries: nat)
    ensures
        n <= first_free(used, name, n, tries) <= n + tries,
        forall|k: nat| n <= k < first_free(used, name, n, tries) ==> used.contains(#[trigger] numbered(name, k)),
        used.contains(numbered(name, first_free(used, name, n, tries))) ==> first_free(used, name, n, tries) == n + tries,
    decreases tries,
{
    if tries > 0 && used.contains(numbered(name, n)) {
        lemma_first_free_is_first(used, name, n + 1, (tries - 1) as nat);
    }
}

/// Every mono item of a plan begins, to half a second, when its track had run for
/// as long as its excerpt starts behind the track's beginning.
pub proof fn mono_items_begin_on_time(t: Seq<TrackView>, p: Seq<Pair>, i: int)
    requires
        0 <= i < final_pieces(t, p).len(),
        !final_pieces(t, p)[i].stereo,
    ensures
        ({
            let v = final_pieces(t, p)[i];
            let late = v.start_secs * 1_000_000_000 - (t[v.left].start_secs * 1_000_000_000 + v.t0);
            &&& -500_000_000 <= late <= 500_000_000
            &&& v.left == v.reference && v.right is None && v.silent.len() == 0
            &&& 0 <= v.t0 && v.t0 + 1_000_000_000 <= v.t1
        }),
{
    let v = pieces(t, p);
    mono_pieces_stay_as_they_are(t, p, v, i);
    let m = final_pieces(t, p)[i];
    let k = choose|k: int| 0 <= k < v.len() && v[k] == m;
    pieces_begin_on_time(t, p, k);
    pieces_begin_quiet(t, p);
    assert(v[k].silent.len() == 0);
}

} // verus!
