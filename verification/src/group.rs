//! Puts the chunks a recorder split each recording into back in sequence.
//!
//! A chunk continues another one when both have the same sequence number and
//! audio format and its start matches the other's end. Only a chunk that the
//! recorder cut off can have a continuation. Where several candidates fit, a
//! score decides: how well the audio runs on across the join, how well the
//! times match, and a little whether both lie in the same folder.

use vstd::prelude::*;

use crate::bytes::same_bytes;
use crate::joins::{chain_shape, chains, chains_follow_joins, chains_of, choose_joins, chosen_joins_are_mirrored, chosen_joins_do_not_compete, doubtful, doubts, every_chunk_is_in_a_chain, forward, join_behind, lists_view, next_in, nexts, no_chunk_is_used_twice, options_view, prevs, taken, Link};
use crate::order::{arranged, in_order, orderly, sort, sorted_from, Ranked};
use crate::recording::{assign_names, build_recording, byte_sum, countable, named, recording_of, recording_views, Recording, RecordingView};
use crate::scan::{indices, Options, Part, PartView, part_views};
use crate::text::{lex_less, lex_less_is_total_order, text_less};
use crate::wav::DJI_CHUNK_FILE_SIZE;

verus! {

/// Scores are in billionths. Half a point per second of deviation.
pub const GAP_WEIGHT: i128 = 500_000_000;

/// Score of a join whose audio could not be judged.
pub const CONTINUITY_UNKNOWN: i128 = 1_500_000_000;

/// Added where the chunks lie in different folders.
pub const PENALTY_OTHER_FOLDER: i128 = 250_000_000;

// ------------------------------------------------------------------ order of the parts

impl Ranked for Part {
    /// By start, then by path.
    open spec fn below(self, other: Part) -> bool {
        self.start_secs < other.start_secs || (self.start_secs == other.start_secs && lex_less(self.path@, other.path@))
    }

    fn is_below(&self, other: &Part) -> (r: bool) {
        self.start_secs < other.start_secs || (self.start_secs == other.start_secs && text_less(self.path.as_str(), other.path.as_str()))
    }
}

/// Sorting parts by start and path never contradicts itself.
pub proof fn parts_are_orderly(v: Seq<Part>)
    ensures
        orderly(v),
{
    assert forall|i: int, j: int| #![trigger v[i], v[j]] 0 <= i < v.len() && 0 <= j < v.len() && v[i].below(v[j]) implies !v[j].below(v[i]) by {
        lex_less_is_total_order(v[i].path@, v[j].path@, v[i].path@);
    }
    assert forall|i: int, j: int, k: int|
        #![trigger v[i], v[j], v[k]]
        0 <= i < v.len() && 0 <= j < v.len() && 0 <= k < v.len() && v[i].below(v[k]) implies v[i].below(v[j]) || v[j].below(v[k]) by {
        let (a, b, c) = (v[i].path@, v[j].path@, v[k].path@);
        lex_less_is_total_order(a, b, c);
        lex_less_is_total_order(b, a, c);
        lex_less_is_total_order(a, c, b);
        lex_less_is_total_order(c, b, a);
        lex_less_is_total_order(b, c, a);
        lex_less_is_total_order(c, a, b);
    }
}

// ------------------------------------------------------------------ chunks

/// Whether a part has the size of a chunk that the recorder cut off: the known
/// size, or one that occurs more than once and is large enough.
pub open spec fn is_full(p: Seq<PartView>, min: int, i: int) -> bool {
    p[i].size == DJI_CHUNK_FILE_SIZE || (p[i].info.data_len >= min && exists|j: int| 0 <= j < p.len() && j != i && (#[trigger] p[j]).size == p[i].size)
}

/// Whether a part of the format of part `i` has the known chunk size.
pub open spec fn known_size(p: Seq<PartView>, i: int) -> bool {
    exists|j: int| 0 <= j < p.len() && (#[trigger] p[j]).info.fmt == p[i].info.fmt && p[j].size == DJI_CHUNK_FILE_SIZE
}

/// Whether no part of the same format is larger.
pub open spec fn is_largest(p: Seq<PartView>, i: int) -> bool {
    forall|j: int| 0 <= j < p.len() && (#[trigger] p[j]).info.fmt == p[i].info.fmt ==> p[j].size <= p[i].size
}

/// Whether a part may have a continuation. If no file of its format has the
/// known chunk size, the largest one may be a chunk too.
pub open spec fn can_continue(p: Seq<PartView>, min: int, i: int) -> bool {
    is_full(p, min, i) || (!known_size(p, i) && p[i].info.data_len >= min && is_largest(p, i))
}

/// The parts with the full chunks marked.
pub open spec fn marked(p: Seq<PartView>, min: int) -> Seq<PartView> {
    Seq::new(p.len(), |i: int| PartView { full_chunk: is_full(p, min, i), ..p[i] })
}

/// Whether part `i` has the size of a chunk that the recorder cut off.
fn check_full(parts: &Vec<Part>, min: u64, i: usize) -> (r: bool)
    requires
        i < parts.len(),
    ensures
        r == is_full(part_views(parts@), min as int, i as int),
{
    let ghost p = part_views(parts@);
    assert(p[i as int] == parts@[i as int]@);
    if parts[i].size == DJI_CHUNK_FILE_SIZE {
        return true;
    }
    if parts[i].info.data_len < min {
        return false;
    }
    let mut j: usize = 0;
    while j < parts.len()
        invariant
            i < parts.len(),
            j <= parts.len(),
            p == part_views(parts@),
            p[i as int] == parts@[i as int]@,
            p[i as int].info.data_len >= min,
            forall|k: int| 0 <= k < j && k != i ==> (#[trigger] p[k]).size != p[i as int].size,
        decreases parts.len() - j,
    {
        assert(p[j as int] == parts@[j as int]@);
        if j != i && parts[j].size == parts[i].size {
            return true;
        }
        j = j + 1;
    }
    false
}

/// Whether part `i` may have a continuation.
fn check_can_continue(parts: &Vec<Part>, min: u64, i: usize) -> (r: bool)
    requires
        i < parts.len(),
    ensures
        r == can_continue(part_views(parts@), min as int, i as int),
{
    let ghost p = part_views(parts@);
    assert(p[i as int] == parts@[i as int]@);
    if check_full(parts, min, i) {
        return true;
    }
    if parts[i].info.data_len < min {
        return false;
    }
    let mut j: usize = 0;
    while j < parts.len()
        invariant
            i < parts.len(),
            j <= parts.len(),
            p == part_views(parts@),
            p[i as int] == parts@[i as int]@,
            !is_full(p, min as int, i as int),
            forall|k: int| 0 <= k < j && (#[trigger] p[k]).info.fmt == p[i as int].info.fmt ==> p[k].size <= p[i as int].size && p[k].size != DJI_CHUNK_FILE_SIZE,
        decreases parts.len() - j,
    {
        assert(p[j as int] == parts@[j as int]@);
        if same_bytes(parts[j].info.fmt.as_slice(), parts[i].info.fmt.as_slice()) {
            if parts[j].size > parts[i].size || parts[j].size == DJI_CHUNK_FILE_SIZE {
                return false;
            }
        }
        j = j + 1;
    }
    true
}

/// Marks the parts that have the size of a chunk that the recorder cut off.
pub fn mark_chunks(parts: &mut Vec<Part>, opt: &Options)
    ensures
        part_views(final(parts)@) == marked(part_views(old(parts)@), opt.min_chunk_bytes as int),
{
    let ghost p = part_views(parts@);
    let min: u64 = opt.min_chunk_bytes;
    let mut full: Vec<bool> = Vec::new();
    let mut i: usize = 0;
    while i < parts.len()
        invariant
            i <= parts.len(),
            p == part_views(parts@),
            full.len() == i,
            forall|k: int| 0 <= k < i ==> #[trigger] full@[k] == is_full(p, min as int, k),
        decreases parts.len() - i,
    {
        full.push(check_full(parts, min, i));
        i = i + 1;
    }
    let mut i: usize = 0;
    while i < parts.len()
        invariant
            i <= parts.len(),
            parts.len() == p.len(),
            full.len() == p.len(),
            forall|k: int| 0 <= k < p.len() ==> #[trigger] full@[k] == is_full(p, min as int, k),
            forall|k: int| 0 <= k < i ==> (#[trigger] parts@[k])@ == marked(p, min as int)[k],
            forall|k: int| i <= k < p.len() ==> (#[trigger] parts@[k])@ == p[k],
        decreases parts.len() - i,
    {
        let mut x = parts[i].copy();
        x.full_chunk = full[i];
        parts.set(i, x);
        i = i + 1;
    }
    assert(part_views(parts@) =~= marked(p, min as int));
}

// ------------------------------------------------------------------ candidates

/// Frames of audio of a part.
pub open spec fn frames(p: PartView) -> int {
    p.info.frame_count()
}

/// Start of `b` minus end of `a`, in parts of a second by the sample rate of `a`.
pub open spec fn gap(a: PartView, b: PartView) -> int {
    (b.start_secs - a.start_secs) * a.info.sample_rate - frames(a)
}

/// Whether `b` starts where `a` ends, within the tolerance in milliseconds.
pub open spec fn adjoins(a: PartView, b: PartView, tolerance: int) -> bool {
    -(tolerance * a.info.sample_rate) <= gap(a, b) * 1000 <= tolerance * a.info.sample_rate
}

/// Whether part `j` is a candidate for the continuation of part `i`.
pub open spec fn may_follow(p: Seq<PartView>, opt: Options, i: int, j: int) -> bool {
    can_continue(p, opt.min_chunk_bytes as int, i) && adjoins(p[i], p[j], opt.gap_tolerance as int) && p[i].seq == p[j].seq && p[i].info.fmt == p[j].info.fmt
}

/// The candidates of part `i` up to part `n`.
pub open spec fn followers(p: Seq<PartView>, opt: Options, i: int, n: int) -> Seq<(int, int)>
    decreases n - i,
{
    if n <= i + 1 {
        Seq::empty()
    } else if may_follow(p, opt, i, n - 1) {
        followers(p, opt, i, n - 1).push((i, n - 1))
    } else {
        followers(p, opt, i, n - 1)
    }
}

/// The candidates of the first `n` parts: who may be followed by whom.
pub open spec fn candidates(p: Seq<PartView>, opt: Options, n: int) -> Seq<(int, int)>
    decreases n,
{
    if n <= 0 {
        Seq::empty()
    } else {
        candidates(p, opt, n - 1) + followers(p, opt, n - 1, p.len() as int)
    }
}

/// Every candidate is one, and leads to a later part.
proof fn lemma_followers(p: Seq<PartView>, opt: Options, i: int, n: int)
    requires
        0 <= i < p.len(),
        n <= p.len(),
    ensures
        forall|k: int|
            0 <= k < followers(p, opt, i, n).len() ==> {
                let f = #[trigger] followers(p, opt, i, n)[k];
                f.0 == i && i < f.1 < n && may_follow(p, opt, i, f.1)
            },
    decreases n - i,
{
    if n > i + 1 {
        lemma_followers(p, opt, i, n - 1);
        let a = followers(p, opt, i, n - 1);
        let b = followers(p, opt, i, n);
        assert forall|k: int| 0 <= k < b.len() implies {
            let f = #[trigger] b[k];
            f.0 == i && i < f.1 < n && may_follow(p, opt, i, f.1)
        } by {
            if k < a.len() {
                assert(b[k] == a[k]);
            }
        }
    }
}

/// Only a chunk the recorder cut off is ever continued, by a later part of the
/// same sequence number and format that starts where it ends.
pub proof fn candidates_fit(p: Seq<PartView>, opt: Options, n: int)
    requires
        0 <= n <= p.len(),
    ensures
        forall|k: int|
            0 <= k < candidates(p, opt, n).len() ==> {
                let f = #[trigger] candidates(p, opt, n)[k];
                0 <= f.0 < n && f.0 < f.1 < p.len() && may_follow(p, opt, f.0, f.1)
            },
    decreases n,
{
    if n > 0 {
        candidates_fit(p, opt, n - 1);
        lemma_followers(p, opt, n - 1, p.len() as int);
        let a = candidates(p, opt, n - 1);
        let b = followers(p, opt, n - 1, p.len() as int);
        assert forall|k: int| 0 <= k < (a + b).len() implies {
            let f = #[trigger] (a + b)[k];
            0 <= f.0 < n && f.0 < f.1 < p.len() && may_follow(p, opt, f.0, f.1)
        } by {
            if k < a.len() {
                assert((a + b)[k] == a[k]);
            } else {
                assert((a + b)[k] == b[k - a.len()]);
            }
        }
    }
}

/// What is needed for a part to be placed in time.
pub open spec fn usable(p: PartView) -> bool {
    p.info.sound()
}

/// Whether all parts can be placed in time.
pub open spec fn all_usable(p: Seq<PartView>) -> bool {
    forall|i: int| 0 <= i < p.len() ==> usable(#[trigger] p[i])
}

/// Start of `b` minus end of `a`, in parts of a second by the sample rate of `a`.
pub fn gap_of(a: &Part, b: &Part) -> (r: i128)
    requires
        usable(a@),
    ensures
        r == gap(a@, b@),
        -0x1_0000_0000_0000_0000_0000_0000 * 2 < r < 0x1_0000_0000_0000_0000_0000_0000 * 2,
{
    let d: i128 = b.start_secs as i128 - a.start_secs as i128;
    let rate: i128 = a.info.sample_rate as i128;
    let n: i128 = a.info.frames() as i128;
    assert(-0x1_0000_0000_0000_0000_0000_0000 <= d * rate <= 0x1_0000_0000_0000_0000_0000_0000) by (nonlinear_arith)
        requires
            -0x1_0000_0000_0000_0000 <= d <= 0x1_0000_0000_0000_0000,
            0 <= rate <= 0x1_0000_0000,
    ;
    assert(a@.info.frame_count() == n);
    d * rate - n
}

/// Whether `b` starts where `a` ends.
fn check_adjoins(a: &Part, b: &Part, tolerance: i64) -> (r: bool)
    requires
        usable(a@),
    ensures
        r == adjoins(a@, b@, tolerance as int),
{
    let g: i128 = gap_of(a, b);
    let rate: i128 = a.info.sample_rate as i128;
    let t: i128 = tolerance as i128;
    assert(-0x1_0000_0000_0000_0000_0000_0000 <= t * rate <= 0x1_0000_0000_0000_0000_0000_0000) by (nonlinear_arith)
        requires
            -0x1_0000_0000_0000_0000 <= t <= 0x1_0000_0000_0000_0000,
            0 <= rate <= 0x1_0000_0000,
    ;
    let room: i128 = t * rate;
    -room <= g * 1000 && g * 1000 <= room
}

/// A list of pairs of places as mathematical values.
pub open spec fn pairs_view(v: Seq<(usize, usize)>) -> Seq<(int, int)> {
    v.map_values(|x: (usize, usize)| (x.0 as int, x.1 as int))
}

/// Who may be followed by whom. The audio across each of these joins decides.
pub fn links(parts: &Vec<Part>, opt: &Options) -> (r: Vec<(usize, usize)>)
    requires
        all_usable(part_views(parts@)),
    ensures
        pairs_view(r@) == candidates(part_views(parts@), *opt, parts.len() as int),
{
    let ghost p = part_views(parts@);
    let mut out: Vec<(usize, usize)> = Vec::new();
    let n: usize = parts.len();
    let mut i: usize = 0;
    assert(pairs_view(out@) =~= Seq::<(int, int)>::empty());
    while i < n
        invariant
            i <= n == parts.len(),
            p == part_views(parts@),
            all_usable(p),
            pairs_view(out@) == candidates(p, *opt, i as int),
        decreases n - i,
    {
        let ghost before = out@;
        assert(p[i as int] == parts@[i as int]@);
        assert(usable(p[i as int]));
        let go = check_can_continue(parts, opt.min_chunk_bytes, i);
        let mut j: usize = i + 1;
        assert(pairs_view(out@) =~= pairs_view(before) + Seq::<(int, int)>::empty());
        while j < n
            invariant
                i < j <= n == parts.len(),
                p == part_views(parts@),
                p[i as int] == parts@[i as int]@,
                usable(p[i as int]),
                go == can_continue(p, opt.min_chunk_bytes as int, i as int),
                pairs_view(out@) == pairs_view(before) + followers(p, *opt, i as int, j as int),
            decreases n - j,
        {
            let ghost o = out@;
            assert(p[j as int] == parts@[j as int]@);
            if go && check_adjoins(&parts[i], &parts[j], opt.gap_tolerance) && parts[i].seq == parts[j].seq && same_bytes(
                parts[i].info.fmt.as_slice(),
                parts[j].info.fmt.as_slice(),
            ) {
                out.push((i, j));
                assert(pairs_view(out@) =~= pairs_view(o).push((i as int, j as int)));
                assert(pairs_view(out@) =~= pairs_view(before) + followers(p, *opt, i as int, j + 1));
            }
            j = j + 1;
        }
        i = i + 1;
    }
    out
}

// ------------------------------------------------------------------ scores

/// How badly two parts fit: the deviation of the times, the break in the audio
/// (unknown if it could not be judged) and different folders.
pub open spec fn score_of(a: PartView, b: PartView, cost: Option<i64>) -> int {
    let g = gap(a, b);
    (if g < 0 {
        -g
    } else {
        g
    }) * GAP_WEIGHT / a.info.sample_rate + (match cost {
        Some(c) => c as int,
        None => CONTINUITY_UNKNOWN as int,
    }) + (if a.folder_path != b.folder_path {
        PENALTY_OTHER_FOLDER as int
    } else {
        0
    })
}

/// The candidates with their scores.
pub open spec fn scored(p: Seq<PartView>, c: Seq<(int, int)>, costs: Seq<Option<i64>>) -> Seq<Link> {
    Seq::new(
        c.len(),
        |k: int| Link { a: c[k].0 as usize, b: c[k].1 as usize, score: score_of(p[c[k].0], p[c[k].1], costs[k]) as i128 },
    )
}

/// How badly two parts fit.
fn score(a: &Part, b: &Part, cost: Option<i64>) -> (r: i128)
    requires
        usable(a@),
    ensures
        r == score_of(a@, b@, cost),
{
    let g: i128 = gap_of(a, b);
    let m: i128 = if g < 0 {
        -g
    } else {
        g
    };
    let rate: i128 = a.info.sample_rate as i128;
    let w: i128 = m * GAP_WEIGHT;
    assert(0 <= w as int / rate as int <= w) by (nonlinear_arith)
        requires
            w >= 0,
            rate > 0,
    ;
    let off: i128 = w / rate;
    let audio: i128 = match cost {
        Some(c) => c as i128,
        None => CONTINUITY_UNKNOWN,
    };
    let other: i128 = if a.folder_path.is_same(&b.folder_path) {
        0
    } else {
        PENALTY_OTHER_FOLDER
    };
    off + audio + other
}

/// Scores the candidates.
fn score_links(parts: &Vec<Part>, pairs: &Vec<(usize, usize)>, costs: &Vec<Option<i64>>) -> (r: Vec<Link>)
    requires
        all_usable(part_views(parts@)),
        costs.len() == pairs.len(),
        forall|k: int| 0 <= k < pairs.len() ==> (#[trigger] pairs@[k]).0 < parts.len() && pairs@[k].1 < parts.len(),
    ensures
        r@ == scored(part_views(parts@), pairs_view(pairs@), costs@),
{
    let ghost p = part_views(parts@);
    let ghost c = pairs_view(pairs@);
    let mut out: Vec<Link> = Vec::new();
    let mut k: usize = 0;
    while k < pairs.len()
        invariant
            k <= pairs.len(),
            p == part_views(parts@),
            c == pairs_view(pairs@),
            all_usable(p),
            costs.len() == pairs.len(),
            forall|j: int| 0 <= j < pairs.len() ==> (#[trigger] pairs@[j]).0 < parts.len() && pairs@[j].1 < parts.len(),
            out@ == scored(p, c, costs@).take(k as int),
        decreases pairs.len() - k,
    {
        let (a, b) = pairs[k];
        assert(p[a as int] == parts@[a as int]@ && p[b as int] == parts@[b as int]@);
        assert(usable(p[a as int]));
        assert(c[k as int] == (a as int, b as int));
        let s: i128 = score(&parts[a], &parts[b], costs[k]);
        out.push(Link { a, b, score: s });
        assert(out@ =~= scored(p, c, costs@).take(k + 1));
        k = k + 1;
    }
    assert(scored(p, c, costs@).take(k as int) =~= scored(p, c, costs@));
    out
}

// ------------------------------------------------------------------ recordings

/// The parts at the given places.
pub open spec fn pick(p: Seq<PartView>, c: Seq<int>) -> Seq<PartView> {
    Seq::new(c.len(), |q: int| p[c[q]])
}

/// The chains that the joins `l`, taken in this order, make of the parts.
pub open spec fn chains_by(n: int, l: Seq<Link>) -> Seq<Seq<int>> {
    let t = taken(l, l.len() as int);
    chains_of(nexts(l, t, n), prevs(l, t, n), n)
}

/// Whether a chosen join in a chain was nearly beaten.
pub open spec fn chain_doubtful(l: Seq<Link>, c: Seq<int>) -> bool {
    exists|q: int| 0 <= q < c.len() && doubtful(l, taken(l, l.len() as int), #[trigger] c[q])
}

/// The recordings that the joins `l`, taken in this order, make of the parts.
pub open spec fn built(p: Seq<PartView>, l: Seq<Link>) -> Seq<RecordingView> {
    let c = chains_by(p.len() as int, l);
    Seq::new(c.len(), |k: int| recording_of(pick(p, c[k]), chain_doubtful(l, c[k])))
}

/// The recordings of `p`: joins by score, then recordings by start and label,
/// then names.
pub open spec fn grouped(p: Seq<PartView>, opt: Options, costs: Seq<Option<i64>>, r: Seq<RecordingView>) -> bool {
    exists|l: Seq<Link>, raw: Seq<Recording>, fin: Seq<Recording>|
        #[trigger] sorted_from(scored(p, candidates(p, opt, p.len() as int), costs), l) && recording_views(raw) == built(p, l) && #[trigger] sorted_from(
            raw,
            fin,
        ) && r == named(recording_views(fin))
}

/// The bytes of parts picked in sequence are no more than those of all.
proof fn lemma_picked_bytes(p: Seq<PartView>, c: Seq<int>)
    requires
        forall|i: int| 0 <= i < p.len() ==> usable(#[trigger] p[i]),
        c.len() > 0,
        forall|q: int| 0 <= q < c.len() ==> 0 <= #[trigger] c[q] < p.len(),
        forall|q: int| 0 <= q < c.len() - 1 ==> #[trigger] c[q] < c[q + 1],
    ensures
        byte_sum(pick(p, c), c.len() as int) <= byte_sum(p, c.last() + 1),
    decreases c.len(),
{
    let n = c.len() as int;
    let d = c.drop_last();
    lemma_same_bytes_sum(pick(p, c), pick(p, d), n - 1);
    assert(pick(p, c)[n - 1] == p[c.last()]);
    if n > 1 {
        assert forall|q: int| 0 <= q < d.len() - 1 implies #[trigger] d[q] < d[q + 1] by {
            assert(d[q] == c[q] && d[q + 1] == c[q + 1]);
        }
        lemma_picked_bytes(p, d);
        assert(d.last() == c[n - 2] && c[n - 2] < c[n - 2 + 1]);
        lemma_byte_sum_grows(p, d.last() + 1, c.last());
    } else {
        lemma_byte_sum_grows(p, 0, c.last());
    }
}

/// The same parts have the same sum.
proof fn lemma_same_bytes_sum(a: Seq<PartView>, b: Seq<PartView>, n: int)
    requires
        n <= a.len(),
        n <= b.len(),
        forall|k: int| 0 <= k < n ==> #[trigger] a[k] == b[k],
    ensures
        byte_sum(a, n) == byte_sum(b, n),
    decreases n,
{
    if n > 0 {
        lemma_same_bytes_sum(a, b, n - 1);
    }
}

/// More parts have more bytes.
proof fn lemma_byte_sum_grows(p: Seq<PartView>, n: int, m: int)
    requires
        forall|i: int| 0 <= i < p.len() ==> usable(#[trigger] p[i]),
        0 <= n <= m <= p.len(),
    ensures
        byte_sum(p, n) <= byte_sum(p, m),
    decreases m - n,
{
    if n < m {
        lemma_byte_sum_grows(p, n, m - 1);
        assert(usable(p[m - 1]));
    }
}

/// A chain of countable parts is countable.
proof fn lemma_chain_countable(p: Seq<PartView>, l: Seq<Link>, k: int)
    requires
        countable(p),
        forward(l, p.len() as int),
        0 <= k < chains_by(p.len() as int, l).len(),
    ensures
        ({
            let c = chains_by(p.len() as int, l)[k];
            &&& c.len() > 0
            &&& forall|q: int| 0 <= q < c.len() ==> 0 <= #[trigger] c[q] < p.len()
            &&& countable(pick(p, c))
        }),
{
    let n = p.len() as int;
    let t = taken(l, l.len() as int);
    let next = nexts(l, t, n);
    let prev = prevs(l, t, n);
    chosen_joins_are_mirrored(l, l.len() as int, n);
    chain_shape(next, prev, k);
    let c = chains_by(n, l)[k];
    assert forall|q: int| 0 <= q < c.len() - 1 implies #[trigger] c[q] < c[q + 1] by {
        chains_follow_joins(next, prev, k, q + 1);
        assert(next[c[q]] == Some(c[q + 1]));
    }
    lemma_picked_bytes(p, c);
    lemma_byte_sum_grows(p, c.last() + 1, n);
    assert forall|i: int| 0 <= i < pick(p, c).len() implies usable(#[trigger] pick(p, c)[i]) by {
        assert(usable(p[c[i]]));
    }
}

/// Copies of the parts at the given places.
fn pick_parts(parts: &Vec<Part>, c: &Vec<usize>) -> (r: Vec<Part>)
    requires
        forall|q: int| 0 <= q < c.len() ==> #[trigger] c@[q] < parts.len(),
    ensures
        part_views(r@) == pick(part_views(parts@), indices(c@)),
{
    let mut out: Vec<Part> = Vec::new();
    let mut q: usize = 0;
    while q < c.len()
        invariant
            q <= c.len(),
            forall|k: int| 0 <= k < c.len() ==> #[trigger] c@[k] < parts.len(),
            out.len() == q,
            forall|k: int| 0 <= k < q ==> (#[trigger] out@[k])@ == parts@[c@[k] as int]@,
        decreases c.len() - q,
    {
        out.push(parts[c[q]].copy());
        q = q + 1;
    }
    assert(part_views(out@) =~= pick(part_views(parts@), indices(c@)));
    out
}

/// Whether any of the places is doubtful.
fn any_doubt(flags: &Vec<bool>, c: &Vec<usize>) -> (r: bool)
    requires
        forall|q: int| 0 <= q < c.len() ==> #[trigger] c@[q] < flags.len(),
    ensures
        r == exists|q: int| 0 <= q < c.len() && flags@[#[trigger] c@[q] as int],
{
    let mut q: usize = 0;
    while q < c.len()
        invariant
            q <= c.len(),
            forall|k: int| 0 <= k < c.len() ==> #[trigger] c@[k] < flags.len(),
            forall|k: int| 0 <= k < q ==> !flags@[#[trigger] c@[k] as int],
        decreases c.len() - q,
    {
        if flags[c[q]] {
            return true;
        }
        q = q + 1;
    }
    false
}

/// The recordings that joins, taken in the given order, make.
fn build_all(parts: &Vec<Part>, l: &Vec<Link>) -> (r: Vec<Recording>)
    requires
        countable(part_views(parts@)),
        forward(l@, parts.len() as int),
    ensures
        recording_views(r@) == built(part_views(parts@), l@),
{
    let ghost p = part_views(parts@);
    let n: usize = parts.len();
    let ghost t = taken(l@, l.len() as int);
    proof {
        chosen_joins_are_mirrored(l@, l.len() as int, n as int);
        chosen_joins_do_not_compete(l@, l.len() as int);
    }
    let j = choose_joins(l, n);
    assert(options_view(j.next@).len() == j.next.len() && options_view(j.prev@).len() == j.prev.len());
    assert forall|q: int| 0 <= q < j.chosen.len() implies #[trigger] j.chosen@[q] < l.len() by {
        assert(indices(j.chosen@)[q] == j.chosen@[q]);
        assert(t[q] == j.chosen@[q]);
    }
    let flags = doubts(l, &j.chosen, n);
    let list = chains(&j);
    let ghost c = chains_by(n as int, l@);
    assert(lists_view(list@) == c);
    let mut out: Vec<Recording> = Vec::new();
    let mut k: usize = 0;
    while k < list.len()
        invariant
            k <= list.len(),
            p == part_views(parts@),
            n == parts.len(),
            countable(p),
            forward(l@, n as int),
            t == taken(l@, l.len() as int),
            c == chains_by(n as int, l@),
            lists_view(list@) == c,
            flags.len() == n,
            forall|x: int| 0 <= x < n ==> #[trigger] flags@[x] == doubtful(l@, t, x),
            out.len() == k,
            forall|i: int| 0 <= i < k ==> (#[trigger] out@[i])@ == built(p, l@)[i],
        decreases list.len() - k,
    {
        proof {
            assert(c.len() == list.len());
            assert(c[k as int] == indices(list@[k as int]@));
            lemma_chain_countable(p, l@, k as int);
            assert forall|q: int| 0 <= q < list@[k as int].len() implies #[trigger] list@[k as int]@[q] < n by {
                assert(c[k as int][q] == list@[k as int]@[q]);
            }
        }
        let amb = any_doubt(&flags, &list[k]);
        proof {
            assert(amb == chain_doubtful(l@, c[k as int])) by {
                if amb {
                    let q = choose|q: int| 0 <= q < list@[k as int].len() && flags@[#[trigger] list@[k as int]@[q] as int];
                    assert(doubtful(l@, t, c[k as int][q]));
                }
                if chain_doubtful(l@, c[k as int]) {
                    let q = choose|q: int| 0 <= q < c[k as int].len() && doubtful(l@, t, #[trigger] c[k as int][q]);
                    assert(flags@[list@[k as int]@[q] as int]);
                }
            }
        }
        let chain = pick_parts(parts, &list[k]);
        assert(chain.len() == part_views(chain@).len());
        let rec = build_recording(chain, amb);
        out.push(rec);
        k = k + 1;
    }
    assert(recording_views(out@) =~= built(p, l@));
    out
}

/// Sorts the parts of a scan by start and path, and marks the full chunks.
pub fn arrange(parts: Vec<Part>, opt: &Options) -> (r: Vec<Part>)
    ensures
        exists|v: Seq<Part>| #[trigger] sorted_from(parts@, v) && part_views(r@) == marked(part_views(v), opt.min_chunk_bytes as int),
{
    let mut r = parts;
    sort(&mut r);
    let ghost v = r@;
    mark_chunks(&mut r, opt);
    assert(sorted_from(parts@, v));
    r
}

/// Groups parts to recordings. `costs` says of each of the [`links`] how badly
/// the audio breaks there, in billionths, where that could be judged.
pub fn group(parts: &Vec<Part>, opt: &Options, costs: &Vec<Option<i64>>) -> (r: Vec<Recording>)
    requires
        countable(part_views(parts@)),
        costs.len() == candidates(part_views(parts@), *opt, parts.len() as int).len(),
    ensures
        grouped(part_views(parts@), *opt, costs@, recording_views(r@)),
{
    let ghost p = part_views(parts@);
    assert(all_usable(p));
    let pairs = links(parts, opt);
    let ghost c = candidates(p, *opt, p.len() as int);
    proof {
        candidates_fit(p, *opt, p.len() as int);
        assert(pairs_view(pairs@).len() == pairs.len());
        assert forall|k: int| 0 <= k < pairs.len() implies (#[trigger] pairs@[k]).0 < pairs@[k].1 && pairs@[k].1 < parts.len() by {
            assert(c[k] == (pairs@[k].0 as int, pairs@[k].1 as int));
        }
    }
    let mut l = score_links(parts, &pairs, costs);
    let ghost s = l@;
    assert forall|k: int| 0 <= k < s.len() implies (#[trigger] s[k]).a < s[k].b < p.len() by {
        assert(c[k] == (pairs@[k].0 as int, pairs@[k].1 as int));
    }
    sort(&mut l);
    proof {
        let q = choose|q: Seq<int>| #[trigger] arranged(s, l@, q) && (orderly(s) ==> in_order(s, q));
        assert forall|k: int| 0 <= k < l@.len() implies (#[trigger] l@[k]).a < l@[k].b < p.len() by {
            assert(l@[k] == s[q[k]]);
        }
    }
    let mut recs = build_all(parts, &l);
    let ghost raw = recs@;
    sort(&mut recs);
    let ghost fin = recs@;
    assign_names(&mut recs);
    assert(sorted_from(s, l@) && recording_views(raw) == built(p, l@) && sorted_from(raw, fin));
    recs
}

// ------------------------------------------------------------------ what holds of every grouping

/// Every part is in one of the recordings, whatever the scores are.
pub proof fn every_part_is_used(n: int, l: Seq<Link>, x: int)
    requires
        forward(l, n),
        0 <= x < n,
    ensures
        exists|k: int, q: int| 0 <= k < chains_by(n, l).len() && 0 <= q < chains_by(n, l)[k].len() && #[trigger] chains_by(n, l)[k][q] == x,
{
    let t = taken(l, l.len() as int);
    chosen_joins_are_mirrored(l, l.len() as int, n);
    every_chunk_is_in_a_chain(nexts(l, t, n), prevs(l, t, n), x);
    let c = chains_by(n, l);
    let (k, q) = choose|k: int, q: int| 0 <= k < c.len() && 0 <= q < c[k].len() && #[trigger] c[k][q] == x;
    assert(chains_by(n, l)[k][q] == x);
}

/// No part is in two recordings, or twice in one.
pub proof fn no_part_is_used_twice(n: int, l: Seq<Link>, k: int, q: int, m: int, r: int)
    requires
        forward(l, n),
        0 <= k < chains_by(n, l).len(),
        0 <= m < chains_by(n, l).len(),
        0 <= q < chains_by(n, l)[k].len(),
        0 <= r < chains_by(n, l)[m].len(),
        chains_by(n, l)[k][q] == chains_by(n, l)[m][r],
        n >= 0,
    ensures
        k == m,
        q == r,
{
    let t = taken(l, l.len() as int);
    chosen_joins_are_mirrored(l, l.len() as int, n);
    no_chunk_is_used_twice(nexts(l, t, n), prevs(l, t, n), k, q, m, r);
}

/// Every join leads from a part to a later one.
pub proof fn joins_lead_forward(p: Seq<PartView>, opt: Options, costs: Seq<Option<i64>>, l: Seq<Link>)
    requires
        sorted_from(scored(p, candidates(p, opt, p.len() as int), costs), l),
        p.len() <= usize::MAX,
    ensures
        forward(l, p.len() as int),
{
    let n = p.len() as int;
    let all = candidates(p, opt, n);
    let s = scored(p, all, costs);
    let ord = choose|ord: Seq<int>| #[trigger] arranged(s, l, ord) && (orderly(s) ==> in_order(s, ord));
    candidates_fit(p, opt, n);
    assert forall|i: int| 0 <= i < l.len() implies (#[trigger] l[i]).a < l[i].b < n by {
        assert(l[i] == s[ord[i]]);
        let f = all[ord[i]];
        assert(0 <= f.0 < n && f.0 < f.1 < n);
    }
}

/// The chains one after the other, the first `k` of them.
spec fn flat(c: Seq<Seq<int>>, k: int) -> Seq<int>
    decreases k,
{
    if k <= 0 {
        Seq::empty()
    } else {
        flat(c, k - 1) + c[k - 1]
    }
}

/// Where a place of the chains in sequence stands in its chain.
proof fn lemma_flat_at(c: Seq<Seq<int>>, k: int, i: int) -> (r: (int, int))
    requires
        0 <= k <= c.len(),
        0 <= i < flat(c, k).len(),
    ensures
        0 <= r.0 < k,
        0 <= r.1 < c[r.0].len(),
        flat(c, k)[i] == c[r.0][r.1],
        i == flat(c, r.0).len() + r.1,
    decreases k,
{
    let a = flat(c, k - 1);
    if i < a.len() {
        lemma_flat_at(c, k - 1, i)
    } else {
        (k - 1, i - a.len())
    }
}

/// Every place of a chain stands in the chains in sequence.
proof fn lemma_flat_has(c: Seq<Seq<int>>, k: int, m: int, q: int)
    requires
        0 <= m < k <= c.len(),
        0 <= q < c[m].len(),
    ensures
        flat(c, k).contains(c[m][q]),
    decreases k,
{
    let a = flat(c, k - 1);
    let b = flat(c, k);
    if m == k - 1 {
        assert(b[a.len() + q] == c[m][q]);
    } else {
        lemma_flat_has(c, k - 1, m, q);
        let i = choose|i: int| 0 <= i < a.len() && a[i] == c[m][q];
        assert(b[i] == c[m][q]);
    }
}

/// How many parts the first `k` recordings have.
pub open spec fn part_count(r: Seq<RecordingView>, k: int) -> int
    decreases k,
{
    if k <= 0 {
        0
    } else {
        part_count(r, k - 1) + r[k - 1].parts.len()
    }
}

/// The recordings have as many parts as their chains.
proof fn lemma_part_count(p: Seq<PartView>, l: Seq<Link>, k: int)
    requires
        0 <= k <= built(p, l).len(),
    ensures
        part_count(built(p, l), k) == flat(chains_by(p.len() as int, l), k).len(),
    decreases k,
{
    if k > 0 {
        lemma_part_count(p, l, k - 1);
    }
}

/// The recordings together have as many parts as there are.
pub proof fn all_parts_are_counted(p: Seq<PartView>, l: Seq<Link>)
    requires
        forward(l, p.len() as int),
    ensures
        part_count(built(p, l), built(p, l).len() as int) == p.len(),
{
    let n = p.len() as int;
    let c = chains_by(n, l);
    let k = c.len() as int;
    let f = flat(c, k);
    let t = taken(l, l.len() as int);
    chosen_joins_are_mirrored(l, l.len() as int, n);
    assert forall|i: int, j: int| 0 <= i < f.len() && 0 <= j < f.len() && i != j implies f[i] != f[j] by {
        if f[i] == f[j] {
            let (m, q) = lemma_flat_at(c, k, i);
            let (u, r) = lemma_flat_at(c, k, j);
            no_part_is_used_twice(n, l, m, q, u, r);
        }
    }
    f.unique_seq_to_set();
    assert(f.to_set() =~= vstd::set_lib::set_int_range(0, n)) by {
        assert forall|x: int| f.to_set().contains(x) <==> vstd::set_lib::set_int_range(0, n).contains(x) by {
            if f.to_set().contains(x) {
                let i = choose|i: int| 0 <= i < f.len() && f[i] == x;
                let (m, q) = lemma_flat_at(c, k, i);
                chain_shape(nexts(l, t, n), prevs(l, t, n), m);
            }
            if 0 <= x < n {
                every_part_is_used(n, l, x);
                let (m, q) = choose|m: int, q: int| 0 <= m < c.len() && 0 <= q < c[m].len() && #[trigger] c[m][q] == x;
                lemma_flat_has(c, k, m, q);
            }
        }
    }
    vstd::set_lib::lemma_int_range(0, n);
    lemma_part_count(p, l, k);
}

/// In every recording each part but the first continues the one before it: by a
/// candidate join, so only a chunk that the recorder cut off is continued, by a
/// part of the same sequence number and format that starts where it ends.
pub proof fn recordings_are_continuous(p: Seq<PartView>, opt: Options, costs: Seq<Option<i64>>, l: Seq<Link>, k: int, q: int)
    requires
        sorted_from(scored(p, candidates(p, opt, p.len() as int), costs), l),
        p.len() <= usize::MAX,
        0 <= k < chains_by(p.len() as int, l).len(),
        0 < q < chains_by(p.len() as int, l)[k].len(),
    ensures
        ({
            let c = chains_by(p.len() as int, l)[k];
            may_follow(p, opt, c[q - 1], c[q])
        }),
{
    let n = p.len() as int;
    let t = taken(l, l.len() as int);
    let all = candidates(p, opt, n);
    let s = scored(p, all, costs);
    let ord = choose|ord: Seq<int>| #[trigger] arranged(s, l, ord) && (orderly(s) ==> in_order(s, ord));
    candidates_fit(p, opt, n);
    joins_lead_forward(p, opt, costs, l);
    chosen_joins_are_mirrored(l, l.len() as int, n);
    chains_follow_joins(nexts(l, t, n), prevs(l, t, n), k, q);
    let c = chains_by(n, l)[k];
    chain_shape(nexts(l, t, n), prevs(l, t, n), k);
    assert(nexts(l, t, n)[c[q - 1]] == next_in(l, t, c[q - 1]));
    let i = join_behind(l, l.len() as int, c[q - 1]);
    assert(l[i] == s[ord[i]]);
    let f = all[ord[i]];
    assert(0 <= f.0 < n && f.0 < f.1 < n && may_follow(p, opt, f.0, f.1));
}

// ------------------------------------------------------------------ who may be continued

/// A candidate is listed exactly where it fits.
proof fn lemma_followers_listed(p: Seq<PartView>, opt: Options, i: int, n: int, j: int)
    requires
        0 <= i < j < n <= p.len(),
        may_follow(p, opt, i, j),
    ensures
        followers(p, opt, i, n).contains((i, j)),
    decreases n,
{
    let b = followers(p, opt, i, n);
    if j == n - 1 {
        assert(b[b.len() - 1] == (i, j));
    } else {
        lemma_followers_listed(p, opt, i, n - 1, j);
        let a = followers(p, opt, i, n - 1);
        let k = choose|k: int| 0 <= k < a.len() && a[k] == (i, j);
        assert(b[k] == (i, j));
    }
}

/// A candidate is listed exactly where it fits.
proof fn lemma_candidates_listed(p: Seq<PartView>, opt: Options, n: int, i: int, j: int)
    requires
        0 <= i < n <= p.len(),
        i < j < p.len(),
        may_follow(p, opt, i, j),
    ensures
        candidates(p, opt, n).contains((i, j)),
    decreases n,
{
    let b = candidates(p, opt, n);
    let a = candidates(p, opt, n - 1);
    if i == n - 1 {
        lemma_followers_listed(p, opt, i, p.len() as int, j);
        let f = followers(p, opt, i, p.len() as int);
        let k = choose|k: int| 0 <= k < f.len() && f[k] == (i, j);
        assert(b[a.len() + k] == (i, j));
    } else {
        lemma_candidates_listed(p, opt, n - 1, i, j);
        let k = choose|k: int| 0 <= k < a.len() && a[k] == (i, j);
        assert(b[k] == (i, j));
    }
}

/// Whether `b` begins within so many milliseconds of the end of `a`: of the time
/// from start to start, the frames of `a` are taken off.
pub open spec fn begins_at_end(a: PartView, b: PartView, ms: int) -> bool {
    let late = (b.start_secs - a.start_secs) * a.info.sample_rate - a.info.data_len / a.info.block_align;
    -ms * a.info.sample_rate <= 1000 * late && 1000 * late <= ms * a.info.sample_rate
}

/// Whether two parts can be of one recording: the same number and format.
pub open spec fn akin(a: PartView, b: PartView) -> bool {
    a.seq == b.seq && a.info.fmt == b.info.fmt
}

/// A file of 338 MiB, the size at which the recorder cuts, may always be
/// continued by a later part of the same number and format that begins where it
/// ends, whether or not another file has that size.
pub proof fn recorder_chunks_may_be_continued(p: Seq<PartView>, opt: Options, i: int, j: int)
    requires
        0 <= i < j < p.len(),
        p[i].size == 338 * 1024 * 1024,
        akin(p[i], p[j]),
        begins_at_end(p[i], p[j], opt.gap_tolerance as int),
    ensures
        candidates(p, opt, p.len() as int).contains((i, j)),
        marked(p, opt.min_chunk_bytes as int)[i].full_chunk,
{
    lemma_product(opt.gap_tolerance as int, p[i].info.sample_rate);
    lemma_candidates_listed(p, opt, p.len() as int, i, j);
}

/// The same product with either sign.
proof fn lemma_product(a: int, b: int)
    ensures
        -a * b == -(a * b),
{
    assert(-a * b == -(a * b)) by (nonlinear_arith);
}

/// A part with as much audio as a chunk has at least, whose size another file
/// has too, was cut by the recorder and may be continued like a known chunk.
pub proof fn repeated_sizes_may_be_continued(p: Seq<PartView>, opt: Options, i: int, j: int, twin: int)
    requires
        0 <= i < j < p.len(),
        0 <= twin < p.len(),
        twin != i,
        p[twin].size == p[i].size,
        p[i].info.data_len >= opt.min_chunk_bytes,
        akin(p[i], p[j]),
        begins_at_end(p[i], p[j], opt.gap_tolerance as int),
    ensures
        candidates(p, opt, p.len() as int).contains((i, j)),
        marked(p, opt.min_chunk_bytes as int)[i].full_chunk,
{
    lemma_product(opt.gap_tolerance as int, p[i].info.sample_rate);
    assert(p[twin].size == p[i].size);
    lemma_candidates_listed(p, opt, p.len() as int, i, j);
}

/// Where no file of a format has the recorder's size, the largest file of that
/// format may be continued if it has enough audio, though it is no full chunk.
pub proof fn largest_files_may_be_continued(p: Seq<PartView>, opt: Options, i: int, j: int)
    requires
        0 <= i < j < p.len(),
        forall|k: int|
            0 <= k < p.len() && (#[trigger] p[k]).info.fmt == p[i].info.fmt ==> p[k].size <= p[i].size && p[k].size != 338 * 1024 * 1024,
        p[i].info.data_len >= opt.min_chunk_bytes,
        akin(p[i], p[j]),
        begins_at_end(p[i], p[j], opt.gap_tolerance as int),
    ensures
        candidates(p, opt, p.len() as int).contains((i, j)),
{
    lemma_product(opt.gap_tolerance as int, p[i].info.sample_rate);
    lemma_candidates_listed(p, opt, p.len() as int, i, j);
}

/// What is never continued: a file that is shorter than a chunk, unless it has
/// the recorder's size; and a file whose size no other has where a larger one of
/// its format, or one of the recorder's size, shows how large chunks are.
pub proof fn short_files_are_not_continued(p: Seq<PartView>, opt: Options, i: int, j: int)
    requires
        0 <= i < p.len(),
        p[i].size != 338 * 1024 * 1024,
        p[i].info.data_len < opt.min_chunk_bytes || (forall|k: int| 0 <= k < p.len() && k != i ==> (#[trigger] p[k]).size != p[i].size) && (exists|k: int|
            0 <= k < p.len() && (#[trigger] p[k]).info.fmt == p[i].info.fmt && (p[k].size > p[i].size || p[k].size == 338 * 1024 * 1024)),
    ensures
        !candidates(p, opt, p.len() as int).contains((i, j)),
        !marked(p, opt.min_chunk_bytes as int)[i].full_chunk,
{
    candidates_fit(p, opt, p.len() as int);
    let c = candidates(p, opt, p.len() as int);
    if c.contains((i, j)) {
        let k = choose|k: int| 0 <= k < c.len() && c[k] == (i, j);
        assert(may_follow(p, opt, i, j));
    }
}

/// A part is continued only by a later one of the same number and format that
/// begins where it ends.
pub proof fn only_fitting_parts_continue(p: Seq<PartView>, opt: Options, i: int, j: int)
    requires
        candidates(p, opt, p.len() as int).contains((i, j)),
    ensures
        0 <= i < j < p.len(),
        akin(p[i], p[j]),
        begins_at_end(p[i], p[j], opt.gap_tolerance as int),
{
    candidates_fit(p, opt, p.len() as int);
    let c = candidates(p, opt, p.len() as int);
    let k = choose|k: int| 0 <= k < c.len() && c[k] == (i, j);
    assert(may_follow(p, opt, c[k].0, c[k].1));
    lemma_product(opt.gap_tolerance as int, p[i].info.sample_rate);
}

/// The score of a join grows with the deviation of the times, by half a point per
/// second, whether the part comes too early or too late; with the break in the
/// audio, point by point; and by a quarter of a point where the folders differ.
/// Audio that could not be judged counts as a break of one and a half points.
pub proof fn scores_add_up(a: PartView, b: PartView, c: PartView, x: Option<i64>, y: Option<i64>)
    requires
        usable(a),
        b.start_secs == c.start_secs,
    ensures
        score_of(a, b, x) - score_of(a, c, y) == (match x {
            Some(v) => v as int,
            None => 1_500_000_000,
        }) - (match y {
            Some(v) => v as int,
            None => 1_500_000_000,
        }) + (if b.folder_path == a.folder_path {
            0int
        } else {
            250_000_000int
        }) - (if c.folder_path == a.folder_path {
            0int
        } else {
            250_000_000int
        }),
{
}

/// How much a join scores for times that do not match: nothing where the part
/// begins exactly at the end, and half a point for each whole second between.
pub proof fn deviations_are_scored(a: PartView, b: PartView, secs: int)
    requires
        usable(a),
        0 <= secs,
        a.folder_path == b.folder_path,
        ({
            let late = (b.start_secs - a.start_secs) * a.info.sample_rate - a.info.data_len / a.info.block_align;
            late == secs * a.info.sample_rate || late == -(secs * a.info.sample_rate)
        }),
    ensures
        score_of(a, b, Some(0)) == secs * 500_000_000,
{
    let rate = a.info.sample_rate;
    let m = secs * rate;
    assert(m >= 0) by (nonlinear_arith)
        requires
            secs >= 0,
            rate >= 0,
            m == secs * rate,
    ;
    assert(m * GAP_WEIGHT == (secs * GAP_WEIGHT) * rate) by (nonlinear_arith)
        requires
            m == secs * rate,
    ;
    vstd::arithmetic::div_mod::lemma_div_multiples_vanish(secs * GAP_WEIGHT, rate);
    assert(rate * (secs * GAP_WEIGHT) == (secs * GAP_WEIGHT) * rate) by (nonlinear_arith);
}

/// A larger deviation never scores less.
pub proof fn larger_deviations_score_more(a: PartView, b: PartView, c: PartView, cost: Option<i64>)
    requires
        usable(a),
        b.folder_path == c.folder_path,
        ({
            let x = (b.start_secs - a.start_secs) * a.info.sample_rate - a.info.data_len / a.info.block_align;
            let y = (c.start_secs - a.start_secs) * a.info.sample_rate - a.info.data_len / a.info.block_align;
            -y <= x <= y
        }),
    ensures
        score_of(a, b, cost) <= score_of(a, c, cost),
{
    let rate = a.info.sample_rate;
    let x = gap(a, b);
    let y = gap(a, c);
    let m = if x < 0 {
        -x
    } else {
        x
    };
    vstd::arithmetic::div_mod::lemma_div_is_ordered(m * GAP_WEIGHT, y * GAP_WEIGHT, rate);
}

/// Whether part `j` comes right behind part `i` in one of the recordings.
pub open spec fn joined(n: int, l: Seq<Link>, i: int, j: int) -> bool {
    exists|k: int, m: int| 0 <= k < chains_by(n, l).len() && 0 < m < chains_by(n, l)[k].len() && chains_by(n, l)[k][m - 1] == i && #[trigger] chains_by(n, l)[k][m] == j
}

/// Of the parts that may continue one, and of those that one may continue, the
/// one that fits best wins: a candidate that is not joined lost a part to another
/// one that fits at least as well.
pub proof fn better_joins_win(p: Seq<PartView>, opt: Options, costs: Seq<Option<i64>>, l: Seq<Link>, c: int)
    requires
        sorted_from(scored(p, candidates(p, opt, p.len() as int), costs), l),
        p.len() <= usize::MAX,
        0 <= c < candidates(p, opt, p.len() as int).len(),
        !joined(p.len() as int, l, candidates(p, opt, p.len() as int)[c].0, candidates(p, opt, p.len() as int)[c].1),
    ensures
        ({
            let all = candidates(p, opt, p.len() as int);
            let s = scored(p, all, costs);
            exists|d: int|
                0 <= d < all.len() && d != c && (all[d].0 == all[c].0 || all[d].1 == all[c].1) && (#[trigger] s[d]).score <= s[c].score && joined(
                    p.len() as int,
                    l,
                    all[d].0,
                    all[d].1,
                )
        }),
{
    let n = p.len() as int;
    let all = candidates(p, opt, n);
    let s = scored(p, all, costs);
    crate::joins::links_are_orderly(s);
    let ord = choose|ord: Seq<int>| #[trigger] arranged(s, l, ord) && (orderly(s) ==> in_order(s, ord));
    candidates_fit(p, opt, n);
    joins_lead_forward(p, opt, costs, l);
    let t = taken(l, l.len() as int);
    assert(ord.contains(c));
    let w = choose|w: int| 0 <= w < ord.len() && ord[w] == c;
    assert(l[w] == s[c]);
    if t.contains(w) {
        let q = choose|q: int| 0 <= q < t.len() && t[q] == w;
        crate::joins::chosen_joins_are_in_chains(l, n, q);
        let all_c = chains_by(n, l);
        let (k, m) = choose|k: int, m: int| 0 <= k < all_c.len() && 0 < m < all_c[k].len() && all_c[k][m - 1] == l[w].a && #[trigger] all_c[k][m] == l[w].b;
        assert(chains_by(n, l)[k][m] == all[c].1);
        assert(joined(n, l, all[c].0, all[c].1));
    } else {
        crate::joins::choice_is_greedy(l, l.len() as int, w);
        let q = choose|q: int| 0 <= q < t.len() && #[trigger] t[q] < w && crate::joins::compete(l[t[q]], l[w]);
        chosen_joins_do_not_compete(l, l.len() as int);
        let u = t[q];
        let d = ord[u];
        assert(l[u] == s[d]);
        assert(crate::order::stands_before(s, ord[u], ord[w]));
        crate::joins::chosen_joins_are_in_chains(l, n, q);
        let all_c = chains_by(n, l);
        let (k, m) = choose|k: int, m: int| 0 <= k < all_c.len() && 0 < m < all_c[k].len() && all_c[k][m - 1] == l[u].a && #[trigger] all_c[k][m] == l[u].b;
        assert(chains_by(n, l)[k][m] == all[d].1);
        assert(joined(n, l, all[d].0, all[d].1));
        assert(s[d].score <= s[c].score);
    }
}

/// A part with one possible continuation, which could continue nothing else, is
/// joined to it, however the audio breaks there: both are in one recording, one
/// right behind the other.
pub proof fn only_continuations_are_joined(p: Seq<PartView>, opt: Options, costs: Seq<Option<i64>>, l: Seq<Link>, i: int, j: int)
    requires
        sorted_from(scored(p, candidates(p, opt, p.len() as int), costs), l),
        p.len() <= usize::MAX,
        candidates(p, opt, p.len() as int).contains((i, j)),
        forall|d: int|
            0 <= d < candidates(p, opt, p.len() as int).len() && ((#[trigger] candidates(p, opt, p.len() as int)[d]).0 == i || candidates(p, opt, p.len() as int)[d].1 == j)
                ==> candidates(p, opt, p.len() as int)[d] == (i, j),
    ensures
        joined(p.len() as int, l, i, j),
{
    let all = candidates(p, opt, p.len() as int);
    let c = choose|c: int| 0 <= c < all.len() && all[c] == (i, j);
    if !joined(p.len() as int, l, i, j) {
        better_joins_win(p, opt, costs, l, c);
        let s = scored(p, all, costs);
        let d = choose|d: int|
            0 <= d < all.len() && d != c && (all[d].0 == all[c].0 || all[d].1 == all[c].1) && (#[trigger] s[d]).score <= s[c].score && joined(
                p.len() as int,
                l,
                all[d].0,
                all[d].1,
            );
        assert(all[d] == (i, j));
    }
}

/// Two parts of one recorder, of which the first has the recorder's size and the
/// second begins where it ends, are one recording.
pub proof fn a_cut_recording_is_put_together(p: Seq<PartView>, opt: Options, costs: Seq<Option<i64>>, l: Seq<Link>)
    requires
        p.len() == 2,
        p[0].size == 338 * 1024 * 1024,
        akin(p[0], p[1]),
        begins_at_end(p[0], p[1], opt.gap_tolerance as int),
        sorted_from(scored(p, candidates(p, opt, 2), costs), l),
    ensures
        joined(2, l, 0, 1),
        exists|k: int| 0 <= k < built(p, l).len() && (#[trigger] built(p, l)[k]).parts.len() >= 2,
{
    recorder_chunks_may_be_continued(p, opt, 0, 1);
    candidates_fit(p, opt, 2);
    let all = candidates(p, opt, 2);
    assert forall|d: int| 0 <= d < all.len() implies #[trigger] all[d] == (0int, 1int) by {
        assert(0 <= all[d].0 < 2 && all[d].0 < all[d].1 < 2);
    }
    only_continuations_are_joined(p, opt, costs, l, 0, 1);
    let (k, m) = choose|k: int, m: int| 0 <= k < chains_by(2, l).len() && 0 < m < chains_by(2, l)[k].len() && chains_by(2, l)[k][m - 1] == 0 && #[trigger] chains_by(2, l)[k][m] == 1;
    assert(built(p, l)[k].parts.len() >= 2);
}

/// Parts that were put in order stand by their start, and those that start
/// together by their path; each is there once.
pub proof fn parts_stand_by_their_start(before: Seq<Part>, v: Seq<Part>, i: int, j: int)
    requires
        sorted_from(before, v),
        0 <= i < j < v.len(),
    ensures
        v.len() == before.len(),
        v[i].start_secs <= v[j].start_secs,
        v[i].start_secs == v[j].start_secs ==> !lex_less(v[j].path@, v[i].path@),
        before.contains(v[i]),
{
    parts_are_orderly(before);
    let p = choose|p: Seq<int>| #[trigger] arranged(before, v, p) && (orderly(before) ==> in_order(before, p));
    assert(v[i] == before[p[i]] && v[j] == before[p[j]]);
    assert(crate::order::stands_before(before, p[i], p[j]));
    assert(!v[j].below(v[i]));
}

/// The recordings that parts make stand by their start, and those that start
/// together by their label.
pub proof fn recordings_stand_by_their_start(p: Seq<PartView>, opt: Options, costs: Seq<Option<i64>>, r: Seq<RecordingView>, i: int, j: int)
    requires
        grouped(p, opt, costs, r),
        0 <= i < j < r.len(),
    ensures
        r[i].start_secs <= r[j].start_secs,
        r[i].start_secs == r[j].start_secs ==> !lex_less(r[j].label, r[i].label),
        r[i].id == i,
{
    let (l, raw, fin) = choose|l: Seq<Link>, raw: Seq<Recording>, fin: Seq<Recording>|
        #[trigger] sorted_from(scored(p, candidates(p, opt, p.len() as int), costs), l) && recording_views(raw) == built(p, l) && #[trigger] sorted_from(
            raw,
            fin,
        ) && r == named(recording_views(fin));
    crate::recording::recordings_are_orderly(raw);
    let q = choose|q: Seq<int>| #[trigger] arranged(raw, fin, q) && (orderly(raw) ==> in_order(raw, q));
    assert(fin[i] == raw[q[i]] && fin[j] == raw[q[j]]);
    assert(crate::order::stands_before(raw, q[i], q[j]));
    assert(!fin[j].below(fin[i]));
}

/// A recording is in doubt exactly if one of the joins chosen at its parts had a
/// rival, at either of its parts, that was worse by less than half a point.
pub proof fn close_calls_put_recordings_in_doubt(l: Seq<Link>, c: Seq<int>)
    ensures
        chain_doubtful(l, c) <==> (exists|m: int, q: int, j: int|
            #![trigger c[m], taken(l, l.len() as int)[q], l[j]]
            0 <= m < c.len() && 0 <= q < taken(l, l.len() as int).len() && 0 <= j < l.len() && ({
                let x = l[taken(l, l.len() as int)[q]];
                &&& x.a == c[m] || x.b == c[m]
                &&& j != taken(l, l.len() as int)[q]
                &&& l[j].a == x.a || l[j].b == x.b
                &&& l[j].score < x.score + 500_000_000
            })),
{
    let t = taken(l, l.len() as int);
    if chain_doubtful(l, c) {
        let m = choose|m: int| 0 <= m < c.len() && doubtful(l, t, #[trigger] c[m]);
        let q = choose|q: int| 0 <= q < t.len() && (l[#[trigger] t[q]].a == c[m] || l[t[q]].b == c[m]) && crate::joins::rivalled(l, t[q]);
        let j = choose|j: int| 0 <= j < l.len() && j != t[q] && crate::joins::compete(#[trigger] l[j], l[t[q]]) && l[j].score - l[t[q]].score < 500_000_000;
        assert(c[m] == c[m] && t[q] == t[q] && l[j] == l[j]);
    }
    if exists|m: int, q: int, j: int|
        #![trigger c[m], taken(l, l.len() as int)[q], l[j]]
        0 <= m < c.len() && 0 <= q < taken(l, l.len() as int).len() && 0 <= j < l.len() && ({
            let x = l[taken(l, l.len() as int)[q]];
            &&& x.a == c[m] || x.b == c[m]
            &&& j != taken(l, l.len() as int)[q]
            &&& l[j].a == x.a || l[j].b == x.b
            &&& l[j].score < x.score + 500_000_000
        }) {
        let (m, q, j) = choose|m: int, q: int, j: int|
            #![trigger c[m], taken(l, l.len() as int)[q], l[j]]
            0 <= m < c.len() && 0 <= q < taken(l, l.len() as int).len() && 0 <= j < l.len() && ({
                let x = l[taken(l, l.len() as int)[q]];
                &&& x.a == c[m] || x.b == c[m]
                &&& j != taken(l, l.len() as int)[q]
                &&& l[j].a == x.a || l[j].b == x.b
                &&& l[j].score < x.score + 500_000_000
            });
        crate::joins::close_calls_are_doubtful(l, t[q], j);
        assert(doubtful(l, t, c[m]));
    }
}

/// A part is marked as a full chunk exactly if it is a file of 338 MiB, or has
/// enough audio and the size of another file; nothing else of it changes. The
/// largest file of its format alone is not marked.
pub proof fn full_chunks_are_marked(p: Seq<PartView>, min: int, i: int)
    requires
        0 <= i < p.len(),
    ensures
        marked(p, min).len() == p.len(),
        p[i].size == 338 * 1024 * 1024 ==> marked(p, min)[i].full_chunk,
        forall|j: int| 0 <= j < p.len() && j != i && (#[trigger] p[j]).size == p[i].size && p[i].info.data_len >= min ==> marked(p, min)[i].full_chunk,
        p[i].size != 338 * 1024 * 1024 && (p[i].info.data_len < min || forall|j: int| 0 <= j < p.len() && j != i ==> (#[trigger] p[j]).size != p[i].size)
            ==> !marked(p, min)[i].full_chunk,
        marked(p, min)[i] == (PartView { full_chunk: marked(p, min)[i].full_chunk, ..p[i] }),
{
}

} // verus!
