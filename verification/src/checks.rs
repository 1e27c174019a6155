//! Whether values that come from elsewhere can be worked with.

use vstd::prelude::*;

use crate::group::usable;
use crate::items::clocks_ok;
use crate::pairing::{all_timed, is_timed};
use crate::phases::Evidence;
use crate::plan::{fit_evidence, fit_pair, plannable, Pair, PIECE_LIMIT};
use crate::recording::{byte_sum, countable, Recording, GAP_LIMIT, LIMIT, START_LIMIT};
use crate::scan::{part_views, Part, PartView};
use crate::track::{is_short, placeable, track_views, Track};
use crate::wav::WavInfo;

verus! {

/// Whether the numbers of a header fit together.
pub fn is_sound(i: &WavInfo) -> (r: bool)
    ensures
        r == i@.sound(),
{
    if i.channels == 0 || i.sample_rate == 0 || i.block_align == 0 || i.fmt.len() < 16 || i.fmt.len() > 1024 {
        return false;
    }
    i.data_len % i.block_align as u64 == 0 && i.data_offset <= i.file_size && i.data_len <= i.file_size - i.data_offset
}

/// Whether all counts of parts fit their types.
pub fn is_countable(parts: &Vec<Part>) -> (r: bool)
    ensures
        r == countable(part_views(parts@)),
{
    let ghost p = part_views(parts@);
    let mut sum: u64 = 0;
    let mut i: usize = 0;
    while i < parts.len()
        invariant
            i <= parts.len(),
            p == part_views(parts@),
            sum == byte_sum(p, i as int),
            sum <= LIMIT,
            forall|k: int|
                0 <= k < i ==> usable(#[trigger] p[k]) && -START_LIMIT <= p[k].start_secs <= START_LIMIT && (p[k].gap_to_prev matches Some(g) ==> -GAP_LIMIT <= g
                    <= GAP_LIMIT),
        decreases parts.len() - i,
    {
        let x = &parts[i];
        assert(p[i as int] == x@);
        if !is_sound(&x.info) || x.start_secs < -START_LIMIT || x.start_secs > START_LIMIT {
            return false;
        }
        if let Some(g) = x.gap_to_prev {
            if g < -GAP_LIMIT || g > GAP_LIMIT {
                return false;
            }
        }
        if x.info.data_len > LIMIT - sum {
            proof {
                lemma_byte_sum(p, i + 1);
            }
            return false;
        }
        sum = sum + x.info.data_len;
        i = i + 1;
    }
    true
}

/// Where too many bytes are counted, the parts cannot all be counted.
proof fn lemma_byte_sum(p: Seq<PartView>, n: int)
    requires
        0 < n <= p.len(),
        byte_sum(p, n) > LIMIT,
    ensures
        !countable(p),
{
    if countable(p) {
        lemma_byte_sum_grows(p, n, p.len() as int);
    }
}

/// More parts have no fewer bytes.
proof fn lemma_byte_sum_grows(p: Seq<PartView>, n: int, m: int)
    requires
        0 <= n <= m <= p.len(),
        forall|i: int| 0 <= i < p.len() ==> usable(#[trigger] p[i]),
    ensures
        byte_sum(p, n) <= byte_sum(p, m),
    decreases m - n,
{
    if n < m {
        lemma_byte_sum_grows(p, n, m - 1);
        assert(usable(p[m - 1]));
    }
}

/// Whether a recording can be placed in time.
pub fn is_placeable(x: &Recording) -> (r: bool)
    ensures
        r == placeable(x@),
{
    if x.parts.len() == 0 {
        assert(x@.parts.len() == 0);
        return false;
    }
    assert(x@.parts[0] == x.parts@[0]@);
    is_sound(&x.parts[0].info) && -START_LIMIT <= x.start_secs && x.start_secs <= START_LIMIT && is_short(x, x.parts[0].info.block_align)
}

/// Whether evidence was counted.
fn is_fit_evidence(h: &Evidence) -> (r: bool)
    ensures
        r == fit_evidence(*h),
{
    let m: u128 = h.measured as u128;
    assert(m * 0xFFFF_FFFF <= 0xFFFF_FFFF_FFFF_FFFF * 0xFFFF_FFFF) by (nonlinear_arith)
        requires
            0 <= m <= 0xFFFF_FFFF_FFFF_FFFF,
    ;
    h.hits <= h.count && h.count <= 0xFFFF_FFFF && h.coherence as u128 <= m * 0xFFFF_FFFF
}

/// Whether a pair fits the tracks.
fn is_fit(tracks: &Vec<Track>, q: &Pair) -> (r: bool)
    ensures
        r == fit_pair(track_views(tracks@), *q),
{
    assert(track_views(tracks@).len() == tracks.len());
    if q.a >= tracks.len() || q.b >= tracks.len() || q.a == q.b || !q.map.is_valid() {
        return false;
    }
    let mut i: usize = 0;
    while i < q.phases.len()
        invariant
            i <= q.phases.len(),
            forall|k: int|
                0 <= k < i ==> -PIECE_LIMIT <= (#[trigger] q.phases@[k]).start <= PIECE_LIMIT && -PIECE_LIMIT <= q.phases@[k].end <= PIECE_LIMIT && fit_evidence(
                    q.phases@[k].evidence,
                ),
        decreases q.phases.len() - i,
    {
        let x = q.phases[i];
        if x.start < -PIECE_LIMIT || x.start > PIECE_LIMIT || x.end < -PIECE_LIMIT || x.end > PIECE_LIMIT || !is_fit_evidence(&x.evidence) {
            return false;
        }
        i = i + 1;
    }
    true
}

/// Whether tracks and pairs can be planned with.
pub fn is_plannable(tracks: &Vec<Track>, pairs: &Vec<Pair>) -> (r: bool)
    ensures
        r == plannable(track_views(tracks@), pairs@),
{
    if !are_timed(tracks) {
        return false;
    }
    let mut i: usize = 0;
    while i < pairs.len()
        invariant
            i <= pairs.len(),
            forall|k: int| 0 <= k < i ==> fit_pair(track_views(tracks@), #[trigger] pairs@[k]),
        decreases pairs.len() - i,
    {
        if !is_fit(tracks, &pairs[i]) {
            return false;
        }
        i = i + 1;
    }
    true
}

/// Whether all tracks can be placed in time.
pub fn are_timed(tracks: &Vec<Track>) -> (r: bool)
    ensures
        r == all_timed(track_views(tracks@)),
{
    let ghost t = track_views(tracks@);
    let mut i: usize = 0;
    while i < tracks.len()
        invariant
            i <= tracks.len(),
            t == track_views(tracks@),
            forall|k: int| 0 <= k < i ==> crate::pairing::timed(#[trigger] t[k]),
        decreases tracks.len() - i,
    {
        assert(t[i as int] == tracks@[i as int]@);
        if !is_timed(&tracks[i]) {
            return false;
        }
        i = i + 1;
    }
    true
}

/// Whether the starts of tracks on the clock are times of a day.
pub fn have_clocks(tracks: &Vec<Track>) -> (r: bool)
    ensures
        r == clocks_ok(track_views(tracks@)),
{
    let ghost t = track_views(tracks@);
    let mut i: usize = 0;
    while i < tracks.len()
        invariant
            i <= tracks.len(),
            t == track_views(tracks@),
            forall|k: int| 0 <= k < i ==> 0 <= (#[trigger] t[k]).clock0 < 86_400,
        decreases tracks.len() - i,
    {
        assert(t[i as int] == tracks@[i as int]@);
        if tracks[i].clock0 < 0 || tracks[i].clock0 >= 86_400 {
            return false;
        }
        i = i + 1;
    }
    true
}

} // verus!
