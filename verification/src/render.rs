//! What a synchronised file is made of: which bytes of which files, and where
//! between its samples the second channel is taken from.

use vstd::prelude::*;

use crate::alignment::REACH_LIMIT;
use crate::bytes::{le16_bytes, le32_bytes, push16, push32};
use crate::items::{frame_range, mono_frames};
use crate::pairing::{max, min};
use crate::text::same;
use crate::track::{segment_frames, SegmentView, Track, TrackView};
use crate::wav::{header_bytes, write_header, RIFF_LIMIT};

verus! {

// ------------------------------------------------------------------ runs of bytes

/// A run of whole frames in one of the segments of a track.
#[derive(Debug, Clone, Copy, PartialEq, Eq, Structural)]
pub struct Run {
    /// Which segment.
    pub segment: usize,
    /// Where in its file.
    pub offset: u64,
    /// How many bytes.
    pub len: u64,
    /// Which frame of the track comes first.
    pub frame: u64,
}

/// The runs that hold the frames from `from` to `to`, in the segments from `j`
/// on, of which the first one begins with frame `base`.
pub open spec fn runs_from(s: Seq<SegmentView>, align: int, j: int, base: int, from: int, to: int) -> Seq<Run>
    decreases s.len() - j,
{
    if j >= s.len() {
        Seq::empty()
    } else {
        let end = base + s[j].len / align;
        if from < end && from < to {
            let stop = min(to, end);
            seq![
                Run {
                    segment: j as usize,
                    offset: (s[j].offset + (from - base) * align) as u64,
                    len: ((stop - from) * align) as u64,
                    frame: from as u64,
                },
            ] + runs_from(s, align, j + 1, end, stop, to)
        } else {
            runs_from(s, align, j + 1, end, from, to)
        }
    }
}

/// The runs that hold the frames from `from` to `to` of a track.
pub open spec fn runs(t: TrackView, from: int, to: int) -> Seq<Run> {
    runs_from(t.segments, t.info.block_align, 0, 0, from, to)
}

/// Whether the bytes of all segments can be addressed.
pub open spec fn addressable(t: TrackView) -> bool {
    &&& t.info.block_align > 0
    &&& t.frames == segment_frames(t.segments, t.info.block_align, t.segments.len() as int)
    &&& t.frames <= u64::MAX
    &&& forall|j: int| 0 <= j < t.segments.len() ==> 0 <= (#[trigger] t.segments[j]).offset && 0 <= t.segments[j].len && t.segments[j].offset + t.segments[j].len <= u64::MAX
}

/// Frames before a segment are no more than all frames.
proof fn lemma_base(s: Seq<SegmentView>, align: int, j: int, n: int)
    requires
        align > 0,
        0 <= j <= n <= s.len(),
        forall|i: int| 0 <= i < s.len() ==> 0 <= (#[trigger] s[i]).len,
    ensures
        0 <= segment_frames(s, align, j) <= segment_frames(s, align, n),
    decreases n, j,
{
    if j < n {
        lemma_base(s, align, j, n - 1);
        let x = s[n - 1].len;
        assert(x / align >= 0) by (nonlinear_arith)
            requires
                x >= 0,
                align > 0,
        ;
    } else if j > 0 {
        lemma_base(s, align, j - 1, j - 1);
        let x = s[j - 1].len;
        assert(x / align >= 0) by (nonlinear_arith)
            requires
                x >= 0,
                align > 0,
        ;
    }
}

/// The bytes of frames inside a segment lie inside it.
pub proof fn lemma_inside(len: int, align: int, a: int, b: int)
    requires
        align > 0,
        0 <= len,
        0 <= a <= b <= len / align,
    ensures
        0 <= a * align,
        a * align + (b - a) * align <= len,
        (b - a) * align >= 0,
{
    vstd::arithmetic::div_mod::lemma_fundamental_div_mod(len, align);
    assert(0 <= a * align && (b - a) * align >= 0 && a * align + (b - a) * align == b * align) by (nonlinear_arith)
        requires
            0 <= a <= b,
            align > 0,
    ;
    assert(b * align <= align * (len / align)) by (nonlinear_arith)
        requires
            b <= len / align,
            align > 0,
    ;
}

/// The runs that hold the frames from `from` to `to` of a track.
pub fn find_runs(t: &Track, from: u64, to: u64) -> (r: Vec<Run>)
    requires
        addressable(t@),
    ensures
        r@ == runs(t@, from as int, to as int),
{
    let ghost s = t@.segments;
    let align: u64 = t.info.block_align as u64;
    let mut out: Vec<Run> = Vec::new();
    let mut at: u64 = from;
    let mut base: u64 = 0;
    let mut j: usize = 0;
    assert(s.len() == t.segments.len());
    assert(out@ + runs_from(s, align as int, 0, 0, from as int, to as int) =~= runs(t@, from as int, to as int));
    while j < t.segments.len()
        invariant
            j <= t.segments.len() == s.len(),
            s == t@.segments,
            addressable(t@),
            align == t@.info.block_align,
            base == segment_frames(s, align as int, j as int),
            base <= at,
            out@ + runs_from(s, align as int, j as int, base as int, at as int, to as int) == runs(t@, from as int, to as int),
        decreases t.segments.len() - j,
    {
        assert(s[j as int] == t.segments@[j as int]@);
        assert(0 <= s[j as int].offset && s[j as int].offset + s[j as int].len <= u64::MAX);
        proof {
            lemma_base(s, align as int, j + 1, s.len() as int);
        }
        let n: u64 = t.segments[j].len / align;
        let end: u64 = base + n;
        let ghost o = out@;
        if at < end && at < to {
            let stop: u64 = if to <= end {
                to
            } else {
                end
            };
            proof {
                lemma_inside(s[j as int].len, align as int, at - base, stop - base);
            }
            let run = Run { segment: j, offset: t.segments[j].offset + (at - base) * align, len: (stop - at) * align, frame: at };
            out.push(run);
            at = stop;
            assert(out@ + runs_from(s, align as int, j + 1, end as int, at as int, to as int) =~= o + (seq![run] + runs_from(
                s,
                align as int,
                j + 1,
                end as int,
                at as int,
                to as int,
            )));
        }
        if at < end {
            // Nothing more is wanted.
            proof {
                lemma_no_runs(s, align as int, j + 1, end as int, at as int, to as int);
                assert(out@ + runs_from(s, align as int, j + 1, end as int, at as int, to as int) =~= out@);
            }
            return out;
        }
        base = end;
        j = j + 1;
    }
    assert(out@ + Seq::<Run>::empty() =~= out@);
    out
}

/// Where nothing is wanted, there are no runs.
pub proof fn lemma_no_runs(s: Seq<SegmentView>, align: int, j: int, base: int, from: int, to: int)
    requires
        from >= to,
    ensures
        runs_from(s, align, j, base, from, to) =~= Seq::<Run>::empty(),
    decreases s.len() - j,
{
    if j < s.len() {
        lemma_no_runs(s, align, j + 1, base + s[j].len / align, from, to);
    }
}

/// Bytes of runs.
pub open spec fn run_bytes(r: Seq<Run>) -> int
    decreases r.len(),
{
    if r.len() == 0 {
        0
    } else {
        r[0].len + run_bytes(r.drop_first())
    }
}

/// Whether a run lies inside its segment.
pub open spec fn run_inside(s: Seq<SegmentView>, r: Run) -> bool {
    r.segment < s.len() && s[r.segment as int].offset <= r.offset && r.offset + r.len <= s[r.segment as int].offset + s[r.segment as int].len
}

/// Whether runs hold the frames from `from` to `to` in sequence.
pub open spec fn in_sequence(r: Seq<Run>, align: int, from: int, to: int) -> bool
    decreases r.len(),
{
    if r.len() == 0 {
        from == to
    } else {
        r[0].frame == from && r[0].len as int % align == 0 && in_sequence(r.drop_first(), align, from + r[0].len as int / align, to)
    }
}

/// The runs from a segment on.
proof fn lemma_runs(t: TrackView, j: int, base: int, from: int, to: int)
    requires
        addressable(t),
        0 <= j <= t.segments.len() <= usize::MAX,
        t.info.block_align <= u64::MAX,
        base == segment_frames(t.segments, t.info.block_align, j),
        base <= from <= to <= t.frames,
    ensures
        ({
            let r = runs_from(t.segments, t.info.block_align, j, base, from, to);
            &&& run_bytes(r) == (to - from) * t.info.block_align
            &&& in_sequence(r, t.info.block_align, from, to)
            &&& forall|i: int| 0 <= i < r.len() ==> run_inside(t.segments, #[trigger] r[i])
        }),
    decreases t.segments.len() - j,
{
    let s = t.segments;
    let align = t.info.block_align;
    let r = runs_from(s, align, j, base, from, to);
    if j < s.len() {
        let end = base + s[j].len / align;
        assert(0 <= s[j].offset && 0 <= s[j].len && s[j].offset + s[j].len <= u64::MAX);
        lemma_base(s, align, j + 1, s.len() as int);
        lemma_base(s, align, j, j + 1);
        if from < end && from < to {
            let stop = min(to, end);
            lemma_inside(s[j].len, align, from - base, stop - base);
            let rest = runs_from(s, align, j + 1, end, stop, to);
            if to <= end {
                lemma_no_runs(s, align, j + 1, end, stop, to);
                assert(0 * align == 0);
                assert(run_bytes(rest) == 0);
                assert(in_sequence(rest, align, stop, to));
            } else {
                lemma_runs(t, j + 1, end, stop, to);
            }
            assert(r.drop_first() =~= rest);
            let n = stop - from;
            assert(r[0].len == n * align);
            vstd::arithmetic::div_mod::lemma_div_multiples_vanish(n, align);
            vstd::arithmetic::div_mod::lemma_mod_multiples_basic(n, align);
            assert(align * n == n * align) by (nonlinear_arith);
            assert((to - from) * align == n * align + (to - stop) * align) by (nonlinear_arith)
                requires
                    n == stop - from,
            ;
            assert forall|i: int| 0 <= i < r.len() implies run_inside(s, #[trigger] r[i]) by {
                if i > 0 {
                    assert(r[i] == rest[i - 1]);
                }
            }
        } else {
            if from < end {
                lemma_no_runs(s, align, j + 1, end, from, to);
                assert(0 * align == 0);
            } else {
                lemma_runs(t, j + 1, end, from, to);
            }
        }
    } else {
        assert((to - from) * align == 0) by (nonlinear_arith)
            requires
                to == from,
        ;
    }
}

/// The runs of a time hold all its frames in sequence, each once, and lie inside
/// their segments.
pub proof fn runs_hold_the_frames(t: TrackView, from: int, to: int)
    requires
        addressable(t),
        t.segments.len() <= usize::MAX,
        t.info.block_align <= u64::MAX,
        0 <= from <= to <= t.frames,
    ensures
        run_bytes(runs(t, from, to)) == (to - from) * t.info.block_align,
        in_sequence(runs(t, from, to), t.info.block_align, from, to),
        forall|i: int| 0 <= i < runs(t, from, to).len() ==> run_inside(t.segments, #[trigger] runs(t, from, to)[i]),
{
    lemma_runs(t, 0, 0, from, to);
}

/// Whether the bytes of all segments of a track can be addressed.
pub fn is_addressable(t: &Track) -> (r: bool)
    ensures
        r == addressable(t@),
{
    let ghost s = t@.segments;
    if t.info.block_align == 0 {
        return false;
    }
    let align: u64 = t.info.block_align as u64;
    let mut sum: u128 = 0;
    let mut j: usize = 0;
    assert(s.len() == t.segments.len());
    while j < t.segments.len()
        invariant
            j <= t.segments.len() == s.len(),
            s == t@.segments,
            align == t@.info.block_align,
            align > 0,
            sum == segment_frames(s, align as int, j as int),
            sum <= j * 0xFFFF_FFFF_FFFF_FFFF,
            forall|k: int| 0 <= k < j ==> 0 <= (#[trigger] s[k]).offset && 0 <= s[k].len && s[k].offset + s[k].len <= u64::MAX,
        decreases t.segments.len() - j,
    {
        assert(s[j as int] == t.segments@[j as int]@);
        if t.segments[j].len > u64::MAX - t.segments[j].offset {
            return false;
        }
        assert(j * 0xFFFF_FFFF_FFFF_FFFF <= 0xFFFF_FFFF_FFFF_FFFF * 0xFFFF_FFFF_FFFF_FFFF) by (nonlinear_arith)
            requires
                j <= 0xFFFF_FFFF_FFFF_FFFF,
        ;
        sum = sum + (t.segments[j].len / align) as u128;
        j = j + 1;
    }
    t.frames as u128 == sum
}

/// What a mono file is made of: its header, the runs of audio, and whether a
/// byte fills it up to even length.
#[derive(Debug)]
pub struct MonoFile {
    pub header: Vec<u8>,
    pub runs: Vec<Run>,
    pub pad: bool,
}

/// What the mono file of a time of a track is made of: the audio is copied
/// unchanged.
pub fn mono_file(t: &Track, t0: i64, t1: i64) -> (r: MonoFile)
    requires
        addressable(t@),
        t@.info.fmt.len() <= 1024,
        t@.frames * t@.info.block_align <= 4_000_000_000_000_000_000,
        -2 * REACH_LIMIT <= t0 <= 2 * REACH_LIMIT,
        -2 * REACH_LIMIT <= t1 <= 2 * REACH_LIMIT,
    ensures
        ({
            let (f0, f1) = frame_range(t@, t0 as int, t1 as int);
            let data = (f1 - f0) * t@.info.block_align;
            &&& r.header@ == header_bytes(t@.info.fmt, data, f1 - f0, RIFF_LIMIT as int)
            &&& r.runs@ == runs(t@, f0, f1)
            &&& r.pad == (data % 2 == 1)
        }),
{
    let (f0, f1) = mono_frames(t, t0, t1);
    let align: u64 = t.info.block_align as u64;
    proof {
        let n = f1 - f0;
        let a = align as int;
        assert(0 <= n * a <= t.frames * a) by (nonlinear_arith)
            requires
                0 <= n <= t.frames,
                a >= 0,
        ;
    }
    let data: u64 = (f1 - f0) * align;
    let mut header: Vec<u8> = Vec::new();
    write_header(&mut header, t.info.fmt.as_slice(), data, f1 - f0, RIFF_LIMIT);
    assert(header@ =~= header_bytes(t@.info.fmt, data as int, f1 - f0, RIFF_LIMIT as int));
    MonoFile { header, runs: find_runs(t, f0, f1), pad: data % 2 == 1 }
}

/// A run of frames and where it goes.
#[derive(Debug)]
pub struct Reading {
    pub runs: Vec<Run>,
    /// Place of the first frame read among those asked for.
    pub at: usize,
}

/// The runs to read for `n` frames from frame `start` on; frames outside the
/// track are silent.
pub fn mono_reading(t: &Track, start: i64, n: usize) -> (r: Reading)
    requires
        addressable(t@),
        t@.frames <= i64::MAX,
        start + n <= i64::MAX,
    ensures
        ({
            let s = max(start as int, 0);
            let e = min(start + n, t@.frames);
            if e <= s {
                r.runs.len() == 0
            } else {
                r.runs@ == runs(t@, s, e) && r.at == s - start && r.at + (e - s) <= n
            }
        }),
        r.runs.len() > 0 ==> r.runs@[0].frame == start + r.at && (r.at > 0 ==> r.runs@[0].frame == 0),
        0 <= start && start + n <= t@.frames ==> run_bytes(r.runs@) == n * t@.info.block_align,
{
    let s: i64 = if start >= 0 {
        start
    } else {
        0
    };
    let stop: i128 = start as i128 + n as i128;
    let e: i64 = if stop <= t.frames as i128 {
        stop as i64
    } else {
        t.frames as i64
    };
    if e <= s {
        assert(n == 0 || !(0 <= start && start + n <= t@.frames));
        return Reading { runs: Vec::new(), at: 0 };
    }
    proof {
        assert(t@.segments.len() == t.segments.len());
        runs_hold_the_frames(t@, s as int, e as int);
    }
    Reading { runs: find_runs(t, s as u64, e as u64), at: (s as i128 - start as i128) as usize }
}

// ------------------------------------------------------------------ stereo

/// The format of a stereo file of floating-point samples.
pub open spec fn stereo_format(rate: int) -> Seq<u8> {
    le16_bytes(3) + le16_bytes(2) + le32_bytes(rate) + le32_bytes(rate * 8) + le16_bytes(8) + le16_bytes(32)
}

/// The format of a stereo file of floating-point samples.
pub fn float_stereo_fmt(rate: u32) -> (r: Vec<u8>)
    requires
        rate * 8 <= u32::MAX,
    ensures
        r@ == stereo_format(rate as int),
{
    let mut f: Vec<u8> = Vec::new();
    push16(&mut f, 3);
    push16(&mut f, 2);
    push32(&mut f, rate);
    push32(&mut f, rate * 8);
    push16(&mut f, 8);
    push16(&mut f, 32);
    assert(f@ =~= stereo_format(rate as int));
    f
}

/// Whether the reference track of a piece is heard on the left.
pub fn reference_is_left(tracks: &Vec<Track>, reference: usize, left: usize) -> (r: bool)
    requires
        reference < tracks.len(),
        left < tracks.len(),
    ensures
        r == (reference == left || tracks@[reference as int].label@ == tracks@[left as int].label@),
{
    reference == left || same(tracks[reference].label.as_str(), tracks[left].label.as_str())
}

/// The four bytes of the sample that channel `c` of frame `j` has.
pub open spec fn sample_at(main: Seq<u32>, second: Seq<u32>, main_left: bool, j: int, c: int) -> u32 {
    if (c == 0) == main_left {
        main[j]
    } else {
        second[j]
    }
}

/// Two channels frame by frame, the samples given by their bits.
pub open spec fn interleaved(main: Seq<u32>, second: Seq<u32>, main_left: bool, n: int) -> Seq<u8>
    decreases n,
{
    if n <= 0 {
        Seq::empty()
    } else {
        interleaved(main, second, main_left, n - 1) + le32_bytes(sample_at(main, second, main_left, n - 1, 0) as int) + le32_bytes(
            sample_at(main, second, main_left, n - 1, 1) as int,
        )
    }
}

/// Two channels frame by frame.
pub fn interleave(main: &Vec<u32>, second: &Vec<u32>, main_left: bool) -> (r: Vec<u8>)
    requires
        main.len() == second.len(),
    ensures
        r@ == interleaved(main@, second@, main_left, main.len() as int),
{
    let mut out: Vec<u8> = Vec::new();
    let mut j: usize = 0;
    while j < main.len()
        invariant
            j <= main.len() == second.len(),
            out@ == interleaved(main@, second@, main_left, j as int),
        decreases main.len() - j,
    {
        if main_left {
            push32(&mut out, main[j]);
            push32(&mut out, second[j]);
        } else {
            push32(&mut out, second[j]);
            push32(&mut out, main[j]);
        }
        j = j + 1;
    }
    out
}

/// The reference track runs through bit for bit on its side: the sample of
/// frame `j` of its channel is the one that was read.
pub proof fn reference_is_unchanged(main: Seq<u32>, second: Seq<u32>, main_left: bool, n: int, j: int)
    requires
        0 <= j < n <= main.len(),
        main.len() == second.len(),
    ensures
        ({
            let b = interleaved(main, second, main_left, n);
            let at = 8 * j + if main_left {
                0int
            } else {
                4int
            };
            b.len() == 8 * n && crate::bytes::le32(b, at) == main[j]
        }),
    decreases n,
{
    let b = interleaved(main, second, main_left, n);
    let a = interleaved(main, second, main_left, n - 1);
    let x = le32_bytes(sample_at(main, second, main_left, n - 1, 0) as int);
    let y = le32_bytes(sample_at(main, second, main_left, n - 1, 1) as int);
    crate::bytes::le32_roundtrip(sample_at(main, second, main_left, n - 1, 0) as int);
    crate::bytes::le32_roundtrip(sample_at(main, second, main_left, n - 1, 1) as int);
    lemma_interleaved_len(main, second, main_left, n - 1);
    reveal(crate::bytes::le16);
    reveal(crate::bytes::le32);
    if j < n - 1 {
        reference_is_unchanged(main, second, main_left, n - 1, j);
        let at = 8 * j + if main_left {
            0int
        } else {
            4int
        };
        assert(b[at] == a[at] && b[at + 1] == a[at + 1] && b[at + 2] == a[at + 2] && b[at + 3] == a[at + 3]);
    } else {
        let i = 8 * j;
        assert(b[i] == x[0] && b[i + 1] == x[1] && b[i + 2] == x[2] && b[i + 3] == x[3]);
        assert(b[i + 4] == y[0] && b[i + 5] == y[1] && b[i + 6] == y[2] && b[i + 7] == y[3]);
    }
}

/// Eight bytes per frame.
pub proof fn lemma_interleaved_len(main: Seq<u32>, second: Seq<u32>, main_left: bool, n: int)
    requires
        0 <= n,
    ensures
        interleaved(main, second, main_left, n).len() == 8 * n,
    decreases n,
{
    if n > 0 {
        lemma_interleaved_len(main, second, main_left, n - 1);
        crate::bytes::le32_roundtrip(sample_at(main, second, main_left, n - 1, 0) as int);
        crate::bytes::le32_roundtrip(sample_at(main, second, main_left, n - 1, 1) as int);
    }
}

/// The other recorder is heard on the other side, frame by frame: its channel
/// holds the samples that were read of it.
pub proof fn other_side_holds_the_other_recorder(main: Seq<u32>, second: Seq<u32>, main_left: bool, n: int, j: int)
    requires
        0 <= j < n <= main.len(),
        main.len() == second.len(),
    ensures
        ({
            let b = interleaved(main, second, main_left, n);
            let at = 8 * j + if main_left {
                4int
            } else {
                0int
            };
            b.len() == 8 * n && crate::bytes::le32(b, at) == second[j]
        }),
    decreases n,
{
    lemma_sides_swap(main, second, main_left, n);
    reference_is_unchanged(second, main, !main_left, n, j);
}

proof fn lemma_sides_swap(main: Seq<u32>, second: Seq<u32>, main_left: bool, n: int)
    ensures
        interleaved(main, second, main_left, n) == interleaved(second, main, !main_left, n),
    decreases n,
{
    if n > 0 {
        lemma_sides_swap(main, second, main_left, n - 1);
    }
}

} // verus!
