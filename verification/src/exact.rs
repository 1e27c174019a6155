//! What is written is what was recorded: the files of pieces, read back, hold
//! the very samples of their tracks.

use vstd::prelude::*;

use crate::bytes::{le16, le16_bytes, le16_roundtrip, le32, le32_bytes, le32_roundtrip};
use crate::pairing::min;
use crate::render::{addressable, interleaved, lemma_inside, lemma_interleaved_len, lemma_no_runs, runs, runs_from, stereo_format, Run};
use crate::track::{segment_frames, SegmentView, TrackView};
use crate::wav::{described, file_meaning, header_bytes, header_has_announced_size, header_size, total_size, written_file_reads_back, WavError, WavFacts, RIFF_LIMIT};

verus! {

// ------------------------------------------------------------------ mono files

/// The audio of a segment in its file, in whole frames.
pub open spec fn segment_audio(s: SegmentView, file: Seq<u8>, align: int) -> Seq<u8> {
    file.subrange(s.offset, s.offset + s.len / align * align)
}

/// The audio of the segments from `j` on; `files` are the bytes of their files.
pub open spec fn audio_from(s: Seq<SegmentView>, files: Seq<Seq<u8>>, align: int, j: int) -> Seq<u8>
    decreases s.len() - j,
{
    if j >= s.len() {
        Seq::empty()
    } else {
        segment_audio(s[j], files[j], align) + audio_from(s, files, align, j + 1)
    }
}

/// The audio of a track; `files` are the bytes of the files of its segments.
pub open spec fn track_audio(t: TrackView, files: Seq<Seq<u8>>) -> Seq<u8> {
    audio_from(t.segments, files, t.info.block_align, 0)
}

/// The bytes of runs, one after the other.
pub open spec fn run_audio(r: Seq<Run>, files: Seq<Seq<u8>>) -> Seq<u8>
    decreases r.len(),
{
    if r.len() == 0 {
        Seq::empty()
    } else {
        files[r[0].segment as int].subrange(r[0].offset as int, r[0].offset + r[0].len) + run_audio(r.drop_first(), files)
    }
}

/// Whether the segments of a track lie inside their files.
pub open spec fn in_files(t: TrackView, files: Seq<Seq<u8>>) -> bool {
    &&& files.len() == t.segments.len()
    &&& forall|j: int| 0 <= j < files.len() ==> t.segments[j].offset + t.segments[j].len <= (#[trigger] files[j]).len()
}

/// Frames of the segments from `j` on.
spec fn frames_left(t: TrackView, j: int) -> int {
    segment_frames(t.segments, t.info.block_align, t.segments.len() as int) - segment_frames(t.segments, t.info.block_align, j)
}

/// The segments from `j` on have audio for all their frames.
proof fn lemma_audio_len(t: TrackView, files: Seq<Seq<u8>>, j: int)
    requires
        addressable(t),
        in_files(t, files),
        0 <= j <= t.segments.len(),
    ensures
        audio_from(t.segments, files, t.info.block_align, j).len() == frames_left(t, j) * t.info.block_align,
        0 <= frames_left(t, j),
    decreases t.segments.len() - j,
{
    let align = t.info.block_align;
    if j < t.segments.len() {
        lemma_audio_len(t, files, j + 1);
        let s = t.segments[j];
        let k = s.len / align;
        assert(0 <= s.offset && 0 <= s.len);
        vstd::arithmetic::div_mod::lemma_div_pos_is_pos(s.len, align);
        vstd::arithmetic::div_mod::lemma_fundamental_div_mod(s.len, align);
        vstd::arithmetic::div_mod::lemma_mod_bound(s.len, align);
        assert(align * k == k * align) by (nonlinear_arith);
        assert(k * align >= 0) by (nonlinear_arith)
            requires
                k >= 0,
                align > 0,
        ;
        assert(s.offset + s.len <= files[j].len());
        assert(segment_audio(s, files[j], align).len() == k * align);
        let rest = frames_left(t, j + 1);
        assert(frames_left(t, j) == k + rest);
        assert((k + rest) * align == k * align + rest * align) by (nonlinear_arith);
    } else {
        assert(0 * align == 0);
    }
}

/// The runs of frames in the segments from `j` on hold their audio.
proof fn lemma_run_audio(t: TrackView, files: Seq<Seq<u8>>, j: int, base: int, from: int, to: int)
    requires
        addressable(t),
        in_files(t, files),
        0 <= j <= t.segments.len() <= usize::MAX,
        t.info.block_align <= u64::MAX,
        base == segment_frames(t.segments, t.info.block_align, j),
        base <= from <= to <= t.frames,
    ensures
        run_audio(runs_from(t.segments, t.info.block_align, j, base, from, to), files) == audio_from(t.segments, files, t.info.block_align, j).subrange(
            (from - base) * t.info.block_align,
            (to - base) * t.info.block_align,
        ),
    decreases t.segments.len() - j,
{
    let s = t.segments;
    let align = t.info.block_align;
    let r = runs_from(s, align, j, base, from, to);
    let all = audio_from(s, files, align, j);
    lemma_audio_len(t, files, j);
    let (a, b) = ((from - base) * align, (to - base) * align);
    assert(0 <= a <= b <= all.len()) by (nonlinear_arith)
        requires
            a == (from - base) * align,
            b == (to - base) * align,
            all.len() == frames_left(t, j) * align,
            0 <= from - base <= to - base <= frames_left(t, j),
            align > 0,
    ;
    if j < s.len() {
        let k = s[j].len / align;
        let end = base + k;
        let head = segment_audio(s[j], files[j], align);
        let tail = audio_from(s, files, align, j + 1);
        assert(0 <= s[j].offset && 0 <= s[j].len && s[j].offset + s[j].len <= u64::MAX);
        assert(s[j].offset + s[j].len <= files[j].len());
        lemma_audio_len(t, files, j + 1);
        vstd::arithmetic::div_mod::lemma_div_pos_is_pos(s[j].len, align);
        vstd::arithmetic::div_mod::lemma_fundamental_div_mod(s[j].len, align);
        vstd::arithmetic::div_mod::lemma_mod_bound(s[j].len, align);
        assert(align * k == k * align) by (nonlinear_arith);
        assert(k * align >= 0) by (nonlinear_arith)
            requires
                k >= 0,
                align > 0,
        ;
        assert(head.len() == k * align);
        assert((to - base) * align == k * align + (to - end) * align) by (nonlinear_arith)
            requires
                end == base + k,
        ;
        if from < end && from < to {
            let stop = min(to, end);
            lemma_inside(s[j].len, align, from - base, stop - base);
            let n = stop - from;
            let m = (stop - base) * align;
            assert(m == a + n * align) by (nonlinear_arith)
                requires
                    m == (stop - base) * align,
                    a == (from - base) * align,
                    n == stop - from,
            ;
            assert(a <= m <= k * align) by (nonlinear_arith)
                requires
                    m == (stop - base) * align,
                    a == (from - base) * align,
                    from <= stop <= base + k,
                    align > 0,
            ;
            let rest = runs_from(s, align, j + 1, end, stop, to);
            assert(r.drop_first() =~= rest);
            let first = files[j].subrange(s[j].offset + a, s[j].offset + m);
            assert(first =~= head.subrange(a, m));
            assert(run_audio(r, files) == first + run_audio(rest, files));
            if to <= end {
                lemma_no_runs(s, align, j + 1, end, stop, to);
                assert(run_audio(rest, files) =~= Seq::<u8>::empty());
                assert(first =~= all.subrange(a, b));
            } else {
                lemma_run_audio(t, files, j + 1, end, stop, to);
                assert(0 * align == 0);
                assert(m == k * align);
                assert(first + tail.subrange(0, (to - end) * align) =~= all.subrange(a, b));
            }
        } else if from < end {
            lemma_no_runs(s, align, j + 1, end, from, to);
            assert(all.subrange(a, b) =~= Seq::<u8>::empty());
        } else {
            lemma_run_audio(t, files, j + 1, end, from, to);
            assert((from - base) * align == k * align + (from - end) * align) by (nonlinear_arith)
                requires
                    end == base + k,
            ;
            assert(tail.subrange((from - end) * align, (to - end) * align) =~= all.subrange(a, b));
        }
    } else {
        assert(all.subrange(a, b) =~= Seq::<u8>::empty());
    }
}

/// The runs of a time are an exact cut of the audio of a track.
pub proof fn runs_cut_exactly(t: TrackView, files: Seq<Seq<u8>>, from: int, to: int)
    requires
        addressable(t),
        in_files(t, files),
        t.segments.len() <= usize::MAX,
        t.info.block_align <= u64::MAX,
        0 <= from <= to <= t.frames,
    ensures
        run_audio(runs(t, from, to), files) == track_audio(t, files).subrange(from * t.info.block_align, to * t.info.block_align),
        to * t.info.block_align <= track_audio(t, files).len(),
{
    lemma_run_audio(t, files, 0, 0, from, to);
    lemma_audio_len(t, files, 0);
    assert(to * t.info.block_align <= t.frames * t.info.block_align) by (nonlinear_arith)
        requires
            to <= t.frames,
            t.info.block_align > 0,
    ;
}

/// The bytes of the mono file of the frames from `from` to `to` of a track.
pub open spec fn mono_bytes(t: TrackView, files: Seq<Seq<u8>>, from: int, to: int) -> Seq<u8> {
    let data = (to - from) * t.info.block_align;
    header_bytes(t.info.fmt, data, to - from, RIFF_LIMIT as int) + run_audio(runs(t, from, to), files) + (if data % 2 == 1 {
        seq![0u8]
    } else {
        Seq::empty()
    })
}

/// A mono file is an exact cut: it is read back with the format of its track
/// and with the very bytes of its frames, and nothing of it has to be repaired.
pub proof fn mono_files_are_exact(t: TrackView, files: Seq<Seq<u8>>, from: int, to: int)
    requires
        addressable(t),
        in_files(t, files),
        described(t.info, t.info.file_size),
        t.segments.len() <= usize::MAX,
        t.frames * t.info.block_align <= 4_000_000_000_000_000_000,
        0 <= from < to <= t.frames,
    ensures
        ({
            let f = mono_bytes(t, files, from, to);
            let at = header_size(t.info.fmt.len() as int);
            let data = (to - from) * t.info.block_align;
            &&& file_meaning(f) == Ok::<WavFacts, WavError>(
                WavFacts { data_offset: at, data_len: data, file_size: f.len() as int, repaired: false, ..t.info },
            )
            &&& f.subrange(at, at + data) == track_audio(t, files).subrange(from * t.info.block_align, to * t.info.block_align)
            &&& f.len() == total_size(t.info.fmt.len() as int, data)
        }),
{
    let align = t.info.block_align;
    let n = to - from;
    let data = n * align;
    reveal(le16);
    assert(0 < align <= 65535);
    assert(0 < data <= t.frames * align) by (nonlinear_arith)
        requires
            data == n * align,
            0 < n <= t.frames,
            align > 0,
    ;
    runs_cut_exactly(t, files, from, to);
    let audio = run_audio(runs(t, from, to), files);
    assert(to * align - from * align == data) by (nonlinear_arith)
        requires
            data == (to - from) * align,
    ;
    assert(0 <= from * align) by (nonlinear_arith)
        requires
            from >= 0,
            align > 0,
    ;
    assert(audio.len() == data);
    assert(data % align == 0) by {
        vstd::arithmetic::div_mod::lemma_mod_multiples_basic(n, align);
    }
    assert(n <= data) by (nonlinear_arith)
        requires
            data == n * align,
            n > 0,
            align >= 1,
    ;
    let tail = if data % 2 == 1 {
        seq![0u8]
    } else {
        Seq::<u8>::empty()
    };
    header_has_announced_size(t.info.fmt, data, n, RIFF_LIMIT as int);
    written_file_reads_back(t.info.fmt, audio, tail, n, RIFF_LIMIT as int);
}

// ------------------------------------------------------------------ stereo files

/// What a stereo format says, read back.
proof fn lemma_stereo_format(rate: int)
    requires
        0 < rate,
        rate * 8 <= u32::MAX,
    ensures
        stereo_format(rate).len() == 16,
        le16(stereo_format(rate), 0) == 3,
        le16(stereo_format(rate), 2) == 2,
        le32(stereo_format(rate), 4) == rate,
        le16(stereo_format(rate), 12) == 8,
        le16(stereo_format(rate), 14) == 32,
{
    le16_roundtrip(3);
    le16_roundtrip(2);
    le32_roundtrip(rate);
    le32_roundtrip(rate * 8);
    le16_roundtrip(8);
    le16_roundtrip(32);
    let f = stereo_format(rate);
    reveal(le16);
    reveal(le32);
    assert(f.subrange(0, 2) =~= le16_bytes(3));
    assert(f.subrange(2, 4) =~= le16_bytes(2));
    assert(f.subrange(4, 8) =~= le32_bytes(rate));
    assert(f.subrange(12, 14) =~= le16_bytes(8));
    assert(f.subrange(14, 16) =~= le16_bytes(32));
    assert(f[0] == f.subrange(0, 2)[0] && f[1] == f.subrange(0, 2)[1]);
    assert(f[2] == f.subrange(2, 4)[0] && f[3] == f.subrange(2, 4)[1]);
    let r = f.subrange(4, 8);
    assert(f[4] == r[0] && f[5] == r[1] && f[6] == r[2] && f[7] == r[3]);
    assert(f[12] == f.subrange(12, 14)[0] && f[13] == f.subrange(12, 14)[1]);
    assert(f[14] == f.subrange(14, 16)[0] && f[15] == f.subrange(14, 16)[1]);
}

/// A stereo file is read back as two channels of 32-bit floating-point samples
/// at the sample rate of its reference track, with every frame that was written.
pub proof fn stereo_files_read_back(rate: int, main: Seq<u32>, second: Seq<u32>, main_left: bool)
    requires
        0 < rate,
        rate * 8 <= u32::MAX,
        0 < main.len() == second.len(),
        main.len() <= 500_000_000_000_000_000,
    ensures
        ({
            let n = main.len() as int;
            let audio = interleaved(main, second, main_left, n);
            let f = header_bytes(stereo_format(rate), n * 8, n, RIFF_LIMIT as int) + audio;
            let at = header_size(16);
            &&& file_meaning(f) == Ok::<WavFacts, WavError>(
                WavFacts {
                    fmt: stereo_format(rate),
                    format_tag: 3,
                    channels: 2,
                    sample_rate: rate,
                    bits_per_sample: 32,
                    block_align: 8,
                    data_offset: at,
                    data_len: n * 8,
                    file_size: f.len() as int,
                    repaired: false,
                },
            )
            &&& f.subrange(at, at + n * 8) == audio
        }),
{
    let n = main.len() as int;
    let audio = interleaved(main, second, main_left, n);
    let f = header_bytes(stereo_format(rate), n * 8, n, RIFF_LIMIT as int) + audio;
    lemma_stereo_format(rate);
    lemma_interleaved_len(main, second, main_left, n);
    written_file_reads_back(stereo_format(rate), audio, Seq::<u8>::empty(), n, RIFF_LIMIT as int);
    assert(f =~= header_bytes(stereo_format(rate), n * 8, n, RIFF_LIMIT as int) + audio + Seq::<u8>::empty());
}

} // verus!
