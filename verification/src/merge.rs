//! The file that a recording becomes: the audio of its parts, copied unchanged
//! one after the other.

use vstd::prelude::*;

use crate::group::usable;
use crate::recording::{byte_sum, countable, frame_sum, recording_of, sums};
use crate::scan::{part_views, Part, PartView};
use crate::wav::{facts_come_from_the_file, file_meaning, header_bytes, header_has_announced_size, header_size, write_header, written_file_reads_back, WavError, WavFacts, RIFF_LIMIT};

verus! {

/// Bytes of a part that are copied.
#[derive(Debug, Clone, Copy, PartialEq, Eq, Structural)]
pub struct PartRun {
    pub part: usize,
    pub offset: u64,
    pub len: u64,
}

/// What the file of a recording is made of: its header, the audio of its parts,
/// and whether a byte fills it up to even length.
#[derive(Debug)]
pub struct RecordingFile {
    pub header: Vec<u8>,
    pub runs: Vec<PartRun>,
    pub pad: bool,
}

/// What the file of a recording is made of.
pub fn recording_file(parts: &Vec<Part>) -> (r: RecordingFile)
    requires
        parts.len() > 0,
        countable(part_views(parts@)),
    ensures
        ({
            let p = part_views(parts@);
            let data = byte_sum(p, p.len() as int);
            &&& r.header@ == header_bytes(p[0].info.fmt, data, frame_sum(p, p.len() as int), RIFF_LIMIT as int)
            &&& r.runs.len() == p.len()
            &&& forall|i: int|
                0 <= i < p.len() ==> (#[trigger] r.runs@[i]).part == i && r.runs@[i].offset == p[i].info.data_offset && r.runs@[i].len == p[i].info.data_len
            &&& r.pad == (data % 2 == 1)
        }),
{
    let ghost p = part_views(parts@);
    let (data, frames) = sums(parts);
    let mut runs: Vec<PartRun> = Vec::new();
    let mut i: usize = 0;
    while i < parts.len()
        invariant
            i <= parts.len(),
            p == part_views(parts@),
            runs.len() == i,
            forall|k: int| 0 <= k < i ==> (#[trigger] runs@[k]).part == k && runs@[k].offset == p[k].info.data_offset && runs@[k].len == p[k].info.data_len,
        decreases parts.len() - i,
    {
        assert(p[i as int] == parts@[i as int]@);
        runs.push(PartRun { part: i, offset: parts[i].info.data_offset, len: parts[i].info.data_len });
        i = i + 1;
    }
    assert(p[0] == parts@[0]@ && usable(p[0]));
    let mut header: Vec<u8> = Vec::new();
    write_header(&mut header, parts[0].info.fmt.as_slice(), data, frames, RIFF_LIMIT);
    assert(header@ =~= header_bytes(p[0].info.fmt, data as int, frames as int, RIFF_LIMIT as int));
    RecordingFile { header, runs, pad: data % 2 == 1 }
}

/// Bytes of the first `n` runs.
pub open spec fn run_sum(v: Seq<PartRun>, n: int) -> int
    decreases n,
{
    if n <= 0 {
        0
    } else {
        run_sum(v, n - 1) + v[n - 1].len
    }
}

/// The file of a recording has the size that is shown for it: the header, all
/// audio of its parts, and the byte that fills it up.
pub proof fn merged_size_is_planned(p: Seq<PartView>, ambiguous: bool, runs: Seq<PartRun>, n: int)
    requires
        p.len() > 0,
        countable(p),
        runs.len() == p.len(),
        forall|i: int| 0 <= i < p.len() ==> (#[trigger] runs[i]).len == p[i].info.data_len,
        0 <= n <= p.len(),
    ensures
        run_sum(runs, n) == byte_sum(p, n),
        ({
            let data = byte_sum(p, p.len() as int);
            let header = header_bytes(p[0].info.fmt, data, frame_sum(p, p.len() as int), RIFF_LIMIT as int);
            header.len() + data + data % 2 == recording_of(p, ambiguous).output_bytes
        }),
    decreases n,
{
    if n > 0 {
        merged_size_is_planned(p, ambiguous, runs, n - 1);
        assert(runs[n - 1].len == p[n - 1].info.data_len);
    }
    assert(usable(p[0]));
    lemma_sums(p, p.len() as int);
    header_has_announced_size(p[0].info.fmt, byte_sum(p, p.len() as int), frame_sum(p, p.len() as int), RIFF_LIMIT as int);
}

/// Frames are no more than bytes.
proof fn lemma_sums(p: Seq<PartView>, n: int)
    requires
        0 <= n <= p.len(),
        forall|i: int| 0 <= i < p.len() ==> usable(#[trigger] p[i]),
    ensures
        0 <= frame_sum(p, n) <= byte_sum(p, n),
    decreases n,
{
    if n > 0 {
        lemma_sums(p, n - 1);
        assert(usable(p[n - 1]));
        let x = p[n - 1].info;
        assert(0 <= x.data_len / x.block_align <= x.data_len) by (nonlinear_arith)
            requires
                x.data_len >= 0,
                x.block_align > 0,
        ;
    }
}

// ------------------------------------------------------------------ nothing is lost

/// The audio of the first `n` parts, one after the other; `files` are the bytes
/// of their files.
pub open spec fn audio_of(p: Seq<PartView>, files: Seq<Seq<u8>>, n: int) -> Seq<u8>
    decreases n,
{
    if n <= 0 {
        Seq::empty()
    } else {
        let w = p[n - 1].info;
        audio_of(p, files, n - 1) + files[n - 1].subrange(w.data_offset, w.data_offset + w.data_len)
    }
}

/// The bytes of the file that parts become.
pub open spec fn merged_file(p: Seq<PartView>, files: Seq<Seq<u8>>) -> Seq<u8> {
    let n = p.len() as int;
    let data = byte_sum(p, n);
    header_bytes(p[0].info.fmt, data, frame_sum(p, n), RIFF_LIMIT as int) + audio_of(p, files, n) + (if data % 2 == 1 {
        seq![0u8]
    } else {
        Seq::empty()
    })
}

/// The audio of parts has as many bytes as they have, in whole frames.
proof fn lemma_audio(p: Seq<PartView>, files: Seq<Seq<u8>>, align: int, n: int)
    requires
        0 <= n <= p.len(),
        files.len() == p.len(),
        forall|i: int| 0 <= i < p.len() ==> file_meaning(#[trigger] files[i]) == Ok::<WavFacts, WavError>(p[i].info),
        forall|i: int| 0 <= i < p.len() ==> (#[trigger] p[i]).info.block_align == align,
        0 < align,
    ensures
        audio_of(p, files, n).len() == byte_sum(p, n),
        byte_sum(p, n) % align == 0,
    decreases n,
{
    if n > 0 {
        lemma_audio(p, files, align, n - 1);
        facts_come_from_the_file(files[n - 1]);
        assert(p[n - 1].info.block_align == align);
        vstd::arithmetic::div_mod::lemma_mod_adds(byte_sum(p, n - 1), p[n - 1].info.data_len, align);
        vstd::arithmetic::div_mod::lemma_small_mod(0, align as nat);
    } else {
        vstd::arithmetic::div_mod::lemma_small_mod(0, align as nat);
    }
}

/// Merging loses nothing: the file that parts of one format become is read back
/// with that format and with their audio, one after the other, bit for bit; it
/// has the size that is shown for it, and nothing of it has to be repaired.
pub proof fn merging_is_lossless(p: Seq<PartView>, files: Seq<Seq<u8>>, ambiguous: bool)
    requires
        p.len() > 0,
        countable(p),
        files.len() == p.len(),
        forall|i: int| 0 <= i < p.len() ==> file_meaning(#[trigger] files[i]) == Ok::<WavFacts, WavError>(p[i].info),
        forall|i: int| 0 <= i < p.len() ==> (#[trigger] p[i]).info.fmt == p[0].info.fmt,
        p[0].info.data_len > 0,
    ensures
        ({
            let f = merged_file(p, files);
            let n = p.len() as int;
            let at = header_size(p[0].info.fmt.len() as int);
            &&& file_meaning(f) == Ok::<WavFacts, WavError>(
                WavFacts { data_offset: at, data_len: byte_sum(p, n), file_size: f.len() as int, repaired: false, ..p[0].info },
            )
            &&& f.subrange(at, at + byte_sum(p, n)) == audio_of(p, files, n)
            &&& f.len() == recording_of(p, ambiguous).output_bytes
        }),
{
    let n = p.len() as int;
    let fmt = p[0].info.fmt;
    let align = p[0].info.block_align;
    let data = byte_sum(p, n);
    facts_come_from_the_file(files[0]);
    assert forall|i: int| 0 <= i < p.len() implies (#[trigger] p[i]).info.block_align == align by {
        facts_come_from_the_file(files[i]);
    }
    lemma_audio(p, files, align, n);
    assert(usable(p[0]));
    sums_are_bounded(p, n);
    let audio = audio_of(p, files, n);
    let tail = if data % 2 == 1 {
        seq![0u8]
    } else {
        Seq::<u8>::empty()
    };
    header_has_announced_size(fmt, data, frame_sum(p, n), RIFF_LIMIT as int);
    written_file_reads_back(fmt, audio, tail, frame_sum(p, n), RIFF_LIMIT as int);
}

/// The sums of parts that can be counted fit their types, and are no less than
/// those of the first part.
proof fn sums_are_bounded(p: Seq<PartView>, n: int)
    requires
        countable(p),
        0 < n <= p.len(),
    ensures
        p[0].info.data_len <= byte_sum(p, n),
        0 <= frame_sum(p, n) <= byte_sum(p, n),
    decreases n,
{
    assert(usable(p[n - 1]));
    let w = p[n - 1].info;
    assert(0 <= w.frame_count() <= w.data_len) by {
        vstd::arithmetic::div_mod::lemma_div_pos_is_pos(w.data_len, w.block_align);
        vstd::arithmetic::div_mod::lemma_div_nonincreasing(w.data_len, w.block_align);
    }
    if n > 1 {
        sums_are_bounded(p, n - 1);
    } else {
        assert(byte_sum(p, 0) == 0 && frame_sum(p, 0) == 0);
    }
}

} // verus!
