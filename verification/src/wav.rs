//! WAV and RF64 files: reading the header, writing one, and the numbers behind
//! the samples. Reading asks for the few bytes it needs one run at a time, so a
//! file of any size is described without holding it in memory.

use vstd::prelude::*;

use crate::bytes::{copy_of, le16, le32, le32_bytes, le32_roundtrip, le64, le64_bytes, le64_roundtrip, push32, push64, push_all, read16, read32, read64};
use crate::recording::{round_div, rounded};
use crate::text::{dec, digit, digit_char, push_dec};

verus! {

/// File size of a full chunk written by the DJI Mic 2 (338 MiB).
pub const DJI_CHUNK_FILE_SIZE: u64 = 354_418_688;

/// Largest size field a classic RIFF header can hold; above that it is RF64.
pub const RIFF_LIMIT: u64 = 4_294_967_295;

/// What a WAV header says about the audio in its file.
#[derive(Debug, Clone, PartialEq)]
pub struct WavInfo {
    /// Raw payload of the `fmt ` chunk (copied verbatim into the output).
    pub fmt: Vec<u8>,
    pub format_tag: u16,
    pub channels: u16,
    pub sample_rate: u32,
    pub bits_per_sample: u16,
    pub block_align: u16,
    /// Absolute file offset of the first audio byte.
    pub data_offset: u64,
    /// Usable audio bytes, always a multiple of `block_align`.
    pub data_len: u64,
    pub file_size: u64,
    /// The header's data size was missing or wrong and was derived from the file size.
    pub repaired: bool,
}

/// How one sample is stored.
#[derive(Debug, Clone, Copy, PartialEq, Eq, Structural)]
pub enum SampleKind {
    U8,
    I16,
    I24,
    I32,
    F32,
    F64,
}

/// Why a file is not read as a WAV file.
#[derive(Debug, Clone, Copy, PartialEq, Eq, Structural)]
pub enum WavError {
    /// Shorter than the file header.
    TooShort,
    /// Neither RIFF nor RF64, or not WAVE.
    NotWave,
    /// The `fmt ` chunk is too small or too large.
    BadFmtChunk,
    /// The audio comes before its description.
    DataBeforeFmt,
    /// No channels, no sample rate or no frame size.
    BadFormat,
    /// A chunk needed in full goes past the end of the file.
    UnexpectedEnd,
    /// The file ends without audio.
    NoData,
}

impl WavError {
    /// The reason in words.
    pub open spec fn text(self) -> Seq<char> {
        match self {
            WavError::TooShort => "Datei zu kurz"@,
            WavError::NotWave => "keine WAV-Datei"@,
            WavError::BadFmtChunk => "ungültiger fmt-Chunk"@,
            WavError::DataBeforeFmt => "data-Chunk vor fmt-Chunk"@,
            WavError::BadFormat => "ungültiges Audioformat"@,
            WavError::UnexpectedEnd => "failed to fill whole buffer"@,
            WavError::NoData => "kein data-Chunk gefunden"@,
        }
    }

    /// The reason in words.
    pub fn message(&self) -> (r: String)
        ensures
            r@ == self.text(),
    {
        let s = match self {
            WavError::TooShort => "Datei zu kurz",
            WavError::NotWave => "keine WAV-Datei",
            WavError::BadFmtChunk => "ungültiger fmt-Chunk",
            WavError::DataBeforeFmt => "data-Chunk vor fmt-Chunk",
            WavError::BadFormat => "ungültiges Audioformat",
            WavError::UnexpectedEnd => "failed to fill whole buffer",
            WavError::NoData => "kein data-Chunk gefunden",
        };
        s.to_string()
    }
}

// ------------------------------------------------------------------ one decimal

/// `m` doubled until it is at least 20 times 2^52: the significand, times 20,
/// of the binary64 numbers around m/20.
pub open spec fn scaled(m: nat) -> nat
    decreases (if m < 90071992547409920 {
        90071992547409920 - m
    } else {
        0
    }),
    when m > 0
{
    if m >= 90071992547409920 {
        m
    } else {
        scaled(m * 2)
    }
}

/// Whether m/20 (`m` odd: halfway between two tenths), held as the nearest
/// binary64, shows the upper tenth. A quarter is held exactly and goes to the
/// even tenth; any other value is held a little above or below.
pub open spec fn half_goes_up(m: nat) -> bool {
    if m % 5 == 0 {
        (m / 2) % 2 == 1
    } else {
        scaled(m) % 20 > 10
    }
}

/// Thousandths as tenths, the way a binary64 is shown with one decimal.
pub open spec fn nearest_tenth(thousandths: nat) -> nat {
    let q = thousandths / 100;
    let r = thousandths % 100;
    if r < 50 || (r == 50 && !half_goes_up(thousandths / 50)) {
        q
    } else {
        q + 1
    }
}

/// Whether a value halfway between two tenths shows the upper one.
pub fn tie_up(m: u64) -> (r: bool)
    requires
        0 < m < 90071992547409920,
    ensures
        r == half_goes_up(m as nat),
{
    if m % 5 == 0 {
        return (m / 2) % 2 == 1;
    }
    let mut v: u64 = m;
    while v < 90071992547409920
        invariant
            0 < v < 180143985094819840,
            scaled(v as nat) == scaled(m as nat),
        decreases (if v < 90071992547409920 {
            90071992547409920 - v
        } else {
            0
        }),
    {
        v = v * 2;
    }
    v % 20 > 10
}

/// Thousandths as tenths.
pub fn to_tenths(thousandths: u64) -> (r: u64)
    requires
        thousandths < 4_000_000_000_000_000_000,
    ensures
        r == nearest_tenth(thousandths as nat),
{
    let q: u64 = thousandths / 100;
    let rest: u64 = thousandths % 100;
    if rest < 50 || (rest == 50 && !tie_up(thousandths / 50)) {
        q
    } else {
        q + 1
    }
}

/// A sample rate in kHz: whole, or with one decimal after `point`.
pub open spec fn khz_text(rate: nat, point: char) -> Seq<char> {
    if rate % 1000 == 0 {
        dec(rate / 1000)
    } else {
        let t = nearest_tenth(rate);
        dec(t / 10).push(point).push(digit_char(t % 10))
    }
}

/// Appends a sample rate in kHz.
pub fn push_khz(s: &mut String, rate: u32, point: char)
    ensures
        final(s)@ == old(s)@ + khz_text(rate as nat, point),
{
    if rate % 1000 == 0 {
        push_dec(s, (rate / 1000) as u64);
    } else {
        let t: u64 = to_tenths(rate as u64);
        push_dec(s, t / 10);
        s.push(point);
        let c = digit(t % 10);
        s.push(c);
    }
}

// ------------------------------------------------------------------ format

/// The bytes of one sample of one channel.
pub open spec fn sample_bytes(block_align: int, channels: int) -> int {
    block_align / (if channels == 0 {
        1
    } else {
        channels
    })
}

/// The storage that a format tag and a sample size stand for.
pub open spec fn kind_of(tag: int, bytes: int) -> Option<SampleKind> {
    if tag == 1 && bytes == 1 {
        Some(SampleKind::U8)
    } else if tag == 1 && bytes == 2 {
        Some(SampleKind::I16)
    } else if tag == 1 && bytes == 3 {
        Some(SampleKind::I24)
    } else if tag == 1 && bytes == 4 {
        Some(SampleKind::I32)
    } else if tag == 3 && bytes == 4 {
        Some(SampleKind::F32)
    } else if tag == 3 && bytes == 8 {
        Some(SampleKind::F64)
    } else {
        None
    }
}

/// The number of channels in words.
pub open spec fn channel_text(n: nat) -> Seq<char> {
    if n == 1 {
        "Mono"@
    } else if n == 2 {
        "Stereo"@
    } else {
        dec(n) + " Kanäle"@
    }
}

/// The family of a format tag in words.
pub open spec fn tag_text(tag: int) -> Seq<char> {
    if tag == 3 {
        "float"@
    } else if tag == 1 {
        "PCM"@
    } else {
        "Codec"@
    }
}

/// Appends the number of channels in words.
pub fn push_channels(s: &mut String, n: u64)
    ensures
        final(s)@ == old(s)@ + channel_text(n as nat),
{
    if n == 1 {
        s.append("Mono");
    } else if n == 2 {
        s.append("Stereo");
    } else {
        push_dec(s, n);
        s.append(" Kanäle");
    }
}

/// The content of a header as mathematical values.
pub struct WavFacts {
    pub fmt: Seq<u8>,
    pub format_tag: int,
    pub channels: int,
    pub sample_rate: int,
    pub bits_per_sample: int,
    pub block_align: int,
    pub data_offset: int,
    pub data_len: int,
    pub file_size: int,
    pub repaired: bool,
}

impl View for WavInfo {
    type V = WavFacts;

    open spec fn view(&self) -> WavFacts {
        WavFacts {
            fmt: self.fmt@,
            format_tag: self.format_tag as int,
            channels: self.channels as int,
            sample_rate: self.sample_rate as int,
            bits_per_sample: self.bits_per_sample as int,
            block_align: self.block_align as int,
            data_offset: self.data_offset as int,
            data_len: self.data_len as int,
            file_size: self.file_size as int,
            repaired: self.repaired,
        }
    }
}

impl WavFacts {
    /// Format tag with WAVE_FORMAT_EXTENSIBLE resolved to its sub format.
    pub open spec fn base(self) -> int {
        if self.format_tag == 0xFFFE && self.fmt.len() >= 26 {
            le16(self.fmt, 24)
        } else {
            self.format_tag
        }
    }

    /// The storage of the samples.
    pub open spec fn kind(self) -> Option<SampleKind> {
        kind_of(self.base(), sample_bytes(self.block_align, self.channels))
    }

    /// Frames of audio.
    pub open spec fn frame_count(self) -> int {
        self.data_len / self.block_align
    }

    /// What holds of every header that was read: there is a format, the audio
    /// lies inside the file and is whole frames.
    pub open spec fn sound(self) -> bool {
        &&& self.channels > 0
        &&& self.sample_rate > 0
        &&& self.block_align > 0
        &&& 16 <= self.fmt.len() <= 1024
        &&& 0 <= self.data_len
        &&& self.data_len % self.block_align == 0
        &&& self.data_offset + self.data_len <= self.file_size
    }

    /// Sample rate, bits, family and channels in words.
    pub open spec fn label(self) -> Seq<char> {
        khz_text(self.sample_rate as nat, '.') + " kHz · "@ + dec(self.bits_per_sample as nat) + "-bit "@
            + tag_text(self.base()) + " · "@ + channel_text(self.channels as nat)
    }
}

impl WavInfo {
    /// Frames of audio.
    pub fn frames(&self) -> (r: u64)
        requires
            self.block_align > 0,
        ensures
            r == self@.frame_count(),
    {
        self.data_len / self.block_align as u64
    }

    /// Length of the audio in nanoseconds, to the nearest.
    pub fn duration(&self) -> (r: i128)
        requires
            self.block_align > 0,
            self.sample_rate > 0,
        ensures
            r == round_div(self@.frame_count() * 1_000_000_000, self.sample_rate as int),
    {
        let n: i128 = self.frames() as i128;
        assert(0 <= n * 1_000_000_000 <= 18_446_744_073_709_551_615_000_000_000);
        rounded(n * 1_000_000_000, self.sample_rate as i128)
    }

    /// Format tag with WAVE_FORMAT_EXTENSIBLE resolved to its sub format.
    pub fn base_tag(&self) -> (r: u16)
        ensures
            r == self@.base(),
    {
        if self.format_tag == 0xFFFE && self.fmt.len() >= 26 {
            read16(self.fmt.as_slice(), 24)
        } else {
            self.format_tag
        }
    }

    /// The storage of the samples, if it is one this library knows.
    pub fn sample_kind(&self) -> (r: Option<SampleKind>)
        ensures
            r == self@.kind(),
    {
        let n: u16 = if self.channels == 0 {
            1
        } else {
            self.channels
        };
        let bytes: u16 = self.block_align / n;
        let tag: u16 = self.base_tag();
        if tag == 1 && bytes == 1 {
            Some(SampleKind::U8)
        } else if tag == 1 && bytes == 2 {
            Some(SampleKind::I16)
        } else if tag == 1 && bytes == 3 {
            Some(SampleKind::I24)
        } else if tag == 1 && bytes == 4 {
            Some(SampleKind::I32)
        } else if tag == 3 && bytes == 4 {
            Some(SampleKind::F32)
        } else if tag == 3 && bytes == 8 {
            Some(SampleKind::F64)
        } else {
            None
        }
    }

    /// Sample rate, bits, family and channels in words, such as
    /// `48 kHz · 32-bit float · Mono`.
    pub fn format_label(&self) -> (r: String)
        ensures
            r@ == self@.label(),
    {
        let mut s = String::new();
        push_khz(&mut s, self.sample_rate, '.');
        s.append(" kHz · ");
        push_dec(&mut s, self.bits_per_sample as u64);
        s.append("-bit ");
        let tag: u16 = self.base_tag();
        if tag == 3 {
            s.append("float");
        } else if tag == 1 {
            s.append("PCM");
        } else {
            s.append("Codec");
        }
        s.append(" · ");
        push_channels(&mut s, self.channels as u64);
        assert(s@ =~= self@.label());
        s
    }

    /// A copy of the description.
    pub fn copy(&self) -> (r: WavInfo)
        ensures
            r@ == self@,
    {
        WavInfo {
            fmt: copy_of(self.fmt.as_slice()),
            format_tag: self.format_tag,
            channels: self.channels,
            sample_rate: self.sample_rate,
            bits_per_sample: self.bits_per_sample,
            block_align: self.block_align,
            data_offset: self.data_offset,
            data_len: self.data_len,
            file_size: self.file_size,
            repaired: self.repaired,
        }
    }
}

// ------------------------------------------------------------------ reading

/// `RIFF`
#[verifier::opaque]
pub open spec fn id_riff() -> Seq<u8> {
    seq![0x52u8, 0x49, 0x46, 0x46]
}

/// `RF64`
#[verifier::opaque]
pub open spec fn id_rf64() -> Seq<u8> {
    seq![0x52u8, 0x46, 0x36, 0x34]
}

/// `WAVE`
#[verifier::opaque]
pub open spec fn id_wave() -> Seq<u8> {
    seq![0x57u8, 0x41, 0x56, 0x45]
}

/// `ds64`
#[verifier::opaque]
pub open spec fn id_ds64() -> Seq<u8> {
    seq![0x64u8, 0x73, 0x36, 0x34]
}

/// `JUNK`
#[verifier::opaque]
pub open spec fn id_junk() -> Seq<u8> {
    seq![0x4au8, 0x55, 0x4e, 0x4b]
}

/// `fmt `
#[verifier::opaque]
pub open spec fn id_fmt() -> Seq<u8> {
    seq![0x66u8, 0x6d, 0x74, 0x20]
}

/// `data`
#[verifier::opaque]
pub open spec fn id_data() -> Seq<u8> {
    seq![0x64u8, 0x61, 0x74, 0x61]
}

/// What a data chunk whose content begins at `body` means, after a `fmt `
/// chunk and perhaps a `ds64` chunk: the declared size counts where the file
/// holds that much; a missing or too large one is replaced by what is there.
pub open spec fn data_meaning(fmt: Option<Seq<u8>>, ds64: Option<int>, body: int, size: int, file_size: int) -> Result<WavFacts, WavError> {
    match fmt {
        None => Err(WavError::DataBeforeFmt),
        Some(x) => {
            let align = le16(x, 12);
            if le16(x, 2) == 0 || le32(x, 4) == 0 || align == 0 {
                Err(WavError::BadFormat)
            } else {
                let available = file_size - body;
                let declared = if size == 0xFFFF_FFFF {
                    match ds64 {
                        Some(n) => n,
                        None => available,
                    }
                } else {
                    size
                };
                let missing = size == 0xFFFF_FFFF && ds64 is None;
                let repaired = missing || declared == 0 || declared > available;
                let len = if repaired {
                    available
                } else {
                    declared
                };
                Ok(
                    WavFacts {
                        fmt: x,
                        format_tag: le16(x, 0),
                        channels: le16(x, 2),
                        sample_rate: le32(x, 4),
                        bits_per_sample: le16(x, 14),
                        block_align: align,
                        data_offset: body,
                        data_len: len - len % align,
                        file_size: file_size,
                        repaired: repaired,
                    },
                )
            }
        },
    }
}

/// Where the chunk after one with its content at `body` begins.
pub open spec fn after_chunk(body: int, size: int) -> int {
    body + size + size % 2
}

/// What the chunks of `f` from `off` on mean, with what earlier chunks said.
pub open spec fn chunks_meaning(f: Seq<u8>, off: int, fmt: Option<Seq<u8>>, ds64: Option<int>) -> Result<WavFacts, WavError>
    decreases (if off <= f.len() {
        f.len() - off
    } else {
        0
    }),
    when off >= 0
{
    if off + 8 > f.len() {
        Err(WavError::NoData)
    } else {
        let id = f.subrange(off, off + 4);
        let size = le32(f, off + 4);
        let body = off + 8;
        proof {
            reveal(le16);
            reveal(le32);
        }
        if id == id_ds64() && size >= 16 {
            if body + 16 > f.len() {
                Err(WavError::UnexpectedEnd)
            } else {
                chunks_meaning(f, after_chunk(body, size), fmt, Some(le64(f, body + 8)))
            }
        } else if id == id_fmt() {
            if size < 16 || size > 1024 {
                Err(WavError::BadFmtChunk)
            } else if body + size > f.len() {
                Err(WavError::UnexpectedEnd)
            } else {
                chunks_meaning(f, after_chunk(body, size), Some(f.subrange(body, body + size)), ds64)
            }
        } else if id == id_data() {
            data_meaning(fmt, ds64, body, size, f.len() as int)
        } else {
            chunks_meaning(f, after_chunk(body, size), fmt, ds64)
        }
    }
}

/// What a whole file means.
pub open spec fn file_meaning(f: Seq<u8>) -> Result<WavFacts, WavError> {
    if f.len() < 12 {
        Err(WavError::TooShort)
    } else if !(f.subrange(0, 4) == id_riff() || f.subrange(0, 4) == id_rf64()) || f.subrange(8, 12) != id_wave() {
        Err(WavError::NotWave)
    } else {
        chunks_meaning(f, 12, None, None)
    }
}

/// A read result as mathematical values.
pub open spec fn result_view(r: Result<WavInfo, WavError>) -> Result<WavFacts, WavError> {
    match r {
        Ok(info) => Ok(info@),
        Err(e) => Err(e),
    }
}

/// What reading a header needs next, or what came out.
#[derive(Debug)]
pub enum Stage {
    /// The file header.
    Start,
    /// The header of the chunk at the offset.
    Chunk,
    /// The first bytes of a `ds64` chunk of this size.
    Ds64(u32),
    /// The whole of a `fmt ` chunk of this size.
    Fmt(u32),
    /// Nothing more.
    Over(Result<WavInfo, WavError>),
}

/// Reads a header from a file of known size, a few bytes at a time: the caller
/// fetches the bytes of each [`HeaderReader::request`] and hands them back.
#[derive(Debug)]
pub struct HeaderReader {
    pub file_size: u64,
    pub off: u64,
    pub fmt: Option<Vec<u8>>,
    pub ds64: Option<u64>,
    pub stage: Stage,
}

impl HeaderReader {
    /// The description found so far.
    pub open spec fn fmt_seen(self) -> Option<Seq<u8>> {
        match self.fmt {
            Some(v) => Some(v@),
            None => None,
        }
    }

    /// The 64-bit data size found so far.
    pub open spec fn ds64_seen(self) -> Option<int> {
        match self.ds64 {
            Some(n) => Some(n as int),
            None => None,
        }
    }

    /// The bytes to fetch next: offset and number.
    pub open spec fn wanted(self) -> Option<(int, int)> {
        match self.stage {
            Stage::Start => Some((0, 12)),
            Stage::Chunk => Some((self.off as int, 8)),
            Stage::Ds64(_) => Some((self.off as int, 16)),
            Stage::Fmt(size) => Some((self.off as int, size as int)),
            Stage::Over(_) => None,
        }
    }

    /// Whether `bytes` are what is wanted of the file `f`.
    pub open spec fn served(self, f: Seq<u8>, bytes: Seq<u8>) -> bool {
        self.wanted() matches Some((o, n)) && f.subrange(o, o + n) == bytes
    }

    /// Every wanted byte is inside the file, and a description is of a sound size.
    pub open spec fn wf(self) -> bool {
        &&& self.fmt_seen() matches Some(x) ==> 16 <= x.len() <= 1024
        &&& self.wanted() matches Some((o, n)) ==> o + n <= self.file_size
        &&& self.stage is Start ==> self.off == 0
        &&& self.stage matches Stage::Fmt(size) ==> 16 <= size <= 1024
        &&& self.stage matches Stage::Ds64(size) ==> 16 <= size
        &&& self.stage matches Stage::Over(Ok(info)) ==> info@.sound()
    }

    /// What the file `f` means, seen from here.
    pub open spec fn meaning(self, f: Seq<u8>) -> Result<WavFacts, WavError> {
        let off = self.off as int;
        match self.stage {
            Stage::Start => file_meaning(f),
            Stage::Chunk => chunks_meaning(f, off, self.fmt_seen(), self.ds64_seen()),
            Stage::Ds64(size) => chunks_meaning(f, after_chunk(off, size as int), self.fmt_seen(), Some(le64(f, off + 8))),
            Stage::Fmt(size) => chunks_meaning(
                f,
                after_chunk(off, size as int),
                Some(f.subrange(off, off + size)),
                self.ds64_seen(),
            ),
            Stage::Over(r) => result_view(r),
        }
    }

    /// An upper bound on the requests still to come.
    pub open spec fn steps_left(self) -> int {
        if self.wanted() is None {
            0
        } else {
            self.file_size - self.off + 1
        }
    }

    /// Begins with a file of `file_size` bytes.
    pub fn new(file_size: u64) -> (r: HeaderReader)
        ensures
            r.wf(),
            r.file_size == file_size,
            forall|f: Seq<u8>| f.len() == file_size ==> #[trigger] r.meaning(f) == file_meaning(f),
    {
        let stage = if file_size < 12 {
            Stage::Over(Err(WavError::TooShort))
        } else {
            Stage::Start
        };
        HeaderReader { file_size, off: 0, fmt: None, ds64: None, stage }
    }

    /// The bytes to fetch next, offset and number; `None` when there is a result.
    pub fn request(&self) -> (r: Option<(u64, u64)>)
        ensures
            match r {
                Some((o, n)) => self.wanted() == Some((o as int, n as int)),
                None => self.wanted() is None,
            },
    {
        match &self.stage {
            Stage::Start => Some((0, 12)),
            Stage::Chunk => Some((self.off, 8)),
            Stage::Ds64(_) => Some((self.off, 16)),
            Stage::Fmt(size) => Some((self.off, *size as u64)),
            Stage::Over(_) => None,
        }
    }

    /// Goes to the chunk after one of `size` bytes with its content at the offset.
    fn skip(&mut self, body: u64, size: u32)
        requires
            old(self).fmt_seen() matches Some(x) ==> 16 <= x.len() <= 1024,
            body > old(self).off || size > 0,
            body >= old(self).off,
            old(self).off < old(self).file_size,
        ensures
            final(self).wf(),
            final(self).file_size == old(self).file_size,
            forall|f: Seq<u8>|
                f.len() == old(self).file_size ==> #[trigger] final(self).meaning(f) == chunks_meaning(
                    f,
                    after_chunk(body as int, size as int),
                    old(self).fmt_seen(),
                    old(self).ds64_seen(),
                ),
            0 <= final(self).steps_left() < old(self).file_size - old(self).off + 1,
    {
        let pad: u64 = (size % 2) as u64;
        let reach: u64 = size as u64 + pad + 8;
        if body <= self.file_size && reach <= self.file_size - body {
            self.off = body + size as u64 + pad;
            self.stage = Stage::Chunk;
        } else {
            self.stage = Stage::Over(Err(WavError::NoData));
        }
    }

    /// Takes the bytes that were asked for.
    pub fn feed(&mut self, bytes: &[u8])
        requires
            old(self).wf(),
            old(self).wanted() matches Some((_, n)) && n == bytes.len(),
        ensures
            final(self).wf(),
            final(self).file_size == old(self).file_size,
            forall|f: Seq<u8>|
                f.len() == old(self).file_size && old(self).served(f, bytes@) ==> #[trigger] final(self).meaning(f)
                    == old(self).meaning(f),
            0 <= final(self).steps_left() < old(self).steps_left(),
    {
        match self.stage {
            Stage::Start => self.take_start(bytes),
            Stage::Chunk => self.take_chunk(bytes),
            Stage::Ds64(size) => {
                let body: u64 = self.off;
                self.ds64 = Some(read64(bytes, 8));
                self.skip(body, size);
                proof {
                    assert forall|f: Seq<u8>| f.len() == old(self).file_size && f.subrange(body as int, body + 16) == bytes@ implies #[trigger] self.meaning(f) == old(self).meaning(f) by {
                        lemma_le64_within(f, body as int, 16, 8);
                    }
                }
            },
            Stage::Fmt(size) => {
                let body: u64 = self.off;
                self.fmt = Some(copy_of(bytes));
                self.skip(body, size);
            },
            Stage::Over(_) => {},
        }
    }

    /// Takes the file header.
    fn take_start(&mut self, bytes: &[u8])
        requires
            old(self).wf(),
            old(self).stage is Start,
            bytes.len() == 12,
        ensures
            final(self).wf(),
            final(self).file_size == old(self).file_size,
            forall|f: Seq<u8>|
                f.len() == old(self).file_size && f.subrange(0, 12) == bytes@ ==> #[trigger] final(self).meaning(f) == file_meaning(f),
            0 <= final(self).steps_left() < old(self).steps_left(),
    {
        proof {
            reveal(id_riff);
            reveal(id_rf64);
            reveal(id_wave);
        }
        let riff = id_is(bytes, 0, 0x52, 0x49, 0x46, 0x46);
        let rf64 = id_is(bytes, 0, 0x52, 0x46, 0x36, 0x34);
        let wave = id_is(bytes, 8, 0x57, 0x41, 0x56, 0x45);
        if !(riff || rf64) || !wave {
            self.stage = Stage::Over(Err(WavError::NotWave));
        } else {
            self.fmt = None;
            self.ds64 = None;
            if self.file_size < 20 {
                self.stage = Stage::Over(Err(WavError::NoData));
            } else {
                self.off = 12;
                self.stage = Stage::Chunk;
            }
        }
        proof {
            assert forall|f: Seq<u8>|
                f.len() == old(self).file_size && f.subrange(0, 12) == bytes@ implies #[trigger] self.meaning(f) == file_meaning(f) by {
                assert(bytes@.subrange(0, 4) =~= f.subrange(0, 4));
                assert(bytes@.subrange(8, 12) =~= f.subrange(8, 12));
            }
        }
    }

    /// Takes the header of a chunk.
    fn take_chunk(&mut self, bytes: &[u8])
        requires
            old(self).wf(),
            old(self).stage is Chunk,
            bytes.len() == 8,
        ensures
            final(self).wf(),
            final(self).file_size == old(self).file_size,
            forall|f: Seq<u8>|
                f.len() == old(self).file_size && f.subrange(old(self).off as int, old(self).off + 8) == bytes@
                    ==> #[trigger] final(self).meaning(f) == old(self).meaning(f),
            0 <= final(self).steps_left() < old(self).steps_left(),
    {
        proof {
            reveal(id_ds64);
            reveal(id_fmt);
            reveal(id_data);
        }
        let off: u64 = self.off;
        let size: u32 = read32(bytes, 4);
        let body: u64 = off + 8;
        let rest: u64 = self.file_size - body;
        if id_is(bytes, 0, 0x64, 0x73, 0x36, 0x34) && size >= 16 {
            self.off = body;
            if rest < 16 {
                self.stage = Stage::Over(Err(WavError::UnexpectedEnd));
            } else {
                self.stage = Stage::Ds64(size);
            }
        } else if id_is(bytes, 0, 0x66, 0x6d, 0x74, 0x20) {
            self.off = body;
            if size < 16 || size > 1024 {
                self.stage = Stage::Over(Err(WavError::BadFmtChunk));
            } else if rest < size as u64 {
                self.stage = Stage::Over(Err(WavError::UnexpectedEnd));
            } else {
                self.stage = Stage::Fmt(size);
            }
        } else if id_is(bytes, 0, 0x64, 0x61, 0x74, 0x61) {
            let r = data_info(&self.fmt, self.ds64, body, size, self.file_size);
            self.stage = Stage::Over(r);
        } else {
            self.skip(body, size);
        }
        proof {
            assert forall|f: Seq<u8>|
                f.len() == old(self).file_size && f.subrange(off as int, off + 8) == bytes@ implies #[trigger] self.meaning(f) == old(
                self,
            ).meaning(f) by {
                lemma_chunk_header(f, off as int, bytes@);
            }
        }
    }
}

/// The parts of a chunk's header.
proof fn lemma_chunk_header(f: Seq<u8>, off: int, bytes: Seq<u8>)
    requires
        0 <= off,
        off + 8 <= f.len(),
        f.subrange(off, off + 8) == bytes,
    ensures
        f.subrange(off, off + 4) == bytes.subrange(0, 4),
        le32(f, off + 4) == le32(bytes, 4),
{
    assert(f.subrange(off, off + 8).subrange(0, 4) =~= f.subrange(off, off + 4));
    lemma_le32_within(f, off, 8, 4);
}

/// Whether the four bytes at `i` are these.
fn id_is(s: &[u8], i: usize, a: u8, b: u8, c: u8, d: u8) -> (r: bool)
    requires
        i + 4 <= s.len(),
    ensures
        r == (s@.subrange(i as int, i + 4) == seq![a, b, c, d]),
{
    let r = s[i] == a && s[i + 1] == b && s[i + 2] == c && s[i + 3] == d;
    proof {
        let t = s@.subrange(i as int, i + 4);
        if r {
            assert(t =~= seq![a, b, c, d]);
        } else if t == seq![a, b, c, d] {
            assert(t[0] == a && t[1] == b && t[2] == c && t[3] == d);
        }
    }
    r
}

/// A number inside a part of a sequence is the one at that place of the whole.
proof fn lemma_le32_within(f: Seq<u8>, at: int, n: int, i: int)
    requires
        0 <= at,
        at + n <= f.len(),
        0 <= i,
        i + 4 <= n,
    ensures
        le32(f.subrange(at, at + n), i) == le32(f, at + i),
{
    reveal(le16);
    reveal(le32);
}

/// A number inside a part of a sequence is the one at that place of the whole.
proof fn lemma_le64_within(f: Seq<u8>, at: int, n: int, i: int)
    requires
        0 <= at,
        at + n <= f.len(),
        0 <= i,
        i + 8 <= n,
    ensures
        le64(f.subrange(at, at + n), i) == le64(f, at + i),
{
    reveal(le64);
    lemma_le32_within(f, at, n, i);
    lemma_le32_within(f, at, n, i + 4);
}

/// Describes the audio of a data chunk.
fn data_info(fmt: &Option<Vec<u8>>, ds64: Option<u64>, body: u64, size: u32, file_size: u64) -> (r: Result<WavInfo, WavError>)
    requires
        body <= file_size,
        fmt matches Some(v) ==> 16 <= v@.len() <= 1024,
    ensures
        result_view(r) == data_meaning(
            match *fmt {
                Some(v) => Some(v@),
                None => None,
            },
            match ds64 {
                Some(n) => Some(n as int),
                None => None,
            },
            body as int,
            size as int,
            file_size as int,
        ),
        r matches Ok(info) ==> info@.sound(),
{
    match fmt {
        None => Err(WavError::DataBeforeFmt),
        Some(x) => {
            let b = x.as_slice();
            let channels: u16 = read16(b, 2);
            let sample_rate: u32 = read32(b, 4);
            let block_align: u16 = read16(b, 12);
            if channels == 0 || sample_rate == 0 || block_align == 0 {
                return Err(WavError::BadFormat);
            }
            let available: u64 = file_size - body;
            let declared: u64 = if size == 0xFFFF_FFFF {
                match ds64 {
                    Some(n) => n,
                    None => available,
                }
            } else {
                size as u64
            };
            let missing = size == 0xFFFF_FFFF && ds64.is_none();
            let repaired = missing || declared == 0 || declared > available;
            let len: u64 = if repaired {
                available
            } else {
                declared
            };
            proof {
                vstd::arithmetic::div_mod::lemma_fundamental_div_mod(len as int, block_align as int);
                assert(0 <= block_align * (len as int / block_align as int)) by (nonlinear_arith)
                    requires
                        block_align > 0,
                        len >= 0,
                ;
                vstd::arithmetic::div_mod::lemma_mod_multiples_basic(len as int / block_align as int, block_align as int);
                assert(block_align * (len as int / block_align as int) == (len as int / block_align as int) * block_align) by (nonlinear_arith);
            }
            let data_len: u64 = len - len % block_align as u64;
            Ok(
                WavInfo {
                    fmt: copy_of(b),
                    format_tag: read16(b, 0),
                    channels,
                    sample_rate,
                    bits_per_sample: read16(b, 14),
                    block_align,
                    data_offset: body,
                    data_len,
                    file_size,
                    repaired,
                },
            )
        },
    }
}

/// Reads the header of a RIFF or RF64 WAVE file.
pub fn read_info(file: &[u8]) -> (r: Result<WavInfo, WavError>)
    ensures
        result_view(r) == file_meaning(file@),
        r matches Ok(info) ==> info@.sound(),
{
    let mut reader = HeaderReader::new(file.len() as u64);
    loop
        invariant
            reader.wf(),
            reader.file_size == file.len(),
            reader.meaning(file@) == file_meaning(file@),
        ensures
            reader.wanted() is None,
        decreases reader.steps_left(),
    {
        match reader.request() {
            Some((o, n)) => reader.feed(&file[o as usize..(o + n) as usize]),
            None => break,
        }
    }
    match reader.stage {
        Stage::Over(r) => r,
        _ => Err(WavError::NoData),
    }
}

// ------------------------------------------------------------------ writing

/// Bytes before the first audio byte, for a description of `fmt_len` bytes.
pub open spec fn header_size(fmt_len: int) -> int {
    64 + fmt_len + fmt_len % 2
}

/// Size of a written file with `data_len` audio bytes.
pub open spec fn total_size(fmt_len: int, data_len: int) -> int {
    header_size(fmt_len) + data_len + data_len % 2
}

/// Whether the sizes need an RF64 header.
pub open spec fn needs_rf64(fmt_len: int, data_len: int, riff_limit: int) -> bool {
    total_size(fmt_len, data_len) - 8 > riff_limit || data_len > riff_limit
}

/// The file header and the first chunk: a placeholder, or in an RF64 file the
/// 64-bit sizes in its place.
#[verifier::opaque]
pub open spec fn opening_bytes(fmt_len: int, data_len: int, frames: int, riff_limit: int) -> Seq<u8> {
    let riff_size = total_size(fmt_len, data_len) - 8;
    if needs_rf64(fmt_len, data_len, riff_limit) {
        id_rf64() + le32_bytes(0xFFFF_FFFF) + id_wave() + id_ds64() + le32_bytes(28) + le64_bytes(riff_size) + le64_bytes(data_len)
            + le64_bytes(frames) + le32_bytes(0)
    } else {
        id_riff() + le32_bytes(riff_size % 0x1_0000_0000) + id_wave() + id_junk() + le32_bytes(28) + Seq::new(28, |i: int| 0u8)
    }
}

/// The `fmt ` chunk, padded to even length.
#[verifier::opaque]
pub open spec fn fmt_chunk(fmt: Seq<u8>) -> Seq<u8> {
    id_fmt() + le32_bytes(fmt.len() as int % 0x1_0000_0000) + fmt + Seq::new(fmt.len() % 2, |i: int| 0u8)
}

/// A whole WAVE header.
#[verifier::opaque]
pub open spec fn header_bytes(fmt: Seq<u8>, data_len: int, frames: int, riff_limit: int) -> Seq<u8> {
    let data_field = if needs_rf64(fmt.len() as int, data_len, riff_limit) {
        0xFFFF_FFFF
    } else {
        data_len % 0x1_0000_0000
    };
    opening_bytes(fmt.len() as int, data_len, frames, riff_limit) + fmt_chunk(fmt) + id_data() + le32_bytes(data_field)
}

/// Bytes before the first audio byte in files written by [`write_header`].
pub fn header_len(fmt_len: usize) -> (r: u64)
    requires
        header_size(fmt_len as int) <= u64::MAX,
    ensures
        r == header_size(fmt_len as int),
{
    64 + fmt_len as u64 + fmt_len as u64 % 2
}

/// Total size of a file written by [`write_header`] plus `data_len` audio bytes.
pub fn output_size(fmt_len: usize, data_len: u64) -> (r: u64)
    requires
        total_size(fmt_len as int, data_len as int) <= u64::MAX,
    ensures
        r == total_size(fmt_len as int, data_len as int),
{
    header_len(fmt_len) + data_len + data_len % 2
}

/// Appends four bytes.
fn push_id(w: &mut Vec<u8>, a: u8, b: u8, c: u8, d: u8)
    ensures
        final(w)@ == old(w)@ + seq![a, b, c, d],
{
    w.push(a);
    w.push(b);
    w.push(c);
    w.push(d);
}

/// Appends the file header and the first chunk.
fn push_opening(w: &mut Vec<u8>, fmt_len: usize, data_len: u64, frames: u64, riff_limit: u64)
    requires
        total_size(fmt_len as int, data_len as int) <= u64::MAX,
    ensures
        final(w)@ == old(w)@ + opening_bytes(fmt_len as int, data_len as int, frames as int, riff_limit as int),
{
    proof {
        reveal(id_riff);
        reveal(id_rf64);
        reveal(id_wave);
        reveal(id_ds64);
        reveal(id_junk);
        reveal(opening_bytes);
    }

    let riff_size: u64 = output_size(fmt_len, data_len) - 8;
    if riff_size > riff_limit || data_len > riff_limit {
        push_id(w, 0x52, 0x46, 0x36, 0x34);
        push32(w, 0xFFFF_FFFF);
        push_id(w, 0x57, 0x41, 0x56, 0x45);
        push_id(w, 0x64, 0x73, 0x36, 0x34);
        push32(w, 28);
        push64(w, riff_size);
        push64(w, data_len);
        push64(w, frames);
        push32(w, 0);
    } else {
        push_id(w, 0x52, 0x49, 0x46, 0x46);
        push32(w, (riff_size % 0x1_0000_0000) as u32);
        push_id(w, 0x57, 0x41, 0x56, 0x45);
        push_id(w, 0x4a, 0x55, 0x4e, 0x4b);
        push32(w, 28);
        let ghost before = w@;
        let mut i: usize = 0;
        while i < 28
            invariant
                i <= 28,
                w@ == before + Seq::new(i as nat, |k: int| 0u8),
            decreases 28 - i,
        {
            w.push(0);
            i = i + 1;
        }
    }
}

/// Appends the `fmt ` chunk.
fn push_fmt(w: &mut Vec<u8>, fmt: &[u8])
    ensures
        final(w)@ == old(w)@ + fmt_chunk(fmt@),
{
    proof {
        reveal(id_fmt);
        reveal(fmt_chunk);
    }
    push_id(w, 0x66, 0x6d, 0x74, 0x20);
    push32(w, (fmt.len() as u64 % 0x1_0000_0000) as u32);
    push_all(w, fmt);
    if fmt.len() % 2 == 1 {
        w.push(0);
    }
    assert(w@ =~= old(w)@ + fmt_chunk(fmt@));
}

/// Appends a WAVE header. Up to `riff_limit` it is a classic RIFF header with a
/// 28-byte JUNK placeholder; above it the same layout becomes RF64 with ds64.
pub fn write_header(w: &mut Vec<u8>, fmt: &[u8], data_len: u64, frames: u64, riff_limit: u64)
    requires
        total_size(fmt.len() as int, data_len as int) <= u64::MAX,
    ensures
        final(w)@ == old(w)@ + header_bytes(fmt@, data_len as int, frames as int, riff_limit as int),
{
    proof {
        reveal(id_data);
        reveal(header_bytes);
    }

    push_opening(w, fmt.len(), data_len, frames, riff_limit);
    push_fmt(w, fmt);
    push_id(w, 0x64, 0x61, 0x74, 0x61);
    let riff_size: u64 = output_size(fmt.len(), data_len) - 8;
    if riff_size > riff_limit || data_len > riff_limit {
        push32(w, 0xFFFF_FFFF);
    } else {
        push32(w, (data_len % 0x1_0000_0000) as u32);
    }
}

/// A number that was written at some place of a sequence is read there.
proof fn lemma_le32_written(f: Seq<u8>, at: int, x: int)
    requires
        0 <= at,
        at + 4 <= f.len(),
        0 <= x < 0x1_0000_0000,
        f.subrange(at, at + 4) == le32_bytes(x),
    ensures
        le32(f, at) == x,
{
    le32_roundtrip(x);
    lemma_le32_within(f, at, 4, 0);
}

/// A chunk name has four bytes.
proof fn lemma_id_sizes()
    ensures
        id_riff().len() == 4,
        id_rf64().len() == 4,
        id_wave().len() == 4,
        id_ds64().len() == 4,
        id_junk().len() == 4,
        id_fmt().len() == 4,
        id_data().len() == 4,
{
    reveal(id_riff);
    reveal(id_rf64);
    reveal(id_wave);
    reveal(id_ds64);
    reveal(id_junk);
    reveal(id_fmt);
    reveal(id_data);
}

/// The size of the description's chunk.
proof fn lemma_fmt_size(fmt: Seq<u8>)
    ensures
        fmt_chunk(fmt).len() == 8 + fmt.len() + fmt.len() % 2,
{
    reveal(fmt_chunk);
    lemma_id_sizes();
    le32_roundtrip(fmt.len() as int % 0x1_0000_0000);
}

/// The places of the parts in a written header.
proof fn lemma_opening_parts(fmt_len: int, data_len: int, frames: int, riff_limit: int)
    requires
        0 <= fmt_len,
        0 <= data_len,
        total_size(fmt_len, data_len) <= u64::MAX,
        0 <= frames <= u64::MAX,
    ensures
        ({
            let o = opening_bytes(fmt_len, data_len, frames, riff_limit);
            let big = needs_rf64(fmt_len, data_len, riff_limit);
            &&& o.len() == 48
            &&& o.subrange(0, 4) == if big {
                id_rf64()
            } else {
                id_riff()
            }
            &&& o.subrange(8, 12) == id_wave()
            &&& o.subrange(12, 16) == if big {
                id_ds64()
            } else {
                id_junk()
            }
            &&& le32(o, 16) == 28
            &&& big ==> le64(o, 28) == data_len
        }),
{
    reveal(opening_bytes);
    let o = opening_bytes(fmt_len, data_len, frames, riff_limit);
    let riff_size = total_size(fmt_len, data_len) - 8;
    lemma_id_sizes();
    le32_roundtrip(0xFFFF_FFFF);
    le32_roundtrip(28);
    le32_roundtrip(0);
    le32_roundtrip(riff_size % 0x1_0000_0000);
    le64_roundtrip(riff_size);
    le64_roundtrip(data_len);
    le64_roundtrip(frames);
    assert(o.subrange(8, 12) =~= id_wave());
    assert(o.subrange(16, 20) =~= le32_bytes(28));
    lemma_le32_written(o, 16, 28);
    if needs_rf64(fmt_len, data_len, riff_limit) {
        assert(o.subrange(0, 4) =~= id_rf64());
        assert(o.subrange(12, 16) =~= id_ds64());
        assert(o.subrange(28, 36) =~= le64_bytes(data_len));
        lemma_le64_within(o, 28, 8, 0);
    } else {
        assert(o.subrange(0, 4) =~= id_riff());
        assert(o.subrange(12, 16) =~= id_junk());
    }
}

/// A header is as long as announced, and it is an RF64 header exactly where the
/// sizes do not fit a classic one.
pub proof fn header_has_announced_size(fmt: Seq<u8>, data_len: int, frames: int, riff_limit: int)
    requires
        0 <= data_len,
        total_size(fmt.len() as int, data_len) <= u64::MAX,
        0 <= frames <= u64::MAX,
    ensures
        header_bytes(fmt, data_len, frames, riff_limit).len() == header_size(fmt.len() as int),
        header_bytes(fmt, data_len, frames, riff_limit).subrange(0, 4) == if needs_rf64(fmt.len() as int, data_len, riff_limit) {
            id_rf64()
        } else {
            id_riff()
        },
{
    reveal(header_bytes);
    let h = header_bytes(fmt, data_len, frames, riff_limit);
    let o = opening_bytes(fmt.len() as int, data_len, frames, riff_limit);
    lemma_opening_parts(fmt.len() as int, data_len, frames, riff_limit);
    lemma_id_sizes();
    lemma_fmt_size(fmt);
    le32_roundtrip(0xFFFF_FFFF);
    le32_roundtrip(data_len % 0x1_0000_0000);
    le32_roundtrip(fmt.len() as int % 0x1_0000_0000);
    assert(h.subrange(0, 4) =~= o.subrange(0, 4));
}

/// The parts of a joined sequence are found at their places.
proof fn lemma_joined(a: Seq<u8>, b: Seq<u8>, c: Seq<u8>, d: Seq<u8>, e: Seq<u8>, g: Seq<u8>)
    ensures
        ({
            let f = (a + b + c + d) + e + g;
            let i = a.len() as int;
            let j = i + b.len();
            let k = j + c.len();
            let l = k + d.len();
            let m = l + e.len();
            &&& f.len() == m + g.len()
            &&& f.subrange(0, i) == a
            &&& f.subrange(i, j) == b
            &&& f.subrange(j, k) == c
            &&& f.subrange(k, l) == d
            &&& f.subrange(l, m) == e
        }),
{
    let f = (a + b + c + d) + e + g;
    let i = a.len() as int;
    let j = i + b.len();
    let k = j + c.len();
    let l = k + d.len();
    let m = l + e.len();
    assert(f.subrange(0, i) =~= a);
    assert(f.subrange(i, j) =~= b);
    assert(f.subrange(j, k) =~= c);
    assert(f.subrange(k, l) =~= d);
    assert(f.subrange(l, m) =~= e);
}

/// A part of a part.
proof fn lemma_nested(f: Seq<u8>, p: Seq<u8>, at: int, i: int, j: int)
    requires
        0 <= at,
        at + p.len() <= f.len(),
        f.subrange(at, at + p.len()) == p,
        0 <= i <= j <= p.len(),
    ensures
        f.subrange(at + i, at + j) == p.subrange(i, j),
{
    assert(f.subrange(at + i, at + j) =~= f.subrange(at, at + p.len()).subrange(i, j));
}

/// The parts of the description's chunk.
proof fn lemma_fmt_parts(fmt: Seq<u8>)
    requires
        fmt.len() <= 1024,
    ensures
        fmt_chunk(fmt).len() == 8 + fmt.len() + fmt.len() % 2,
        fmt_chunk(fmt).subrange(0, 4) == id_fmt(),
        le32(fmt_chunk(fmt), 4) == fmt.len(),
        fmt_chunk(fmt).subrange(8, 8 + fmt.len() as int) == fmt,
{
    reveal(fmt_chunk);
    let pad = Seq::new(fmt.len() % 2, |i: int| 0u8);
    let size = le32_bytes(fmt.len() as int);
    let none = Seq::<u8>::empty();
    le32_roundtrip(fmt.len() as int);
    lemma_id_sizes();
    lemma_joined(id_fmt(), size, fmt, pad, none, none);
    assert(fmt_chunk(fmt) =~= (id_fmt() + size + fmt + pad) + none + none);
    lemma_le32_written(fmt_chunk(fmt), 4, fmt.len() as int);
}

/// The places of the parts in a written file.
proof fn lemma_file_parts(fmt: Seq<u8>, data: Seq<u8>, tail: Seq<u8>, frames: int, riff_limit: int)
    requires
        fmt.len() <= 1024,
        total_size(fmt.len() as int, data.len() as int) <= u64::MAX,
        0 <= frames <= u64::MAX,
        0 <= riff_limit <= RIFF_LIMIT,
    ensures
        ({
            let n = fmt.len() as int;
            let d = data.len() as int;
            let f = header_bytes(fmt, d, frames, riff_limit) + data + tail;
            let at = header_size(n);
            let big = needs_rf64(n, d, riff_limit);
            &&& f.len() == at + d + tail.len()
            &&& f.subrange(0, 4) == if big {
                id_rf64()
            } else {
                id_riff()
            }
            &&& f.subrange(8, 12) == id_wave()
            &&& f.subrange(12, 16) == if big {
                id_ds64()
            } else {
                id_junk()
            }
            &&& le32(f, 16) == 28
            &&& big ==> le64(f, 28) == d
            &&& f.subrange(48, 52) == id_fmt()
            &&& le32(f, 52) == n
            &&& f.subrange(56, 56 + n) == fmt
            &&& f.subrange(at - 8, at - 4) == id_data()
            &&& le32(f, at - 4) == if big {
                0xFFFF_FFFF
            } else {
                d
            }
            &&& f.subrange(at, at + d) == data
        }),
{
    reveal(header_bytes);
    let n = fmt.len() as int;
    let d = data.len() as int;
    let h = header_bytes(fmt, d, frames, riff_limit);
    let o = opening_bytes(n, d, frames, riff_limit);
    let f = h + data + tail;
    let at = header_size(n);
    let field = if needs_rf64(n, d, riff_limit) {
        0xFFFF_FFFF
    } else {
        d
    };
    let k = fmt_chunk(fmt);
    lemma_opening_parts(n, d, frames, riff_limit);
    lemma_fmt_parts(fmt);
    le32_roundtrip(field);
    lemma_id_sizes();
    lemma_joined(o, k, id_data(), le32_bytes(field), data, tail);
    lemma_nested(f, o, 0, 0, 4);
    lemma_nested(f, o, 0, 8, 12);
    lemma_nested(f, o, 0, 12, 16);
    lemma_le32_within(f, 0, 48, 16);
    lemma_le64_within(f, 0, 48, 28);
    lemma_nested(f, k, 48, 0, 4);
    lemma_nested(f, k, 48, 8, 8 + n);
    lemma_le32_within(f, 48, k.len() as int, 4);
    lemma_le32_written(f, at - 4, field);
}

/// The chunk names are distinct.
proof fn lemma_ids_differ()
    ensures
        id_junk() != id_ds64(),
        id_junk() != id_fmt(),
        id_junk() != id_data(),
        id_fmt() != id_ds64(),
        id_data() != id_ds64(),
        id_data() != id_fmt(),
{
    reveal(id_ds64);
    reveal(id_junk);
    reveal(id_fmt);
    reveal(id_data);
    assert(id_junk()[0] != id_ds64()[0]);
    assert(id_junk()[0] != id_fmt()[0]);
    assert(id_junk()[0] != id_data()[0]);
    assert(id_fmt()[0] != id_ds64()[0]);
    assert(id_data()[1] != id_ds64()[1]);
    assert(id_data()[0] != id_fmt()[0]);
}

/// Whether facts are those that a description gives, and the audio lies inside
/// a file of so many bytes.
pub open spec fn described(w: WavFacts, len: int) -> bool {
    &&& 16 <= w.fmt.len() <= 1024
    &&& w.format_tag == le16(w.fmt, 0)
    &&& w.channels == le16(w.fmt, 2)
    &&& w.sample_rate == le32(w.fmt, 4)
    &&& w.block_align == le16(w.fmt, 12)
    &&& w.bits_per_sample == le16(w.fmt, 14)
    &&& w.channels > 0 && w.sample_rate > 0 && w.block_align > 0
    &&& 0 <= w.data_offset && 0 <= w.data_len && w.data_offset + w.data_len <= len
    &&& w.data_len % w.block_align == 0
    &&& w.file_size == len
}

/// What the chunks of a file say, they say as its description gives it.
proof fn lemma_chunks_describe(f: Seq<u8>, off: int, fmt: Option<Seq<u8>>, ds64: Option<int>)
    requires
        0 <= off,
        fmt matches Some(x) ==> 16 <= x.len() <= 1024,
        ds64 matches Some(n) ==> 0 <= n,
    ensures
        chunks_meaning(f, off, fmt, ds64) matches Ok(w) ==> described(w, f.len() as int),
    decreases (if off <= f.len() {
        f.len() - off
    } else {
        0
    }),
{
    reveal(le16);
    reveal(le32);
    reveal(le64);
    if off + 8 <= f.len() {
        let id = f.subrange(off, off + 4);
        let size = le32(f, off + 4);
        let body = off + 8;
        if id == id_ds64() && size >= 16 {
            if body + 16 <= f.len() {
                lemma_chunks_describe(f, after_chunk(body, size), fmt, Some(le64(f, body + 8)));
            }
        } else if id == id_fmt() {
            if 16 <= size <= 1024 && body + size <= f.len() {
                lemma_chunks_describe(f, after_chunk(body, size), Some(f.subrange(body, body + size)), ds64);
            }
        } else if id == id_data() {
            if let Ok(w) = data_meaning(fmt, ds64, body, size, f.len() as int) {
                let available = f.len() - body;
                let declared = if size == 0xFFFF_FFFF {
                    match ds64 {
                        Some(n) => n,
                        None => available,
                    }
                } else {
                    size
                };
                let len = if declared == 0 || declared > available {
                    available
                } else {
                    declared
                };
                lemma_whole_frames(len, w.block_align);
            }
        } else {
            lemma_chunks_describe(f, after_chunk(body, size), fmt, ds64);
        }
    }
}

/// Whole frames of some bytes.
proof fn lemma_whole_frames(len: int, align: int)
    requires
        0 <= len,
        0 < align,
    ensures
        0 <= len - len % align <= len,
        (len - len % align) % align == 0,
{
    vstd::arithmetic::div_mod::lemma_fundamental_div_mod(len, align);
    vstd::arithmetic::div_mod::lemma_mod_bound(len, align);
    let q = len / align;
    assert(len - len % align == align * q);
    vstd::arithmetic::div_mod::lemma_mod_multiples_basic(q, align);
    assert(align * q == q * align) by (nonlinear_arith);
    assert(len % align <= len) by {
        vstd::arithmetic::div_mod::lemma_mod_decreases(len as nat, align as nat);
    }
}

/// What is read of a file is what its description says, and its audio lies
/// inside it, in whole frames.
pub proof fn facts_come_from_the_file(f: Seq<u8>)
    ensures
        file_meaning(f) matches Ok(w) ==> described(w, f.len() as int),
{
    if f.len() >= 12 {
        lemma_chunks_describe(f, 12, None, None);
    }
}

/// What was written is read back: for a usable description and whole frames of
/// audio, a header followed by the audio (and by anything after it) gives the
/// same description and the same audio, and nothing had to be repaired.
pub proof fn written_file_reads_back(fmt: Seq<u8>, data: Seq<u8>, tail: Seq<u8>, frames: int, riff_limit: int)
    requires
        16 <= fmt.len() <= 1024,
        le16(fmt, 2) != 0,
        le32(fmt, 4) != 0,
        le16(fmt, 12) > 0,
        data.len() > 0,
        data.len() as int % le16(fmt, 12) == 0,
        total_size(fmt.len() as int, data.len() as int) <= u64::MAX,
        0 <= frames <= u64::MAX,
        0 <= riff_limit <= RIFF_LIMIT,
    ensures
        ({
            let f = header_bytes(fmt, data.len() as int, frames, riff_limit) + data + tail;
            let at = header_size(fmt.len() as int);
            &&& file_meaning(f) == Ok::<WavFacts, WavError>(
                WavFacts {
                    fmt: fmt,
                    format_tag: le16(fmt, 0),
                    channels: le16(fmt, 2),
                    sample_rate: le32(fmt, 4),
                    bits_per_sample: le16(fmt, 14),
                    block_align: le16(fmt, 12),
                    data_offset: at,
                    data_len: data.len() as int,
                    file_size: f.len() as int,
                    repaired: false,
                },
            )
            &&& f.subrange(at, at + data.len()) == data
        }),
{
    let n = fmt.len() as int;
    let d = data.len() as int;
    let f = header_bytes(fmt, d, frames, riff_limit) + data + tail;
    let at = header_size(n);
    let big = needs_rf64(n, d, riff_limit);
    lemma_file_parts(fmt, data, tail, frames, riff_limit);
    lemma_ids_differ();
    let ds = if big {
        Some(d)
    } else {
        None
    };
    // The first chunk is passed over, its 64-bit size kept.
    assert(file_meaning(f) == chunks_meaning(f, 12, None, None));
    assert(chunks_meaning(f, 12, None, None) == chunks_meaning(f, 48, None, ds));
    // The description.
    assert(chunks_meaning(f, 48, None, ds) == chunks_meaning(f, at - 8, Some(fmt), ds));
    // The audio.
    assert(chunks_meaning(f, at - 8, Some(fmt), ds) == data_meaning(Some(fmt), ds, at, le32(f, at - 4), f.len() as int));
}

// ------------------------------------------------------------------ samples

/// The amplitude a sample stands for: a fraction of full scale, or the bits of
/// a finite floating-point number.
#[derive(Debug, Clone, Copy, PartialEq, Eq, Structural)]
pub enum Amplitude {
    /// `num` of `den`.
    Ratio { num: i64, den: i64 },
    /// The bits of a binary32 number.
    Single { single: u32 },
    /// The bits of a binary64 number.
    Double { double: u64 },
}

/// The two's complement value of an unsigned number below `modulus`.
pub open spec fn signed(x: int, modulus: int) -> int {
    if x >= modulus / 2 {
        x - modulus
    } else {
        x
    }
}

/// Whether the bits are those of a finite binary32 number.
pub open spec fn finite32(bits: int) -> bool {
    bits / 0x80_0000 % 0x100 != 0xFF
}

/// Whether the bits are those of a finite binary64 number.
pub open spec fn finite64(bits: int) -> bool {
    bits / 0x10_0000_0000_0000 % 0x800 != 0x7FF
}

/// Bytes of one stored sample.
pub open spec fn width(kind: SampleKind) -> int {
    match kind {
        SampleKind::U8 => 1,
        SampleKind::I16 => 2,
        SampleKind::I24 => 3,
        SampleKind::I32 => 4,
        SampleKind::F32 => 4,
        SampleKind::F64 => 8,
    }
}

/// The amplitude of the sample at the start of `b`; infinities and NaN are silence.
pub open spec fn amplitude(b: Seq<u8>, kind: SampleKind) -> Amplitude {
    match kind {
        SampleKind::U8 => Amplitude::Ratio { num: (b[0] - 128) as i64, den: 128 },
        SampleKind::I16 => Amplitude::Ratio { num: signed(le16(b, 0), 0x1_0000) as i64, den: 32768 },
        SampleKind::I24 => Amplitude::Ratio { num: signed(le16(b, 0) + 65536 * b[2], 0x100_0000) as i64, den: 8_388_608 },
        SampleKind::I32 => Amplitude::Ratio { num: signed(le32(b, 0), 0x1_0000_0000) as i64, den: 2_147_483_648 },
        SampleKind::F32 => if finite32(le32(b, 0)) {
            Amplitude::Single { single: le32(b, 0) as u32 }
        } else {
            Amplitude::Ratio { num: 0, den: 1 }
        },
        SampleKind::F64 => if finite64(le64(b, 0)) {
            Amplitude::Double { double: le64(b, 0) as u64 }
        } else {
            Amplitude::Ratio { num: 0, den: 1 }
        },
    }
}

/// The amplitude of the sample at the start of `b`.
pub fn decode_sample(b: &[u8], kind: SampleKind) -> (r: Amplitude)
    requires
        b.len() >= width(kind),
    ensures
        r == amplitude(b@, kind),
        r matches Amplitude::Ratio { num, den } ==> den > 0 && -den <= num < den,
{
    match kind {
        SampleKind::U8 => Amplitude::Ratio { num: b[0] as i64 - 128, den: 128 },
        SampleKind::I16 => {
            let x: i64 = read16(b, 0) as i64;
            Amplitude::Ratio {
                num: if x >= 0x8000 {
                    x - 0x1_0000
                } else {
                    x
                },
                den: 32768,
            }
        },
        SampleKind::I24 => {
            let x: i64 = read16(b, 0) as i64 + 65536 * (b[2] as i64);
            Amplitude::Ratio {
                num: if x >= 0x80_0000 {
                    x - 0x100_0000
                } else {
                    x
                },
                den: 8_388_608,
            }
        },
        SampleKind::I32 => {
            let x: i64 = read32(b, 0) as i64;
            Amplitude::Ratio {
                num: if x >= 0x8000_0000 {
                    x - 0x1_0000_0000
                } else {
                    x
                },
                den: 2_147_483_648,
            }
        },
        SampleKind::F32 => {
            let bits: u32 = read32(b, 0);
            if bits / 0x80_0000 % 0x100 != 0xFF {
                Amplitude::Single { single: bits }
            } else {
                Amplitude::Ratio { num: 0, den: 1 }
            }
        },
        SampleKind::F64 => {
            let bits: u64 = read64(b, 0);
            if bits / 0x10_0000_0000_0000 % 0x800 != 0x7FF {
                Amplitude::Double { double: bits }
            } else {
                Amplitude::Ratio { num: 0, den: 1 }
            }
        },
    }
}

// ------------------------------------------------------------------ what samples are

/// The number that the first `n` bytes of a sample make, the lowest byte first.
pub open spec fn raw(b: Seq<u8>, n: int) -> int
    decreases n,
{
    if n <= 0 {
        0
    } else {
        b[0] + 256 * raw(b.skip(1), n - 1)
    }
}

/// Bytes read one by one or in words are the same number.
proof fn lemma_raw(b: Seq<u8>)
    ensures
        b.len() >= 2 ==> raw(b, 2) == b[0] + 256 * b[1],
        b.len() >= 3 ==> raw(b, 3) == b[0] + 256 * b[1] + 65_536 * b[2],
        b.len() >= 4 ==> raw(b, 4) == b[0] + 256 * b[1] + 65_536 * b[2] + 16_777_216 * b[3],
        b.len() >= 2 ==> raw(b, 2) == le16(b, 0),
        b.len() >= 3 ==> raw(b, 3) == le16(b, 0) + 65_536 * b[2],
        b.len() >= 4 ==> raw(b, 4) == le32(b, 0),
        b.len() >= 8 ==> raw(b, 8) == le64(b, 0),
{
    reveal(le16);
    reveal(le32);
    reveal(le64);
    let c1 = b.skip(1);
    let c2 = c1.skip(1);
    let c3 = c2.skip(1);
    let c4 = c3.skip(1);
    let c5 = c4.skip(1);
    let c6 = c5.skip(1);
    let c7 = c6.skip(1);
    reveal_with_fuel(raw, 9);
    if b.len() >= 8 {
        assert(c1[0] == b[1] && c2[0] == b[2] && c3[0] == b[3] && c4[0] == b[4] && c5[0] == b[5] && c6[0] == b[6] && c7[0] == b[7]);
    } else if b.len() >= 4 {
        assert(c1[0] == b[1] && c2[0] == b[2] && c3[0] == b[3]);
    } else if b.len() >= 3 {
        assert(c1[0] == b[1] && c2[0] == b[2]);
    } else if b.len() >= 2 {
        assert(c1[0] == b[1]);
    }
}

/// Whole-number samples of two, three and four bytes are what their bytes say in
/// two's complement: a share of the largest amplitude, at least the whole of it
/// below and less than the whole of it above zero, that differs from the stored
/// number by a multiple of all there are.
pub proof fn integer_samples_are_twos_complement(b: Seq<u8>, kind: SampleKind)
    requires
        kind == SampleKind::I16 || kind == SampleKind::I24 || kind == SampleKind::I32,
        b.len() >= width(kind),
    ensures
        amplitude(b, kind) matches Amplitude::Ratio { num, den } && -den <= num < den && (num == raw(b, width(kind)) || num == raw(b, width(kind)) - 2 * den)
            && den == (if width(kind) == 2 {
            0x8000
        } else if width(kind) == 3 {
            0x80_0000
        } else {
            0x8000_0000int
        }),
{
    reveal(le16);
    reveal(le32);
    lemma_raw(b);
}

/// Samples of one byte have their zero in the middle.
pub proof fn byte_samples_are_centred(b: Seq<u8>)
    requires
        b.len() >= 1,
    ensures
        amplitude(b, SampleKind::U8) matches Amplitude::Ratio { num, den } && den == 128 && num + 128 == b[0],
{
}

/// The number of bytes is no larger than they can hold.
proof fn lemma_raw_range(b: Seq<u8>, n: int)
    requires
        0 <= n <= b.len(),
    ensures
        0 <= raw(b, n),
        n <= 4 ==> raw(b, n) < (if n == 0 {
            1
        } else if n == 1 {
            0x100
        } else if n == 2 {
            0x1_0000
        } else if n == 3 {
            0x100_0000
        } else {
            0x1_0000_0000int
        }),
    decreases n,
{
    if n > 0 {
        lemma_raw_range(b.skip(1), n - 1);
    }
}

/// Different bytes are different numbers.
proof fn lemma_raw_tells(a: Seq<u8>, b: Seq<u8>, n: int)
    requires
        a.len() == n,
        b.len() == n,
        raw(a, n) == raw(b, n),
    ensures
        a == b,
    decreases n,
{
    if n > 0 {
        lemma_raw_range(a.skip(1), n - 1);
        lemma_raw_range(b.skip(1), n - 1);
        assert(a[0] == b[0]);
        lemma_raw_tells(a.skip(1), b.skip(1), n - 1);
        assert forall|i: int| 0 <= i < n implies a[i] == b[i] by {
            if i > 0 {
                assert(a.skip(1)[i - 1] == b.skip(1)[i - 1]);
            }
        }
    }
    assert(a =~= b);
}

/// Two different whole-number samples never sound the same.
pub proof fn different_samples_sound_different(a: Seq<u8>, b: Seq<u8>, kind: SampleKind)
    requires
        kind != SampleKind::F32 && kind != SampleKind::F64,
        a.len() == width(kind),
        b.len() == width(kind),
        amplitude(a, kind) == amplitude(b, kind),
    ensures
        a == b,
{
    if kind == SampleKind::U8 {
        assert(a =~= b);
    } else {
        integer_samples_are_twos_complement(a, kind);
        integer_samples_are_twos_complement(b, kind);
        lemma_raw_range(a, width(kind));
        lemma_raw_range(b, width(kind));
        lemma_raw_tells(a, b, width(kind));
    }
}

/// A sample whose number is larger by so much is louder by so much, and turning a
/// sample's bytes over and adding one turns its amplitude over.
pub proof fn amplitudes_keep_differences(a: Seq<u8>, b: Seq<u8>, kind: SampleKind)
    requires
        kind == SampleKind::I16 || kind == SampleKind::I24 || kind == SampleKind::I32,
        a.len() >= width(kind),
        b.len() >= width(kind),
    ensures
        match (amplitude(a, kind), amplitude(b, kind)) {
            (Amplitude::Ratio { num: x, den: d }, Amplitude::Ratio { num: y, den: e }) => {
                &&& d == e
                &&& (x - y == raw(a, width(kind)) - raw(b, width(kind)) || x - y == raw(a, width(kind)) - raw(b, width(kind)) - 2 * d || x - y == raw(
                    a,
                    width(kind),
                ) - raw(b, width(kind)) + 2 * d)
                &&& raw(a, width(kind)) + raw(b, width(kind)) == 2 * d && raw(a, width(kind)) != d ==> x == -y
            },
            _ => false,
        },
{
    integer_samples_are_twos_complement(a, kind);
    integer_samples_are_twos_complement(b, kind);
    lemma_raw(a);
    lemma_raw(b);
}

/// Floating samples keep their bits, unless all bits of their exponent are set:
/// infinities and what is no number are silence.
pub proof fn floating_samples_keep_their_bits(b: Seq<u8>)
    ensures
        b.len() >= 4 && (b[3] % 128 != 127 || b[2] < 128) ==> (amplitude(b, SampleKind::F32) matches Amplitude::Single { single } && single == raw(b, 4)),
        b.len() >= 4 && b[3] % 128 == 127 && b[2] >= 128 ==> (amplitude(b, SampleKind::F32) matches Amplitude::Ratio { num, den } && num == 0 && den > 0),
        b.len() >= 8 && (b[7] % 128 != 127 || b[6] < 240) ==> (amplitude(b, SampleKind::F64) matches Amplitude::Double { double } && double == raw(b, 8)),
        b.len() >= 8 && b[7] % 128 == 127 && b[6] >= 240 ==> (amplitude(b, SampleKind::F64) matches Amplitude::Ratio { num, den } && num == 0 && den > 0),
{
    reveal(le16);
    reveal(le32);
    reveal(le64);
    lemma_raw(b);
    if b.len() >= 4 {
        let x = le32(b, 0);
        let low = b[0] + 256 * b[1] + 65_536 * (b[2] % 128);
        let e = b[2] / 128 + 2 * b[3];
        assert(x == low + 0x80_0000 * e && 0 <= low < 0x80_0000);
        assert(x / 0x80_0000 == e);
    }
    if b.len() >= 8 {
        let x = le64(b, 0);
        let low = le32(b, 0) + 0x1_0000_0000 * (b[4] + 256 * b[5] + 65_536 * (b[6] % 16));
        let e = b[6] / 16 + 16 * b[7];
        assert(x == low + 0x10_0000_0000_0000 * e && 0 <= low < 0x10_0000_0000_0000);
        assert(x / 0x10_0000_0000_0000 == e);
    }
}

// ------------------------------------------------------------------ what headers say

/// The tag that counts for a format.
pub open spec fn plain_tag(w: WavFacts) -> int {
    if w.format_tag == 65_534 && w.fmt.len() >= 26 {
        w.fmt[24] + 256 * w.fmt[25]
    } else {
        w.format_tag
    }
}

/// How samples are stored: whole numbers of one to four bytes under tag 1, and
/// floating numbers of four or eight bytes under tag 3, also where an extensible
/// format names that tag in its sub format. A sample has as many bytes as a frame
/// gives each channel.
pub proof fn storage_follows_the_format(w: WavFacts, n: int)
    requires
        w.channels > 0,
        w.block_align == w.channels * n,
        n >= 0,
    ensures
        w.kind() is Some <==> (plain_tag(w) == 1 && 1 <= n <= 4) || (plain_tag(w) == 3 && (n == 4 || n == 8)),
        w.kind() matches Some(k) ==> width(k) == n && ((k == SampleKind::F32 || k == SampleKind::F64) <==> plain_tag(w) == 3),
{
    reveal(le16);
    vstd::arithmetic::div_mod::lemma_div_multiples_vanish(n, w.channels);
}

/// How much audio a data chunk has. What it announces counts if the file holds
/// that much; an RF64 file announces it in its `ds64` chunk. Nothing announced,
/// or more than there is, is repaired to all there is. Of that, whole frames.
/// Tag, channels, sample rate, frame size and bits are told by the description,
/// the low byte first.
pub proof fn announced_audio_counts(x: Seq<u8>, ds64: Option<int>, body: int, size: int, file_size: int)
    requires
        16 <= x.len() <= 1024,
        0 <= body <= file_size,
        0 <= size <= 0xFFFF_FFFF,
        ds64 matches Some(n) ==> n >= 0,
        x[2] != 0 || x[3] != 0,
        x[4] != 0 || x[5] != 0 || x[6] != 0 || x[7] != 0,
        x[12] != 0 || x[13] != 0,
    ensures
        data_meaning(Some(x), ds64, body, size, file_size) matches Ok(w) && ({
            let there = file_size - body;
            let told = if size < 0xFFFF_FFFF {
                Some(size)
            } else {
                ds64
            };
            let align = x[12] + 256 * x[13];
            &&& w.repaired <==> (match told {
                Some(n) => n == 0 || n > there,
                None => true,
            })
            &&& told matches Some(n) ==> 0 < n <= there ==> w.data_len <= n < w.data_len + align
            &&& w.repaired ==> w.data_len <= there < w.data_len + align
            &&& w.data_len % align == 0
            &&& w.data_offset == body
            &&& w.fmt == x
            &&& w.file_size == file_size
            &&& w.format_tag == x[0] + 256 * x[1] && w.channels == x[2] + 256 * x[3] && w.block_align == align && w.bits_per_sample == x[14] + 256 * x[15]
            &&& w.sample_rate == x[4] + 256 * x[5] + 65_536 * x[6] + 16_777_216 * x[7]
        }),
{
    reveal(le16);
    reveal(le32);
    let align = le16(x, 12);
    let there = file_size - body;
    vstd::arithmetic::div_mod::lemma_fundamental_div_mod(there, align);
    vstd::arithmetic::div_mod::lemma_mod_division_less_than_divisor(there, align);
    vstd::arithmetic::div_mod::lemma_mod_division_less_than_divisor(size, align);
    lemma_whole(there, align);
    lemma_whole(size, align);
    if let Some(n) = ds64 {
        if n > 0 {
            vstd::arithmetic::div_mod::lemma_mod_division_less_than_divisor(n, align);
            lemma_whole(n, align);
        }
    }
}

/// What is left without the remainder is a multiple.
proof fn lemma_whole(n: int, d: int)
    requires
        d > 0,
    ensures
        (n - n % d) % d == 0,
{
    vstd::arithmetic::div_mod::lemma_fundamental_div_mod(n, d);
    vstd::arithmetic::div_mod::lemma_mod_multiples_basic(n / d, d);
    assert(d * (n / d) == (n / d) * d) by (nonlinear_arith);
}

/// What is wrong with a description: no channels, no sample rate or no frames.
pub proof fn unusable_formats_are_refused(x: Seq<u8>, ds64: Option<int>, body: int, size: int, file_size: int)
    requires
        16 <= x.len() <= 1024,
    ensures
        data_meaning(Some(x), ds64, body, size, file_size) is Err <==> (x[2] == 0 && x[3] == 0) || (x[4] == 0 && x[5] == 0 && x[6] == 0 && x[7] == 0) || (x[12]
            == 0 && x[13] == 0),
{
    reveal(le16);
    reveal(le32);
}

/// The same facts with everything so many bytes later.
pub open spec fn later(r: Result<WavFacts, WavError>, n: int) -> Result<WavFacts, WavError> {
    match r {
        Ok(w) => Ok(WavFacts { data_offset: w.data_offset + n, file_size: w.file_size + n, ..w }),
        Err(e) => Err(e),
    }
}

/// Chunks mean the same wherever they stand.
proof fn lemma_chunks_moved(p: Seq<u8>, f: Seq<u8>, off: int, fmt: Option<Seq<u8>>, ds64: Option<int>)
    requires
        off >= 0,
    ensures
        chunks_meaning(p + f, p.len() + off, fmt, ds64) == later(chunks_meaning(f, off, fmt, ds64), p.len() as int),
    decreases (if off <= f.len() {
        f.len() - off
    } else {
        0
    }),
{
    let g = p + f;
    let n = p.len() as int;
    if off + 8 <= f.len() {
        reveal(le16);
        reveal(le32);
        reveal(le64);
        let body = off + 8;
        let size = le32(f, off + 4);
        assert(g.subrange(n + off, n + off + 4) =~= f.subrange(off, off + 4));
        assert(g[n + off + 4] == f[off + 4] && g[n + off + 5] == f[off + 5] && g[n + off + 6] == f[off + 6] && g[n + off + 7] == f[off + 7]);
        assert(le32(g, n + off + 4) == size);
        if body + 16 <= f.len() {
            assert forall|k: int| 0 <= k < 16 implies #[trigger] g[n + body + k] == f[body + k] by {}
            assert(le64(g, n + body + 8) == le64(f, body + 8)) by {
                assert(g[n + body + 8] == f[body + 8] && g[n + body + 9] == f[body + 9] && g[n + body + 10] == f[body + 10] && g[n + body + 11] == f[body
                    + 11] && g[n + body + 12] == f[body + 12] && g[n + body + 13] == f[body + 13] && g[n + body + 14] == f[body + 14] && g[n + body + 15]
                    == f[body + 15]);
            }
        }
        if body + size <= f.len() {
            assert(g.subrange(n + body, n + body + size) =~= f.subrange(body, body + size));
        }
        let next = after_chunk(body, size);
        let id = f.subrange(off, off + 4);
        if id == id_ds64() && size >= 16 {
            if body + 16 <= f.len() {
                lemma_chunks_moved(p, f, next, fmt, Some(le64(f, body + 8)));
            }
        } else if id == id_fmt() {
            if !(size < 16 || size > 1024) && body + size <= f.len() {
                lemma_chunks_moved(p, f, next, Some(f.subrange(body, body + size)), ds64);
            }
        } else if id != id_data() {
            lemma_chunks_moved(p, f, next, fmt, ds64);
        }
        assert(n + next == after_chunk(n + body, size));
    }
}

/// A chunk that is not known does not matter: with one before its other chunks, a
/// file has the same format and audio, only later. A chunk of odd length is
/// followed by a byte that fills it up.
pub proof fn unknown_chunks_are_passed_over(head: Seq<u8>, id: Seq<u8>, content: Seq<u8>, rest: Seq<u8>)
    requires
        head.len() == 12,
        id.len() == 4,
        id != seq![0x66u8, 0x6d, 0x74, 0x20],
        id != seq![0x64u8, 0x61, 0x74, 0x61],
        id != seq![0x64u8, 0x73, 0x36, 0x34],
        content.len() < 0xFFFF_FFFF,
    ensures
        ({
            let chunk = id + le32_bytes(content.len() as int) + content + Seq::new(content.len() % 2, |i: int| 0u8);
            file_meaning(head + chunk + rest) == later(file_meaning(head + rest), chunk.len() as int)
        }),
{
    reveal(id_riff);
    reveal(id_rf64);
    reveal(id_wave);
    reveal(id_ds64);
    reveal(id_fmt);
    reveal(id_data);
    let chunk = id + le32_bytes(content.len() as int) + content + Seq::new(content.len() % 2, |i: int| 0u8);
    let f = head + chunk + rest;
    let g = head + rest;
    crate::bytes::le32_roundtrip(content.len() as int);
    let lb = le32_bytes(content.len() as int);
    assert(f.subrange(0, 4) =~= head.subrange(0, 4) && g.subrange(0, 4) =~= head.subrange(0, 4));
    assert(f.subrange(8, 12) =~= head.subrange(8, 12) && g.subrange(8, 12) =~= head.subrange(8, 12));
    assert(f.subrange(12, 16) =~= id);
    assert(f[16] == lb[0] && f[17] == lb[1] && f[18] == lb[2] && f[19] == lb[3]);
    assert(le32(f, 16) == content.len()) by {
        reveal(le16);
        reveal(le32);
    }
    let p = head + chunk;
    assert(f =~= p + rest);
    assert(chunk.len() == 8 + content.len() + content.len() % 2);
    if !(!(head.subrange(0, 4) == id_riff() || head.subrange(0, 4) == id_rf64()) || head.subrange(8, 12) != id_wave()) {
        assert(f.len() >= 20);
        assert(id != id_fmt() && id != id_data() && id != id_ds64());
        assert(after_chunk(20, content.len() as int) == p.len());
        assert(chunks_meaning(f, 12, None, None) == chunks_meaning(f, p.len() as int, None, None));
        lemma_chunks_moved(p, rest, 0, None, None);
        lemma_chunks_moved(head, rest, 0, None, None);
    }
}

/// What a written header announces. A classic file says how many bytes follow its
/// first eight and how many are audio; a file that is too large for that says so
/// in 64 bits, and how many frames there are.
pub proof fn headers_announce_their_file(fmt: Seq<u8>, data_len: int, frames: int, riff_limit: int)
    requires
        fmt.len() <= 1024,
        0 <= data_len,
        total_size(fmt.len() as int, data_len) <= u64::MAX,
        0 <= frames <= u64::MAX,
        0 <= riff_limit <= 0xFFFF_FFFF,
    ensures
        ({
            let h = header_bytes(fmt, data_len, frames, riff_limit);
            let all = h.len() + data_len + data_len % 2;
            let n = h.len() as int;
            &&& total_size(fmt.len() as int, data_len) == all
            &&& header_size(fmt.len() as int) == h.len()
            &&& h.len() == 64 + fmt.len() + fmt.len() % 2
            &&& h.subrange(8, 12) == seq![0x57u8, 0x41, 0x56, 0x45]
            &&& h.subrange(48, 52) == seq![0x66u8, 0x6d, 0x74, 0x20]
            &&& le32(h, 52) == fmt.len()
            &&& h.subrange(56, 56 + fmt.len() as int) == fmt
            &&& h.subrange(n - 8, n - 4) == seq![0x64u8, 0x61, 0x74, 0x61]
            &&& if all - 8 <= riff_limit && data_len <= riff_limit {
                h.subrange(0, 4) == seq![0x52u8, 0x49, 0x46, 0x46] && le32(h, 4) == all - 8 && le32(h, n - 4) == data_len
            } else {
                &&& h.subrange(0, 4) == seq![0x52u8, 0x46, 0x36, 0x34]
                &&& h.subrange(12, 16) == seq![0x64u8, 0x73, 0x36, 0x34]
                &&& le32(h, 4) == 0xFFFF_FFFF && le32(h, n - 4) == 0xFFFF_FFFF
                &&& le64(h, 20) == all - 8 && le64(h, 28) == data_len && le64(h, 36) == frames
            }
        }),
{
    header_has_announced_size(fmt, data_len, frames, riff_limit);
    reveal(id_riff);
    reveal(id_rf64);
    reveal(id_wave);
    reveal(id_ds64);
    reveal(id_fmt);
    reveal(id_data);
    reveal(header_bytes);
    reveal(opening_bytes);
    reveal(fmt_chunk);
    lemma_id_sizes();
    lemma_fmt_size(fmt);
    lemma_opening_parts(fmt.len() as int, data_len, frames, riff_limit);
    let fl = fmt.len() as int;
    let h = header_bytes(fmt, data_len, frames, riff_limit);
    let n = h.len() as int;
    let riff_size = total_size(fl, data_len) - 8;
    let big = needs_rf64(fl, data_len, riff_limit);
    let o = opening_bytes(fl, data_len, frames, riff_limit);
    let c = fmt_chunk(fmt);
    let data_field = if big {
        0xFFFF_FFFF
    } else {
        data_len % 0x1_0000_0000
    };
    let d = le32_bytes(data_field);
    crate::bytes::le32_roundtrip(data_field);
    crate::bytes::le32_roundtrip(28);
    crate::bytes::le32_roundtrip(0);
    crate::bytes::le32_roundtrip(0xFFFF_FFFF);
    crate::bytes::le32_roundtrip(riff_size % 0x1_0000_0000);
    crate::bytes::le32_roundtrip(fl % 0x1_0000_0000);
    crate::bytes::le64_roundtrip(riff_size);
    crate::bytes::le64_roundtrip(data_len);
    crate::bytes::le64_roundtrip(frames);
    assert(o.len() == 48);
    assert(c.len() == 8 + fl + fl % 2);
    assert(h =~= o + c + id_data() + d);
    assert(h.subrange(8, 12) =~= o.subrange(8, 12) && o.subrange(8, 12) =~= id_wave());
    assert(h.subrange(0, 4) =~= o.subrange(0, 4));
    assert(h.subrange(12, 16) =~= o.subrange(12, 16));
    assert(h.subrange(48, 52) =~= c.subrange(0, 4) && c.subrange(0, 4) =~= id_fmt());
    assert(h.subrange(56, 56 + fl) =~= c.subrange(8, 8 + fl) && c.subrange(8, 8 + fl) =~= fmt);
    assert(h.subrange(n - 8, n - 4) =~= id_data());
    lemma_words(h, 52, le32_bytes(fl % 0x1_0000_0000));
    lemma_words(h, n - 4, d);
    if big {
        assert(o.subrange(0, 4) =~= id_rf64());
        assert(o.subrange(12, 16) =~= id_ds64());
        lemma_words(h, 4, le32_bytes(0xFFFF_FFFF));
        lemma_long_words(h, 20, le64_bytes(riff_size));
        lemma_long_words(h, 28, le64_bytes(data_len));
        lemma_long_words(h, 36, le64_bytes(frames));
    } else {
        assert(o.subrange(0, 4) =~= id_riff());
        lemma_words(h, 4, le32_bytes(riff_size % 0x1_0000_0000));
    }
}

/// Four bytes inside a file are read as they are by themselves.
proof fn lemma_words(h: Seq<u8>, at: int, w: Seq<u8>)
    requires
        w.len() == 4,
        0 <= at <= h.len() - 4,
        h[at] == w[0] && h[at + 1] == w[1] && h[at + 2] == w[2] && h[at + 3] == w[3],
    ensures
        le32(h, at) == le32(w, 0),
{
    reveal(le16);
    reveal(le32);
}

/// Eight bytes inside a file are read as they are by themselves.
proof fn lemma_long_words(h: Seq<u8>, at: int, w: Seq<u8>)
    requires
        w.len() == 8,
        0 <= at <= h.len() - 8,
        forall|k: int| 0 <= k < 8 ==> #[trigger] w[k] == h[at + k],
    ensures
        le64(h, at) == le64(w, 0),
{
    reveal(le16);
    reveal(le32);
    reveal(le64);
    assert(w[0] == h[at + 0] && w[1] == h[at + 1] && w[2] == h[at + 2] && w[3] == h[at + 3] && w[4] == h[at + 4] && w[5] == h[at + 5] && w[6] == h[at + 6]
        && w[7] == h[at + 7]);
}

/// A tenth shown is never off by more than half of one, and a sample rate of
/// whole hundreds of hertz is shown exactly: in whole kilohertz, or with the
/// hundreds behind the point.
pub proof fn kilohertz_are_shown_to_the_nearest_tenth(rate: nat, point: char)
    ensures
        -50 <= nearest_tenth(rate) * 100 - rate <= 50,
        rate % 1000 == 0 ==> khz_text(rate, point) == dec(rate / 1000),
        rate % 1000 != 0 && rate % 100 == 0 ==> khz_text(rate, point) == dec(rate / 1000) + seq![point, digit_char(rate / 100 % 10)],
{
    if rate % 100 == 0 {
        assert(nearest_tenth(rate) == rate / 100);
        assert(rate / 100 / 10 == rate / 1000);
        assert(khz_text(rate, point) =~= if rate % 1000 == 0 {
            dec(rate / 1000)
        } else {
            dec(rate / 1000) + seq![point, digit_char(rate / 100 % 10)]
        });
    }
}

/// Files of up to four gibibytes have a plain header, and only larger ones the
/// extended one.
pub proof fn only_large_files_have_extended_headers(fmt: Seq<u8>, data_len: int, frames: int)
    requires
        fmt.len() <= 1024,
        0 <= data_len,
        total_size(fmt.len() as int, data_len) <= u64::MAX,
        0 <= frames <= u64::MAX,
    ensures
        header_bytes(fmt, data_len, frames, RIFF_LIMIT as int).subrange(0, 4) == if total_size(fmt.len() as int, data_len) - 8 <= 0xFFFF_FFFF {
            seq![0x52u8, 0x49, 0x46, 0x46]
        } else {
            seq![0x52u8, 0x46, 0x36, 0x34]
        },
{
    headers_announce_their_file(fmt, data_len, frames, RIFF_LIMIT as int);
}

} // verus!
