//! What is said of the format of an audio file.

use vstd::prelude::*;

use crate::audio::{audio_extension, khz};
use crate::names::lemma_dec_digits;
use crate::text::{all_digits, dec, from_chars, has_prefix, is_digit, lower_all, number, push_dec, same, starts_with, to_chars};
use crate::wav::{channel_text, khz_text, push_channels, SampleKind};

verus! {

/// What `str::to_uppercase` makes of a text.
pub uninterp spec fn uppercase(s: Seq<char>) -> Seq<char>;

/// `str::to_uppercase` of std writes a text in capitals by the Unicode tables:
/// the result depends on the text alone.
pub assume_specification[ str::to_uppercase ](s: &str) -> (r: String)
    ensures
        r@ == uppercase(s@),
;

// ------------------------------------------------------------------ PCM

/// The digits of a text.
pub open spec fn digits_of(s: Seq<char>) -> Seq<char>
    decreases s.len(),
{
    if s.len() == 0 {
        s
    } else if is_digit(s.last()) {
        digits_of(s.drop_last()).push(s.last())
    } else {
        digits_of(s.drop_last())
    }
}

/// The number that digits spell, if a 32-bit number can hold it.
pub open spec fn small_number(d: Seq<char>) -> Option<int> {
    if d.len() > 0 && number(d) <= u32::MAX {
        Some(number(d))
    } else {
        None
    }
}

/// More digits spell no smaller number.
proof fn lemma_digits_grow(s: Seq<char>, n: int)
    requires
        0 <= n <= s.len(),
    ensures
        0 <= number(digits_of(s.take(n))) <= number(digits_of(s)),
        digits_of(s.take(n)).len() <= digits_of(s).len(),
    decreases s.len(),
{
    if n == s.len() {
        assert(s.take(n) =~= s);
        if n > 0 {
            lemma_digits_grow(s.drop_last(), n - 1);
            let d = digits_of(s.drop_last());
            if is_digit(s.last()) {
                assert(d.push(s.last()).drop_last() =~= d);
            }
        }
    } else {
        assert(s.drop_last().take(n) =~= s.take(n));
        lemma_digits_grow(s.drop_last(), n);
        let d = digits_of(s.drop_last());
        if is_digit(s.last()) {
            assert(d.push(s.last()).drop_last() =~= d);
        }
    }
}

/// The number that the digits of a text from place `from` on spell, if a 32-bit
/// number can hold it.
fn parse_digits(v: &Vec<char>, from: usize) -> (r: Option<u32>)
    requires
        from <= v.len(),
    ensures
        match r {
            Some(n) => small_number(digits_of(v@.skip(from as int))) == Some(n as int),
            None => small_number(digits_of(v@.skip(from as int))) is None,
        },
{
    let ghost s = v@.skip(from as int);
    let mut sum: u64 = 0;
    let mut any = false;
    let mut i: usize = from;
    assert(s.take(0) =~= Seq::<char>::empty());
    while i < v.len()
        invariant
            from <= i <= v.len(),
            s == v@.skip(from as int),
            sum == number(digits_of(s.take(i - from))),
            sum <= u32::MAX,
            any == (digits_of(s.take(i - from)).len() > 0),
        decreases v.len() - i,
    {
        let c = v[i];
        proof {
            let t = s.take(i + 1 - from);
            assert(t.drop_last() =~= s.take(i - from));
            assert(t.last() == c);
            let d = digits_of(s.take(i - from));
            assert(d.push(c).drop_last() =~= d);
            lemma_digits_grow(s, i + 1 - from);
        }
        if '0' <= c && c <= '9' {
            sum = sum * 10 + (c as u64 - '0' as u64);
            any = true;
            if sum > u32::MAX as u64 {
                return None;
            }
        }
        i = i + 1;
    }
    assert(s.take(i - from) =~= s);
    if any {
        Some(sum as u32)
    } else {
        None
    }
}

// ------------------------------------------------------------------ codecs

/// A format in plain words.
#[derive(Debug)]
pub struct Description {
    pub container: String,
    pub detail: String,
    pub bits: Option<u32>,
    pub float: bool,
}

/// A number or nothing.
pub open spec fn opt_int(x: Option<u32>) -> Option<int> {
    match x {
        Some(n) => Some(n as int),
        None => None,
    }
}

/// The container by the extension of a file.
pub open spec fn container_of(ext: Seq<char>) -> Seq<char> {
    if ext == "wav"@ || ext == "wave"@ {
        "WAV"@
    } else if ext == "mp3"@ {
        "MP3"@
    } else if ext == "m4a"@ || ext == "mp4"@ {
        "M4A"@
    } else if ext == "aac"@ {
        "AAC"@
    } else if ext == "flac"@ {
        "FLAC"@
    } else if ext == "aif"@ || ext == "aiff"@ {
        "AIFF"@
    } else if ext == "ogg"@ {
        "OGG"@
    } else if ext == "caf"@ {
        "CAF"@
    } else {
        "Audio"@
    }
}

/// The container by the extension of a file.
fn container(ext: &str) -> (r: &'static str)
    ensures
        r@ == container_of(ext@),
{
    if same(ext, "wav") || same(ext, "wave") {
        "WAV"
    } else if same(ext, "mp3") {
        "MP3"
    } else if same(ext, "m4a") || same(ext, "mp4") {
        "M4A"
    } else if same(ext, "aac") {
        "AAC"
    } else if same(ext, "flac") {
        "FLAC"
    } else if same(ext, "aif") || same(ext, "aiff") {
        "AIFF"
    } else if same(ext, "ogg") {
        "OGG"
    } else if same(ext, "caf") {
        "CAF"
    } else {
        "Audio"
    }
}

/// The name of a codec.
pub open spec fn codec_name(codec: Seq<char>) -> Seq<char> {
    if codec == "mp3"@ {
        "MP3"@
    } else if codec == "aac"@ {
        "AAC"@
    } else if codec == "alac"@ {
        "ALAC"@
    } else if codec == "flac"@ {
        "FLAC"@
    } else if codec == "vorbis"@ {
        "Vorbis"@
    } else {
        uppercase(codec)
    }
}

/// The name of a codec.
fn name_codec(codec: &str) -> (r: String)
    ensures
        r@ == codec_name(codec@),
{
    if same(codec, "mp3") {
        "MP3".to_string()
    } else if same(codec, "aac") {
        "AAC".to_string()
    } else if same(codec, "alac") {
        "ALAC".to_string()
    } else if same(codec, "flac") {
        "FLAC".to_string()
    } else if same(codec, "vorbis") {
        "Vorbis".to_string()
    } else {
        codec.to_uppercase()
    }
}

/// Whether a codec holds plain samples.
pub open spec fn is_pcm(codec: Seq<char>) -> bool {
    has_prefix(codec, "pcm_"@)
}

/// Whether a codec compresses without loss.
pub open spec fn is_lossless(codec: Seq<char>) -> bool {
    codec == "flac"@ || codec == "alac"@
}

/// Bits of the samples of a PCM codec: those that its name says, or else those
/// that the file says.
pub open spec fn pcm_bits(codec: Seq<char>, bits: Option<u32>) -> Option<int> {
    match small_number(digits_of(codec.skip(4))) {
        Some(n) => Some(n),
        None => opt_int(bits),
    }
}

/// What is said of the samples of a PCM codec.
pub open spec fn pcm_detail(codec: Seq<char>, bits: Option<u32>) -> Seq<char> {
    match pcm_bits(codec, bits) {
        Some(b) => if has_prefix(codec.skip(4), "f"@) {
            dec(b as nat) + "-bit float"@
        } else {
            dec(b as nat) + "-bit"@
        },
        None => "PCM"@,
    }
}

/// Thousands of bits per second, to the nearest.
pub open spec fn kilobits(bit_rate: int) -> int {
    (bit_rate + 500) / 1000
}

/// What is said of the quality of a compressed file: bits of a lossless one, the
/// bit rate of another.
pub open spec fn quality(codec: Seq<char>, bits: Option<u32>, bit_rate: Option<u64>) -> Seq<char> {
    if is_lossless(codec) {
        match bits {
            Some(b) => dec(b as nat) + "-bit"@,
            None => Seq::empty(),
        }
    } else {
        match bit_rate {
            Some(b) => dec(kilobits(b as int) as nat) + " kbit/s"@,
            None => Seq::empty(),
        }
    }
}

/// Two texts with something between them where neither is empty.
pub open spec fn joined(a: Seq<char>, between: Seq<char>, b: Seq<char>) -> Seq<char> {
    if a.len() == 0 {
        b
    } else if b.len() == 0 {
        a
    } else {
        a + between + b
    }
}

/// What is said of a compressed file: its codec where the container does not
/// say it, and its quality.
pub open spec fn codec_detail(ext: Seq<char>, codec: Seq<char>, bits: Option<u32>, bit_rate: Option<u64>) -> Seq<char> {
    let q = quality(codec, bits, bit_rate);
    if codec_name(codec) == container_of(ext) {
        q
    } else if q.len() == 0 {
        codec_name(codec)
    } else {
        codec_name(codec) + " "@ + q
    }
}

/// Two texts with something between them where neither is empty.
fn join(a: String, between: &str, b: &str) -> (r: String)
    ensures
        r@ == joined(a@, between@, b@),
{
    let mut r = a;
    if r.unicode_len() == 0 {
        return b.to_string();
    }
    let v = to_chars(b);
    if v.len() > 0 {
        r.append(between);
        r.append(b);
    }
    r
}

/// Container, codec, bit depth and kind of samples in plain words.
pub fn describe(ext: &str, codec: &str, bits: Option<u32>, bit_rate: Option<u64>) -> (r: Description)
    ensures
        r.container@ == container_of(ext@),
        is_pcm(codec@) ==> ({
            &&& r.detail@ == pcm_detail(codec@, bits)
            &&& opt_int(r.bits) == pcm_bits(codec@, bits)
            &&& r.float == has_prefix(codec@.skip(4), "f"@)
        }),
        !is_pcm(codec@) ==> ({
            &&& r.detail@ == codec_detail(ext@, codec@, bits, bit_rate)
            &&& r.bits == (if is_lossless(codec@) {
                bits
            } else {
                None
            })
            &&& !r.float
        }),
{
    let c = container(ext);
    if starts_with(codec, "pcm_") {
        let v = to_chars(codec);
        proof {
            reveal_strlit("pcm_");
            reveal_strlit("f");
        }
        let rest = from_chars(&v, 4, v.len());
        assert(rest@ =~= codec@.skip(4));
        let float = starts_with(rest.as_str(), "f");
        let b = match parse_digits(&v, 4) {
            Some(n) => Some(n),
            None => bits,
        };
        let mut detail = String::new();
        match b {
            Some(n) => {
                push_dec(&mut detail, n as u64);
                if float {
                    detail.append("-bit float");
                } else {
                    detail.append("-bit");
                }
            },
            None => {
                detail.append("PCM");
            },
        }
        assert(detail@ =~= pcm_detail(codec@, bits));
        return Description { container: c.to_string(), detail, bits: b, float };
    }
    let lossless = same(codec, "flac") || same(codec, "alac");
    let mut q = String::new();
    let mut known = false;
    if lossless {
        if let Some(b) = bits {
            push_dec(&mut q, b as u64);
            q.append("-bit");
            known = true;
        }
    } else if let Some(b) = bit_rate {
        let k: u64 = b / 1000 + if b % 1000 >= 500 {
            1
        } else {
            0
        };
        push_dec(&mut q, k);
        q.append(" kbit/s");
        known = true;
    }
    proof {
        reveal_strlit("-bit");
        reveal_strlit(" kbit/s");
        assert(q@ =~= quality(codec@, bits, bit_rate));
        assert(known == (q@.len() > 0));
    }
    let name = name_codec(codec);
    let detail = if same(name.as_str(), c) {
        q
    } else if known {
        let mut d = name;
        d.append(" ");
        d.append(q.as_str());
        d
    } else {
        name
    };
    let b = if lossless {
        bits
    } else {
        None
    };
    Description { container: c.to_string(), detail, bits: b, float: false }
}

/// A format in one line: container, detail, sample rate and channels.
pub open spec fn format_line(container: Seq<char>, detail: Seq<char>, rate: int, channels: int) -> Seq<char> {
    let dot = " · "@;
    joined(joined(joined(container, dot, detail), dot, khz_text(rate as nat, ',') + " kHz"@), dot, channel_text(channels as nat))
}

/// A format in one line.
pub fn describe_line(container: &str, detail: &str, rate: u32, channels: u32) -> (r: String)
    ensures
        r@ == format_line(container@, detail@, rate as int, channels as int),
{
    let mut ch = String::new();
    push_channels(&mut ch, channels as u64);
    assert(ch@ =~= channel_text(channels as nat));
    let r = join(container.to_string(), " · ", detail);
    let k = khz(rate);
    let r = join(r, " · ", k.as_str());
    join(r, " · ", ch.as_str())
}

/// The codec of a WAV file and the bits of its samples.
pub open spec fn wav_codec_of(kind: SampleKind, bits: int) -> Seq<char> {
    match kind {
        SampleKind::F32 | SampleKind::F64 => "pcm_f"@ + dec(bits as nat) + "le"@,
        SampleKind::U8 => "pcm_u8"@,
        _ => "pcm_s"@ + dec(bits as nat) + "le"@,
    }
}

/// The codec of a WAV file and the bits of its samples.
pub fn wav_codec(kind: SampleKind, block_align: u16, channels: u16) -> (r: (String, u32))
    ensures
        r.1 == (if channels > 1 {
            block_align as int / channels as int
        } else {
            block_align as int
        }) * 8,
        r.0@ == wav_codec_of(kind, r.1 as int),
{
    let n: u16 = if channels > 1 {
        channels
    } else {
        1
    };
    let bits: u32 = (block_align / n) as u32 * 8;
    let mut s = String::new();
    match kind {
        SampleKind::F32 | SampleKind::F64 => {
            s.append("pcm_f");
            push_dec(&mut s, bits as u64);
            s.append("le");
        },
        SampleKind::U8 => {
            s.append("pcm_u8");
        },
        _ => {
            s.append("pcm_s");
            push_dec(&mut s, bits as u64);
            s.append("le");
        },
    }
    assert(s@ =~= wav_codec_of(kind, bits as int));
    (s, bits)
}

proof fn lemma_digits_between(a: Seq<char>, d: Seq<char>, b: Seq<char>)
    requires
        all_digits(d),
        forall|i: int| 0 <= i < a.len() ==> !is_digit(#[trigger] a[i]),
        forall|i: int| 0 <= i < b.len() ==> !is_digit(#[trigger] b[i]),
    ensures
        digits_of(a + d + b) == d,
    decreases a.len() + d.len() + b.len(),
{
    let s = a + d + b;
    if b.len() > 0 {
        assert(s.last() == b.last());
        assert(s.drop_last() =~= a + d + b.drop_last());
        lemma_digits_between(a, d, b.drop_last());
    } else if d.len() > 0 {
        assert(s.last() == d.last());
        assert(is_digit(d.last()));
        assert(s.drop_last() =~= a + d.drop_last() + b);
        lemma_digits_between(a, d.drop_last(), b);
        assert(digits_of(s) =~= d);
    } else if a.len() > 0 {
        assert(s.last() == a.last());
        assert(s.drop_last() =~= a.drop_last() + d + b);
        lemma_digits_between(a.drop_last(), d, b);
    } else {
        assert(s =~= d);
    }
}

/// The codec of a WAV file tells what its samples are: plain ones, of so many
/// bits, floating-point or not, whatever else is said of their bits.
pub proof fn wav_codecs_tell_their_samples(kind: SampleKind, bits: int, other: Option<u32>)
    requires
        0 < bits <= u32::MAX,
        kind is U8 ==> bits == 8,
    ensures
        is_pcm(wav_codec_of(kind, bits)),
        !is_lossless(wav_codec_of(kind, bits)),
        pcm_bits(wav_codec_of(kind, bits), other) == Some(bits),
        has_prefix(wav_codec_of(kind, bits).skip(4), "f"@) <==> kind is F32 || kind is F64,
        pcm_detail(wav_codec_of(kind, bits), other) == if kind is F32 || kind is F64 {
            dec(bits as nat) + "-bit float"@
        } else {
            dec(bits as nat) + "-bit"@
        },
{
    let c = wav_codec_of(kind, bits);
    let d = dec(bits as nat);
    reveal_strlit("pcm_");
    reveal_strlit("pcm_f");
    reveal_strlit("pcm_s");
    reveal_strlit("pcm_u8");
    reveal_strlit("le");
    reveal_strlit("f");
    reveal_strlit("flac");
    reveal_strlit("alac");
    lemma_dec_digits(bits as nat);
    let first = match kind {
        SampleKind::F32 | SampleKind::F64 => 'f',
        SampleKind::U8 => 'u',
        _ => 's',
    };
    let end = if kind is U8 {
        Seq::<char>::empty()
    } else {
        seq!['l', 'e']
    };
    if kind is U8 {
        assert(d =~= seq!['8']);
    }
    assert(c.skip(4) =~= seq![first] + d + end);
    assert(c.take(4) =~= "pcm_"@);
    assert(c[0] == 'p');
    assert("flac"@[0] == 'f' && "alac"@[0] == 'a');
    lemma_digits_between(seq![first], d, end);
    assert(c.skip(4).take(1) =~= seq![first]);
    assert("f"@ =~= seq!['f']);
    if first != 'f' {
        assert(c.skip(4).take(1)[0] != "f"@[0]);
    }
}

/// Audio that is compressed without loss is told by its bits, any other by its
/// bit rate, to the nearest thousand bits per second.
pub proof fn quality_is_bits_or_bit_rate(codec: Seq<char>, bits: Option<u32>, a: Option<u64>, b: Option<u64>, other: Option<u32>, rate: int)
    ensures
        codec == "flac"@ || codec == "alac"@ ==> quality(codec, bits, a) == quality(codec, bits, b),
        codec != "flac"@ && codec != "alac"@ ==> quality(codec, bits, a) == quality(codec, other, a),
        -500 <= 1000 * kilobits(rate) - rate <= 500,
        a is None && bits is None ==> quality(codec, bits, a).len() == 0,
{
}

/// A format is told by all that is known of it, in sequence.
pub proof fn formats_are_told_in_sequence(container: Seq<char>, detail: Seq<char>, rate: int, channels: int)
    requires
        container.len() > 0,
        0 <= rate,
        0 <= channels,
    ensures
        detail.len() > 0 ==> format_line(container, detail, rate, channels) == container + " · "@ + detail + " · "@ + (khz_text(rate as nat, ',') + " kHz"@)
            + " · "@ + channel_text(channels as nat),
        detail.len() == 0 ==> format_line(container, detail, rate, channels) == container + " · "@ + (khz_text(rate as nat, ',') + " kHz"@) + " · "@
            + channel_text(channels as nat),
        channel_text(1) == "Mono"@ && channel_text(2) == "Stereo"@,
{
    reveal_strlit(" kHz");
    reveal_strlit("Mono");
    reveal_strlit("Stereo");
    reveal_strlit(" Kanäle");
}

/// Every kind of audio file has a container that is told by name, and no other
/// file has; the name, in small letters, is the extension of such a file itself.
pub proof fn containers_are_told_by_their_extension(e: Seq<char>)
    ensures
        container_of(e) != "Audio"@ <==> audio_extension(e),
        audio_extension(e) ==> audio_extension(lower_all(container_of(e))) && container_of(lower_all(container_of(e))) == container_of(e),
        e == "mp3"@ || e == "aac"@ || e == "flac"@ || e == "ogg"@ || e == "caf"@ || e == "wav"@ || e == "m4a"@ || e == "aiff"@ ==> lower_all(
            container_of(e),
        ) == e && audio_extension(e),
        container_of("wave"@) == container_of("wav"@) && container_of("mp4"@) == container_of("m4a"@) && container_of("aif"@) == container_of("aiff"@),
        audio_extension("wave"@) && audio_extension("mp4"@) && audio_extension("aif"@),
{
    reveal_strlit("Audio");
    reveal_strlit("WAV");
    reveal_strlit("wav");
    reveal_strlit("wave");
    reveal_strlit("MP3");
    reveal_strlit("mp3");
    reveal_strlit("M4A");
    reveal_strlit("m4a");
    reveal_strlit("mp4");
    reveal_strlit("AAC");
    reveal_strlit("aac");
    reveal_strlit("FLAC");
    reveal_strlit("flac");
    reveal_strlit("AIFF");
    reveal_strlit("aiff");
    reveal_strlit("aif");
    reveal_strlit("OGG");
    reveal_strlit("ogg");
    reveal_strlit("CAF");
    reveal_strlit("caf");
    assert(lower_all("WAV"@) =~= "wav"@);
    assert(lower_all("MP3"@) =~= "mp3"@);
    assert(lower_all("M4A"@) =~= "m4a"@);
    assert(lower_all("AAC"@) =~= "aac"@);
    assert(lower_all("FLAC"@) =~= "flac"@);
    assert(lower_all("AIFF"@) =~= "aiff"@);
    assert(lower_all("OGG"@) =~= "ogg"@);
    assert(lower_all("CAF"@) =~= "caf"@);
    assert("Audio"@[1] == 'u');
    assert("WAV"@[1] == 'A' && "MP3"@[1] == 'P' && "M4A"@[1] == '4' && "AAC"@[1] == 'A' && "FLAC"@[1] == 'L' && "AIFF"@[1] == 'I' && "OGG"@[1] == 'G'
        && "CAF"@[1] == 'A');
    assert("wav"@[0] == 'w' && "wave"@[0] == 'w' && "mp3"@[1] == 'p' && "mp3"@[2] == '3' && "mp4"@[2] == '4' && "m4a"@[1] == '4' && "m4a"@[0] == 'm'
        && "aac"@[1] == 'a' && "aac"@[0] == 'a' && "flac"@[0] == 'f' && "aiff"@[1] == 'i' && "aiff"@[0] == 'a' && "aif"@[0] == 'a' && "ogg"@[0] == 'o'
        && "caf"@[0] == 'c' && "mp3"@[0] == 'm' && "mp4"@[0] == 'm' && "aif"@[1] == 'i');
}

} // verus!
