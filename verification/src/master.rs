//! The plan of a mastering run: one entry per readable file, with its format,
//! its gain and the name of its result.

use vstd::prelude::*;

use crate::audio::{extension, lowering, mp3_rate, rate_error, small_extension};
use crate::describe::{codec_detail, container_of, describe, describe_line, format_line, is_lossless, is_pcm, opt_int, pcm_bits, pcm_detail};
use crate::items::{has_text, lemma_number_of_dec};
use crate::loudness::{capped, excess, gain_to_target, is_audible, static_gain, GainNote, Loudness, MAX_GAIN, TARGET_LUFS};
use crate::names::{dji_from, extension_of, extensions_stand_behind_the_last_dot, last_dot, parse_dji_name, parse_track_name, track_of};
use crate::outcome::opt_text;
use crate::scan::{skipped_views, Skipped, SkippedView};
use crate::text::{dec, from_chars, has_prefix, has_suffix, is_digit, lower_all, push_dec_wide, same, starts_with, texts, to_chars};

verus! {

// ------------------------------------------------------------------ names

/// What `str::to_lowercase` makes of a text.
pub uninterp spec fn lowercase(s: Seq<char>) -> Seq<char>;

/// `str::to_lowercase` of std writes a text in small letters by the Unicode
/// tables: the result depends on the text alone, the ASCII characters that a
/// text ends with end the result in small letters, and a text of ASCII
/// characters only becomes its small letters.
pub assume_specification[ str::to_lowercase ](s: &str) -> (r: String)
    ensures
        r@ == lowercase(s@),
        forall|k: int| 0 <= k <= s@.len() && is_ascii_text(#[trigger] s@.skip(k)) ==> has_suffix(r@, lower_all(s@.skip(k))),
        is_ascii_text(s@) ==> r@ == lower_all(s@),
;

/// Whether all characters of a text are ASCII.
pub open spec fn is_ascii_text(s: Seq<char>) -> bool {
    forall|i: int| 0 <= i < s.len() ==> (#[trigger] s[i] as u32) < 128
}

/// A file name without its extension.
pub open spec fn bare(name: Seq<char>) -> Seq<char> {
    if extension_of(name) is Some {
        name.take(last_dot(name))
    } else {
        name
    }
}

/// What the result of a file is called: `n` counts files that want one name.
pub open spec fn result_name(stem: Seq<char>, n: nat) -> Seq<char> {
    if n <= 1 {
        stem + ".mp3"@
    } else {
        stem + tail(n)
    }
}

/// What a counted name ends with.
pub open spec fn tail(n: nat) -> Seq<char> {
    "_"@ + dec(n) + ".mp3"@
}

/// The first number from `n` on whose name nothing has yet, whatever the case of
/// its letters, after at most `tries` that are taken.
pub open spec fn free_number(used: Seq<Seq<char>>, stem: Seq<char>, n: nat, tries: nat) -> nat
    decreases tries,
{
    if tries == 0 || !used.contains(lowercase(result_name(stem, n))) {
        n
    } else {
        free_number(used, stem, n + 1, (tries - 1) as nat)
    }
}

/// The name of the result of a file, where the names `used` are taken.
pub open spec fn free_name(used: Seq<Seq<char>>, stem: Seq<char>) -> Seq<char> {
    result_name(stem, free_number(used, stem, 1, used.len() + 1))
}

/// Decimal forms hold digits only.
proof fn lemma_dec_digits(n: nat)
    ensures
        dec(n).len() > 0,
        forall|i: int| 0 <= i < dec(n).len() ==> is_digit(#[trigger] dec(n)[i]),
    decreases n,
{
    if n >= 10 {
        lemma_dec_digits(n / 10);
    }
}

/// A text ends with one counted tail only.
proof fn lemma_tails_differ(x: Seq<char>, a: nat, b: nat)
    requires
        has_suffix(x, tail(a)),
        has_suffix(x, tail(b)),
        dec(a).len() <= dec(b).len(),
    ensures
        a == b,
{
    reveal_strlit("_");
    reveal_strlit(".mp3");
    lemma_dec_digits(a);
    lemma_dec_digits(b);
    let p = x.len() - 4 - dec(a).len();
    let ta = tail(a);
    let tb = tail(b);
    assert(x.skip(x.len() - ta.len()) =~= ta);
    assert(x.skip(x.len() - tb.len()) =~= tb);
    assert(x[p - 1] == ta[0]);
    if dec(a).len() < dec(b).len() {
        let j = dec(b).len() - dec(a).len() - 1;
        assert(x[p - 1] == tb[j + 1]);
        assert(tb[j + 1] == dec(b)[j]);
        assert(false);
    }
    assert(dec(a) =~= dec(b)) by {
        assert forall|i: int| 0 <= i < dec(a).len() implies #[trigger] dec(a)[i] == dec(b)[i] by {
            assert(ta[i + 1] == x[p + i]);
            assert(tb[i + 1] == x[p + i]);
        }
    }
    lemma_number_of_dec(a);
    lemma_number_of_dec(b);
}

/// Different texts that are all in a list are no more than it holds.
proof fn lemma_no_more(tried: Seq<Seq<char>>, used: Seq<Seq<char>>)
    requires
        tried.no_duplicates(),
        forall|i: int| 0 <= i < tried.len() ==> used.contains(#[trigger] tried[i]),
    ensures
        tried.len() <= used.len(),
{
    let s = tried.to_set();
    tried.unique_seq_to_set();
    assert(s.subset_of(used.to_set())) by {
        assert forall|x: Seq<char>| s.contains(x) implies used.to_set().contains(x) by {
            let i = choose|i: int| 0 <= i < tried.len() && tried[i] == x;
            assert(used.contains(tried[i]));
        }
    }
    vstd::seq_lib::seq_to_set_is_finite(used);
    vstd::set_lib::lemma_len_subset(s, used.to_set());
    used.lemma_cardinality_of_set();
}

/// A counted tail is ASCII in small letters.
proof fn lemma_tail_is_small(n: nat)
    ensures
        is_ascii_text(tail(n)),
        lower_all(tail(n)) == tail(n),
{
    reveal_strlit("_");
    reveal_strlit(".mp3");
    lemma_dec_digits(n);
    let t = tail(n);
    assert forall|i: int| 0 <= i < t.len() implies (#[trigger] t[i] as u32) < 128 && crate::text::lower(t[i]) == t[i] by {
        if 1 <= i < 1 + dec(n).len() {
            assert(t[i] == dec(n)[i - 1]);
        }
    }
    assert(lower_all(t) =~= t);
}

/// The name of a result that no other has, whatever the case of its letters,
/// and that name in small letters.
fn choose_name(used: &Vec<String>, stem: &str) -> (r: (String, String))
    ensures
        r.0@ == free_name(texts(used@), stem@),
        r.1@ == lowercase(r.0@),
        !texts(used@).contains(r.1@),
{
    let ghost u = texts(used@);
    let mut name = stem.to_string();
    name.append(".mp3");
    let mut small = name.as_str().to_lowercase();
    let mut n: u128 = 1;
    let mut left: u128 = used.len() as u128 + 1;
    // The counted names that were tried.
    let ghost mut tried: Seq<Seq<char>> = Seq::empty();
    assert(u.len() == used.len());
    while left > 0 && has_text(used, small.as_str())
        invariant
            u == texts(used@),
            u.len() == used.len(),
            left <= used.len() + 1,
            n == 2 + used.len() - left,
            name@ == result_name(stem@, n as nat),
            small@ == lowercase(name@),
            n > 1 ==> has_suffix(small@, tail(n as nat)),
            tried.len() == (if n > 1 {
                n - 2
            } else {
                0
            }),
            forall|i: int| 0 <= i < tried.len() ==> u.contains(#[trigger] tried[i]) && has_suffix(tried[i], tail((i + 2) as nat)),
            free_number(u, stem@, 1, u.len() + 1) == free_number(u, stem@, n as nat, left as nat),
        decreases left,
    {
        proof {
            if n > 1 {
                tried = tried.push(small@);
            }
        }
        n = n + 1;
        left = left - 1;
        name = stem.to_string();
        name.append("_");
        push_dec_wide(&mut name, n);
        name.append(".mp3");
        assert(name@ =~= result_name(stem@, n as nat));
        small = name.as_str().to_lowercase();
        proof {
            lemma_tail_is_small(n as nat);
            assert(name@.skip(stem@.len() as int) =~= tail(n as nat));
        }
    }
    proof {
        if u.contains(small@) {
            // More counted names would be taken than there are.
            let all = tried.push(small@);
            assert forall|i: int| 0 <= i < all.len() implies u.contains(#[trigger] all[i]) && has_suffix(all[i], tail((i + 2) as nat)) by {
                if i < tried.len() {
                    assert(all[i] == tried[i]);
                }
            }
            assert forall|i: int, j: int| 0 <= i < all.len() && 0 <= j < all.len() && i != j implies all[i] != all[j] by {
                if all[i] == all[j] {
                    if dec((i + 2) as nat).len() <= dec((j + 2) as nat).len() {
                        lemma_tails_differ(all[i], (i + 2) as nat, (j + 2) as nat);
                    } else {
                        lemma_tails_differ(all[i], (j + 2) as nat, (i + 2) as nat);
                    }
                }
            }
            lemma_no_more(all, u);
        }
    }
    (name, small)
}

// ------------------------------------------------------------------ files

/// What was measured of a file.
#[derive(Debug)]
pub struct Measured {
    pub loudness: Loudness,
    pub frames: u64,
    pub channels: u32,
    pub rate: u32,
    pub codec: String,
    pub bits: Option<u32>,
}

/// A file that was found, and what measuring it gave: nothing if that broke off.
#[derive(Debug)]
pub struct FoundAudio {
    pub path: String,
    pub name: String,
    pub folder: String,
    pub size: u64,
    pub measured: Option<Result<Measured, String>>,
}

/// A file that can be mastered.
#[derive(Debug)]
pub struct AudioFile {
    pub id: usize,
    /// Which of the files found it is.
    pub file: usize,
    pub path: String,
    pub name: String,
    pub folder: String,
    pub format: String,
    pub container: String,
    pub codec: String,
    pub bits: Option<u32>,
    pub float: bool,
    pub sample_rate: u32,
    pub channels: u32,
    pub bit_rate: Option<u64>,
    pub frames: u64,
    pub size: u64,
    pub loudness: Loudness,
    /// None: silence, or a sample rate that no result can have.
    pub gain: Option<i64>,
    pub limited: i64,
    pub note: Option<String>,
    /// A raw part of a recorder (usually already contained in a track).
    pub dji_part: bool,
    pub out_name: String,
}

/// A file that can be mastered as mathematical values.
pub struct AudioView {
    pub id: int,
    pub file: int,
    pub path: Seq<char>,
    pub name: Seq<char>,
    pub folder: Seq<char>,
    pub format: Seq<char>,
    pub container: Seq<char>,
    pub codec: Seq<char>,
    pub bits: Option<int>,
    pub float: bool,
    pub sample_rate: int,
    pub channels: int,
    pub bit_rate: Option<u64>,
    pub frames: int,
    pub size: int,
    pub loudness: Loudness,
    pub gain: Option<int>,
    pub limited: int,
    pub note: Option<Seq<char>>,
    pub dji_part: bool,
    pub out_name: Seq<char>,
}

impl View for AudioFile {
    type V = AudioView;

    open spec fn view(&self) -> AudioView {
        AudioView {
            id: self.id as int,
            file: self.file as int,
            path: self.path@,
            name: self.name@,
            folder: self.folder@,
            format: self.format@,
            container: self.container@,
            codec: self.codec@,
            bits: opt_int(self.bits),
            float: self.float,
            sample_rate: self.sample_rate as int,
            channels: self.channels as int,
            bit_rate: self.bit_rate,
            frames: self.frames as int,
            size: self.size as int,
            loudness: self.loudness,
            gain: match self.gain {
                Some(g) => Some(g as int),
                None => None,
            },
            limited: self.limited as int,
            note: opt_text(self.note),
            dji_part: self.dji_part,
            out_name: self.out_name@,
        }
    }
}

/// The files of a list.
pub open spec fn audio_views(v: Seq<AudioFile>) -> Seq<AudioView> {
    v.map_values(|f: AudioFile| f@)
}

/// Bits per second of a file that is compressed with loss.
pub open spec fn bit_rate_of(codec: Seq<char>, size: int, frames: int, rate: int) -> Option<u64> {
    if !is_pcm(codec) && !is_lossless(codec) && frames > 0 && rate > 0 {
        Some(capped(size * 8 * rate / frames) as u64)
    } else {
        None
    }
}

/// Bits per second of a file that is compressed with loss.
fn find_bit_rate(codec: &str, size: u64, frames: u64, rate: u32) -> (r: Option<u64>)
    ensures
        r == bit_rate_of(codec@, size as int, frames as int, rate as int),
{
    if starts_with(codec, "pcm_") || same(codec, "flac") || same(codec, "alac") || frames == 0 || rate == 0 {
        return None;
    }
    let a: u128 = size as u128 * 8;
    let b: u128 = rate as u128;
    assert(0 <= a * b <= 0x80_0000_0000_0000_0000_0000_0000_0000) by (nonlinear_arith)
        requires
            0 <= a <= 8 * 0xFFFF_FFFF_FFFF_FFFF,
            0 <= b <= 0xFFFF_FFFF,
    ;
    let x: u128 = a * b / frames as u128;
    if x > u64::MAX as u128 {
        Some(u64::MAX)
    } else {
        Some(x as u64)
    }
}

/// What is noted about a file, and whether it can be mastered at all.
pub open spec fn note_of(l: Loudness, rate: int) -> Option<Seq<char>> {
    if lowering(rate) is None {
        Some(rate_error(rate))
    } else if !is_audible(l) {
        Some(GainNote::Silent.words())
    } else if TARGET_LUFS - l.lufs->0 > MAX_GAIN {
        Some(GainNote::Capped.words())
    } else {
        None
    }
}

/// The gain that a file gets.
pub open spec fn gain_of(l: Loudness, rate: int) -> Option<int> {
    if lowering(rate) is None || !is_audible(l) {
        None
    } else {
        Some(gain_to_target(l.lufs->0 as int))
    }
}

/// How far the peaks of a file would exceed the ceiling.
pub open spec fn limited_of(l: Loudness) -> int {
    if !is_audible(l) {
        0
    } else {
        match l.true_peak {
            Some(p) => excess(p as int, gain_to_target(l.lufs->0 as int)),
            None => 0,
        }
    }
}

/// The entry of a file that was measured.
pub open spec fn entry(f: FoundAudio, m: Measured, file: int, id: int, used: Seq<Seq<char>>) -> AudioView {
    let ext = small_extension(f.name@);
    let c = m.codec@;
    let rate = bit_rate_of(c, f.size as int, m.frames as int, m.rate as int);
    let detail = if is_pcm(c) {
        pcm_detail(c, m.bits)
    } else {
        codec_detail(ext, c, m.bits, rate)
    };
    AudioView {
        id,
        file,
        path: f.path@,
        name: f.name@,
        folder: f.folder@,
        format: format_line(container_of(ext), detail, m.rate as int, m.channels as int),
        container: container_of(ext),
        codec: c,
        bits: if is_pcm(c) {
            pcm_bits(c, m.bits)
        } else if is_lossless(c) {
            opt_int(m.bits)
        } else {
            None
        },
        float: is_pcm(c) && has_prefix(c.skip(4), "f"@),
        sample_rate: m.rate as int,
        channels: m.channels as int,
        bit_rate: rate,
        frames: m.frames as int,
        size: f.size as int,
        loudness: m.loudness,
        gain: gain_of(m.loudness, m.rate as int),
        limited: limited_of(m.loudness),
        note: note_of(m.loudness, m.rate as int),
        dji_part: dji_from(f.name@, 0) is Some && track_of(f.name@) is None,
        out_name: free_name(used, bare(f.name@)),
    }
}

/// Why a file is not mastered, if so.
pub open spec fn unusable(f: FoundAudio) -> Option<Seq<char>> {
    match f.measured {
        Some(Ok(m)) => if m.frames > 0 {
            None
        } else {
            Some("enthält keine Audiodaten"@)
        },
        Some(Err(e)) => Some(e@),
        None => Some("nicht lesbar"@),
    }
}

/// The entries of the first `n` files, and the names of their results in small
/// letters.
pub open spec fn entries(v: Seq<FoundAudio>, n: int) -> (Seq<AudioView>, Seq<Seq<char>>)
    decreases n,
{
    if n <= 0 {
        (Seq::empty(), Seq::empty())
    } else {
        let (a, u) = entries(v, n - 1);
        match v[n - 1].measured {
            Some(Ok(m)) => if m.frames > 0 {
                let e = entry(v[n - 1], m, n - 1, a.len() as int, u);
                (a.push(e), u.push(lowercase(e.out_name)))
            } else {
                (a, u)
            },
            _ => (a, u),
        }
    }
}

/// The files among the first `n` that are not mastered.
pub open spec fn left_out(v: Seq<FoundAudio>, n: int) -> Seq<SkippedView>
    decreases n,
{
    if n <= 0 {
        Seq::empty()
    } else {
        match unusable(v[n - 1]) {
            Some(reason) => left_out(v, n - 1).push(SkippedView { path: v[n - 1].path@, reason }),
            None => left_out(v, n - 1),
        }
    }
}

/// Whether the levels measured lie within the bounds.
pub open spec fn levels_ok(v: Seq<FoundAudio>) -> bool {
    forall|i: int| 0 <= i < v.len() ==> ((#[trigger] v[i]).measured matches Some(Ok(m)) ==> m.loudness.valid())
}

/// A file name without its extension.
fn bare_name(name: &str) -> (r: String)
    ensures
        r@ == bare(name@),
{
    match crate::names::extension(name) {
        Some(e) => {
            let v = to_chars(name);
            proof {
                lemma_last_dot(name@);
            }
            let n: usize = v.len() - 1 - e.unicode_len();
            let r = from_chars(&v, 0, n);
            assert(r@ =~= bare(name@));
            r
        },
        None => name.to_string(),
    }
}

/// The last dot lies inside the name.
proof fn lemma_last_dot(s: Seq<char>)
    ensures
        -1 <= last_dot(s) < s.len(),
    decreases s.len(),
{
    if s.len() > 0 {
        lemma_last_dot(s.drop_last());
    }
}

/// Makes the entry of a file that was measured.
fn make_entry(f: &FoundAudio, m: &Measured, file: usize, id: usize, used: &mut Vec<String>) -> (r: AudioFile)
    requires
        m.loudness.valid(),
    ensures
        r@ == entry(*f, *m, file as int, id as int, texts(old(used)@)),
        texts(final(used)@) == texts(old(used)@).push(lowercase(r.out_name@)),
        !texts(old(used)@).contains(lowercase(r.out_name@)),
{
    let ext = extension(f.name.as_str());
    let bit_rate = find_bit_rate(m.codec.as_str(), f.size, m.frames, m.rate);
    let d = describe(ext.as_str(), m.codec.as_str(), m.bits, bit_rate);
    let format = describe_line(d.container.as_str(), d.detail.as_str(), m.rate, m.channels);
    let g = static_gain(&m.loudness);
    let mut gain = g.gain;
    let mut note = match g.note {
        Some(n) => Some(n.text().to_string()),
        None => None,
    };
    if let Err(e) = mp3_rate(m.rate) {
        note = Some(e);
        gain = None;
    }
    let (out_name, small) = choose_name(used, bare_name(f.name.as_str()).as_str());
    used.push(small);
    assert(texts(used@) =~= texts(old(used)@).push(small@));
    let dji_part = parse_dji_name(f.name.as_str()).is_some() && parse_track_name(f.name.as_str()).is_none();
    let r = AudioFile {
        id,
        file,
        path: f.path.clone(),
        name: f.name.clone(),
        folder: f.folder.clone(),
        format,
        container: d.container,
        codec: m.codec.clone(),
        bits: d.bits,
        float: d.float,
        sample_rate: m.rate,
        channels: m.channels,
        bit_rate,
        frames: m.frames,
        size: f.size,
        loudness: m.loudness,
        gain,
        limited: g.limited,
        note,
        dji_part,
        out_name,
    };
    r
}

/// What can be mastered of the files found, and what was left out.
#[derive(Debug)]
pub struct MasterFiles {
    pub files: Vec<AudioFile>,
    pub ignored: Vec<Skipped>,
}

/// Plans the mastering of the files found; files that were `ignored` already
/// stay so. Without any readable file there is nothing to master.
pub fn plan_files(found: &Vec<FoundAudio>, ignored: Vec<Skipped>) -> (r: Result<MasterFiles, String>)
    requires
        levels_ok(found@),
    ensures
        ({
            let n = found.len() as int;
            let (a, u) = entries(found@, n);
            match r {
                Ok(p) => {
                    &&& a.len() > 0
                    &&& audio_views(p.files@) == a
                    &&& skipped_views(p.ignored@) == skipped_views(ignored@) + left_out(found@, n)
                    &&& forall|i: int, j: int|
                        0 <= i < j < p.files.len() ==> lowercase((#[trigger] p.files@[i]).out_name@) != lowercase((#[trigger] p.files@[j]).out_name@)
                },
                Err(e) => a.len() == 0 && e@ == "Keine lesbaren Audiodateien gefunden."@,
            }
        }),
{
    let mut files: Vec<AudioFile> = Vec::new();
    let ghost before = skipped_views(ignored@);
    let mut skipped = ignored;
    let mut used: Vec<String> = Vec::new();
    let mut i: usize = 0;
    assert(audio_views(files@) =~= Seq::<AudioView>::empty());
    assert(texts(used@) =~= Seq::<Seq<char>>::empty());
    assert(before =~= before + left_out(found@, 0));
    while i < found.len()
        invariant
            i <= found.len(),
            levels_ok(found@),
            files.len() <= i,
            audio_views(files@) == entries(found@, i as int).0,
            texts(used@) == entries(found@, i as int).1,
            used.len() == files.len(),
            forall|k: int| 0 <= k < files.len() ==> texts(used@)[k] == lowercase((#[trigger] files@[k]).out_name@),
            texts(used@).no_duplicates(),
            skipped_views(skipped@) == before + left_out(found@, i as int),
        decreases found.len() - i,
    {
        let f = &found[i];
        let ghost f0 = files@;
        let ghost u0 = texts(used@);
        assert(u0.len() == used.len());
        let ghost s0 = skipped@;
        let reason: Option<String> = match &f.measured {
            Some(Ok(m)) => if m.frames > 0 {
                assert(m.loudness.valid());
                let id: usize = files.len();
                assert(audio_views(files@).len() == id);
                let e = make_entry(f, m, i, id, &mut used);
                files.push(e);
                assert(audio_views(files@) =~= audio_views(f0).push(e@));
                assert(texts(used@).len() == used.len());
                assert forall|k: int| 0 <= k < files.len() implies texts(used@)[k] == lowercase((#[trigger] files@[k]).out_name@) by {
                    if k < f0.len() {
                        assert(files@[k] == f0[k]);
                        assert(u0[k] == lowercase(f0[k].out_name@));
                    }
                }
                None
            } else {
                Some("enthält keine Audiodaten".to_string())
            },
            Some(Err(e)) => Some(e.clone()),
            None => Some("nicht lesbar".to_string()),
        };
        match reason {
            Some(reason) => {
                let k = Skipped { path: f.path.clone(), reason };
                skipped.push(k);
                assert(unusable(found@[i as int]) == Some(k.reason@));
                assert(skipped_views(skipped@) =~= skipped_views(s0).push(k@));
                assert(skipped_views(skipped@) =~= before + left_out(found@, i + 1));
            },
            None => {},
        }
        i = i + 1;
    }
    assert(audio_views(files@).len() == files.len());
    if files.len() == 0 {
        return Err("Keine lesbaren Audiodateien gefunden.".to_string());
    }
    Ok(MasterFiles { files, ignored: skipped })
}

proof fn lemma_first_free(used: Seq<Seq<char>>, stem: Seq<char>, n: nat, tries: nat)
    ensures
        ({
            let k = free_number(used, stem, n, tries);
            &&& n <= k
            &&& forall|j: nat| n <= j < k ==> used.contains(lowercase(#[trigger] result_name(stem, j)))
        }),
    decreases tries,
{
    if tries > 0 && used.contains(lowercase(result_name(stem, n))) {
        lemma_first_free(used, stem, n + 1, (tries - 1) as nat);
    }
}

/// A result has the name of its source with another extension; where another
/// result has that name, whatever the case of its letters, the first number that
/// is free stands before the extension.
pub proof fn results_are_named_by_their_source(used: Seq<Seq<char>>, stem: Seq<char>, ext: Seq<char>)
    requires
        stem.len() > 0,
        ext.len() > 0,
        forall|i: int| 0 <= i < ext.len() ==> #[trigger] ext[i] != '.',
    ensures
        bare(stem + seq!['.'] + ext) == stem,
        bare(ext) == ext,
        !used.contains(lowercase(stem + ".mp3"@)) ==> free_name(used, stem) == stem + ".mp3"@,
        used.contains(lowercase(stem + ".mp3"@)) ==> exists|n: nat|
            2 <= n && free_name(used, stem) == #[trigger] (stem + ("_"@ + dec(n) + ".mp3"@)) && forall|j: nat|
                2 <= j < n ==> used.contains(lowercase(#[trigger] (stem + ("_"@ + dec(j) + ".mp3"@)))),
{
    extensions_stand_behind_the_last_dot(stem, ext);
    let name = stem + seq!['.'] + ext;
    assert(name.take(stem.len() as int) =~= stem);
    let k = free_number(used, stem, 1, used.len() + 1);
    lemma_first_free(used, stem, 1, used.len() + 1);
    if used.contains(lowercase(stem + ".mp3"@)) {
        assert(result_name(stem, 1) == stem + ".mp3"@);
        reveal_with_fuel(free_number, 2);
        lemma_first_free(used, stem, 2, used.len());
        assert(k >= 2);
        assert forall|j: nat| 2 <= j < k implies used.contains(lowercase(#[trigger] (stem + ("_"@ + dec(j) + ".mp3"@)))) by {
            assert(result_name(stem, j) == stem + ("_"@ + dec(j) + ".mp3"@));
        }
        assert(free_name(used, stem) == stem + ("_"@ + dec(k) + ".mp3"@));
    }
}

/// A file that can be heard and encoded is brought to -16 LUFS, or by 40 dB
/// where it is too quiet for that, which is noted; its limiter takes off what
/// its peak has above -1.5 dBTP then. Silence, and a sample rate that no result
/// can have, get no gain and a note.
pub proof fn files_are_brought_to_the_target(l: Loudness, rate: int, v: i64)
    requires
        l.lufs == Some(v),
    ensures
        lowering(rate) is Some && v > -70_000_000 && v >= -56_000_000 ==> gain_of(l, rate) == Some(-16_000_000 - v) && note_of(l, rate) is None,
        lowering(rate) is Some && -70_000_000 < v < -56_000_000 ==> gain_of(l, rate) == Some(40_000_000int) && note_of(l, rate) == Some(
            GainNote::Capped.words(),
        ),
        lowering(rate) is Some && v <= -70_000_000 ==> gain_of(l, rate) is None && note_of(l, rate) == Some(GainNote::Silent.words()),
        lowering(rate) is None ==> gain_of(l, rate) is None && note_of(l, rate) is Some,
        l.true_peak matches Some(p) ==> v >= -56_000_000 ==> limited_of(l) == (if p - 16_000_000 - v > -1_500_000 {
            p - 14_500_000 - v
        } else {
            0
        }),
        v <= -70_000_000 || l.true_peak is None ==> limited_of(l) == 0,
{
}

/// The bit rate of a compressed file is its bits by the second, and plain or
/// lossless audio is told without one.
pub proof fn bit_rates_are_bits_by_the_second(codec: Seq<char>, size: int, secs: int, rate: int)
    requires
        !is_pcm(codec),
        !is_lossless(codec),
        0 < rate,
        0 < secs,
        0 <= size,
        size * 8 <= u64::MAX,
    ensures
        bit_rate_of(codec, size, secs * rate, rate) matches Some(b) && b * secs <= 8 * size < (b + 1) * secs,
        bit_rate_of("flac"@, size, secs * rate, rate) is None,
        bit_rate_of("alac"@, size, secs * rate, rate) is None,
{
    let frames = secs * rate;
    assert(frames > 0) by (nonlinear_arith)
        requires
            frames == secs * rate,
            0 < rate,
            0 < secs,
    ;
    let n = size * 8 * rate;
    let b = n / frames;
    vstd::arithmetic::div_mod::lemma_fundamental_div_mod(n, frames);
    vstd::arithmetic::div_mod::lemma_mod_bound(n, frames);
    assert(b * secs <= 8 * size < (b + 1) * secs && 0 <= b <= 8 * size) by (nonlinear_arith)
        requires
            n == size * 8 * rate,
            frames == secs * rate,
            frames * b <= n < frames * b + frames,
            0 < rate,
            0 < secs,
            0 <= size,
    ;
}

/// Each file that was measured and holds audio has one entry, numbered in
/// sequence and in the order found; each other file is reported.
pub proof fn every_file_is_an_entry_or_left_out(v: Seq<FoundAudio>, n: int)
    requires
        0 <= n <= v.len(),
    ensures
        entries(v, n).0.len() + left_out(v, n).len() == n,
        forall|k: int| 0 <= k < entries(v, n).0.len() ==> (#[trigger] entries(v, n).0[k]).id == k && 0 <= entries(v, n).0[k].file < n,
        forall|k: int|
            0 <= k < entries(v, n).0.len() ==> ({
                let e = #[trigger] entries(v, n).0[k];
                let f = v[e.file];
                &&& f.measured matches Some(Ok(m)) && m.frames > 0 && e.frames == m.frames && e.sample_rate == m.rate && e.channels == m.channels && e.loudness
                    == m.loudness && e.codec == m.codec@ && e.gain == gain_of(m.loudness, m.rate as int)
                &&& e.path == f.path@ && e.name == f.name@ && e.folder == f.folder@ && e.size == f.size
            }),
        forall|j: int, k: int| 0 <= j < k < entries(v, n).0.len() ==> (#[trigger] entries(v, n).0[j]).file < (#[trigger] entries(v, n).0[k]).file,
    decreases n,
{
    if n > 0 {
        every_file_is_an_entry_or_left_out(v, n - 1);
        let a0 = entries(v, n - 1).0;
        let a = entries(v, n).0;
        assert(forall|k: int| 0 <= k < a0.len() ==> a[k] == a0[k]);
        assert forall|k: int| 0 <= k < a.len() implies ({
            let e = #[trigger] a[k];
            let f = v[e.file];
            &&& f.measured matches Some(Ok(m)) && m.frames > 0 && e.frames == m.frames && e.sample_rate == m.rate && e.channels == m.channels && e.loudness
                == m.loudness && e.codec == m.codec@ && e.gain == gain_of(m.loudness, m.rate as int)
            &&& e.path == f.path@ && e.name == f.name@ && e.folder == f.folder@ && e.size == f.size
        }) by {
            if k < a0.len() {
                assert(a[k] == a0[k]);
            }
        }
    }
}

} // verus!
