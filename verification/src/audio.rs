//! Audio files of any format: which files count, what is said of their format,
//! and how long and how large they are.

use vstd::prelude::*;

use crate::names::{extension_of, extensions_stand_behind_the_last_dot};
use crate::paths::{common_of, common_place, neighbours_share_their_folder, places, Place, PlaceView};
use crate::scan::{given_views, indices, last_name, name_of, push_unique, skipped_views, with_unique, Given, GivenView, Skipped, SkippedView, Visit};
use crate::text::{dec, has_prefix, lower_all, push_dec, same, starts_with, to_lower_all};
use crate::wav::{khz_text, push_khz};

verus! {

/// Folders below a given one that are looked into.
pub const MAX_DEPTH: usize = 24;

// ------------------------------------------------------------------ names

/// The extension of a file name in small letters; nothing if it has none.
pub open spec fn small_extension(name: Seq<char>) -> Seq<char> {
    match extension_of(name) {
        Some(e) => lower_all(e),
        None => Seq::empty(),
    }
}

/// The extension of a file name in small letters; nothing if it has none.
pub fn extension(name: &str) -> (r: String)
    ensures
        r@ == small_extension(name@),
{
    match crate::names::extension(name) {
        Some(e) => to_lower_all(e.as_str()),
        None => {
            let r = String::new();
            assert(r@ =~= small_extension(name@));
            r
        },
    }
}

/// Whether an extension is that of an audio file.
pub open spec fn audio_extension(e: Seq<char>) -> bool {
    e == "wav"@ || e == "wave"@ || e == "mp3"@ || e == "m4a"@ || e == "mp4"@ || e == "aac"@ || e == "flac"@ || e == "aif"@ || e == "aiff"@ || e == "ogg"@ || e
        == "caf"@
}

/// Whether a file name is that of an audio file which is not hidden.
pub open spec fn audio_name(name: Seq<char>) -> bool {
    !has_prefix(name, "."@) && audio_extension(small_extension(name))
}

/// Whether a file name is that of an audio file which is not hidden.
pub fn is_audio(name: &str) -> (r: bool)
    ensures
        r == audio_name(name@),
{
    let e = extension(name);
    let x = e.as_str();
    !starts_with(name, ".") && (same(x, "wav") || same(x, "wave") || same(x, "mp3") || same(x, "m4a") || same(x, "mp4") || same(x, "aac") || same(x, "flac") || same(
        x,
        "aif",
    ) || same(x, "aiff") || same(x, "ogg") || same(x, "caf"))
}

/// Hidden entries and the folder of results are left out, other folders are
/// entered, audio files are taken.
pub fn visit(name: &str, is_dir: bool, is_file: bool, depth: usize) -> (r: Visit)
    ensures
        r is Take ==> is_file && !is_dir && audio_name(name@),
        r is Enter <==> is_dir && depth < 24 && name@ != "master"@ && !has_prefix(name@, "."@),
        has_prefix(name@, "."@) ==> r is Leave,
        r == if has_prefix(name@, "."@) {
            Visit::Leave
        } else if is_dir {
            if name@ != "master"@ && depth < MAX_DEPTH {
                Visit::Enter
            } else {
                Visit::Leave
            }
        } else if is_file && audio_name(name@) {
            Visit::Take
        } else {
            Visit::Leave
        },
{
    if starts_with(name, ".") {
        Visit::Leave
    } else if is_dir {
        if !same(name, "master") && depth < MAX_DEPTH {
            Visit::Enter
        } else {
            Visit::Leave
        }
    } else if is_file && is_audio(name) {
        Visit::Take
    } else {
        Visit::Leave
    }
}

// ------------------------------------------------------------------ inputs

/// What mastering starts from.
#[derive(Debug)]
pub struct AudioIntake {
    /// The folders given and those the given files lie in, each once.
    pub roots: Vec<Place>,
    /// Which of the inputs are folders to look into.
    pub walk: Vec<usize>,
    /// Which of the inputs are audio files.
    pub files: Vec<usize>,
    pub ignored: Vec<Skipped>,
}

/// The folders of the first `n` inputs, each once.
pub open spec fn roots_of(g: Seq<GivenView>, n: int) -> Seq<PlaceView>
    decreases n,
{
    if n <= 0 {
        Seq::empty()
    } else {
        let x = g[n - 1];
        if x.is_dir {
            with_unique(roots_of(g, n - 1), x.place)
        } else if x.place.parts.len() > 0 {
            with_unique(roots_of(g, n - 1), x.place.up())
        } else {
            roots_of(g, n - 1)
        }
    }
}

/// Which of the first `n` inputs are folders.
pub open spec fn folders_of(g: Seq<GivenView>, n: int) -> Seq<int>
    decreases n,
{
    if n <= 0 {
        Seq::empty()
    } else if g[n - 1].is_dir {
        folders_of(g, n - 1).push(n - 1)
    } else {
        folders_of(g, n - 1)
    }
}

/// Which of the first `n` inputs are audio files.
pub open spec fn audio_of(g: Seq<GivenView>, n: int) -> Seq<int>
    decreases n,
{
    if n <= 0 {
        Seq::empty()
    } else if !g[n - 1].is_dir && audio_name(last_name(g[n - 1].place)) {
        audio_of(g, n - 1).push(n - 1)
    } else {
        audio_of(g, n - 1)
    }
}

/// Which of the first `n` inputs are other files.
pub open spec fn others_of(g: Seq<GivenView>, n: int) -> Seq<SkippedView>
    decreases n,
{
    if n <= 0 {
        Seq::empty()
    } else if !g[n - 1].is_dir && !audio_name(last_name(g[n - 1].place)) {
        others_of(g, n - 1).push(SkippedView { path: g[n - 1].path, reason: "keine unterstützte Audiodatei"@ })
    } else {
        others_of(g, n - 1)
    }
}

/// Sorts the inputs of mastering into folders, audio files and the rest.
/// Without any folder there is nothing to master.
pub fn intake(inputs: &Vec<Given>) -> (r: Result<AudioIntake, String>)
    ensures
        ({
            let g = given_views(inputs@);
            let n = g.len() as int;
            match r {
                Ok(k) => {
                    &&& roots_of(g, n).len() > 0
                    &&& places(k.roots@) == roots_of(g, n)
                    &&& indices(k.walk@) == folders_of(g, n)
                    &&& indices(k.files@) == audio_of(g, n)
                    &&& skipped_views(k.ignored@) == others_of(g, n)
                },
                Err(e) => roots_of(g, n).len() == 0 && e@ == "Keine Ordner oder Dateien angegeben."@,
            }
        }),
{
    let ghost g = given_views(inputs@);
    let mut roots: Vec<Place> = Vec::new();
    let mut walk: Vec<usize> = Vec::new();
    let mut files: Vec<usize> = Vec::new();
    let mut ignored: Vec<Skipped> = Vec::new();
    let mut i: usize = 0;
    assert(places(roots@) =~= Seq::<PlaceView>::empty());
    assert(indices(walk@) =~= Seq::<int>::empty());
    assert(skipped_views(ignored@) =~= Seq::<SkippedView>::empty());
    while i < inputs.len()
        invariant
            i <= inputs.len(),
            g == given_views(inputs@),
            places(roots@) == roots_of(g, i as int),
            indices(walk@) == folders_of(g, i as int),
            indices(files@) == audio_of(g, i as int),
            skipped_views(ignored@) == others_of(g, i as int),
        decreases inputs.len() - i,
    {
        let ghost w0 = walk@;
        let ghost f0 = files@;
        let ghost s0 = ignored@;
        assert(g[i as int] == inputs@[i as int]@);
        if inputs[i].is_dir {
            push_unique(&mut roots, inputs[i].place.copy());
            walk.push(i);
            assert(indices(walk@) =~= indices(w0).push(i as int));
        } else {
            assert(inputs@[i as int].place@.parts.len() == inputs@[i as int].place.parts.len());
            if inputs[i].place.parts.len() > 0 {
                push_unique(&mut roots, inputs[i].place.up());
            }
            let name = name_of(&inputs[i].place);
            if is_audio(name.as_str()) {
                files.push(i);
                assert(indices(files@) =~= indices(f0).push(i as int));
            } else {
                let k = Skipped { path: inputs[i].path.clone(), reason: "keine unterstützte Audiodatei".to_string() };
                ignored.push(k);
                assert(skipped_views(ignored@) =~= skipped_views(s0).push(k@));
            }
        }
        i = i + 1;
    }
    assert(places(roots@).len() == roots.len());
    if roots.len() == 0 {
        return Err("Keine Ordner oder Dateien angegeben.".to_string());
    }
    Ok(AudioIntake { roots, walk, files, ignored })
}

/// Whether there is anything to master, once all folders were looked into.
pub fn check_found(count: usize) -> (r: Result<(), String>)
    ensures
        match r {
            Ok(_) => count > 0,
            Err(e) => count == 0 && e@ == "Keine Audiodateien gefunden (WAV, MP3, M4A, AAC, FLAC, AIFF, CAF, OGG)."@,
        },
{
    if count == 0 {
        return Err("Keine Audiodateien gefunden (WAV, MP3, M4A, AAC, FLAC, AIFF, CAF, OGG).".to_string());
    }
    Ok(())
}

/// Where mastered files go: in the folder that holds all sources, or next to it
/// where it is the folder of tracks or of synchronised files.
pub open spec fn master_place(roots: Seq<PlaceView>) -> PlaceView {
    let c = common_place(roots);
    if c.is_named("tracks"@) || c.is_named("sync"@) {
        c.up().child("master"@)
    } else {
        c.child("master"@)
    }
}

/// Where mastered files go.
pub fn default_out_dir(roots: &Vec<Place>) -> (r: Place)
    requires
        roots.len() > 0,
    ensures
        r@ == master_place(places(roots@)),
{
    let c = common_of(roots);
    if c.is_named("tracks") || c.is_named("sync") {
        c.up().child("master")
    } else {
        c.child("master")
    }
}

// ------------------------------------------------------------------ sample rates

/// Whether an MP3 file can have a sample rate.
pub open spec fn encodable(rate: int) -> bool {
    rate == 8000 || rate == 11025 || rate == 12000 || rate == 16000 || rate == 22050 || rate == 24000 || rate == 32000 || rate == 44100 || rate == 48000
}

/// Whether a file is encodable at one of `factor` of its sample rate.
pub open spec fn encodable_by(rate: int, factor: int) -> bool {
    rate % factor == 0 && encodable(rate / factor)
}

/// The sample rate of the MP3 file of a source, and the factor by which it is
/// lowered for that, if it can be.
pub open spec fn lowering(rate: int) -> Option<(int, int)> {
    if encodable(rate) {
        Some((rate, 1))
    } else if encodable_by(rate, 2) {
        Some((rate / 2, 2))
    } else if encodable_by(rate, 4) {
        Some((rate / 4, 4))
    } else if encodable_by(rate, 8) {
        Some((rate / 8, 8))
    } else {
        None
    }
}

/// What is said of a sample rate that no MP3 file can have.
pub open spec fn rate_error(rate: int) -> Seq<char> {
    "Abtastrate "@ + dec(rate as nat) + " Hz wird für MP3 nicht unterstützt"@
}

/// Whether an MP3 file can have a sample rate.
fn is_encodable(rate: u32) -> (r: bool)
    ensures
        r == encodable(rate as int),
{
    rate == 8000 || rate == 11025 || rate == 12000 || rate == 16000 || rate == 22050 || rate == 24000 || rate == 32000 || rate == 44100 || rate == 48000
}

/// The sample rate of the MP3 file of a source, and the factor to it.
pub fn mp3_rate(rate: u32) -> (r: Result<(u32, u32), String>)
    ensures
        match r {
            Ok((to, factor)) => lowering(rate as int) == Some((to as int, factor as int)),
            Err(e) => lowering(rate as int) is None && e@ == rate_error(rate as int),
        },
{
    if is_encodable(rate) {
        return Ok((rate, 1));
    }
    if rate % 2 == 0 && is_encodable(rate / 2) {
        return Ok((rate / 2, 2));
    }
    if rate % 4 == 0 && is_encodable(rate / 4) {
        return Ok((rate / 4, 4));
    }
    if rate % 8 == 0 && is_encodable(rate / 8) {
        return Ok((rate / 8, 8));
    }
    let mut s = "Abtastrate ".to_string();
    push_dec(&mut s, rate as u64);
    s.append(" Hz wird für MP3 nicht unterstützt");
    Err(s)
}

/// Channels and sample rate of the MP3 file of a source: one or two channels.
pub fn layout(channels: u32, rate: u32) -> (r: Result<(u32, u32), String>)
    ensures
        match r {
            Ok((ch, to)) => {
                &&& lowering(rate as int) matches Some((x, _)) && to == x
                &&& ch == if channels < 1 {
                    1
                } else if channels > 2 {
                    2
                } else {
                    channels
                }
            },
            Err(e) => lowering(rate as int) is None && e@ == rate_error(rate as int),
        },
{
    match mp3_rate(rate) {
        Ok((to, _)) => Ok((
            if channels < 1 {
                1
            } else if channels > 2 {
                2
            } else {
                channels
            },
            to,
        )),
        Err(e) => Err(e),
    }
}

/// A lowered sample rate can be encoded, and its factor leads back to the rate
/// of the source.
pub proof fn lowered_rates_are_encodable(rate: int)
    ensures
        lowering(rate) matches Some((to, factor)) ==> encodable(to) && to * factor == rate,
{
}

/// A sample rate in words, with a decimal comma.
pub fn khz(rate: u32) -> (r: String)
    ensures
        r@ == khz_text(rate as nat, ',') + " kHz"@,
{
    let mut s = String::new();
    push_khz(&mut s, rate, ',');
    s.append(" kHz");
    assert(s@ =~= khz_text(rate as nat, ',') + " kHz"@);
    s
}

/// A result has the highest sample rate that an MP3 file can have and that
/// divides the one of the source by one, two, four or eight; where there is
/// none, there is no result.
pub proof fn rates_are_lowered_as_little_as_possible(rate: int, g: int)
    requires
        g == 1 || g == 2 || g == 4 || g == 8,
        rate % g == 0,
        encodable(rate / g),
    ensures
        lowering(rate) matches Some((to, f)) && f <= g && to >= rate / g && (f == 1 || f == 2 || f == 4 || f == 8) && to * f == rate,
{
    lowered_rates_are_encodable(rate);
}

/// An MP3 file can have the sample rates of its three generations: 44.1, 48 and
/// 32 kHz, their halves and their quarters.
pub proof fn mp3_rates_are_halved_twice(rate: int)
    ensures
        encodable(rate) <==> (exists|m: int|
            (m == 1 || m == 2 || m == 4) && (#[trigger] (rate * m) == 44_100 || rate * m == 48_000 || rate * m == 32_000)),
        lowering(44_100) == Some((44_100int, 1int)),
        lowering(96_000) == Some((48_000int, 2int)),
{
    if encodable(rate) {
        if rate == 44_100 || rate == 48_000 || rate == 32_000 {
            assert(rate * 1 == rate);
        } else if rate == 22_050 || rate == 24_000 || rate == 16_000 {
            assert(rate * 2 == 44_100 || rate * 2 == 48_000 || rate * 2 == 32_000);
        } else {
            assert(rate * 4 == 44_100 || rate * 4 == 48_000 || rate * 4 == 32_000);
        }
    }
}

/// Every folder given is a root, and so is the folder of every file given; no
/// other folder is one, and none comes twice.
pub proof fn roots_are_the_folders_given(g: Seq<GivenView>, n: int)
    requires
        0 <= n <= g.len(),
    ensures
        roots_of(g, n).no_duplicates(),
        forall|i: int| 0 <= i < n && (#[trigger] g[i]).is_dir ==> roots_of(g, n).contains(g[i].place),
        forall|i: int, p: PlaceView, name: Seq<char>|
            0 <= i < n && !(#[trigger] g[i]).is_dir && g[i].place == #[trigger] p.child(name) ==> roots_of(g, n).contains(p),
        forall|p: PlaceView| #[trigger]
            roots_of(g, n).contains(p) ==> exists|i: int|
                0 <= i < n && ((#[trigger] g[i]).is_dir && g[i].place == p || !g[i].is_dir && (exists|name: Seq<char>|
                    #[trigger] p.child(name) == g[i].place)),
    decreases n,
{
    if n > 0 {
        roots_are_the_folders_given(g, n - 1);
        let before = roots_of(g, n - 1);
        let all = roots_of(g, n);
        let x = g[n - 1];
        assert forall|p: PlaceView| #[trigger] before.contains(p) implies all.contains(p) by {
            let k = choose|k: int| 0 <= k < before.len() && before[k] == p;
            assert(all[k] == p);
        }
        if x.is_dir && !before.contains(x.place) {
            assert(all.last() == x.place);
            assert(all.no_duplicates());
        }
        if !x.is_dir && x.place.parts.len() > 0 {
            assert(x.place.up().child(last_name(x.place)).parts =~= x.place.parts);
            if !before.contains(x.place.up()) {
                assert(all.last() == x.place.up());
            }
        }
        assert forall|i: int, p: PlaceView, name: Seq<char>|
            0 <= i < n && !(#[trigger] g[i]).is_dir && g[i].place == #[trigger] p.child(name) implies all.contains(p) by {
            if i == n - 1 {
                assert(p.parts =~= x.place.up().parts);
                assert(p == x.place.up());
                if !before.contains(p) {
                    assert(all.last() == p);
                }
            }
        }
        assert forall|p: PlaceView| #[trigger] all.contains(p) implies exists|i: int|
            0 <= i < n && ((#[trigger] g[i]).is_dir && g[i].place == p || !g[i].is_dir && (exists|name: Seq<char>|
                #[trigger] p.child(name) == g[i].place)) by {
            let k = choose|k: int| 0 <= k < all.len() && all[k] == p;
            if k < before.len() {
                assert(before[k] == p);
                assert(before.contains(p));
            } else {
                assert(x.is_dir && x.place == p || p == x.place.up());
                if !x.is_dir {
                    assert(p.child(last_name(x.place)) == x.place);
                }
                assert(g[n - 1] == x);
            }
        }
    }
}

/// Each input is a folder to look into, an audio file to take or a file to
/// report, and only one of these.
pub proof fn inputs_are_sorted_once(g: Seq<GivenView>, n: int)
    requires
        0 <= n <= g.len(),
    ensures
        forall|i: int| 0 <= i < n ==> (#[trigger] folders_of(g, n).contains(i) <==> g[i].is_dir),
        forall|i: int| 0 <= i < n ==> (#[trigger] audio_of(g, n).contains(i) <==> !g[i].is_dir && audio_name(last_name(g[i].place))),
        folders_of(g, n).len() + audio_of(g, n).len() + others_of(g, n).len() == n,
        forall|k: int| 0 <= k < folders_of(g, n).len() ==> 0 <= #[trigger] folders_of(g, n)[k] < n,
        forall|k: int| 0 <= k < audio_of(g, n).len() ==> 0 <= #[trigger] audio_of(g, n)[k] < n,
        forall|j: int, k: int| 0 <= j < k < audio_of(g, n).len() ==> #[trigger] audio_of(g, n)[j] < #[trigger] audio_of(g, n)[k],
    decreases n,
{
    if n > 0 {
        inputs_are_sorted_once(g, n - 1);
        let w0 = folders_of(g, n - 1);
        let w = folders_of(g, n);
        let v0 = audio_of(g, n - 1);
        let v = audio_of(g, n);
        assert forall|i: int| 0 <= i < n implies (#[trigger] w.contains(i) <==> g[i].is_dir) by {
            if i < n - 1 {
                if w0.contains(i) {
                    let k = choose|k: int| 0 <= k < w0.len() && w0[k] == i;
                    assert(w[k] == i);
                }
                if w.contains(i) {
                    let k = choose|k: int| 0 <= k < w.len() && w[k] == i;
                    assert(w0[k] == i);
                    assert(w0.contains(i));
                }
            } else {
                if w.len() > w0.len() {
                    assert(w.last() == i);
                }
                if w.contains(i) {
                    let k = choose|k: int| 0 <= k < w.len() && w[k] == i;
                    if k < w0.len() {
                        assert(w0[k] == i);
                    }
                }
            }
        }
        assert forall|i: int| 0 <= i < n implies (#[trigger] v.contains(i) <==> !g[i].is_dir && audio_name(last_name(g[i].place))) by {
            if i < n - 1 {
                if v0.contains(i) {
                    let k = choose|k: int| 0 <= k < v0.len() && v0[k] == i;
                    assert(v[k] == i);
                }
                if v.contains(i) {
                    let k = choose|k: int| 0 <= k < v.len() && v[k] == i;
                    assert(v0[k] == i);
                    assert(v0.contains(i));
                }
            } else {
                if v.len() > v0.len() {
                    assert(v.last() == i);
                }
                if v.contains(i) {
                    let k = choose|k: int| 0 <= k < v.len() && v[k] == i;
                    if k < v0.len() {
                        assert(v0[k] == i);
                    }
                }
            }
        }
    }
}

/// Mastered files lie inside the folder given or next to the two given; from a
/// folder of tracks or of synchronised files they go beside it, not into it.
pub proof fn results_lie_beside_their_sources(p: PlaceView, a: Seq<char>, b: Seq<char>)
    requires
        p.parts.len() > 0,
        a != b,
        p.parts.last() != "tracks"@,
        p.parts.last() != "sync"@,
    ensures
        master_place(seq![p]) == p.child("master"@),
        master_place(seq![p.child(a), p.child(b)]) == p.child("master"@),
        master_place(seq![p.child("tracks"@)]) == p.child("master"@),
        master_place(seq![p.child("sync"@)]) == p.child("master"@),
{
    neighbours_share_their_folder(p, a, b);
    neighbours_share_their_folder(p.child("tracks"@), a, b);
    neighbours_share_their_folder(p.child("sync"@), a, b);
    neighbours_share_their_folder(p, "tracks"@, b);
    neighbours_share_their_folder(p, "sync"@, b);
}

/// A file is audio by its extension, in letters of any size, unless it is hidden.
pub proof fn audio_is_known_by_its_extension(stem: Seq<char>, ext: Seq<char>)
    requires
        stem.len() > 0,
        ext.len() > 0,
        forall|i: int| 0 <= i < ext.len() ==> #[trigger] ext[i] != '.',
    ensures
        stem[0] == '.' ==> !audio_name(stem + seq!['.'] + ext),
        stem[0] != '.' ==> (audio_name(stem + seq!['.'] + ext) <==> audio_extension(lower_all(ext))),
{
    extensions_stand_behind_the_last_dot(stem, ext);
    let n = stem + seq!['.'] + ext;
    reveal_strlit(".");
    assert(n.take(1)[0] == stem[0]);
    if stem[0] == '.' {
        assert(n.take(1) =~= "."@);
    }
}

} // verus!
