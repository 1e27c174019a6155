//! What a scan takes from the given folders and files: which files count, what
//! each of them is, and which are copies of another.

use vstd::prelude::*;

use crate::bytes::same_bytes;
use crate::calendar::{datetime_text, fmt_datetime};
use crate::names::{dji_from, is_wav_name, parse_dji_name, wav_name};
use crate::paths::{common_of, common_place, neighbours_share_their_folder, places, Place, PlaceView};
use crate::text::{starts_with, has_prefix};
use crate::wav::{WavFacts, WavInfo};

verus! {

/// Bytes of each of the samples by which two files are compared.
pub const FINGERPRINT_BLOCK: u64 = 65_536;

/// How a scan groups files.
#[derive(Debug, Clone, Copy)]
pub struct Options {
    /// Milliseconds a follow-up chunk may deviate from the predecessor's end.
    pub gap_tolerance: i64,
    pub max_depth: usize,
    /// Smallest data size a chunk cut by the recorder can have.
    pub min_chunk_bytes: u64,
}

impl Default for Options {
    fn default() -> (r: Options)
        ensures
            r.gap_tolerance == 3000,
            r.max_depth == 24,
            r.min_chunk_bytes == 104_857_600,
    {
        Options { gap_tolerance: 3000, max_depth: 24, min_chunk_bytes: 104_857_600 }
    }
}

/// A file that is not used, and why.
#[derive(Debug, Clone)]
pub struct Skipped {
    pub path: String,
    pub reason: String,
}

/// A skipped file as mathematical values.
pub struct SkippedView {
    pub path: Seq<char>,
    pub reason: Seq<char>,
}

impl View for Skipped {
    type V = SkippedView;

    open spec fn view(&self) -> SkippedView {
        SkippedView { path: self.path@, reason: self.reason@ }
    }
}

/// One file of a recording.
#[derive(Debug, Clone)]
pub struct Part {
    /// Which of the files handed in this is.
    pub file: usize,
    pub path: String,
    pub name: String,
    /// Name of the folder the file lies in.
    pub folder: String,
    pub seq: u32,
    /// Start in words.
    pub start: String,
    pub size: u64,
    /// Hundredths of a second between the end of the part before and the start of this one.
    pub gap_to_prev: Option<i64>,
    pub full_chunk: bool,
    pub repaired: bool,
    pub folder_path: Place,
    pub start_secs: i64,
    pub info: WavInfo,
}

/// A part as mathematical values.
pub struct PartView {
    pub file: int,
    pub path: Seq<char>,
    pub name: Seq<char>,
    pub folder: Seq<char>,
    pub seq: int,
    pub start: Seq<char>,
    pub size: int,
    pub gap_to_prev: Option<int>,
    pub full_chunk: bool,
    pub repaired: bool,
    pub folder_path: PlaceView,
    pub start_secs: int,
    pub info: WavFacts,
}

impl View for Part {
    type V = PartView;

    open spec fn view(&self) -> PartView {
        PartView {
            file: self.file as int,
            path: self.path@,
            name: self.name@,
            folder: self.folder@,
            seq: self.seq as int,
            start: self.start@,
            size: self.size as int,
            gap_to_prev: match self.gap_to_prev {
                Some(g) => Some(g as int),
                None => None,
            },
            full_chunk: self.full_chunk,
            repaired: self.repaired,
            folder_path: self.folder_path@,
            start_secs: self.start_secs as int,
            info: self.info@,
        }
    }
}

/// The parts of a list.
pub open spec fn part_views(v: Seq<Part>) -> Seq<PartView> {
    v.map_values(|p: Part| p@)
}

/// The skipped files of a list.
pub open spec fn skipped_views(v: Seq<Skipped>) -> Seq<SkippedView> {
    v.map_values(|p: Skipped| p@)
}

impl Part {
    /// A copy of the part.
    pub fn copy(&self) -> (r: Part)
        ensures
            r@ == self@,
    {
        Part {
            file: self.file,
            path: self.path.clone(),
            name: self.name.clone(),
            folder: self.folder.clone(),
            seq: self.seq,
            start: self.start.clone(),
            size: self.size,
            gap_to_prev: self.gap_to_prev,
            full_chunk: self.full_chunk,
            repaired: self.repaired,
            folder_path: self.folder_path.copy(),
            start_secs: self.start_secs,
            info: self.info.copy(),
        }
    }
}

// ------------------------------------------------------------------ inputs

/// One of the folders and files a scan is given.
#[derive(Debug)]
pub struct Given {
    pub path: String,
    pub place: Place,
    pub is_dir: bool,
}

/// What a scan starts from.
#[derive(Debug)]
pub struct Intake {
    /// The folders given and those the given files lie in, each once.
    pub roots: Vec<Place>,
    /// Which of the inputs are folders to look into, each folder once.
    pub walk: Vec<usize>,
    /// Which of the inputs are WAV files.
    pub files: Vec<usize>,
    pub ignored: Vec<Skipped>,
}

/// An input as mathematical values.
pub struct GivenView {
    pub path: Seq<char>,
    pub place: PlaceView,
    pub is_dir: bool,
}

impl View for Given {
    type V = GivenView;

    open spec fn view(&self) -> GivenView {
        GivenView { path: self.path@, place: self.place@, is_dir: self.is_dir }
    }
}

/// The inputs of a list.
pub open spec fn given_views(v: Seq<Given>) -> Seq<GivenView> {
    v.map_values(|g: Given| g@)
}

/// The last name of a path, or nothing.
pub open spec fn last_name(p: PlaceView) -> Seq<char> {
    if p.parts.len() > 0 {
        p.parts.last()
    } else {
        Seq::empty()
    }
}

/// A list with one more path, if it is new.
pub open spec fn with_unique(v: Seq<PlaceView>, p: PlaceView) -> Seq<PlaceView> {
    if v.contains(p) {
        v
    } else {
        v.push(p)
    }
}

/// The folders of the first `n` inputs, each once.
pub open spec fn roots_of(g: Seq<GivenView>, n: int) -> Seq<PlaceView>
    decreases n,
{
    if n <= 0 {
        Seq::empty()
    } else {
        let before = roots_of(g, n - 1);
        let x = g[n - 1];
        if x.is_dir {
            with_unique(before, x.place)
        } else if wav_name(last_name(x.place)) && x.place.parts.len() > 0 {
            with_unique(before, x.place.up())
        } else {
            before
        }
    }
}

/// Which of the first `n` inputs are folders that did not come before.
pub open spec fn walk_of(g: Seq<GivenView>, n: int) -> Seq<int>
    decreases n,
{
    if n <= 0 {
        Seq::empty()
    } else if g[n - 1].is_dir && (forall|k: int| 0 <= k < n - 1 ==> !((#[trigger] g[k]).is_dir && g[k].place == g[n - 1].place)) {
        walk_of(g, n - 1).push(n - 1)
    } else {
        walk_of(g, n - 1)
    }
}

/// Which of the first `n` inputs are WAV files.
pub open spec fn wavs_of(g: Seq<GivenView>, n: int) -> Seq<int>
    decreases n,
{
    if n <= 0 {
        Seq::empty()
    } else if !g[n - 1].is_dir && wav_name(last_name(g[n - 1].place)) {
        wavs_of(g, n - 1).push(n - 1)
    } else {
        wavs_of(g, n - 1)
    }
}

/// Which of the first `n` inputs are other files.
pub open spec fn others_of(g: Seq<GivenView>, n: int) -> Seq<SkippedView>
    decreases n,
{
    if n <= 0 {
        Seq::empty()
    } else if !g[n - 1].is_dir && !wav_name(last_name(g[n - 1].place)) {
        others_of(g, n - 1).push(SkippedView { path: g[n - 1].path, reason: "keine WAV-Datei"@ })
    } else {
        others_of(g, n - 1)
    }
}

/// Places of a list of indices.
pub open spec fn indices(v: Seq<usize>) -> Seq<int> {
    v.map_values(|i: usize| i as int)
}

/// Whether a path is in a list.
pub fn has_place(v: &Vec<Place>, p: &Place) -> (r: bool)
    ensures
        r == places(v@).contains(p@),
{
    let mut i: usize = 0;
    while i < v.len()
        invariant
            i <= v.len(),
            forall|k: int| 0 <= k < i ==> (#[trigger] v@[k])@ != p@,
        decreases v.len() - i,
    {
        if v[i].is_same(p) {
            assert(places(v@)[i as int] == p@);
            return true;
        }
        i = i + 1;
    }
    assert forall|k: int| 0 <= k < places(v@).len() implies #[trigger] places(v@)[k] != p@ by {
        assert(v@[k]@ != p@);
    }
    false
}

/// Adds a path if it is new.
pub fn push_unique(v: &mut Vec<Place>, p: Place)
    ensures
        places(final(v)@) == with_unique(places(old(v)@), p@),
{
    if !has_place(v, &p) {
        v.push(p);
    }
    assert(places(v@) =~= with_unique(places(old(v)@), p@));
}

/// The last name of a path, or nothing.
pub fn name_of(p: &Place) -> (r: String)
    ensures
        r@ == last_name(p@),
{
    let n: usize = p.parts.len();
    if n > 0 {
        assert(p@.parts.last() == p.parts@[n - 1]@);
        p.parts[n - 1].clone()
    } else {
        assert(p@.parts.len() == 0);
        let r = String::new();
        assert(r@ =~= last_name(p@));
        r
    }
}

/// Whether the folder at `i` was given before.
fn given_before(inputs: &Vec<Given>, i: usize) -> (r: bool)
    requires
        i < inputs.len(),
    ensures
        r == exists|k: int| 0 <= k < i && (#[trigger] given_views(inputs@)[k]).is_dir && given_views(inputs@)[k].place == inputs@[i as int].place@,
{
    let ghost g = given_views(inputs@);
    let mut k: usize = 0;
    while k < i
        invariant
            k <= i < inputs.len(),
            g == given_views(inputs@),
            forall|j: int| 0 <= j < k ==> !((#[trigger] g[j]).is_dir && g[j].place == inputs@[i as int].place@),
        decreases i - k,
    {
        assert(g[k as int] == inputs@[k as int]@);
        if inputs[k].is_dir && inputs[k].place.is_same(&inputs[i].place) {
            return true;
        }
        k = k + 1;
    }
    false
}

/// Sorts the inputs of a scan into folders, WAV files and the rest. Without any
/// folder or WAV file there is nothing to scan.
pub fn intake(inputs: &Vec<Given>) -> (r: Result<Intake, String>)
    ensures
        ({
            let g = given_views(inputs@);
            let n = g.len() as int;
            match r {
                Ok(k) => {
                    &&& roots_of(g, n).len() > 0
                    &&& places(k.roots@) == roots_of(g, n)
                    &&& indices(k.walk@) == walk_of(g, n)
                    &&& indices(k.files@) == wavs_of(g, n)
                    &&& skipped_views(k.ignored@) == others_of(g, n)
                },
                Err(e) => roots_of(g, n).len() == 0 && e@ == "Keine Ordner oder WAV-Dateien angegeben."@,
            }
        }),
{
    let ghost g = given_views(inputs@);
    let mut roots: Vec<Place> = Vec::new();
    let mut walk: Vec<usize> = Vec::new();
    let mut files: Vec<usize> = Vec::new();
    let mut ignored: Vec<Skipped> = Vec::new();
    let mut i: usize = 0;
    assert(places(roots@) =~= Seq::<PlaceView>::empty());
    assert(indices(walk@) =~= Seq::<int>::empty());
    assert(skipped_views(ignored@) =~= Seq::<SkippedView>::empty());
    while i < inputs.len()
        invariant
            i <= inputs.len(),
            g == given_views(inputs@),
            places(roots@) == roots_of(g, i as int),
            indices(walk@) == walk_of(g, i as int),
            indices(files@) == wavs_of(g, i as int),
            skipped_views(ignored@) == others_of(g, i as int),
        decreases inputs.len() - i,
    {
        let ghost w0 = walk@;
        let ghost f0 = files@;
        let ghost s0 = ignored@;
        assert(g[i as int] == inputs@[i as int]@);
        let name = name_of(&inputs[i].place);
        if inputs[i].is_dir {
            push_unique(&mut roots, inputs[i].place.copy());
            if !given_before(inputs, i) {
                walk.push(i);
                assert(indices(walk@) =~= indices(w0).push(i as int));
            }
        } else if is_wav_name(name.as_str()) {
            files.push(i);
            assert(indices(files@) =~= indices(f0).push(i as int));
            assert(inputs@[i as int].place@.parts.len() == inputs@[i as int].place.parts.len());
            if inputs[i].place.parts.len() > 0 {
                push_unique(&mut roots, inputs[i].place.up());
            }
        } else {
            let k = Skipped { path: inputs[i].path.clone(), reason: "keine WAV-Datei".to_string() };
            ignored.push(k);
            assert(skipped_views(ignored@) =~= skipped_views(s0).push(k@));
        }
        i = i + 1;
    }
    assert(places(roots@).len() == roots.len());
    if roots.len() == 0 {
        return Err("Keine Ordner oder WAV-Dateien angegeben.".to_string());
    }
    Ok(Intake { roots, walk, files, ignored })
}

/// Where merged tracks go: one folder keeps them inside; several (such as the
/// two recorder folders of one day) get them next to them, in their common
/// parent.
pub open spec fn tracks_place(roots: Seq<PlaceView>) -> PlaceView {
    common_place(roots).child("tracks"@)
}

/// Where merged tracks go.
pub fn default_out_dir(roots: &Vec<Place>) -> (r: Place)
    requires
        roots.len() > 0,
    ensures
        r@ == tracks_place(places(roots@)),
{
    common_of(roots).child("tracks")
}

/// Folders that hold results of earlier runs.
pub open spec fn result_places(roots: Seq<PlaceView>) -> Seq<PlaceView> {
    Seq::new(roots.len(), |i: int| roots[i].child("tracks"@)).push(tracks_place(roots))
}

/// Folders that a scan does not look into: those of earlier results.
pub fn skip_dirs(roots: &Vec<Place>) -> (r: Vec<Place>)
    requires
        roots.len() > 0,
    ensures
        places(r@) == result_places(places(roots@)),
{
    let ghost all = places(roots@);
    let mut out: Vec<Place> = Vec::new();
    let mut i: usize = 0;
    while i < roots.len()
        invariant
            i <= roots.len(),
            all == places(roots@),
            out.len() == i,
            forall|k: int| 0 <= k < i ==> (#[trigger] out@[k])@ == all[k].child("tracks"@),
        decreases roots.len() - i,
    {
        out.push(roots[i].child("tracks"));
        i = i + 1;
    }
    out.push(default_out_dir(roots));
    assert(places(out@) =~= result_places(all));
    out
}

/// What a walk does with an entry of a folder.
#[derive(Debug, Clone, Copy, PartialEq, Eq, Structural)]
pub enum Visit {
    Enter,
    Take,
    Leave,
}

/// Hidden entries are left out, folders are entered unless they are too deep or
/// hold results, WAV files are taken.
pub fn visit(name: &str, is_dir: bool, is_file: bool, depth: usize, max_depth: usize, place: &Place, skip: &Vec<Place>) -> (r: Visit)
    ensures
        r is Take ==> is_file && wav_name(name@),
        r is Enter ==> is_dir && depth < max_depth && forall|i: int| 0 <= i < skip.len() ==> (#[trigger] skip@[i])@ != place@,
        has_prefix(name@, "."@) ==> r is Leave,
        r == if has_prefix(name@, "."@) {
            Visit::Leave
        } else if is_dir {
            if depth < max_depth && !places(skip@).contains(place@) {
                Visit::Enter
            } else {
                Visit::Leave
            }
        } else if is_file && wav_name(name@) {
            Visit::Take
        } else {
            Visit::Leave
        },
{
    proof {
        assert forall|i: int| 0 <= i < skip.len() && !places(skip@).contains(place@) implies (#[trigger] skip@[i])@ != place@ by {
            assert(places(skip@)[i] == skip@[i]@);
        }
    }
    if starts_with(name, ".") {
        Visit::Leave
    } else if is_dir {
        if depth < max_depth && !has_place(skip, place) {
            Visit::Enter
        } else {
            Visit::Leave
        }
    } else if is_file && is_wav_name(name) {
        Visit::Take
    } else {
        Visit::Leave
    }
}

// ------------------------------------------------------------------ one file

/// Why a candidate file is not part of a recording, if so. `header` is what
/// reading its header gave, or why that failed.
pub open spec fn load_error(name: Seq<char>, header: Result<WavInfo, String>) -> Option<Seq<char>> {
    if dji_from(name, 0) is None {
        Some("kein DJI-Dateiname (DJI_NN_JJJJMMTT_HHMMSS)"@)
    } else {
        match header {
            Err(e) => Some("nicht lesbar: "@ + e@),
            Ok(info) => if info.data_len == 0 {
                Some("enthält keine Audiodaten"@)
            } else {
                None
            },
        }
    }
}

/// The part that a candidate file is, by its name and its header.
pub open spec fn part_made(file: int, path: Seq<char>, name: Seq<char>, folder_path: PlaceView, info: WavFacts) -> PartView {
    let (seq, start_secs) = dji_from(name, 0)->Some_0;
    PartView {
        file,
        path,
        name,
        folder: last_name(folder_path),
        seq,
        start: datetime_text(start_secs),
        size: info.file_size,
        gap_to_prev: None,
        full_chunk: false,
        repaired: info.repaired,
        folder_path,
        start_secs,
        info,
    }
}

/// Makes one candidate file a part. Errors are reasons for skipping it.
pub fn load_part(file: usize, path: &str, name: &str, folder_path: Place, header: Result<WavInfo, String>) -> (r: Result<Part, String>)
    ensures
        match r {
            Err(e) => load_error(name@, header) == Some(e@),
            Ok(p) => {
                &&& load_error(name@, header) is None
                &&& header matches Ok(info) && p@ == part_made(file as int, path@, name@, folder_path@, info@)
            },
        },
{
    let (seq, start_secs) = match parse_dji_name(name) {
        Some(x) => x,
        None => return Err("kein DJI-Dateiname (DJI_NN_JJJJMMTT_HHMMSS)".to_string()),
    };
    match header {
        Err(e) => {
            let mut reason = "nicht lesbar: ".to_string();
            reason.append(e.as_str());
            Err(reason)
        },
        Ok(info) => {
            if info.data_len == 0 {
                return Err("enthält keine Audiodaten".to_string());
            }
            Ok(
                Part {
                    file,
                    path: path.to_string(),
                    name: name.to_string(),
                    folder: name_of(&folder_path),
                    seq,
                    start: fmt_datetime(start_secs),
                    size: info.file_size,
                    gap_to_prev: None,
                    full_chunk: false,
                    repaired: info.repaired,
                    folder_path,
                    start_secs,
                    info,
                },
            )
        },
    }
}

// ------------------------------------------------------------------ copies

/// The places by which files are compared: four blocks, spread evenly from the
/// first to the last byte of audio.
pub open spec fn probe_at(len: int, k: int) -> int {
    let n = if FINGERPRINT_BLOCK < len {
        FINGERPRINT_BLOCK as int
    } else {
        len
    };
    (len - n) * k / 3
}

/// Length of the compared blocks and where in the audio they begin.
pub fn probes(len: u64) -> (r: (u64, Vec<u64>))
    ensures
        r.0 == if FINGERPRINT_BLOCK < len {
            FINGERPRINT_BLOCK
        } else {
            len
        },
        r.1.len() == 4,
        forall|k: int| 0 <= k < 4 ==> #[trigger] r.1@[k] == probe_at(len as int, k),
        forall|k: int| 0 <= k < 4 ==> #[trigger] r.1@[k] + r.0 <= len,
{
    let n: u64 = if FINGERPRINT_BLOCK < len {
        FINGERPRINT_BLOCK
    } else {
        len
    };
    let room: u128 = (len - n) as u128;
    let mut at: Vec<u64> = Vec::new();
    at.push(0);
    at.push((room / 3) as u64);
    at.push((room * 2 / 3) as u64);
    at.push(len - n);
    proof {
        let m = (len - n) as int;
        assert(probe_at(len as int, 0) == 0 && probe_at(len as int, 1) == m / 3 && probe_at(len as int, 2) == m * 2 / 3 && probe_at(
            len as int,
            3,
        ) == m);
        assert forall|k: int| 0 <= k < 4 implies #[trigger] at@[k] == probe_at(len as int, k) by {
            if k == 0 {
            } else if k == 1 {
            } else if k == 2 {
            } else {
            }
        }
    }
    (n, at)
}

/// Which parts share the length of their audio with another one: only those
/// can be copies.
pub fn need_fingerprint(parts: &Vec<Part>) -> (r: Vec<bool>)
    ensures
        r.len() == parts.len(),
        forall|i: int|
            0 <= i < parts.len() ==> #[trigger] r@[i] == exists|j: int|
                0 <= j < parts.len() && j != i && (#[trigger] parts@[j]).info.data_len == parts@[i].info.data_len,
{
    let mut r: Vec<bool> = Vec::new();
    let mut i: usize = 0;
    while i < parts.len()
        invariant
            i <= parts.len(),
            r.len() == i,
            forall|a: int|
                0 <= a < i ==> #[trigger] r@[a] == exists|j: int|
                    0 <= j < parts.len() && j != a && (#[trigger] parts@[j]).info.data_len == parts@[a].info.data_len,
        decreases parts.len() - i,
    {
        let mut found = false;
        let mut j: usize = 0;
        while j < parts.len()
            invariant
                i < parts.len(),
                j <= parts.len(),
                found == exists|b: int| 0 <= b < j && b != i && (#[trigger] parts@[b]).info.data_len == parts@[i as int].info.data_len,
            decreases parts.len() - j,
        {
            if j != i && parts[j].info.data_len == parts[i].info.data_len {
                found = true;
            }
            j = j + 1;
        }
        r.push(found);
        i = i + 1;
    }
    r
}

/// Whether part `i` is a copy of part `j`: same number and start by its name,
/// same length of audio, same format, same fingerprint.
pub open spec fn twin(parts: Seq<PartView>, prints: Seq<Option<u64>>, i: int, j: int) -> bool {
    &&& parts[i].seq == parts[j].seq
    &&& parts[i].start_secs == parts[j].start_secs
    &&& parts[i].info.data_len == parts[j].info.data_len
    &&& parts[i].info.fmt == parts[j].info.fmt
    &&& prints[i] is Some
    &&& prints[i] == prints[j]
}

/// The first part that part `i` is a copy of, among those from `j` on and before it.
pub open spec fn first_twin(parts: Seq<PartView>, prints: Seq<Option<u64>>, i: int, j: int) -> Option<int>
    decreases i - j,
{
    if j >= i {
        None
    } else if twin(parts, prints, i, j) {
        Some(j)
    } else {
        first_twin(parts, prints, i, j + 1)
    }
}

/// The first `n` parts without the copies.
pub open spec fn originals(parts: Seq<PartView>, prints: Seq<Option<u64>>, n: int) -> Seq<PartView>
    decreases n,
{
    if n <= 0 {
        Seq::empty()
    } else if first_twin(parts, prints, n - 1, 0) is None {
        originals(parts, prints, n - 1).push(parts[n - 1])
    } else {
        originals(parts, prints, n - 1)
    }
}

/// The copies among the first `n` parts.
pub open spec fn copies(parts: Seq<PartView>, prints: Seq<Option<u64>>, n: int) -> Seq<SkippedView>
    decreases n,
{
    if n <= 0 {
        Seq::empty()
    } else {
        match first_twin(parts, prints, n - 1, 0) {
            None => copies(parts, prints, n - 1),
            Some(j) => copies(parts, prints, n - 1).push(
                SkippedView { path: parts[n - 1].path, reason: "identische Kopie von "@ + parts[j].path },
            ),
        }
    }
}

/// The first part that part `i` is a copy of.
fn find_twin(parts: &Vec<Part>, prints: &Vec<Option<u64>>, i: usize) -> (r: Option<usize>)
    requires
        i < parts.len(),
        prints.len() == parts.len(),
    ensures
        match r {
            Some(j) => j < i && first_twin(part_views(parts@), prints@, i as int, 0) == Some(j as int),
            None => first_twin(part_views(parts@), prints@, i as int, 0) is None,
        },
{
    let ghost v = part_views(parts@);
    let mut j: usize = 0;
    while j < i
        invariant
            j <= i < parts.len(),
            prints.len() == parts.len(),
            v == part_views(parts@),
            first_twin(v, prints@, i as int, 0) == first_twin(v, prints@, i as int, j as int),
        decreases i - j,
    {
        assert(v[i as int] == parts@[i as int]@ && v[j as int] == parts@[j as int]@);
        let equal_prints = match (prints[i], prints[j]) {
            (Some(a), Some(b)) => a == b,
            _ => false,
        };
        let equal_stamps = parts[i].seq == parts[j].seq && parts[i].start_secs == parts[j].start_secs;
        if equal_prints && equal_stamps && parts[i].info.data_len == parts[j].info.data_len && same_bytes(parts[i].info.fmt.as_slice(), parts[j].info.fmt.as_slice()) {
            return Some(j);
        }
        j = j + 1;
    }
    None
}

/// Removes identical copies (same name stamp, format, length and content
/// samples), keeping the first of each. A part without a fingerprint is kept.
pub fn dedupe(parts: &Vec<Part>, prints: &Vec<Option<u64>>) -> (r: (Vec<Part>, Vec<Skipped>))
    requires
        prints.len() == parts.len(),
    ensures
        part_views(r.0@) == originals(part_views(parts@), prints@, parts.len() as int),
        skipped_views(r.1@) == copies(part_views(parts@), prints@, parts.len() as int),
{
    let ghost v = part_views(parts@);
    let mut kept: Vec<Part> = Vec::new();
    let mut dups: Vec<Skipped> = Vec::new();
    let mut i: usize = 0;
    assert(part_views(kept@) =~= Seq::<PartView>::empty());
    assert(skipped_views(dups@) =~= Seq::<SkippedView>::empty());
    while i < parts.len()
        invariant
            i <= parts.len(),
            prints.len() == parts.len(),
            v == part_views(parts@),
            part_views(kept@) == originals(v, prints@, i as int),
            skipped_views(dups@) == copies(v, prints@, i as int),
        decreases parts.len() - i,
    {
        let ghost k0 = kept@;
        let ghost d0 = dups@;
        match find_twin(parts, prints, i) {
            None => {
                let p = parts[i].copy();
                kept.push(p);
                assert(part_views(kept@) =~= part_views(k0).push(p@));
            },
            Some(j) => {
                let mut reason = "identische Kopie von ".to_string();
                reason.append(parts[j].path.as_str());
                let s = Skipped { path: parts[i].path.clone(), reason };
                dups.push(s);
                assert(skipped_views(dups@) =~= skipped_views(d0).push(s@));
            },
        }
        i = i + 1;
    }
    (kept, dups)
}

/// The first of several equal parts is the one that stays: what a copy is said
/// to be a copy of is itself no copy.
pub proof fn twin_is_original(parts: Seq<PartView>, prints: Seq<Option<u64>>, i: int)
    requires
        0 <= i < parts.len(),
        prints.len() == parts.len(),
        first_twin(parts, prints, i, 0) is Some,
    ensures
        ({
            let j = first_twin(parts, prints, i, 0)->Some_0;
            0 <= j < i && twin(parts, prints, i, j) && first_twin(parts, prints, j, 0) is None
        }),
{
    let j = first_twin(parts, prints, i, 0)->Some_0;
    lemma_first_twin(parts, prints, i, 0);
    if first_twin(parts, prints, j, 0) is Some {
        lemma_first_twin(parts, prints, j, 0);
        let k = first_twin(parts, prints, j, 0)->Some_0;
        assert(twin(parts, prints, i, k));
    }
}

/// A first twin is a twin, and none comes before it.
proof fn lemma_first_twin(parts: Seq<PartView>, prints: Seq<Option<u64>>, i: int, j: int)
    requires
        0 <= j,
    ensures
        match first_twin(parts, prints, i, j) {
            Some(k) => j <= k < i && twin(parts, prints, i, k) && (forall|m: int| j <= m < k ==> !twin(parts, prints, i, m)),
            None => forall|m: int| j <= m < i ==> !twin(parts, prints, i, m),
        },
    decreases i - j,
{
    if j < i && !twin(parts, prints, i, j) {
        lemma_first_twin(parts, prints, i, j + 1);
    }
}

/// Each part is kept or reported as a copy, once.
pub proof fn nothing_is_lost(parts: Seq<PartView>, prints: Seq<Option<u64>>, n: int)
    requires
        0 <= n <= parts.len(),
    ensures
        originals(parts, prints, n).len() + copies(parts, prints, n).len() == n,
    decreases n,
{
    if n > 0 {
        nothing_is_lost(parts, prints, n - 1);
    }
}

/// Every folder given is a root, and so is the folder of every WAV file given;
/// no other folder is one, and none comes twice.
pub proof fn roots_are_the_folders_given(g: Seq<GivenView>, n: int)
    requires
        0 <= n <= g.len(),
    ensures
        roots_of(g, n).no_duplicates(),
        forall|i: int| 0 <= i < n && (#[trigger] g[i]).is_dir ==> roots_of(g, n).contains(g[i].place),
        forall|i: int, p: PlaceView, name: Seq<char>|
            0 <= i < n && !(#[trigger] g[i]).is_dir && g[i].place == #[trigger] p.child(name) && wav_name(name) ==> roots_of(g, n).contains(p),
        forall|p: PlaceView| #[trigger]
            roots_of(g, n).contains(p) ==> exists|i: int|
                0 <= i < n && ((#[trigger] g[i]).is_dir && g[i].place == p || !g[i].is_dir && (exists|name: Seq<char>|
                    #[trigger] p.child(name) == g[i].place && wav_name(name))),
    decreases n,
{
    if n > 0 {
        roots_are_the_folders_given(g, n - 1);
        let before = roots_of(g, n - 1);
        let all = roots_of(g, n);
        let x = g[n - 1];
        assert forall|p: PlaceView| #[trigger] before.contains(p) implies all.contains(p) by {
            let k = choose|k: int| 0 <= k < before.len() && before[k] == p;
            assert(all[k] == p);
        }
        if x.is_dir && !before.contains(x.place) {
            assert(all.last() == x.place);
            assert(all.no_duplicates());
        }
        if !x.is_dir && x.place.parts.len() > 0 && wav_name(last_name(x.place)) {
            assert(x.place.up().child(last_name(x.place)).parts =~= x.place.parts);
            if !before.contains(x.place.up()) {
                assert(all.last() == x.place.up());
            }
        }
        assert forall|i: int, p: PlaceView, name: Seq<char>|
            0 <= i < n && !(#[trigger] g[i]).is_dir && g[i].place == #[trigger] p.child(name) && wav_name(name) implies all.contains(p) by {
            if i == n - 1 {
                assert(p.parts =~= x.place.up().parts);
                assert(p == x.place.up());
                if !before.contains(p) {
                    assert(all.last() == p);
                }
            }
        }
        assert forall|p: PlaceView| #[trigger] all.contains(p) implies exists|i: int|
            0 <= i < n && ((#[trigger] g[i]).is_dir && g[i].place == p || !g[i].is_dir && (exists|name: Seq<char>|
                #[trigger] p.child(name) == g[i].place && wav_name(name))) by {
            let k = choose|k: int| 0 <= k < all.len() && all[k] == p;
            if k < before.len() {
                assert(before[k] == p);
                assert(before.contains(p));
            } else {
                assert(x.is_dir && x.place == p || p == x.place.up());
                if !x.is_dir {
                    assert(p.child(last_name(x.place)) == x.place);
                }
                assert(g[n - 1] == x);
            }
        }
    }
}

/// How many of the first `n` inputs are folders.
pub open spec fn count_dirs(g: Seq<GivenView>, n: int) -> int
    decreases n,
{
    if n <= 0 {
        0
    } else {
        count_dirs(g, n - 1) + if g[n - 1].is_dir {
            1int
        } else {
            0
        }
    }
}

/// Of several equal folders given, the first is looked into; every WAV file
/// given is taken, in the order given, and every other file is reported.
pub proof fn inputs_are_sorted_once(g: Seq<GivenView>, n: int)
    requires
        0 <= n <= g.len(),
    ensures
        forall|i: int|
            0 <= i < n ==> (#[trigger] walk_of(g, n).contains(i) <==> g[i].is_dir && (forall|k: int|
                0 <= k < i && (#[trigger] g[k]).is_dir ==> g[k].place != g[i].place)),
        forall|i: int| 0 <= i < n ==> (#[trigger] wavs_of(g, n).contains(i) <==> !g[i].is_dir && wav_name(last_name(g[i].place))),
        wavs_of(g, n).len() + others_of(g, n).len() + count_dirs(g, n) == n,
        forall|k: int| 0 <= k < wavs_of(g, n).len() ==> 0 <= #[trigger] wavs_of(g, n)[k] < n,
        forall|j: int, k: int| 0 <= j < k < wavs_of(g, n).len() ==> #[trigger] wavs_of(g, n)[j] < #[trigger] wavs_of(g, n)[k],
        forall|k: int| 0 <= k < walk_of(g, n).len() ==> 0 <= #[trigger] walk_of(g, n)[k] < n,
        forall|j: int, k: int| 0 <= j < k < walk_of(g, n).len() ==> #[trigger] walk_of(g, n)[j] < #[trigger] walk_of(g, n)[k],
    decreases n,
{
    if n > 0 {
        inputs_are_sorted_once(g, n - 1);
        let w0 = walk_of(g, n - 1);
        let w = walk_of(g, n);
        let v0 = wavs_of(g, n - 1);
        let v = wavs_of(g, n);
        assert forall|i: int| 0 <= i < n implies (#[trigger] w.contains(i) <==> g[i].is_dir && (forall|k: int|
            0 <= k < i && (#[trigger] g[k]).is_dir ==> g[k].place != g[i].place)) by {
            if i < n - 1 {
                if w0.contains(i) {
                    let k = choose|k: int| 0 <= k < w0.len() && w0[k] == i;
                    assert(w[k] == i);
                }
                if w.contains(i) {
                    let k = choose|k: int| 0 <= k < w.len() && w[k] == i;
                    assert(w0[k] == i);
                    assert(w0.contains(i));
                }
            } else {
                if w.len() > w0.len() {
                    assert(w.last() == i);
                }
                if w.contains(i) {
                    let k = choose|k: int| 0 <= k < w.len() && w[k] == i;
                    if k < w0.len() {
                        assert(w0[k] == i);
                    }
                }
            }
        }
        assert forall|i: int| 0 <= i < n implies (#[trigger] v.contains(i) <==> !g[i].is_dir && wav_name(last_name(g[i].place))) by {
            if i < n - 1 {
                if v0.contains(i) {
                    let k = choose|k: int| 0 <= k < v0.len() && v0[k] == i;
                    assert(v[k] == i);
                }
                if v.contains(i) {
                    let k = choose|k: int| 0 <= k < v.len() && v[k] == i;
                    assert(v0[k] == i);
                    assert(v0.contains(i));
                }
            } else {
                if v.len() > v0.len() {
                    assert(v.last() == i);
                }
                if v.contains(i) {
                    let k = choose|k: int| 0 <= k < v.len() && v[k] == i;
                    if k < v0.len() {
                        assert(v0[k] == i);
                    }
                }
            }
        }
    }
}

/// Files are compared from the first byte of their audio to the last: the first
/// block begins where the audio does, the last one ends where it does, and the
/// blocks between lie evenly, to a byte.
pub proof fn probes_span_the_audio(len: int, k: int)
    requires
        0 <= len,
        0 <= k < 3,
    ensures
        probe_at(len, 0) == 0,
        65_536 <= len ==> probe_at(len, 3) + 65_536 == len,
        len <= 65_536 ==> probe_at(len, k) == 0 && probe_at(len, 3) == 0,
        0 <= probe_at(len, k) <= probe_at(len, k + 1),
        65_536 <= len ==> -3 < 3 * (probe_at(len, k + 1) - probe_at(len, k)) - (len - 65_536) < 3,
{
    let n = if FINGERPRINT_BLOCK < len {
        FINGERPRINT_BLOCK as int
    } else {
        len
    };
    let d = len - n;
    assert(d * 0 == 0 && d * 1 == d && d * 2 == 2 * d && d * 3 == 3 * d) by (nonlinear_arith);
    assert(k == 0 || k == 1 || k == 2);
}

proof fn lemma_twin_found(parts: Seq<PartView>, prints: Seq<Option<u64>>, i: int, k: int, j: int)
    requires
        0 <= k <= j < i < parts.len(),
        twin(parts, prints, i, j),
    ensures
        first_twin(parts, prints, i, k) is Some,
        k <= first_twin(parts, prints, i, k)->Some_0 <= j,
    decreases j - k,
{
    if k < j && !twin(parts, prints, i, k) {
        lemma_twin_found(parts, prints, i, k + 1, j);
    }
}

/// Of parts that are alike in number, start, length, format and content only the
/// first is kept, and the others are told as copies of it.
pub proof fn one_of_each_is_kept(parts: Seq<PartView>, prints: Seq<Option<u64>>, i: int, j: int)
    requires
        0 <= j < i < parts.len(),
        prints.len() == parts.len(),
        parts[i].seq == parts[j].seq,
        parts[i].start_secs == parts[j].start_secs,
        parts[i].info.data_len == parts[j].info.data_len,
        parts[i].info.fmt == parts[j].info.fmt,
        prints[i] is Some,
        prints[i] == prints[j],
    ensures
        originals(parts, prints, i + 1) == originals(parts, prints, i),
        copies(parts, prints, i + 1).last().path == parts[i].path,
        exists|k: int|
            0 <= k <= j && #[trigger] originals(parts, prints, k + 1) == originals(parts, prints, k).push(parts[k]) && parts[k].seq == parts[i].seq
                && parts[k].start_secs == parts[i].start_secs && parts[k].info.data_len == parts[i].info.data_len && prints[k] == prints[i] && copies(
                parts,
                prints,
                i + 1,
            ).last().reason == "identische Kopie von "@ + parts[k].path,
{
    lemma_twin_found(parts, prints, i, 0, j);
    twin_is_original(parts, prints, i);
    let k = first_twin(parts, prints, i, 0)->Some_0;
    assert(originals(parts, prints, k + 1) == originals(parts, prints, k).push(parts[k]));
}

proof fn lemma_no_twin(parts: Seq<PartView>, prints: Seq<Option<u64>>, i: int, k: int)
    requires
        0 <= k <= i < parts.len(),
        prints.len() == parts.len(),
        forall|j: int|
            0 <= j < i ==> (#[trigger] parts[j]).seq != parts[i].seq || parts[j].start_secs != parts[i].start_secs || parts[j].info.data_len
                != parts[i].info.data_len || parts[j].info.fmt != parts[i].info.fmt || prints[j] != prints[i] || prints[i] is None,
    ensures
        first_twin(parts, prints, i, k) is None,
    decreases i - k,
{
    if k < i {
        assert(parts[k] == parts[k]);
        lemma_no_twin(parts, prints, i, k + 1);
    }
}

/// A part that differs from every one before it in number, start, length,
/// format or content, or whose content is not known, is kept.
pub proof fn different_parts_are_kept(parts: Seq<PartView>, prints: Seq<Option<u64>>, i: int)
    requires
        0 <= i < parts.len(),
        prints.len() == parts.len(),
        forall|j: int|
            0 <= j < i ==> (#[trigger] parts[j]).seq != parts[i].seq || parts[j].start_secs != parts[i].start_secs || parts[j].info.data_len
                != parts[i].info.data_len || parts[j].info.fmt != parts[i].info.fmt || prints[j] != prints[i] || prints[i] is None,
    ensures
        originals(parts, prints, i + 1) == originals(parts, prints, i).push(parts[i]),
        copies(parts, prints, i + 1) == copies(parts, prints, i),
{
    lemma_no_twin(parts, prints, i, 0);
}

/// A file with the name of a recorder and a readable header that holds audio is
/// a part, which begins when its name says; any other is skipped, and told why.
pub proof fn recorder_files_are_parts(name: Seq<char>, header: Result<WavInfo, String>, file: int, path: Seq<char>, folder: PlaceView, number: int, start: int)
    ensures
        dji_from(name, 0) is Some && (header matches Ok(info) && info.data_len > 0) <==> load_error(name, header) is None,
        dji_from(name, 0) is None ==> load_error(name, header) == Some("kein DJI-Dateiname (DJI_NN_JJJJMMTT_HHMMSS)"@),
        header matches Ok(info) ==> dji_from(name, 0) == Some((number, start)) ==> ({
            let p = part_made(file, path, name, folder, info@);
            &&& p.seq == number
            &&& p.start_secs == start
            &&& p.start == datetime_text(start)
            &&& p.size == info.file_size
            &&& p.repaired == info.repaired
            &&& p.path == path && p.name == name && p.file == file
            &&& p.gap_to_prev is None && !p.full_chunk
            &&& forall|up: PlaceView, last: Seq<char>| folder == #[trigger] up.child(last) ==> p.folder == last
        }),
{
}

/// One folder keeps its tracks inside; two folders in the same place get them
/// next to them. Nothing that was written there is scanned again.
pub proof fn tracks_lie_with_their_sources(p: PlaceView, a: Seq<char>, b: Seq<char>, roots: Seq<PlaceView>, i: int)
    requires
        p.parts.len() > 0,
        a != b,
        0 <= i < roots.len(),
    ensures
        tracks_place(seq![p]) == p.child("tracks"@),
        tracks_place(seq![p.child(a), p.child(b)]) == p.child("tracks"@),
        result_places(roots).contains(roots[i].child("tracks"@)),
        result_places(roots).contains(tracks_place(roots)),
{
    neighbours_share_their_folder(p, a, b);
    assert(result_places(roots)[i] == roots[i].child("tracks"@));
    assert(result_places(roots).last() == tracks_place(roots));
}

} // verus!
