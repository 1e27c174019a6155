use prepare_audio::group::{arrange, gap_of, group, links};
use prepare_audio::checks::{is_countable, is_placeable, is_sound};
use prepare_audio::joins::{chains, choose_joins, doubts, Link};
use prepare_audio::names::is_own_output;
use prepare_audio::paths::{common_of, in_sequence, Place};
use prepare_audio::recording::Recording;
use prepare_audio::scan::{dedupe, default_out_dir, intake, load_part, need_fingerprint, probes, skip_dirs, visit, Given, Options, Part, Skipped, Visit};
use prepare_audio::survey::seen;
use prepare_audio::wav::{read_info, write_header, RIFF_LIMIT};

/// Synthetic chunks are tiny, so any repeated file size counts as a chunk.
fn small() -> Options {
    Options { min_chunk_bytes: 0, ..Options::default() }
}

fn place(path: &str) -> Place {
    Place { root: "/".to_string(), parts: path.split('/').filter(|s| !s.is_empty()).map(|s| s.to_string()).collect() }
}

fn fmt_float(sr: u32) -> Vec<u8> {
    let mut f = Vec::new();
    f.extend_from_slice(&3u16.to_le_bytes());
    f.extend_from_slice(&1u16.to_le_bytes());
    f.extend_from_slice(&sr.to_le_bytes());
    f.extend_from_slice(&(sr * 4).to_le_bytes());
    f.extend_from_slice(&4u16.to_le_bytes());
    f.extend_from_slice(&32u16.to_le_bytes());
    f
}

/// A file: folder, name, frames, and which of the recorders' signals it holds.
struct Source {
    folder: &'static str,
    name: &'static str,
    frames: u64,
    signal: u32,
}

fn file(folder: &'static str, name: &'static str, frames: u64, signal: u32) -> Source {
    Source { folder, name, frames, signal }
}

fn part_of(i: usize, s: &Source) -> Result<Part, String> {
    let mut bytes = Vec::new();
    write_header(&mut bytes, &fmt_float(8000), s.frames * 4, s.frames, RIFF_LIMIT);
    bytes.extend(vec![0u8; (s.frames * 4) as usize]);
    let info = read_info(&bytes).map_err(|e| e.message());
    load_part(i, &format!("/{}/{}", s.folder, s.name), s.name, place(s.folder), info)
}

/// Groups parts; a join costs little where both sides hold the same signal.
fn recordings_of(sources: &[Source], parts: Vec<Part>) -> Vec<Recording> {
    let opt = small();
    let parts = arrange(parts, &opt);
    assert!(is_countable(&parts));
    let costs: Vec<Option<i64>> = links(&parts, &opt)
        .iter()
        .map(|&(a, b)| Some(if sources[parts[a].file].signal == sources[parts[b].file].signal { -1_000_000_000 } else { 5_000_000_000 }))
        .collect();
    group(&parts, &opt, &costs)
}

fn all_parts(sources: &[Source]) -> Vec<Part> {
    sources.iter().enumerate().map(|(i, s)| part_of(i, s).unwrap()).collect()
}

#[test]
fn short_recording_is_never_continued() {
    let sources = [
        file("short/4", "DJI_06_20260906_173217.WAV", 72_000, 4),
        file("short/5", "DJI_06_20260906_173229.WAV", 80_000, 5),
        file("short/5", "DJI_06_20260906_173239.WAV", 32_000, 5),
        file("short/4", "DJI_07_20260906_173233.WAV", 80_000, 4),
        file("short/4", "DJI_07_20260906_173243.WAV", 20_000, 4),
    ];
    let r = recordings_of(&sources, all_parts(&sources));
    let shape: Vec<(String, usize)> = r.iter().map(|r| (r.parts[0].name.clone(), r.parts.len())).collect();
    assert_eq!(
        shape,
        [
            ("DJI_06_20260906_173217.WAV".to_string(), 1),
            ("DJI_06_20260906_173229.WAV".to_string(), 2),
            ("DJI_07_20260906_173233.WAV".to_string(), 2)
        ]
    );
}

#[test]
fn two_folders_share_one_tracks_folder() {
    let given = |p: &str| Given { path: format!("/{p}"), place: place(p), is_dir: true };
    let both = intake(&vec![given("day/4"), given("day/5")]).unwrap();
    assert!(default_out_dir(&both.roots).is_same(&place("day/tracks")));
    assert!(both.ignored.is_empty(), "{:?}", both.ignored);
    let skip = skip_dirs(&both.roots);
    assert_eq!(visit("tracks", true, false, 0, 24, &place("day/4/tracks"), &skip), Visit::Leave);
    assert_eq!(visit("DJI_01_20260906_100000.WAV", false, true, 0, 24, &place("day/4/DJI_01_20260906_100000.WAV"), &skip), Visit::Take);
    let sources = [file("day/4", "DJI_01_20260906_100000.WAV", 8000, 4), file("day/5", "DJI_01_20260906_100500.WAV", 8000, 5)];
    assert_eq!(recordings_of(&sources, all_parts(&sources)).len(), 2);
    // Found in any order, one of them twice, beside a result of an earlier run.
    let found: Vec<Place> = ["day/5/DJI_01_20260906_100500.WAV", "day/4/260906_S173233-E181430_D004157_4_2.wav", "day/4/DJI_01_20260906_100000.WAV", "day/5/DJI_01_20260906_100500.WAV"]
        .iter()
        .map(|p| place(p))
        .collect();
    let files_seen = seen(&found);
    assert_eq!(files_seen.len(), 2);
    assert!(found[files_seen[0]].is_same(&found[2]) && found[files_seen[1]].is_same(&found[0]));
    let single = intake(&vec![given("day/4")]).unwrap();
    assert!(default_out_dir(&single.roots).is_same(&place("day/4/tracks")));
    assert!(is_own_output("260906_S173233-E181430_D004157_4_2.wav"));
    assert!(!is_own_output("DJI_07_20260906_173233.WAV"));
}

#[test]
fn paths_come_in_order_and_once() {
    let relative = Place { root: String::new(), parts: vec!["a".to_string()] };
    let v = vec![relative, place("b"), place("a/z"), place("a"), place("b"), place("a b"), place("a/B")];
    assert_eq!(in_sequence(&v).iter().map(|&i| v[i].parts.join("/")).collect::<Vec<_>>(), ["a", "a/B", "a/z", "a b", "b", "a"]);
    assert_eq!(in_sequence(&vec![]), Vec::<usize>::new());
    let up = vec![place("x/-a"), place("x/../b"), place("x/.a"), place("x")];
    assert_eq!(in_sequence(&up), [3, 1, 0, 2]);
}

#[test]
fn only_files_of_one_stamp_are_copies() {
    let sources = [
        file("a", "DJI_01_20260906_100000.WAV", 800, 1),
        file("b", "DJI_01_20260906_100000.WAV", 800, 1),
        file("c", "DJI_02_20260906_100000.WAV", 800, 1),
        file("d", "DJI_01_20260906_100001.WAV", 800, 1),
    ];
    let parts: Vec<Part> = sources.iter().enumerate().map(|(i, s)| part_of(i, s).unwrap()).collect();
    assert_eq!(need_fingerprint(&parts), [true; 4]);
    let (kept, copies) = dedupe(&parts, &vec![Some(7); 4]);
    assert_eq!(kept.iter().map(|p| p.file).collect::<Vec<_>>(), [0, 2, 3]);
    assert_eq!(copies.iter().map(|s| s.path.as_str()).collect::<Vec<_>>(), ["/b/DJI_01_20260906_100000.WAV"]);
}

/// Two transmitters, identical file names and start times, chunks shuffled into
/// the "wrong" folders, a copy, AppleDouble junk and old output.
#[test]
fn messy_two_transmitters() {
    let sources = [
        file("m", "DJI_01_20260101_100020.WAV", 32_000, 1),
        file("m", "notes.wav", 800, 1),
        file("m/a", "._DJI_01_20260101_100000.WAV", 1, 9),
        file("m/a", "DJI_01_20260101_100000.WAV", 80_000, 1),
        file("m/a", "DJI_01_20260101_100010.WAV", 80_000, 2),
        file("m/a", "DJI_02_20260101_110000.WAV", 16_000, 1),
        file("m/b", "DJI_01_20260101_100000.WAV", 80_000, 2),
        file("m/b/x", "DJI_01_20260101_100010.WAV", 80_000, 1),
        file("m/copy", "DJI_01_20260101_100000 (1).WAV", 80_000, 1),
        file("m/deep/y/z", "DJI_01_20260101_100020.WAV", 24_000, 2),
        file("m/tracks", "DJI_09_20260101_120000.WAV", 16_000, 1),
    ];
    let root = intake(&vec![Given { path: "/m".to_string(), place: place("m"), is_dir: true }]).unwrap();
    let skip = skip_dirs(&root.roots);
    let mut parts = Vec::new();
    let mut ignored: Vec<Skipped> = Vec::new();
    for (i, s) in sources.iter().enumerate() {
        // Every folder on the way, then the file.
        let names: Vec<&str> = s.folder.split('/').collect();
        let entered = (1..names.len()).all(|k| visit(names[k], true, false, k - 1, 24, &place(&names[..=k].join("/")), &skip) == Visit::Enter);
        if !entered || visit(s.name, false, true, 0, 24, &place(&format!("{}/{}", s.folder, s.name)), &skip) != Visit::Take {
            continue;
        }
        match part_of(i, s) {
            Ok(p) => parts.push(p),
            Err(reason) => ignored.push(Skipped { path: s.name.to_string(), reason }),
        }
    }
    let need = need_fingerprint(&parts);
    let prints: Vec<Option<u64>> =
        parts.iter().zip(&need).map(|(p, n)| if *n { Some(sources[p.file].signal as u64 * 1_000_000_000_000 + p.start_secs as u64) } else { None }).collect();
    let (parts, duplicates) = dedupe(&parts, &prints);
    let recs = recordings_of(&sources, parts);
    let rel = |r: &Recording| -> Vec<String> { r.parts.iter().map(|p| p.path[3..].to_string()).collect() };
    assert_eq!(recs.len(), 3);
    assert_eq!(duplicates.len(), 1);
    assert!(duplicates[0].path.ends_with("(1).WAV"));
    assert_eq!(duplicates[0].reason, "identische Kopie von /m/a/DJI_01_20260101_100000.WAV");
    assert_eq!(ignored.len(), 1);
    assert!(ignored[0].path.ends_with("notes.wav"));

    assert_eq!(rel(&recs[0]), ["a/DJI_01_20260101_100000.WAV", "b/x/DJI_01_20260101_100010.WAV", "DJI_01_20260101_100020.WAV"]);
    assert_eq!(recs[0].frames, 192_000);
    assert_eq!(recs[0].out_name, "260101_S100000-E100024_D000024_a.wav");
    assert_eq!(rel(&recs[1]), ["b/DJI_01_20260101_100000.WAV", "a/DJI_01_20260101_100010.WAV", "deep/y/z/DJI_01_20260101_100020.WAV"]);
    assert_eq!(recs[1].frames, 184_000);
    assert_eq!(recs[2].parts.len(), 1);
    assert_eq!(recs[2].seq, 2);
    assert!(is_placeable(&recs[2]));
}

#[test]
fn time_gap_splits_recordings() {
    let sources = [
        file("gap", "DJI_01_20260101_100000.WAV", 80_000, 1),
        // Starts 5 s after the first file ended: not a continuation.
        file("gap", "DJI_01_20260101_100015.WAV", 80_000, 1),
    ];
    assert_eq!(recordings_of(&sources, all_parts(&sources)).len(), 2);
}

#[test]
fn gaps_are_counted_in_frames() {
    let sources = [file("g", "DJI_01_20260101_100000.WAV", 80_000, 1), file("g", "DJI_01_20260101_100012.WAV", 80_000, 1)];
    let p = all_parts(&sources);
    // 12 s after the start, 10 s long: two seconds of 8000 frames each.
    assert_eq!(gap_of(&p[0], &p[1]), 16_000);
    assert!(is_sound(&p[0].info));
    assert_eq!(links(&arrange(p, &small()), &small()), [(0, 1)]);
}

#[test]
fn unreadable_files_are_skipped_with_a_reason() {
    let p = |name: &str, header| load_part(0, "/x", name, place("x"), header).unwrap_err();
    assert_eq!(p("song.wav", Err("kaputt".to_string())), "kein DJI-Dateiname (DJI_NN_JJJJMMTT_HHMMSS)");
    assert_eq!(p("DJI_01_20260101_100000.WAV", Err("kaputt".to_string())), "nicht lesbar: kaputt");
    let empty = part_of(0, &file("e", "DJI_01_20260101_100000.WAV", 0, 1));
    assert_eq!(empty.unwrap_err(), "enthält keine Audiodaten");
}

#[test]
fn inputs_are_sorted_into_folders_and_files() {
    let given = |p: &str, is_dir| Given { path: format!("/{p}"), place: place(p), is_dir };
    let k = intake(&vec![given("a", true), given("a", true), given("b/x.wav", false), given("b/y.txt", false)]).unwrap();
    assert_eq!(k.roots.len(), 2);
    assert_eq!((k.walk, k.files), (vec![0], vec![2]));
    assert_eq!((k.ignored[0].path.as_str(), k.ignored[0].reason.as_str()), ("/b/y.txt", "keine WAV-Datei"));
    assert_eq!(intake(&vec![given("b/y.txt", false)]).unwrap_err(), "Keine Ordner oder WAV-Dateien angegeben.");
}

#[test]
fn common_folder_leads_all() {
    let c = common_of(&vec![place("u/day/4"), place("u/day/5"), place("u/day/5/x")]);
    assert!(c.is_same(&place("u/day")));
    let none = common_of(&vec![place("a/4"), place("b/5")]);
    assert!(none.is_same(&place("a/4")));
}

#[test]
fn fingerprints_take_four_blocks() {
    assert_eq!(probes(300_000), (65_536, vec![0, 78_154, 156_309, 234_464]));
    assert_eq!(probes(100), (100, vec![0, 0, 0, 0]));
}

#[test]
fn cheapest_joins_are_chosen_first() {
    let l = vec![Link { a: 0, b: 2, score: -5 }, Link { a: 0, b: 3, score: 10 }, Link { a: 1, b: 2, score: 20 }, Link { a: 1, b: 3, score: 30 }];
    let j = choose_joins(&l, 4);
    assert_eq!((j.next.clone(), j.prev.clone()), (vec![Some(2), Some(3), None, None], vec![None, None, Some(0), Some(1)]));
    assert_eq!(chains(&j), [vec![0, 2], vec![1, 3]]);
    // All scores lie within the margin of doubt.
    assert_eq!(doubts(&l, &j.chosen, 4), [true, true, true, true]);
}
