use prepare_audio::alignment::{span, Alignment};
use prepare_audio::audio::check_found;
use prepare_audio::checks::{have_clocks, is_countable, is_plannable};
use prepare_audio::compare::{judge, Fit, Search};
use prepare_audio::group::links;
use prepare_audio::loudness::Loudness;
use prepare_audio::master::{FoundAudio, Measured};
use prepare_audio::merge::recording_file;
use prepare_audio::names::parse_track_name;
use prepare_audio::pairing::{order_tracks, time_of};
use prepare_audio::paths::Place;
use prepare_audio::phases::{Evidence, Kind};
use prepare_audio::plan::{Pair, Phase};
use prepare_audio::plans::{master_plan, sync_plan};
use prepare_audio::scan::{Given, Options, Skipped, Visit};
use prepare_audio::sources::{intake, visit};
use prepare_audio::survey::{conclude, load_parts, prepare, Aside, Candidate};
use prepare_audio::track::{make_track, needs_scan, Found, Segment, Source, Track};
use prepare_audio::wav::{output_size, read_info, write_header, HeaderReader, Stage, WavInfo, RIFF_LIMIT};
use prepare_audio::windows::frame_windows;

const S: i64 = 1_000_000_000;

fn place(path: &str) -> Place {
    Place { root: "/".to_string(), parts: path.split('/').filter(|s| !s.is_empty()).map(|s| s.to_string()).collect() }
}

fn fmt_float(sr: u32) -> Vec<u8> {
    let mut f = Vec::new();
    f.extend_from_slice(&3u16.to_le_bytes());
    f.extend_from_slice(&1u16.to_le_bytes());
    f.extend_from_slice(&sr.to_le_bytes());
    f.extend_from_slice(&(sr * 4).to_le_bytes());
    f.extend_from_slice(&4u16.to_le_bytes());
    f.extend_from_slice(&32u16.to_le_bytes());
    f
}

/// What the header of a float file with so many frames says.
fn header(frames: u64) -> WavInfo {
    let mut head = Vec::new();
    write_header(&mut head, &fmt_float(8000), frames * 4, frames, RIFF_LIMIT);
    let mut r = HeaderReader::new(head.len() as u64 + frames * 4);
    while let Some((at, n)) = r.request() {
        r.feed(&head[at as usize..(at + n) as usize]);
    }
    match r.stage {
        Stage::Over(Ok(i)) => i,
        other => panic!("{other:?}"),
    }
}

fn candidate(folder: &str, name: &str, header: Result<WavInfo, String>) -> Candidate {
    Candidate { path: format!("/{folder}/{name}"), name: name.to_string(), folder: place(folder), header }
}

fn options() -> Options {
    Options { min_chunk_bytes: 0, ..Options::default() }
}

#[test]
fn scan_goes_from_files_to_recordings() {
    let found = vec![
        candidate("day/4", "DJI_01_20260906_100000.WAV", Ok(header(80_000))),
        candidate("day/4", "DJI_01_20260906_100010.WAV", Ok(header(40_000))),
        candidate("day/4", "notes.wav", Ok(header(8_000))),
        candidate("day/4", "DJI_02_20260906_110000.WAV", Err("kaputt".to_string())),
        candidate("day/backup", "DJI_01_20260906_100000.WAV", Ok(header(80_000))),
        candidate("day/4", "DJI_03_20260906_120000.WAV", Ok(header(0))),
        candidate("day/4", "DJI_04_20260906_130000.WAV", Ok(header(80_000))),
    ];
    let given = vec![Skipped { path: "/day/a.txt".to_string(), reason: "keine WAV-Datei".to_string() }];
    let (parts, ignored) = load_parts(&found, given);
    assert_eq!(parts.iter().map(|p| p.file).collect::<Vec<_>>(), [0, 1, 4, 6]);
    let reasons: Vec<&str> = ignored.iter().map(|s| s.reason.as_str()).collect();
    assert_eq!(
        reasons,
        ["keine WAV-Datei", "kein DJI-Dateiname (DJI_NN_JJJJMMTT_HHMMSS)", "nicht lesbar: kaputt", "enthält keine Audiodaten"]
    );
    assert_eq!(parts.len() + ignored.len(), found.len() + 1);

    let (parts, duplicates) = prepare(&parts, &vec![Some(7), None, Some(7), Some(8)], &options());
    assert_eq!(duplicates.len(), 1);
    assert_eq!(duplicates[0].reason, "identische Kopie von /day/4/DJI_01_20260906_100000.WAV");
    assert_eq!(parts.iter().map(|p| (p.file, p.full_chunk)).collect::<Vec<_>>(), [(0, true), (1, false), (6, true)]);

    assert!(is_countable(&parts));
    assert_eq!(links(&parts, &options()), [(0, 1)]);
    let scan = conclude(vec![place("day/4"), place("day/backup")], found.len(), &parts, &options(), &vec![Some(-1_000_000_000)], Aside { duplicates, ignored });
    assert!(scan.default_out_dir.is_same(&place("day/tracks")));
    assert_eq!((scan.files_seen, scan.duplicates.len(), scan.ignored.len()), (7, 1, 4));
    let in_recordings: usize = scan.recordings.iter().map(|r| r.parts.len()).sum();
    let skipped = scan.ignored.iter().filter(|s| s.reason != "keine WAV-Datei").count();
    assert_eq!(scan.files_seen, in_recordings + scan.duplicates.len() + skipped);
    let shape: Vec<(usize, usize, &str)> = scan.recordings.iter().map(|r| (r.id, r.parts.len(), r.out_name.as_str())).collect();
    assert_eq!(shape, [(0, 2, "260906_S100000-E100015_D000015_4.wav"), (1, 1, "260906_S130000-E130010_D000010_4.wav")]);
}

#[test]
fn recording_files_hold_all_their_parts() {
    let found = vec![
        candidate("4", "DJI_01_20260906_100000.WAV", Ok(header(80_000))),
        candidate("4", "DJI_01_20260906_100010.WAV", Ok(header(40_000))),
    ];
    let (parts, _) = load_parts(&found, vec![]);
    let (parts, duplicates) = prepare(&parts, &vec![None, None], &options());
    assert!(duplicates.is_empty());
    let scan = conclude(vec![place("4")], 2, &parts, &options(), &vec![None; links(&parts, &options()).len()], Aside { duplicates, ignored: vec![] });
    assert_eq!(scan.recordings.len(), 1, "the largest file may be a chunk");
    let f = recording_file(&scan.recordings[0].parts);
    let runs: Vec<(usize, u64, u64)> = f.runs.iter().map(|r| (r.part, r.offset, r.len)).collect();
    let at = parts[0].info.data_offset;
    assert_eq!(runs, [(0, at, 320_000), (1, at, 160_000)]);
    assert!(!f.pad);
    let bytes = f.header.len() as u64 + runs.iter().map(|r| r.2).sum::<u64>();
    assert_eq!((bytes, bytes), (output_size(16, 480_000), scan.recordings[0].output_bytes));
    let mut whole = f.header.clone();
    whole.extend(vec![0u8; 480_000]);
    let info = read_info(&whole).unwrap();
    assert_eq!((info.frames(), info.repaired, info.file_size), (120_000, false, bytes));
}

fn track(name: &str, secs: u64, file: usize) -> Track {
    let (start, label) = parse_track_name(name).unwrap();
    let info = header(secs * 8000);
    let segments = vec![Segment { file, path: format!("/t/{name}"), offset: info.data_offset, len: info.data_len }];
    make_track(name.to_string(), format!("/t/{name}"), label, start, info, segments)
}

fn two_tracks() -> Vec<Track> {
    let mut v = vec![track("260101_S100000-E101000_D001000_5.wav", 600, 0), track("260101_S100000-E101000_D001000_4.wav", 600, 1)];
    order_tracks(&mut v);
    v
}

fn aligned(tracks: &Vec<Track>, map: Alignment) -> Pair {
    let fit = Fit { map, residual: 1_000_000, windows: 8 };
    let mut p = judge(tracks, 0, 1, Some(Search { prominence: 20_000_000, windows: 8, fit: Some(fit) })).pair;
    let (start, end) = span(&p.map, time_of(&tracks[0]), time_of(&tracks[1]));
    p.phases = vec![Phase { kind: Kind::Together, start, end, evidence: Evidence { count: 50, hits: 45, measured: 0, coherence: 0 } }];
    p
}

#[test]
fn synchronising_is_planned_as_a_whole() {
    let tracks = two_tracks();
    let pairs = vec![aligned(&tracks, Alignment { offset: 2 * S, drift: 0 })];
    assert!(is_plannable(&tracks, &pairs) && have_clocks(&tracks));
    let plan = sync_plan(vec![place("day/tracks")], Source::Tracks, tracks, pairs, vec![]);
    assert!(plan.default_out_dir.is_same(&place("day/sync")));
    assert_eq!(plan.source.text(), "tracks");
    assert_eq!(plan.labels.iter().map(|l| l.text.as_str()).collect::<Vec<_>>(), ["4", "5"]);
    assert_eq!((plan.tracks.len(), plan.pairs.len(), plan.ignored.len()), (2, 1, 0));
    let names: Vec<&str> = plan.items.iter().map(|i| i.name.as_str()).collect();
    assert_eq!(names, ["260101_S100000-E101002_D001002_stereo_L-4_R-5.wav"]);
    // The two seconds at each end, in which one recorder runs alone, join the file.
    assert_eq!((plan.items[0].piece.t0, plan.items[0].piece.t1), (0, 602 * S));
}

#[test]
fn tested_windows_are_ten_seconds_apart() {
    let tracks = two_tracks();
    for map in [Alignment { offset: 2 * S, drift: 0 }, Alignment { offset: -7 * S, drift: 50_000_000 }] {
        let w = frame_windows(&tracks, 0, 1, &map, 600_000, 590_000);
        assert!(w.len() > 50);
        for k in 1..w.len() {
            assert_eq!(w[k].t - w[k - 1].t, 10 * S);
        }
    }
}

#[test]
fn clocks_of_two_recorders_run_alike() {
    let m = Alignment { offset: 3 * S + 7, drift: 31_234_567 };
    for t in [-5 * S, -1, 0, 1, 12_345_678_901, 7200 * S] {
        let b = m.to_b(t);
        let back = m.to_a(b);
        assert!(t <= back && back <= t + 2, "{t} {back}");
        let there = m.to_b(m.to_a(t));
        assert!(t - 1 <= there && there <= t);
        let later = m.to_b(t + 1000 * S) - b;
        assert!(4 * 200 * S <= later && later <= 6 * 200 * S);
    }
}

#[test]
fn sources_of_synchronising_are_found() {
    let given = |p: &str, is_dir: bool| Given { path: format!("/{p}"), place: place(p), is_dir };
    let k = intake(&vec![given("a", true), given("b/x.WAV", false), given("a", true), given("c/y.txt", false)]).unwrap();
    assert_eq!((k.walk, k.files), (vec![0, 2], vec![1]));
    let roots: Vec<&str> = k.roots.iter().map(|r| r.parts[0].as_str()).collect();
    assert_eq!(roots, ["a", "b", "c"]);
    assert_eq!(intake(&vec![]).unwrap_err(), "Keine Ordner oder Dateien angegeben.");
    assert_eq!(visit("sync", true, false, 0), Visit::Leave);
    assert_eq!(visit("tracks", true, false, 23), Visit::Enter);
    assert_eq!(visit("tracks", true, false, 24), Visit::Leave);
    assert_eq!(visit("a.wav", false, true, 24), Visit::Take);
    assert_eq!(visit(".a.wav", false, true, 0), Visit::Leave);
}

#[test]
fn parts_among_the_files_need_a_scan() {
    let file = |name: &str| Found { file: 0, path: format!("/{name}"), name: name.to_string(), header: Err("".to_string()) };
    assert!(needs_scan(&vec![file("x.wav"), file("DJI_01_20260906_100000.WAV")]));
    assert!(!needs_scan(&vec![file("x.wav"), file("260101_S100000-E101000_D001000_5.wav")]));
    assert!(!needs_scan(&vec![]));
}

#[test]
fn mastering_is_planned_as_a_whole() {
    let m = Measured {
        loudness: Loudness { lufs: Some(-20_000_000), true_peak: Some(-6_000_000), lra: 0 },
        frames: 48_000,
        channels: 1,
        rate: 48_000,
        codec: "pcm_s24le".to_string(),
        bits: Some(24),
    };
    let file = FoundAudio { path: "/in/a.wav".to_string(), name: "a.wav".to_string(), folder: "in".to_string(), size: 144_044, measured: Some(Ok(m)) };
    let given = vec![Skipped { path: "/in/a.txt".to_string(), reason: "keine unterstützte Audiodatei".to_string() }];
    let plan = master_plan(vec![place("in")], &vec![file], given).unwrap();
    assert!(plan.default_out_dir.is_same(&place("in/master")));
    assert_eq!((plan.target_lufs, plan.ceiling_dbtp, plan.bitrate_kbps), (-16_000_000, -1_500_000, 192));
    assert_eq!((plan.files.len(), plan.ignored.len()), (1, 1));
    assert_eq!(plan.files[0].gain, Some(4_000_000));
    assert_eq!(plan.engine, "Symphonia · ebur128 · LAME 3.100");
    assert_eq!(master_plan(vec![place("in")], &vec![], vec![]).unwrap_err(), "Keine lesbaren Audiodateien gefunden.");
    assert!(check_found(1).is_ok());
    assert_eq!(check_found(0).unwrap_err(), "Keine Audiodateien gefunden (WAV, MP3, M4A, AAC, FLAC, AIFF, CAF, OGG).");
}
