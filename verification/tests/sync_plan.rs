use prepare_audio::alignment::{span, Alignment};
use prepare_audio::bytes::read32;
use prepare_audio::calendar::days_from_civil;
use prepare_audio::checks::{are_timed, have_clocks, is_plannable};
use prepare_audio::compare::{judge, weighed, Fit, Note, Search};
use prepare_audio::items::{plan_items, Item};
use prepare_audio::lane::{lane_read, stereo_file, LaneRead};
use prepare_audio::names::parse_track_name;
use prepare_audio::pairing::{candidate_pairs, default_out_dir, labels, needed_tracks, order_tracks, time_of};
use prepare_audio::paths::Place;
use prepare_audio::phases::{are_long, cut_window, phases_uncut, Cutting, Frame, Kind, Ph};
use prepare_audio::plan::{Pair, Phase};
use prepare_audio::render::{interleave, is_addressable, mono_file, mono_reading};
use prepare_audio::scan::{load_part, Options};
use prepare_audio::track::{load, make_track, Found, Scanned, Segment, Track};
use prepare_audio::wav::{output_size, read_info, write_header, HeaderReader, Stage, WavInfo, RIFF_LIMIT};
use prepare_audio::windows::{coarse_range, excerpt, fine_windows, frame_windows, ms_boundary, window_lag, FrameWindow};

const SR: u32 = 8000;
const S: i64 = 1_000_000_000;

fn fmt_float(sr: u32) -> Vec<u8> {
    let mut f = Vec::new();
    f.extend_from_slice(&3u16.to_le_bytes());
    f.extend_from_slice(&1u16.to_le_bytes());
    f.extend_from_slice(&sr.to_le_bytes());
    f.extend_from_slice(&(sr * 4).to_le_bytes());
    f.extend_from_slice(&4u16.to_le_bytes());
    f.extend_from_slice(&32u16.to_le_bytes());
    f
}

/// What the header of a float file with so many frames says.
fn info_of(sr: u32, frames: u64) -> WavInfo {
    let mut head = Vec::new();
    write_header(&mut head, &fmt_float(sr), frames * 4, frames, RIFF_LIMIT);
    let mut r = HeaderReader::new(head.len() as u64 + frames * 4);
    while let Some((at, n)) = r.request() {
        r.feed(&head[at as usize..(at + n) as usize]);
    }
    match r.stage {
        Stage::Over(Ok(i)) => i,
        other => panic!("{other:?}"),
    }
}

fn track_at(sr: u32, name: &str, frames: u64, file: usize) -> Track {
    let (start, label) = parse_track_name(name).unwrap();
    let info = info_of(sr, frames);
    let segments = vec![Segment { file, path: format!("/tracks/{name}"), offset: info.data_offset, len: info.data_len }];
    make_track(name.to_string(), format!("/tracks/{name}"), label, start, info, segments)
}

fn tracks_of(list: &[(&str, u64)]) -> Vec<Track> {
    let mut v: Vec<Track> = list.iter().enumerate().map(|(i, (n, secs))| track_at(SR, n, secs * SR as u64, i)).collect();
    order_tracks(&mut v);
    v
}

/// The sample that frame `k` of file `file` holds.
fn sample(file: usize, k: u64) -> f32 {
    (k % 1_000_003) as f32 * 0.5 + file as f32 * 0.125
}

fn samples_of(t: &Track, start: i64, n: usize) -> Vec<u32> {
    let mut out = vec![0u32; n];
    let reading = mono_reading(t, start, n);
    let mut at = reading.at;
    for run in &reading.runs {
        let s = &t.segments[run.segment];
        for k in 0..run.len / 4 {
            out[at] = sample(s.file, (run.offset - t.info.data_offset) / 4 + k).to_bits();
            at += 1;
        }
    }
    out
}

/// The frames of one block of a stereo file, left and right.
fn block_of(tracks: &Vec<Track>, pairs: &Vec<Pair>, it: &Item, done: u64) -> Vec<(f32, f32)> {
    let f = stereo_file(tracks, pairs, &it.piece);
    let r = &tracks[it.piece.reference];
    let (k0, len) = f.block(r.info.sample_rate, done);
    let main = samples_of(r, k0, len as usize);
    let mut second = vec![0u32; len as usize];
    for lane in &f.lanes {
        let o = &tracks[lane.other];
        match lane_read(&pairs[lane.pair], it.piece.reference, r.info.sample_rate, o.info.sample_rate, lane.s0, lane.s1, k0, len as usize) {
            LaneRead::Silent => {}
            LaneRead::Shifted { at, count, start } => second[at..at + count].copy_from_slice(&samples_of(o, start, count)),
            LaneRead::Between { at, first, span, taps } => {
                let src = samples_of(o, first, span as usize);
                for (j, t) in taps.iter().enumerate() {
                    second[at + j] = src[t.index as usize];
                }
            }
        }
    }
    let b = interleave(&main, &second, f.main_left);
    (0..len as usize).map(|j| (f32::from_bits(read32(&b, 8 * j)), f32::from_bits(read32(&b, 8 * j + 4)))).collect()
}

/// All frames of a stereo file, left and right.
fn frames_of(tracks: &Vec<Track>, pairs: &Vec<Pair>, it: &Item) -> Vec<(f32, f32)> {
    let n = stereo_file(tracks, pairs, &it.piece).frames;
    let mut all: Vec<(f32, f32)> = Vec::new();
    while (all.len() as u64) < n {
        all.extend(block_of(tracks, pairs, it, all.len() as u64));
    }
    all
}

fn together(start: i64, end: i64) -> Phase {
    let n = ((end - start) / (10 * S)) as u64;
    Phase { kind: Kind::Together, start, end, evidence: prepare_audio::phases::Evidence { count: n, hits: n, measured: n, coherence: n * 300_000_000 } }
}

fn aligned(tracks: &Vec<Track>, a: usize, b: usize, offset: i64) -> Pair {
    let search = Search { prominence: 20_000_000, windows: 8, fit: Some(Fit { map: Alignment { offset, drift: 0 }, residual: 1_000_000, windows: 8 }) };
    let mut p = judge(tracks, a, b, Some(search)).pair;
    assert!(p.ok);
    let (s, e) = span(&p.map, time_of(&tracks[a]), time_of(&tracks[b]));
    p.phases = vec![together(s, e)];
    p
}

fn items_of(tracks: &Vec<Track>, pairs: &Vec<Pair>) -> Vec<Item> {
    assert!(is_plannable(tracks, pairs) && have_clocks(tracks));
    plan_items(tracks, pairs)
}

/// Recorder 5 runs through; recorder 4 is off between 300 s and 500 s of 5's
/// clock. One stereo file results, with silence on the left during the dropout,
/// and the right channel is 5 bit-exactly.
#[test]
fn dropout_between_stereo_stretches_stays_one_stereo_file() {
    let tracks = tracks_of(&[
        ("260101_S100000-E100500_D000500_4.wav", 300),
        ("260101_S100002-E101502_D001500_5.wav", 900),
        ("260101_S100822-E101502_D000640_4.wav", 400),
    ]);
    assert_eq!(candidate_pairs(&tracks), [(0, 1), (2, 1)]);
    let pairs = vec![aligned(&tracks, 0, 1, 2 * S), aligned(&tracks, 2, 1, -500 * S)];
    let items = items_of(&tracks, &pairs);
    assert_eq!(items.len(), 1, "{items:#?}");
    let it = &items[0];
    assert_eq!((it.kind(), it.piece.spans.len()), ("stereo", 2));
    assert_eq!(tracks[it.piece.reference].label, "5");
    assert_eq!((it.piece.t0, it.piece.t1), (-2 * S, 900 * S));
    assert!((it.dropout - 202 * S as i128).abs() < S as i128, "dropout {}", it.dropout);
    assert!(it.name.ends_with("_stereo_L-4_R-5.wav"), "{}", it.name);

    let f = stereo_file(&tracks, &pairs, &it.piece);
    assert_eq!(f.frames, 902 * SR as u64);
    assert_eq!(it.bytes, f.header.len() as u64 + f.frames * 8);
    let lr = frames_of(&tracks, &pairs, it);
    let n = |secs: usize| secs * SR as usize;
    let lead = n(2);
    assert_eq!(lr.len(), n(902));
    for k in [0usize, 5_000, 2_000_000, 3_000_000, 7_100_000] {
        assert_eq!(lr[lead + k].1, sample(1, k as u64), "right channel is recorder 5 bit-exactly");
    }
    assert_eq!(lr[lead - 10].1, 0.0);
    assert!(lr[lead + n(310)..lead + n(490)].iter().all(|v| v.0 == 0.0), "left channel silent while recorder 4 was off");
    assert!((n(100)..n(101)).all(|k| lr[lead + k].0 == sample(0, (lead + k) as u64)), "left follows 4a");
    assert!((n(600)..n(601)).all(|k| lr[lead + k].0 == sample(2, (k - n(500)) as u64)), "left follows 4b");
}

/// A merged track for recorder 4 plus raw parts for 4 and 5: the track replaces
/// 4's parts, recorder 5 comes straight from its part.
#[test]
fn mixes_merged_tracks_and_raw_parts() {
    let found = |file: usize, path: &str| {
        let name = path.rsplit('/').next().unwrap().to_string();
        Found { file, path: path.to_string(), name, header: Ok(info_of(SR, 70 * SR as u64)) }
    };
    let files = vec![
        found(0, "/4/DJI_01_20260101_100000.WAV"),
        found(1, "/5/DJI_01_20260101_100002.WAV"),
        found(2, "/sync/260101_S100000-E100110_D000110_mono_4.wav"),
        found(3, "/tracks/260101_S100000-E100110_D000110_4.wav"),
    ];
    let part = |file: usize, folder: &str, name: &str| {
        let place = Place { root: "/".to_string(), parts: vec![folder.to_string()] };
        load_part(file, &format!("/{folder}/{name}"), name, place, Ok(info_of(SR, 70 * SR as u64))).unwrap()
    };
    let parts = vec![part(0, "4", "DJI_01_20260101_100000.WAV"), part(1, "5", "DJI_01_20260101_100002.WAV")];
    let opt = Options { min_chunk_bytes: 0, ..Options::default() };
    let parts = prepare_audio::group::arrange(parts, &opt);
    let costs = vec![Some(5_000_000_000i64); prepare_audio::group::links(&parts, &opt).len()];
    let recordings = prepare_audio::group::group(&parts, &opt, &costs);
    assert_eq!(recordings.len(), 2);
    let loaded = load(&files, &Scanned { recordings, duplicates: vec![], ignored: vec![], ignored_names: vec![] }).unwrap();
    assert_eq!(loaded.source.text(), "mixed");
    let mut got: Vec<(String, bool)> = loaded.tracks.iter().map(|t| (t.label.clone(), t.path.ends_with(".wav"))).collect();
    got.sort();
    assert_eq!(got, [("4".to_string(), true), ("5".to_string(), false)]);
    assert!(loaded.ignored.is_empty(), "{:?}", loaded.ignored);
    // A track of a sample a second may last for years.
    let slow = Found { file: 0, path: "/t".to_string(), name: "260101_S100000-E100110_D000110_4.wav".to_string(), header: Ok(info_of(1, 100_000_000)) };
    let long = load(&vec![slow], &Scanned { recordings: vec![], duplicates: vec![], ignored: vec![], ignored_names: vec![] }).unwrap();
    assert_eq!((long.tracks.len(), long.ignored.len(), long.tracks[0].duration), (1, 0, 100_000_000_000_000_000));
    assert!(!are_timed(&long.tracks));
    let none = load(&vec![], &Scanned { recordings: vec![], duplicates: vec![], ignored: vec![], ignored_names: vec![] });
    assert_eq!(none.unwrap_err(), "Keine Tracks und keine DJI-Aufnahmen gefunden.");
}

/// Recorder 4 runs 150 s alone before 5 starts, 5 runs 100 s alone after 4
/// stops. Nothing parallel differs, so it is one stereo file with silence.
#[test]
fn long_solo_lead_and_tail_stay_in_the_stereo_file() {
    let tracks = tracks_of(&[("260101_S100000-E101000_D001000_4.wav", 600), ("260101_S100230-E101140_D000910_5.wav", 550)]);
    let pairs = vec![aligned(&tracks, 0, 1, 150 * S)];
    let items = items_of(&tracks, &pairs);
    assert_eq!(items.len(), 1, "{items:#?}");
    let it = &items[0];
    assert_eq!(it.kind(), "stereo");
    assert_eq!((it.piece.t0, it.piece.t1), (0, 700 * S));
    let silent: Vec<(String, i128)> = it.piece.silent.iter().map(|x| (x.label.clone(), x.length / S as i128)).collect();
    assert!(silent.contains(&("5".to_string(), 150)) && silent.contains(&("4".to_string(), 100)), "{silent:?}");
    assert_eq!(it.name, "260101_S100000-E101140_D001140_stereo_L-4_R-5.wav");
    let n = |secs: usize| secs * SR as usize;
    let lr = frames_of(&tracks, &pairs, it);
    assert_eq!(lr.len(), n(700));
    assert!(lr[..n(149)].iter().all(|v| v.1 == 0.0), "right silent before 5 starts");
    assert!(lr[n(601)..].iter().all(|v| v.0 == 0.0), "left silent after 4 stops");
    assert!(lr[n(601)..n(602)].iter().any(|v| v.1 != 0.0), "right keeps playing after 4 stops");
    for k in [0usize, 777, n(300)] {
        assert_eq!(lr[k].0, sample(0, k as u64));
    }
}

/// Recorder 4 starts 150 s before 5, is off for 150 s while 5 runs on, and runs
/// 100 s longer than 5: the lead, the dropout and the tail stay in one file.
#[test]
fn solo_lead_and_tail_stay_with_a_stretch_that_had_a_dropout() {
    let tracks = tracks_of(&[
        ("260101_S100000-E100730_D000730_4.wav", 450),
        ("260101_S100230-E101410_D001140_5.wav", 700),
        ("260101_S101000-E101550_D000550_4.wav", 350),
    ]);
    assert_eq!(candidate_pairs(&tracks), [(0, 1), (2, 1)]);
    let pairs = vec![aligned(&tracks, 0, 1, 150 * S), aligned(&tracks, 2, 1, -450 * S)];
    let items = items_of(&tracks, &pairs);
    assert_eq!(items.len(), 1, "{items:#?}");
    let it = &items[0];
    assert_eq!((it.kind(), it.piece.spans.len()), ("stereo", 2));
    assert_eq!((it.piece.t0, it.piece.t1), (-150 * S, 800 * S));
    assert_eq!((it.piece.spans[0].t0, it.piece.spans[1].t1), (-150 * S, 800 * S));
    let silent: Vec<(String, i128)> = it.piece.silent.iter().map(|x| (x.label.clone(), x.length / S as i128)).collect();
    assert_eq!(silent, [("4".to_string(), 150), ("5".to_string(), 250)]);
    assert_eq!(it.name, "260101_S100000-E101550_D001550_stereo_L-4_R-5.wav");
    let n = |secs: u64| secs * SR as u64;
    assert_eq!(block_of(&tracks, &pairs, it, n(20))[5].0, sample(0, n(20) + 5), "the lead of 4 is kept");
    assert_eq!(block_of(&tracks, &pairs, it, n(900))[5].0, sample(2, n(300) + 5), "the tail of 4 is kept");
    assert!(block_of(&tracks, &pairs, it, n(900)).iter().all(|v| v.1 == 0.0), "right silent after 5 stops");
}

/// Moves all cuts of the stretches, to the given quiet seconds where they can go.
fn cut(v: Vec<Ph>, quiet: &[i64]) -> Cutting {
    let mut c = Cutting::start(v);
    while let Some((lo, n)) = c.window() {
        c.take(&(0..n as i64).map(|k| if quiet.contains(&(lo / S + k)) { 1 } else { 100 }).collect());
    }
    c
}

/// Cuts go to the quietest second nearby; only where that leaves a stretch that
/// is too short do they keep the shortest lengths.
#[test]
fn cuts_leave_stretches_as_long_as_they_must_be() {
    let ph = |kind: Kind, start: i64, end: i64| Ph { kind, start: start * S, end: end * S };
    let v = vec![ph(Kind::Together, 0, 300), ph(Kind::Apart, 300, 430), ph(Kind::Together, 430, 800)];
    let ends = |c: &Cutting| (c.now[0].end / S, c.now[1].start / S, c.now[1].end / S, c.now[2].start / S, c.careful);
    assert_eq!(cut_window(&v, 1, false), (270 * S, 60));
    assert_eq!(cut_window(&v, 1, true), (270 * S, 40));
    let both = cut(v.clone(), &[320, 450]);
    assert_eq!(ends(&both), (320, 320, 450, 450, false));
    let one = cut(v.clone(), &[320, 430]);
    assert_eq!(ends(&one), (270, 270, 430, 430, true));
    assert!(are_long(&one.now) && !are_long(&vec![ph(Kind::Apart, 0, 119)]));
    let single = cut(vec![ph(Kind::Together, 0, 20)], &[]);
    assert_eq!((single.now.len(), single.now[0].end, single.careful), (1, 20 * S, false));

    let frames: Vec<Frame> = (0..54).map(|i| Frame { t: i * 10 * S, hit: !(20..32).contains(&i), active: true, msc: Some(500_000_000) }).collect();
    let c = cut(phases_uncut(&frames, 0, 550 * S), &[]);
    for p in &c.now {
        assert!(p.end - p.start >= if p.kind == Kind::Together { 180 * S } else { 120 * S }, "{c:?}");
    }
}

/// Clocks that run too differently are not taken for clocks of one event.
#[test]
fn impossible_clocks_are_not_aligned() {
    let tracks = tracks_of(&[("260101_S100000-E101000_D001000_4.wav", 600), ("260101_S100004-E101004_D001000_5.wav", 600)]);
    for map in [Alignment { offset: 0, drift: 200_000_000_000 }, Alignment { offset: 50_000_000_000_000_000, drift: 0 }] {
        let search = Search { prominence: 20_000_000, windows: 8, fit: Some(Fit { map, residual: 1_000_000, windows: 8 }) };
        let c = judge(&tracks, 0, 1, Some(search));
        assert!(!c.pair.ok && c.note == Some(Note::NoEvents));
        assert_eq!((c.pair.map.offset, c.pair.map.drift), (4 * S, 0));
    }
}

/// Two recorders, B starts 3.5 s later (file names claim 4 s). Same conversation
/// 0–360 s and 660–960 s, different conversations in between.
#[test]
fn finds_offset_phases_and_writes_exact_audio() {
    let tracks = tracks_of(&[("260101_S100000-E101600_D001600_4.wav", 960), ("260101_S100004-E101604_D001600_5.wav", 960)]);
    assert_eq!(candidate_pairs(&tracks), [(0, 1)]);
    let place = |parts: &[&str]| Place { root: "/".to_string(), parts: parts.iter().map(|s| s.to_string()).collect() };
    assert!(default_out_dir(&vec![place(&["d", "tracks"])]).is_same(&place(&["d", "sync"])));
    let mut p = aligned(&tracks, 0, 1, 3_500_000_000);

    let windows = frame_windows(&tracks, 0, 1, &p.map, 960_000, 960_000);
    let shared = |t: i64| t + 20 * S <= 360 * S || t >= 660 * S;
    let frames: Vec<Frame> = windows
        .iter()
        .map(|w| Frame { t: w.t, hit: shared(w.t), active: true, msc: Some(if shared(w.t) { 900_000_000 } else { 1_000_000 }) })
        .collect();
    let (s, e) = span(&p.map, time_of(&tracks[0]), time_of(&tracks[1]));
    assert!(frames.iter().all(|f| s <= f.t && f.t + 10 * S <= e));
    let mut cuts = Cutting::start(phases_uncut(&frames, s, e));
    while let Some((lo, n)) = cuts.window() {
        let quiet = |t: i64| (359 * S..361 * S).contains(&t) || (659 * S..661 * S).contains(&t);
        let loud: Vec<i64> = (0..n).map(|k| if quiet(lo + k as i64 * S) { 1 } else { 100 }).collect();
        cuts.take(&loud);
    }
    assert!(!cuts.careful);
    p.phases = weighed(&frames, &cuts.now);
    let kinds: Vec<Kind> = p.phases.iter().map(|x| x.kind).collect();
    assert_eq!(kinds, [Kind::Together, Kind::Apart, Kind::Together], "{:?}", p.phases);
    assert!((p.phases[1].start - 360 * S).abs() <= 3 * S && (p.phases[1].end - 660 * S).abs() <= 3 * S, "{:?}", p.phases);
    let apart = p.phases[1].evidence;
    assert!(apart.hits * 5 < apart.count && apart.coherence < apart.measured * 100_000_000);
    let tog = p.phases[0].evidence;
    assert!(tog.hits * 5 > tog.count * 4 && tog.coherence > tog.measured * 500_000_000);

    let pairs = vec![p];
    let items = items_of(&tracks, &pairs);
    let stereo: Vec<&Item> = items.iter().filter(|i| i.kind() == "stereo").collect();
    let mono: Vec<&Item> = items.iter().filter(|i| i.kind() == "mono").collect();
    assert_eq!((stereo.len(), mono.len()), (2, 2), "{items:#?}");
    assert_eq!(stereo[0].piece.t0, 0, "leading seconds of A join the stereo file");
    assert_eq!(stereo[1].piece.t1, 963_500_000_000, "trailing seconds of B join the stereo file");
    assert!(mono.iter().all(|i| i.reason() == "getrennt") && stereo.iter().all(|i| i.reason() == "gemeinsam"));
    assert!(items.iter().enumerate().all(|(i, x)| x.id == i));

    // Stereo: left is A bit-exactly, right is B aligned to the sample.
    let st = stereo[1];
    let f0 = (st.piece.t0 as i128 * SR as i128 / S as i128) as u64;
    for k in [0u64, 777, 100_000, 1_000_000] {
        let b = block_of(&tracks, &pairs, st, k);
        assert_eq!(b[0].0, sample(0, f0 + k));
        assert_eq!(b[0].1, sample(1, f0 + k - 28_000));
    }
    // Mono pieces are bit-exact excerpts.
    let m4 = mono.iter().find(|i| i.piece.left == 0).unwrap();
    let m = mono_file(&tracks[0], m4.piece.t0, m4.piece.t1);
    let mf0 = (m4.piece.t0 as i128 * SR as i128 / S as i128) as u64;
    assert_eq!(m.runs.len(), 1);
    assert_eq!(m.runs[0].offset, tracks[0].info.data_offset + mf0 * 4);
    assert_eq!(m4.bytes, m.header.len() as u64 + m.runs[0].len + m.pad as u64);
    assert_eq!(m4.bytes, output_size(16, m.runs[0].len));
    assert!(is_addressable(&tracks[0]));
}

#[test]
fn pairs_without_a_stable_offset_are_apart() {
    let tracks = tracks_of(&[("260101_S100000-E101000_D001000_4.wav", 600), ("260101_S100230-E101140_D000910_5.wav", 550)]);
    let none = judge(&tracks, 0, 1, None);
    assert_eq!((none.pair.ok, none.note), (false, Some(Note::TooShort)));
    assert_eq!(Note::TooShort.text(), "zu wenig gemeinsame Aufnahmezeit");
    assert_eq!(none.pair.map, Alignment { offset: 150 * S, drift: 0 });
    assert_eq!((none.pair.phases[0].kind, none.pair.phases[0].start, none.pair.phases[0].end), (Kind::Apart, 150 * S, 600 * S));
    let fit = |windows, residual| Some(Fit { map: Alignment { offset: 149 * S, drift: 0 }, residual, windows });
    let cases = [(fit(2, 0), 9_000_000), (fit(3, 30_000_000), 9_000_000), (fit(3, 0), 5_999_999), (None, 9_000_000)];
    for (fit, prominence) in cases {
        let c = judge(&tracks, 0, 1, Some(Search { prominence, windows: 5, fit }));
        assert_eq!((c.pair.ok, c.note), (false, Some(Note::NoEvents)));
        assert_eq!(c.note.unwrap().text(), "keine gemeinsamen Ereignisse mit stabilem Versatz");
    }
    let ok = judge(&tracks, 0, 1, Some(Search { prominence: 6_000_000, windows: 5, fit: fit(3, 29_999_999) }));
    assert!(ok.pair.ok && ok.note.is_none() && ok.pair.map.offset == 149 * S);

    // Apart throughout: two mono files.
    let items = items_of(&tracks, &vec![none.pair]);
    assert_eq!(items.iter().map(|i| (i.kind(), i.reason())).collect::<Vec<_>>(), [("mono", "getrennt"), ("mono", "getrennt")]);
    // Nothing compared: both alone.
    let alone = items_of(&tracks, &vec![]);
    assert_eq!(alone.iter().map(|i| (i.kind(), i.reason())).collect::<Vec<_>>(), [("mono", "allein"), ("mono", "allein")]);
    assert_eq!(alone[0].name, "260101_S100000-E101000_D001000_mono_4.wav");
    assert_eq!((alone[0].day.as_str(), alone[0].start.as_str(), alone[0].end.as_str()), ("01.01.2026", "10:00:00", "10:10:00"));
    assert_eq!(alone[0].clock0, 36_000 * S);
}

#[test]
fn tracks_are_ordered_by_start_and_label() {
    let tracks = tracks_of(&[
        ("260101_S110000-E111000_D001000_5.wav", 600),
        ("260101_S100000-E101000_D001000_10.wav", 600),
        ("260101_S100000-E101000_D001000_9.wav", 600),
    ]);
    assert_eq!(tracks.iter().map(|t| (t.id, t.label.as_str())).collect::<Vec<_>>(), [(0, "9"), (1, "10"), (2, "5")]);
    assert_eq!(labels(&tracks).iter().map(|l| l.text.clone()).collect::<Vec<_>>(), ["5", "9", "10"]);
    assert!(are_timed(&tracks));
    let pairs = candidate_pairs(&tracks);
    assert_eq!(pairs, [(0, 1)]);
    assert_eq!(needed_tracks(&pairs, 3), [0, 1]);
    assert_eq!(tracks[0].start_secs, days_from_civil(2026, 1, 1) * 86400 + 36_000);
}

#[test]
fn drifting_clocks_are_read_between_samples() {
    let tracks = tracks_of(&[("260101_S100000-E101000_D001000_4.wav", 600), ("260101_S100000-E101000_D001000_5.wav", 600)]);
    // B's clock loses a hundred microseconds per second: about 480 samples over ten minutes.
    let map = Alignment { offset: 0, drift: 100_000_000 };
    let q = Pair { a: 0, b: 1, ok: true, map, phases: vec![] };
    match lane_read(&q, 0, SR, SR, 0, 600 * SR as i64, 300 * SR as i64, 4) {
        LaneRead::Between { at, first, span, taps } => {
            assert_eq!((at, taps.len()), (0, 4));
            let exact = 300.0 * SR as f64 * (1.0 - 1e-4);
            let got = first as f64 + taps[0].index as f64 + taps[0].behind as f64 * 1e-9;
            assert!((got - exact).abs() < 1e-4, "{got} {exact}");
            assert!(taps.iter().all(|t| t.index >= 1 && t.index + 2 < span));
        }
        other => panic!("{other:?}"),
    }
    assert!(matches!(lane_read(&q, 0, SR, SR, 0, 10, 20, 5), LaneRead::Silent));
    assert_eq!(map.to_a(map.to_b(1000 * S)) / 1000, 1000 * S / 1000);
    assert_eq!(map.to_b(0), 0);
    let pair = Pair { a: 0, b: 1, ok: true, map, phases: vec![] };
    assert_eq!((pair.to_b(S), pair.to_a(S)), (map.to_b(S), map.to_a(S)));
    assert!(tracks.len() == 2);
}

#[test]
fn windows_lie_inside_both_curves() {
    // Coarse offset 3.5 s, two tracks of 200 s.
    let w = fine_windows(3500, 200_000, 200_000);
    assert_eq!(w.iter().map(|x| (x.a, x.from, x.to)).collect::<Vec<_>>(), [(62_500, 58_000, 120_000), (122_500, 118_000, 180_000)]);
    assert_eq!(window_lag(&w[0], 0), 3500);
    assert_eq!(window_lag(&w[0], -7), 3493);
    assert!(fine_windows(0, 59_999, 200_000).is_empty());
    assert_eq!(coarse_range(-100_000, 200_000, 4), (70_400, 130_401));
    assert_eq!(coarse_range(0, 50, 1_000_000), (0, 50));
    let tracks = tracks_of(&[("260101_S100000-E101000_D001000_4.wav", 60), ("260101_S100000-E101000_D001000_5.wav", 60)]);
    let f = frame_windows(&tracks, 0, 1, &Alignment { offset: -S, drift: 0 }, 60_000, 60_000);
    assert_eq!(f.iter().map(|x| x.t / S).collect::<Vec<_>>(), [0, 10, 20, 30]);
    assert_eq!(f[1], FrameWindow { t: 10 * S, a: 10_000, b: 11_000 });
    assert_eq!((ms_boundary(1, 44_100), ms_boundary(2, 44_100), ms_boundary(1000, 44_100)), (44, 88, 44_100));
    let x = excerpt(48_000, 2 * S);
    assert_eq!((x.start, x.frames, x.warm, x.factor), (91_200, 964_800, 4800, 16));
}

/// A track of two segments; a cut across both holds exactly its frames.
#[test]
fn cuts_are_exact_across_segments() {
    let info = info_of(SR, 3 * SR as u64);
    let at = info.data_offset;
    let file = |k: u8, frames: usize| -> Vec<u8> {
        let mut b = vec![0xEEu8; at as usize];
        b.extend((0..frames * 4).map(|i| (i / 4 % 251) as u8 ^ k));
        b
    };
    let files = [file(0, 3 * SR as usize), file(0x55, 2 * SR as usize)];
    let segments = vec![
        Segment { file: 0, path: "a".to_string(), offset: at, len: 3 * SR as u64 * 4 },
        Segment { file: 1, path: "b".to_string(), offset: at, len: 2 * SR as u64 * 4 },
    ];
    let t = make_track("t".to_string(), "a".to_string(), "4".to_string(), 0, info, segments);
    let whole: Vec<u8> = files.iter().flat_map(|f| f[at as usize..].to_vec()).collect();
    let m = mono_file(&t, 2 * S + S / 2, 4 * S);
    let mut bytes = m.header.clone();
    for r in &m.runs {
        let f = &files[t.segments[r.segment].file];
        bytes.extend_from_slice(&f[r.offset as usize..(r.offset + r.len) as usize]);
    }
    let read = read_info(&bytes).unwrap();
    assert_eq!((m.runs.len(), read.frames(), read.repaired), (2, 12_000, false));
    assert_eq!(bytes[read.data_offset as usize..], whole[20_000 * 4..32_000 * 4]);
}

#[test]
fn headers_of_results_read_back() {
    let tracks = tracks_of(&[("260101_S100000-E100002_D000002_4.wav", 2)]);
    let m = mono_file(&tracks[0], 0, 2 * S);
    let mut bytes = m.header.clone();
    bytes.extend(vec![0u8; m.runs[0].len as usize]);
    let info = read_info(&bytes).unwrap();
    assert_eq!((info.frames(), info.repaired, info.file_size), (2 * SR as u64, false, output_size(16, m.runs[0].len)));
}
