use prepare_audio::alignment::{floor_div, to_frame, to_seconds, Alignment};
use prepare_audio::batch::{pick, Batch, Wanted};
use prepare_audio::outcome::{check_written, is_same_wav, lacks_room, room_message, settle, total_bytes, trim_suffix, unwritten, Job, Occupant, Outcome, Run, Stage, Status, Target, Written};
use prepare_audio::phases::{classify, double_median, is_hit, mark_active, merge_short, rejoin, to_phases, weigh, Frame, Kind, Level, Ph};
use prepare_audio::reader::{after_decoding, after_packet, has_audio, reads_wav, whole_samples, Decoded, Next, Packet, Position, Source};
use prepare_audio::requests::{may_open, refusal, shows, Goal, Refusal};

fn job(id: usize, bytes: u64) -> Job {
    Job { entry: 0, id, name: format!("{id}.wav"), path: format!("/o/{id}.wav"), bytes }
}

#[test]
fn names_are_offered_until_one_is_free() {
    let mut reserved = vec!["a.wav".to_string()];
    let mut t = Target::new("a.wav.wav", ".wav");
    assert_eq!(t.stem, "a");
    let first = t.offer(&reserved).unwrap();
    assert_eq!(first, "a_2.wav");
    assert_eq!(settle(&mut reserved, &first, Occupant::Other), None);
    let second = t.offer(&reserved).unwrap();
    assert_eq!(second, "a_3.wav");
    assert_eq!(settle(&mut reserved, &second, Occupant::Same), Some(true));
    assert_eq!(reserved, ["a.wav", "a_3.wav"]);
    let third = t.offer(&reserved).unwrap();
    assert_eq!(settle(&mut reserved, &third, Occupant::Free), Some(false));
    t.n = 999;
    assert_eq!(t.offer(&reserved).unwrap(), "a_999.wav");
    assert_eq!(t.offer(&reserved), None);
    assert_eq!(trim_suffix("x.mp3.mp3", ".mp3"), "x");
    assert_eq!(unwritten(3, None).message.as_deref(), Some("kein freier Dateiname"));
    assert_eq!(unwritten(3, Some("/p".to_string())).status, Status::Existing);
}

/// Decides on a name for each wanted file in a folder of names and sizes, and
/// writes those that are not there.
fn run_over(wanted: &[(&str, u64)], folder: &mut Vec<(String, u64)>) -> Vec<(String, bool)> {
    let mut reserved = Vec::new();
    let mut decided = Vec::new();
    for &(name, bytes) in wanted {
        let mut target = Target::new(name, ".wav");
        let verdict = loop {
            let offered = target.offer(&reserved).unwrap();
            let found = match folder.iter().find(|f| f.0 == offered) {
                None => Occupant::Free,
                Some(f) if is_same_wav(f.1, Some(false), bytes) => Occupant::Same,
                Some(_) => Occupant::Other,
            };
            if let Some(there) = settle(&mut reserved, &offered, found) {
                break (offered, there);
            }
        };
        decided.push((verdict, bytes));
    }
    for ((name, there), bytes) in &decided {
        if !there {
            assert!(check_written(*bytes, false, *bytes).is_ok());
            folder.push((name.clone(), *bytes));
        }
    }
    decided.into_iter().map(|d| d.0).collect()
}

#[test]
fn a_second_run_writes_nothing() {
    let mut folder = vec![("b.wav".to_string(), 7), ("c.wav".to_string(), 30)];
    let wanted = [("a.wav", 10), ("a.wav", 10), ("b.wav", 20), ("c.wav", 30), ("b.wav", 7)];
    let first = run_over(&wanted, &mut folder);
    let named = |v: &[(String, bool)]| v.iter().map(|x| x.0.clone()).collect::<Vec<_>>();
    assert_eq!(named(&first), ["a.wav", "a_2.wav", "b_2.wav", "c.wav", "b.wav"]);
    assert_eq!(first.iter().map(|x| x.1).collect::<Vec<_>>(), [false, false, false, true, true]);
    let files = folder.clone();
    let second = run_over(&wanted, &mut folder);
    assert_eq!(named(&second), named(&first));
    assert!(second.iter().all(|x| x.1));
    assert_eq!(folder, files);
}

#[test]
fn runs_go_on_until_cancelled() {
    let jobs = vec![job(5, 10), job(1, 20), job(3, 30), job(4, 40)];
    let total = total_bytes(&jobs).unwrap();
    assert_eq!(total, 100);
    let known = vec![Outcome { id: 2, status: Status::Existing, path: Some("/o/2.wav".to_string()), message: None }];
    let mut run = Run::start(jobs, total, known);
    assert!(run.begin(false));
    let p = run.progress(4, false);
    assert_eq!((p.index, p.count, p.id, p.name.as_str(), p.done, p.total, p.milestone), (0, 4, 5, "5.wav", 4, 100, false));
    run.finish(Written::Done);
    assert!(run.begin(false));
    assert_eq!(run.progress(20, true).done, 30);
    run.finish(Written::Failed { text: "voll".to_string() });
    assert!(run.begin(false));
    run.finish(Written::Cancelled);
    assert!(!run.begin(false));
    assert_eq!((run.at, run.done), (4, 60));
    let (outcomes, cancelled) = run.conclude();
    let shape: Vec<(usize, Status)> = outcomes.iter().map(|o| (o.id, o.status)).collect();
    assert_eq!(shape, [(1, Status::Failed), (2, Status::Existing), (3, Status::Cancelled), (4, Status::Cancelled), (5, Status::Written)]);
    assert_eq!(outcomes[0].message.as_deref(), Some("voll"));
    assert_eq!(outcomes[4].path.as_deref(), Some("/o/5.wav"));
    assert!(cancelled);
    assert_eq!(total_bytes(&vec![job(0, u64::MAX), job(1, 1)]), None);
    let mut stopped = Run::start(vec![job(0, 1)], 1, vec![]);
    assert!(!stopped.begin(true) && stopped.cancelled);
}

fn wanted(entry: usize, id: usize, name: &str) -> Wanted {
    Wanted { entry, id, name: name.to_string(), bytes: 10 + id as u64, refusal: None }
}

#[test]
fn every_chosen_entry_has_one_outcome() {
    let all = vec![
        wanted(0, 7, "a.wav"),
        wanted(1, 3, "a.wav"),
        wanted(2, 5, "b.wav"),
        wanted(3, 4, "full.wav"),
        wanted(4, 6, "c.wav"),
        Wanted { refusal: Some("nein".to_string()), ..wanted(5, 1, "d.wav") },
    ];
    let chosen = pick(all, &vec![1, 4, 5, 3, 7, 8]);
    assert_eq!(chosen.iter().map(|w| w.entry).collect::<Vec<_>>(), [0, 1, 2, 3, 5]);
    let mut batch = Batch::start("/o/".to_string(), ".wav", chosen);
    let mut offered = vec![];
    while batch.at < batch.wanted.len() {
        let Some(name) = batch.offer() else { continue };
        let found = match name.as_str() {
            "b.wav" => Occupant::Same,
            n if n.starts_with("full") => Occupant::Other,
            _ => Occupant::Free,
        };
        assert_eq!(batch.settle(&name, found), found != Occupant::Other);
        offered.push(name);
    }
    assert_eq!(&offered[..4], ["a.wav", "a_2.wav", "b.wav", "full.wav"]);
    assert_eq!(offered.len(), 3 + 999);
    assert!(!offered.contains(&"d.wav".to_string()));
    let jobs: Vec<_> = batch.jobs.iter().map(|j| (j.entry, j.id, j.path.as_str(), j.bytes)).collect();
    assert_eq!(jobs, [(0, 7, "/o/a.wav", 17), (1, 3, "/o/a_2.wav", 13)]);
    let mut run = batch.into_run().unwrap();
    assert_eq!((run.total, run.jobs.len(), run.known), (30, 2, 3));
    assert!(run.begin(false));
    run.finish(Written::Done);
    assert!(run.begin(false));
    run.finish(Written::Failed { text: "voll".to_string() });
    let (outcomes, cancelled) = run.conclude();
    let told: Vec<_> = outcomes.iter().map(|o| (o.id, o.status, o.path.as_deref(), o.message.as_deref())).collect();
    assert_eq!(
        told,
        [
            (1, Status::Failed, None, Some("nein")),
            (3, Status::Failed, None, Some("voll")),
            (4, Status::Failed, None, Some("kein freier Dateiname")),
            (5, Status::Existing, Some("/o/b.wav"), None),
            (7, Status::Written, Some("/o/a.wav"), None),
        ]
    );
    assert!(!cancelled);
    let huge = vec![Wanted { bytes: u64::MAX, ..wanted(0, 0, "a.wav") }, wanted(1, 1, "b.wav")];
    let mut batch = Batch::start("/o/".to_string(), ".wav", pick(huge, &vec![0, 1]));
    while batch.at < batch.wanted.len() {
        let name = batch.offer().unwrap();
        batch.settle(&name, Occupant::Free);
    }
    assert!(batch.into_run().is_none(), "bytes that cannot be counted");
}

#[test]
fn written_files_are_checked() {
    assert!(is_same_wav(100, Some(false), 100));
    assert!(!is_same_wav(100, Some(true), 100) && !is_same_wav(100, None, 100) && !is_same_wav(99, Some(false), 100));
    assert!(check_written(100, false, 100).is_ok());
    assert_eq!(check_written(100, true, 100).unwrap_err(), "Kontrolle der geschriebenen Datei fehlgeschlagen");
    assert!(check_written(101, false, 100).is_err());
}

#[test]
fn room_is_needed_with_some_to_spare() {
    assert!(lacks_room(true, 100, 67_108_963));
    assert!(!lacks_room(true, 100, 67_108_964));
    assert!(!lacks_room(false, 100, 0));
    assert!(lacks_room(true, u64::MAX, u64::MAX));
    assert_eq!(room_message("1 GB", "2 MB"), "Zu wenig Speicherplatz im Zielordner: benötigt 1 GB, frei 2 MB.");
}

#[test]
fn stages_are_named() {
    let p = Stage::Envelope.progress(3, 9);
    assert_eq!((p.stage, p.done, p.total, p.text.as_str()), ("envelope", 3, 9, "Frequenzanalyse der Tracks"));
    assert_eq!(Stage::FindAudio.progress(0, 1).text, "Suche Audiodateien");
    assert_eq!((Stage::Measure.progress(0, 1).stage, Stage::Pairs.progress(0, 1).stage), ("measure", "pairs"));
}

#[test]
fn requests_are_refused_in_sequence() {
    assert_eq!(refusal(Goal::Merge, false, 0, "", true).unwrap().text(), "Bitte zuerst einen Ordner scannen.");
    assert_eq!(refusal(Goal::Synchronise, true, 0, "", true).unwrap().text(), "Keine Abschnitte ausgewählt.");
    assert_eq!(refusal(Goal::Master, true, 2, " \t\u{3000}", true), Some(Refusal::NoFolder));
    assert_eq!(refusal(Goal::Master, true, 2, "/o", true).unwrap().text(), "Es läuft bereits ein Vorgang.");
    assert_eq!(refusal(Goal::Master, true, 2, "/o", false), None);
    assert!(may_open("https://example.org/a?b=c"));
    assert!(!may_open("http://example.org") && !may_open("https://a b") && !may_open("https://a\u{2003}b"));
    assert!(shows(true, Some(0), 80) && shows(false, None, 80) && shows(false, Some(80), 80) && !shows(false, Some(79), 80));
}

#[test]
fn packets_are_decoded_or_passed_over() {
    assert!(matches!(after_packet(&Packet::Of { track: 1 }, 1), Next::Decode));
    assert!(matches!(after_packet(&Packet::Of { track: 2 }, 1), Next::Skip));
    assert!(matches!(after_packet(&Packet::End, 1), Next::End));
    assert!(matches!(after_packet(&Packet::Reset, 1), Next::End));
    match after_packet(&Packet::Failed { text: "x".to_string() }, 1) {
        Next::Fail { text } => assert_eq!(text, "Lesefehler: x"),
        other => panic!("{other:?}"),
    }
    assert!(matches!(after_decoding(&Decoded::Frames { count: 0 }), Next::Skip));
    assert!(matches!(after_decoding(&Decoded::Frames { count: 1 }), Next::Give));
    assert!(matches!(after_decoding(&Decoded::Damaged), Next::Skip));
    match after_decoding(&Decoded::Failed { text: "y".to_string() }) {
        Next::Fail { text } => assert_eq!(text, "Dekodierfehler: y"),
        other => panic!("{other:?}"),
    }
    let mut p = Position::opened(true);
    assert_eq!(p.ask(), Source::Pending);
    assert_eq!(p.ask(), Source::File);
    p.decoded(false);
    assert_eq!(p.ask(), Source::Nothing);
    assert_eq!(Position::opened(false).ask(), Source::Nothing);
    assert!(reads_wav("wave") && !reads_wav("mp3"));
    assert_eq!(has_audio(0, 48_000).unwrap_err(), "enthält keine Audiodaten");
    assert!(has_audio(1, 1).is_ok());
    assert_eq!(whole_samples(11, 3), 9);
}

fn frames(hits: &[bool]) -> Vec<Frame> {
    hits.iter().enumerate().map(|(i, h)| Frame { t: i as i64 * 10_000_000_000, hit: *h, active: true, msc: None }).collect()
}

#[test]
fn windows_become_stretches() {
    let mut hits = vec![true; 40];
    hits[20] = false;
    let f = frames(&hits);
    let kinds = classify(&f);
    assert!(kinds.iter().all(|k| *k == Kind::Together));
    assert_eq!(to_phases(&kinds, &f), [Ph { kind: Kind::Together, start: 0, end: 400_000_000_000 }]);
    assert!(is_hit(-20, 6_000_000) && !is_hit(21, 6_000_000) && !is_hit(0, 5_999_999));
    let e = weigh(&f, 0, 100_000_000_000);
    assert_eq!((e.count, e.hits, e.measured), (10, 10, 0));
}

#[test]
fn short_stretches_join_their_neighbours() {
    let s = 1_000_000_000i64;
    let ph = |kind, a: i64, b: i64| Ph { kind, start: a * s, end: b * s };
    let v = vec![ph(Kind::Together, 0, 600), ph(Kind::Apart, 600, 700), ph(Kind::Together, 700, 1200)];
    assert_eq!(merge_short(v), [ph(Kind::Together, 0, 1200)]);
    let v = vec![ph(Kind::Apart, 0, 600), ph(Kind::Together, 600, 779), ph(Kind::Apart, 779, 1200)];
    assert_eq!(merge_short(v), [ph(Kind::Apart, 0, 1200)]);
    let long = vec![ph(Kind::Apart, 0, 120), ph(Kind::Together, 120, 300)];
    assert_eq!(merge_short(long.clone()), long);
    assert_eq!(rejoin(&vec![ph(Kind::Apart, 0, 1), ph(Kind::Apart, 1, 2)]), [ph(Kind::Apart, 0, 2)]);
}

#[test]
fn windows_where_both_are_silent_carry_no_evidence() {
    let v = |x: &[i64]| -> Vec<Level> { x.iter().map(|n| Level { value: n * 1_000_000 }).collect() };
    assert_eq!(double_median(&v(&[-30, -10, -20])), -40_000_000);
    assert_eq!(double_median(&v(&[-30, -10])), -40_000_000);
    let a = v(&[-30, -30, -60, -60, -30]);
    let b = v(&[-30, -60, -30, -60, -30]);
    assert_eq!(mark_active(&a, &b), [true, true, true, false, true]);
}

#[test]
fn clocks_are_carried_over() {
    let s = 1_000_000_000i64;
    let m = Alignment { offset: 3 * s, drift: 1_000_000 };
    assert!(m.is_valid() && !Alignment { offset: i64::MAX, drift: 0 }.is_valid());
    assert_eq!(m.to_b(1000 * s), 997 * s - 1_000_000);
    assert_eq!(m.to_a(997 * s - 1_000_000), 1000 * s);
    assert_eq!((floor_div(-7, 2), floor_div(7, 2)), (-4, 3));
    assert_eq!((to_frame(1_500_000_000, 3), to_frame(-1_500_000_000, 3)), (5, -5));
    assert_eq!((to_seconds(1_499_999_999), to_seconds(-1_500_000_000)), (1, -2));
}
