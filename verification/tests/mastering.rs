use prepare_audio::audio::{default_out_dir, extension, intake, is_audio, khz, layout, mp3_rate, visit};
use prepare_audio::batch::{pick, Batch};
use prepare_audio::describe::{describe, describe_line, wav_codec};
use prepare_audio::engine::{channel_mode, engine_label, label_with, lame_err, open_encoder, open_meter, open_with, settings_for, EncoderError};
use prepare_audio::lame::{BitRate, Care, ChannelMode, Variation};
use prepare_audio::limiter::{Decimator, Limiter, Minima};
use prepare_audio::loudness::{static_gain, GainNote, Loudness, Step, Tuning, Work, CEILING_DBTP, MAX_GAIN, TARGET_LUFS};
use prepare_audio::master::{plan_files, FoundAudio, Measured};
use prepare_audio::meter::{Measure, MeterError};
use prepare_audio::outcome::{Occupant, Status};
use prepare_audio::paths::Place;
use prepare_audio::results::{conclude, ended, is_same_length, overall, result_bytes, summary, wanted_results};
use prepare_audio::scan::{Given, Visit};
use prepare_audio::wav::SampleKind;

fn rng(seed: u64) -> impl FnMut() -> f64 {
    let mut s = seed;
    move || {
        s = s.wrapping_mul(6_364_136_223_846_793_005).wrapping_add(1_442_695_040_888_963_407);
        (s >> 11) as f64 / (1u64 << 53) as f64
    }
}

fn catmull(p0: f32, p1: f32, p2: f32, p3: f32, t: f32) -> f32 {
    p1 + 0.5 * t * (p2 - p0 + t * (2.0 * p0 - 5.0 * p1 + 4.0 * p2 - p3 + t * (3.0 * (p1 - p2) + p3 - p0)))
}

/// A mono limiter: the look-ahead of the library with smoothing and release
/// around it.
struct Smooth {
    ahead: Limiter,
    limit: f32,
    release: f64,
    recent: Vec<f32>,
    sum: f64,
    env: f64,
}

impl Smooth {
    fn new(rate: u32, limit: f32) -> Smooth {
        Smooth { ahead: Limiter::new(rate), limit, release: 1.0 - (-1.0 / (0.05 * rate as f64)).exp(), recent: Vec::new(), sum: 0.0, env: 1.0 }
    }

    fn feed(&mut self, x: f32, real: bool, out: &mut Vec<f32>) {
        let n = self.recent.len();
        let mut need = 1f32;
        if n > 0 {
            let at = |back: usize| self.recent[n - 1 - back.min(n - 1)];
            let mut peak = at(0).abs();
            for t in [0.25f32, 0.5, 0.75] {
                peak = peak.max(catmull(at(2), at(1), at(0), x, t).abs());
            }
            need = if peak > self.limit { self.limit / peak } else { 1.0 };
        }
        self.recent.push(x);
        if self.recent.len() > 3 {
            self.recent.remove(0);
        }
        let e = if real { self.ahead.push((x.to_bits(), 0), need.to_bits()) } else { self.ahead.drain(need.to_bits()) };
        if let Some(e) = e {
            self.sum += f32::from_bits(e.least) as f64 - e.dropped.map_or(0.0, |b| f32::from_bits(b) as f64);
            let target = (self.sum / e.count as f64).min(1.0);
            self.env = if target < self.env { target } else { self.env + (target - self.env) * self.release };
            if e.keep {
                out.push((f32::from_bits(e.samples.0) as f64 * self.env) as f32);
            }
        }
    }

    fn run(rate: u32, limit: f32, input: &[f32]) -> Vec<f32> {
        let mut s = Smooth::new(rate, limit);
        let mut out = Vec::new();
        for x in input {
            s.feed(*x, true, &mut out);
        }
        while s.ahead.is_holding() {
            s.feed(0.0, false, &mut out);
        }
        out
    }
}

#[test]
fn limiter_holds_the_ceiling_and_leaves_the_rest_alone() {
    let rate = 48_000;
    let mut rnd = rng(3);
    let input: Vec<f32> = (0..rate).map(|i| if (14_400..14_600).contains(&i) { 3.0 } else { (0.1 * (rnd() * 2.0 - 1.0)) as f32 }).collect();
    let out = Smooth::run(rate as u32, 0.5, &input);
    assert_eq!(out.len(), input.len());
    assert!(out.iter().all(|v| v.abs() <= 0.5 + 1e-6), "max {}", out.iter().fold(0f32, |m, v| m.max(v.abs())));
    for i in [1000usize, 13_000, 40_000] {
        assert!((out[i] - input[i]).abs() <= input[i].abs() * 0.01 + 1e-6, "sample {i}: {} vs {}", out[i], input[i]);
    }

    // A tone at a quarter of the sample rate, sampled between its crests:
    // sample peaks 0.707, true peak 1.0. A pure sample-peak limiter at 0.8 would not act.
    let tone: Vec<f32> = (0..4800).map(|i| (std::f64::consts::FRAC_PI_2 * i as f64 + std::f64::consts::FRAC_PI_4).sin() as f32).collect();
    let out = Smooth::run(rate as u32, 0.8, &tone);
    assert_eq!(out.len(), tone.len());
    let max = out[2400..].iter().fold(0f32, |m, v| m.max(v.abs()));
    assert!(max < 0.66, "inter-sample peaks are limited too: sample max {max}");
}

#[test]
fn decimator_keeps_the_band_and_removes_aliases() {
    let rms = |v: &[f32]| (v.iter().map(|x| (*x as f64).powi(2)).sum::<f64>() / v.len() as f64).sqrt();
    let factor = 2usize;
    let n = 64 * factor + 1;
    let fc = 0.45 / factor as f64;
    let pi = std::f64::consts::PI;
    let taps: Vec<f64> = (0..n)
        .map(|i| {
            let x = i as f64 - (n / 2) as f64;
            let sinc = if x == 0.0 { 2.0 * fc } else { (2.0 * pi * fc * x).sin() / (pi * x) };
            sinc * (0.42 - 0.5 * (2.0 * pi * i as f64 / (n - 1) as f64).cos() + 0.08 * (4.0 * pi * i as f64 / (n - 1) as f64).cos())
        })
        .collect();
    let sum: f64 = taps.iter().sum();
    for (freq, keep) in [(1000.0, true), (40_000.0, false)] {
        let input: Vec<f32> = (0..96_000).map(|i| (0.5 * (2.0 * pi * freq * i as f64 / 96_000.0).sin()) as f32).collect();
        let mut d = Decimator::new(factor as u32);
        let mut history = vec![0f32; n];
        let mut out = Vec::new();
        for x in &input {
            history.remove(0);
            history.push(*x);
            if d.step() {
                out.push(history.iter().zip(&taps).map(|(x, t)| *x as f64 * t / sum).sum::<f64>() as f32);
            }
        }
        assert_eq!(out.len(), input.len() / factor);
        let ratio = rms(&out[1000..]) / rms(&input);
        if keep {
            assert!((ratio - 1.0).abs() < 0.02, "{freq} Hz: {ratio}");
        } else {
            assert!(ratio < 0.01, "{freq} Hz: {ratio}");
        }
    }
}

#[test]
fn minima_slide_with_the_window() {
    let mut m = Minima::new(2);
    let got: Vec<u32> = [5u32, 3, 4, 6, 7, 8, 1, 9].iter().map(|x| m.next(*x)).collect();
    assert_eq!(got, [5, 3, 3, 3, 4, 6, 1, 1]);
}

#[test]
fn limiter_gives_frames_back_in_sequence() {
    // At 200 Hz the limiter looks one frame ahead.
    let mut l = Limiter::new(200);
    let gains = [9u32, 9, 4, 9, 9];
    let mut kept = Vec::new();
    let mut least = Vec::new();
    for i in 0..5u32 {
        if let Some(e) = l.push((i, 100 + i), gains[i as usize]) {
            least.push(e.least);
            kept.push((e.samples, e.keep));
        }
    }
    while l.is_holding() {
        if let Some(e) = l.drain(9) {
            least.push(e.least);
            kept.push((e.samples, e.keep));
        }
    }
    assert_eq!(kept, (0..5u32).map(|i| ((i, 100 + i), true)).collect::<Vec<_>>());
    // The gain given with frame i is that of frame i - 1.
    assert_eq!(least, [4, 4, 9, 9, 9]);
}

#[test]
fn limiter_returns_the_recording_once() {
    // 2000 Hz: ten frames ahead. Even needs give an even gain.
    for n in [0u32, 1, 9, 10, 11, 40] {
        let mut l = Limiter::new(2000);
        let mut kept = Vec::new();
        let mut take = |e: Option<prepare_audio::limiter::Emission>| {
            if let Some(e) = e {
                assert_eq!(e.least, 7);
                if e.keep {
                    kept.push(e.samples);
                }
            }
        };
        for i in 0..n {
            take(l.push((i, i + 1), 7));
        }
        while l.is_holding() {
            take(l.drain(7));
        }
        assert!(!l.is_holding());
        assert_eq!(kept, (0..n).map(|i| (i, i + 1)).collect::<Vec<_>>());
    }
}

fn loud(lufs: i64, peak: i64) -> Loudness {
    Loudness { lufs: Some(lufs), true_peak: Some(peak), lra: 0 }
}

#[test]
fn gain_reaches_the_target_or_the_limit() {
    let g = static_gain(&loud(-25_500_000, -3_000_000));
    assert_eq!((g.gain, g.limited, g.note), (Some(9_500_000), 8_000_000, None));
    let quiet = static_gain(&loud(-60_000_000, -50_000_000));
    assert_eq!((quiet.gain, quiet.limited, quiet.note), (Some(MAX_GAIN), 0, Some(GainNote::Capped)));
    assert_eq!(GainNote::Capped.text(), "sehr leise, Verstärkung auf +40 dB begrenzt");
    let silent = static_gain(&loud(-70_000_000, -50_000_000));
    assert_eq!((silent.gain, silent.note.unwrap().text()), (None, "Stille, keine Lautheit messbar"));
    assert!(static_gain(&Loudness { lufs: None, true_peak: None, lra: 0 }).gain.is_none());
}

#[test]
fn tuning_follows_the_slope_and_ends() {
    let mut t = Tuning::start(9_500_000);
    assert_eq!((t.step, t.ceiling, t.target), (Step::Level, -2_000_000, -15_850_000));
    // Half a decibel is missing, so the gain goes up by that.
    t.leveled(Some(-16_350_000));
    assert_eq!((t.step, t.gain, t.tries), (Step::Level, 10_000_000, 1));
    // Only half of it arrived: the rest is taken twice.
    t.leveled(Some(-16_100_000));
    assert_eq!((t.step, t.gain), (Step::Level, 10_500_000));
    t.leveled(Some(-15_860_000));
    assert_eq!((t.step, t.gain), (Step::Encode, 10_500_000));
    t.encoded();
    assert_eq!(t.step, Step::Check);
    // Too loud by 0.4 and peaks 0.3 above the ceiling: another round.
    t.checked(loud(-15_600_000, -1_200_000));
    assert_eq!((t.step, t.tries, t.ceiling, t.target), (Step::Level, 0, -2_350_000, -16_250_000));
    t.leveled(None);
    t.encoded();
    t.checked(loud(-16_200_000, -1_450_000));
    assert_eq!(t.step, Step::Done);
    assert_eq!(t.result, Some(loud(-16_200_000, -1_450_000)));
    assert_eq!((TARGET_LUFS, CEILING_DBTP), (-16_000_000, -1_500_000));
}

#[test]
fn tuning_ends_at_the_largest_gain() {
    let mut t = Tuning::start(0);
    let mut steps = 0;
    while t.step != Step::Done {
        match t.step {
            // Every extra decibel is swallowed.
            Step::Level => t.leveled(Some(-40_000_000)),
            Step::Encode => t.encoded(),
            Step::Check => t.checked(loud(-40_000_000, -1_500_000)),
            Step::Done => {}
        }
        steps += 1;
        assert!(t.gain <= MAX_GAIN);
    }
    assert_eq!(t.gain, MAX_GAIN);
    assert!(steps <= 7, "{steps}");
    assert_eq!((Step::Level.text(), Step::Encode.text(), Step::Check.text()), ("Pegel einstellen", "MP3 kodieren", "Nachmessen"));
}

/// Encodes and checks until the file is finished, with what the check hears in
/// each round; gives the rounds that were needed.
fn tuned(t: &mut Tuning, heard: &dyn Fn(u32) -> Loudness) -> u32 {
    let mut round = 0;
    while t.step != Step::Done {
        match t.step {
            Step::Level => t.leveled(Some(t.gain - 20_000_000)),
            Step::Encode => t.encoded(),
            Step::Check => {
                t.checked(heard(round));
                round += 1;
            }
            Step::Done => {}
        }
    }
    round
}

#[test]
fn tuning_goes_on_until_the_target_is_met() {
    // Every round brings the file half of the way that is left.
    let mut t = Tuning::start(0);
    assert_eq!(tuned(&mut t, &|round| loud(-16_000_000 + (3_200_000 >> round), -1_500_000)), 5);
    assert_eq!(t.result.unwrap().lufs, Some(-15_800_000));
    // Neither a peak that stays long nor a loudness that does is accepted.
    let mut t = Tuning::start(0);
    assert_eq!(tuned(&mut t, &|round| loud(-16_000_000, if round < 20 { -1_390_000 } else { -1_400_000 })), 21);
    assert_eq!(t.ceiling, -2_000_000 - 20 * 160_000);
    let mut t = Tuning::start(0);
    assert_eq!(tuned(&mut t, &|round| loud(if round < 30 { -15_600_000 } else { -16_300_000 }, -1_500_000)), 31);
    assert_eq!(t.target, -15_850_000 - 30 * 400_000);
    // Nor is a file with too high a peak at the largest gain.
    let mut t = Tuning::start(MAX_GAIN);
    t.leveled(Some(-30_000_000));
    t.encoded();
    t.checked(loud(-30_000_000, -1_000_000));
    assert_eq!((t.step, t.tries, t.ceiling), (Step::Level, 0, -2_550_000));
}

#[test]
fn work_counts_all_passes() {
    let mut w = Work::new(10_000);
    assert_eq!((w.done, w.total), (0, 20_000));
    w.begin(Step::Level);
    w.advance(5_000_000);
    assert_eq!(w.done, 1750);
    w.advance(2_000_000);
    assert_eq!(w.done, 1750);
    w.end();
    assert_eq!(w.done, 3500);
    w.begin(Step::Level);
    w.end();
    assert_eq!((w.done, w.total), (7000, 20_000));
    w.begin(Step::Level);
    assert_eq!(w.total, 23_500);
    w.end();
    w.begin(Step::Encode);
    w.end();
    w.begin(Step::Check);
    w.end();
    assert_eq!((w.done, w.total), (23_500, 23_500));
    let mut other = Work::new(1000);
    assert_eq!(overall(&vec![w, other], 1), (23_500, 25_500));
    other.finish();
    assert_eq!(overall(&vec![other], 1), (0, 1));
}

#[test]
fn bar_is_not_full_before_all_files_are_finished() {
    let mut w = Work::new(1000);
    w.begin(Step::Check);
    w.end();
    w.finish();
    let all = vec![w, w];
    let (done, total) = overall(&all, 2);
    assert!(done == total && total > 1);
    assert_eq!(overall(&all, 1), (total - 1, total));
    assert_eq!(overall(&vec![Work::new(0)], 0), (0, 1));
}

#[test]
fn bar_is_not_full_before_the_last_step() {
    let mut w = Work::new(1000);
    for step in [Step::Level, Step::Level, Step::Level, Step::Encode, Step::Check] {
        w.begin(step);
        w.advance(u64::MAX);
        w.end();
        assert_eq!(w.done < w.total, step != Step::Check);
    }
}

#[test]
fn sample_rates_are_lowered_by_whole_factors() {
    assert_eq!(mp3_rate(44_100), Ok((44_100, 1)));
    assert_eq!(mp3_rate(96_000), Ok((48_000, 2)));
    assert_eq!(mp3_rate(176_400), Ok((44_100, 4)));
    assert_eq!(mp3_rate(192_000), Ok((48_000, 4)));
    assert_eq!(mp3_rate(384_000), Ok((48_000, 8)));
    assert_eq!(mp3_rate(47_000), Err("Abtastrate 47000 Hz wird für MP3 nicht unterstützt".to_string()));
    assert_eq!(layout(6, 88_200), Ok((2, 44_100)));
    assert_eq!(layout(0, 8000), Ok((1, 8000)));
}

#[test]
fn formats_are_described() {
    assert_eq!(khz(44_100), "44,1 kHz");
    assert_eq!(khz(48_000), "48 kHz");
    let line = |ext: &str, codec: &str, bits, br, rate, ch| {
        let d = describe(ext, codec, bits, br);
        describe_line(&d.container, &d.detail, rate, ch)
    };
    assert_eq!(line("wav", "pcm_f32le", Some(32), None, 48_000, 1), "WAV · 32-bit float · 48 kHz · Mono");
    assert_eq!(line("wav", "pcm_s16le", Some(16), None, 44_100, 2), "WAV · 16-bit · 44,1 kHz · Stereo");
    assert_eq!(line("wav", "pcm_f32le", Some(32), None, 96_000, 2), "WAV · 32-bit float · 96 kHz · Stereo");
    assert_eq!(line("mp3", "mp3", None, Some(191_999), 48_000, 1), "MP3 · 192 kbit/s · 48 kHz · Mono");
    assert_eq!(line("m4a", "alac", Some(24), None, 44_100, 2), "M4A · ALAC 24-bit · 44,1 kHz · Stereo");
    assert_eq!(line("flac", "flac", Some(16), None, 44_100, 2), "FLAC · 16-bit · 44,1 kHz · Stereo");
    assert_eq!(line("ogg", "vorbis", None, Some(128_400), 44_100, 6), "OGG · Vorbis 128 kbit/s · 44,1 kHz · 6 Kanäle");
    assert_eq!(line("xyz", "opus", None, None, 48_000, 2), "Audio · OPUS · 48 kHz · Stereo");
    let d = describe("aiff", "pcm_alaw", None, None);
    assert_eq!((d.detail.as_str(), d.bits, d.float), ("PCM", None, false));
    let d = describe("wav", "pcm_f64le", None, None);
    assert_eq!((d.bits, d.float), (Some(64), true));
    assert_eq!(wav_codec(SampleKind::I24, 6, 2), ("pcm_s24le".to_string(), 24));
    assert_eq!(wav_codec(SampleKind::F64, 8, 1), ("pcm_f64le".to_string(), 64));
    assert_eq!(wav_codec(SampleKind::U8, 1, 0), ("pcm_u8".to_string(), 8));
}

fn place(path: &str) -> Place {
    Place { root: "/".to_string(), parts: path.split('/').map(|s| s.to_string()).collect() }
}

#[test]
fn audio_files_are_found() {
    assert!(is_audio("song.MP3") && is_audio("a.b.flac") && !is_audio(".song.mp3") && !is_audio("notes.txt"));
    assert_eq!((extension("A.WaV").as_str(), extension("none").as_str()), ("wav", ""));
    assert_eq!(visit("master", true, false, 0), Visit::Leave);
    assert_eq!(visit("sub", true, false, 0), Visit::Enter);
    assert_eq!(visit("sub", true, false, 24), Visit::Leave);
    assert_eq!(visit("x.ogg", false, true, 3), Visit::Take);
    let given = |p: &str, is_dir| Given { path: format!("/{p}"), place: place(p), is_dir };
    let k = intake(&vec![given("in", true), given("in", true), given("o/x.txt", false), given("o/y.m4a", false)]).unwrap();
    assert_eq!((k.roots.len(), k.walk, k.files), (2, vec![0, 1], vec![3]));
    assert_eq!(k.ignored[0].reason, "keine unterstützte Audiodatei");
    assert_eq!(intake(&vec![]).unwrap_err(), "Keine Ordner oder Dateien angegeben.");
    assert!(default_out_dir(&vec![place("d/in")]).is_same(&place("d/in/master")));
    assert!(default_out_dir(&vec![place("d/tracks")]).is_same(&place("d/master")));
    assert!(default_out_dir(&vec![place("d/sync")]).is_same(&place("d/master")));
}

fn found(path: &str, measured: Option<Result<Measured, String>>) -> FoundAudio {
    let mut parts: Vec<&str> = path.split('/').collect();
    let name = parts.pop().unwrap().to_string();
    FoundAudio { path: path.to_string(), name, folder: parts.last().unwrap_or(&"").to_string(), size: 240_000, measured }
}

fn measured(codec: &str, rate: u32, frames: u64, lufs: i64) -> Option<Result<Measured, String>> {
    Some(Ok(Measured { loudness: loud(lufs, -1_000_000), frames, channels: 2, rate, codec: codec.to_string(), bits: Some(16) }))
}

#[test]
fn files_are_planned_with_names_of_their_own() {
    let files = vec![
        found("a/Song.wav", measured("pcm_s16le", 48_000, 480_000, -20_000_000)),
        found("b/SONG.mp3", measured("mp3", 48_000, 480_000, -10_000_000)),
        found("c/song.flac", measured("flac", 48_000, 480_000, -80_000_000)),
        found("d/DJI_01_20260101_100000.WAV", measured("pcm_f32le", 47_000, 470_000, -20_000_000)),
        found("e/empty.wav", measured("pcm_s16le", 48_000, 0, -20_000_000)),
        found("e/bad.wav", Some(Err("Format wird nicht unterstützt".to_string()))),
        found("e/gone.wav", None),
        found("f/Σ.wav", measured("pcm_s16le", 48_000, 480_000, -20_000_000)),
        found("g/σ.wav", measured("pcm_s16le", 48_000, 480_000, -20_000_000)),
    ];
    let p = plan_files(&files, vec![]).unwrap();
    let names: Vec<&str> = p.files.iter().map(|f| f.out_name.as_str()).collect();
    assert_eq!(names, ["Song.mp3", "SONG_2.mp3", "song_3.mp3", "DJI_01_20260101_100000.mp3", "Σ.mp3", "σ_2.mp3"]);
    assert!(p.files.iter().enumerate().all(|(i, f)| f.id == i));
    assert_eq!(p.files[0].format, "WAV · 16-bit · 48 kHz · Stereo");
    assert_eq!((p.files[0].gain, p.files[0].limited, p.files[0].note.clone()), (Some(4_000_000), 4_500_000, None));
    assert_eq!((p.files[1].bit_rate, p.files[1].format.as_str()), (Some(192_000), "MP3 · 192 kbit/s · 48 kHz · Stereo"));
    assert_eq!((p.files[2].gain, p.files[2].note.as_deref()), (None, Some("Stille, keine Lautheit messbar")));
    assert_eq!((p.files[3].gain, p.files[3].note.as_deref()), (None, Some("Abtastrate 47000 Hz wird für MP3 nicht unterstützt")));
    assert!(p.files[3].dji_part && !p.files[0].dji_part);
    let reasons: Vec<&str> = p.ignored.iter().map(|s| s.reason.as_str()).collect();
    assert_eq!(reasons, ["enthält keine Audiodaten", "Format wird nicht unterstützt", "nicht lesbar"]);
    assert_eq!(p.files[5].file, 8);
    assert_eq!(plan_files(&vec![found("x.wav", None)], vec![]).unwrap_err(), "Keine lesbaren Audiodateien gefunden.");

    let wanted = wanted_results(&p.files);
    assert_eq!(wanted[2].refusal.as_deref(), Some("Stille, keine Lautheit messbar"));
    assert_eq!((wanted[0].refusal.clone(), wanted[0].name.as_str(), wanted[0].bytes), (None, "Song.mp3", 305_536));
    assert!(wanted.iter().enumerate().all(|(i, w)| w.entry == i && w.id == i));
}

#[test]
fn results_are_judged_and_sorted() {
    let done = ended(2, "/m/x.mp3", &Some(Ok(loud(-16_000_000, -2_000_000))));
    assert_eq!((done.status, done.path.as_deref(), done.result.is_some()), (Status::Written, Some("/m/x.mp3"), true));
    let stopped = ended(1, "/m/y.mp3", &Some(Err("Abgebrochen.".to_string())));
    assert_eq!((stopped.status, stopped.message.clone()), (Status::Cancelled, None));
    let failed = ended(4, "/m/z.mp3", &Some(Err("voll".to_string())));
    assert_eq!((failed.status, failed.message.as_deref()), (Status::Failed, Some("voll")));
    let broken = ended(3, "/m/q.mp3", &None);
    assert_eq!(broken.message.as_deref(), Some("abgebrochen (interner Fehler)"));
    let s = summary("/m".to_string(), vec![done, stopped, failed, broken], true);
    assert_eq!(s.outcomes.iter().map(|o| o.id).collect::<Vec<_>>(), [1, 2, 3, 4]);
    assert!(s.cancelled && s.out_dir == "/m");
}

#[test]
fn every_chosen_result_is_told_once() {
    let lufs = [-20_000_000, -80_000_000, -20_000_000, -20_000_000, -20_000_000];
    let names = ["a/x.wav", "b/quiet.wav", "c/there.wav", "d/y.wav", "e/z.wav"];
    let files = names.iter().zip(lufs).map(|(n, l)| found(n, measured("pcm_s16le", 48_000, 480_000, l))).collect();
    let p = plan_files(&files, vec![]).unwrap();
    let mut batch = Batch::start("/m/".to_string(), ".mp3", pick(wanted_results(&p.files), &vec![4, 3, 1, 2, 9]));
    while batch.at < batch.wanted.len() {
        if let Some(name) = batch.offer() {
            let found = if name == "there.mp3" { Occupant::Same } else { Occupant::Free };
            assert!(batch.settle(&name, found));
        }
    }
    let ends = vec![Some(Err("Abgebrochen.".to_string())), Some(Ok(loud(-16_000_000, -2_000_000)))];
    let s = conclude(&batch, &ends, "/m".to_string(), true);
    let told: Vec<_> = s.outcomes.iter().map(|o| (o.id, o.status, o.path.as_deref(), o.result.is_some())).collect();
    assert_eq!(
        told,
        [
            (1, Status::Failed, None, false),
            (2, Status::Existing, Some("/m/there.mp3"), false),
            (3, Status::Cancelled, None, false),
            (4, Status::Written, Some("/m/z.mp3"), true),
        ]
    );
    assert_eq!(s.outcomes[0].message.as_deref(), Some("Stille, keine Lautheit messbar"));
}

#[test]
fn results_are_recognised_by_their_length() {
    // 100 s at 192 kbit/s are 2.4 MB; two percent are allowed.
    assert!(is_same_length(2_400_000, 4_800_000, 48_000));
    assert!(is_same_length(2_448_000, 4_800_000, 48_000));
    assert!(!is_same_length(2_448_001, 4_800_000, 48_000));
    // Short ones may differ by a second.
    assert!(is_same_length(264_000, 480_000, 48_000));
    assert!(!is_same_length(264_001, 480_000, 48_000));
    assert_eq!(result_bytes(480_000, 48_000), 305_536);
}

#[test]
fn encoder_takes_its_settings() {
    let stereo = open_encoder(2, 44_100, "Titel").ok().unwrap();
    let e = stereo.into_encoder();
    assert_eq!((e.num_channels(), e.sample_rate(), e.is_lame_tag_written()), (2, 44_100, false));
    assert!(e.id3v2_tag_size() > 0);
    let mono = open_encoder(1, 48_000, "x").ok().unwrap().into_encoder();
    assert_eq!((mono.num_channels(), mono.sample_rate()), (1, 48_000));
    assert!(matches!(open_encoder(3, 48_000, "x"), Err(EncoderError::Setting)));
    assert!(matches!(open_encoder(0, 48_000, "x"), Err(EncoderError::Setting)));
    assert!(matches!(open_encoder(2, 0, "x"), Err(EncoderError::Setting)));
    assert!(matches!(open_with(None, 2, 48_000, "x"), Err(EncoderError::Unavailable)));
    let s = settings_for(1, 8000);
    assert_eq!((s.channels, s.rate, s.mode, s.bit_rate, s.care, s.variation, s.vbr_tag), (1, 8000, ChannelMode::Mono, BitRate::Kbps192, Care::NearBest, Variation::Constant, false));
    for (channels, rate) in [(1, 8000), (2, 7), (1, 1), (2, 192_000), (2, u32::MAX)] {
        let o = open_encoder(channels, rate, "x").ok().unwrap().into_encoder();
        assert_eq!((o.num_channels(), o.sample_rate()), (channels, rate.min(2_147_483_647)));
    }
    assert_eq!(channel_mode(1), ChannelMode::Mono);
    assert_eq!(channel_mode(2), ChannelMode::JointStereo);
    assert_eq!(EncoderError::Setting.text(), lame_err(17u8));
    assert_eq!(EncoderError::Unavailable.text(), "MP3-Encoder nicht verfügbar");
}

#[test]
fn encoder_writes_192_kbit_frames() {
    let mut e = open_encoder(2, 44_100, "Probe am See").ok().unwrap().into_encoder();
    let pcm: Vec<i16> = (0..44_100 * 2).map(|i| ((i % 200) * 100) as i16).collect();
    let mut out = Vec::with_capacity(mp3lame_encoder::max_required_buffer_size(44_100));
    e.encode_to_vec(mp3lame_encoder::InterleavedPcm(&pcm), &mut out).unwrap();
    let tag = e.id3v2_tag_size();
    assert_eq!(&out[..3], b"ID3");
    // MPEG 1 layer III, 192 kbit/s, 44.1 kHz, joint stereo.
    assert_eq!((out[tag], out[tag + 1] & 0xFE, out[tag + 2] >> 4, (out[tag + 2] >> 2) & 3, out[tag + 3] >> 6), (0xFF, 0xFA, 11, 0, 1));
    assert!(out.windows(12).any(|w| w == b"Probe am See"));
    assert!(out.windows(22).any(|w| w == b"PrepareAudio: -16 LUFS"));
}

#[test]
fn meter_measures_what_it_was_opened_for() {
    let mut m = open_meter(1, 48_000, Measure::Everything).ok().unwrap().into_meter();
    assert_eq!((m.channels(), m.rate()), (1, 48_000));
    let tone: Vec<f32> = (0..480_000).map(|i| (std::f64::consts::TAU * 997.0 * i as f64 / 48_000.0).sin() as f32).collect();
    m.add_frames_f32(&tone).unwrap();
    assert!((m.loudness_global().unwrap() + 3.01).abs() < 0.1);
    assert!(m.true_peak(0).unwrap() > 0.99 && m.loudness_range().is_ok());
    let l = open_meter(2, 44_100, Measure::Loudness).ok().unwrap().into_meter();
    assert!(l.loudness_global().is_ok() && l.true_peak(0).is_err());
    assert_eq!(open_meter(0, 48_000, Measure::Loudness).err().unwrap(), "Lautheitsmessung: NoMem");
    assert_eq!(open_meter(65, 48_000, Measure::Loudness).err().unwrap(), MeterError::NoMem.text());
    assert!(open_meter(1, 15, Measure::Loudness).is_err());
    assert!(open_meter(64, 16, Measure::Loudness).is_ok());
}

#[test]
fn engine_is_named_with_its_version() {
    assert_eq!(label_with("3.100"), "Symphonia · ebur128 · LAME 3.100");
    assert_eq!(engine_label(), "Symphonia · ebur128 · LAME 3.100");
}
