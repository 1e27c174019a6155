use prepare_audio::calendar::{civil_from_secs, days_from_civil, fmt_date, fmt_datetime, fmt_time};
use prepare_audio::names::{
    extension, is_output_label, is_own_output, is_wav_name, mono_file_name, numbered_name, parse_dji_name, parse_track_name, stamp, stem_of, stereo_file_name,
    track_file_name,
};
use prepare_audio::recording::sanitize;
use prepare_audio::track::{label_less, label_order, role_of, Role};

#[test]
fn parses_names() {
    let t = days_from_civil(2026, 9, 8) * 86400 + 7 * 3600 + 29 * 60 + 8;
    assert_eq!(parse_dji_name("DJI_01_20260908_072908.WAV"), Some((1, t)));
    assert_eq!(parse_dji_name("dji_01_20260908_072908 (1).wav"), Some((1, t)));
    assert_eq!(parse_dji_name("Kopie von DJI_1234_20260908_072908.WAV"), Some((1234, t)));
    assert_eq!(parse_dji_name("DJI_01_20261308_072908.WAV"), None);
    assert_eq!(parse_dji_name("DJI_01_20260908_0729081.WAV"), None);
    assert_eq!(parse_dji_name("interview.wav"), None);
    assert_eq!(days_from_civil(1970, 1, 1), 0);
    assert_eq!(civil_from_secs(t), (2026, 9, 8, 7, 29, 8));
    assert_eq!(civil_from_secs(days_from_civil(2024, 2, 29) * 86400), (2024, 2, 29, 0, 0, 0));
}

#[test]
fn recorder_names_hold_dates_of_the_calendar() {
    let at = |y: i64, m: i64, d: i64| Some((1, days_from_civil(y, m, d) * 86400 + 36_000));
    assert_eq!(parse_dji_name("DJI_01_20260228_100000.WAV"), at(2026, 2, 28));
    assert_eq!(parse_dji_name("DJI_01_20260229_100000.WAV"), None);
    assert_eq!(parse_dji_name("DJI_01_20260231_100000.WAV"), None);
    assert_eq!(parse_dji_name("DJI_01_20280229_100000.WAV"), at(2028, 2, 29));
    assert_eq!(parse_dji_name("DJI_01_20260431_100000.WAV"), None);
    assert_eq!(parse_dji_name("DJI_01_19700101_100000.WAV"), at(1970, 1, 1));
    assert_eq!(parse_dji_name("DJI_01_20991231_100000.WAV"), at(2099, 12, 31));
    assert_eq!(parse_dji_name("DJI_01_19691231_100000.WAV"), None);
    assert_eq!(parse_dji_name("DJI_01_21000101_100000.WAV"), None);
}

#[test]
fn recorder_names_are_read_in_any_case_and_place() {
    let name = "DJI_07_20260908_072908_x.WAV";
    let read = parse_dji_name(name);
    assert!(read.is_some());
    assert_eq!(parse_dji_name(&name.to_lowercase()), read);
    assert_eq!(parse_dji_name(&name.to_uppercase()), read);
    for before in ["Kopie von ", "Band d dji dji_ DJI_01_x ", "dj", "DJI_DJI_"] {
        assert_eq!(parse_dji_name(&format!("{before}{name}")), read);
    }
    // A name that begins before it is the one that is read.
    assert_eq!(parse_dji_name(&format!("DJI_3_19700101_000000 {name}")), Some((3, 0)));
    assert_eq!(parse_dji_name("DJI_999999_20991231_235959.WAV"), Some((999_999, 4_102_444_799)));
    assert_eq!(parse_dji_name("DJI_1000000_20991231_235959.WAV"), None);
}

#[test]
fn parses_track_names() {
    let (t, label) = parse_track_name("260906_S112326-E122449_D010123_4.wav").unwrap();
    assert_eq!(label, "4");
    assert_eq!(civil_from_secs(t), (2026, 9, 6, 11, 23, 26));
    assert_eq!(parse_track_name("260906_S173229-E181432_D004203_zürich-5.wav").unwrap().1, "zürich-5");
    assert!(parse_track_name("DJI_01_20260906_092321.WAV").is_none());
    assert!(is_output_label("stereo_L-4_R-5"));
}

#[test]
fn own_results_are_recognised() {
    assert!(is_own_output("260906_S173233-E181430_D004157_4_2.wav"));
    assert!(!is_own_output("DJI_07_20260906_173233.WAV"));
    assert!(!is_output_label("4"));
}

#[test]
fn track_names_read_back() {
    let start = days_from_civil(2026, 1, 1) * 86400 + 10 * 3600;
    let name = track_file_name(start, 24, "a");
    assert_eq!(name, "260101_S100000-E100024_D000024_a.wav");
    assert_eq!(parse_track_name(&name), Some((start, "a".to_string())));
    assert_eq!(stamp(start, 3661), "260101_S100000-E110101_D010101");
    assert_eq!(stereo_file_name(start, 60, "4", "5"), "260101_S100000-E100100_D000100_stereo_L-4_R-5.wav");
    assert!(is_output_label(&parse_track_name(&stereo_file_name(start, 60, "4", "5")).unwrap().1));
    assert!(is_output_label(&parse_track_name(&mono_file_name(start, 60, "5")).unwrap().1));
}

#[test]
fn names_are_numbered_behind_their_stem() {
    assert_eq!(stem_of("a.wav.wav"), "a");
    assert_eq!(numbered_name("a.wav", 2), "a_2.wav");
    assert_eq!(numbered_name("b", 10), "b_10.wav");
}

#[test]
fn numbered_results_are_known_again() {
    for label in ["4", "x.wav", ".wav", "stereo_L-4_R-5"] {
        let name = track_file_name(1_757_316_548, 75, label);
        let start = parse_track_name(&name).unwrap().0;
        let second = numbered_name(&name, 2);
        assert!(is_own_output(&second), "{second}");
        assert_eq!(parse_track_name(&second).unwrap().0, start);
    }
}

#[test]
fn extensions_stand_behind_the_last_dot() {
    assert_eq!(extension("a.b.WAV"), Some("WAV".to_string()));
    assert_eq!(extension(".hidden"), None);
    assert_eq!(extension("plain"), None);
    assert!(is_wav_name("DJI_01.WaV"));
    assert!(!is_wav_name("._DJI_01.wav"));
    assert!(!is_wav_name("DJI_01.wave"));
}

#[test]
fn dates_before_1970_count_backwards() {
    assert_eq!(days_from_civil(1969, 12, 31), -1);
    assert_eq!(civil_from_secs(-1), (1969, 12, 31, 23, 59, 59));
    assert_eq!(days_from_civil(2000, 3, 1) - days_from_civil(2000, 2, 28), 2);
    assert_eq!(days_from_civil(1901, 1, 1) - days_from_civil(1900, 1, 1), 365);
}

#[test]
fn times_are_written_out() {
    let t = days_from_civil(2026, 9, 8) * 86400 + 7 * 3600 + 29 * 60 + 8;
    assert_eq!(fmt_date(2026, 9, 8), "08.09.2026");
    assert_eq!(fmt_time(7, 29, 8), "07:29:08");
    assert_eq!(fmt_datetime(t), "08.09.2026 07:29:08");
}

#[test]
fn folder_names_become_labels() {
    assert_eq!(sanitize("Zürich 5 (alt)"), "Zürich-5--alt");
    assert_eq!(sanitize("--4--"), "4");
    assert_eq!(sanitize("a_b"), "a_b");
    assert_eq!(sanitize(&"x".repeat(50)), "x".repeat(40));
}

#[test]
fn labels_with_numbers_are_in_numeric_order() {
    assert!(label_less("4", "5"));
    assert!(label_less("9", "10"));
    assert!(!label_less("10", "9"));
    assert!(label_less("a", "b"));
    assert_eq!(label_order("4", "4"), std::cmp::Ordering::Equal);
}

#[test]
fn roles_follow_from_names() {
    assert!(matches!(role_of("260906_S112326-E122449_D010123_stereo_L-4_R-5.wav"), Role::Output));
    assert!(matches!(role_of("260906_S112326-E122449_D010123_4.wav"), Role::Finished(_, _)));
    assert!(matches!(role_of("DJI_01_20260906_092321.WAV"), Role::Other));
}
