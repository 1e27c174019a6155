use prepare_audio::wav::{decode_sample, header_len, output_size, read_info, write_header, Amplitude, HeaderReader, SampleKind, Stage, WavError, RIFF_LIMIT};

fn fmt_of(tag: u16, channels: u16, sr: u32, bits: u16) -> Vec<u8> {
    let align = channels * bits / 8;
    let mut f = Vec::new();
    f.extend_from_slice(&tag.to_le_bytes());
    f.extend_from_slice(&channels.to_le_bytes());
    f.extend_from_slice(&sr.to_le_bytes());
    f.extend_from_slice(&(sr * align as u32).to_le_bytes());
    f.extend_from_slice(&align.to_le_bytes());
    f.extend_from_slice(&bits.to_le_bytes());
    f
}

fn fmt_float(sr: u32) -> Vec<u8> {
    fmt_of(3, 1, sr, 32)
}

fn sine(freq: f64, amp: f64, sr: u32, start: u64, count: u64) -> Vec<f32> {
    (start..start + count).map(|i| (amp * (std::f64::consts::TAU * freq * i as f64 / sr as f64).sin()) as f32).collect()
}

/// A mono float WAV file with extra raw chunks before `fmt ` and after `data`.
fn wav_with(sr: u32, samples: &[f32], before: &[u8], after: &[u8]) -> Vec<u8> {
    let data: Vec<u8> = samples.iter().flat_map(|s| s.to_le_bytes()).collect();
    let mut f = b"RIFF".to_vec();
    f.extend_from_slice(&((4 + before.len() + 8 + 16 + 8 + data.len() + after.len()) as u32).to_le_bytes());
    f.extend_from_slice(b"WAVE");
    f.extend_from_slice(before);
    f.extend_from_slice(b"fmt ");
    f.extend_from_slice(&16u32.to_le_bytes());
    f.extend_from_slice(&fmt_float(sr));
    f.extend_from_slice(b"data");
    f.extend_from_slice(&(data.len() as u32).to_le_bytes());
    f.extend_from_slice(&data);
    f.extend_from_slice(after);
    f
}

#[test]
fn reads_dji_style_header() {
    let file = wav_with(48000, &sine(440.0, 0.5, 48000, 0, 4800), &[], &[]);
    let info = read_info(&file).unwrap();
    assert_eq!(info.channels, 1);
    assert_eq!(info.sample_rate, 48000);
    assert_eq!(info.frames(), 4800);
    assert_eq!(info.data_offset, 44);
    assert_eq!(info.sample_kind(), Some(SampleKind::F32));
    assert!(!info.repaired);
    assert_eq!(info.format_label(), "48 kHz · 32-bit float · Mono");
}

#[test]
fn repairs_missing_data_size() {
    let mut bytes = wav_with(48000, &sine(440.0, 0.5, 48000, 0, 1000), &[], &[]);
    // Zero the data size field like a recorder that lost power, and add a stray byte.
    bytes[40..44].copy_from_slice(&0u32.to_le_bytes());
    bytes.push(7);
    let info = read_info(&bytes).unwrap();
    assert!(info.repaired);
    assert_eq!(info.frames(), 1000);
}

#[test]
fn repairs_data_size_that_no_chunk_announces() {
    let mut bytes = wav_with(48000, &sine(440.0, 0.5, 48000, 0, 1000), &[], &[]);
    bytes[40..44].copy_from_slice(&[0xFF; 4]);
    let info = read_info(&bytes).unwrap();
    assert_eq!((info.data_len, info.repaired), (4000, true));
}

#[test]
fn riff_and_rf64_roundtrip() {
    let fmt = fmt_float(8000);
    let data: Vec<u8> = (0u32..1000).flat_map(|i| (i as f32).to_le_bytes()).collect();
    for limit in [RIFF_LIMIT, 100] {
        let mut out = Vec::new();
        write_header(&mut out, &fmt, data.len() as u64, 1000, limit);
        assert_eq!(out.len() as u64, header_len(fmt.len()));
        out.extend_from_slice(&data);
        let info = read_info(&out).unwrap();
        assert_eq!(&out[0..4], if limit == 100 { b"RF64" } else { b"RIFF" });
        assert_eq!(info.data_len, data.len() as u64);
        assert_eq!(info.fmt, fmt);
        assert_eq!(info.file_size, output_size(fmt.len(), data.len() as u64));
        assert!(!info.repaired);
        let back = &out[info.data_offset as usize..(info.data_offset + info.data_len) as usize];
        assert_eq!(back, &data[..]);
    }
}

#[test]
fn odd_data_is_padded_to_even_length() {
    let fmt = fmt_of(1, 1, 8000, 8);
    let mut out = Vec::new();
    write_header(&mut out, &fmt, 3, 3, RIFF_LIMIT);
    assert_eq!(output_size(fmt.len(), 3), out.len() as u64 + 4);
    out.extend_from_slice(&[1, 2, 3, 0]);
    let info = read_info(&out).unwrap();
    assert_eq!((info.data_len, info.frames(), info.repaired), (3, 3, false));
}

#[test]
fn header_is_read_piece_by_piece() {
    let file = wav_with(8000, &sine(440.0, 0.5, 8000, 0, 80), b"LIST\x03\0\0\0abc\0", b"bext\x02\0\0\0xy");
    let mut reader = HeaderReader::new(file.len() as u64);
    let mut pieces = 0;
    loop {
        let (at, n) = match reader.request() {
            Some(x) => x,
            None => break,
        };
        reader.feed(&file[at as usize..(at + n) as usize]);
        pieces += 1;
    }
    assert!(pieces > 2);
    match reader.stage {
        Stage::Over(Ok(info)) => assert_eq!((info.frames(), info.data_offset, info.repaired), (80, 56, false)),
        other => panic!("{other:?}"),
    }
}

#[test]
fn broken_headers_are_told_apart() {
    let good = wav_with(8000, &sine(440.0, 0.5, 8000, 0, 8), &[], &[]);
    assert_eq!(read_info(&good[..11]).unwrap_err().message(), WavError::TooShort.message());
    let mut other = good.clone();
    other[8..12].copy_from_slice(b"AVI ");
    assert_eq!(read_info(&other).unwrap_err().message(), WavError::NotWave.message());
    let mut early = good.clone();
    early[12..16].copy_from_slice(b"data");
    assert_eq!(read_info(&early).unwrap_err().message(), WavError::DataBeforeFmt.message());
    let mut zero = good.clone();
    zero[22..24].copy_from_slice(&0u16.to_le_bytes());
    assert_eq!(read_info(&zero).unwrap_err().message(), WavError::BadFormat.message());
    let mut small = good.clone();
    small[16..20].copy_from_slice(&4u32.to_le_bytes());
    assert_eq!(read_info(&small).unwrap_err().message(), WavError::BadFmtChunk.message());
    assert_eq!(read_info(&good[..36]).unwrap_err().message(), WavError::NoData.message());
}

#[test]
fn samples_of_all_kinds_are_decoded() {
    let ratio = |a: Amplitude| match a {
        Amplitude::Ratio { num, den } => num as f64 / den as f64,
        other => panic!("{other:?}"),
    };
    assert_eq!(ratio(decode_sample(&[192], SampleKind::U8)), 0.5);
    assert_eq!(ratio(decode_sample(&[0], SampleKind::U8)), -1.0);
    assert_eq!(ratio(decode_sample(&(-16384i16).to_le_bytes(), SampleKind::I16)), -0.5);
    assert_eq!(ratio(decode_sample(&[0, 0, 0xC0], SampleKind::I24)), -0.5);
    assert_eq!(ratio(decode_sample(&(1i32 << 30).to_le_bytes(), SampleKind::I32)), 0.5);
    match decode_sample(&0.25f32.to_le_bytes(), SampleKind::F32) {
        Amplitude::Single { single } => assert_eq!(f32::from_bits(single), 0.25),
        other => panic!("{other:?}"),
    }
    match decode_sample(&(-0.75f64).to_le_bytes(), SampleKind::F64) {
        Amplitude::Double { double } => assert_eq!(f64::from_bits(double), -0.75),
        other => panic!("{other:?}"),
    }
}

#[test]
fn durations_are_rounded_to_nanoseconds() {
    let info = read_info(&wav_with(8000, &vec![0f32; 12_000], &[], &[])).unwrap();
    assert_eq!(info.duration(), 1_500_000_000);
    let info = read_info(&wav_with(44_100, &[0f32], &[], &[])).unwrap();
    assert_eq!(info.duration(), 22_676);
}

#[test]
fn formats_are_labelled() {
    let label = |fmt: Vec<u8>, frame: usize| {
        let mut out = Vec::new();
        write_header(&mut out, &fmt, frame as u64, 1, RIFF_LIMIT);
        out.extend(vec![0u8; frame + frame % 2]);
        read_info(&out).unwrap().format_label()
    };
    assert_eq!(label(fmt_of(1, 2, 44100, 16), 4), "44.1 kHz · 16-bit PCM · Stereo");
    assert_eq!(label(fmt_of(1, 6, 48000, 24), 18), "48 kHz · 24-bit PCM · 6 Kanäle");
    assert_eq!(label(fmt_of(2, 1, 11025, 16), 2), "11.0 kHz · 16-bit Codec · Mono");
}
