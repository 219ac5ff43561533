use flac_chop_core::companions::{
    capture_base, classify_wav_chunk, companion_matches, is_riff_wave, log_duration_span, read_wav_format,
    wav_duration_inputs, wav_header, WavChunk, WavFormat,
};

fn parse_log_duration(text: &str) -> Option<f64> {
    let b = text.as_bytes();
    let (a, e) = log_duration_span(b)?;
    std::str::from_utf8(&b[a..e]).ok()?.parse::<f64>().ok()
}

fn wav_duration(bytes: &[u8]) -> Option<f64> {
    let (header, _) = wav_header(bytes);
    let (format, data) = header?;
    let (f, size) = wav_duration_inputs(format, data)?;
    let frames = size as f64 / (f.channels as f64 * (f.bits_per_sample as f64 / 8.0));
    Some(frames / f.sample_rate as f64)
}

fn make_wav(pre_chunks: &[(&[u8; 4], usize)], data_size: u32) -> Vec<u8> {
    let mut v: Vec<u8> = Vec::new();
    v.extend_from_slice(b"RIFF");
    v.extend_from_slice(&0u32.to_le_bytes());
    v.extend_from_slice(b"WAVE");
    for (id, sz) in pre_chunks {
        v.extend_from_slice(*id);
        v.extend_from_slice(&(*sz as u32).to_le_bytes());
        v.extend(std::iter::repeat(0u8).take(sz + (sz & 1)));
    }
    v.extend_from_slice(b"fmt ");
    v.extend_from_slice(&16u32.to_le_bytes());
    v.extend_from_slice(&1u16.to_le_bytes());
    v.extend_from_slice(&2u16.to_le_bytes());
    v.extend_from_slice(&48000u32.to_le_bytes());
    v.extend_from_slice(&(48000u32 * 4).to_le_bytes());
    v.extend_from_slice(&4u16.to_le_bytes());
    v.extend_from_slice(&16u16.to_le_bytes());
    v.extend_from_slice(b"data");
    v.extend_from_slice(&data_size.to_le_bytes());
    v
}

#[test]
fn capture_base_finds_timestamp() {
    assert_eq!(
        capture_base("VHS_PAL_SP_Tape_12_2026.07.10_22.32.43_video_rf_8-bit_20msps".as_bytes()),
        "VHS_PAL_SP_Tape_12_2026.07.10_22.32.43".as_bytes()
    );
}

#[test]
fn capture_base_no_timestamp_returns_whole_stem() {
    assert_eq!(capture_base("plain_file".as_bytes()), "plain_file".as_bytes());
}

#[test]
fn capture_base_takes_the_first_timestamp_and_needs_all_19_bytes() {
    let s = "a_2026.07.10_22.32.43_b_2027.01.01_00.00.00_c";
    assert_eq!(capture_base(s.as_bytes()), "a_2026.07.10_22.32.43".as_bytes());
    let cut = "x_2026.07.10_22.32.4";
    assert_eq!(capture_base(cut.as_bytes()), cut.as_bytes());
    let wrong_sep = "x_2026-07-10_22.32.43";
    assert_eq!(capture_base(wrong_sep.as_bytes()), wrong_sep.as_bytes());
}

#[test]
fn parse_log_duration_misrc_format() {
    let log = "...Recording stopped: duration=6120.27s (01.42.00) rawA=...";
    assert!((parse_log_duration(log).unwrap() - 6120.27).abs() < 1e-6);
}

#[test]
fn parse_log_duration_case_insensitive_and_colon() {
    let log = "Capture Duration: 3517.5 seconds";
    assert!((parse_log_duration(log).unwrap() - 3517.5).abs() < 1e-6);
}

#[test]
fn parse_log_duration_absent_returns_none() {
    assert_eq!(parse_log_duration("no timing info here"), None);
}

#[test]
fn log_duration_span_points_at_the_number() {
    let t = b"xx DURATION = 12.5s";
    assert_eq!(log_duration_span(t), Some((14, 18)));
    // a bare word without a number is skipped; the next one counts
    assert_eq!(log_duration_span(b"duration? duration=7"), Some((19, 20)));
    // two dots do not make a number
    assert_eq!(log_duration_span(b"duration=1.2.3"), None);
}

#[test]
fn log_duration_is_searched_in_the_first_64k_only() {
    let mut t = vec![b'x'; 0x1_0000];
    t.extend_from_slice(b"duration=5");
    assert_eq!(log_duration_span(&t), None);
    let mut u = vec![b'x'; 0x1_0000 - 10];
    u.extend_from_slice(b"duration=5");
    assert_eq!(log_duration_span(&u), Some((0x1_0000 - 1, 0x1_0000)));
}

#[test]
fn wav_duration_plain() {
    let d = wav_duration(&make_wav(&[], 192_000)).unwrap();
    assert!((d - 1.0).abs() < 1e-9);
}

#[test]
fn wav_duration_with_bext_and_junk_before_data() {
    let d = wav_duration(&make_wav(&[(b"bext", 602), (b"JUNK", 512)], 384_000)).unwrap();
    assert!((d - 2.0).abs() < 1e-9);
}

#[test]
fn wav_duration_odd_sized_chunk_is_word_aligned() {
    let d = wav_duration(&make_wav(&[(b"LIST", 33)], 96_000)).unwrap();
    assert!((d - 0.5).abs() < 1e-9);
}

#[test]
fn wav_unfinalized_data_size_rejected() {
    assert_eq!(wav_duration(&make_wav(&[], 0)), None);
    assert_eq!(wav_duration(&make_wav(&[], u32::MAX)), None);
}

#[test]
fn wav_non_riff_rejected() {
    assert_eq!(wav_duration(b"FORM....AIFF"), None);
}

#[test]
fn wav_chunk_headers_are_classified() {
    assert_eq!(classify_wav_chunk(b"fmt \x12\x00\x00\x00"), WavChunk::Fmt { extra: 2 });
    assert_eq!(classify_wav_chunk(b"fmt \x11\x00\x00\x00"), WavChunk::Fmt { extra: 2 });
    assert_eq!(classify_wav_chunk(b"fmt \x0f\x00\x00\x00"), WavChunk::Reject);
    assert_eq!(classify_wav_chunk(b"data\x10\x27\x00\x00"), WavChunk::Data { size: 10_000 });
    assert_eq!(classify_wav_chunk(b"LIST\x21\x00\x00\x00"), WavChunk::Other { skip: 34 });
    assert_eq!(classify_wav_chunk(b"JUNK\xff\xff\xff\xff"), WavChunk::Other { skip: 0x1_0000_0000 });
}

#[test]
fn wav_format_fields_and_zero_checks() {
    let body = [1, 0, 2, 0, 0x80, 0xBB, 0, 0, 0, 0, 0, 0, 4, 0, 16, 0];
    let f = read_wav_format(&body);
    assert_eq!(f, WavFormat { channels: 2, sample_rate: 48_000, bits_per_sample: 16 });
    assert_eq!(wav_duration_inputs(Some(f), Some(7)), Some((f, 7)));
    assert_eq!(wav_duration_inputs(Some(f), None), None);
    assert_eq!(wav_duration_inputs(None, Some(7)), None);
    let mono0 = WavFormat { channels: 0, ..f };
    assert_eq!(wav_duration_inputs(Some(mono0), Some(7)), None);
    assert!(is_riff_wave(b"RIFF\0\0\0\0WAVEfmt "));
    assert!(!is_riff_wave(b"RIFF\0\0\0\0WAV"));
    assert!(!is_riff_wave(b"RF64\0\0\0\0WAVE"));
}

#[test]
fn companions_share_the_base_and_the_extension() {
    let base = b"Tape_X_2026.07.10_22.32.43";
    assert!(companion_matches(b"Tape_X_2026.07.10_22.32.43_misrc_capture", b"LOG", base, b"log"));
    assert!(companion_matches(base, b"wav", base, b"wav"));
    assert!(!companion_matches(b"Tape_X_2026.07.10_22.32.43_misrc_capture", b"logs", base, b"log"));
    assert!(!companion_matches(b"Tape_Y_2026.07.10_22.32.43", b"log", base, b"log"));
    assert!(!companion_matches(b"Tape_X", b"log", base, b"log"));
}

#[test]
fn wav_walk_reports_running_out_of_bytes() {
    let w = make_wav(&[(b"bext", 602)], 1000);
    // cut inside the bext body: the walk needs more bytes
    assert_eq!(wav_header(&w[..100]).1, true);
    assert_eq!(wav_header(&w[..8]), (None, true));
    let (h, more) = wav_header(&w);
    assert!(!more);
    assert_eq!(h.unwrap().1, Some(1000));
    // a file that ends before any data chunk gives its format and no size
    let mut no_data = w.clone();
    no_data.truncate(w.len() - 8);
    let (h2, more2) = wav_header(&no_data);
    assert!(more2);
    assert_eq!(h2.unwrap().1, None);
}
