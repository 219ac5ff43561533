use flac_chop_core::chain::parse_metadata_chain;
use flac_chop_core::frame::{parse_frame_header, read_utf8_coded};
use flac_chop_core::probe::{
    check_total_samples, estimate_wrapped_total, find_audio_offset, probe_header, probe_stream_info,
    resolve_total_samples, wants_companion, wants_frame_scan, ProbeError, StreamInfo,
    TotalSamples, FLAC_TOTAL_SAMPLES_FIELD_MOD,
};
use flac_chop_core::scan::{carry_start, scan_after_chunk, scan_start, scan_window};

fn crc8(data: &[u8]) -> u8 {
    let mut crc: u8 = 0;
    for &b in data {
        crc ^= b;
        for _ in 0..8 {
            crc = if crc & 0x80 != 0 { (crc << 1) ^ 0x07 } else { crc << 1 };
        }
    }
    crc
}

/// A fixed-block-size frame header (4096 samples) with frame number `n` < 128.
fn frame_header(n: u8) -> Vec<u8> {
    let mut h = vec![0xFF, 0xF8, 0xC9, 0x08, n];
    let c = crc8(&h);
    h.push(c);
    h
}

fn streaminfo_body(rate: u64, channels: u64, bits: u64, total: u64, min_frame: u32, max_frame: u32) -> Vec<u8> {
    let mut si = Vec::new();
    si.extend_from_slice(&4096u16.to_be_bytes());
    si.extend_from_slice(&4096u16.to_be_bytes());
    si.extend_from_slice(&min_frame.to_be_bytes()[1..]);
    si.extend_from_slice(&max_frame.to_be_bytes()[1..]);
    let packed: u64 = (rate << 44) | ((channels - 1) << 41) | ((bits - 1) << 36) | total;
    si.extend_from_slice(&packed.to_be_bytes());
    si.extend_from_slice(&[0u8; 16]);
    si
}

fn minimal_flac(total: u64) -> Vec<u8> {
    let mut f = b"fLaC".to_vec();
    f.extend_from_slice(&[0x00, 0x00, 0x00, 34]);
    f.extend_from_slice(&streaminfo_body(10000, 1, 8, total, 0, 0));
    f.extend_from_slice(&[0x81, 0x00, 0x00, 0x04, 0, 0, 0, 0]);
    f.extend_from_slice(&[0xFF, 0xF8, 0xCC, 0x02]);
    f
}

fn si(samples: Option<u64>, min_frame: Option<u32>, max_frame: Option<u32>) -> StreamInfo {
    StreamInfo {
        min_block_size: 65535,
        max_block_size: 65535,
        min_frame_size: min_frame,
        max_frame_size: max_frame,
        sample_rate: 20000,
        channels: 1,
        bits_per_sample: 8,
        samples,
    }
}

#[test]
fn check_trusts_short_file_no_wrap() {
    let (trust, corrected) = check_total_samples(
        1_200_000_000,
        1_000_000_000,
        65535,
        65535,
        Some(64_000),
        Some(70_000),
        1,
        8,
    );
    assert!(trust);
    assert_eq!(corrected, None);
}

#[test]
fn check_detects_wrap_and_recovers_precisely() {
    let declared: u64 = 49_528_274_364;
    let audio_bytes: u64 = 115_000_000_000;
    let (trust, corrected) = check_total_samples(
        declared,
        audio_bytes,
        65535,
        65535,
        Some(60_000),
        Some(74_000),
        1,
        8,
    );
    assert!(!trust);
    let c = corrected.expect("expected a unique recovery");
    assert_eq!(c - declared, FLAC_TOTAL_SAMPLES_FIELD_MOD);
    assert_eq!(c, 118_247_751_100);
}

#[test]
fn check_wrap_without_frame_sizes_returns_none_for_fallback() {
    let declared: u64 = 49_528_274_364;
    let audio_bytes: u64 = 115_000_000_000;
    let (trust, corrected) = check_total_samples(declared, audio_bytes, 65535, 65535, None, None, 1, 8);
    assert!(!trust);
    assert_eq!(corrected, None);
}

#[test]
fn check_edge_cases_of_the_verdict() {
    // no payload: trusted; declared 0 (unknown): not trusted, no recovery
    assert_eq!(check_total_samples(5, 0, 16, 16, None, None, 1, 8), (true, None));
    assert_eq!(check_total_samples(0, 10, 16, 16, None, None, 1, 8), (false, None));
    // verbatim bound: 1000 * 2 * 2 * 105 / 100 + 65536 = 69736 bytes
    assert_eq!(check_total_samples(1000, 69_736, 16, 16, None, None, 2, 16), (true, None));
    assert_eq!(check_total_samples(1000, 69_737, 16, 16, None, None, 2, 16), (false, None));
    // two wrap counts fit the frame-size range: ambiguous
    let (t, c) = check_total_samples(1, 1_000_000_000_000, 4096, 4096, Some(1), Some(100), 1, 8);
    assert!(!t);
    assert_eq!(c, None);
}

#[test]
fn estimated_wraps_take_the_smallest_count_that_covers_the_payload() {
    let declared: u64 = 49_528_274_364;
    let audio_bytes: u64 = 115_000_000_000;
    let (total, k) = estimate_wrapped_total(declared, audio_bytes, 1).unwrap();
    assert_eq!(k, 1);
    assert_eq!(total, 118_247_751_100);
    let (total2, k2) = estimate_wrapped_total(declared, 200_000_000_000, 1).unwrap();
    assert_eq!(k2, 3);
    assert_eq!(total2, declared + 3 * FLAC_TOTAL_SAMPLES_FIELD_MOD);
    assert_eq!(estimate_wrapped_total(declared, audio_bytes, 0), None);
}

#[test]
fn resolve_prefers_the_vorbis_total() {
    let s = si(Some(49_528_274_364), Some(60_000), Some(74_000));
    let r = resolve_total_samples(&s, Some(88_079_600), 115_000_000_100, 100, None, None);
    assert_eq!(r.total, 88_079_600);
    assert!(r.known && r.from_vorbis && !r.scanned && r.wraps == 0);
}

#[test]
fn resolve_undoes_a_wrap() {
    let s = si(Some(49_528_274_364), Some(60_000), Some(74_000));
    let r = resolve_total_samples(&s, Some(0), 115_000_000_100, 100, None, None);
    assert_eq!(
        r,
        TotalSamples {
            total: 118_247_751_100,
            known: true,
            wraps: 1,
            estimated: false,
            scanned: false,
            from_companion: false,
            from_vorbis: false
        }
    );
    let s2 = si(Some(49_528_274_364), None, None);
    let r2 = resolve_total_samples(&s2, None, 115_000_000_100, 100, None, None);
    assert_eq!((r2.total, r2.wraps, r2.estimated), (118_247_751_100, 1, true));
}

#[test]
fn resolve_unknown_header_uses_companion_then_scan() {
    let s = si(None, None, None);
    assert!(wants_companion(&s, None));
    assert!(!wants_companion(&s, Some(7)));
    let r = resolve_total_samples(&s, None, 1000, 100, Some(5555), Some(7777));
    assert_eq!((r.total, r.known, r.from_companion, r.scanned), (5555, true, true, false));
    assert!(wants_frame_scan(&s, None, None, 1000, 100));
    assert!(!wants_frame_scan(&s, None, Some(1), 1000, 100));
    let r2 = resolve_total_samples(&s, None, 1000, 100, None, Some(7777));
    assert_eq!((r2.total, r2.known, r2.scanned), (7777, true, true));
    let r3 = resolve_total_samples(&s, None, 1000, 100, None, Some(0));
    assert_eq!((r3.total, r3.known), (0, false));
}

#[test]
fn audio_offset_walks_the_block_headers() {
    let f = minimal_flac(4096);
    assert!(matches!(find_audio_offset(&f), Ok(50)));
    assert!(matches!(find_audio_offset(b"fLa"), Err(ProbeError::Truncated)));
    assert!(matches!(find_audio_offset(b"RIFF\0\0\0\0"), Err(ProbeError::NotFlac)));
    // the last header may announce a body past the bytes at hand
    assert!(matches!(find_audio_offset(&[0x66, 0x4C, 0x61, 0x43, 0x80, 0x00, 0x01, 0x00]), Ok(264)));
    // a non-last block that runs past the end
    assert!(matches!(find_audio_offset(&[0x66, 0x4C, 0x61, 0x43, 0x00, 0x00, 0x01, 0x00]), Err(ProbeError::Truncated)));
}

#[test]
fn streaminfo_is_read_by_the_flac_reader() {
    let f = minimal_flac(4096);
    let s = probe_stream_info(&f).unwrap();
    assert_eq!(s.sample_rate, 10000);
    assert_eq!(s.channels, 1);
    assert_eq!(s.bits_per_sample, 8);
    assert_eq!(s.samples, Some(4096));
    assert_eq!(s.min_block_size, 4096);
    assert_eq!(s.min_frame_size, None);
    let unknown = probe_stream_info(&minimal_flac(0)).unwrap();
    assert_eq!(unknown.samples, None);
    assert!(matches!(probe_stream_info(b"not a flac"), Err(ProbeError::Invalid(_))));
}

#[test]
fn coded_numbers_are_read() {
    assert_eq!(read_utf8_coded(&[0x00]), Some((0, 1)));
    assert_eq!(read_utf8_coded(&[0x7F, 0xFF]), Some((127, 1)));
    assert_eq!(read_utf8_coded(&[0xC2, 0xA9]), Some((0xA9, 2)));
    assert_eq!(read_utf8_coded(&[0xE2, 0x82, 0xAC]), Some((0x20AC, 3)));
    assert_eq!(read_utf8_coded(&[0x80]), None);
    assert_eq!(read_utf8_coded(&[0xC2, 0x29]), None);
    assert_eq!(read_utf8_coded(&[0xE2, 0x82]), None);
    assert_eq!(read_utf8_coded(&[]), None);
    assert_eq!(read_utf8_coded(&[0xFE, 0x81, 0x80, 0x80, 0x80, 0x80, 0x80]), Some((1 << 30, 7)));
    assert_eq!(read_utf8_coded(&[0xFF, 0x82, 0x80, 0x80, 0x80, 0x80, 0x80, 0x80]), Some((1 << 37, 8)));
    assert_eq!(read_utf8_coded(&[0xFF, 0x82, 0x80, 0x80, 0x80, 0x80, 0x80]), None);
}

#[test]
fn frame_headers_are_parsed_with_their_crc() {
    let h = frame_header(3);
    assert_eq!(parse_frame_header(&h), Some((4096, 6, 3, false)));
    let mut bad = h.clone();
    bad[5] ^= 1;
    assert_eq!(parse_frame_header(&bad), None);
    // block size code 6: one extra byte, size = byte + 1
    let mut v = vec![0xFF, 0xF9, 0x69, 0x08, 0x05, 0x3F];
    let c = crc8(&v);
    v.push(c);
    assert_eq!(parse_frame_header(&v), Some((64, 7, 5, true)));
    // reserved sample-size code 3
    let mut r = vec![0xFF, 0xF8, 0xC9, 0x06, 0x00];
    let c2 = crc8(&r);
    r.push(c2);
    assert_eq!(parse_frame_header(&r), None);
}

#[test]
fn a_scan_sums_the_block_sizes_of_sequential_frames() {
    let mut stream = Vec::new();
    for n in 0..3u8 {
        stream.extend_from_slice(&frame_header(n));
        stream.extend_from_slice(&[0x11; 20]);
    }
    let mut st = scan_start();
    let stop = scan_window(&mut st, &stream, true, 0);
    assert_eq!(stop, stream.len() - 1);
    assert_eq!(st.running, 3 * 4096);
    assert_eq!(st.frames_found, 3);
    // a header out of sequence is not counted
    let mut st2 = scan_start();
    let mut s2 = frame_header(0);
    s2.extend_from_slice(&frame_header(5));
    scan_window(&mut st2, &s2, true, 0);
    assert_eq!(st2.frames_found, 1);
    // a candidate split at the end of a window is left for the next one
    let mut st3 = scan_start();
    let partial = &frame_header(0)[..3];
    assert_eq!(scan_window(&mut st3, partial, false, 0), 0);
    assert_eq!(carry_start(0, 3), 0);
    assert_eq!(carry_start(500, 100), 100);
    assert_eq!(carry_start(10, 100), 36);
    scan_after_chunk(&mut st3, 5_000_000);
    assert!(!st3.strict);
}

#[test]
fn the_header_probe_reads_offset_streaminfo_and_tags() {
    let h = probe_header(&minimal_flac(4096)).unwrap();
    assert_eq!(h.audio_offset, 50);
    assert_eq!(h.info.sample_rate, 10000);
    assert_eq!(h.info.samples, Some(4096));
    assert_eq!(h.tags.total_samples, None);
    assert_eq!(h.tags.sample_rate, None);

    let mut f = b"fLaC".to_vec();
    f.extend_from_slice(&[0x00, 0x00, 0x00, 34]);
    f.extend_from_slice(&streaminfo_body(20000, 1, 8, 0, 0, 0));
    let mut vc = Vec::new();
    vc.extend_from_slice(&4u32.to_le_bytes());
    vc.extend_from_slice(b"test");
    vc.extend_from_slice(&2u32.to_le_bytes());
    for c in [&b"RF_TOTAL_SAMPLES=88079600"[..], &b"RF_SAMPLE_RATE=20000"[..]] {
        vc.extend_from_slice(&(c.len() as u32).to_le_bytes());
        vc.extend_from_slice(c);
    }
    f.extend_from_slice(&[0x84, 0, 0, vc.len() as u8]);
    f.extend_from_slice(&vc);
    let h2 = probe_header(&f).unwrap();
    assert_eq!(h2.audio_offset, f.len() as u64);
    assert_eq!(h2.info.samples, None);
    assert_eq!(h2.tags.total_samples, Some(88_079_600));
    assert_eq!(h2.tags.sample_rate, Some(20_000));
    assert!(matches!(probe_header(b"OggS...."), Err(ProbeError::NotFlac)));
    // block headers fine, STREAMINFO refused by the reader (block size 0)
    let mut bad = b"fLaC".to_vec();
    bad.extend_from_slice(&[0x80, 0x00, 0x00, 34]);
    bad.extend_from_slice(&[0u8; 34]);
    assert!(matches!(probe_header(&bad), Err(ProbeError::Invalid(_))));
}

#[test]
fn probe_and_rewriter_agree_on_the_frame_start() {
    let f = minimal_flac(4096);
    let (_, fs) = parse_metadata_chain(&f).unwrap();
    assert!(matches!(find_audio_offset(&f), Ok(o) if o == fs));
}

/// The read loop of the scan: windows of carry + chunk, then the carry alone
/// as the end of the stream.
fn scan_in_chunks(stream: &[u8], chunk: usize, skip: usize) -> (u64, u64) {
    let mut st = scan_start();
    let mut carry: Vec<u8> = Vec::new();
    let mut pos = 0;
    loop {
        let n = chunk.min(stream.len() - pos);
        let eof = n == 0;
        let mut window = carry.clone();
        window.extend_from_slice(&stream[pos..pos + n]);
        pos += n;
        let stop = scan_window(&mut st, &window, eof, skip);
        if eof {
            break;
        }
        scan_after_chunk(&mut st, n as u64);
        let keep = carry_start(stop, window.len());
        carry = window[keep..].to_vec();
    }
    (st.running, st.frames_found)
}

#[test]
fn a_chunked_scan_gives_the_one_window_result() {
    let mut stream = Vec::new();
    for n in 0..5u8 {
        stream.extend_from_slice(&frame_header(n));
        stream.extend_from_slice(&[0x11; 30]);
    }
    let mut whole = scan_start();
    scan_window(&mut whole, &stream, true, 0);
    assert_eq!((whole.running, whole.frames_found), (5 * 4096, 5));
    for chunk in [1, 2, 3, 5, 7, 17, 36, 100, 1000] {
        for skip in [0, 6, 36] {
            assert_eq!(scan_in_chunks(&stream, chunk, skip), (5 * 4096, 5), "chunk {chunk}, skip {skip}");
        }
    }
}
