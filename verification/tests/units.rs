use flac_chop_core::chain::{parse_metadata_chain, serialize_chain, ChainError, MetaBlock};
use flac_chop_core::comment::{build_vorbis_comment, parse_vorbis_comment, CommentError};
use flac_chop_core::crc::crc8_prefix;
use flac_chop_core::ffi::{pack_comments_blob, plan_bounds, template_shape, template_total, truncated_len, PlanError, TemplateShape};
use flac_chop_core::msps::next_msps_number;
use flac_chop_core::rate::{is_audio_rate, probe_rate_rule, rate_rule, RateRule};
use flac_chop_core::streaminfo::{plan_total_repair, RepairError, PACKED_OFFSET};
use flac_chop_core::text::{parse_u64, u64_to_decimal, u64_to_string, i32_to_string};
use flac_chop_core::vorbis::read_rf_tags;

// ---- rate ---------------------------------------------------------------

fn resolve_real_rate(header_rate: u64, msps_hint: Option<f64>) -> (f64, bool) {
    let hint = msps_hint.filter(|m| *m > 0.0);
    match rate_rule(header_rate, hint.is_some()) {
        RateRule::Audio => (header_rate as f64, false),
        RateRule::MspsHint => (hint.unwrap() * 1_000_000.0, true),
        RateRule::HeaderTimes1000 => (header_rate as f64 * 1000.0, true),
        RateRule::Tagged => unreachable!(),
    }
}

#[test]
fn audio_rate_48k_used_as_is() {
    assert_eq!(resolve_real_rate(48_000, None), (48_000.0, false));
}

#[test]
fn audio_rate_96k_used_as_is() {
    assert_eq!(resolve_real_rate(96_000, None), (96_000.0, false));
}

#[test]
fn audio_rate_192k_used_as_is() {
    assert_eq!(resolve_real_rate(192_000, None), (192_000.0, false));
}

#[test]
fn audio_rate_441k_used_as_is() {
    assert_eq!(resolve_real_rate(44_100, None), (44_100.0, false));
}

#[test]
fn rf_20khz_header_assumes_20msps() {
    assert_eq!(resolve_real_rate(20_000, None), (20_000_000.0, true));
}

#[test]
fn rf_40khz_header_assumes_40msps() {
    assert_eq!(resolve_real_rate(40_000, None), (40_000_000.0, true));
}

#[test]
fn rf_10khz_header_assumes_10msps() {
    assert_eq!(resolve_real_rate(10_000, None), (10_000_000.0, true));
}

#[test]
fn msps_hint_confirms_rf_rate() {
    assert_eq!(resolve_real_rate(20_000, Some(20.0)), (20_000_000.0, true));
}

#[test]
fn audio_rate_wins_over_msps_hint() {
    assert_eq!(resolve_real_rate(48_000, Some(20.0)), (48_000.0, false));
}

#[test]
fn slightly_off_audio_rate_still_audio() {
    let (r, rf) = resolve_real_rate(47_900, None);
    assert!(!rf);
    assert!((r - 47_900.0).abs() < 1e-6);
}

#[test]
fn rf_rate_not_falsely_matched_as_audio() {
    let (_, rf) = resolve_real_rate(20_000, None);
    assert!(rf);
}

#[test]
fn audio_tolerance_is_five_percent_inclusive() {
    assert!(is_audio_rate(50_400)); // 48000 * 1.05
    assert!(!is_audio_rate(50_401));
    assert!(is_audio_rate(45_600)); // 48000 * 0.95
    assert!(!is_audio_rate(20_947));
    assert!(is_audio_rate(20_948)); // within 5% of 22050
    assert!(!is_audio_rate(0));
    assert_eq!(rate_rule(20_000, true), RateRule::MspsHint);
    assert_eq!(rate_rule(20_000, false), RateRule::HeaderTimes1000);
    assert_eq!(rate_rule(44_100, true), RateRule::Audio);
}

// ---- msps ---------------------------------------------------------------

fn extract_msps(s: &str) -> Option<f64> {
    let b = s.as_bytes();
    let mut from = 0usize;
    while let Some((a, e)) = next_msps_number(b, from) {
        let v: f64 = std::str::from_utf8(&b[a..e]).ok()?.parse().ok()?;
        if v > 0.0 {
            return Some(v);
        }
        from = e;
    }
    None
}

#[test]
fn finds_integer_msps() {
    assert_eq!(extract_msps("foo_20msps.flac"), Some(20.0));
}

#[test]
fn finds_decimal_msps() {
    assert_eq!(extract_msps("44.1msps_cap.flac"), Some(44.1));
}

#[test]
fn case_insensitive() {
    assert_eq!(extract_msps("x_40MSPS_y"), Some(40.0));
}

#[test]
fn none_when_absent() {
    assert_eq!(extract_msps("plain.flac"), None);
}

#[test]
fn ignores_trailing_letter_without_msps() {
    assert_eq!(extract_msps("20m_other.flac"), None);
}

#[test]
fn msps_numbers_are_found_in_scan_order() {
    assert_eq!(next_msps_number(b"a_8-bit_20msps.flac", 0), Some((8, 10)));
    assert_eq!(next_msps_number(b"0msps_16Msps", 0), Some((0, 1)));
    assert_eq!(next_msps_number(b"0msps_16Msps", 1), Some((6, 8)));
    assert_eq!(extract_msps("0msps_16Msps"), Some(16.0));
    assert_eq!(next_msps_number(b"1.2.3msps", 0), Some((4, 5)));
    assert_eq!(next_msps_number(b"x", 1), None);
}

// ---- STREAMINFO repair --------------------------------------------------

fn streaminfo_front(total: u64) -> Vec<u8> {
    let mut f = b"fLaC".to_vec();
    f.extend_from_slice(&[0x00, 0x00, 0x00, 0x22]);
    let mut body = [0u8; 34];
    body[0..2].copy_from_slice(&4096u16.to_be_bytes());
    body[2..4].copy_from_slice(&4096u16.to_be_bytes());
    body[4..7].copy_from_slice(&[0xFF, 0xFF, 0xFF]);
    body[7..10].copy_from_slice(&[0xFF, 0xFF, 0xFF]);
    let packed: u64 = (10000u64 << 44) | (0u64 << 41) | (7u64 << 36) | total;
    body[10..18].copy_from_slice(&packed.to_be_bytes());
    f.extend_from_slice(&body);
    f
}

fn total_of(front: &[u8]) -> u64 {
    let o = PACKED_OFFSET as usize;
    let mut b = [0u8; 8];
    b.copy_from_slice(&front[o..o + 8]);
    u64::from_be_bytes(b) & ((1u64 << 36) - 1)
}

fn repair(front: &mut Vec<u8>, declared: u64, real: u64) -> Result<bool, RepairError> {
    match plan_total_repair(front, declared, real)? {
        Some(word) => {
            let o = PACKED_OFFSET as usize;
            front[o..o + 8].copy_from_slice(&word.to_be_bytes());
            Ok(true)
        }
        None => Ok(false),
    }
}

#[test]
fn repair_patches_declared_total() {
    let mut f = streaminfo_front(2_165_571);
    assert_eq!(total_of(&f), 2_165_571);
    assert!(repair(&mut f, 2_165_571, 2_165_570_800).unwrap());
    assert_eq!(total_of(&f), 2_165_570_800);
    // rate, channels and bits are kept
    assert_eq!(f, {
        let mut g = streaminfo_front(2_165_570_800);
        g.truncate(f.len());
        g
    });
}

#[test]
fn repair_is_noop_when_already_correct() {
    let mut f = streaminfo_front(2_165_570_800);
    assert!(!repair(&mut f, 2_165_570_800, 2_165_570_800).unwrap());
    assert_eq!(total_of(&f), 2_165_570_800);
}

#[test]
fn repair_refuses_when_on_disk_layout_differs() {
    let mut f = streaminfo_front(2_165_571);
    let err = repair(&mut f, 999, 2_165_570_800).unwrap_err();
    assert_eq!(err, RepairError::Mismatch { on_disk: 2_165_571, declared: 999 });
    assert_eq!(total_of(&f), 2_165_571);
}

#[test]
fn repair_skips_counts_that_do_not_fit_36_bits() {
    let mut f = streaminfo_front(2_165_571);
    let huge: u64 = 1 << 36;
    assert!(!repair(&mut f, 2_165_571, huge).unwrap());
    assert_eq!(total_of(&f), 2_165_571);
}

#[test]
fn repair_reports_each_layout_error() {
    assert_eq!(plan_total_repair(b"fLa", 1, 2), Err(RepairError::Truncated));
    assert_eq!(plan_total_repair(b"RIFF....", 1, 2), Err(RepairError::NotFlac));
    let mut not_si = streaminfo_front(1);
    not_si[4] = 0x04;
    assert_eq!(plan_total_repair(&not_si, 1, 2), Err(RepairError::NotStreamInfo));
    let mut bad_len = streaminfo_front(1);
    bad_len[7] = 33;
    assert_eq!(plan_total_repair(&bad_len, 1, 2), Err(RepairError::BadLength(33)));
    assert_eq!(plan_total_repair(&streaminfo_front(1)[..20], 1, 2), Err(RepairError::Truncated));
    assert_eq!(plan_total_repair(b"", 1, 0), Ok(None));
}

// ---- the C interface helpers --------------------------------------------

#[test]
fn set_str_truncates_on_char_boundary() {
    let s = "ééé";
    let n = truncated_len(s.as_bytes(), 4);
    assert_eq!(&s[..n], "é");
}

#[test]
fn set_str_no_truncation_untouched() {
    let s = "hello";
    let n = truncated_len(s.as_bytes(), 16);
    assert_eq!(&s[..n], "hello");
    assert_eq!(truncated_len(b"hello", 1), 0);
    assert_eq!(truncated_len(b"hello", 6), 5);
    assert_eq!(truncated_len(b"hello", 5), 4);
}

fn parse_blob(bytes: &[u8]) -> Vec<String> {
    let mut pos = 0usize;
    let count = u32::from_le_bytes([bytes[0], bytes[1], bytes[2], bytes[3]]) as usize;
    pos += 4;
    let mut out = Vec::new();
    for _ in 0..count {
        let len = u32::from_le_bytes([bytes[pos], bytes[pos + 1], bytes[pos + 2], bytes[pos + 3]]) as usize;
        pos += 4;
        out.push(std::str::from_utf8(&bytes[pos..pos + len]).unwrap().to_string());
        pos += len;
    }
    assert_eq!(pos, bytes.len());
    out
}

#[test]
fn pack_comments_blob_roundtrips() {
    let comments = vec![
        ("PROJECT".to_string(), "demo".to_string()),
        ("NOTES".to_string(), "a=b=c".to_string()),
        ("EMPTY".to_string(), String::new()),
    ];
    let blob = pack_comments_blob(&comments);
    let pairs: Vec<(String, String)> = parse_blob(&blob)
        .into_iter()
        .map(|s| match s.find('=') {
            Some(i) => (s[..i].to_string(), s[i + 1..].to_string()),
            None => (s, String::new()),
        })
        .collect();
    assert_eq!(pairs, comments);
    assert_eq!(pack_comments_blob(&[]), vec![0, 0, 0, 0]);
}

#[test]
fn plan_basic_20msps() {
    // 60 s and 10 s at 20 MSPS, rounded to samples by the caller
    assert_eq!(plan_bounds(1_200_000_000, 200_000_000, 4_000_000_000, true), Ok((1_200_000_000, 200_000_000, 1_400_000_000)));
}

#[test]
fn plan_clamps_length_to_eof() {
    assert_eq!(plan_bounds(9_000, 5_000, 10_000, true), Ok((9_000, 1_000, 10_000)));
}

#[test]
fn plan_start_past_eof_is_an_error_not_a_one_sample_cut() {
    assert_eq!(plan_bounds(20_000, 5_000, 10_000, true), Err(PlanError::StartPastEnd));
    assert_eq!(plan_bounds(10_000, 5_000, 10_000, true), Err(PlanError::StartPastEnd));
}

#[test]
fn plan_zero_length_becomes_one_sample_and_unknown_total_is_not_clamped() {
    assert_eq!(plan_bounds(5, 0, 10, true), Ok((5, 1, 6)));
    assert_eq!(plan_bounds(50, 5, 10, false), Ok((50, 5, 55)));
    assert_eq!(plan_bounds(u64::MAX - 1, 5, 0, false), Ok((u64::MAX - 1, 5, u64::MAX)));
}

#[test]
fn rf_template_vorbis_total_used_as_is() {
    assert_eq!(template_total(2_165_570_800, true, 1, 8, 972_426_305, 100), 2_165_570_800);
}

#[test]
fn rf_template_early_schema_header_scaled_x1000() {
    assert_eq!(template_total(2_165_571, false, 1, 8, 972_426_305, 100), 2_165_571_000);
}

#[test]
fn rf_template_later_schema_header_not_scaled() {
    assert_eq!(template_total(2_165_570_800, false, 1, 8, 972_426_305, 100), 2_165_570_800);
}

#[test]
fn rf_template_total_needs_a_payload_and_whole_bytes() {
    assert_eq!(template_total(1000, false, 1, 4, 972_426_305, 100), 1000);
    assert_eq!(template_total(1000, false, 1, 8, 100, 100), 1000);
    // a header short by more than 1000 times is left alone
    assert_eq!(template_total(10, false, 1, 8, 1_000_000, 0), 10);
}

// ---- numbers, CRC ------------------------------------------------------

#[test]
fn decimal_text_round_trips() {
    for n in [0u64, 7, 10, 4096000, u64::MAX] {
        let d = u64_to_decimal(n);
        assert_eq!(d, n.to_string().into_bytes());
        assert_eq!(parse_u64(&d), Some(n));
        assert_eq!(u64_to_string(n), n.to_string());
    }
    assert_eq!(parse_u64(b""), None);
    assert_eq!(parse_u64(b"12a"), None);
    assert_eq!(parse_u64(b"-1"), None);
    assert_eq!(parse_u64(b"18446744073709551616"), None);
    assert_eq!(parse_u64(b"007"), Some(7));
    assert_eq!(i32_to_string(-42), "-42");
    assert_eq!(i32_to_string(i32::MIN), i32::MIN.to_string());
}

#[test]
fn crc8_matches_the_flac_polynomial() {
    // CRC-8 (x^8 + x^2 + x + 1) of "123456789" is 0xF4
    assert_eq!(crc8_prefix(b"123456789", 9), 0xF4);
    assert_eq!(crc8_prefix(b"123456789", 0), 0);
}

// ---- metadata chain and Vorbis comment ----------------------------------

#[test]
fn a_serialized_chain_reads_back() {
    let blocks = vec![
        MetaBlock { kind: 0, payload: vec![1; 34] },
        MetaBlock { kind: 4, payload: vec![2; 10] },
        MetaBlock { kind: 1, payload: vec![] },
    ];
    let mut bytes = serialize_chain(&blocks);
    assert_eq!(&bytes[..4], b"fLaC");
    assert_eq!(bytes[4 + 4 + 34 + 4 + 10], 0x81);
    let meta_len = bytes.len() as u64;
    bytes.extend_from_slice(&[0xFF, 0xF8]);
    let (back, fs) = parse_metadata_chain(&bytes).unwrap();
    assert_eq!(fs, meta_len);
    assert_eq!(back.len(), 3);
    for (a, b) in back.iter().zip(blocks.iter()) {
        assert_eq!((a.kind, &a.payload), (b.kind, &b.payload));
    }
    assert!(matches!(parse_metadata_chain(b"fLaC\x00\x00\x00\x05ab"), Err(ChainError::Truncated)));
    assert!(matches!(parse_metadata_chain(b"OggS"), Err(ChainError::NotFlac)));
}

#[test]
fn a_built_comment_block_reads_back() {
    let cs = vec![b"A=1".to_vec(), "T=é".as_bytes().to_vec()];
    let p = build_vorbis_comment(b"vendor", &cs);
    assert_eq!(&p[..4], &[6, 0, 0, 0]);
    assert_eq!(parse_vorbis_comment(&p).unwrap(), (b"vendor".to_vec(), cs));
    assert_eq!(parse_vorbis_comment(&p[..3]), Err(CommentError::Truncated));
    assert_eq!(parse_vorbis_comment(&[9, 0, 0, 0, b'x']), Err(CommentError::VendorTruncated));
    assert_eq!(parse_vorbis_comment(&[1, 0, 0, 0, 0xFF, 0, 0, 0, 0]), Err(CommentError::VendorNotUtf8));
    assert_eq!(parse_vorbis_comment(&[0, 0, 0, 0, 1, 0, 0, 0, 5, 0, 0, 0, b'a']), Err(CommentError::CommentTruncated));
    assert_eq!(parse_vorbis_comment(&[0, 0, 0, 0, 1, 0, 0, 0, 1, 0, 0, 0, 0xC3]), Err(CommentError::CommentNotUtf8));
}

// ---- RF tags inside the file ---------------------------------------------

fn flac_with_comments(comments: &[&str]) -> Vec<u8> {
    let mut f = b"fLaC".to_vec();
    f.extend_from_slice(&[0x00, 0x00, 0x00, 34]);
    let mut si = [0u8; 34];
    si[0..2].copy_from_slice(&4096u16.to_be_bytes());
    si[2..4].copy_from_slice(&4096u16.to_be_bytes());
    si[10..18].copy_from_slice(&((20000u64 << 44) | (7u64 << 36) | 4096).to_be_bytes());
    f.extend_from_slice(&si);
    let cs: Vec<Vec<u8>> = comments.iter().map(|c| c.as_bytes().to_vec()).collect();
    let vc = build_vorbis_comment(b"test", &cs);
    f.extend_from_slice(&[0x84, 0, 0, vc.len() as u8]);
    f.extend_from_slice(&vc);
    f
}

#[test]
fn non_flac_file_returns_empty_tags() {
    let t = read_rf_tags(b"");
    assert!(t.total_samples.is_none());
    assert!(t.sample_rate.is_none());
    assert!(t.duration_text.is_none());
}

#[test]
fn rf_tags_are_read_from_the_comments() {
    let f = flac_with_comments(&[
        "DURATION_SECONDS=4403.980000",
        "rf_total_samples=88079600",
        "RF_SAMPLE_RATE=20000",
        "RF_TOTAL_SAMPLES=1",
    ]);
    let t = read_rf_tags(&f);
    assert_eq!(t.total_samples, Some(88_079_600));
    assert_eq!(t.sample_rate, Some(20_000));
    assert_eq!(t.duration_text, Some(b"4403.980000".to_vec()));
    let g = flac_with_comments(&["RF_TOTAL_SAMPLES=12x", "RF_SAMPLE_RATE= 5"]);
    let u = read_rf_tags(&g);
    assert_eq!(u.total_samples, None);
    assert_eq!(u.sample_rate, None);
    assert_eq!(u.duration_text, None);
}

#[test]
fn a_positive_rate_tag_overrides_every_other_rule() {
    assert_eq!(probe_rate_rule(20_000, Some(20_000_000), false), RateRule::Tagged);
    assert_eq!(probe_rate_rule(48_000, Some(20_000), true), RateRule::Tagged);
    assert_eq!(probe_rate_rule(48_000, Some(0), true), RateRule::Audio);
    assert_eq!(probe_rate_rule(20_000, None, true), RateRule::MspsHint);
    assert_eq!(probe_rate_rule(20_000, Some(0), false), RateRule::HeaderTimes1000);
}

#[test]
fn plan_10s_at_20msps_is_exactly_200m_samples() {
    let len = (10.0f64 * 20_000_000.0).round() as u64;
    let (s, l, e) = plan_bounds(0, len, 49_528_274_364, true).unwrap();
    assert_eq!(s, 0);
    assert_eq!(l, 200_000_000, "10s @ 20MSPS must be 200,000,000 samples");
    assert_eq!(e, 200_000_000);
}

#[test]
fn plan_start_past_eof_is_an_error_not_a_clamped_cut() {
    let start = (36000.0f64 * 20_000_000.0).round() as u64;
    assert_eq!(plan_bounds(start, 200_000_000, 49_528_274_364, true), Err(PlanError::StartPastEnd));
}

#[test]
fn plan_clamps_length_when_start_is_in_bounds_but_request_overruns() {
    let total = 49_528_274_364u64;
    let start_sec = (total as f64 / 20_000_000.0) - 1.0;
    let start = (start_sec * 20_000_000.0).round() as u64;
    let (s, l, e) = plan_bounds(start, 200_000_000, total, true).unwrap();
    assert_eq!(s, start);
    assert_eq!(l, total - s);
    assert_eq!(e, total);
}

#[test]
fn plan_audio_44100_used_as_is() {
    assert_eq!(plan_bounds(44_100, 44_100, 0, false), Ok((44_100, 44_100, 88_200)));
}

#[test]
fn rf_template_companion_total_is_real() {
    assert_eq!(template_total(8_807_960_000, true, 1, 8, 40_000_000_000, 200), 8_807_960_000);
    // the same count from a trusted header falls short of the payload and is
    // taken to be kept in thousands
    assert_eq!(template_total(8_807_960_000, false, 1, 8, 40_000_000_000, 200), 8_807_960_000_000);
}

#[test]
fn rf_template_unknown_total_only_rate_tags() {
    assert_eq!(template_shape(true, 10000, true, false, 0), TemplateShape::RatesOnly);
    assert_eq!(template_shape(true, 10000, true, true, 0), TemplateShape::RatesOnly);
    assert_eq!(template_shape(true, 10000, true, true, 2_165_570_800), TemplateShape::Full);
}

#[test]
fn rf_template_non_rf_is_empty() {
    assert_eq!(template_shape(false, 48000, true, true, 1000), TemplateShape::Empty);
    assert_eq!(template_shape(true, 0, true, true, 1000), TemplateShape::Empty);
    assert_eq!(template_shape(true, 10000, false, true, 1000), TemplateShape::Empty);
}
