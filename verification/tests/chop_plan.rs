use flac_chop_core::chop::{
    binary_name, chop, chop_with_options, default_options, effect_plan, finish_rescale, generate_output_path,
    input_error_text, next_candidate, output_bits_override, output_path_candidate, output_path_from_answers,
    cancelled_result, poll_step, raw_sample_layout, resolve, PollAction, rewrite_tags_after_cut, rf_filter_cutoff_khz, sniff_format, sox_available,
    sox_input_args, sox_type, ChopOptions, ChopResult, InputError, InputFormat, Quantize,
};
use flac_chop_core::msps::next_msps_number;

fn strs(v: &[String]) -> Vec<&str> {
    v.iter().map(|s| s.as_str()).collect()
}

#[test]
fn output_path_appends_cut() {
    let p = generate_output_path("/tmp/foo/bar.flac", "", "").unwrap();
    assert!(p.ends_with("bar-cut.flac"));
}

#[test]
fn output_path_no_ext_defaults_flac() {
    let p = generate_output_path("/tmp/foo/RAW", "", "").unwrap();
    assert!(p.ends_with("RAW-cut.flac"));
}

#[test]
fn output_path_no_parent_uses_dot() {
    let p = generate_output_path("local.flac", "", "").unwrap();
    let expected = {
        let mut pb = std::path::PathBuf::from(".");
        pb.push("local-cut.flac");
        pb.to_string_lossy().into_owned()
    };
    assert_eq!(p, expected);
    assert!(p.ends_with("local-cut.flac"));
}

#[test]
fn output_path_goes_into_an_explicit_out_dir() {
    let p = generate_output_path("/tmp/foo/bar.flac", "/nonexistent_fc_dir", "").unwrap();
    assert_eq!(p, "/nonexistent_fc_dir/bar-cut.flac");
}

#[test]
fn output_path_stem_override_drops_the_cut_suffix() {
    let p = generate_output_path("/x/20msps_8-bit.flac", "/nonexistent_fc_dir", "16msps_6-bit").unwrap();
    assert_eq!(p, "/nonexistent_fc_dir/16msps_6-bit.flac");
}

#[test]
fn output_candidates_count_up_from_two() {
    let c1 = output_path_candidate("/x/y/tape.flac", "", "", 1).unwrap();
    let c7 = output_path_candidate("/x/y/tape.flac", "", "", 7).unwrap();
    assert_eq!(c1, "/x/y/tape-cut.flac");
    assert_eq!(c7, "/x/y/tape-cut-7.flac");
    let o = output_path_candidate("/x/y/tape.wav", "/out", "renamed", 3).unwrap();
    assert_eq!(o, "/out/renamed-3.wav");
}

#[test]
fn output_path_without_stem_is_none() {
    assert_eq!(generate_output_path("", "", ""), None);
    assert_eq!(output_path_candidate("/", "", "", 1), None);
}

#[test]
fn rf_filter_profiles_match_expected_presets() {
    assert_eq!(rf_filter_cutoff_khz(16_000), Some(7650));
    assert_eq!(rf_filter_cutoff_khz(20_000), Some(9650));
    assert_eq!(rf_filter_cutoff_khz(24_000), Some(9400));
    assert_eq!(rf_filter_cutoff_khz(28_600), Some(9400));
    assert_eq!(rf_filter_cutoff_khz(12_000), None);
}

#[test]
fn pure_trim_asks_sox_for_sample_counts() {
    let plan = chop("/in/tape.flac", "/out/cut.flac", 1_200_000_000, 200_000_000, &vec![]);
    assert_eq!(
        strs(&plan.pass1),
        vec!["-D", "/in/tape.flac", "/out/cut.flac", "trim", "1200000000s", "200000000s"]
    );
    assert!(plan.pass2.is_none());
    assert_eq!(plan.out_path, "/out/cut.flac");
    assert!(!plan.is_rf);
}

#[test]
fn resample_with_rf_filter_adds_rate_bits_and_sinc() {
    let opts = ChopOptions { output_rate_hz: Some(16_000), output_bits: Some(8), basic_rf_filter: true, is_rf: true, ..default_options() };
    let plan = chop_with_options("in.flac", "out.flac", 0, 4096, opts, "/tmp/t.flac", &vec![]);
    assert_eq!(
        strs(&plan.pass1),
        vec!["-D", "in.flac", "-r", "16000", "-b", "8", "out.flac", "trim", "0s", "4096s", "sinc", "-n", "2500", "0-7650"]
    );
    assert!(plan.pass2.is_none());
    assert!(plan.is_rf);
}

#[test]
fn rf_filter_without_profile_is_left_out() {
    let opts = ChopOptions { output_rate_hz: Some(12_000), output_bits: None, basic_rf_filter: true, is_rf: true, ..default_options() };
    let plan = chop_with_options("in.flac", "out.flac", 5, 6, opts, "t", &vec![]);
    assert_eq!(strs(&plan.pass1), vec!["-D", "in.flac", "-r", "12000", "out.flac", "trim", "5s", "6s"]);
}

#[test]
fn six_bit_output_runs_two_passes_through_the_temporary() {
    let opts = ChopOptions { output_rate_hz: None, output_bits: Some(6), basic_rf_filter: false, is_rf: false, ..default_options() };
    let plan = chop_with_options("in.flac", "out.flac", 10, 20, opts, "/tmp/six.flac", &vec![]);
    assert_eq!(
        strs(&plan.pass1),
        vec!["-D", "in.flac", "-b", "8", "/tmp/six.flac", "trim", "10s", "20s", "vol", "0.25"]
    );
    let p2 = plan.pass2.unwrap();
    assert_eq!(strs(&p2), vec!["-D", "/tmp/six.flac", "-b", "8", "out.flac", "vol", "4"]);
}

#[test]
fn zero_rate_and_bits_are_ignored() {
    let opts = ChopOptions { output_rate_hz: Some(0), output_bits: Some(0), basic_rf_filter: true, is_rf: false, ..default_options() };
    let plan = chop_with_options("a", "b", 1, 2, opts, "t", &vec![]);
    assert_eq!(strs(&plan.pass1), vec!["-D", "a", "b", "trim", "1s", "2s"]);
    assert_eq!(default_options(), ChopOptions { output_rate_hz: None, output_bits: None, basic_rf_filter: false, is_rf: false, input_format: None, input_channels: None });
}

#[test]
fn failed_rescale_marks_the_cut_failed() {
    let mut r = ChopResult { ok: true, exit_code: 0, stderr: String::new() };
    finish_rescale(&mut r, false, 2);
    assert!(!r.ok);
    assert_eq!(r.exit_code, 2);
    assert_eq!(r.stderr, "6-bit rescale pass failed (exit 2)");

    let mut r2 = ChopResult { ok: true, exit_code: 0, stderr: "sox: boom".to_string() };
    finish_rescale(&mut r2, false, -1);
    assert_eq!((r2.ok, r2.exit_code, r2.stderr.as_str()), (false, -1, "sox: boom"));

    let mut r3 = ChopResult { ok: true, exit_code: 0, stderr: String::new() };
    finish_rescale(&mut r3, true, 0);
    assert!(r3.ok);
    assert_eq!(r3.stderr, "");
}

#[test]
fn tag_rewrite_failure_is_a_warning() {
    let mut r = ChopResult { ok: true, exit_code: 0, stderr: String::new() };
    rewrite_tags_after_cut(&mut r, Err("not a FLAC file".to_string()));
    assert!(r.ok);
    assert_eq!(r.stderr, "warning: tag rewrite failed: not a FLAC file");
    rewrite_tags_after_cut(&mut r, Err("x".to_string()));
    assert_eq!(r.stderr, "warning: tag rewrite failed: not a FLAC file\nwarning: tag rewrite failed: x");
    let mut ok = ChopResult { ok: true, exit_code: 0, stderr: "note".to_string() };
    rewrite_tags_after_cut(&mut ok, Ok(()));
    assert_eq!(ok.stderr, "note");
}

#[test]
fn sox_candidates_first_runnable_wins() {
    let c = vec!["a".to_string(), "b".to_string(), "c".to_string()];
    assert_eq!(resolve(&c, &[false, true, true]), Some("b".to_string()));
    assert_eq!(resolve(&c, &[false, false, false]), None);
    assert!(sox_available(&[false, false, true]));
    assert!(!sox_available(&[]));
    assert_eq!(binary_name(true), "sox.exe");
    assert_eq!(binary_name(false), "sox");
}

fn effects(e: &[flac_chop_core::chop::Effect]) -> Vec<(String, Vec<String>)> {
    e.iter().map(|x| (x.name.clone(), x.args.clone())).collect()
}

fn eff(name: &str, args: &[&str]) -> (String, Vec<String>) {
    (name.to_string(), args.iter().map(|a| a.to_string()).collect())
}

#[test]
fn in_process_chain_follows_the_command_line_order() {
    let opts = ChopOptions { output_rate_hz: Some(20_000), output_bits: Some(6), basic_rf_filter: true, is_rf: true, ..default_options() };
    let plan = effect_plan(100, 200, opts, 40_000, Some(Quantize::Quarter));
    assert_eq!(
        effects(&plan),
        vec![
            eff("trim", &["100s", "200s"]),
            eff("sinc", &["-n", "2500", "0-9650"]),
            eff("rate", &["20000"]),
            eff("vol", &["0.25"]),
        ]
    );
    // no rate conversion when the stream already has the output rate
    let plan2 = effect_plan(0, 200, opts, 20_000, Some(Quantize::Times4));
    assert_eq!(
        effects(&plan2),
        vec![eff("trim", &["0s", "200s"]), eff("sinc", &["-n", "2500", "0-9650"]), eff("vol", &["4"])]
    );
    let plain = effect_plan(5, 6, default_options(), 44_100, None);
    assert_eq!(effects(&plain), vec![eff("trim", &["5s", "6s"])]);
    assert_eq!(output_bits_override(opts), Some(8));
    assert_eq!(output_bits_override(default_options()), None);
    let o16 = ChopOptions { output_bits: Some(16), ..default_options() };
    assert_eq!(output_bits_override(o16), Some(16));
}

fn opts(rf: bool) -> ChopOptions {
    ChopOptions { is_rf: rf, ..default_options() }
}

fn extract_msps(s: &str) -> Option<f64> {
    let b = s.as_bytes();
    let mut from = 0usize;
    while let Some((a, e)) = next_msps_number(b, from) {
        let v: f64 = std::str::from_utf8(&b[a..e]).ok()?.parse().ok()?;
        if v > 0.0 {
            return Some(v);
        }
        from = e;
    }
    None
}

/// The stream-rate text of a raw input, as the caller computes it.
fn raw_rate(in_path: &str, o: &ChopOptions, override_hz: Option<f64>) -> Option<String> {
    let real = match override_hz.filter(|r| *r > 0.0) {
        Some(r) => r,
        None => extract_msps(in_path)? * 1_000_000.0,
    };
    Some((if o.is_rf { real / 1000.0 } else { real }).to_string())
}

fn args(fmt: InputFormat, in_path: &str, o: &ChopOptions, override_hz: Option<f64>) -> Result<Vec<String>, InputError> {
    let r = raw_rate(in_path, o, override_hz);
    sox_input_args(fmt, o.is_rf, None, r.as_deref(), o.input_channels)
}

#[test]
fn input_args_flac_and_wav_are_empty() {
    assert_eq!(args(InputFormat::Flac, "x.flac", &opts(true), None).unwrap(), Vec::<String>::new());
    assert_eq!(args(InputFormat::Wav, "/tmp/whatever.wav", &opts(false), None).unwrap(), Vec::<String>::new());
}

#[test]
fn input_args_raw_rf_uses_convention_rate() {
    let a = args(InputFormat::U8, "/tmp/tape_8-bit_40msps.u8", &opts(true), None).unwrap();
    assert_eq!(a, vec!["-t", "u8", "-r", "40000", "-c", "1"]);
}

#[test]
fn input_args_raw_audio_uses_real_rate() {
    let a = args(InputFormat::S16, "/tmp/song_48k.s16", &opts(false), Some(48_000.0)).unwrap();
    assert_eq!(a, vec!["-t", "s16", "-r", "48000", "-c", "1"]);
    let o2 = ChopOptions { input_channels: Some(2), ..default_options() };
    let a2 = args(InputFormat::U8, "x.u8", &o2, Some(48000.0)).unwrap();
    assert_eq!(a2, vec!["-t", "u8", "-r", "48000", "-c", "2"]);
}

#[test]
fn input_args_raw_without_rate_hint_is_an_error() {
    let e = args(InputFormat::U8, "/tmp/nohint.u8", &default_options(), None).unwrap_err();
    assert_eq!(e, InputError::MissingRate);
    assert!(input_error_text(e).contains("msps"), "got: {}", input_error_text(e));
}

#[test]
fn rf_wav_above_1mhz_is_pinned_to_the_convention_rate() {
    assert_eq!(sox_input_args(InputFormat::Wav, true, Some("20000"), None, None).unwrap(), vec!["-r", "20000"]);
    assert!(sox_input_args(InputFormat::Wav, false, Some("20000"), None, None).unwrap().is_empty());
    assert!(sox_input_args(InputFormat::Wav, true, None, None, None).unwrap().is_empty());
}

#[test]
fn input_args_go_before_the_input_path() {
    let a = args(InputFormat::U8, "/tmp/tape_8-bit_40msps.u8", &opts(true), None).unwrap();
    let plan = chop_with_options("/tmp/tape_8-bit_40msps.u8", "out.flac", 0, 10, opts(true), "t", &a);
    assert_eq!(
        strs(&plan.pass1),
        vec!["-D", "-t", "u8", "-r", "40000", "-c", "1", "/tmp/tape_8-bit_40msps.u8", "out.flac", "trim", "0s", "10s"]
    );
}

#[test]
fn formats_are_sniffed_by_magic_then_extension() {
    assert_eq!(sniff_format(b"fLaC\0\0\0\x22", b"wav"), Some(InputFormat::Flac));
    assert_eq!(sniff_format(b"RIFF\0\0\0\0WAVE", b"flac"), Some(InputFormat::Wav));
    assert_eq!(sniff_format(b"\x80\x81", b"U8"), Some(InputFormat::U8));
    assert_eq!(sniff_format(b"", b"s16"), Some(InputFormat::S16));
    assert_eq!(sniff_format(b"", b"u16"), Some(InputFormat::U16));
    assert_eq!(sniff_format(b"", b"S8"), Some(InputFormat::S8));
    assert_eq!(sniff_format(b"", b"FLAC"), Some(InputFormat::Flac));
    assert_eq!(sniff_format(b"xx", b"mp3"), None);
    assert_eq!(sox_type(InputFormat::S16), Some("s16"));
    assert_eq!(sox_type(InputFormat::Wav), None);
    assert_eq!(raw_sample_layout(InputFormat::U16), Some((16, false)));
    assert_eq!(raw_sample_layout(InputFormat::S8), Some((8, true)));
    assert_eq!(raw_sample_layout(InputFormat::Flac), None);
}

#[test]
fn output_path_avoids_clobbering_existing_cut() {
    // answers of the disk: candidate 1 exists, candidate 2 does not
    let first = output_path_from_answers("/x/tape.flac", "", "", &[false]).unwrap();
    assert!(first.ends_with("tape-cut.flac"));
    let second = output_path_from_answers("/x/tape.flac", "", "", &[true, false]).unwrap();
    assert!(second.ends_with("tape-cut-2.flac"), "got {second}");
}

#[test]
fn output_path_uses_stem_override() {
    let p = output_path_from_answers("/d/20msps_8-bit.flac", "/d", "16msps_6-bit", &[false]).unwrap();
    assert_eq!(p, "/d/16msps_6-bit.flac");
    let p2 = output_path_from_answers("/d/20msps_8-bit.flac", "/d", "16msps_6-bit", &[true, false]).unwrap();
    assert!(p2.ends_with("16msps_6-bit-2.flac"), "got {p2}");
}

#[test]
fn output_path_uses_explicit_out_dir() {
    let p = output_path_from_answers("/tmp/foo/bar.flac", "/out", "", &[false]).unwrap();
    assert_eq!(p, "/out/bar-cut.flac");
}

#[test]
fn output_search_stops_at_the_last_candidate() {
    let all = vec![true; 9999];
    // every candidate exists: nothing is overwritten
    assert_eq!(output_path_from_answers("/x/tape.flac", "", "", &all), None);
    let mut last_free = vec![true; 9999];
    last_free[9998] = false;
    assert_eq!(output_path_from_answers("/x/tape.flac", "", "", &last_free).unwrap(), "/x/tape-cut-9999.flac");
    assert_eq!(next_candidate(1, true), Some(2));
    assert_eq!(next_candidate(1, false), None);
    assert_eq!(next_candidate(9998, true), Some(9999));
    assert_eq!(next_candidate(9999, true), None);
    assert_eq!(output_path_from_answers("", "", "", &[false]), None);
}

#[test]
fn chop_is_the_default_plan_with_input_arguments() {
    let a = args(InputFormat::U8, "/tmp/tape_8-bit_40msps.u8", &default_options(), None).unwrap();
    let p1 = chop("/tmp/tape_8-bit_40msps.u8", "o.flac", 3, 4, &a);
    let p2 = chop_with_options("/tmp/tape_8-bit_40msps.u8", "o.flac", 3, 4, default_options(), "", &a);
    assert_eq!(p1.pass1, p2.pass1);
    assert_eq!(strs(&p1.pass1), vec!["-D", "-t", "u8", "-r", "40000000", "-c", "1", "/tmp/tape_8-bit_40msps.u8", "o.flac", "trim", "3s", "4s"]);
}

#[test]
fn polling_and_cancellation() {
    assert_eq!(poll_step(true, true), PollAction::Finished);
    assert_eq!(poll_step(false, true), PollAction::Kill);
    assert_eq!(poll_step(false, false), PollAction::Wait);
    let r = cancelled_result(" \n\t ".to_string());
    assert_eq!((r.ok, r.exit_code, r.stderr.as_str()), (false, -1, "cancelled by user"));
    let r2 = cancelled_result("sox: killed".to_string());
    assert_eq!(r2.stderr, "sox: killed");
    let r3 = cancelled_result("\u{3000}\u{85}".to_string());
    assert_eq!(r3.stderr, "cancelled by user");
    let r4 = cancelled_result(String::new());
    assert_eq!(r4.stderr, "cancelled by user");
}
