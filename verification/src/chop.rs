//! The sample-exact cut, done by SoX: `sox -D [input args] <in> [-r R] [-b B]
//! <out> trim <start>s <len>s [sinc ...] [vol ...]`, where the `s` suffix
//! makes the numbers sample counts and the input arguments describe a WAV
//! or raw PCM input that SoX cannot read the rate of by itself.
//!
//! This module decides what SoX is asked to do and what the outcome is;
//! running SoX is the caller's part. The 6-bit profile is a pure bit-shift
//! requantization in two passes: pass 1 writes an 8-bit temporary scaled by
//! 0.25, pass 2 rescales it by 4 into the output.

use vstd::prelude::*;
use std::sync::atomic::{AtomicBool, Ordering};
use crate::text::{u64_to_string, i32_to_string, decimal_chars, i32_chars, eq_ignore_ascii_case, matches_ignore_case_at};
use vstd::string::{StringExecFns, StrSliceExecFns};

verus! {

/// The `sinc` low-pass cutoff (kHz) of the RF profile for an output header
/// rate: 16 MSPS, 20 MSPS, 24 MSPS and 28.6 MSPS (stored / 1000).
pub open spec fn spec_rf_filter_cutoff_khz(output_rate_hz: u64) -> Option<u32> {
    if output_rate_hz == 16000 {
        Some(7650)
    } else if output_rate_hz == 20000 {
        Some(9650)
    } else if output_rate_hz == 24000 || output_rate_hz == 28600 {
        Some(9400)
    } else {
        None
    }
}

/// The RF low-pass cutoff for an output header rate (see
/// [`spec_rf_filter_cutoff_khz`]).
pub fn rf_filter_cutoff_khz(output_rate_hz: u64) -> (r: Option<u32>)
    ensures
        r == spec_rf_filter_cutoff_khz(output_rate_hz),
{
    if output_rate_hz == 16000 {
        Some(7650)
    } else if output_rate_hz == 20000 {
        Some(9650)
    } else if output_rate_hz == 24000 || output_rate_hz == 28600 {
        Some(9400)
    } else {
        None
    }
}

/// Outcome of a cut.
pub struct ChopResult {
    pub ok: bool,
    pub exit_code: i32,
    pub stderr: String,
}

/// Output processing of a cut.
#[derive(Clone, Copy, Debug, PartialEq, Eq, Structural)]
pub struct ChopOptions {
    /// Output header sample rate; `None` keeps the source rate.
    pub output_rate_hz: Option<u64>,
    /// Output bit depth; `None` keeps it. `Some(6)` is written as an 8-bit
    /// FLAC on a 6-bit grid.
    pub output_bits: Option<u32>,
    /// Apply the RF low-pass profile when the output rate changes.
    pub basic_rf_filter: bool,
    /// The source is an RF capture (header rate = real rate / 1000).
    pub is_rf: bool,
    /// Input container; `None` sniffs it from the file (see
    /// [`sniff_format`]).
    pub input_format: Option<InputFormat>,
    /// Channels of a headerless raw input; `None` is 1 (RF captures are
    /// mono).
    pub input_channels: Option<u32>,
}

/// The container of an input file.
#[derive(Clone, Copy, Debug, PartialEq, Eq, Structural)]
pub enum InputFormat {
    Flac,
    Wav,
    /// Headerless raw PCM: unsigned 8-bit, signed 8-bit, unsigned 16-bit,
    /// signed 16-bit.
    U8,
    S8,
    U16,
    S16,
}

/// SoX's file type name of a raw format.
pub open spec fn spec_sox_type(fmt: InputFormat) -> Option<Seq<char>> {
    match fmt {
        InputFormat::U8 => Some("u8"@),
        InputFormat::S8 => Some("s8"@),
        InputFormat::U16 => Some("u16"@),
        InputFormat::S16 => Some("s16"@),
        _ => None,
    }
}

/// SoX's file type name of a raw format (see [`spec_sox_type`]).
pub fn sox_type(fmt: InputFormat) -> (r: Option<&'static str>)
    ensures
        match spec_sox_type(fmt) {
            Some(t) => r matches Some(x) && x@ == t,
            None => r is None,
        },
{
    match fmt {
        InputFormat::U8 => Some("u8"),
        InputFormat::S8 => Some("s8"),
        InputFormat::U16 => Some("u16"),
        InputFormat::S16 => Some("s16"),
        _ => None,
    }
}

/// Sample size in bits and signedness of a raw format.
pub fn raw_sample_layout(fmt: InputFormat) -> (r: Option<(u32, bool)>)
    ensures
        r == (match fmt {
            InputFormat::U8 => Some((8u32, false)),
            InputFormat::S8 => Some((8u32, true)),
            InputFormat::U16 => Some((16u32, false)),
            InputFormat::S16 => Some((16u32, true)),
            _ => None,
        }),
{
    match fmt {
        InputFormat::U8 => Some((8, false)),
        InputFormat::S8 => Some((8, true)),
        InputFormat::U16 => Some((16, false)),
        InputFormat::S16 => Some((16, true)),
        _ => None,
    }
}

/// The format of a file from its first bytes and its extension: the
/// `fLaC` marker or a RIFF/WAVE header decide first; else the extension
/// (any case) `flac`, `wav`, `u8`, `s8`, `u16` or `s16`; else none.
pub open spec fn spec_sniff_format(head: Seq<u8>, ext: Seq<u8>) -> Option<InputFormat> {
    if head.len() >= 4 && head.take(4) == crate::chain::flac_marker() {
        Some(InputFormat::Flac)
    } else if crate::companions::spec_is_riff_wave(head) {
        Some(InputFormat::Wav)
    } else if eq_ignore_ascii_case(ext, seq![0x66u8, 0x6Cu8, 0x61u8, 0x63u8]) {
        Some(InputFormat::Flac)
    } else if eq_ignore_ascii_case(ext, seq![0x77u8, 0x61u8, 0x76u8]) {
        Some(InputFormat::Wav)
    } else if eq_ignore_ascii_case(ext, seq![0x75u8, 0x38u8]) {
        Some(InputFormat::U8)
    } else if eq_ignore_ascii_case(ext, seq![0x73u8, 0x38u8]) {
        Some(InputFormat::S8)
    } else if eq_ignore_ascii_case(ext, seq![0x75u8, 0x31u8, 0x36u8]) {
        Some(InputFormat::U16)
    } else if eq_ignore_ascii_case(ext, seq![0x73u8, 0x31u8, 0x36u8]) {
        Some(InputFormat::S16)
    } else {
        None
    }
}

fn ext_is(ext: &[u8], word: &[u8]) -> (r: bool)
    ensures
        r == eq_ignore_ascii_case(ext@, word@),
{
    if ext.len() != word.len() {
        return false;
    }
    let r = matches_ignore_case_at(ext, 0, word);
    assert(ext@.subrange(0, word@.len() as int) =~= ext@);
    r
}

/// Sniffs the format of a file (see [`spec_sniff_format`]) from its first
/// bytes and its extension.
pub fn sniff_format(head: &[u8], ext: &[u8]) -> (r: Option<InputFormat>)
    ensures
        r == spec_sniff_format(head@, ext@),
{
    if head.len() >= 4 && head[0] == 0x66 && head[1] == 0x4C && head[2] == 0x61 && head[3] == 0x43 {
        assert(head@.take(4) =~= crate::chain::flac_marker());
        return Some(InputFormat::Flac);
    }
    proof {
        if head@.len() >= 4 && head@.take(4) == crate::chain::flac_marker() {
            assert(head@.take(4)[0] == head@[0] && head@.take(4)[1] == head@[1]);
            assert(head@.take(4)[2] == head@[2] && head@.take(4)[3] == head@[3]);
        }
    }
    if crate::companions::is_riff_wave(head) {
        return Some(InputFormat::Wav);
    }
    let w_flac: [u8; 4] = [0x66, 0x6C, 0x61, 0x63];
    let w_wav: [u8; 3] = [0x77, 0x61, 0x76];
    let w_u8: [u8; 2] = [0x75, 0x38];
    let w_s8: [u8; 2] = [0x73, 0x38];
    let w_u16: [u8; 3] = [0x75, 0x31, 0x36];
    let w_s16: [u8; 3] = [0x73, 0x31, 0x36];
    assert(w_flac@ =~= seq![0x66u8, 0x6Cu8, 0x61u8, 0x63u8]);
    assert(w_wav@ =~= seq![0x77u8, 0x61u8, 0x76u8]);
    assert(w_u8@ =~= seq![0x75u8, 0x38u8]);
    assert(w_s8@ =~= seq![0x73u8, 0x38u8]);
    assert(w_u16@ =~= seq![0x75u8, 0x31u8, 0x36u8]);
    assert(w_s16@ =~= seq![0x73u8, 0x31u8, 0x36u8]);
    if ext_is(ext, &w_flac) {
        Some(InputFormat::Flac)
    } else if ext_is(ext, &w_wav) {
        Some(InputFormat::Wav)
    } else if ext_is(ext, &w_u8) {
        Some(InputFormat::U8)
    } else if ext_is(ext, &w_s8) {
        Some(InputFormat::S8)
    } else if ext_is(ext, &w_u16) {
        Some(InputFormat::U16)
    } else if ext_is(ext, &w_s16) {
        Some(InputFormat::S16)
    } else {
        None
    }
}

/// Why the input arguments cannot be built.
#[derive(Clone, Copy, Debug, PartialEq, Eq, Structural)]
pub enum InputError {
    /// A raw input has no sample rate: no override and no `<n>msps` hint.
    MissingRate,
}

/// The message of an input error.
pub fn input_error_text(e: InputError) -> (r: &'static str)
    ensures
        r@ == "raw input needs a sample rate: rename the file with the rate (e.g. ..._8-bit_20msps.u8) — the <n>msps hint is required"@,
{
    match e {
        InputError::MissingRate => "raw input needs a sample rate: rename the file with the rate (e.g. ..._8-bit_20msps.u8) — the <n>msps hint is required",
    }
}

/// The SoX arguments that precede the input path. FLAC: none (SoX reads the
/// header). WAV: none, except `-r <rate>` for an RF WAV whose real rate is
/// above 1 MHz, pinned to the /1000 stream rate `wav_pin`. Raw PCM: `-t
/// <type> -r <rate> -c <channels>`, where `raw_rate` is the stream rate
/// (the real rate / 1000 for RF) and the channels default to 1; an error
/// when the raw rate is unknown. The rates are decimal texts of the float
/// rates, computed by the caller.
pub open spec fn spec_input_args(
    fmt: InputFormat,
    is_rf: bool,
    wav_pin: Option<Seq<char>>,
    raw_rate: Option<Seq<char>>,
    channels: Option<u32>,
) -> Result<Seq<Seq<char>>, InputError> {
    match fmt {
        InputFormat::Flac => Ok(Seq::empty()),
        InputFormat::Wav => Ok(
            if is_rf && wav_pin is Some {
                seq!["-r"@, wav_pin->0]
            } else {
                Seq::empty()
            },
        ),
        _ => match raw_rate {
            None => Err(InputError::MissingRate),
            Some(rate) => Ok(
                seq![
                    "-t"@,
                    spec_sox_type(fmt)->0,
                    "-r"@,
                    rate,
                    "-c"@,
                    decimal_chars(
                        match channels {
                            Some(c) => c as nat,
                            None => 1nat,
                        },
                    ),
                ],
            ),
        },
    }
}

/// Builds the SoX arguments that precede the input path (see
/// [`spec_input_args`]).
pub fn sox_input_args(
    fmt: InputFormat,
    is_rf: bool,
    wav_pin: Option<&str>,
    raw_rate: Option<&str>,
    channels: Option<u32>,
) -> (r: Result<Vec<String>, InputError>)
    ensures
        match spec_input_args(
            fmt,
            is_rf,
            match wav_pin {
                Some(w) => Some(w@),
                None => None,
            },
            match raw_rate {
                Some(x) => Some(x@),
                None => None,
            },
            channels,
        ) {
            Ok(a) => r matches Ok(v) && strings_view(v@) == a,
            Err(e) => r == Err::<Vec<String>, InputError>(e),
        },
{
    let mut a: Vec<String> = Vec::new();
    match fmt {
        InputFormat::Flac => {},
        InputFormat::Wav => {
            if is_rf {
                match wav_pin {
                    Some(w) => {
                        push_lit(&mut a, "-r");
                        push_lit(&mut a, w);
                    },
                    None => {},
                }
            }
        },
        _ => {
            let rate = match raw_rate {
                Some(x) => x,
                None => {
                    return Err(InputError::MissingRate);
                },
            };
            let t = match sox_type(fmt) {
                Some(t) => t,
                None => {
                    return Err(InputError::MissingRate);
                },
            };
            push_lit(&mut a, "-t");
            push_lit(&mut a, t);
            push_lit(&mut a, "-r");
            push_lit(&mut a, rate);
            push_lit(&mut a, "-c");
            let c: u32 = match channels {
                Some(c) => c,
                None => 1,
            };
            push_string(&mut a, u64_to_string(c as u64));
        },
    }
    proof {
        let ww = match wav_pin {
            Some(w) => Some(w@),
            None => None::<Seq<char>>,
        };
        let rr = match raw_rate {
            Some(x) => Some(x@),
            None => None::<Seq<char>>,
        };
        assert(strings_view(a@) =~= spec_input_args(fmt, is_rf, ww, rr, channels)->Ok_0);
    }
    Ok(a)
}

/// No processing: a pure trim of a non-RF source.
pub open spec fn default_chop_options() -> ChopOptions {
    ChopOptions {
        output_rate_hz: None,
        output_bits: None,
        basic_rf_filter: false,
        is_rf: false,
        input_format: None,
        input_channels: None,
    }
}

/// No processing: a pure trim of a non-RF source.
pub fn default_options() -> (r: ChopOptions)
    ensures
        r == default_chop_options(),
{
    ChopOptions {
        output_rate_hz: None,
        output_bits: None,
        basic_rf_filter: false,
        is_rf: false,
        input_format: None,
        input_channels: None,
    }
}

/// What SoX is asked to do for one cut.
pub struct ChopPlan {
    /// Arguments of the first (or only) SoX run.
    pub pass1: Vec<String>,
    /// Arguments of the 6-bit rescale run, if any.
    pub pass2: Option<Vec<String>>,
    /// Where the cut is written.
    pub out_path: String,
    /// The source is an RF capture (drives the tag rewrite).
    pub is_rf: bool,
}

pub open spec fn strings_view(v: Seq<String>) -> Seq<Seq<char>> {
    v.map_values(|s: String| s@)
}

/// The output is on the 6-bit grid.
pub open spec fn six_bit(opts: ChopOptions) -> bool {
    opts.output_bits == Some(6u32)
}

/// `-r <rate>` when a positive output rate is asked for.
pub open spec fn rate_args(opts: ChopOptions) -> Seq<Seq<char>> {
    match opts.output_rate_hz {
        Some(r) => if r > 0 {
            seq!["-r"@, decimal_chars(r as nat)]
        } else {
            Seq::empty()
        },
        None => Seq::empty(),
    }
}

/// `-b <bits>` (8 for the 6-bit grid) when a positive depth is asked for.
pub open spec fn bits_args(opts: ChopOptions) -> Seq<Seq<char>> {
    match opts.output_bits {
        Some(b) => if b == 6 {
            seq!["-b"@, "8"@]
        } else if b > 0 {
            seq!["-b"@, decimal_chars(b as nat)]
        } else {
            Seq::empty()
        },
        None => Seq::empty(),
    }
}

/// `sinc -n 2500 0-<cutoff>` when the RF filter is asked for with a
/// positive output rate that has a profile.
pub open spec fn filter_args(opts: ChopOptions) -> Seq<Seq<char>> {
    match opts.output_rate_hz {
        Some(r) => if r > 0 && opts.basic_rf_filter && spec_rf_filter_cutoff_khz(r) is Some {
            seq!["sinc"@, "-n"@, "2500"@, "0-"@ + decimal_chars(spec_rf_filter_cutoff_khz(r)->0 as nat)]
        } else {
            Seq::empty()
        },
        None => Seq::empty(),
    }
}

/// The arguments of the cut run: `-D [input args] <in> [-r R] [-b B] <target> trim
/// <start>s <len>s [sinc ...] [vol 0.25]`, where the target is the
/// temporary file for the 6-bit grid and the output otherwise.
pub open spec fn spec_cut_args(
    in_path: Seq<char>,
    out_path: Seq<char>,
    tmp_path: Seq<char>,
    start: u64,
    len: u64,
    opts: ChopOptions,
    input_args: Seq<Seq<char>>,
) -> Seq<Seq<char>> {
    seq!["-D"@] + input_args + seq![in_path] + rate_args(opts) + bits_args(opts) + seq![
        if six_bit(opts) {
            tmp_path
        } else {
            out_path
        },
        "trim"@,
        decimal_chars(start as nat) + "s"@,
        decimal_chars(len as nat) + "s"@,
    ] + filter_args(opts) + if six_bit(opts) {
        seq!["vol"@, "0.25"@]
    } else {
        Seq::empty()
    }
}

/// The arguments of the 6-bit rescale run: `-D <tmp> -b 8 <out> vol 4`.
pub open spec fn spec_rescale_args(tmp_path: Seq<char>, out_path: Seq<char>) -> Seq<Seq<char>> {
    seq!["-D"@, tmp_path, "-b"@, "8"@, out_path, "vol"@, "4"@]
}

fn push_lit(v: &mut Vec<String>, s: &str)
    ensures
        strings_view(final(v)@) == strings_view(old(v)@).push(s@),
{
    let x = String::from_str(s);
    v.push(x);
    assert(strings_view(final(v)@) =~= strings_view(old(v)@).push(s@));
}

fn push_string(v: &mut Vec<String>, x: String)
    ensures
        strings_view(final(v)@) == strings_view(old(v)@).push(x@),
{
    let ghost xv = x@;
    v.push(x);
    assert(strings_view(final(v)@) =~= strings_view(old(v)@).push(xv));
}

fn push_rate_args(a: &mut Vec<String>, opts: ChopOptions)
    ensures
        strings_view(final(a)@) == strings_view(old(a)@) + rate_args(opts),
{
    match opts.output_rate_hz {
        Some(rate) => {
            if rate > 0 {
                push_lit(a, "-r");
                push_string(a, u64_to_string(rate));
            }
        },
        None => {},
    }
    assert(strings_view(final(a)@) =~= strings_view(old(a)@) + rate_args(opts));
}

fn push_bits_args(a: &mut Vec<String>, opts: ChopOptions)
    ensures
        strings_view(final(a)@) == strings_view(old(a)@) + bits_args(opts),
{
    match opts.output_bits {
        Some(bits) => {
            if bits == 6 {
                push_lit(a, "-b");
                push_lit(a, "8");
            } else if bits > 0 {
                push_lit(a, "-b");
                push_string(a, u64_to_string(bits as u64));
            }
        },
        None => {},
    }
    assert(strings_view(final(a)@) =~= strings_view(old(a)@) + bits_args(opts));
}

fn push_filter_args(a: &mut Vec<String>, opts: ChopOptions)
    ensures
        strings_view(final(a)@) == strings_view(old(a)@) + filter_args(opts),
{
    match opts.output_rate_hz {
        Some(rate) => {
            if rate > 0 && opts.basic_rf_filter {
                match rf_filter_cutoff_khz(rate) {
                    Some(cutoff) => {
                        push_lit(a, "sinc");
                        push_lit(a, "-n");
                        push_lit(a, "2500");
                        let mut c = String::from_str("0-");
                        let d = u64_to_string(cutoff as u64);
                        c.append(d.as_str());
                        push_string(a, c);
                    },
                    None => {},
                }
            }
        },
        None => {},
    }
    assert(strings_view(final(a)@) =~= strings_view(old(a)@) + filter_args(opts));
}

fn push_trim_args(a: &mut Vec<String>, target: &str, start: u64, len: u64)
    ensures
        strings_view(final(a)@) == strings_view(old(a)@) + seq![
            target@,
            "trim"@,
            decimal_chars(start as nat) + "s"@,
            decimal_chars(len as nat) + "s"@,
        ],
{
    push_lit(a, target);
    push_lit(a, "trim");
    let mut st = u64_to_string(start);
    st.append("s");
    push_string(a, st);
    let mut ln = u64_to_string(len);
    ln.append("s");
    push_string(a, ln);
    assert(strings_view(final(a)@) =~= strings_view(old(a)@) + seq![
        target@,
        "trim"@,
        decimal_chars(start as nat) + "s"@,
        decimal_chars(len as nat) + "s"@,
    ]);
}

fn rescale_args(tmp_path: &str, out_path: &str) -> (r: Vec<String>)
    ensures
        strings_view(r@) == spec_rescale_args(tmp_path@, out_path@),
{
    let mut b: Vec<String> = Vec::new();
    push_lit(&mut b, "-D");
    push_lit(&mut b, tmp_path);
    push_lit(&mut b, "-b");
    push_lit(&mut b, "8");
    push_lit(&mut b, out_path);
    push_lit(&mut b, "vol");
    push_lit(&mut b, "4");
    assert(strings_view(b@) =~= spec_rescale_args(tmp_path@, out_path@));
    b
}

/// Plans a cut with output processing: the SoX runs to make, and where the
/// cut is written. `tmp_path` is the temporary file of the 6-bit grid.
pub fn chop_with_options(
    in_path: &str,
    out_path: &str,
    start_samples: u64,
    length_samples: u64,
    opts: ChopOptions,
    tmp_path: &str,
    input_args: &Vec<String>,
) -> (r: ChopPlan)
    ensures
        strings_view(r.pass1@) == spec_cut_args(
            in_path@,
            out_path@,
            tmp_path@,
            start_samples,
            length_samples,
            opts,
            strings_view(input_args@),
        ),
        match r.pass2 {
            Some(p) => six_bit(opts) && strings_view(p@) == spec_rescale_args(tmp_path@, out_path@),
            None => !six_bit(opts),
        },
        r.out_path@ == out_path@,
        r.is_rf == opts.is_rf,
{
    let six = match opts.output_bits {
        Some(b) => b == 6,
        None => false,
    };
    let mut a: Vec<String> = Vec::new();
    push_lit(&mut a, "-D");
    let mut k: usize = 0;
    while k < input_args.len()
        invariant
            k <= input_args.len(),
            strings_view(a@) == seq!["-D"@] + strings_view(input_args@).take(k as int),
        decreases input_args.len() - k,
    {
        push_lit(&mut a, input_args[k].as_str());
        assert(strings_view(input_args@).take(k + 1) =~= strings_view(input_args@).take(k as int).push(
            input_args@[k as int]@,
        ));
        k = k + 1;
    }
    assert(strings_view(input_args@).take(input_args.len() as int) =~= strings_view(input_args@));
    push_lit(&mut a, in_path);
    let ghost v0 = strings_view(a@);
    push_rate_args(&mut a, opts);
    push_bits_args(&mut a, opts);
    let ghost v1 = strings_view(a@);
    push_trim_args(&mut a, if six {
        tmp_path
    } else {
        out_path
    }, start_samples, length_samples);
    let ghost v2 = strings_view(a@);
    push_filter_args(&mut a, opts);
    let ghost v3 = strings_view(a@);
    if six {
        push_lit(&mut a, "vol");
        push_lit(&mut a, "0.25");
    }
    assert(strings_view(a@) =~= spec_cut_args(
        in_path@,
        out_path@,
        tmp_path@,
        start_samples,
        length_samples,
        opts,
        strings_view(input_args@),
    ));
    let pass2 = if six {
        Some(rescale_args(tmp_path, out_path))
    } else {
        None
    };
    ChopPlan { pass1: a, pass2: pass2, out_path: String::from_str(out_path), is_rf: opts.is_rf }
}

/// The volume step of a 6-bit pass run in-process: `vol 0.25` onto the
/// 6-bit grid, then `vol 4` back to full scale.
#[derive(Clone, Copy, Debug, PartialEq, Eq, Structural)]
pub enum Quantize {
    Quarter,
    Times4,
}

/// One effect of an in-process SoX chain: its name and arguments.
pub struct Effect {
    pub name: String,
    pub args: Vec<String>,
}

pub open spec fn effect_view(e: Effect) -> (Seq<char>, Seq<Seq<char>>) {
    (e.name@, strings_view(e.args@))
}

/// The effects between the input and the output sink of an in-process
/// cut, in the order the SoX command line would apply them: `trim`, the RF
/// `sinc` filter when asked for, a `rate` conversion when the output rate
/// differs from the stream rate, and the volume step of a 6-bit pass.
pub open spec fn spec_effect_plan(start: u64, len: u64, opts: ChopOptions, stream_rate: u64, quantize: Option<Quantize>) -> Seq<(Seq<char>, Seq<Seq<char>>)> {
    let trim = seq![("trim"@, seq![decimal_chars(start as nat) + "s"@, decimal_chars(len as nat) + "s"@])];
    let sinc = if filter_args(opts).len() > 0 {
        seq![("sinc"@, filter_args(opts).drop_first())]
    } else {
        Seq::empty()
    };
    let rate = match opts.output_rate_hz {
        Some(r) => if r > 0 && stream_rate != r {
            seq![("rate"@, seq![decimal_chars(r as nat)])]
        } else {
            Seq::empty()
        },
        None => Seq::empty(),
    };
    let vol = match quantize {
        Some(Quantize::Quarter) => seq![("vol"@, seq!["0.25"@])],
        Some(Quantize::Times4) => seq![("vol"@, seq!["4"@])],
        None => Seq::empty(),
    };
    trim + sinc + rate + vol
}

fn push_effect(plan: &mut Vec<Effect>, name: &str, args: Vec<String>)
    ensures
        final(plan)@.map_values(|e: Effect| effect_view(e)) == old(plan)@.map_values(|e: Effect| effect_view(e)).push(
            (name@, strings_view(args@)),
        ),
{
    let ghost a = strings_view(args@);
    plan.push(Effect { name: String::from_str(name), args: args });
    assert(final(plan)@.map_values(|e: Effect| effect_view(e)) =~= old(plan)@.map_values(|e: Effect| effect_view(e)).push(
        (name@, a),
    ));
}

/// Plans the effects of an in-process cut (see [`spec_effect_plan`]);
/// `stream_rate` is the rate of the stream that reaches the effects.
pub fn effect_plan(start: u64, len: u64, opts: ChopOptions, stream_rate: u64, quantize: Option<Quantize>) -> (r: Vec<Effect>)
    ensures
        r@.map_values(|e: Effect| effect_view(e)) == spec_effect_plan(start, len, opts, stream_rate, quantize),
{
    let ghost sp = spec_effect_plan(start, len, opts, stream_rate, quantize);
    let ghost trim_s = seq![("trim"@, seq![decimal_chars(start as nat) + "s"@, decimal_chars(len as nat) + "s"@])];
    let ghost sinc_s = if filter_args(opts).len() > 0 {
        seq![("sinc"@, filter_args(opts).drop_first())]
    } else {
        Seq::<(Seq<char>, Seq<Seq<char>>)>::empty()
    };
    let ghost rate_s = match opts.output_rate_hz {
        Some(r) => if r > 0 && stream_rate != r {
            seq![("rate"@, seq![decimal_chars(r as nat)])]
        } else {
            Seq::<(Seq<char>, Seq<Seq<char>>)>::empty()
        },
        None => Seq::<(Seq<char>, Seq<Seq<char>>)>::empty(),
    };
    let ghost vol_s = match quantize {
        Some(Quantize::Quarter) => seq![("vol"@, seq!["0.25"@])],
        Some(Quantize::Times4) => seq![("vol"@, seq!["4"@])],
        None => Seq::<(Seq<char>, Seq<Seq<char>>)>::empty(),
    };
    assert(sp == trim_s + sinc_s + rate_s + vol_s);
    let mut plan: Vec<Effect> = Vec::new();
    let mut trim: Vec<String> = Vec::new();
    let mut st = u64_to_string(start);
    st.append("s");
    push_string(&mut trim, st);
    let mut ln = u64_to_string(len);
    ln.append("s");
    push_string(&mut trim, ln);
    assert(strings_view(trim@) =~= seq![decimal_chars(start as nat) + "s"@, decimal_chars(len as nat) + "s"@]);
    push_effect(&mut plan, "trim", trim);
    let ghost p1 = plan@.map_values(|e: Effect| effect_view(e));
    assert(p1 =~= trim_s);
    let mut f: Vec<String> = Vec::new();
    push_filter_args(&mut f, opts);
    assert(strings_view(f@) =~= filter_args(opts));
    if f.len() > 0 {
        let ghost fa = strings_view(f@);
        f.remove(0);
        assert(strings_view(f@) =~= fa.drop_first());
        push_effect(&mut plan, "sinc", f);
    }
    let ghost p2 = plan@.map_values(|e: Effect| effect_view(e));
    assert(p2 =~= p1 + sinc_s);
    match opts.output_rate_hz {
        Some(rate) => {
            if rate > 0 && stream_rate != rate {
                let mut a: Vec<String> = Vec::new();
                push_string(&mut a, u64_to_string(rate));
                assert(strings_view(a@) =~= seq![decimal_chars(rate as nat)]);
                push_effect(&mut plan, "rate", a);
            }
        },
        None => {},
    }
    let ghost p3 = plan@.map_values(|e: Effect| effect_view(e));
    assert(p3 =~= p2 + rate_s);
    match quantize {
        Some(Quantize::Quarter) => {
            let mut a: Vec<String> = Vec::new();
            push_lit(&mut a, "0.25");
            assert(strings_view(a@) =~= seq!["0.25"@]);
            push_effect(&mut plan, "vol", a);
        },
        Some(Quantize::Times4) => {
            let mut a: Vec<String> = Vec::new();
            push_lit(&mut a, "4");
            assert(strings_view(a@) =~= seq!["4"@]);
            push_effect(&mut plan, "vol", a);
        },
        None => {},
    }
    assert(plan@.map_values(|e: Effect| effect_view(e)) =~= p3 + vol_s);
    plan
}

/// The bit depth written by an in-process cut: 8 for the 6-bit grid, the
/// requested depth when positive, else the input's (`None`).
pub fn output_bits_override(opts: ChopOptions) -> (r: Option<u32>)
    ensures
        r == (match opts.output_bits {
            Some(b) => if b == 6 {
                Some(8u32)
            } else if b > 0 {
                Some(b)
            } else {
                None
            },
            None => None,
        }),
{
    match opts.output_bits {
        Some(b) => if b == 6 {
            Some(8)
        } else if b > 0 {
            Some(b)
        } else {
            None
        },
        None => None,
    }
}

/// Plans a pure trim: `sox -D [input args] <in> <out> trim <start>s <len>s`,
/// the plan of [`chop_with_options`] with [`default_options`].
pub fn chop(in_path: &str, out_path: &str, start_samples: u64, length_samples: u64, input_args: &Vec<String>) -> (r: ChopPlan)
    ensures
        strings_view(r.pass1@) == spec_cut_args(
            in_path@,
            out_path@,
            ""@,
            start_samples,
            length_samples,
            default_chop_options(),
            strings_view(input_args@),
        ),
        strings_view(r.pass1@) == seq!["-D"@] + strings_view(input_args@) + seq![in_path@, out_path@, "trim"@, decimal_chars(
            start_samples as nat,
        ) + "s"@, decimal_chars(length_samples as nat) + "s"@],
        r.pass2 is None,
        r.out_path@ == out_path@,
        !r.is_rf,
{
    let r = chop_with_options(in_path, out_path, start_samples, length_samples, default_options(), "", input_args);
    assert(strings_view(r.pass1@) =~= seq!["-D"@] + strings_view(input_args@) + seq![in_path@, out_path@, "trim"@, decimal_chars(
        start_samples as nat,
    ) + "s"@, decimal_chars(length_samples as nat) + "s"@]);
    r
}

/// The result of the 6-bit rescale run: a failure marks the cut failed with
/// its exit code, and explains itself when nothing else was reported.
pub open spec fn after_rescale(ok: bool, exit_code: i32, stderr: Seq<char>, success: bool, code: i32) -> (bool, i32, Seq<char>) {
    if success {
        (ok, exit_code, stderr)
    } else {
        (
            false,
            code,
            if stderr.len() == 0 {
                "6-bit rescale pass failed (exit "@ + i32_chars(code) + ")"@
            } else {
                stderr
            },
        )
    }
}

/// Folds the 6-bit rescale run into the result of the cut.
pub fn finish_rescale(r: &mut ChopResult, success: bool, code: i32)
    ensures
        (final(r).ok, final(r).exit_code, final(r).stderr@) == after_rescale(
            old(r).ok,
            old(r).exit_code,
            old(r).stderr@,
            success,
            code,
        ),
{
    if !success {
        r.ok = false;
        r.exit_code = code;
        if r.stderr.as_str().is_empty() {
            let mut s = String::from_str("6-bit rescale pass failed (exit ");
            let d = i32_to_string(code);
            s.append(d.as_str());
            s.append(")");
            r.stderr = s;
        }
    }
}

/// The note added when the tag rewrite fails after a successful cut.
pub open spec fn tag_note(err: Seq<char>) -> Seq<char> {
    "warning: tag rewrite failed: "@ + err
}

/// Records the outcome of the tag rewrite after a successful cut: a failure
/// leaves the cut successful and adds a warning to its messages (on a line
/// of its own when there were messages already).
pub fn rewrite_tags_after_cut(r: &mut ChopResult, outcome: Result<(), String>)
    ensures
        final(r).ok == old(r).ok,
        final(r).exit_code == old(r).exit_code,
        final(r).stderr@ == match outcome {
            Ok(()) => old(r).stderr@,
            Err(e) => if old(r).stderr@.len() == 0 {
                tag_note(e@)
            } else {
                old(r).stderr@ + "\n"@ + tag_note(e@)
            },
        },
{
    match outcome {
        Ok(()) => {},
        Err(e) => {
            let mut note = String::from_str("warning: tag rewrite failed: ");
            note.append(e.as_str());
            if r.stderr.as_str().is_empty() {
                r.stderr = note;
            } else {
                r.stderr.append("\n");
                r.stderr.append(note.as_str());
            }
        },
    }
}

/// The file name of `p` without its extension (`Path::file_stem`), as a
/// string.
pub uninterp spec fn path_file_stem(p: Seq<char>) -> Option<Seq<char>>;

/// The extension of `p` (`Path::extension`), as a string.
pub uninterp spec fn path_extension(p: Seq<char>) -> Option<Seq<char>>;

/// The parent directory of `p` (`Path::parent`), as a string.
pub uninterp spec fn path_parent(p: Seq<char>) -> Option<Seq<char>>;

/// `dir` joined with `name` (`PathBuf::join`), as a string.
pub uninterp spec fn path_join(dir: Seq<char>, name: Seq<char>) -> Seq<char>;

/// `std::path::Path::file_stem`, converted to a `String` (the stem of a
/// `&str` path is always UTF-8). Trusted: the result is std's stem of `p`.
#[verifier::external_body]
fn file_stem(p: &str) -> (r: Option<String>)
    ensures
        match path_file_stem(p@) {
            Some(x) => r matches Some(s) && s@ == x,
            None => r is None,
        },
{
    std::path::Path::new(p).file_stem().and_then(|x| x.to_str()).map(|x| x.to_string())
}

/// `std::path::Path::extension`, converted to a `String`. Trusted: the
/// result is std's extension of `p`.
#[verifier::external_body]
fn extension(p: &str) -> (r: Option<String>)
    ensures
        match path_extension(p@) {
            Some(x) => r matches Some(s) && s@ == x,
            None => r is None,
        },
{
    std::path::Path::new(p).extension().and_then(|x| x.to_str()).map(|x| x.to_string())
}

/// `std::path::Path::parent`, converted to a `String`. Trusted: the result
/// is std's parent of `p`.
#[verifier::external_body]
fn parent(p: &str) -> (r: Option<String>)
    ensures
        match path_parent(p@) {
            Some(x) => r matches Some(s) && s@ == x,
            None => r is None,
        },
{
    std::path::Path::new(p).parent().and_then(|x| x.to_str()).map(|x| x.to_string())
}

/// `std::path::PathBuf::join`, converted to a `String`. Trusted: the result
/// is std's join of `dir` and `name`.
#[verifier::external_body]
fn join(dir: &str, name: &str) -> (r: String)
    ensures
        r@ == path_join(dir@, name@),
{
    std::path::PathBuf::from(dir).join(name).to_string_lossy().into_owned()
}

/// `std::path::Path::exists`. Trusted for nothing: the answer depends on
/// the disk.
#[verifier::external_body]
fn path_exists(p: &str) -> (r: bool) {
    std::path::Path::new(p).exists()
}

/// The name of output candidate `n`: `<stem><suffix>.<ext>` for `n == 1`,
/// `<stem><suffix>-<n>.<ext>` after it.
pub open spec fn candidate_name(stem: Seq<char>, suffix: Seq<char>, ext: Seq<char>, n: nat) -> Seq<char> {
    stem + suffix + (if n == 1 {
        Seq::empty()
    } else {
        "-"@ + decimal_chars(n)
    }) + "."@ + ext
}

/// Output candidate `n` for a cut of `in_path`: in `out_dir`, or next to
/// the source (in `.` when it has no directory); named after
/// `stem_override`, or after the source with `-cut`; with the source's
/// extension, `flac` when it has none. `None` when the source has no stem.
pub open spec fn output_candidate(in_path: Seq<char>, out_dir: Seq<char>, stem_override: Seq<char>, n: nat) -> Option<Seq<char>> {
    match path_file_stem(in_path) {
        None => None,
        Some(src) => {
            let stem = if stem_override.len() > 0 {
                stem_override
            } else {
                src
            };
            let ext = match path_extension(in_path) {
                Some(e) => e,
                None => "flac"@,
            };
            let dir = if out_dir.len() > 0 {
                out_dir
            } else {
                match path_parent(in_path) {
                    Some(p) => if p.len() > 0 {
                        p
                    } else {
                        "."@
                    },
                    None => "."@,
                }
            };
            let suffix = if stem_override.len() == 0 {
                "-cut"@
            } else {
                ""@
            };
            Some(path_join(dir, candidate_name(stem, suffix, ext, n)))
        },
    }
}

/// Output candidate `n` (see [`output_candidate`]).
pub fn output_path_candidate(in_path: &str, out_dir: &str, stem_override: &str, n: u32) -> (r: Option<String>)
    requires
        n >= 1,
    ensures
        match output_candidate(in_path@, out_dir@, stem_override@, n as nat) {
            Some(x) => r matches Some(s) && s@ == x,
            None => r is None,
        },
{
    let src = match file_stem(in_path) {
        Some(x) => x,
        None => {
            return None;
        },
    };
    let over = !stem_override.is_empty();
    let mut name = if over {
        String::from_str(stem_override)
    } else {
        src
    };
    let ext = match extension(in_path) {
        Some(e) => e,
        None => String::from_str("flac"),
    };
    let dir = if !out_dir.is_empty() {
        String::from_str(out_dir)
    } else {
        match parent(in_path) {
            Some(p) => if !p.as_str().is_empty() {
                p
            } else {
                String::from_str(".")
            },
            None => String::from_str("."),
        }
    };
    let ghost stem = name@;
    if !over {
        name.append("-cut");
    }
    let ghost with_suffix = name@;
    if n != 1 {
        name.append("-");
        let d = u64_to_string(n as u64);
        name.append(d.as_str());
    }
    name.append(".");
    name.append(ext.as_str());
    proof {
        let suffix = if stem_override@.len() == 0 {
            "-cut"@
        } else {
            ""@
        };
        reveal_strlit("");
        assert(with_suffix =~= stem + suffix);
        assert(name@ =~= candidate_name(stem, suffix, ext@, n as nat));
    }
    Some(join(dir.as_str(), name.as_str()))
}

/// Most output candidates tried.
pub const MAX_CANDIDATES: u32 = 9999;

/// The candidate chosen from the answers to "does candidate `k + 1`
/// exist?" for `k = 0, 1, ...`: the first one that does not exist; `None`
/// when every candidate asked about exists.
pub open spec fn first_free(exists: Seq<bool>) -> Option<nat> {
    first_free_from(exists, 0)
}

pub open spec fn first_free_from(exists: Seq<bool>, i: int) -> Option<nat>
    decreases exists.len() - i,
{
    if i < 0 || i >= exists.len() {
        None
    } else if !exists[i] {
        Some((i + 1) as nat)
    } else {
        first_free_from(exists, i + 1)
    }
}

proof fn lemma_first_free_all_but_last(exists: Seq<bool>, i: int)
    requires
        0 <= i < exists.len(),
        forall|j: int| i <= j < exists.len() - 1 ==> exists[j],
    ensures
        first_free_from(exists, i) == (if !exists.last() {
            Some(exists.len())
        } else {
            None
        }),
    decreases exists.len() - i,
{
    if i + 1 < exists.len() {
        lemma_first_free_all_but_last(exists, i + 1);
    } else {
        assert(first_free_from(exists, i + 1) == None::<nat>);
    }
}

/// One step of the search for a free output name: after candidate `n`,
/// try `n + 1` when `n` exists and fewer than [`MAX_CANDIDATES`] were tried.
pub fn next_candidate(n: u32, exists: bool) -> (r: Option<u32>)
    ensures
        r == (if exists && n < MAX_CANDIDATES {
            Some((n + 1) as u32)
        } else {
            None
        }),
{
    if exists && n < MAX_CANDIDATES {
        Some(n + 1)
    } else {
        None
    }
}

/// The output path chosen from the answers `exists[k]` to "does candidate
/// `k + 1` (see [`output_candidate`]) exist?": the first candidate that does
/// not exist. `None` when every candidate asked about exists (an earlier
/// cut is never overwritten) or the source has no stem.
pub fn output_path_from_answers(in_path: &str, out_dir: &str, stem_override: &str, exists: &[bool]) -> (r: Option<String>)
    requires
        exists.len() <= MAX_CANDIDATES,
    ensures
        match first_free(exists@) {
            Some(k) => match output_candidate(in_path@, out_dir@, stem_override@, k) {
                Some(x) => r matches Some(s) && s@ == x,
                None => r is None,
            },
            None => r is None,
        },
{
    let mut i: usize = 0;
    while i < exists.len() && exists[i]
        invariant
            i <= exists.len() <= MAX_CANDIDATES,
            first_free(exists@) == first_free_from(exists@, i as int),
        decreases exists.len() - i,
    {
        i = i + 1;
    }
    if i == exists.len() {
        return None;
    }
    output_path_candidate(in_path, out_dir, stem_override, (i + 1) as u32)
}

/// Builds the output path of a cut: asks the disk about candidates 1, 2,
/// ... in turn (see [`next_candidate`]) and takes the first that does not
/// exist, so that an earlier cut is never overwritten; `None` when all 9999
/// exist or the source has no stem. Which candidates exist is the disk's
/// answer, so the result is stated as the choice [`first_free`] makes from
/// some sequence of answers.
pub fn generate_output_path(in_path: &str, out_dir: &str, stem_override: &str) -> (r: Option<String>)
    ensures
        output_candidate(in_path@, out_dir@, stem_override@, 1) is None ==> r is None,
        r matches Some(p) ==> exists|answers: Seq<bool>|
            {
                &&& 1 <= answers.len() <= MAX_CANDIDATES
                &&& first_free(answers) is Some
                &&& output_candidate(in_path@, out_dir@, stem_override@, first_free(answers)->0) == Some(p@)
            },
{
    let mut out = match output_path_candidate(in_path, out_dir, stem_override, 1) {
        Some(p) => p,
        None => {
            return None;
        },
    };
    let mut n: u32 = 1;
    let ghost mut answers: Seq<bool> = Seq::empty();
    loop
        invariant
            1 <= n <= MAX_CANDIDATES,
            answers.len() == n - 1,
            forall|j: int| 0 <= j < answers.len() ==> answers[j],
            output_candidate(in_path@, out_dir@, stem_override@, n as nat) == Some(out@),
            output_candidate(in_path@, out_dir@, stem_override@, 1) is Some,
        decreases MAX_CANDIDATES - n,
    {
        let e = path_exists(out.as_str());
        proof {
            answers = answers.push(e);
        }
        if !e {
            proof {
                lemma_first_free_all_but_last(answers, 0);
                assert(first_free(answers) == Some(n as nat));
            }
            return Some(out);
        }
        match next_candidate(n, e) {
            Some(m) => {
                match output_path_candidate(in_path, out_dir, stem_override, m) {
                    Some(p) => {
                        out = p;
                    },
                    None => {
                        return None;
                    },
                }
                n = m;
            },
            None => {
                return None;
            },
        }
    }
}

/// How often a running SoX is polled, in milliseconds.
pub const POLL_INTERVAL_MS: u64 = 50;

/// What the runner does after one poll of SoX.
#[derive(Clone, Copy, Debug, PartialEq, Eq, Structural)]
pub enum PollAction {
    /// SoX exited: collect its status and messages.
    Finished,
    /// Cancellation was asked for: kill SoX.
    Kill,
    /// Sleep [`POLL_INTERVAL_MS`] and poll again.
    Wait,
}

/// The decision after one poll: an exit wins over a cancel request.
pub fn poll_step(exited: bool, cancel_requested: bool) -> (r: PollAction)
    ensures
        r == (if exited {
            PollAction::Finished
        } else if cancel_requested {
            PollAction::Kill
        } else {
            PollAction::Wait
        }),
{
    if exited {
        PollAction::Finished
    } else if cancel_requested {
        PollAction::Kill
    } else {
        PollAction::Wait
    }
}

/// A character with the Unicode `White_Space` property (what
/// `char::is_whitespace`, and so `str::trim`, removes).
pub open spec fn is_white_space(c: char) -> bool {
    let n = c as u32;
    (0x09 <= n <= 0x0D) || n == 0x20 || n == 0x85 || n == 0xA0 || n == 0x1680 || (0x2000 <= n <= 0x200A)
        || n == 0x2028 || n == 0x2029 || n == 0x202F || n == 0x205F || n == 0x3000
}

/// The text is empty once trimmed: it holds only white space.
pub open spec fn is_blank(s: Seq<char>) -> bool {
    forall|i: int| 0 <= i < s.len() ==> is_white_space(#[trigger] s[i])
}

fn white_space_exec(c: char) -> (r: bool)
    ensures
        r == is_white_space(c),
{
    let n = c as u32;
    (0x09 <= n && n <= 0x0D) || n == 0x20 || n == 0x85 || n == 0xA0 || n == 0x1680 || (0x2000 <= n && n <= 0x200A)
        || n == 0x2028 || n == 0x2029 || n == 0x202F || n == 0x205F || n == 0x3000
}

/// The result of a cancelled cut: failed, exit code -1, and the messages
/// SoX printed, or "cancelled by user" when they are blank.
pub fn cancelled_result(stderr: String) -> (r: ChopResult)
    ensures
        !r.ok,
        r.exit_code == -1,
        r.stderr@ == (if is_blank(stderr@) {
            "cancelled by user"@
        } else {
            stderr@
        }),
{
    let n = stderr.as_str().unicode_len();
    let mut i: usize = 0;
    let mut blank = true;
    while i < n
        invariant
            n == stderr@.len(),
            i <= n,
            blank == (forall|j: int| 0 <= j < i ==> is_white_space(#[trigger] stderr@[j])),
        decreases n - i,
    {
        let c = stderr.as_str().get_char(i);
        if !white_space_exec(c) {
            blank = false;
        }
        i = i + 1;
    }
    if blank {
        ChopResult { ok: false, exit_code: -1, stderr: String::from_str("cancelled by user") }
    } else {
        ChopResult { ok: false, exit_code: -1, stderr: stderr }
    }
}

/// Requests cancellation of the cut in flight: the run that polls `flag`
/// stops SoX.
pub fn cancel_chop(flag: &AtomicBool) {
    flag.store(true, Ordering::Relaxed);
}

/// Name of the SoX executable.
pub fn binary_name(windows: bool) -> (r: &'static str)
    ensures
        r@ == (if windows {
            "sox.exe"@
        } else {
            "sox"@
        }),
{
    if windows {
        "sox.exe"
    } else {
        "sox"
    }
}

/// The first candidate SoX executable that runs, given which do.
pub fn resolve(candidates: &Vec<String>, runnable: &[bool]) -> (r: Option<String>)
    requires
        candidates.len() == runnable.len(),
    ensures
        match r {
            Some(p) => exists|k: int|
                0 <= k < runnable.len() && runnable[k] && p@ == candidates@[k]@ && forall|j: int|
                    0 <= j < k ==> !runnable[j],
            None => forall|j: int| 0 <= j < runnable.len() ==> !runnable[j],
        },
{
    let mut k: usize = 0;
    while k < runnable.len()
        invariant
            k <= runnable.len(),
            candidates.len() == runnable.len(),
            forall|j: int| 0 <= j < k ==> !runnable[j],
        decreases runnable.len() - k,
    {
        if runnable[k] {
            let p = candidates[k].clone();
            assert(runnable[k as int] && p@ == candidates@[k as int]@);
            return Some(p);
        }
        k = k + 1;
    }
    None
}

/// Whether some candidate SoX executable runs.
pub fn sox_available(runnable: &[bool]) -> (r: bool)
    ensures
        r == exists|j: int| 0 <= j < runnable.len() && runnable[j],
{
    let mut k: usize = 0;
    while k < runnable.len()
        invariant
            k <= runnable.len(),
            forall|j: int| 0 <= j < k ==> !runnable[j],
        decreases runnable.len() - k,
    {
        if runnable[k] {
            return true;
        }
        k = k + 1;
    }
    false
}

/// The cut run writes the requested output format: after `-D`, the input
/// arguments and the input path come `-r` and the decimal rate when a
/// positive rate is asked for, then `-b` and the decimal depth `b` when a
/// positive depth other than the 6-bit grid is asked for (`-b 8` for the
/// grid), then the target.
pub proof fn lemma_cut_args_output_format(
    in_path: Seq<char>,
    out_path: Seq<char>,
    tmp_path: Seq<char>,
    start: u64,
    len: u64,
    opts: ChopOptions,
    input_args: Seq<Seq<char>>,
)
    ensures
        ({
            let a = spec_cut_args(in_path, out_path, tmp_path, start, len, opts, input_args);
            let n = input_args.len() as int;
            let r_len: int = if opts.output_rate_hz matches Some(r) && r > 0 {
                2
            } else {
                0
            };
            let t: int = n + 2 + r_len + if opts.output_bits is Some && opts.output_bits->0 > 0 {
                2int
            } else {
                0int
            };
            &&& a[0] == "-D"@
            &&& a[n + 1] == in_path
            &&& opts.output_rate_hz is Some && opts.output_rate_hz->0 > 0 ==> a[n + 2] == "-r"@ && a[n + 3]
                == decimal_chars(opts.output_rate_hz->0 as nat)
            &&& opts.output_bits is Some && opts.output_bits->0 > 0 && opts.output_bits->0 != 6 ==> a[n + 2 + r_len]
                == "-b"@ && a[n + 3 + r_len] == decimal_chars(opts.output_bits->0 as nat)
            &&& opts.output_bits == Some(6u32) ==> a[n + 2 + r_len] == "-b"@ && a[n + 3 + r_len] == "8"@
            &&& a[t] == (if opts.output_bits == Some(6u32) {
                tmp_path
            } else {
                out_path
            })
            &&& a[t + 1] == "trim"@
            &&& a[t + 2] == decimal_chars(start as nat) + "s"@
            &&& a[t + 3] == decimal_chars(len as nat) + "s"@
        }),
{
    let a = spec_cut_args(in_path, out_path, tmp_path, start, len, opts, input_args);
    let n = input_args.len() as int;
    let head = seq!["-D"@] + input_args + seq![in_path];
    assert(head.len() == n + 2);
    assert(head[0] == "-D"@ && head[n + 1] == in_path);
    let hr = head + rate_args(opts);
    let hrb = hr + bits_args(opts);
    assert(hr[0] == "-D"@ && hr[n + 1] == in_path);
    assert(hrb[0] == "-D"@ && hrb[n + 1] == in_path);
    assert(a[0] == hrb[0] && a[n + 1] == hrb[n + 1]);
    if opts.output_rate_hz matches Some(r) && r > 0 {
        assert(hr[n + 2] == rate_args(opts)[0] && hr[n + 3] == rate_args(opts)[1]);
        assert(a[n + 2] == hrb[n + 2] && a[n + 3] == hrb[n + 3]);
    }
    let r_len: int = rate_args(opts).len() as int;
    let t: int = n + 2 + r_len + bits_args(opts).len();
    let tail = seq![
        if six_bit(opts) {
            tmp_path
        } else {
            out_path
        },
        "trim"@,
        decimal_chars(start as nat) + "s"@,
        decimal_chars(len as nat) + "s"@,
    ];
    let all = hrb + tail;
    assert(hrb.len() == t);
    assert(all[t] == tail[0] && all[t + 1] == tail[1] && all[t + 2] == tail[2] && all[t + 3] == tail[3]);
    assert(a[t] == all[t] && a[t + 1] == all[t + 1] && a[t + 2] == all[t + 2] && a[t + 3] == all[t + 3]);
    if bits_args(opts).len() == 2 {
        assert(hrb[n + 2 + r_len] == bits_args(opts)[0] && hrb[n + 3 + r_len] == bits_args(opts)[1]);
        assert(a[n + 2 + r_len] == hrb[n + 2 + r_len] && a[n + 3 + r_len] == hrb[n + 3 + r_len]);
    }
}

} // verus!
