//! Companion files of a capture: the base name they share, the `duration`
//! line of a capture log, and the chunk walk of a WAV header.
//!
//! The capture pipeline writes several files per capture whose names share
//! a prefix up to and including a `YYYY.MM.DD_HH.MM.SS` timestamp; a log
//! among them states the real duration as `duration=6120.27s` (or
//! `Duration: 3517.5 seconds`); a finalized WAV among them gives it by its
//! `fmt ` and `data` chunks.

use vstd::prelude::*;
use crate::text::{is_digit, eq_ignore_ascii_case, matches_ignore_case_at};

verus! {

/// Length of a `YYYY.MM.DD_HH.MM.SS` timestamp.
pub const TIMESTAMP_LEN: usize = 19;

/// Bytes of a log that are searched.
pub const LOG_SCAN_LIMIT: usize = 0x1_0000;

/// `s[i..i + 19]` is a `YYYY.MM.DD_HH.MM.SS` timestamp.
pub open spec fn timestamp_at(s: Seq<u8>, i: int) -> bool {
    &&& 0 <= i
    &&& i + 19 <= s.len()
    &&& forall|k: int| 0 <= k < 19 ==> (#[trigger] s[i + k] == (if k == 4 || k == 7 || k == 13 || k == 16 {
        0x2Eu8
    } else if k == 10 {
        0x5Fu8
    } else {
        s[i + k]
    })) && (k != 4 && k != 7 && k != 10 && k != 13 && k != 16 ==> is_digit(s[i + k]))
}

/// The capture base of a file stem: the stem up to and including its first
/// timestamp, or the whole stem when it has none.
pub open spec fn spec_capture_base_len(s: Seq<u8>) -> int {
    if exists|i: int| timestamp_at(s, i) {
        (choose|i: int| timestamp_at(s, i) && forall|j: int| 0 <= j < i ==> !timestamp_at(s, j)) + 19
    } else {
        s.len() as int
    }
}

fn timestamp_at_exec(s: &[u8], i: usize) -> (r: bool)
    requires
        i + 19 <= s.len(),
    ensures
        r == timestamp_at(s@, i as int),
{
    let mut k: usize = 0;
    while k < 19
        invariant
            k <= 19,
            i + 19 <= s.len(),
            forall|j: int| 0 <= j < k ==> (#[trigger] s@[i + j] == (if j == 4 || j == 7 || j == 13 || j == 16 {
                0x2Eu8
            } else if j == 10 {
                0x5Fu8
            } else {
                s@[i + j]
            })) && (j != 4 && j != 7 && j != 10 && j != 13 && j != 16 ==> is_digit(s@[i + j])),
        decreases 19 - k,
    {
        let c = s[i + k];
        let ok = if k == 4 || k == 7 || k == 13 || k == 16 {
            c == 0x2E
        } else if k == 10 {
            c == 0x5F
        } else {
            0x30 <= c && c <= 0x39
        };
        if !ok {
            assert(!timestamp_at(s@, i as int)) by {
                let kk = k as int;
                assert(0 <= kk < 19);
                assert(s@[i + kk] == c);
            }
            return false;
        }
        k = k + 1;
    }
    true
}

/// The capture base of a file stem (see [`spec_capture_base_len`]).
pub fn capture_base(stem: &[u8]) -> (r: &[u8])
    ensures
        r@ == stem@.take(spec_capture_base_len(stem@)),
{
    let mut i: usize = 0;
    while stem.len() >= 19 && i <= stem.len() - 19
        invariant
            forall|j: int| 0 <= j < i ==> !timestamp_at(stem@, j),
        decreases stem.len() - i,
    {
        if timestamp_at_exec(stem, i) {
            let ghost first = choose|k: int| timestamp_at(stem@, k) && forall|j: int| 0 <= j < k ==> !timestamp_at(stem@, j);
            assert(timestamp_at(stem@, i as int) && forall|j: int| 0 <= j < i ==> !timestamp_at(stem@, j));
            assert(first == i) by {
                if first < i {
                } else if first > i {
                }
            }
            return vstd::slice::slice_subrange(stem, 0, i + 19);
        }
        i = i + 1;
    }
    assert(!exists|k: int| timestamp_at(stem@, k)) by {
        assert forall|k: int| !timestamp_at(stem@, k) by {
            if 0 <= k < i {
            }
        }
    }
    assert(stem@.take(stem@.len() as int) =~= stem@);
    stem
}

/// `duration`.
pub open spec fn duration_word() -> Seq<u8> {
    seq![0x64u8, 0x75u8, 0x72u8, 0x61u8, 0x74u8, 0x69u8, 0x6Fu8, 0x6Eu8]
}

/// What may stand between `duration` and the number: `:`, `=` or ASCII
/// whitespace.
pub open spec fn is_separator(c: u8) -> bool {
    c == 0x3A || c == 0x3D || c == 0x20 || c == 0x09 || c == 0x0A || c == 0x0C || c == 0x0D
}

pub open spec fn is_number_char(c: u8) -> bool {
    is_digit(c) || c == 0x2E
}

/// First position at or after `j`, before `limit`, that `pred` rejects.
pub open spec fn skip_while(s: Seq<u8>, j: int, limit: int, number: bool) -> int
    decreases limit - j,
{
    if j < limit && j < s.len() && (if number { is_number_char(s[j]) } else { is_separator(s[j]) }) {
        skip_while(s, j + 1, limit, number)
    } else {
        j
    }
}

/// How many `.` a byte string holds.
pub open spec fn count_dots(s: Seq<u8>) -> nat
    decreases s.len(),
{
    if s.len() == 0 {
        0
    } else {
        count_dots(s.drop_last()) + if s.last() == 0x2E { 1nat } else { 0nat }
    }
}

/// A run of digits and dots that `str::parse::<f64>` accepts: at least one
/// digit and at most one dot.
pub open spec fn float_run_ok(s: Seq<u8>) -> bool {
    count_dots(s) <= 1 && count_dots(s) < s.len()
}

/// The number after the first `duration` (any case), from position `i`,
/// that parses: its span.
pub open spec fn spec_log_duration_from(text: Seq<u8>, i: int, limit: int) -> Option<(int, int)>
    decreases limit - i,
{
    if i < 0 || i >= limit {
        None
    } else {
        let found = i + 8 <= limit && eq_ignore_ascii_case(text.subrange(i, i + 8), duration_word());
        let a = skip_while(text, i + 8, limit, false);
        let b = skip_while(text, a, limit, true);
        if found && b > a && float_run_ok(text.subrange(a, b)) {
            Some((a, b))
        } else {
            spec_log_duration_from(text, i + 1, limit)
        }
    }
}

/// Span of the duration number in a log's text, searching its first 64 KiB.
pub open spec fn spec_log_duration(text: Seq<u8>) -> Option<(int, int)> {
    spec_log_duration_from(
        text,
        0,
        if text.len() < LOG_SCAN_LIMIT {
            text.len() as int
        } else {
            LOG_SCAN_LIMIT as int
        },
    )
}

fn skip_while_exec(s: &[u8], j: usize, limit: usize, number: bool) -> (r: usize)
    requires
        j <= limit <= s.len(),
    ensures
        r == skip_while(s@, j as int, limit as int, number),
        j <= r <= limit,
{
    let mut k = j;
    while k < limit
        invariant_except_break
            j <= k <= limit,
            limit <= s.len(),
            skip_while(s@, j as int, limit as int, number) == skip_while(s@, k as int, limit as int, number),
        ensures
            j <= k <= limit,
            skip_while(s@, j as int, limit as int, number) == k,
        decreases limit - k,
    {
        let c = s[k];
        let ok = if number {
            (0x30 <= c && c <= 0x39) || c == 0x2E
        } else {
            c == 0x3A || c == 0x3D || c == 0x20 || c == 0x09 || c == 0x0A || c == 0x0C || c == 0x0D
        };
        if !ok {
            break;
        }
        k = k + 1;
    }
    k
}

fn float_run_ok_exec(s: &[u8], a: usize, b: usize) -> (r: bool)
    requires
        a <= b <= s.len(),
    ensures
        r == float_run_ok(s@.subrange(a as int, b as int)),
{
    let mut dots: usize = 0;
    let mut k = a;
    while k < b
        invariant
            a <= k <= b,
            b <= s.len(),
            dots == count_dots(s@.subrange(a as int, k as int)),
            dots <= k - a,
        decreases b - k,
    {
        assert(s@.subrange(a as int, k + 1).drop_last() =~= s@.subrange(a as int, k as int));
        if s[k] == 0x2E {
            dots = dots + 1;
        }
        k = k + 1;
    }
    dots <= 1 && dots < b - a
}

/// Finds the duration in a log's text (see [`spec_log_duration`]): the
/// span of the number, which `str::parse::<f64>` accepts.
pub fn log_duration_span(text: &[u8]) -> (r: Option<(usize, usize)>)
    ensures
        match spec_log_duration(text@) {
            Some((a, b)) => r == Some((a as usize, b as usize)),
            None => r is None,
        },
{
    let limit = if text.len() < LOG_SCAN_LIMIT {
        text.len()
    } else {
        LOG_SCAN_LIMIT
    };
    let word: [u8; 8] = [0x64, 0x75, 0x72, 0x61, 0x74, 0x69, 0x6F, 0x6E];
    assert(word@ =~= duration_word());
    let mut i: usize = 0;
    while i < limit
        invariant
            i <= limit,
            limit <= text.len(),
            limit == (if text.len() < LOG_SCAN_LIMIT { text.len() } else { LOG_SCAN_LIMIT }),
            word@ == duration_word(),
            spec_log_duration(text@) == spec_log_duration_from(text@, i as int, limit as int),
        decreases limit - i,
    {
        let found = limit - i >= 8 && matches_ignore_case_at(text, i, &word);
        let a = if limit - i >= 8 {
            skip_while_exec(text, i + 8, limit, false)
        } else {
            limit
        };
        let b = skip_while_exec(text, a, limit, true);
        if found && b > a && float_run_ok_exec(text, a, b) {
            return Some((a, b));
        }
        proof {
            if !(i + 8 <= limit) {
                assert(!found);
            }
        }
        i = i + 1;
    }
    None
}

/// A file named `<stem>.<ext>` is a companion of a capture with base `base`
/// when its extension is `want_ext` (any case) and its stem starts with the
/// base.
pub fn companion_matches(stem: &[u8], ext: &[u8], base: &[u8], want_ext: &[u8]) -> (r: bool)
    ensures
        r == (eq_ignore_ascii_case(ext@, want_ext@) && base@.len() <= stem@.len() && stem@.take(
            base@.len() as int,
        ) == base@),
{
    if ext.len() != want_ext.len() || !matches_ignore_case_at(ext, 0, want_ext) {
        proof {
            if ext@.len() == want_ext@.len() {
                assert(ext@.subrange(0, want_ext@.len() as int) =~= ext@);
            }
        }
        return false;
    }
    assert(ext@.subrange(0, want_ext@.len() as int) =~= ext@);
    if base.len() > stem.len() {
        return false;
    }
    let mut i: usize = 0;
    while i < base.len()
        invariant
            i <= base.len() <= stem.len(),
            forall|j: int| 0 <= j < i ==> stem@[j] == base@[j],
        decreases base.len() - i,
    {
        if stem[i] != base[i] {
            assert(stem@.take(base@.len() as int)[i as int] == stem@[i as int]);
            return false;
        }
        i = i + 1;
    }
    assert(stem@.take(base@.len() as int) =~= base@);
    true
}

/// `RIFF`.
pub open spec fn riff_word() -> Seq<u8> {
    seq![0x52u8, 0x49u8, 0x46u8, 0x46u8]
}

/// `WAVE`.
pub open spec fn wave_word() -> Seq<u8> {
    seq![0x57u8, 0x41u8, 0x56u8, 0x45u8]
}

/// `fmt `.
pub open spec fn fmt_word() -> Seq<u8> {
    seq![0x66u8, 0x6Du8, 0x74u8, 0x20u8]
}

/// `data`.
pub open spec fn data_word() -> Seq<u8> {
    seq![0x64u8, 0x61u8, 0x74u8, 0x61u8]
}

/// The 12-byte file header of a plain RIFF WAVE file: `RIFF`, a size, `WAVE`.
pub open spec fn spec_is_riff_wave(h: Seq<u8>) -> bool {
    h.len() >= 12 && h.subrange(0, 4) == riff_word() && h.subrange(8, 12) == wave_word()
}

fn word_at(h: &[u8], at: usize, a: u8, b: u8, c: u8, d: u8) -> (r: bool)
    requires
        at + 4 <= h.len(),
    ensures
        r == (h@.subrange(at as int, at + 4) == seq![a, b, c, d]),
{
    let r = h[at] == a && h[at + 1] == b && h[at + 2] == c && h[at + 3] == d;
    proof {
        let w = h@.subrange(at as int, at + 4);
        if r {
            assert(w =~= seq![a, b, c, d]);
        } else if w == seq![a, b, c, d] {
            assert(w[0] == a && w[1] == b && w[2] == c && w[3] == d);
        }
    }
    r
}

/// Whether `h` starts with the header of a plain RIFF WAVE file (RF64 and
/// other forms are not taken).
pub fn is_riff_wave(h: &[u8]) -> (r: bool)
    ensures
        r == spec_is_riff_wave(h@),
{
    h.len() >= 12 && word_at(h, 0, 0x52, 0x49, 0x46, 0x46) && word_at(h, 8, 0x57, 0x41, 0x56, 0x45)
}

/// What a chunk header of a WAV file asks the reader to do next.
#[derive(Clone, Copy, Debug, PartialEq, Eq, Structural)]
pub enum WavChunk {
    /// A `fmt ` chunk: read its first 16 bytes, then skip `extra` bytes (the
    /// rest of the body and the pad byte of an odd size).
    Fmt { extra: u64 },
    /// The `data` chunk, with its size in bytes.
    Data { size: u32 },
    /// Any other chunk: skip its body and pad byte.
    Other { skip: u64 },
    /// A `fmt ` chunk shorter than 16 bytes, or a `data` chunk whose size
    /// was never written (0 or `0xFFFF_FFFF`): the file gives no duration.
    Reject,
}

/// The meaning of an 8-byte chunk header (its id, then its size as a
/// little-endian `u32`).
pub open spec fn spec_wav_chunk(hdr: Seq<u8>) -> WavChunk {
    let id = hdr.subrange(0, 4);
    let sz = crate::comment::le32(hdr, 4);
    if id == fmt_word() {
        if sz < 16 {
            WavChunk::Reject
        } else {
            WavChunk::Fmt { extra: ((sz - 16) + sz % 2) as u64 }
        }
    } else if id == data_word() {
        if sz == 0 || sz == 0xFFFF_FFFF {
            WavChunk::Reject
        } else {
            WavChunk::Data { size: sz as u32 }
        }
    } else {
        WavChunk::Other { skip: (sz + sz % 2) as u64 }
    }
}

fn le32_at(h: &[u8], at: usize) -> (r: u32)
    requires
        at + 4 <= h.len(),
    ensures
        r == crate::comment::le32(h@, at as int),
{
    h[at] as u32 + h[at + 1] as u32 * 256 + h[at + 2] as u32 * 65536 + h[at + 3] as u32 * 16777216
}

fn le16_at(h: &[u8], at: usize) -> (r: u16)
    requires
        at + 2 <= h.len(),
    ensures
        r == h@[at as int] + h@[at + 1] * 256,
{
    h[at] as u16 + h[at + 1] as u16 * 256
}

/// Classifies a chunk header (see [`spec_wav_chunk`]).
pub fn classify_wav_chunk(hdr: &[u8]) -> (r: WavChunk)
    requires
        hdr.len() >= 8,
    ensures
        r == spec_wav_chunk(hdr@),
{
    let sz = le32_at(hdr, 4);
    if word_at(hdr, 0, 0x66, 0x6D, 0x74, 0x20) {
        if sz < 16 {
            WavChunk::Reject
        } else {
            WavChunk::Fmt { extra: (sz as u64 - 16) + (sz % 2) as u64 }
        }
    } else if word_at(hdr, 0, 0x64, 0x61, 0x74, 0x61) {
        if sz == 0 || sz == 0xFFFF_FFFF {
            WavChunk::Reject
        } else {
            WavChunk::Data { size: sz }
        }
    } else {
        WavChunk::Other { skip: sz as u64 + (sz % 2) as u64 }
    }
}

/// The fields of a PCM `fmt ` chunk that fix the duration.
#[derive(Clone, Copy, Debug, PartialEq, Eq, Structural)]
pub struct WavFormat {
    pub channels: u16,
    pub sample_rate: u32,
    pub bits_per_sample: u16,
}

/// Reads the channel count (bytes 2..4), the sample rate (4..8) and the
/// bits per sample (14..16) of a `fmt ` body, all little-endian.
pub fn read_wav_format(body: &[u8]) -> (r: WavFormat)
    requires
        body.len() >= 16,
    ensures
        r.channels == body@[2] + body@[3] * 256,
        r.sample_rate == crate::comment::le32(body@, 4),
        r.bits_per_sample == body@[14] + body@[15] * 256,
{
    WavFormat {
        channels: le16_at(body, 2),
        sample_rate: le32_at(body, 4),
        bits_per_sample: le16_at(body, 14),
    }
}

/// The inputs of a WAV duration (format and data size) when the walk found
/// both and none of rate, channels and sample size is zero.
pub fn wav_duration_inputs(format: Option<WavFormat>, data_size: Option<u32>) -> (r: Option<(WavFormat, u32)>)
    ensures
        r == (match (format, data_size) {
            (Some(f), Some(d)) => if f.sample_rate > 0 && f.channels > 0 && f.bits_per_sample > 0 {
                Some((f, d))
            } else {
                None
            },
            _ => None,
        }),
{
    match (format, data_size) {
        (Some(f), Some(d)) => {
            if f.sample_rate > 0 && f.channels > 0 && f.bits_per_sample > 0 {
                Some((f, d))
            } else {
                None
            }
        },
        _ => None,
    }
}

/// Most chunks walked before the `data` chunk.
pub const MAX_WAV_CHUNKS: u32 = 256;

/// The `fmt ` fields at `p` (the start of a `fmt ` body).
pub open spec fn format_at(data: Seq<u8>, p: int) -> WavFormat {
    WavFormat {
        channels: (data[p + 2] + data[p + 3] * 256) as u16,
        sample_rate: crate::comment::le32(data, p + 4) as u32,
        bits_per_sample: (data[p + 14] + data[p + 15] * 256) as u16,
    }
}

/// The chunk walk of a WAV file whose bytes (or first bytes) are `data`,
/// from the chunk header at `pos`, after `count` chunks, with the format
/// found so far: the format and the `data` size found, or `None` when a
/// chunk rejects the file; and whether the walk ran past the end of
/// `data` (a chunk header or a `fmt ` body was cut short). A file whose
/// bytes end there gives the result as it stands.
pub open spec fn spec_wav_walk(data: Seq<u8>, pos: int, count: nat, fmt: Option<WavFormat>) -> (
    Option<(Option<WavFormat>, Option<u32>)>,
    bool,
)
    decreases MAX_WAV_CHUNKS - count,
{
    if count >= MAX_WAV_CHUNKS {
        (Some((fmt, None)), false)
    } else if pos < 0 || pos + 8 > data.len() {
        (Some((fmt, None)), true)
    } else {
        match spec_wav_chunk(data.subrange(pos, pos + 8)) {
            WavChunk::Fmt { extra } => if pos + 24 > data.len() {
                (None, true)
            } else {
                spec_wav_walk(data, pos + 24 + extra, count + 1, Some(format_at(data, pos + 8)))
            },
            WavChunk::Data { size } => (Some((fmt, Some(size))), false),
            WavChunk::Other { skip } => spec_wav_walk(data, pos + 8 + skip, count + 1, fmt),
            WavChunk::Reject => (None, false),
        }
    }
}

/// The header of a WAV file from its bytes: `None` unless it is a plain
/// RIFF WAVE file, else the chunk walk from offset 12; the flag tells that
/// the bytes ran out.
pub open spec fn spec_wav_header(data: Seq<u8>) -> (Option<(Option<WavFormat>, Option<u32>)>, bool) {
    if data.len() < 12 {
        (None, true)
    } else if !spec_is_riff_wave(data) {
        (None, false)
    } else {
        spec_wav_walk(data, 12, 0, None)
    }
}

/// Walks the chunks of a WAV file held in memory (see [`spec_wav_header`]).
pub fn wav_header(data: &[u8]) -> (r: (Option<(Option<WavFormat>, Option<u32>)>, bool))
    requires
        data@.len() <= isize::MAX,
    ensures
        r == spec_wav_header(data@),
{
    if data.len() < 12 {
        return (None, true);
    }
    if !is_riff_wave(data) {
        return (None, false);
    }
    let mut pos: u64 = 12;
    let mut count: u32 = 0;
    let mut fmt: Option<WavFormat> = None;
    while count < MAX_WAV_CHUNKS
        invariant
            data@.len() <= isize::MAX,
            count <= MAX_WAV_CHUNKS,
            pos <= data@.len() + 0x1_0000_0020,
            spec_wav_header(data@) == spec_wav_walk(data@, pos as int, count as nat, fmt),
        decreases MAX_WAV_CHUNKS - count,
    {
        if pos > data.len() as u64 || data.len() as u64 - pos < 8 {
            return (Some((fmt, None)), true);
        }
        let p = pos as usize;
        let hdr = vstd::slice::slice_subrange(data, p, p + 8);
        match classify_wav_chunk(hdr) {
            WavChunk::Fmt { extra } => {
                if data.len() - p < 24 {
                    return (None, true);
                }
                let body = vstd::slice::slice_subrange(data, p + 8, p + 24);
                let f = read_wav_format(body);
                assert(f == format_at(data@, p + 8));
                fmt = Some(f);
                pos = pos + 24 + extra;
            },
            WavChunk::Data { size } => {
                return (Some((fmt, Some(size))), false);
            },
            WavChunk::Other { skip } => {
                pos = pos + 8 + skip;
            },
            WavChunk::Reject => {
                return (None, false);
            },
        }
        count = count + 1;
    }
    (Some((fmt, None)), false)
}

/// The walk follows the RIFF chunk sequence: a chunk whose header at `pos`
/// has id `i` and size `sz` (little-endian) is followed by the next chunk
/// header at `pos + 8 + sz + sz % 2` (its body and the pad byte of an odd
/// size). A `fmt ` chunk of at least 16 bytes gives its format (channels,
/// sample rate and bits per sample at body offsets 2, 4 and 14, little-endian)
/// and the walk goes on from there; a `data` chunk of a written size ends the walk with
/// that size; any other chunk is skipped.
pub proof fn lemma_wav_walk_follows_chunks(data: Seq<u8>, pos: int, count: nat, fmt: Option<WavFormat>)
    requires
        0 <= pos,
        pos + 8 <= data.len(),
        count < MAX_WAV_CHUNKS,
    ensures
        ({
            let id = data.subrange(pos, pos + 4);
            let sz = crate::comment::le32(data, pos + 4);
            let next = pos + 8 + sz + sz % 2;
            &&& id == seq![0x66u8, 0x6Du8, 0x74u8, 0x20u8] && sz >= 16 && pos + 24 <= data.len() ==> spec_wav_walk(
                data,
                pos,
                count,
                fmt,
            ) == spec_wav_walk(
                data,
                next,
                count + 1,
                Some(
                    WavFormat {
                        channels: (data[pos + 10] + data[pos + 11] * 256) as u16,
                        sample_rate: (data[pos + 12] + data[pos + 13] * 256 + data[pos + 14] * 65536 + data[pos
                            + 15] * 16777216) as u32,
                        bits_per_sample: (data[pos + 22] + data[pos + 23] * 256) as u16,
                    },
                ),
            )
            &&& id == seq![0x64u8, 0x61u8, 0x74u8, 0x61u8] && sz != 0 && sz != 0xFFFF_FFFF ==> spec_wav_walk(
                data,
                pos,
                count,
                fmt,
            ) == (Some((fmt, Some(sz as u32))), false)
            &&& id != seq![0x66u8, 0x6Du8, 0x74u8, 0x20u8] && id != seq![0x64u8, 0x61u8, 0x74u8, 0x61u8]
                ==> spec_wav_walk(data, pos, count, fmt) == spec_wav_walk(data, next, count + 1, fmt)
        }),
{
    let hdr = data.subrange(pos, pos + 8);
    assert(hdr.subrange(0, 4) =~= data.subrange(pos, pos + 4));
    assert(crate::comment::le32(hdr, 4) == crate::comment::le32(data, pos + 4));
    assert(fmt_word() =~= seq![0x66u8, 0x6Du8, 0x74u8, 0x20u8]);
    assert(data_word() =~= seq![0x64u8, 0x61u8, 0x74u8, 0x61u8]);
}

} // verus!
