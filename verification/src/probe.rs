//! How many samples a FLAC capture really holds.
//!
//! The STREAMINFO `total_samples` field is 36 bits wide, so a capture longer
//! than 2^36 samples wraps modulo 2^36. The declared count is compared with
//! the audio payload the file actually carries; when the payload is larger
//! than the declared count could occupy, the field wrapped, and the true count
//! is `declared + k * 2^36` for the one `k` that the frame-size statistics
//! allow. Without those statistics the smallest `k` for which the samples
//! could hold the payload uncompressed is taken as an estimate.

use vstd::prelude::*;
use claxon::{FlacReader, FlacReaderOptions};
use crate::vorbis::{read_rf_tags, rf_tags_of, RfTags};

verus! {

/// The error type of the FLAC reader.
#[verifier::external_type_specification]
#[verifier::external_body]
pub struct ExFlacError(claxon::Error);

/// The STREAMINFO fields that the probe reads.
#[derive(Clone, Copy, Debug, PartialEq, Eq, Structural)]
pub struct StreamInfo {
    pub min_block_size: u16,
    pub max_block_size: u16,
    /// Smallest frame in bytes; `None` when the encoder left it unknown.
    pub min_frame_size: Option<u32>,
    /// Largest frame in bytes; `None` when the encoder left it unknown.
    pub max_frame_size: Option<u32>,
    pub sample_rate: u32,
    pub channels: u32,
    pub bits_per_sample: u32,
    /// Declared total samples per channel; `None` when the field is 0.
    pub samples: Option<u64>,
}

impl StreamInfo {
    /// The ranges that a STREAMINFO block accepted by the reader satisfies.
    pub open spec fn wf(&self) -> bool {
        &&& 16 <= self.min_block_size <= self.max_block_size
        &&& (self.min_frame_size matches Some(f) ==> 0 < f < 0x100_0000)
        &&& (self.max_frame_size matches Some(f) ==> 0 < f < 0x100_0000)
        &&& 0 < self.sample_rate <= 655350
        &&& 1 <= self.channels <= 8
        &&& 1 <= self.bits_per_sample <= 32
        &&& (self.samples matches Some(n) ==> 0 < n < FLAC_TOTAL_SAMPLES_FIELD_MOD)
    }
}

/// The STREAMINFO that the FLAC reader finds in `data`, or `None` when it
/// refuses the stream.
pub uninterp spec fn flac_stream_info(data: Seq<u8>) -> Option<StreamInfo>;

/// Opens `data` with `claxon::FlacReader::new_ext` (metadata only, Vorbis
/// comment skipped) and returns its `streaminfo()`. Trusted: the result is
/// the reader's verdict on these bytes, and an accepted STREAMINFO has the
/// ranges that claxon's `read_streaminfo_block` checks or that its bit
/// widths allow (see [`StreamInfo::wf`]).
#[verifier::external_body]
pub(crate) fn read_stream_info(data: &[u8]) -> (r: Result<StreamInfo, claxon::Error>)
    ensures
        r is Ok <==> flac_stream_info(data@) is Some,
        r matches Ok(si) ==> flac_stream_info(data@) == Some(si) && si.wf(),
{
    let opts = FlacReaderOptions { metadata_only: true, read_vorbis_comment: false };
    let si = FlacReader::new_ext(data, opts)?.streaminfo();
    Ok(StreamInfo {
        min_block_size: si.min_block_size,
        max_block_size: si.max_block_size,
        min_frame_size: si.min_frame_size,
        max_frame_size: si.max_frame_size,
        sample_rate: si.sample_rate,
        channels: si.channels,
        bits_per_sample: si.bits_per_sample,
        samples: si.samples,
    })
}

/// 2^36, the modulus of the STREAMINFO `total_samples` field.
pub const FLAC_TOTAL_SAMPLES_FIELD_MOD: u64 = 0x10_0000_0000;

/// Most wraps that the uncompressed-size estimate tries.
pub const MAX_ESTIMATED_WRAPS: u64 = 4096;

/// The frame-size statistics bound the bytes per block (`min_block > 0`
/// and a known, non-zero `max_frame`).
pub open spec fn frame_bound_known(min_block: u16, max_frame: Option<u32>) -> bool {
    min_block > 0 && max_frame is Some && max_frame->0 > 0
}

/// Upper bound on the audio bytes that `declared` samples can occupy.
pub open spec fn declared_max_bytes(
    declared: u64,
    min_block: u16,
    max_frame: Option<u32>,
    channels: u32,
    bps: u32,
) -> int {
    if frame_bound_known(min_block, max_frame) {
        (declared as int / min_block as int + 1) * max_frame->0
    } else {
        declared * channels * (bps / 8) * 105 / 100 + 65536
    }
}

/// All four frame statistics are known and non-zero.
pub open spec fn all_frame_stats_known(
    min_block: u16,
    max_block: u16,
    min_frame: Option<u32>,
    max_frame: Option<u32>,
) -> bool {
    &&& min_block > 0
    &&& max_block > 0
    &&& min_frame is Some && min_frame->0 > 0
    &&& max_frame is Some && max_frame->0 > 0
}

/// `k` wraps give a true count inside `[lower, upper]`.
pub open spec fn is_wrap_count(declared: u64, lower: int, upper: int, k: int) -> bool {
    k >= 1 && lower <= declared + k * FLAC_TOTAL_SAMPLES_FIELD_MOD <= upper
}

/// `k` is the only wrap count inside `[lower, upper]`.
pub open spec fn is_only_wrap_count(declared: u64, lower: int, upper: int, k: int) -> bool {
    is_wrap_count(declared, lower, upper, k) && forall|j: int|
        #[trigger] is_wrap_count(declared, lower, upper, j) ==> j == k
}

/// The one wrap count inside `[lower, upper]`, if exactly one exists.
pub open spec fn unique_wrap_count(declared: u64, lower: int, upper: int) -> Option<int> {
    if exists|k: int| #[trigger] is_only_wrap_count(declared, lower, upper, k) {
        Some(choose|k: int| #[trigger] is_only_wrap_count(declared, lower, upper, k))
    } else {
        None
    }
}

/// Fewest and most samples that `audio_bytes` of frames can hold, by the
/// frame-size statistics.
pub open spec fn recovery_lower(audio_bytes: u64, min_block: u16, max_frame: u32) -> int {
    audio_bytes as int / max_frame as int * min_block
}

pub open spec fn recovery_upper(audio_bytes: u64, max_block: u16, min_frame: u32) -> int {
    audio_bytes as int / min_frame as int * max_block
}

/// The verdict on a declared total: whether it can be trusted, and the
/// recovered true count (as an unbounded integer) when a wrap was detected
/// and exactly one wrap count fits.
pub open spec fn spec_check_total(
    declared: u64,
    audio_bytes: u64,
    min_block: u16,
    max_block: u16,
    min_frame: Option<u32>,
    max_frame: Option<u32>,
    channels: u32,
    bps: u32,
) -> (bool, Option<int>) {
    if audio_bytes == 0 {
        (true, None)
    } else if declared == 0 {
        (false, None)
    } else if audio_bytes <= declared_max_bytes(declared, min_block, max_frame, channels, bps) {
        (true, None)
    } else if all_frame_stats_known(min_block, max_block, min_frame, max_frame) {
        let lower = recovery_lower(audio_bytes, min_block, max_frame->0);
        let upper = recovery_upper(audio_bytes, max_block, min_frame->0);
        match unique_wrap_count(declared, lower, upper) {
            Some(k) => (false, Some(declared + k * FLAC_TOTAL_SAMPLES_FIELD_MOD)),
            None => (false, None),
        }
    } else {
        (false, None)
    }
}

/// The size bound of the fallback branch fits in 128 bits.
pub open spec fn check_total_fits(
    declared: u64,
    audio_bytes: u64,
    min_block: u16,
    max_frame: Option<u32>,
    channels: u32,
    bps: u32,
) -> bool {
    audio_bytes != 0 && declared != 0 && !frame_bound_known(min_block, max_frame)
        ==> declared * channels * (bps / 8) * 105 < 0x1_0000_0000_0000_0000_0000_0000_0000_0000
}

proof fn lemma_wrap_interval(declared: u64, lower: int, upper: int, klo: int, khi: int)
    requires
        klo >= 1,
        lower <= declared + klo * FLAC_TOTAL_SAMPLES_FIELD_MOD,
        klo == 1 || declared + (klo - 1) * FLAC_TOTAL_SAMPLES_FIELD_MOD < lower,
        declared + khi * FLAC_TOTAL_SAMPLES_FIELD_MOD <= upper,
        upper < declared + (khi + 1) * FLAC_TOTAL_SAMPLES_FIELD_MOD,
    ensures
        forall|k: int| is_wrap_count(declared, lower, upper, k) <==> klo <= k <= khi,
{
    assert forall|k: int| is_wrap_count(declared, lower, upper, k) implies klo <= k <= khi by {
        if k < klo {
            assert(declared + k * FLAC_TOTAL_SAMPLES_FIELD_MOD <= declared + (klo - 1)
                * FLAC_TOTAL_SAMPLES_FIELD_MOD);
        }
        if k > khi {
            assert(declared + k * FLAC_TOTAL_SAMPLES_FIELD_MOD >= declared + (khi + 1)
                * FLAC_TOTAL_SAMPLES_FIELD_MOD);
        }
    }
    assert forall|k: int| klo <= k <= khi implies is_wrap_count(declared, lower, upper, k) by {
        assert(declared + k * FLAC_TOTAL_SAMPLES_FIELD_MOD >= declared + klo
            * FLAC_TOTAL_SAMPLES_FIELD_MOD);
        assert(declared + k * FLAC_TOTAL_SAMPLES_FIELD_MOD <= declared + khi
            * FLAC_TOTAL_SAMPLES_FIELD_MOD);
    }
}

proof fn lemma_unique_from_interval(declared: u64, lower: int, upper: int, klo: int, khi: int)
    requires
        forall|k: int| #[trigger] is_wrap_count(declared, lower, upper, k) <==> klo <= k <= khi,
    ensures
        unique_wrap_count(declared, lower, upper) == (if klo == khi {
            Some(klo)
        } else {
            None::<int>
        }),
{
    if klo == khi {
        assert forall|j: int| #[trigger] is_wrap_count(declared, lower, upper, j) implies j
            == klo by {}
        assert(is_only_wrap_count(declared, lower, upper, klo));
        let kk = choose|k: int| #[trigger] is_only_wrap_count(declared, lower, upper, k);
        assert(is_only_wrap_count(declared, lower, upper, kk));
        assert(is_wrap_count(declared, lower, upper, kk));
    } else {
        assert forall|k: int| !#[trigger] is_only_wrap_count(declared, lower, upper, k) by {
            if is_wrap_count(declared, lower, upper, k) {
                assert(is_wrap_count(declared, lower, upper, klo));
                assert(is_wrap_count(declared, lower, upper, khi));
            }
        }
    }
}

proof fn lemma_no_wrap(declared: u64, lower: int, upper: int)
    requires
        upper < declared + FLAC_TOTAL_SAMPLES_FIELD_MOD,
    ensures
        unique_wrap_count(declared, lower, upper) is None,
{
    assert forall|k: int| !is_wrap_count(declared, lower, upper, k) by {
        if k >= 1 {
            assert(declared + k * FLAC_TOTAL_SAMPLES_FIELD_MOD >= declared
                + FLAC_TOTAL_SAMPLES_FIELD_MOD);
        }
    }
}

/// Finds the wrap count that puts `declared` inside `[lower, upper]`, when
/// exactly one does; returns the recovered count, truncated to 64 bits.
fn unique_wrap(declared: u64, lower: u128, upper: u128) -> (r: Option<u64>)
    requires
        upper < 0x1_0000_0000_0000_0000_0000_0000,
        lower < 0x1_0000_0000_0000_0000_0000_0000,
    ensures
        match unique_wrap_count(declared, lower as int, upper as int) {
            Some(k) => r == Some((declared + k * FLAC_TOTAL_SAMPLES_FIELD_MOD) as u64),
            None => r is None,
        },
{
    let d: u128 = declared as u128;
    if upper < d + 0x10_0000_0000 {
        proof {
            lemma_no_wrap(declared, lower as int, upper as int);
        }
        return None;
    }
    let khi: u128 = (upper - d) / 0x10_0000_0000;
    let klo: u128 = if lower <= d + 0x10_0000_0000 {
        1
    } else {
        (lower - d + 0x10_0000_0000 - 1) / 0x10_0000_0000
    };
    proof {
        lemma_wrap_interval(declared, lower as int, upper as int, klo as int, khi as int);
        lemma_unique_from_interval(declared, lower as int, upper as int, klo as int, khi as int);
    }
    if klo == khi {
        let c: u128 = d + klo * 0x10_0000_0000;
        Some(c as u64)
    } else {
        None
    }
}

/// Decides whether the declared total can be trusted, and if it wrapped,
/// recovers the true count when the frame-size statistics leave exactly one
/// wrap count possible.
///
/// Returns `(trustworthy, corrected)`. `(false, None)` means the header
/// wrapped but the wrap count could not be pinned down.
pub fn check_total_samples(
    declared: u64,
    audio_bytes: u64,
    min_block: u16,
    max_block: u16,
    min_frame: Option<u32>,
    max_frame: Option<u32>,
    channels: u32,
    bps: u32,
) -> (r: (bool, Option<u64>))
    requires
        check_total_fits(declared, audio_bytes, min_block, max_frame, channels, bps),
    ensures
        ({
            let s = spec_check_total(
                declared,
                audio_bytes,
                min_block,
                max_block,
                min_frame,
                max_frame,
                channels,
                bps,
            );
            &&& r.0 == s.0
            &&& match s.1 {
                Some(c) => r.1 == Some(c as u64),
                None => r.1 is None,
            }
        }),
{
    if audio_bytes == 0 {
        return (true, None);
    }
    if declared == 0 {
        return (false, None);
    }
    let bound_known = min_block > 0 && match max_frame {
        Some(f) => f > 0,
        None => false,
    };
    let declared_max: u128 = if bound_known {
        let mf: u32 = match max_frame {
            Some(f) => f,
            None => 0,
        };
        let blocks: u128 = declared as u128 / min_block as u128 + 1;
        assert(blocks <= 0x1_0000_0000_0000_0000);
        assert(blocks * (mf as u128) <= 0x1_0000_0000_0000_0000 * 0x1_0000_0000) by (nonlinear_arith)
            requires
                blocks <= 0x1_0000_0000_0000_0000,
                mf <= 0xFFFF_FFFF,
        ;
        blocks * mf as u128
    } else {
        let a: u128 = declared as u128;
        let b: u128 = channels as u128;
        let c: u128 = bps as u128 / 8;
        assert(a * b * c * 105 < 0x1_0000_0000_0000_0000_0000_0000_0000_0000);
        assert(a * b <= a * b * c * 105 || c == 0) by (nonlinear_arith)
            requires
                c >= 0,
                a >= 0,
                b >= 0,
        ;
        assert(a * b * c <= a * b * c * 105) by (nonlinear_arith)
            requires
                a * b * c >= 0,
        ;
        assert(a * b < 0x1_0000_0000_0000_0000_0000_0000_0000_0000) by (nonlinear_arith)
            requires
                a <= 0xFFFF_FFFF_FFFF_FFFF,
                b <= 0xFFFF_FFFF,
        ;
        assert(a * b >= 0) by (nonlinear_arith)
            requires
                a >= 0,
                b >= 0,
        ;
        let p: u128 = a * b * c * 105;
        p / 100 + 65536
    };
    assert(declared_max == declared_max_bytes(declared, min_block, max_frame, channels, bps));
    if (audio_bytes as u128) <= declared_max {
        return (true, None);
    }
    match (min_frame, max_frame) {
        (Some(minf), Some(maxf)) => {
            if min_block > 0 && max_block > 0 && minf > 0 && maxf > 0 {
                let ql: u128 = audio_bytes as u128 / maxf as u128;
                assert(ql <= 0xFFFF_FFFF_FFFF_FFFF);
                assert(ql * (min_block as u128) < 0x1_0000_0000_0000_0000_0000_0000)
                    by (nonlinear_arith)
                    requires
                        ql <= 0xFFFF_FFFF_FFFF_FFFF,
                        min_block <= 0xFFFF,
                ;
                let lower: u128 = ql * min_block as u128;
                let q: u128 = audio_bytes as u128 / minf as u128;
                assert(q <= 0xFFFF_FFFF_FFFF_FFFF);
                assert(q * (max_block as u128) < 0x1_0000_0000_0000_0000_0000_0000)
                    by (nonlinear_arith)
                    requires
                        q <= 0xFFFF_FFFF_FFFF_FFFF,
                        max_block <= 0xFFFF,
                ;
                let upper: u128 = q * max_block as u128;
                assert(lower as int == recovery_lower(audio_bytes, min_block, maxf));
                assert(upper as int == recovery_upper(audio_bytes, max_block, minf));
                let c = unique_wrap(declared, lower, upper);
                return (false, c);
            }
            (false, None)
        },
        _ => (false, None),
    }
}

/// The count that `k` wraps of the 36-bit field add up to.
pub open spec fn wrapped_count(declared: u64, k: int) -> int {
    declared + k * FLAC_TOTAL_SAMPLES_FIELD_MOD
}

/// Why a FLAC file could not be probed.
#[derive(Debug)]
pub enum ProbeError {
    /// The bytes do not start with the `fLaC` marker.
    NotFlac,
    /// The file ends inside a metadata block header.
    Truncated,
    /// The FLAC reader refused the stream.
    Invalid(claxon::Error),
}

/// The offset just past the last metadata block, walking only the block
/// headers from `pos`: the last block may run past the end of the bytes
/// (its body is not read), but every header must be there.
pub open spec fn spec_header_walk(data: Seq<u8>, pos: int) -> Option<int>
    decreases data.len() - pos,
{
    if pos < 0 || pos + 4 > data.len() {
        None
    } else {
        let end = pos + 4 + crate::chain::be24(data[pos + 1], data[pos + 2], data[pos + 3]);
        if data[pos] >= 128 {
            Some(end)
        } else if end <= data.len() {
            spec_header_walk(data, end)
        } else {
            None
        }
    }
}

/// Where the first audio frame starts: past the `fLaC` marker and every
/// metadata block.
pub open spec fn spec_audio_offset(data: Seq<u8>) -> Result<int, ProbeError> {
    if data.len() < 4 {
        Err(ProbeError::Truncated)
    } else if data.take(4) != crate::chain::flac_marker() {
        Err(ProbeError::NotFlac)
    } else {
        match spec_header_walk(data, 4) {
            Some(e) => Ok(e),
            None => Err(ProbeError::Truncated),
        }
    }
}

proof fn lemma_walk_follows_chain(data: Seq<u8>, pos: int)
    requires
        crate::chain::spec_blocks_from(data, pos) is Some,
    ensures
        spec_header_walk(data, pos) == Some((crate::chain::spec_blocks_from(data, pos)->0).1),
    decreases data.len() - pos,
{
    let end = pos + 4 + crate::chain::be24(data[pos + 1], data[pos + 2], data[pos + 3]);
    if data[pos] < 128 {
        lemma_walk_follows_chain(data, end);
    }
}

/// The probe and the tag rewriter agree on where the frames start: when the
/// metadata chain of `data` reads, the audio offset is its end.
pub proof fn lemma_audio_offset_is_chain_end(data: Seq<u8>)
    requires
        crate::chain::spec_metadata_chain(data) is Ok,
    ensures
        spec_audio_offset(data) matches Ok(o) && o == crate::chain::spec_metadata_chain(data)->Ok_0.1,
{
    lemma_walk_follows_chain(data, 4);
}

/// Finds where the audio frames start by walking the metadata block
/// headers (see [`spec_audio_offset`]); the block bodies are not read.
pub fn find_audio_offset(data: &[u8]) -> (r: Result<u64, ProbeError>)
    requires
        data@.len() <= isize::MAX,
    ensures
        match spec_audio_offset(data@) {
            Ok(e) => r matches Ok(o) && o == e,
            Err(ProbeError::NotFlac) => r matches Err(ProbeError::NotFlac),
            Err(_) => r matches Err(ProbeError::Truncated),
        },
{
    if data.len() < 4 {
        return Err(ProbeError::Truncated);
    }
    if !(data[0] == 0x66 && data[1] == 0x4C && data[2] == 0x61 && data[3] == 0x43) {
        assert(data@.take(4) != crate::chain::flac_marker()) by {
            if data@.take(4) == crate::chain::flac_marker() {
                assert(data@.take(4)[0] == data@[0]);
                assert(data@.take(4)[1] == data@[1]);
                assert(data@.take(4)[2] == data@[2]);
                assert(data@.take(4)[3] == data@[3]);
            }
        }
        return Err(ProbeError::NotFlac);
    }
    assert(data@.take(4) =~= crate::chain::flac_marker());
    let mut pos: u64 = 4;
    loop
        invariant
            4 <= pos <= data.len(),
            data@.len() <= isize::MAX,
            data@.take(4) == crate::chain::flac_marker(),
            spec_header_walk(data@, 4) == spec_header_walk(data@, pos as int),
        decreases data.len() - pos,
    {
        let p = pos as usize;
        if data.len() - p < 4 {
            return Err(ProbeError::Truncated);
        }
        let len: u64 = data[p + 1] as u64 * 65536 + data[p + 2] as u64 * 256 + data[p + 3] as u64;
        let end: u64 = pos + 4 + len;
        if data[p] >= 128 {
            return Ok(end);
        }
        if end > data.len() as u64 {
            return Err(ProbeError::Truncated);
        }
        pos = end;
    }
}

/// Reads the STREAMINFO of a FLAC stream (`data` holds its first bytes, at
/// least all of its metadata) with the FLAC reader.
pub fn probe_stream_info(data: &[u8]) -> (r: Result<StreamInfo, ProbeError>)
    ensures
        match flac_stream_info(data@) {
            Some(si) => r matches Ok(s) && s == si && s.wf(),
            None => r matches Err(ProbeError::Invalid(_)),
        },
{
    match read_stream_info(data) {
        Ok(si) => Ok(si),
        Err(e) => Err(ProbeError::Invalid(e)),
    }
}

/// `ceil(a / b)`.
pub open spec fn ceil_div(a: int, b: int) -> int {
    (a + b - 1) / b
}

/// The wrap count that the uncompressed-size estimate picks: the smallest
/// `k` in `1..=4096` for which `declared + k * 2^36` samples of
/// `bytes_per_sample` bytes hold at least `audio_bytes` bytes.
pub open spec fn is_estimated_wraps(declared: u64, audio_bytes: u64, bytes_per_sample: int, k: int) -> bool {
    let lower = ceil_div(audio_bytes as int, bytes_per_sample);
    &&& 1 <= k <= MAX_ESTIMATED_WRAPS
    &&& declared + k * FLAC_TOTAL_SAMPLES_FIELD_MOD >= lower
    &&& forall|j: int| 1 <= j < k ==> #[trigger] wrapped_count(declared, j) < lower
}

/// Estimates the wrap count from the uncompressed-size lower bound: FLAC
/// never expands audio, so the true count holds at least the payload.
/// Returns `(true_count, k)`, or `None` when no `k <= 4096` suffices or the
/// sample size is 0 bytes.
pub fn estimate_wrapped_total(declared: u64, audio_bytes: u64, bytes_per_sample: u64) -> (r: Option<(u64, u32)>)
    requires
        declared < FLAC_TOTAL_SAMPLES_FIELD_MOD,
        audio_bytes + bytes_per_sample <= u64::MAX,
    ensures
        match r {
            Some((total, k)) => bytes_per_sample > 0
                && is_estimated_wraps(declared, audio_bytes, bytes_per_sample as int, k as int)
                && total == declared + k * FLAC_TOTAL_SAMPLES_FIELD_MOD,
            None => bytes_per_sample == 0 || forall|k: int| 1 <= k <= MAX_ESTIMATED_WRAPS
                ==> #[trigger] wrapped_count(declared, k) < ceil_div(
                audio_bytes as int,
                bytes_per_sample as int,
            ),
        },
{
    if bytes_per_sample == 0 {
        return None;
    }
    let lower: u64 = (audio_bytes + bytes_per_sample - 1) / bytes_per_sample;
    let mut k: u64 = 1;
    while k <= MAX_ESTIMATED_WRAPS
        invariant
            1 <= k <= MAX_ESTIMATED_WRAPS + 1,
            declared < FLAC_TOTAL_SAMPLES_FIELD_MOD,
            bytes_per_sample > 0,
            lower == ceil_div(audio_bytes as int, bytes_per_sample as int),
            forall|j: int| 1 <= j < k ==> #[trigger] wrapped_count(declared, j) < lower,
        decreases MAX_ESTIMATED_WRAPS + 1 - k,
    {
        let cand: u64 = declared + k * FLAC_TOTAL_SAMPLES_FIELD_MOD;
        if cand >= lower {
            return Some((cand, k as u32));
        }
        k = k + 1;
    }
    None
}

/// What the metadata of a probed file gives: where its frames start, its
/// STREAMINFO and its RF tags.
pub struct ProbedHeader {
    pub audio_offset: u64,
    pub info: StreamInfo,
    pub tags: RfTags,
}

/// Reads the metadata of a FLAC file whose first bytes (at least all of its
/// metadata) are `data`: the block headers first, then the STREAMINFO and
/// the RF tags through the FLAC reader.
pub fn probe_header(data: &[u8]) -> (r: Result<ProbedHeader, ProbeError>)
    requires
        data@.len() <= isize::MAX,
    ensures
        match spec_audio_offset(data@) {
            Err(ProbeError::NotFlac) => r matches Err(ProbeError::NotFlac),
            Err(_) => r matches Err(ProbeError::Truncated),
            Ok(off) => match flac_stream_info(data@) {
                None => r matches Err(ProbeError::Invalid(_)),
                Some(si) => r matches Ok(h) && h.audio_offset == off && h.info == si && h.info.wf()
                    && rf_tags_of(data@, h.tags),
            },
        },
{
    let audio_offset = match find_audio_offset(data) {
        Ok(o) => o,
        Err(e) => {
            return Err(e);
        },
    };
    let info = match probe_stream_info(data) {
        Ok(si) => si,
        Err(e) => {
            return Err(e);
        },
    };
    let tags = read_rf_tags(data);
    Ok(ProbedHeader { audio_offset, info, tags })
}

/// Where the total sample count of a probed file comes from, and its value.
#[derive(Clone, Copy, Debug, PartialEq, Eq, Structural)]
pub struct TotalSamples {
    /// Total samples per channel after every correction.
    pub total: u64,
    pub known: bool,
    /// Number of 2^36 blocks added to the declared count.
    pub wraps: u32,
    /// The wrap count was estimated, not pinned down.
    pub estimated: bool,
    /// The count was summed from the frame headers.
    pub scanned: bool,
    /// The count came from a companion file.
    pub from_companion: bool,
    /// The count came from an `RF_TOTAL_SAMPLES` Vorbis comment.
    pub from_vorbis: bool,
}

/// The declared count, trusted as it stands.
pub open spec fn declared_as_is(si: StreamInfo) -> TotalSamples {
    TotalSamples {
        total: match si.samples {
            Some(n) => n,
            None => 0,
        },
        known: si.samples is Some,
        wraps: 0,
        estimated: false,
        scanned: false,
        from_companion: false,
        from_vorbis: false,
    }
}

pub open spec fn bytes_per_sample(si: StreamInfo) -> int {
    si.channels * (si.bits_per_sample / 8)
}

/// The audio payload in bytes, when the metadata ends inside the file.
pub open spec fn payload_known(file_size: u64, audio_offset: u64) -> bool {
    audio_offset > 0 && file_size > audio_offset
}

/// The verdict of the wrap check on a declared total.
pub open spec fn header_check(si: StreamInfo, file_size: u64, audio_offset: u64) -> (bool, Option<int>) {
    spec_check_total(
        match si.samples {
            Some(n) => n,
            None => 0,
        },
        (file_size - audio_offset) as u64,
        si.min_block_size,
        si.max_block_size,
        si.min_frame_size,
        si.max_frame_size,
        si.channels,
        si.bits_per_sample,
    )
}

/// The priority order of the sources of the total sample count:
/// a positive `RF_TOTAL_SAMPLES` tag; else a declared header count, with
/// wraps undone; else (header count absent) a companion file; else the frame
/// scan when it found samples.
pub open spec fn spec_resolve_total(
    si: StreamInfo,
    vorbis_total: Option<u64>,
    file_size: u64,
    audio_offset: u64,
    companion_total: Option<u64>,
    scanned_total: Option<u64>,
) -> TotalSamples {
    let base = declared_as_is(si);
    if vorbis_total matches Some(t) && t > 0 {
        TotalSamples { total: vorbis_total->0, known: true, from_vorbis: true, ..base }
    } else if si.samples is Some {
        if !payload_known(file_size, audio_offset) || header_check(si, file_size, audio_offset).0 {
            base
        } else {
            match header_check(si, file_size, audio_offset).1 {
                Some(c) => TotalSamples {
                    total: c as u64,
                    wraps: ((c - si.samples->0) / FLAC_TOTAL_SAMPLES_FIELD_MOD as int) as u32,
                    ..base
                },
                None => if bytes_per_sample(si) > 0 && exists|k: int|
                    #[trigger] is_estimated_wraps(si.samples->0, (file_size - audio_offset) as u64, bytes_per_sample(si), k) {
                    let k = choose|k: int|
                        #[trigger] is_estimated_wraps(si.samples->0, (file_size - audio_offset) as u64, bytes_per_sample(si), k);
                    TotalSamples {
                        total: (si.samples->0 + k * FLAC_TOTAL_SAMPLES_FIELD_MOD) as u64,
                        wraps: k as u32,
                        estimated: true,
                        ..base
                    }
                } else {
                    base
                },
            }
        }
    } else if companion_total is Some {
        TotalSamples { total: companion_total->0, known: true, from_companion: true, ..base }
    } else if payload_known(file_size, audio_offset) && (scanned_total matches Some(n) && n > 0) {
        TotalSamples { total: scanned_total->0, known: true, scanned: true, ..base }
    } else {
        base
    }
}

/// The arithmetic of the resolution stays inside 64 bits: a recovered wrap
/// count gives a true count below 2^64, and the payload plus one sample size
/// fits.
pub open spec fn resolve_total_fits(si: StreamInfo, vorbis_total: Option<u64>, file_size: u64, audio_offset: u64) -> bool {
    (!(vorbis_total matches Some(t) && t > 0) && si.samples is Some && payload_known(file_size, audio_offset))
        ==> {
        &&& header_check(si, file_size, audio_offset).1 matches Some(c) ==> c <= u64::MAX
        &&& file_size - audio_offset + bytes_per_sample(si) <= u64::MAX
    }
}

/// A companion file is consulted only when neither a tag nor the header
/// gives the count.
pub fn wants_companion(si: &StreamInfo, vorbis_total: Option<u64>) -> (r: bool)
    ensures
        r == (!(vorbis_total matches Some(t) && t > 0) && si.samples is None),
{
    let tagged = match vorbis_total {
        Some(t) => t > 0,
        None => false,
    };
    !tagged && si.samples.is_none()
}

/// The frames are scanned only when no tag, header count or companion gives
/// the count and the payload is known.
pub fn wants_frame_scan(
    si: &StreamInfo,
    vorbis_total: Option<u64>,
    companion_total: Option<u64>,
    file_size: u64,
    audio_offset: u64,
) -> (r: bool)
    ensures
        r == (!(vorbis_total matches Some(t) && t > 0) && si.samples is None
            && companion_total is None && payload_known(file_size, audio_offset)),
{
    wants_companion(si, vorbis_total) && companion_total.is_none() && audio_offset > 0
        && file_size > audio_offset
}

/// Resolves the total sample count of a probed file from its sources, in
/// priority order (see [`spec_resolve_total`]). `companion_total` is the
/// count a companion file gave (`None` when none did); `scanned_total` is
/// the sum of the frame block sizes (`None` when no scan was made).
pub fn resolve_total_samples(
    si: &StreamInfo,
    vorbis_total: Option<u64>,
    file_size: u64,
    audio_offset: u64,
    companion_total: Option<u64>,
    scanned_total: Option<u64>,
) -> (r: TotalSamples)
    requires
        si.wf(),
        resolve_total_fits(*si, vorbis_total, file_size, audio_offset),
    ensures
        r == spec_resolve_total(*si, vorbis_total, file_size, audio_offset, companion_total, scanned_total),
{
    let declared: u64 = match si.samples {
        Some(n) => n,
        None => 0,
    };
    let base = TotalSamples {
        total: declared,
        known: si.samples.is_some(),
        wraps: 0,
        estimated: false,
        scanned: false,
        from_companion: false,
        from_vorbis: false,
    };
    match vorbis_total {
        Some(t) => {
            if t > 0 {
                return TotalSamples { total: t, known: true, from_vorbis: true, ..base };
            }
        },
        None => {},
    }
    if si.samples.is_some() {
        if !(audio_offset > 0 && file_size > audio_offset) {
            return base;
        }
        let audio_bytes = file_size - audio_offset;
        assert(declared * si.channels * (si.bits_per_sample / 8) * 105 < 0x1_0000_0000_0000_0000_0000_0000)
            by (nonlinear_arith)
            requires
                declared < 0x10_0000_0000,
                si.channels <= 8,
                si.bits_per_sample / 8 <= 4,
        ;
        let (trust, corrected) = check_total_samples(
            declared,
            audio_bytes,
            si.min_block_size,
            si.max_block_size,
            si.min_frame_size,
            si.max_frame_size,
            si.channels,
            si.bits_per_sample,
        );
        if trust {
            return base;
        }
        match corrected {
            Some(c) => {
                let ghost cc = header_check(*si, file_size, audio_offset).1->0;
                assert(c == cc);
                assert(c >= declared);
                let wraps = ((c - declared) / FLAC_TOTAL_SAMPLES_FIELD_MOD) as u32;
                TotalSamples { total: c, wraps: wraps, ..base }
            },
            None => {
                let bps: u64 = si.channels as u64 * (si.bits_per_sample as u64 / 8);
                match estimate_wrapped_total(declared, audio_bytes, bps) {
                    Some((total, k)) => {
                        proof {
                            let ghost aud = (file_size - audio_offset) as u64;
                            assert(is_estimated_wraps(declared, aud, bytes_per_sample(*si), k as int));
                            let kk = choose|k: int|
                                #[trigger] is_estimated_wraps(declared, aud, bytes_per_sample(*si), k);
                            assert(is_estimated_wraps(declared, aud, bytes_per_sample(*si), kk));
                            if kk < k {
                                assert(wrapped_count(declared, kk) < ceil_div(aud as int, bps as int));
                            }
                            if k < kk {
                                assert(wrapped_count(declared, k as int) < ceil_div(aud as int, bps as int));
                            }
                            assert(kk == k);
                        }
                        TotalSamples { total: total, wraps: k, estimated: true, ..base }
                    },
                    None => {
                        proof {
                            let ghost aud = (file_size - audio_offset) as u64;
                            if bps > 0 {
                                assert forall|k: int| !#[trigger] is_estimated_wraps(declared, aud, bytes_per_sample(*si), k) by {
                                    if 1 <= k <= MAX_ESTIMATED_WRAPS {
                                        assert(wrapped_count(declared, k as int) < ceil_div(aud as int, bps as int));
                                    }
                                }
                            }
                        }
                        base
                    },
                }
            },
        }
    } else {
        match companion_total {
            Some(c) => TotalSamples { total: c, known: true, from_companion: true, ..base },
            None => {
                if audio_offset > 0 && file_size > audio_offset {
                    match scanned_total {
                        Some(n) => {
                            if n > 0 {
                                return TotalSamples { total: n, known: true, scanned: true, ..base };
                            }
                        },
                        None => {},
                    }
                }
                base
            },
        }
    }
}

/// A declared count that fits its payload is kept: when no positive tag
/// overrides it, the payload is known and its size is within the bytes the
/// declared count can occupy, the total is the declared count, with no wrap
/// added and nothing estimated.
pub proof fn lemma_trusted_count_kept(
    si: StreamInfo,
    vorbis_total: Option<u64>,
    file_size: u64,
    audio_offset: u64,
    companion_total: Option<u64>,
    scanned_total: Option<u64>,
)
    requires
        si.samples is Some,
        si.samples->0 > 0,
        vorbis_total is None || vorbis_total->0 == 0,
        audio_offset > 0,
        file_size > audio_offset,
        file_size - audio_offset <= declared_max_bytes(
            si.samples->0,
            si.min_block_size,
            si.max_frame_size,
            si.channels,
            si.bits_per_sample,
        ),
    ensures
        ({
            let r = spec_resolve_total(si, vorbis_total, file_size, audio_offset, companion_total, scanned_total);
            &&& r.total == si.samples->0
            &&& r.known
            &&& r.wraps == 0
            &&& !r.estimated
            &&& !r.scanned && !r.from_companion && !r.from_vorbis
        }),
{
    assert(header_check(si, file_size, audio_offset).0);
}

/// Wraps are added only past the bound: a resolved total carries wraps
/// (or an estimate) only when the header declared a count, no positive tag
/// overrides it, the payload is known, and the count is 0 or its payload
/// exceeds the bytes the declared count can occupy.
pub proof fn lemma_wraps_only_past_the_bound(
    si: StreamInfo,
    vorbis_total: Option<u64>,
    file_size: u64,
    audio_offset: u64,
    companion_total: Option<u64>,
    scanned_total: Option<u64>,
)
    ensures
        ({
            let r = spec_resolve_total(si, vorbis_total, file_size, audio_offset, companion_total, scanned_total);
            r.wraps > 0 || r.estimated ==> {
                &&& si.samples is Some
                &&& vorbis_total is None || vorbis_total->0 == 0
                &&& audio_offset > 0 && file_size > audio_offset
                &&& si.samples->0 == 0 || file_size - audio_offset > declared_max_bytes(
                    si.samples->0,
                    si.min_block_size,
                    si.max_frame_size,
                    si.channels,
                    si.bits_per_sample,
                )
            }
        }),
{
    if si.samples is Some && (vorbis_total is None || vorbis_total->0 == 0) && audio_offset > 0 && file_size
        > audio_offset && si.samples->0 > 0 && file_size - audio_offset <= declared_max_bytes(
        si.samples->0,
        si.min_block_size,
        si.max_frame_size,
        si.channels,
        si.bits_per_sample,
    ) {
        lemma_trusted_count_kept(si, vorbis_total, file_size, audio_offset, companion_total, scanned_total);
    }
}

} // verus!
