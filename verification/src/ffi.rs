//! The computations behind the C interface of the GUI: the comment blob it
//! parses, the UTF-8-safe truncation of strings into fixed buffers, the
//! bounds of a cut plan, and the real sample count of the tag template.

use vstd::prelude::*;
use vstd::utf8::{valid_utf8, encode_utf8, is_char_boundary};
use vstd::string::StringSliceAdditionalSpecFns;
use crate::comment::{le32_bytes, comments_bytes, push_all};

verus! {

/// `KEY=value` as bytes.
pub open spec fn pair_bytes(kv: (String, String)) -> Seq<u8> {
    encode_utf8(kv.0@) + seq![0x3Du8] + encode_utf8(kv.1@)
}

/// The blob the GUI parses: the count (u32 LE), then each comment as its
/// length (u32 LE) and its `KEY=value` bytes.
pub open spec fn comments_blob(pairs: Seq<(String, String)>) -> Seq<u8> {
    le32_bytes(pairs.len() as u32) + comments_bytes(pairs.map_values(|kv: (String, String)| pair_bytes(kv)))
}

/// Packs `(key, value)` pairs into the blob the GUI parses.
pub fn pack_comments_blob(comments: &[(String, String)]) -> (r: Vec<u8>)
    ensures
        r@ == comments_blob(comments@),
{
    let ghost cs = comments@.map_values(|kv: (String, String)| pair_bytes(kv));
    let mut out: Vec<u8> = Vec::new();
    let n = comments.len() as u32;
    out.push((n % 256) as u8);
    out.push(((n / 256) % 256) as u8);
    out.push(((n / 65536) % 256) as u8);
    out.push((n / 16777216) as u8);
    assert(out@ =~= le32_bytes(n));
    let ghost head = out@;
    let mut i: usize = 0;
    assert(cs.skip(0) =~= cs);
    while i < comments.len()
        invariant
            i <= comments.len(),
            cs == comments@.map_values(|kv: (String, String)| pair_bytes(kv)),
            out@ + comments_bytes(cs.skip(i as int)) == head + comments_bytes(cs),
        decreases comments.len() - i,
    {
        let (k, v) = &comments[i];
        let mut s: Vec<u8> = Vec::new();
        push_all(&mut s, k.as_str().as_bytes());
        s.push(0x3D);
        push_all(&mut s, v.as_str().as_bytes());
        assert(s@ =~= pair_bytes(comments@[i as int]));
        let ghost before = out@;
        let len = s.len() as u32;
        out.push((len % 256) as u8);
        out.push(((len / 256) % 256) as u8);
        out.push(((len / 65536) % 256) as u8);
        out.push((len / 16777216) as u8);
        push_all(&mut out, s.as_slice());
        proof {
            let rest = cs.skip(i as int);
            assert(rest[0] == s@);
            assert(rest.drop_first() =~= cs.skip(i + 1));
            assert(out@ =~= before + le32_bytes(s@.len() as u32) + s@);
            assert(out@ + comments_bytes(cs.skip(i + 1)) =~= before + comments_bytes(rest));
        }
        i = i + 1;
    }
    assert(cs.skip(comments.len() as int) =~= Seq::<Seq<u8>>::empty());
    assert(out@ =~= out@ + comments_bytes(cs.skip(comments.len() as int)));
    out
}

pub open spec fn is_continuation(b: u8) -> bool {
    0x80 <= b < 0xC0
}

/// How many bytes of `s` fit a buffer of `cap` bytes with its terminating
/// NUL: all of them when they fit, else the longest prefix of at most
/// `cap - 1` bytes that does not end inside a character (stepping back
/// over continuation bytes).
pub open spec fn spec_truncated_len(s: Seq<u8>, cap: nat) -> int {
    let n0 = if s.len() < cap - 1 {
        s.len() as int
    } else {
        cap - 1
    };
    if n0 == s.len() {
        n0
    } else {
        step_back(s, n0)
    }
}

/// From `n`, step back while `s[n]` is a continuation byte.
pub open spec fn step_back(s: Seq<u8>, n: int) -> int
    decreases n,
{
    if n > 0 && n < s.len() && is_continuation(s[n]) {
        step_back(s, n - 1)
    } else {
        n
    }
}

/// Length of `s` truncated to fit a NUL-terminated buffer of `cap` bytes
/// without cutting a character (see [`spec_truncated_len`]).
pub fn truncated_len(s: &[u8], cap: usize) -> (r: usize)
    requires
        cap >= 1,
    ensures
        r == spec_truncated_len(s@, cap as nat),
        r <= s.len(),
        r < cap,
{
    let mut n = if s.len() < cap - 1 {
        s.len()
    } else {
        cap - 1
    };
    if n < s.len() {
        while n > 0 && 0x80 <= s[n] && s[n] < 0xC0
            invariant
                n < s.len(),
                n < cap,
                step_back(s@, n as int) == spec_truncated_len(s@, cap as nat),
            decreases n,
        {
            n = n - 1;
        }
    }
    n
}

proof fn lemma_step_back_boundary(s: Seq<u8>, n: int)
    requires
        valid_utf8(s),
        0 <= n < s.len(),
    ensures
        is_char_boundary(s, step_back(s, n)),
        0 <= step_back(s, n) <= n,
    decreases n,
{
    if n > 0 && is_continuation(s[n]) {
        lemma_step_back_boundary(s, n - 1);
    } else {
        vstd::utf8::is_char_boundary_iff_not_is_continuation_byte(s, n);
        vstd::utf8::is_char_boundary_start_end_of_seq(s);
    }
}

/// The truncated prefix of a UTF-8 string is UTF-8: it never ends inside a
/// character.
pub proof fn lemma_truncation_keeps_utf8(s: Seq<u8>, cap: nat)
    requires
        valid_utf8(s),
        cap >= 1,
    ensures
        valid_utf8(s.take(spec_truncated_len(s, cap))),
        spec_truncated_len(s, cap) < cap,
{
    let n0 = if s.len() < cap - 1 {
        s.len() as int
    } else {
        cap - 1
    };
    if n0 == s.len() {
        assert(s.take(n0) =~= s);
    } else {
        lemma_step_back_boundary(s, n0);
        vstd::utf8::valid_utf8_split(s, step_back(s, n0));
        assert(s.subrange(0, step_back(s, n0)) =~= s.take(step_back(s, n0)));
    }
}

/// Why a cut cannot be planned.
#[derive(Clone, Copy, Debug, PartialEq, Eq, Structural)]
pub enum PlanError {
    /// The start is at or past the end of the file.
    StartPastEnd,
}

/// The bounds of a cut in samples, from the start and length rounded from
/// seconds: with a known total, a start at or past the end is refused and a
/// length that runs past the end is cut at the end; a length of 0 becomes
/// 1 sample. Returns `(start, length, end)`, the end saturating.
pub open spec fn spec_plan_bounds(start: u64, len: u64, total: u64, known: bool) -> Result<(u64, u64, u64), PlanError> {
    if known && start >= total {
        Err(PlanError::StartPastEnd)
    } else {
        let l1 = if known && start + len > total {
            (total - start) as u64
        } else {
            len
        };
        let l2 = if l1 == 0 {
            1u64
        } else {
            l1
        };
        let end = if start + l2 > u64::MAX {
            u64::MAX
        } else {
            (start + l2) as u64
        };
        Ok((start, l2, end))
    }
}

/// Computes the bounds of a cut (see [`spec_plan_bounds`]).
pub fn plan_bounds(start: u64, len: u64, total: u64, known: bool) -> (r: Result<(u64, u64, u64), PlanError>)
    requires
        known && start < total ==> start + len <= u64::MAX,
    ensures
        r == spec_plan_bounds(start, len, total, known),
{
    let mut l = len;
    if known {
        if start >= total {
            return Err(PlanError::StartPastEnd);
        }
        if start + l > total {
            l = total - start;
        }
    }
    if l == 0 {
        l = 1;
    }
    let end = if start > u64::MAX - l {
        u64::MAX
    } else {
        start + l
    };
    Ok((start, l, end))
}

/// A planned cut with a known total stays inside the file: it starts before
/// the end, ends at or before it, and holds at least one sample.
pub proof fn lemma_plan_inside_file(start: u64, len: u64, total: u64)
    requires
        spec_plan_bounds(start, len, total, true) is Ok,
    ensures
        ({
            let (s, l, e) = spec_plan_bounds(start, len, total, true)->Ok_0;
            &&& s == start
            &&& s < total
            &&& 1 <= l
            &&& s + l <= total
            &&& e == s + l
        }),
{
}

/// The real on-disk sample count of the tag template: a count that came
/// from a tag, a companion file or a frame scan is real already; a trusted
/// header count is real unless its uncompressed size falls short of the
/// audio payload while 1000 times it does not (a header kept in thousands),
/// in which case it is multiplied by 1000 (saturating).
pub open spec fn spec_template_total(
    total: u64,
    from_real: bool,
    channels: u32,
    bits: u32,
    file_size: u64,
    audio_offset: u64,
) -> u64 {
    let bps = channels * (bits / 8);
    let audio = if file_size > audio_offset {
        file_size - audio_offset
    } else {
        0
    };
    let sat = |x: int| if x > u64::MAX { u64::MAX as int } else { x };
    let unc = sat(total * bps);
    if !from_real && bps > 0 && audio > 0 && unc < audio && sat(unc * 1000) >= audio {
        sat(total * 1000) as u64
    } else {
        total
    }
}

/// `a * b`, saturating at `u64::MAX`.
fn sat_mul(a: u64, b: u64) -> (r: u64)
    ensures
        r == (if a * b > u64::MAX {
            u64::MAX as int
        } else {
            a * b
        }),
{
    if b != 0 && a > u64::MAX / b {
        assert(a * b > u64::MAX) by (nonlinear_arith)
            requires
                b != 0,
                a > u64::MAX / b,
        ;
        u64::MAX
    } else {
        assert(a * b <= u64::MAX) by (nonlinear_arith)
            requires
                b == 0 || a <= u64::MAX / b,
        ;
        a * b
    }
}

/// Computes the real sample count of the tag template (see
/// [`spec_template_total`]).
pub fn template_total(
    total: u64,
    from_real: bool,
    channels: u32,
    bits: u32,
    file_size: u64,
    audio_offset: u64,
) -> (r: u64)
    ensures
        r == spec_template_total(total, from_real, channels, bits, file_size, audio_offset),
{
    if from_real {
        return total;
    }
    assert(channels as u64 * (bits as u64 / 8) <= 0xFFFF_FFFF * 0x2000_0000) by (nonlinear_arith)
        requires
            channels <= 0xFFFF_FFFF,
            bits as u64 / 8 <= 0x2000_0000,
    ;
    let bps: u64 = channels as u64 * (bits as u64 / 8);
    let audio: u64 = if file_size > audio_offset {
        file_size - audio_offset
    } else {
        0
    };
    if bps > 0 && audio > 0 {
        let unc: u64 = sat_mul(total, bps);
        if unc < audio && sat_mul(unc, 1000) >= audio {
            return sat_mul(total, 1000);
        }
    }
    total
}

/// Which tags the RF tag template holds.
#[derive(Clone, Copy, Debug, PartialEq, Eq, Structural)]
pub enum TemplateShape {
    /// No template: not an RF capture, or no usable rate.
    Empty,
    /// `RF_SAMPLE_RATE_KHZ` and `RF_SAMPLE_RATE` only: the total is unknown.
    RatesOnly,
    /// The rate tags, then `RF_TOTAL_SAMPLES`, `DURATION_SECONDS`, `LENGTH`.
    Full,
}

/// The shape of the template for a probe: empty unless the file is RF with
/// a non-zero header rate and a positive real rate; the total tags only when
/// the total is known and above 0.
pub fn template_shape(is_rf: bool, header_rate: u64, real_rate_positive: bool, total_known: bool, total: u64) -> (r: TemplateShape)
    ensures
        r == (if !is_rf || header_rate == 0 || !real_rate_positive {
            TemplateShape::Empty
        } else if total_known && total > 0 {
            TemplateShape::Full
        } else {
            TemplateShape::RatesOnly
        }),
{
    if !is_rf || header_rate == 0 || !real_rate_positive {
        TemplateShape::Empty
    } else if total_known && total > 0 {
        TemplateShape::Full
    } else {
        TemplateShape::RatesOnly
    }
}

} // verus!
