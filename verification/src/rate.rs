//! Which rule gives the real sample rate of a capture.
//!
//! RF captures store the real rate divided by 1000 in the STREAMINFO
//! `sample_rate` field (20 MSPS is stored as 20000 Hz). A header rate within
//! 5% of a standard audio rate is taken as real audio and used as it is;
//! any other header rate is RF: the real rate is the `<n>msps` filename hint
//! when there is one, else the header rate times 1000.

use vstd::prelude::*;

verus! {

/// The standard audio sample rates.
pub open spec fn audio_rates() -> Seq<u64> {
    seq![22050, 24000, 32000, 44100, 48000, 64000, 88200, 96000, 176400, 192000, 352800, 384000]
}

/// `h` is within 5% of `a`: `|h - a| <= a / 20`.
pub open spec fn within_tolerance(h: u64, a: u64) -> bool {
    20 * (if h >= a { h - a } else { a - h }) <= a
}

/// The header rate is a standard audio rate, within 5%.
pub open spec fn spec_is_audio_rate(h: u64) -> bool {
    exists|k: int| 0 <= k < audio_rates().len() && within_tolerance(h, #[trigger] audio_rates()[k])
}

fn near(h: u64, a: u64) -> (r: bool)
    requires
        a <= 384000,
    ensures
        r == within_tolerance(h, a),
{
    let d: u64 = if h >= a {
        h - a
    } else {
        a - h
    };
    d <= a / 20
}

/// Whether a header rate is a standard audio rate, within 5%.
pub fn is_audio_rate(header_rate: u64) -> (r: bool)
    ensures
        r == spec_is_audio_rate(header_rate),
{
    let rates: [u64; 12] = [22050, 24000, 32000, 44100, 48000, 64000, 88200, 96000, 176400, 192000, 352800, 384000];
    assert(rates@ =~= audio_rates());
    let mut k: usize = 0;
    while k < 12
        invariant
            k <= 12,
            rates@ == audio_rates(),
            forall|j: int| 0 <= j < k ==> !within_tolerance(header_rate, #[trigger] audio_rates()[j]),
        decreases 12 - k,
    {
        if near(header_rate, rates[k]) {
            return true;
        }
        k = k + 1;
    }
    false
}

/// How the real rate follows from the header rate.
#[derive(Clone, Copy, Debug, PartialEq, Eq, Structural)]
pub enum RateRule {
    /// Real audio: the header rate is the real rate.
    Audio,
    /// RF with a positive `<n>msps` hint: the real rate is `n` MHz.
    MspsHint,
    /// RF without a hint: the real rate is the header rate times 1000.
    HeaderTimes1000,
    /// RF with a positive `RF_SAMPLE_RATE` tag: the tag is the real rate.
    Tagged,
}

/// The rule for a header rate, given whether a positive `<n>msps` hint is
/// present: an audio rate wins over the hint.
pub fn rate_rule(header_rate: u64, has_positive_hint: bool) -> (r: RateRule)
    ensures
        r == (if spec_is_audio_rate(header_rate) {
            RateRule::Audio
        } else if has_positive_hint {
            RateRule::MspsHint
        } else {
            RateRule::HeaderTimes1000
        }),
{
    if is_audio_rate(header_rate) {
        RateRule::Audio
    } else if has_positive_hint {
        RateRule::MspsHint
    } else {
        RateRule::HeaderTimes1000
    }
}

/// The rule of the probe: a positive `RF_SAMPLE_RATE` tag (the capture
/// tool's own record of the rate it counted samples at) overrides
/// [`rate_rule`].
pub fn probe_rate_rule(header_rate: u64, tag_rate: Option<u64>, has_positive_hint: bool) -> (r: RateRule)
    ensures
        r == (if tag_rate matches Some(t) && t > 0 {
            RateRule::Tagged
        } else if spec_is_audio_rate(header_rate) {
            RateRule::Audio
        } else if has_positive_hint {
            RateRule::MspsHint
        } else {
            RateRule::HeaderTimes1000
        }),
{
    match tag_rate {
        Some(t) => {
            if t > 0 {
                return RateRule::Tagged;
            }
        },
        None => {},
    }
    rate_rule(header_rate, has_positive_hint)
}

/// `|h - a| * 20 <= a`, written out.
pub open spec fn near_rate(h: u64, a: int) -> bool {
    (h - a) * 20 <= a && (a - h) * 20 <= a
}

/// A header rate is audio exactly when it is within 5% of one of the
/// standard audio rates 22050, 24000, 32000, 44100, 48000, 64000, 88200,
/// 96000, 176400, 192000, 352800 and 384000 Hz; in particular each of them
/// is used as it is, never taken for RF.
pub proof fn lemma_standard_rates_are_audio(h: u64)
    ensures
        spec_is_audio_rate(h) <==> (near_rate(h, 22050) || near_rate(h, 24000) || near_rate(h, 32000)
            || near_rate(h, 44100) || near_rate(h, 48000) || near_rate(h, 64000) || near_rate(h, 88200)
            || near_rate(h, 96000) || near_rate(h, 176400) || near_rate(h, 192000) || near_rate(h, 352800)
            || near_rate(h, 384000)),
        h == 22050 || h == 24000 || h == 32000 || h == 44100 || h == 48000 || h == 64000 || h == 88200
            || h == 96000 || h == 176400 || h == 192000 || h == 352800 || h == 384000 ==> spec_is_audio_rate(h),
{
    let r = audio_rates();
    assert(r[0] == 22050 && r[1] == 24000 && r[2] == 32000 && r[3] == 44100 && r[4] == 48000 && r[5] == 64000);
    assert(r[6] == 88200 && r[7] == 96000 && r[8] == 176400 && r[9] == 192000 && r[10] == 352800 && r[11] == 384000);
    assert forall|k: int| 0 <= k < 12 implies within_tolerance(h, #[trigger] r[k]) == near_rate(h, r[k] as int) by {}
    if spec_is_audio_rate(h) {
        let k = choose|k: int| 0 <= k < r.len() && within_tolerance(h, #[trigger] r[k]);
        assert(near_rate(h, r[k] as int));
    }
    if near_rate(h, 22050) {
        assert(within_tolerance(h, r[0]));
    } else if near_rate(h, 24000) {
        assert(within_tolerance(h, r[1]));
    } else if near_rate(h, 32000) {
        assert(within_tolerance(h, r[2]));
    } else if near_rate(h, 44100) {
        assert(within_tolerance(h, r[3]));
    } else if near_rate(h, 48000) {
        assert(within_tolerance(h, r[4]));
    } else if near_rate(h, 64000) {
        assert(within_tolerance(h, r[5]));
    } else if near_rate(h, 88200) {
        assert(within_tolerance(h, r[6]));
    } else if near_rate(h, 96000) {
        assert(within_tolerance(h, r[7]));
    } else if near_rate(h, 176400) {
        assert(within_tolerance(h, r[8]));
    } else if near_rate(h, 192000) {
        assert(within_tolerance(h, r[9]));
    } else if near_rate(h, 352800) {
        assert(within_tolerance(h, r[10]));
    } else if near_rate(h, 384000) {
        assert(within_tolerance(h, r[11]));
    }
}

/// The rule of a standard audio rate is `Audio`, hint or not: an 88.2 kHz
/// file is audio, not an 88.2 MHz capture.
pub proof fn lemma_standard_rates_rule(h: u64, has_positive_hint: bool)
    requires
        h == 22050 || h == 24000 || h == 32000 || h == 44100 || h == 48000 || h == 64000 || h == 88200
            || h == 96000 || h == 176400 || h == 192000 || h == 352800 || h == 384000,
    ensures
        (if spec_is_audio_rate(h) {
            RateRule::Audio
        } else if has_positive_hint {
            RateRule::MspsHint
        } else {
            RateRule::HeaderTimes1000
        }) == RateRule::Audio,
{
    lemma_standard_rates_are_audio(h);
}

} // verus!
