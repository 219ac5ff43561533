//! The RF tags that the capture pipeline writes into the Vorbis comments of
//! a FLAC file: `RF_TOTAL_SAMPLES` (the true sample count), `RF_SAMPLE_RATE`
//! and `DURATION_SECONDS`. They are the capture tool's own record and take
//! priority over every other source of the sample count.

use vstd::prelude::*;
use claxon::{FlacReader, FlacReaderOptions};
use vstd::string::StringSliceAdditionalSpecFns;
use crate::text::{parse_u64, spec_parse_u64};
use crate::tags::{RF_TOTAL_SAMPLES, RF_SAMPLE_RATE, DURATION_SECONDS};

verus! {

/// The first value of the Vorbis comment named `name` (compared without
/// regard to ASCII case) that the FLAC reader finds in `data`; `None` when
/// there is none or the reader refuses the stream.
pub uninterp spec fn flac_first_tag(data: Seq<u8>, name: Seq<char>) -> Option<Seq<char>>;

/// Opens `data` with `claxon::FlacReader::new_ext` (metadata only, Vorbis
/// comment read) and returns the first value of `get_tag(name)`. Trusted:
/// the result is what the reader finds in these bytes; an error of the
/// reader gives `None`, as no tag would.
#[verifier::external_body]
fn read_first_tag(data: &[u8], name: &str) -> (r: Option<String>)
    ensures
        match flac_first_tag(data@, name@) {
            Some(v) => r matches Some(s) && s@ == v,
            None => r is None,
        },
{
    let opts = FlacReaderOptions { metadata_only: true, read_vorbis_comment: true };
    match FlacReader::new_ext(data, opts) {
        Ok(reader) => reader.get_tag(name).next().map(|v| v.to_string()),
        Err(_) => None,
    }
}

/// The RF tags as integers, and the duration tag as it is written.
pub struct RfTags {
    /// `RF_TOTAL_SAMPLES`, when present and a clean integer.
    pub total_samples: Option<u64>,
    /// `RF_SAMPLE_RATE`, when present and a clean integer.
    pub sample_rate: Option<u64>,
    /// The text of `DURATION_SECONDS`, when present (a decimal number of
    /// seconds, read as a float by the caller).
    pub duration_text: Option<Vec<u8>>,
}

/// The integer value of tag `name`: its first value read as `u64`.
pub open spec fn tag_u64(data: Seq<u8>, name: &str) -> Option<u64> {
    match flac_first_tag(data, name@) {
        Some(v) => spec_parse_u64(vstd::utf8::encode_utf8(v)),
        None => None,
    }
}

fn read_tag_u64(data: &[u8], name: &str) -> (r: Option<u64>)
    ensures
        r == tag_u64(data@, name),
{
    match read_first_tag(data, name) {
        Some(v) => parse_u64(v.as_str().as_bytes()),
        None => None,
    }
}

/// `t` holds the RF tags that the FLAC reader finds in `data`.
pub open spec fn rf_tags_of(data: Seq<u8>, t: RfTags) -> bool {
    &&& t.total_samples == tag_u64(data, RF_TOTAL_SAMPLES)
    &&& t.sample_rate == tag_u64(data, RF_SAMPLE_RATE)
    &&& match flac_first_tag(data, DURATION_SECONDS@) {
        Some(v) => t.duration_text matches Some(d) && d@ == vstd::utf8::encode_utf8(v),
        None => t.duration_text is None,
    }
}

/// Reads the RF tags from the metadata of a FLAC file (`data` holds its
/// first bytes, at least all of its metadata). A tag that is absent, or not
/// a clean integer, is `None`.
pub fn read_rf_tags(data: &[u8]) -> (r: RfTags)
    ensures
        rf_tags_of(data@, r),
{
    let total_samples = read_tag_u64(data, RF_TOTAL_SAMPLES);
    let sample_rate = read_tag_u64(data, RF_SAMPLE_RATE);
    let duration_text = match read_first_tag(data, DURATION_SECONDS) {
        Some(v) => {
            let b = v.as_str().as_bytes();
            let d = crate::comment::copy_range(b, 0, b.len());
            assert(d@ =~= vstd::utf8::encode_utf8(v@));
            Some(d)
        },
        None => None,
    };
    RfTags { total_samples, sample_rate, duration_text }
}

} // verus!
