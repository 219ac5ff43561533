//! FLAC frame headers: the UTF-8-style coded frame/sample number and the
//! fixed-layout header that starts every audio frame.
//!
//! Only headers are read; audio is never decoded. A header is accepted only
//! when every field has a non-reserved encoding and its CRC-8 matches.

use vstd::prelude::*;
use crate::crc::{crc8, crc8_prefix};
use vstd::arithmetic::power2::{pow2, lemma2_to64};

verus! {

/// Longest possible frame header in bytes.
pub const MAX_HEADER_LEN: usize = 17;

/// Number of leading one bits of the first byte of a coded number.
pub open spec fn lead_ones(b: u8) -> nat {
    if b < 0x80 { 0 }
    else if b < 0xC0 { 1 }
    else if b < 0xE0 { 2 }
    else if b < 0xF0 { 3 }
    else if b < 0xF8 { 4 }
    else if b < 0xFC { 5 }
    else if b < 0xFE { 6 }
    else if b == 0xFE { 7 }
    else { 8 }
}

/// The value bits that the first byte of a coded number carries.
pub open spec fn lead_data(b: u8) -> nat {
    if b < 0x80 { b as nat }
    else if b < 0xC0 { 0 }
    else if b < 0xE0 { (b - 0xC0) as nat }
    else if b < 0xF0 { (b - 0xE0) as nat }
    else if b < 0xF8 { (b - 0xF0) as nat }
    else if b < 0xFC { (b - 0xF8) as nat }
    else if b < 0xFE { (b - 0xFC) as nat }
    else { 0 }
}

pub open spec fn is_continuation(b: u8) -> bool {
    0x80 <= b < 0xC0
}

/// Value of `lead_data(w[0])` followed by the 6-bit payloads of
/// `w[1..=k]`, most significant first.
pub open spec fn coded_value(w: Seq<u8>, k: nat) -> nat
    decreases k,
{
    if k == 0 {
        lead_data(w[0])
    } else {
        coded_value(w, (k - 1) as nat) * 64 + (w[k as int] - 0x80) as nat
    }
}

/// Total length in bytes of the coded number that starts with `b`
/// (meaningless when `lead_ones(b) == 1`).
pub open spec fn coded_len(b: u8) -> nat {
    if lead_ones(b) == 0 { 1 } else { lead_ones(b) }
}

/// The coded frame/sample number at the start of `w`: its value and the
/// number of bytes it takes. `None` when the first byte is a lone
/// continuation byte, when the bytes run out, or when a following byte is
/// not a continuation byte.
pub open spec fn spec_read_coded(w: Seq<u8>) -> Option<(nat, nat)> {
    if w.len() == 0 {
        None
    } else if lead_ones(w[0]) == 1 {
        None
    } else if coded_len(w[0]) > w.len() {
        None
    } else if exists|j: int| 1 <= j < coded_len(w[0]) && !is_continuation(#[trigger] w[j]) {
        None
    } else {
        Some((coded_value(w, (coded_len(w[0]) - 1) as nat), coded_len(w[0])))
    }
}

/// `128 * 64^k`: an upper bound of a coded value with `k` continuation bytes.
pub open spec fn coded_bound(k: nat) -> nat
    decreases k,
{
    if k == 0 { 128 } else { coded_bound((k - 1) as nat) * 64 }
}

proof fn lemma_coded_value_bound(w: Seq<u8>, k: nat)
    requires
        k < w.len(),
        forall|j: int| 1 <= j <= k ==> is_continuation(#[trigger] w[j]),
    ensures
        coded_value(w, k) < coded_bound(k),
    decreases k,
{
    if k > 0 {
        lemma_coded_value_bound(w, (k - 1) as nat);
        assert(is_continuation(w[k as int]));
        let v = coded_value(w, (k - 1) as nat);
        let c = coded_bound((k - 1) as nat);
        assert(coded_value(w, k) == v * 64 + (w[k as int] - 0x80) as nat);
        assert(coded_bound(k) == c * 64);
        assert(v * 64 + 63 < c * 64) by (nonlinear_arith)
            requires v < c;
    } else {
        assert(lead_data(w[0]) < 128);
    }
}

proof fn lemma_coded_bound_mono(k: nat)
    requires
        k <= 7,
    ensures
        coded_bound(k) <= 0x2_0000_0000_0000,
{
    reveal_with_fuel(coded_bound, 8);
}

/// Reads the coded frame/sample number at the start of `w`. Returns its
/// value and the number of bytes it takes.
pub fn read_utf8_coded(w: &[u8]) -> (r: Option<(u64, usize)>)
    ensures
        match spec_read_coded(w@) {
            None => r is None,
            Some((v, n)) => r == Some((v as u64, n as usize)) && v < 0x1_0000_0000_0000_0000,
        },
{
    assert(w@.skip(0) =~= w@);
    read_coded_at(w, 0)
}

/// Reads the coded number that starts at `w[start]`.
fn read_coded_at(w: &[u8], start: usize) -> (r: Option<(u64, usize)>)
    requires
        start <= w.len(),
    ensures
        match spec_read_coded(w@.skip(start as int)) {
            None => r is None,
            Some((v, n)) => r == Some((v as u64, n as usize)) && v < 0x1_0000_0000_0000_0000,
        },
{
    let ghost s = w@.skip(start as int);
    if start == w.len() {
        return None;
    }
    let first = w[start];
    assert(s[0] == first);
    let (n, data): (usize, u64) =
        if first < 0x80 { (1, first as u64) }
        else if first < 0xC0 { return None; }
        else if first < 0xE0 { (2, (first - 0xC0) as u64) }
        else if first < 0xF0 { (3, (first - 0xE0) as u64) }
        else if first < 0xF8 { (4, (first - 0xF0) as u64) }
        else if first < 0xFC { (5, (first - 0xF8) as u64) }
        else if first < 0xFE { (6, (first - 0xFC) as u64) }
        else if first == 0xFE { (7, 0) }
        else { (8, 0) };
    assert(n == coded_len(first) && data == lead_data(first));
    if n > w.len() - start {
        return None;
    }
    let mut v: u64 = data;
    let mut k: usize = 1;
    while k < n
        invariant
            1 <= k <= n,
            s == w@.skip(start as int),
            start < w.len(),
            n == coded_len(s[0]),
            n <= s.len(),
            lead_ones(s[0]) != 1,
            forall|j: int| 1 <= j < k ==> is_continuation(#[trigger] s[j]),
            v == coded_value(s, (k - 1) as nat),
        decreases n - k,
    {
        let b = w[start + k];
        assert(s[k as int] == b);
        if !(0x80 <= b && b < 0xC0) {
            assert(!is_continuation(s[k as int]));
            return None;
        }
        proof {
            lemma_coded_value_bound(s, (k - 1) as nat);
            lemma_coded_bound_mono((k - 1) as nat);
        }
        v = v * 64 + (b - 0x80) as u64;
        k = k + 1;
    }
    proof {
        lemma_coded_value_bound(s, (n - 1) as nat);
        lemma_coded_bound_mono((n - 1) as nat);
    }
    Some((v, n))
}

/// Block-size code of a frame header (high nibble of byte 2).
pub open spec fn bs_code(w: Seq<u8>) -> u8 { w[2] / 16 }

/// Sample-rate code of a frame header (low nibble of byte 2).
pub open spec fn sr_code(w: Seq<u8>) -> u8 { w[2] % 16 }

/// Number of extra block-size bytes that follow the coded number.
pub open spec fn extra_bs_len(code: u8) -> nat {
    if code == 6 { 1 } else if code == 7 { 2 } else { 0 }
}

/// Number of extra sample-rate bytes that follow the block-size bytes.
pub open spec fn extra_sr_len(code: u8) -> nat {
    if code == 12 { 1 } else if code == 13 || code == 14 { 2 } else { 0 }
}

/// Block size given directly by a block-size code (codes 1..=5 and 8..=15).
pub open spec fn fixed_block_size(code: u8) -> nat {
    if code == 1 { 192 }
    else if code == 2 { 576 }
    else if code == 3 { 1152 }
    else if code == 4 { 2304 }
    else if code == 5 { 4608 }
    else if code == 8 { 256 }
    else if code == 9 { 512 }
    else if code == 10 { 1024 }
    else if code == 11 { 2048 }
    else if code == 12 { 4096 }
    else if code == 13 { 8192 }
    else if code == 14 { 16384 }
    else { 32768 }
}

/// The fixed fields of bytes 0..4 carry a valid sync code and no reserved
/// encoding: sync `0xFFF8`/`0xFFF9`, a block-size code other than 0, a
/// sample-rate code other than 15, a channel assignment below 11, a
/// sample-size code other than 3 and 7, and a clear reserved bit.
pub open spec fn fixed_fields_valid(w: Seq<u8>) -> bool {
    &&& w.len() >= 4
    &&& w[0] == 0xFF
    &&& (w[1] == 0xF8 || w[1] == 0xF9)
    &&& bs_code(w) != 0
    &&& sr_code(w) != 15
    &&& w[3] / 16 < 11
    &&& (w[3] / 2) % 8 != 3
    &&& (w[3] / 2) % 8 != 7
    &&& w[3] % 2 == 0
}

/// The frame header at the start of `w`: `(block_size, header_len,
/// number, variable)`, where `number` is the frame number (fixed block
/// size) or the first sample number (variable block size, sync `0xFFF9`).
/// `None` unless every field is validly encoded, all its bytes are present
/// and the trailing CRC-8 matches.
pub open spec fn spec_frame_header(w: Seq<u8>) -> Option<(nat, nat, nat, bool)> {
    if !fixed_fields_valid(w) {
        None
    } else {
        match spec_read_coded(w.skip(4)) {
            None => None,
            Some((number, clen)) => {
                let pos = 4 + clen;
                let code = bs_code(w);
                let hpos = pos + extra_bs_len(code) + extra_sr_len(sr_code(w));
                if hpos + 1 > w.len() {
                    None
                } else {
                    let bs: nat = if code == 6 {
                        w[pos as int] as nat + 1
                    } else if code == 7 {
                        w[pos as int] as nat * 256 + w[(pos + 1) as int] as nat + 1
                    } else {
                        fixed_block_size(code)
                    };
                    if code == 7 && bs == 0x10000 {
                        None
                    } else if crc8(w.take(hpos as int)) != w[hpos as int] {
                        None
                    } else {
                        Some((bs, hpos + 1, number, w[1] == 0xF9))
                    }
                }
            }
        }
    }
}

/// Parses the FLAC frame header at the start of `w`. Returns
/// `(block_size, header_len, number, variable)`; see [`spec_frame_header`].
pub fn parse_frame_header(w: &[u8]) -> (r: Option<(u16, usize, u64, bool)>)
    ensures
        match spec_frame_header(w@) {
            None => r is None,
            Some((bs, hl, num, var)) => r == Some((bs as u16, hl as usize, num as u64, var))
                && bs <= 0xFFFF && num < 0x1_0000_0000_0000_0000,
        },
{
    if w.len() < 4 {
        return None;
    }
    if !(w[0] == 0xFF && (w[1] == 0xF8 || w[1] == 0xF9)) {
        return None;
    }
    let variable = w[1] == 0xF9;
    let code = w[2] / 16;
    let sr = w[2] % 16;
    let cb = w[3];
    if code == 0 || sr == 15 || cb / 16 >= 11 || (cb / 2) % 8 == 3 || (cb / 2) % 8 == 7
        || cb % 2 != 0 {
        return None;
    }
    assert(fixed_fields_valid(w@));
    let (number, clen) = match read_coded_at(w, 4) {
        None => { return None; }
        Some(x) => x,
    };
    let pos = 4 + clen;
    let ebs: usize = if code == 6 { 1 } else if code == 7 { 2 } else { 0 };
    let esr: usize = if sr == 12 { 1 } else if sr == 13 || sr == 14 { 2 } else { 0 };
    if clen > w.len() || w.len() - 4 - clen < ebs + esr + 1 {
        return None;
    }
    let hpos = pos + ebs + esr;
    let bs: u16 = if code == 6 {
        w[pos] as u16 + 1
    } else if code == 7 {
        let v: u16 = w[pos] as u16 * 256 + w[pos + 1] as u16;
        if v == 0xFFFF {
            return None;
        }
        v + 1
    } else if code == 1 { 192 }
    else if code == 2 { 576 }
    else if code == 3 { 1152 }
    else if code == 4 { 2304 }
    else if code == 5 { 4608 }
    else if code == 8 { 256 }
    else if code == 9 { 512 }
    else if code == 10 { 1024 }
    else if code == 11 { 2048 }
    else if code == 12 { 4096 }
    else if code == 13 { 8192 }
    else if code == 14 { 16384 }
    else { 32768 };
    let crc = crc8_prefix(w, hpos);
    assert(w@.subrange(0, hpos as int) =~= w@.take(hpos as int));
    if crc != w[hpos] {
        return None;
    }
    Some((bs, hpos + 1, number, variable))
}

/// The block size of a parsed header follows the FLAC table: 192 samples
/// for code 1, `576 * 2^(code - 2)` for codes 2 to 5 and `256 * 2^(code - 8)`
/// for codes 8 to 15 (code 13 is 8192 samples).
pub proof fn lemma_block_size_codes(w: Seq<u8>)
    requires
        spec_frame_header(w) is Some,
    ensures
        bs_code(w) == 1 ==> (spec_frame_header(w)->0).0 == 192,
        2 <= bs_code(w) <= 5 ==> (spec_frame_header(w)->0).0 == 576 * pow2((bs_code(w) - 2) as nat),
        8 <= bs_code(w) <= 15 ==> (spec_frame_header(w)->0).0 == 256 * pow2((bs_code(w) - 8) as nat),
{
    lemma2_to64();
}

/// What a parsed header is made of: the sync code, the blocking strategy bit
/// (`0xF9` is variable), the coded frame or sample number right after the
/// 4 fixed bytes, an explicit block size (8-bit for code 6, 16-bit
/// big-endian for code 7, stored minus one) right after it, and a last byte
/// that is the CRC-8 of all the bytes before it; a header is 6 to 17 bytes.
pub proof fn lemma_header_fields(w: Seq<u8>)
    requires
        spec_frame_header(w) is Some,
    ensures
        ({
            let (bs, hl, num, var) = spec_frame_header(w)->0;
            let coded = spec_read_coded(w.skip(4));
            let p: int = 4 + (coded->0).1 as int;
            &&& w[0] == 0xFF && (w[1] == 0xF8 || w[1] == 0xF9)
            &&& var == (w[1] == 0xF9)
            &&& coded is Some && (coded->0).0 == num
            &&& 6 <= hl <= MAX_HEADER_LEN && hl <= w.len()
            &&& crc8(w.take(hl - 1)) == w[hl - 1]
            &&& 1 <= bs <= 0xFFFF
            &&& bs_code(w) == 6 ==> bs == w[p] + 1
            &&& bs_code(w) == 7 ==> bs == w[p] * 256 + w[p + 1] + 1
        }),
{
    let b = w.skip(4);
    assert(b[0] == w[4]);
    assert(coded_len(b[0]) <= 8);
}

} // verus!
