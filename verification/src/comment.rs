//! The VORBIS_COMMENT block: a vendor string and a list of `KEY=value`
//! comments, each preceded by its 32-bit little-endian length, with the
//! comment count between the vendor and the comments.

use vstd::prelude::*;
use vstd::utf8::valid_utf8;
use crate::text::is_valid_utf8;

verus! {

/// Why a VORBIS_COMMENT payload could not be read.
#[derive(Clone, Copy, Debug, PartialEq, Eq, Structural)]
pub enum CommentError {
    /// A length or the count runs past the end of the payload.
    Truncated,
    /// The vendor string runs past the end of the payload.
    VendorTruncated,
    VendorNotUtf8,
    /// A comment runs past the end of the payload.
    CommentTruncated,
    CommentNotUtf8,
}

/// A 32-bit little-endian number at `s[i..i + 4]`.
pub open spec fn le32(s: Seq<u8>, i: int) -> nat {
    s[i] as nat + s[i + 1] as nat * 256 + s[i + 2] as nat * 65536 + s[i + 3] as nat * 16777216
}

/// The 4 little-endian bytes of `n`.
pub open spec fn le32_bytes(n: u32) -> Seq<u8> {
    seq![(n % 256) as u8, ((n / 256) % 256) as u8, ((n / 65536) % 256) as u8, (n / 16777216) as u8]
}

/// The `n` comments that start at `pos`.
pub open spec fn spec_parse_comments(p: Seq<u8>, pos: int, n: nat) -> Result<
    Seq<Seq<u8>>,
    CommentError,
>
    decreases n,
{
    if n == 0 {
        Ok(Seq::empty())
    } else if pos + 4 > p.len() {
        Err(CommentError::Truncated)
    } else {
        let end = pos + 4 + le32(p, pos);
        if end > p.len() {
            Err(CommentError::CommentTruncated)
        } else if !valid_utf8(p.subrange(pos + 4, end)) {
            Err(CommentError::CommentNotUtf8)
        } else {
            match spec_parse_comments(p, end, (n - 1) as nat) {
                Ok(rest) => Ok(seq![p.subrange(pos + 4, end)] + rest),
                Err(e) => Err(e),
            }
        }
    }
}

/// A VORBIS_COMMENT payload read as `(vendor, comments)`. Bytes after the
/// last comment are ignored.
pub open spec fn spec_parse_vorbis_comment(p: Seq<u8>) -> Result<(Seq<u8>, Seq<Seq<u8>>), CommentError> {
    if p.len() < 4 {
        Err(CommentError::Truncated)
    } else {
        let vend: int = 4 + le32(p, 0) as int;
        if vend > p.len() {
            Err(CommentError::VendorTruncated)
        } else if !valid_utf8(p.subrange(4, vend)) {
            Err(CommentError::VendorNotUtf8)
        } else if vend + 4 > p.len() {
            Err(CommentError::Truncated)
        } else {
            match spec_parse_comments(p, vend + 4, le32(p, vend)) {
                Ok(cs) => Ok((p.subrange(4, vend), cs)),
                Err(e) => Err(e),
            }
        }
    }
}

/// The comments encoded in order, each after its length.
pub open spec fn comments_bytes(cs: Seq<Seq<u8>>) -> Seq<u8>
    decreases cs.len(),
{
    if cs.len() == 0 {
        Seq::empty()
    } else {
        le32_bytes(cs[0].len() as u32) + cs[0] + comments_bytes(cs.drop_first())
    }
}

/// The VORBIS_COMMENT payload for `vendor` and `cs`.
pub open spec fn vorbis_comment_bytes(vendor: Seq<u8>, cs: Seq<Seq<u8>>) -> Seq<u8> {
    le32_bytes(vendor.len() as u32) + vendor + le32_bytes(cs.len() as u32) + comments_bytes(cs)
}

/// The vendor and every comment are UTF-8 and every length fits 32 bits.
pub open spec fn comment_block_writable(vendor: Seq<u8>, cs: Seq<Seq<u8>>) -> bool {
    &&& valid_utf8(vendor)
    &&& vendor.len() < 0x1_0000_0000
    &&& cs.len() < 0x1_0000_0000
    &&& forall|i: int| 0 <= i < cs.len() ==> valid_utf8(#[trigger] cs[i]) && cs[i].len() < 0x1_0000_0000
}

proof fn lemma_le32(n: u32)
    ensures
        le32(le32_bytes(n), 0) == n,
{
    let b = le32_bytes(n);
    assert((n % 256) + ((n / 256) % 256) * 256 + ((n / 65536) % 256) * 65536 + (n / 16777216)
        * 16777216 == n) by (nonlinear_arith)
    {
        assert(n == 256 * (n / 256) + n % 256);
        assert(n / 256 == 256 * (n / 65536) + (n / 256) % 256);
        assert(n / 65536 == 256 * (n / 16777216) + (n / 65536) % 256);
    };
}

proof fn lemma_parse_comments_bytes(p: Seq<u8>, pos: int, cs: Seq<Seq<u8>>)
    requires
        0 <= pos,
        pos + comments_bytes(cs).len() <= p.len(),
        p.subrange(pos, pos + comments_bytes(cs).len()) == comments_bytes(cs),
        forall|i: int| 0 <= i < cs.len() ==> valid_utf8(#[trigger] cs[i]) && cs[i].len() < 0x1_0000_0000,
    ensures
        spec_parse_comments(p, pos, cs.len()) == Ok::<_, CommentError>(cs),
    decreases cs.len(),
{
    if cs.len() > 0 {
        let c = cs[0];
        let enc = comments_bytes(cs);
        let rest = cs.drop_first();
        assert(enc == le32_bytes(c.len() as u32) + c + comments_bytes(rest));
        lemma_le32(c.len() as u32);
        assert((c.len() as u32) as nat == c.len());
        assert(le32(p, pos) == le32(le32_bytes(c.len() as u32), 0)) by {
            assert(p[pos] == enc[0]);
            assert(p[pos + 1] == enc[1]);
            assert(p[pos + 2] == enc[2]);
            assert(p[pos + 3] == enc[3]);
        }
        let end = pos + 4 + c.len();
        assert(p.subrange(pos + 4, end) =~= c) by {
            assert forall|i: int| 0 <= i < c.len() implies p.subrange(pos + 4, end)[i] == c[i] by {
                assert(p[pos + 4 + i] == enc[4 + i]);
            }
        }
        assert(valid_utf8(c));
        assert(p.subrange(end, end + comments_bytes(rest).len()) =~= comments_bytes(rest)) by {
            assert forall|i: int| 0 <= i < comments_bytes(rest).len() implies p.subrange(
                end,
                end + comments_bytes(rest).len(),
            )[i] == comments_bytes(rest)[i] by {
                assert(p[end + i] == enc[4 + c.len() + i]);
            }
        }
        assert forall|i: int| 0 <= i < rest.len() implies valid_utf8(#[trigger] rest[i])
            && rest[i].len() < 0x1_0000_0000 by {
            assert(rest[i] == cs[i + 1]);
        }
        lemma_parse_comments_bytes(p, end, rest);
        assert(spec_parse_comments(p, end, (cs.len() - 1) as nat) == Ok::<_, CommentError>(rest));
        assert(seq![c] + rest =~= cs);
        assert(le32(p, pos) == c.len());
        assert(pos + 4 <= p.len());
    } else {
        assert(cs =~= Seq::<Seq<u8>>::empty());
    }
}

/// Round trip: the payload written for a vendor and comments reads back as
/// the same vendor and comments.
pub proof fn lemma_vorbis_comment_round_trip(vendor: Seq<u8>, cs: Seq<Seq<u8>>)
    requires
        comment_block_writable(vendor, cs),
    ensures
        spec_parse_vorbis_comment(vorbis_comment_bytes(vendor, cs)) == Ok::<_, CommentError>(
            (vendor, cs),
        ),
{
    let p = vorbis_comment_bytes(vendor, cs);
    let vl = vendor.len() as u32;
    lemma_le32(vl);
    lemma_le32(cs.len() as u32);
    assert(le32(p, 0) == vendor.len()) by {
        assert(p[0] == le32_bytes(vl)[0]);
        assert(p[1] == le32_bytes(vl)[1]);
        assert(p[2] == le32_bytes(vl)[2]);
        assert(p[3] == le32_bytes(vl)[3]);
    }
    let vend: int = 4 + vendor.len() as int;
    assert(p.subrange(4, vend) =~= vendor);
    let cl = cs.len() as u32;
    assert(le32(p, vend) == cs.len()) by {
        assert(p[vend] == le32_bytes(cl)[0]);
        assert(p[vend + 1] == le32_bytes(cl)[1]);
        assert(p[vend + 2] == le32_bytes(cl)[2]);
        assert(p[vend + 3] == le32_bytes(cl)[3]);
    }
    assert(p.subrange(vend + 4, vend + 4 + comments_bytes(cs).len()) =~= comments_bytes(cs));
    lemma_parse_comments_bytes(p, vend + 4, cs);
}

/// Every comment read is UTF-8.
pub proof fn lemma_parsed_comments_valid(p: Seq<u8>, pos: int, n: nat)
    requires
        spec_parse_comments(p, pos, n) is Ok,
    ensures
        forall|k: int|
            0 <= k < spec_parse_comments(p, pos, n)->Ok_0.len() ==> valid_utf8(
                #[trigger] spec_parse_comments(p, pos, n)->Ok_0[k],
            ),
    decreases n,
{
    if n > 0 {
        let end = pos + 4 + le32(p, pos);
        lemma_parsed_comments_valid(p, end, (n - 1) as nat);
        let rest = spec_parse_comments(p, end, (n - 1) as nat)->Ok_0;
        let all = spec_parse_comments(p, pos, n)->Ok_0;
        assert forall|k: int| 0 <= k < all.len() implies valid_utf8(#[trigger] all[k]) by {
            if k > 0 {
                assert(all[k] == rest[k - 1]);
            }
        }
    }
}

/// A payload read as `(vendor, comments)` has a UTF-8 vendor and UTF-8
/// comments.
pub proof fn lemma_parsed_vorbis_comment_valid(p: Seq<u8>)
    requires
        spec_parse_vorbis_comment(p) is Ok,
    ensures
        valid_utf8(spec_parse_vorbis_comment(p)->Ok_0.0),
        forall|k: int|
            0 <= k < spec_parse_vorbis_comment(p)->Ok_0.1.len() ==> valid_utf8(
                #[trigger] spec_parse_vorbis_comment(p)->Ok_0.1[k],
            ),
{
    let vend: int = 4 + le32(p, 0) as int;
    lemma_parsed_comments_valid(p, vend + 4, le32(p, vend));
}

proof fn lemma_comments_bytes_len(cs: Seq<Seq<u8>>)
    ensures
        comments_bytes(cs).len() >= 4 * cs.len(),
        forall|k: int| 0 <= k < cs.len() ==> (#[trigger] cs[k]).len() <= comments_bytes(cs).len(),
    decreases cs.len(),
{
    if cs.len() > 0 {
        lemma_comments_bytes_len(cs.drop_first());
        assert forall|k: int| 0 <= k < cs.len() implies (#[trigger] cs[k]).len() <= comments_bytes(
            cs,
        ).len() by {
            if k > 0 {
                assert(cs[k] == cs.drop_first()[k - 1]);
            }
        }
    }
}

/// A payload of at most 2^24 bytes has every length below 2^32.
pub proof fn lemma_small_payload_writable(vendor: Seq<u8>, cs: Seq<Seq<u8>>)
    requires
        vorbis_comment_bytes(vendor, cs).len() <= 0xff_ffff,
        valid_utf8(vendor),
        forall|k: int| 0 <= k < cs.len() ==> valid_utf8(#[trigger] cs[k]),
    ensures
        comment_block_writable(vendor, cs),
{
    lemma_comments_bytes_len(cs);
}

/// Reads the 32-bit little-endian number at `p[i..i + 4]`.
fn read_le32(p: &[u8], i: usize) -> (r: u32)
    requires
        i + 4 <= p.len(),
    ensures
        r == le32(p@, i as int),
{
    p[i] as u32 + p[i + 1] as u32 * 256 + p[i + 2] as u32 * 65536 + p[i + 3] as u32 * 16777216
}

/// Copies `p[from..to]`.
pub fn copy_range(p: &[u8], from: usize, to: usize) -> (r: Vec<u8>)
    requires
        from <= to <= p.len(),
    ensures
        r@ == p@.subrange(from as int, to as int),
{
    let mut out: Vec<u8> = Vec::new();
    let mut i: usize = from;
    while i < to
        invariant
            from <= i <= to,
            to <= p.len(),
            out@ == p@.subrange(from as int, i as int),
        decreases to - i,
    {
        out.push(p[i]);
        i = i + 1;
        assert(out@ =~= p@.subrange(from as int, i as int));
    }
    out
}

/// Reads a VORBIS_COMMENT payload: `(vendor, comments)`.
pub fn parse_vorbis_comment(payload: &[u8]) -> (r: Result<(Vec<u8>, Vec<Vec<u8>>), CommentError>)
    ensures
        match spec_parse_vorbis_comment(payload@) {
            Ok((v, cs)) => r matches Ok((rv, rcs)) && rv@ == v && rcs@.map_values(
                |c: Vec<u8>| c@,
            ) == cs,
            Err(e) => r == Err::<(Vec<u8>, Vec<Vec<u8>>), CommentError>(e),
        },
{
    if payload.len() < 4 {
        return Err(CommentError::Truncated);
    }
    let vlen = read_le32(payload, 0) as usize;
    if payload.len() - 4 < vlen {
        return Err(CommentError::VendorTruncated);
    }
    let vend = 4 + vlen;
    let vendor = copy_range(payload, 4, vend);
    if !is_valid_utf8(vendor.as_slice()) {
        return Err(CommentError::VendorNotUtf8);
    }
    if payload.len() - vend < 4 {
        return Err(CommentError::Truncated);
    }
    let count = read_le32(payload, vend);
    let mut comments: Vec<Vec<u8>> = Vec::new();
    let mut pos: usize = vend + 4;
    let mut k: u32 = 0;
    let ghost total = spec_parse_comments(payload@, vend + 4, count as nat);
    assert(spec_parse_vorbis_comment(payload@) == match total {
        Ok(cs) => Ok((vendor@, cs)),
        Err(e) => Err(e),
    });
    while k < count
        invariant
            k <= count,
            spec_parse_vorbis_comment(payload@) == match total {
                Ok(cs) => Ok((vendor@, cs)),
                Err(e) => Err(e),
            },
            vend + 4 <= pos <= payload.len(),
            total == spec_parse_comments(payload@, vend + 4, count as nat),
            total == match spec_parse_comments(payload@, pos as int, (count - k) as nat) {
                Ok(rest) => Ok(comments@.map_values(|c: Vec<u8>| c@) + rest),
                Err(e) => Err(e),
            },
        decreases count - k,
    {
        if payload.len() - pos < 4 {
            return Err(CommentError::Truncated);
        }
        let clen = read_le32(payload, pos) as usize;
        if payload.len() - pos - 4 < clen {
            return Err(CommentError::CommentTruncated);
        }
        let end = pos + 4 + clen;
        let c = copy_range(payload, pos + 4, end);
        if !is_valid_utf8(c.as_slice()) {
            return Err(CommentError::CommentNotUtf8);
        }
        let ghost before = comments@.map_values(|c: Vec<u8>| c@);
        let ghost cv = c@;
        comments.push(c);
        assert(comments@.map_values(|c: Vec<u8>| c@) =~= before.push(cv));
        proof {
            match spec_parse_comments(payload@, end as int, (count - k - 1) as nat) {
                Ok(rest) => {
                    assert(before + (seq![cv] + rest) =~= before.push(cv) + rest);
                },
                Err(_) => {},
            }
        }
        pos = end;
        k = k + 1;
    }
    assert(comments@.map_values(|c: Vec<u8>| c@) + Seq::<Seq<u8>>::empty() =~= comments@.map_values(
        |c: Vec<u8>| c@,
    ));
    Ok((vendor, comments))
}

/// Appends the 4 little-endian bytes of `n`.
fn push_le32(out: &mut Vec<u8>, n: u32)
    ensures
        final(out)@ == old(out)@ + le32_bytes(n),
{
    out.push((n % 256) as u8);
    out.push(((n / 256) % 256) as u8);
    out.push(((n / 65536) % 256) as u8);
    out.push((n / 16777216) as u8);
    assert(final(out)@ =~= old(out)@ + le32_bytes(n));
}

/// Appends `b`.
pub fn push_all(out: &mut Vec<u8>, b: &[u8])
    ensures
        final(out)@ == old(out)@ + b@,
{
    let mut i: usize = 0;
    while i < b.len()
        invariant
            i <= b.len(),
            out@ == old(out)@ + b@.take(i as int),
        decreases b.len() - i,
    {
        out.push(b[i]);
        i = i + 1;
        assert(out@ =~= old(out)@ + b@.take(i as int));
    }
    assert(b@.take(b.len() as int) =~= b@);
}

/// Writes the VORBIS_COMMENT payload for `vendor` and `comments`.
pub fn build_vorbis_comment(vendor: &[u8], comments: &Vec<Vec<u8>>) -> (r: Vec<u8>)
    ensures
        r@ == vorbis_comment_bytes(vendor@, comments@.map_values(|c: Vec<u8>| c@)),
{
    let ghost cs = comments@.map_values(|c: Vec<u8>| c@);
    let mut out: Vec<u8> = Vec::new();
    push_le32(&mut out, vendor.len() as u32);
    push_all(&mut out, vendor);
    push_le32(&mut out, comments.len() as u32);
    let ghost head = out@;
    let mut i: usize = 0;
    assert(cs.skip(0) =~= cs);
    while i < comments.len()
        invariant
            i <= comments.len(),
            cs == comments@.map_values(|c: Vec<u8>| c@),
            out@ + comments_bytes(cs.skip(i as int)) == head + comments_bytes(cs),
        decreases comments.len() - i,
    {
        let c = &comments[i];
        let ghost before = out@;
        push_le32(&mut out, c.len() as u32);
        push_all(&mut out, c.as_slice());
        proof {
            let rest = cs.skip(i as int);
            assert(rest[0] == c@);
            assert(rest.drop_first() =~= cs.skip(i + 1));
            assert(out@ + comments_bytes(cs.skip(i + 1)) =~= before + comments_bytes(rest));
        }
        i = i + 1;
    }
    assert(cs.skip(comments.len() as int) =~= Seq::<Seq<u8>>::empty());
    assert(cs.skip(0) =~= cs);
    assert(out@ =~= out@ + comments_bytes(cs.skip(comments.len() as int)));
    out
}

} // verus!
