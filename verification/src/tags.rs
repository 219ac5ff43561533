//! Rewriting the Vorbis comments of a FLAC file.
//!
//! After a cut the numeric RF tags (`RF_TOTAL_SAMPLES`, `RF_SAMPLE_RATE`,
//! `RF_SAMPLE_RATE_KHZ`, `DURATION_SECONDS`, `LENGTH`) are rewritten from
//! the output's own STREAMINFO; every other comment is kept. The new
//! VORBIS_COMMENT block is written in place when it fits the byte region of
//! the old one (growing into an adjacent PADDING block, or trimming the
//! vendor string, or leaving a PADDING block for the slack); otherwise the
//! whole metadata is rebuilt with 4096 bytes of padding after the comments.

use vstd::prelude::*;
use vstd::utf8::{valid_utf8, is_char_boundary, valid_utf8_split, valid_utf8_concat};
use crate::chain::{
    BlockView, ChainError, MetaBlock, MAX_BLOCK_LEN, BLOCK_PADDING, BLOCK_VORBIS_COMMENT,
    block_bytes, block_header, blocks_view, spec_metadata_chain, parse_metadata_chain,
};
use crate::comment::{
    CommentError, copy_range, push_all, vorbis_comment_bytes, spec_parse_vorbis_comment,
    parse_vorbis_comment, build_vorbis_comment,
};
use crate::text::{is_char_boundary_bytes, u64_to_decimal, decimal};
use crate::probe::{read_stream_info, flac_stream_info, StreamInfo};
use vstd::string::StringSliceAdditionalSpecFns;
use crate::chain::{
    blocks_bytes, blocks_bytes_open, chain_bytes, blocks_writable, flac_marker,
    lemma_blocks_bytes_cons, lemma_blocks_bytes_concat, lemma_chain_round_trip,
    lemma_blocks_from_is_bytes,
};
use crate::comment::{
    lemma_vorbis_comment_round_trip, lemma_parsed_vorbis_comment_valid,
    lemma_small_payload_writable,
};

verus! {

/// One tag to set or drop: every comment named `key` is dropped, and
/// `key=value` is added when there is a value.
#[derive(Clone, Debug)]
pub struct TagUpdate {
    pub key: Vec<u8>,
    pub value: Option<Vec<u8>>,
}

/// An update as the contracts see it: the key, and the value to write, if
/// any.
pub type UpdateView = (Seq<u8>, Option<Seq<u8>>);

impl View for TagUpdate {
    type V = UpdateView;

    open spec fn view(&self) -> UpdateView {
        (
            self.key@,
            match self.value {
                Some(v) => Some(v@),
                None => None,
            },
        )
    }
}

pub open spec fn updates_view(ups: Seq<TagUpdate>) -> Seq<UpdateView> {
    ups.map_values(|u: TagUpdate| u@)
}

pub open spec fn comments_view(cs: Seq<Vec<u8>>) -> Seq<Seq<u8>> {
    cs.map_values(|c: Vec<u8>| c@)
}

/// `c` is a comment named `key`: it starts with `key=`.
pub open spec fn has_key(c: Seq<u8>, key: Seq<u8>) -> bool {
    c.len() > key.len() && c.take(key.len() as int) == key && c[key.len() as int] == 0x3D
}

/// No update names the comment `c`.
pub open spec fn kept_by(ups: Seq<UpdateView>) -> spec_fn(Seq<u8>) -> bool {
    |c: Seq<u8>| forall|i: int| 0 <= i < ups.len() ==> !has_key(c, #[trigger] ups[i].0)
}

/// The comment `key=value` of an update that has a value.
pub open spec fn tag_comment(u: UpdateView) -> Seq<u8> {
    u.0 + seq![0x3Du8] + u.1->0
}

/// `key=value` for each update that has a value, in order.
#[verifier::opaque]
pub open spec fn tag_comments(ups: Seq<UpdateView>) -> Seq<Seq<u8>>
    decreases ups.len(),
{
    if ups.len() == 0 {
        Seq::empty()
    } else {
        tag_comments(ups.drop_last()) + if ups.last().1 is Some {
            seq![tag_comment(ups.last())]
        } else {
            Seq::empty()
        }
    }
}

/// The comments after the updates: every comment named by an update is
/// dropped, the others keep their order, and `key=value` for each update
/// with a value follows in the order of the updates.
pub open spec fn updated_comments(cs: Seq<Seq<u8>>, ups: Seq<UpdateView>) -> Seq<Seq<u8>> {
    cs.filter(kept_by(ups)) + tag_comments(ups)
}

/// Whether `c` starts with `key=`.
fn comment_has_key(c: &[u8], key: &[u8]) -> (r: bool)
    ensures
        r == has_key(c@, key@),
{
    if c.len() <= key.len() {
        return false;
    }
    let mut i: usize = 0;
    while i < key.len()
        invariant
            key.len() < c.len(),
            i <= key.len(),
            forall|j: int| 0 <= j < i ==> c@[j] == key@[j],
        decreases key.len() - i,
    {
        if c[i] != key[i] {
            assert(c@.take(key.len() as int)[i as int] != key@[i as int]);
            return false;
        }
        i = i + 1;
    }
    assert(c@.take(key.len() as int) =~= key@);
    c[key.len()] == 0x3D
}

/// Whether no update names `c`.
fn kept(c: &[u8], updates: &[TagUpdate]) -> (r: bool)
    ensures
        r == kept_by(updates_view(updates@))(c@),
{
    let ghost ups = updates_view(updates@);
    let mut i: usize = 0;
    while i < updates.len()
        invariant
            ups == updates_view(updates@),
            i <= updates.len(),
            forall|j: int| 0 <= j < i ==> !has_key(c@, #[trigger] ups[j].0),
        decreases updates.len() - i,
    {
        if comment_has_key(c, updates[i].key.as_slice()) {
            assert(ups[i as int].0 == updates@[i as int].key@);
            return false;
        }
        i = i + 1;
    }
    true
}

/// The comment `key=value` for one update.
fn make_tag_comment(u: &TagUpdate) -> (r: Vec<u8>)
    ensures
        u@.1 is Some ==> r@ == tag_comment(u@),
{
    let mut out: Vec<u8> = Vec::new();
    push_all(&mut out, u.key.as_slice());
    out.push(0x3D);
    match &u.value {
        Some(v) => push_all(&mut out, v.as_slice()),
        None => {},
    }
    assert(u@.1 is Some ==> out@ =~= tag_comment(u@));
    out
}

/// Applies `updates` to a comment list (see [`updated_comments`]).
pub fn apply_tag_updates(comments: &Vec<Vec<u8>>, updates: &[TagUpdate]) -> (r: Vec<Vec<u8>>)
    ensures
        comments_view(r@) == updated_comments(comments_view(comments@), updates_view(updates@)),
{
    let ghost cs = comments_view(comments@);
    let ghost ups = updates_view(updates@);
    let mut out: Vec<Vec<u8>> = Vec::new();
    let mut i: usize = 0;
    while i < comments.len()
        invariant
            cs == comments_view(comments@),
            ups == updates_view(updates@),
            i <= comments.len(),
            comments_view(out@) == cs.take(i as int).filter(kept_by(ups)),
        decreases comments.len() - i,
    {
        let ghost before = comments_view(out@);
        proof {
            reveal(Seq::filter);
            assert(cs.take(i + 1).drop_last() =~= cs.take(i as int));
            assert(cs.take(i + 1).last() == cs[i as int]);
        }
        if kept(comments[i].as_slice(), updates) {
            out.push(copy_range(comments[i].as_slice(), 0, comments[i].len()));
            assert(comments[i as int]@.subrange(0, comments[i as int]@.len() as int) =~= comments[i as int]@);
            assert(comments_view(out@) =~= before.push(cs[i as int]));
        } else {
            assert(comments_view(out@) =~= before);
        }
        i = i + 1;
    }
    assert(cs.take(comments.len() as int) =~= cs);
    let ghost kept_part = comments_view(out@);
    proof {
        reveal(tag_comments);
        assert(ups.take(0) =~= Seq::<UpdateView>::empty());
        assert(kept_part + tag_comments(ups.take(0)) =~= kept_part);
    }
    let mut j: usize = 0;
    while j < updates.len()
        invariant
            ups == updates_view(updates@),
            j <= updates.len(),
            comments_view(out@) == kept_part + tag_comments(ups.take(j as int)),
        decreases updates.len() - j,
    {
        let ghost before = comments_view(out@);
        proof {
            reveal(tag_comments);
        }
        assert(ups[j as int] == updates@[j as int]@);
        assert(ups.take(j + 1).drop_last() =~= ups.take(j as int));
        assert(ups.take(j + 1).last() == ups[j as int]);
        if updates[j].value.is_some() {
            let c = make_tag_comment(&updates[j]);
            let ghost cv = c@;
            out.push(c);
            assert(comments_view(out@) =~= before.push(cv));
            assert(tag_comments(ups.take(j + 1)) =~= tag_comments(ups.take(j as int)).push(
                tag_comment(ups[j as int]),
            ));
        } else {
            assert(tag_comments(ups.take(j + 1)) =~= tag_comments(ups.take(j as int)));
        }
        assert(comments_view(out@) =~= kept_part + tag_comments(ups.take(j + 1)));
        j = j + 1;
    }
    assert(ups.take(updates.len() as int) =~= ups);
    assert(ups.take(0) =~= Seq::<UpdateView>::empty());
    proof {
        reveal(tag_comments);
    }
    out
}

/// `n` zero bytes.
pub open spec fn zeros(n: nat) -> Seq<u8> {
    Seq::new(n, |i: int| 0u8)
}

/// How many bytes the vendor string must lose for the new comment block to
/// fit: the growth of the payload beyond the adjacent padding (or beyond
/// nothing when no padding follows).
pub open spec fn trim_shortfall(new_len: int, old_len: int, pad: Option<nat>) -> int {
    let delta = new_len - old_len;
    let over = match pad {
        Some(p) => delta - p,
        None => delta,
    };
    if over > 0 {
        over
    } else {
        0
    }
}

/// The bytes that replace the old VORBIS_COMMENT block (and the PADDING
/// block after it, if any) for a given vendor string, or `None` when they
/// cannot cover exactly the old region. With padding after the comments the
/// padding absorbs the change; without, the new block must have the old
/// size, or leave room for a PADDING header (4 bytes) in the slack.
pub open spec fn region_with_vendor(
    vendor: Seq<u8>,
    cs: Seq<Seq<u8>>,
    old_len: nat,
    pad: Option<nat>,
    pad_is_last: bool,
) -> Option<Seq<u8>> {
    let payload = vorbis_comment_bytes(vendor, cs);
    if payload.len() > MAX_BLOCK_LEN {
        None
    } else if region_fits(payload.len(), old_len, pad) {
        Some(region_bytes(payload, old_len, pad, pad_is_last))
    } else {
        None
    }
}

/// A new comment payload of `new_len` bytes fits the old region.
pub open spec fn region_fits(new_len: nat, old_len: nat, pad: Option<nat>) -> bool {
    match pad {
        Some(p) => new_len <= old_len + p,
        None => new_len == old_len || new_len + 4 <= old_len,
    }
}

/// The blocks that replace the old comments block (and its padding).
pub open spec fn new_mid_blocks(payload: Seq<u8>, old_len: nat, pad: Option<nat>) -> Seq<BlockView> {
    match pad {
        Some(p) => seq![
            (BLOCK_VORBIS_COMMENT, payload),
            (BLOCK_PADDING, zeros((old_len + p - payload.len()) as nat)),
        ],
        None => if payload.len() == old_len {
            seq![(BLOCK_VORBIS_COMMENT, payload)]
        } else {
            seq![
                (BLOCK_VORBIS_COMMENT, payload),
                (BLOCK_PADDING, zeros((old_len - payload.len() - 4) as nat)),
            ]
        },
    }
}

/// Their bytes: the comments block is flagged last only when nothing
/// follows it; the padding carries the old padding's flag, or is last.
pub open spec fn region_bytes(payload: Seq<u8>, old_len: nat, pad: Option<nat>, pad_is_last: bool) -> Seq<u8> {
    let m = new_mid_blocks(payload, old_len, pad);
    if m.len() == 1 {
        block_bytes(m[0], true)
    } else {
        block_bytes(m[0], false) + block_bytes(m[1], pad is None || pad_is_last)
    }
}

/// The vendor string that the new block carries: as it is when the growth
/// fits, else trimmed by exactly the shortfall.
pub open spec fn new_vendor(vendor: Seq<u8>, cs: Seq<Seq<u8>>, old_len: nat, pad: Option<nat>) -> Seq<u8> {
    let short = trim_shortfall(vorbis_comment_bytes(vendor, cs).len() as int, old_len as int, pad);
    if short == 0 {
        vendor
    } else {
        vendor.take(vendor.len() - short)
    }
}

/// The replacement region: with the vendor string as it is when the growth
/// fits, else with the vendor trimmed by exactly the shortfall, else `None`.
pub open spec fn spec_in_place_region(
    vendor: Seq<u8>,
    cs: Seq<Seq<u8>>,
    old_len: nat,
    pad: Option<nat>,
    pad_is_last: bool,
) -> Option<Seq<u8>> {
    let short = trim_shortfall(vorbis_comment_bytes(vendor, cs).len() as int, old_len as int, pad);
    if short <= vendor.len() {
        region_with_vendor(new_vendor(vendor, cs, old_len, pad), cs, old_len, pad, pad_is_last)
    } else {
        None
    }
}

/// Trimming the vendor string would cut a character in two.
pub open spec fn trim_splits_char(
    vendor: Seq<u8>,
    cs: Seq<Seq<u8>>,
    old_len: nat,
    pad: Option<nat>,
) -> bool {
    let short = trim_shortfall(vorbis_comment_bytes(vendor, cs).len() as int, old_len as int, pad);
    0 < short <= vendor.len() && !is_char_boundary(vendor, vendor.len() - short)
}

/// Appends a block header.
fn push_block_header(out: &mut Vec<u8>, kind: u8, len: usize, last: bool)
    requires
        kind < 128,
    ensures
        final(out)@ == old(out)@ + block_header(kind, len as nat, last),
{
    let flag: u8 = if last {
        128
    } else {
        0
    };
    out.push(kind + flag);
    out.push((len / 65536) as u8);
    out.push(((len / 256) % 256) as u8);
    out.push((len % 256) as u8);
    assert(final(out)@ =~= old(out)@ + block_header(kind, len as nat, last));
}

/// Appends `n` zero bytes.
fn push_zeros(out: &mut Vec<u8>, n: usize)
    ensures
        final(out)@ == old(out)@ + zeros(n as nat),
{
    let mut i: usize = 0;
    while i < n
        invariant
            i <= n,
            out@ == old(out)@ + zeros(i as nat),
        decreases n - i,
    {
        out.push(0);
        i = i + 1;
        assert(out@ =~= old(out)@ + zeros(i as nat));
    }
}

/// The replacement region for one vendor string (see [`region_with_vendor`]).
fn build_region(
    vendor: &[u8],
    comments: &Vec<Vec<u8>>,
    old_len: usize,
    pad: Option<usize>,
    pad_is_last: bool,
) -> (r: Option<Vec<u8>>)
    requires
        old_len <= MAX_BLOCK_LEN,
        pad matches Some(p) ==> p <= MAX_BLOCK_LEN,
    ensures
        r matches Some(v) ==> region_with_vendor(
            vendor@,
            comments_view(comments@),
            old_len as nat,
            match pad {
                Some(p) => Some(p as nat),
                None => None,
            },
            pad_is_last,
        ) == Some(v@),
        r is None ==> region_with_vendor(
            vendor@,
            comments_view(comments@),
            old_len as nat,
            match pad {
                Some(p) => Some(p as nat),
                None => None,
            },
            pad_is_last,
        ) is None,
{
    let payload = build_vorbis_comment(vendor, comments);
    let plen = payload.len();
    if plen > MAX_BLOCK_LEN {
        return None;
    }
    let mut region: Vec<u8> = Vec::new();
    let old_region_len: usize = match pad {
        Some(p) => 8 + old_len + p,
        None => 4 + old_len,
    };
    match pad {
        Some(p) => {
            if plen > old_len + p {
                return None;
            }
            let new_pad = old_len + p - plen;
            push_block_header(&mut region, BLOCK_VORBIS_COMMENT, plen, false);
            push_all(&mut region, payload.as_slice());
            push_block_header(&mut region, BLOCK_PADDING, new_pad, pad_is_last);
            push_zeros(&mut region, new_pad);
        },
        None => {
            if plen == old_len {
                push_block_header(&mut region, BLOCK_VORBIS_COMMENT, plen, true);
                push_all(&mut region, payload.as_slice());
            } else if plen + 4 <= old_len {
                let pad_len = old_len - plen - 4;
                push_block_header(&mut region, BLOCK_VORBIS_COMMENT, plen, false);
                push_all(&mut region, payload.as_slice());
                push_block_header(&mut region, BLOCK_PADDING, pad_len, true);
                push_zeros(&mut region, pad_len);
            } else {
                return None;
            }
        },
    }
    if region.len() != old_region_len {
        return None;
    }
    Some(region)
}

/// The region that replaces the old VORBIS_COMMENT block, and the PADDING
/// block after it if any, so that the metadata keeps its size: see
/// [`spec_in_place_region`]. `old_len` is the old comment payload size,
/// `pad` the size of the PADDING block right after it.
pub fn in_place_region(
    vendor: &[u8],
    comments: &Vec<Vec<u8>>,
    old_len: usize,
    pad: Option<usize>,
    pad_is_last: bool,
) -> (r: Option<Vec<u8>>)
    requires
        old_len <= MAX_BLOCK_LEN,
        pad matches Some(p) ==> p <= MAX_BLOCK_LEN,
        valid_utf8(vendor@),
        !trim_splits_char(
            vendor@,
            comments_view(comments@),
            old_len as nat,
            match pad {
                Some(p) => Some(p as nat),
                None => None,
            },
        ),
    ensures
        match spec_in_place_region(
            vendor@,
            comments_view(comments@),
            old_len as nat,
            match pad {
                Some(p) => Some(p as nat),
                None => None,
            },
            pad_is_last,
        ) {
            Some(reg) => r matches Some(v) && v@ == reg,
            None => r is None,
        },
{
    let new_len = build_vorbis_comment(vendor, comments).len();
    let over: usize = match pad {
        Some(p) => if new_len > old_len + p {
            new_len - old_len - p
        } else {
            0
        },
        None => if new_len > old_len {
            new_len - old_len
        } else {
            0
        },
    };
    if over == 0 {
        build_region(vendor, comments, old_len, pad, pad_is_last)
    } else if over <= vendor.len() {
        let cut = vendor.len() - over;
        let v = vstd::slice::slice_subrange(vendor, 0, cut);
        assert(v@ =~= vendor@.take(cut as int));
        build_region(v, comments, old_len, pad, pad_is_last)
    } else {
        None
    }
}

/// Why the comments of a file could not be rewritten.
#[derive(Debug)]
pub enum TagError {
    /// The metadata chain could not be read.
    Chain(ChainError),
    /// The VORBIS_COMMENT block could not be read.
    Comment(CommentError),
    /// The metadata ends past the end of the file.
    FramesPastEnd,
    /// No audio frame follows the metadata.
    NoFrames,
    /// The new VORBIS_COMMENT payload exceeds the 24-bit block length.
    CommentTooLarge,
    /// The STREAMINFO sample rate is 0.
    SampleRateZero,
    /// The FLAC reader refused the stream.
    StreamInfo(claxon::Error),
    /// After the rewrite the frames do not start where they should.
    FramesMoved { found: u64, expected: u64 },
    /// After the rewrite the file does not have the size it should.
    SizeChanged { found: u64, expected: u64 },
    /// After the rewrite fewer than 2 bytes follow the metadata.
    SyncUnreadable,
    /// After the rewrite no frame sync code follows the metadata.
    NoFrameSync { offset: u64, b0: u8, b1: u8 },
}

/// Index of the first block of type `kind` at or after `i`
/// (`bs.len()` when there is none).
pub open spec fn first_kind_from(bs: Seq<BlockView>, kind: u8, i: int) -> int
    decreases bs.len() - i,
{
    if i < 0 || i >= bs.len() {
        bs.len() as int
    } else if bs[i].0 == kind {
        i
    } else {
        first_kind_from(bs, kind, i + 1)
    }
}

/// Bytes that `bs` take with their headers.
pub open spec fn blocks_span(bs: Seq<BlockView>) -> nat
    decreases bs.len(),
{
    if bs.len() == 0 {
        0
    } else {
        4 + bs[0].1.len() + blocks_span(bs.drop_first())
    }
}

/// Size of the PADDING block right after block `i`, if there is one.
pub open spec fn padding_after(bs: Seq<BlockView>, i: int) -> Option<nat> {
    if i + 1 < bs.len() && bs[i + 1].0 == BLOCK_PADDING {
        Some(bs[i + 1].1.len())
    } else {
        None
    }
}

/// An equal-size rewrite: `region` replaces the bytes at `offset`.
pub struct InPlaceWrite {
    pub offset: u64,
    pub region: Vec<u8>,
}

/// The in-place rewrite of the comments of the file whose first bytes are
/// `data` (all its metadata) and whose size is `file_len`: `Ok(Some((offset,
/// region)))` to write, `Ok(None)` when the update does not fit in place or
/// there is no VORBIS_COMMENT block, an error when the metadata cannot be read
/// or no frame follows it.
#[verifier::opaque]
pub open spec fn spec_update_in_place(
    data: Seq<u8>,
    file_len: u64,
    ups: Seq<UpdateView>,
) -> Result<Option<(int, Seq<u8>)>, TagError> {
    match spec_metadata_chain(data) {
        Err(e) => Err(TagError::Chain(e)),
        Ok((bs, fs)) => if file_len < fs {
            Err(TagError::FramesPastEnd)
        } else if file_len == fs {
            Err(TagError::NoFrames)
        } else {
            let i = first_kind_from(bs, BLOCK_VORBIS_COMMENT, 0);
            if i == bs.len() {
                Ok(None)
            } else {
                match spec_parse_vorbis_comment(bs[i].1) {
                    Err(e) => Err(TagError::Comment(e)),
                    Ok((v, cs)) => {
                        let pad = padding_after(bs, i);
                        match spec_in_place_region(
                            v,
                            updated_comments(cs, ups),
                            bs[i].1.len(),
                            pad,
                            pad is Some && i + 2 == bs.len(),
                        ) {
                            None => Ok(None),
                            Some(reg) => Ok(Some((4 + blocks_span(bs.take(i)) as int, reg))),
                        }
                    },
                }
            }
        },
    }
}

/// The in-place rewrite would trim the vendor string inside a character.
#[verifier::opaque]
pub open spec fn in_place_splits_char(data: Seq<u8>, file_len: u64, ups: Seq<UpdateView>) -> bool {
    match spec_metadata_chain(data) {
        Ok((bs, fs)) => {
            let i = first_kind_from(bs, BLOCK_VORBIS_COMMENT, 0);
            &&& file_len > fs
            &&& i < bs.len()
            &&& spec_parse_vorbis_comment(bs[i].1) matches Ok((v, cs))
            &&& trim_splits_char(v, updated_comments(cs, ups), bs[i].1.len(), padding_after(bs, i))
        },
        Err(_) => false,
    }
}

proof fn lemma_blocks_bytes_len(bs: Seq<BlockView>)
    ensures
        crate::chain::blocks_bytes(bs).len() == blocks_span(bs),
    decreases bs.len(),
{
    if bs.len() > 0 {
        lemma_blocks_bytes_len(bs.drop_first());
    }
}

proof fn lemma_block_len_bound(data: Seq<u8>)
    requires
        spec_metadata_chain(data) is Ok,
    ensures
        ({
            let (bs, fs) = spec_metadata_chain(data)->Ok_0;
            &&& 4 <= fs <= data.len()
            &&& fs == 4 + blocks_span(bs)
            &&& forall|i: int| 0 <= i < bs.len() ==> (#[trigger] bs[i]).1.len() <= MAX_BLOCK_LEN
        }),
{
    crate::chain::lemma_blocks_from_is_bytes(data, 4);
    let (bs, fs) = spec_metadata_chain(data)->Ok_0;
    lemma_blocks_bytes_len(bs);
}

/// Rewrites the comments in place where they fit (see
/// [`spec_update_in_place`]); the caller writes `region` at `offset`.
pub fn update_vorbis_comment_in_place(data: &[u8], file_len: u64, updates: &[TagUpdate]) -> (r: Result<
    Option<InPlaceWrite>,
    TagError,
>)
    requires
        !in_place_splits_char(data@, file_len, updates_view(updates@)),
    ensures
        match spec_update_in_place(data@, file_len, updates_view(updates@)) {
            Ok(Some((off, reg))) => r matches Ok(Some(w)) && w.offset == off && w.region@ == reg,
            Ok(None) => r matches Ok(None),
            Err(e) => r matches Err(e2) && e2 == e,
        },
{
    proof {
        reveal(spec_update_in_place);
        reveal(in_place_splits_char);
    }
    let (blocks, frames_start) = match parse_metadata_chain(data) {
        Ok(x) => x,
        Err(e) => {
            return Err(TagError::Chain(e));
        },
    };
    let ghost bs = blocks_view(blocks@);
    proof {
        lemma_block_len_bound(data@);
    }
    if file_len < frames_start {
        return Err(TagError::FramesPastEnd);
    }
    if file_len == frames_start {
        return Err(TagError::NoFrames);
    }
    let n = blocks.len();
    let mut i: usize = 0;
    let mut off: u64 = 4;
    while i < n && blocks[i].kind != BLOCK_VORBIS_COMMENT
        invariant
            n == blocks.len(),
            bs == blocks_view(blocks@),
            i <= n,
            first_kind_from(bs, BLOCK_VORBIS_COMMENT, 0) == first_kind_from(bs, BLOCK_VORBIS_COMMENT, i as int),
            off == 4 + blocks_span(bs.take(i as int)),
            off <= frames_start,
            frames_start <= data.len(),
            4 + blocks_span(bs) == frames_start,
        decreases n - i,
    {
        proof {
            lemma_span_take(bs, i as int);
        }
        off = off + 4 + blocks[i].payload.len() as u64;
        i = i + 1;
    }
    if i == n {
        return Ok(None);
    }
    let vc = &blocks[i];
    let (vendor, comments) = match parse_vorbis_comment(vc.payload.as_slice()) {
        Ok(x) => x,
        Err(e) => {
            return Err(TagError::Comment(e));
        },
    };
    let new_comments = apply_tag_updates(&comments, updates);
    let pad: Option<usize> = if i + 1 < n && blocks[i + 1].kind == BLOCK_PADDING {
        Some(blocks[i + 1].payload.len())
    } else {
        None
    };
    let pad_is_last = pad.is_some() && i + 2 == n;
    assert(bs[i as int] == vc@);
    proof {
        if i + 1 < n {
            assert(bs[i + 1] == blocks@[i + 1]@);
        }
    }
    match in_place_region(vendor.as_slice(), &new_comments, vc.payload.len(), pad, pad_is_last) {
        Some(region) => Ok(Some(InPlaceWrite { offset: off, region: region })),
        None => Ok(None),
    }
}

proof fn lemma_span_take(bs: Seq<BlockView>, i: int)
    requires
        0 <= i < bs.len(),
    ensures
        blocks_span(bs.take(i + 1)) == blocks_span(bs.take(i)) + 4 + bs[i].1.len(),
        blocks_span(bs.take(i + 1)) <= blocks_span(bs),
    decreases i,
{
    if i == 0 {
        let t = bs.take(1);
        assert(t.drop_first() =~= Seq::<BlockView>::empty());
        assert(bs.take(0) =~= Seq::<BlockView>::empty());
        lemma_span_prefix(bs, 1);
    } else {
        lemma_span_take(bs.drop_first(), i - 1);
        assert(bs.take(i + 1).drop_first() =~= bs.drop_first().take(i));
        assert(bs.take(i).drop_first() =~= bs.drop_first().take(i - 1));
        assert(bs.take(i + 1)[0] == bs[0]);
        assert(bs.take(i)[0] == bs[0]);
        assert(bs.drop_first()[i - 1] == bs[i]);
    }
}

proof fn lemma_span_prefix(bs: Seq<BlockView>, k: int)
    requires
        0 <= k <= bs.len(),
    ensures
        blocks_span(bs.take(k)) <= blocks_span(bs),
    decreases k,
{
    if k > 0 {
        lemma_span_prefix(bs.drop_first(), k - 1);
        assert(bs.take(k).drop_first() =~= bs.drop_first().take(k - 1));
        assert(bs.take(k)[0] == bs[0]);
    }
}

proof fn lemma_first_kind(bs: Seq<BlockView>, kind: u8, i: int)
    requires
        0 <= i <= bs.len(),
    ensures
        i <= first_kind_from(bs, kind, i) <= bs.len(),
        first_kind_from(bs, kind, i) < bs.len() ==> bs[first_kind_from(bs, kind, i)].0 == kind,
    decreases bs.len() - i,
{
    if i < bs.len() && bs[i].0 != kind {
        lemma_first_kind(bs, kind, i + 1);
    }
}

proof fn lemma_open_len(bs: Seq<BlockView>)
    ensures
        blocks_bytes_open(bs).len() == blocks_span(bs),
    decreases bs.len(),
{
    if bs.len() > 0 {
        lemma_open_len(bs.drop_first());
    }
}

proof fn lemma_filter_valid(cs: Seq<Seq<u8>>, pred: spec_fn(Seq<u8>) -> bool)
    requires
        forall|k: int| 0 <= k < cs.len() ==> valid_utf8(#[trigger] cs[k]),
    ensures
        forall|k: int| 0 <= k < cs.filter(pred).len() ==> valid_utf8(#[trigger] cs.filter(pred)[k]),
    decreases cs.len(),
{
    reveal(Seq::filter);
    if cs.len() > 0 {
        lemma_filter_valid(cs.drop_last(), pred);
        let sub = cs.drop_last().filter(pred);
        assert forall|k: int| 0 <= k < cs.filter(pred).len() implies valid_utf8(
            #[trigger] cs.filter(pred)[k],
        ) by {
            if k < sub.len() {
                assert(cs.filter(pred)[k] == sub[k]);
            } else {
                assert(cs.filter(pred)[k] == cs.last());
            }
        }
    }
}

/// Every key and value of the updates is UTF-8.
pub open spec fn updates_are_text(ups: Seq<UpdateView>) -> bool {
    forall|k: int|
        0 <= k < ups.len() ==> valid_utf8((#[trigger] ups[k]).0) && (ups[k].1 matches Some(v) ==> valid_utf8(v))
}

proof fn lemma_tag_comments_valid(ups: Seq<UpdateView>)
    requires
        updates_are_text(ups),
    ensures
        forall|k: int| 0 <= k < tag_comments(ups).len() ==> valid_utf8(#[trigger] tag_comments(ups)[k]),
    decreases ups.len(),
{
    reveal(tag_comments);
    if ups.len() > 0 {
        let init = ups.drop_last();
        assert forall|k: int| 0 <= k < init.len() implies valid_utf8((#[trigger] init[k]).0) && (init[k].1 matches Some(
            v,
        ) ==> valid_utf8(v)) by {
            assert(init[k] == ups[k]);
        }
        lemma_tag_comments_valid(init);
        let u = ups.last();
        assert(u == ups[ups.len() - 1]);
        let eq = seq![0x3Du8];
        crate::text::lemma_ascii_valid_utf8(eq);
        if u.1 is Some {
            valid_utf8_concat(u.0, eq);
            valid_utf8_concat(u.0 + eq, u.1->0);
        }
        let t = tag_comments(ups);
        assert forall|k: int| 0 <= k < t.len() implies valid_utf8(#[trigger] t[k]) by {
            if k < tag_comments(init).len() {
                assert(t[k] == tag_comments(init)[k]);
            } else {
                assert(t[k] == tag_comment(u));
            }
        }
    }
}

proof fn lemma_updated_valid(cs: Seq<Seq<u8>>, ups: Seq<UpdateView>)
    requires
        forall|k: int| 0 <= k < cs.len() ==> valid_utf8(#[trigger] cs[k]),
        updates_are_text(ups),
    ensures
        forall|k: int|
            0 <= k < updated_comments(cs, ups).len() ==> valid_utf8(
                #[trigger] updated_comments(cs, ups)[k],
            ),
{
    lemma_filter_valid(cs, kept_by(ups));
    lemma_tag_comments_valid(ups);
    let kept = cs.filter(kept_by(ups));
    let tags = tag_comments(ups);
    assert forall|k: int| 0 <= k < updated_comments(cs, ups).len() implies valid_utf8(
        #[trigger] updated_comments(cs, ups)[k],
    ) by {
        if k < kept.len() {
            assert(updated_comments(cs, ups)[k] == kept[k]);
        } else {
            assert(updated_comments(cs, ups)[k] == tags[k - kept.len()]);
        }
    }
}

/// The in-place rewrite keeps the block chain: the comments block is the
/// last block or has a PADDING block after it, and the PADDING left after
/// the new comments fits a block length.
#[verifier::opaque]
pub open spec fn in_place_keeps_chain(data: Seq<u8>, ups: Seq<UpdateView>) -> bool {
    match spec_metadata_chain(data) {
        Ok((bs, fs)) => {
            let i = first_kind_from(bs, BLOCK_VORBIS_COMMENT, 0);
            &&& i < bs.len()
            &&& spec_parse_vorbis_comment(bs[i].1) is Ok
            &&& (padding_after(bs, i) is Some || i + 1 == bs.len())
            &&& (padding_after(bs, i) matches Some(p) ==> {
                let (v, cs) = spec_parse_vorbis_comment(bs[i].1)->Ok_0;
                let cs2 = updated_comments(cs, ups);
                let nv = new_vendor(v, cs2, bs[i].1.len(), padding_after(bs, i));
                bs[i].1.len() + p - vorbis_comment_bytes(nv, cs2).len() <= MAX_BLOCK_LEN
            })
        },
        Err(_) => false,
    }
}

/// The file after the in-place write: `region` replaces the bytes at
/// `offset`.
pub open spec fn patched(data: Seq<u8>, offset: int, region: Seq<u8>) -> Seq<u8> {
    data.take(offset) + region + data.skip(offset + region.len())
}

/// One or two blocks followed by others: the blocks' bytes, the last of
/// them flagged only when nothing follows.
pub open spec fn mid_bytes(mid: Seq<BlockView>, tail_empty: bool) -> Seq<u8> {
    if mid.len() == 1 {
        block_bytes(mid[0], tail_empty)
    } else {
        block_bytes(mid[0], false) + block_bytes(mid[1], tail_empty)
    }
}

proof fn lemma_mid_then_rest(mid: Seq<BlockView>, q: Seq<BlockView>)
    requires
        mid.len() == 1 || mid.len() == 2,
    ensures
        blocks_bytes(mid + q) == mid_bytes(mid, q.len() == 0) + blocks_bytes(q),
{
    lemma_blocks_bytes_cons(mid[0], mid.drop_first() + q);
    assert(mid + q =~= seq![mid[0]] + (mid.drop_first() + q));
    if mid.len() == 1 {
        assert(mid.drop_first() + q =~= q);
    } else {
        lemma_blocks_bytes_cons(mid[1], q);
        assert(mid.drop_first() + q =~= seq![mid[1]] + q);
    }
}

/// The comments block that the rewrite writes reads back as the new vendor
/// string (a prefix of the old one) and the updated comments.
#[verifier::spinoff_prover]
proof fn lemma_new_comment_block(
    old_payload: Seq<u8>,
    ups: Seq<UpdateView>,
    old_len: nat,
    pad: Option<nat>,
)
    requires
        spec_parse_vorbis_comment(old_payload) is Ok,
        updates_are_text(ups),
        ({
            let (v, cs) = spec_parse_vorbis_comment(old_payload)->Ok_0;
            let cs2 = updated_comments(cs, ups);
            &&& trim_shortfall(vorbis_comment_bytes(v, cs2).len() as int, old_len as int, pad) <= v.len()
            &&& !trim_splits_char(v, cs2, old_len, pad)
            &&& vorbis_comment_bytes(new_vendor(v, cs2, old_len, pad), cs2).len() <= MAX_BLOCK_LEN
        }),
    ensures
        ({
            let (v, cs) = spec_parse_vorbis_comment(old_payload)->Ok_0;
            let cs2 = updated_comments(cs, ups);
            let nv = new_vendor(v, cs2, old_len, pad);
            &&& spec_parse_vorbis_comment(vorbis_comment_bytes(nv, cs2)) == Ok::<_, CommentError>(
                (nv, cs2),
            )
            &&& v.take(nv.len() as int) == nv
        }),
{
    lemma_parsed_vorbis_comment_valid(old_payload);
    let (v, cs) = spec_parse_vorbis_comment(old_payload)->Ok_0;
    let cs2 = updated_comments(cs, ups);
    lemma_updated_valid(cs, ups);
    let nv = new_vendor(v, cs2, old_len, pad);
    let short = trim_shortfall(vorbis_comment_bytes(v, cs2).len() as int, old_len as int, pad);
    if short != 0 {
        valid_utf8_split(v, v.len() - short);
        assert(v.subrange(0, v.len() - short) =~= nv);
    }
    lemma_small_payload_writable(nv, cs2);
    lemma_vorbis_comment_round_trip(nv, cs2);
    assert(v.take(nv.len() as int) =~= nv);
}

/// The blocks `bs` split around block `i` and the `k` blocks from it.
proof fn lemma_split_blocks(bs: Seq<BlockView>, i: int, k: int)
    requires
        0 <= i,
        0 <= k,
        i + k <= bs.len(),
    ensures
        bs == bs.take(i) + (bs.subrange(i, i + k) + bs.skip(i + k)),
{
    assert(bs =~= bs.take(i) + (bs.subrange(i, i + k) + bs.skip(i + k)));
}

/// The chain after replacing the comments block at `i` (and the padding
/// after it, when `pad` is its size) by `new_mid_blocks`.
pub open spec fn chain_after_rewrite(bs: Seq<BlockView>, i: int, payload: Seq<u8>, pad: Option<nat>) -> Seq<BlockView> {
    let k_old: int = if pad is Some {
        2
    } else {
        1
    };
    bs.take(i) + (new_mid_blocks(payload, bs[i].1.len(), pad) + bs.skip(i + k_old))
}

/// Replacing the middle part of `a + x + b` by `y` of the same length.
proof fn lemma_patch_middle(data: Seq<u8>, a: Seq<u8>, x: Seq<u8>, y: Seq<u8>, b: Seq<u8>)
    requires
        data == a + x + b,
        x.len() == y.len(),
    ensures
        patched(data, a.len() as int, y) == a + y + b,
        (a + y + b).len() == data.len(),
{
    assert(data.take(a.len() as int) =~= a);
    assert(data.skip(a.len() + y.len() as int) =~= b);
}

/// Metadata bytes followed by the rest of the file.
proof fn lemma_data_split(data: Seq<u8>, fs: int, meta: Seq<u8>)
    requires
        4 <= fs <= data.len(),
        data.take(4) == flac_marker(),
        data.subrange(4, fs) == meta,
    ensures
        data == flac_marker() + meta + data.skip(fs),
{
    assert(data =~= data.take(4) + data.subrange(4, fs) + data.skip(fs));
}

proof fn lemma_rewrite_writable(bs: Seq<BlockView>, i: int, payload: Seq<u8>, pad: Option<nat>)
    requires
        blocks_writable(bs),
        0 <= i < bs.len(),
        pad is Some ==> i + 1 < bs.len(),
        payload.len() <= MAX_BLOCK_LEN,
        region_fits(payload.len(), bs[i].1.len(), pad),
        pad matches Some(p) ==> bs[i].1.len() + p - payload.len() <= MAX_BLOCK_LEN,
        bs[i].1.len() <= MAX_BLOCK_LEN,
    ensures
        blocks_writable(chain_after_rewrite(bs, i, payload, pad)),
{
    let k_old: int = if pad is Some {
        2
    } else {
        1
    };
    let new_mid = new_mid_blocks(payload, bs[i].1.len(), pad);
    let bs2 = chain_after_rewrite(bs, i, payload, pad);
    assert forall|j: int| 0 <= j < bs2.len() implies (#[trigger] bs2[j]).0 < 128 && bs2[j].1.len()
        <= MAX_BLOCK_LEN by {
        if j < i {
            assert(bs2[j] == bs[j]);
        } else if j >= i + new_mid.len() {
            assert(bs2[j] == bs[j - new_mid.len() + k_old]);
        }
    }
}

/// Block-level core of the in-place law: the old and the new metadata
/// around the rewritten blocks.
#[verifier::spinoff_prover]
proof fn lemma_in_place_blocks(bs: Seq<BlockView>, i: int, payload: Seq<u8>, pad: Option<nat>)
    requires
        0 <= i < bs.len(),
        pad == padding_after(bs, i),
        pad is Some || i + 1 == bs.len(),
        region_fits(payload.len(), bs[i].1.len(), pad),
    ensures
        ({
            let k_old: int = if pad is Some {
                2
            } else {
                1
            };
            let q = bs.skip(i + k_old);
            let open_p = blocks_bytes_open(bs.take(i));
            let reg = region_bytes(payload, bs[i].1.len(), pad, pad is Some && i + 2 == bs.len());
            let old_reg = mid_bytes(bs.subrange(i, i + k_old), q.len() == 0);
            &&& old_reg.len() == reg.len()
            &&& blocks_bytes(bs) == open_p + old_reg + blocks_bytes(q)
            &&& blocks_bytes(chain_after_rewrite(bs, i, payload, pad)) == open_p + reg + blocks_bytes(q)
            &&& open_p.len() == blocks_span(bs.take(i))
        }),
{
    let old_len = bs[i].1.len();
    let k_old: int = if pad is Some {
        2
    } else {
        1
    };
    let p_blocks = bs.take(i);
    let q = bs.skip(i + k_old);
    let old_mid = bs.subrange(i, i + k_old);
    lemma_split_blocks(bs, i, k_old);
    let new_mid = new_mid_blocks(payload, old_len, pad);
    lemma_mid_then_rest(old_mid, q);
    lemma_mid_then_rest(new_mid, q);
    lemma_blocks_bytes_concat(p_blocks, old_mid + q);
    lemma_blocks_bytes_concat(p_blocks, new_mid + q);
    lemma_open_len(p_blocks);
    if pad is Some {
        assert(old_mid[1] == bs[i + 1]);
    }
}

/// The pieces of a successful in-place plan.
proof fn lemma_unpack_in_place(data: Seq<u8>, file_len: u64, ups: Seq<UpdateView>)
    requires
        spec_update_in_place(data, file_len, ups) matches Ok(Some(_)),
        in_place_keeps_chain(data, ups),
    ensures
        ({
            let (off, reg) = spec_update_in_place(data, file_len, ups)->Ok_0->0;
            let (bs, fs) = spec_metadata_chain(data)->Ok_0;
            let i = first_kind_from(bs, BLOCK_VORBIS_COMMENT, 0);
            let (v, cs) = spec_parse_vorbis_comment(bs[i].1)->Ok_0;
            let cs2 = updated_comments(cs, ups);
            let pad = padding_after(bs, i);
            let nv = new_vendor(v, cs2, bs[i].1.len(), pad);
            let payload = vorbis_comment_bytes(nv, cs2);
            &&& 4 <= fs <= data.len()
            &&& fs < file_len
            &&& spec_parse_vorbis_comment(bs[i].1) is Ok
            &&& data.take(4) == flac_marker()
            &&& data.subrange(4, fs) == blocks_bytes(bs)
            &&& blocks_writable(bs)
            &&& 0 <= i < bs.len()
            &&& bs[i].0 == BLOCK_VORBIS_COMMENT
            &&& (pad is Some || i + 1 == bs.len())
            &&& payload.len() <= MAX_BLOCK_LEN
            &&& region_fits(payload.len(), bs[i].1.len(), pad)
            &&& (pad matches Some(p) ==> bs[i].1.len() + p - payload.len() <= MAX_BLOCK_LEN)
            &&& reg == region_bytes(payload, bs[i].1.len(), pad, pad is Some && i + 2 == bs.len())
            &&& off == 4 + blocks_span(bs.take(i))
            &&& trim_shortfall(vorbis_comment_bytes(v, cs2).len() as int, bs[i].1.len() as int, pad) <= v.len()
        }),
{
    reveal(spec_update_in_place);
    reveal(in_place_keeps_chain);
    lemma_blocks_from_is_bytes(data, 4);
    let (bs, fs) = spec_metadata_chain(data)->Ok_0;
    lemma_first_kind(bs, BLOCK_VORBIS_COMMENT, 0);
}

/// The new comment payload of a successful in-place plan.
pub open spec fn in_place_payload(data: Seq<u8>, ups: Seq<UpdateView>) -> Seq<u8> {
    let (bs, fs) = spec_metadata_chain(data)->Ok_0;
    let i = first_kind_from(bs, BLOCK_VORBIS_COMMENT, 0);
    let (v, cs) = spec_parse_vorbis_comment(bs[i].1)->Ok_0;
    let cs2 = updated_comments(cs, ups);
    vorbis_comment_bytes(new_vendor(v, cs2, bs[i].1.len(), padding_after(bs, i)), cs2)
}

#[verifier::spinoff_prover]
#[verifier::rlimit(100)]
proof fn lemma_in_place_chain(data: Seq<u8>, file_len: u64, ups: Seq<UpdateView>)
    requires
        spec_update_in_place(data, file_len, ups) matches Ok(Some(_)),
        in_place_keeps_chain(data, ups),
    ensures
        ({
            let (off, reg) = spec_update_in_place(data, file_len, ups)->Ok_0->0;
            let new_data = patched(data, off, reg);
            let (bs, fs) = spec_metadata_chain(data)->Ok_0;
            let i = first_kind_from(bs, BLOCK_VORBIS_COMMENT, 0);
            let bs2 = chain_after_rewrite(bs, i, in_place_payload(data, ups), padding_after(bs, i));
            &&& new_data.len() == data.len()
            &&& new_data.skip(fs) == data.skip(fs)
            &&& spec_metadata_chain(new_data) == Ok::<_, ChainError>((bs2, fs))
        }),
{
    lemma_unpack_in_place(data, file_len, ups);
    let (off, reg) = spec_update_in_place(data, file_len, ups)->Ok_0->0;
    let (bs, fs) = spec_metadata_chain(data)->Ok_0;
    let i = first_kind_from(bs, BLOCK_VORBIS_COMMENT, 0);
    let pad = padding_after(bs, i);
    let payload = in_place_payload(data, ups);
    let k_old: int = if pad is Some {
        2
    } else {
        1
    };
    let q = bs.skip(i + k_old);
    let open_p = blocks_bytes_open(bs.take(i));
    let old_reg = mid_bytes(bs.subrange(i, i + k_old), q.len() == 0);
    let frames = data.skip(fs);
    lemma_in_place_blocks(bs, i, payload, pad);
    lemma_data_split(data, fs, blocks_bytes(bs));
    assert(data == (flac_marker() + open_p) + old_reg + (blocks_bytes(q) + frames)) by {
        assert(flac_marker() + (open_p + old_reg + blocks_bytes(q)) + frames =~= (flac_marker()
            + open_p) + old_reg + (blocks_bytes(q) + frames));
    }
    lemma_patch_middle(data, flac_marker() + open_p, old_reg, reg, blocks_bytes(q) + frames);
    let bs2 = chain_after_rewrite(bs, i, payload, pad);
    let new_data = patched(data, off, reg);
    assert(new_data == chain_bytes(bs2) + frames) by {
        assert((flac_marker() + open_p) + reg + (blocks_bytes(q) + frames) =~= flac_marker() + (
        open_p + reg + blocks_bytes(q)) + frames);
    }
    lemma_rewrite_writable(bs, i, payload, pad);
    lemma_chain_round_trip(bs2, frames);
    assert(new_data.skip(fs) =~= frames);
}

#[verifier::spinoff_prover]
#[verifier::rlimit(100)]
proof fn lemma_in_place_comment(data: Seq<u8>, file_len: u64, ups: Seq<UpdateView>)
    requires
        spec_update_in_place(data, file_len, ups) matches Ok(Some(_)),
        !in_place_splits_char(data, file_len, ups),
        in_place_keeps_chain(data, ups),
        updates_are_text(ups),
    ensures
        ({
            let (bs, fs) = spec_metadata_chain(data)->Ok_0;
            let i = first_kind_from(bs, BLOCK_VORBIS_COMMENT, 0);
            let (v, cs) = spec_parse_vorbis_comment(bs[i].1)->Ok_0;
            let cs2 = updated_comments(cs, ups);
            let nv = new_vendor(v, cs2, bs[i].1.len(), padding_after(bs, i));
            &&& in_place_payload(data, ups) == vorbis_comment_bytes(nv, cs2)
            &&& spec_parse_vorbis_comment(in_place_payload(data, ups)) == Ok::<_, CommentError>(
                (nv, cs2),
            )
            &&& v.take(nv.len() as int) == nv
        }),
{
    lemma_unpack_comment(data, file_len, ups);
    let (bs, fs) = spec_metadata_chain(data)->Ok_0;
    let i = first_kind_from(bs, BLOCK_VORBIS_COMMENT, 0);
    let pad = padding_after(bs, i);
    lemma_no_split(data, file_len, ups);
    lemma_new_comment_block(bs[i].1, ups, bs[i].1.len(), pad);
}

/// The comment-level pieces of a successful in-place plan.
proof fn lemma_unpack_comment(data: Seq<u8>, file_len: u64, ups: Seq<UpdateView>)
    requires
        spec_update_in_place(data, file_len, ups) matches Ok(Some(_)),
    ensures
        spec_metadata_chain(data) is Ok,
        ({
            let (bs, fs) = spec_metadata_chain(data)->Ok_0;
            let i = first_kind_from(bs, BLOCK_VORBIS_COMMENT, 0);
            let (v, cs) = spec_parse_vorbis_comment(bs[i].1)->Ok_0;
            let cs2 = updated_comments(cs, ups);
            let pad = padding_after(bs, i);
            &&& fs < file_len
            &&& i < bs.len()
            &&& spec_parse_vorbis_comment(bs[i].1) is Ok
            &&& trim_shortfall(vorbis_comment_bytes(v, cs2).len() as int, bs[i].1.len() as int, pad) <= v.len()
            &&& vorbis_comment_bytes(new_vendor(v, cs2, bs[i].1.len(), pad), cs2).len() <= MAX_BLOCK_LEN
        }),
{
    reveal(spec_update_in_place);
    let (bs, fs) = spec_metadata_chain(data)->Ok_0;
    lemma_first_kind(bs, BLOCK_VORBIS_COMMENT, 0);
}

proof fn lemma_no_split(data: Seq<u8>, file_len: u64, ups: Seq<UpdateView>)
    requires
        spec_metadata_chain(data) is Ok,
        ({
            let (bs, fs) = spec_metadata_chain(data)->Ok_0;
            let i = first_kind_from(bs, BLOCK_VORBIS_COMMENT, 0);
            &&& fs < file_len
            &&& i < bs.len()
            &&& spec_parse_vorbis_comment(bs[i].1) is Ok
        }),
        !in_place_splits_char(data, file_len, ups),
    ensures
        ({
            let (bs, fs) = spec_metadata_chain(data)->Ok_0;
            let i = first_kind_from(bs, BLOCK_VORBIS_COMMENT, 0);
            let (v, cs) = spec_parse_vorbis_comment(bs[i].1)->Ok_0;
            !trim_splits_char(v, updated_comments(cs, ups), bs[i].1.len(), padding_after(bs, i))
        }),
{
    reveal(in_place_splits_char);
}

proof fn lemma_rewrite_shape(bs: Seq<BlockView>, i: int, payload: Seq<u8>, pad: Option<nat>)
    requires
        0 <= i < bs.len(),
        pad is Some ==> i + 1 < bs.len(),
    ensures
        ({
            let bs2 = chain_after_rewrite(bs, i, payload, pad);
            let rest = if pad is Some {
                bs.skip(i + 2)
            } else {
                bs.skip(i + 1)
            };
            &&& bs2.take(i) == bs.take(i)
            &&& bs2[i] == (BLOCK_VORBIS_COMMENT, payload)
            &&& (bs2.skip(i + 1) == rest || (bs2[i + 1].0 == BLOCK_PADDING && bs2.skip(i + 2) == rest))
        }),
{
    let k_old: int = if pad is Some {
        2
    } else {
        1
    };
    let bs2 = chain_after_rewrite(bs, i, payload, pad);
    let new_mid = new_mid_blocks(payload, bs[i].1.len(), pad);
    assert(bs2.take(i) =~= bs.take(i));
    assert(bs2.skip(i + new_mid.len()) =~= bs.skip(i + k_old));
}

/// What the in-place rewrite promises: the file keeps its size, the frames
/// stay where they were, byte for byte, the blocks before the comments are
/// untouched, the blocks after the comments (and after the PADDING block
/// that follows them, if any) are untouched, and the comments block now
/// holds the updated comments, under the vendor string or a prefix of it.
pub proof fn lemma_in_place_update(data: Seq<u8>, file_len: u64, ups: Seq<UpdateView>)
    requires
        spec_update_in_place(data, file_len, ups) matches Ok(Some(_)),
        !in_place_splits_char(data, file_len, ups),
        in_place_keeps_chain(data, ups),
        updates_are_text(ups),
    ensures
        ({
            let (off, reg) = spec_update_in_place(data, file_len, ups)->Ok_0->0;
            let new_data = patched(data, off, reg);
            let (bs, fs) = spec_metadata_chain(data)->Ok_0;
            let i = first_kind_from(bs, BLOCK_VORBIS_COMMENT, 0);
            let (v, cs) = spec_parse_vorbis_comment(bs[i].1)->Ok_0;
            let rest = if padding_after(bs, i) is Some {
                bs.skip(i + 2)
            } else {
                bs.skip(i + 1)
            };
            &&& new_data.len() == data.len()
            &&& new_data.skip(fs) == data.skip(fs)
            &&& spec_metadata_chain(new_data) matches Ok((bs2, fs2))
            &&& fs2 == fs
            &&& bs2.take(i) == bs.take(i)
            &&& bs2[i].0 == BLOCK_VORBIS_COMMENT
            &&& spec_parse_vorbis_comment(bs2[i].1) matches Ok((v2, cs2))
            &&& cs2 == updated_comments(cs, ups)
            &&& v2 == v.take(v2.len() as int)
            &&& (bs2.skip(i + 1) == rest || (bs2[i + 1].0 == BLOCK_PADDING && bs2.skip(i + 2) == rest))
        }),
{
    lemma_unpack_in_place(data, file_len, ups);
    lemma_in_place_chain(data, file_len, ups);
    lemma_in_place_comment(data, file_len, ups);
    let (bs, fs) = spec_metadata_chain(data)->Ok_0;
    let i = first_kind_from(bs, BLOCK_VORBIS_COMMENT, 0);
    lemma_rewrite_shape(bs, i, in_place_payload(data, ups), padding_after(bs, i));
}

/// Size of the PADDING block that the full rewrite leaves after the
/// comments, so that later updates fit in place.
pub const SPLICE_PADDING: usize = 4096;

/// The vendor string of a comment block that the full rewrite creates.
pub open spec fn default_vendor() -> Seq<u8> {
    seq![0x46u8, 0x4Cu8, 0x41u8, 0x43u8, 0x2Du8, 0x43u8, 0x68u8, 0x6Fu8, 0x70u8]
}

/// The blocks with the comments block replaced by `payload`, or, when there
/// is none, with one inserted after the first block; and its index.
pub open spec fn with_comment_block(bs: Seq<BlockView>, payload: Seq<u8>) -> (Seq<BlockView>, int) {
    let i = first_kind_from(bs, BLOCK_VORBIS_COMMENT, 0);
    if i < bs.len() {
        (bs.update(i, (BLOCK_VORBIS_COMMENT, payload)), i)
    } else {
        (bs.insert(1, (BLOCK_VORBIS_COMMENT, payload)), 1)
    }
}

/// The blocks with a PADDING block of at least 4096 bytes right after
/// block `j`: a smaller one there is zero-extended, else a new one is
/// inserted.
pub open spec fn with_padding_after(bs: Seq<BlockView>, j: int) -> Seq<BlockView> {
    if j + 1 < bs.len() && bs[j + 1].0 == BLOCK_PADDING {
        if bs[j + 1].1.len() < SPLICE_PADDING {
            bs.update(
                j + 1,
                (BLOCK_PADDING, bs[j + 1].1 + zeros((SPLICE_PADDING - bs[j + 1].1.len()) as nat)),
            )
        } else {
            bs
        }
    } else {
        bs.insert(j + 1, (BLOCK_PADDING, zeros(SPLICE_PADDING as nat)))
    }
}

/// The blocks of the fully rewritten metadata.
pub open spec fn spliced_blocks(bs: Seq<BlockView>, payload: Seq<u8>) -> Seq<BlockView> {
    let (b1, j) = with_comment_block(bs, payload);
    with_padding_after(b1, j)
}

/// The vendor and comments that the full rewrite starts from: those of the
/// comments block, or a default vendor and no comment.
pub open spec fn splice_source(bs: Seq<BlockView>) -> Result<(Seq<u8>, Seq<Seq<u8>>), CommentError> {
    let i = first_kind_from(bs, BLOCK_VORBIS_COMMENT, 0);
    if i < bs.len() {
        spec_parse_vorbis_comment(bs[i].1)
    } else {
        Ok((default_vendor(), Seq::empty()))
    }
}

/// The full rewrite of the metadata: the new blocks, or why it is refused.
/// The frames follow the new metadata unchanged.
#[verifier::opaque]
pub open spec fn spec_splice(data: Seq<u8>, file_len: u64, ups: Seq<UpdateView>) -> Result<
    Seq<BlockView>,
    TagError,
> {
    match spec_metadata_chain(data) {
        Err(e) => Err(TagError::Chain(e)),
        Ok((bs, fs)) => match splice_source(bs) {
            Err(e) => Err(TagError::Comment(e)),
            Ok((v, cs)) => {
                let payload = vorbis_comment_bytes(v, updated_comments(cs, ups));
                if payload.len() > MAX_BLOCK_LEN {
                    Err(TagError::CommentTooLarge)
                } else if file_len < fs {
                    Err(TagError::FramesPastEnd)
                } else if file_len == fs {
                    Err(TagError::NoFrames)
                } else {
                    Ok(spliced_blocks(bs, payload))
                }
            },
        },
    }
}

/// The full rewrite: the new metadata bytes, to be followed by the frames
/// that start at `frames_start` in the old file.
pub struct SplicePlan {
    pub metadata: Vec<u8>,
    pub frames_start: u64,
}

/// A copy of a block.
fn copy_block(b: &MetaBlock) -> (r: MetaBlock)
    ensures
        r@ == b@,
{
    let p = copy_range(b.payload.as_slice(), 0, b.payload.len());
    assert(b.payload@.subrange(0, b.payload@.len() as int) =~= b.payload@);
    MetaBlock { kind: b.kind, payload: p }
}

proof fn lemma_spliced_writable(bs: Seq<BlockView>, payload: Seq<u8>)
    requires
        bs.len() > 0,
        blocks_writable(bs),
        payload.len() <= MAX_BLOCK_LEN,
    ensures
        blocks_writable(spliced_blocks(bs, payload)),
        with_comment_block(bs, payload).1 + 1 < spliced_blocks(bs, payload).len(),
        spliced_blocks(bs, payload)[with_comment_block(bs, payload).1] == (
            BLOCK_VORBIS_COMMENT,
            payload,
        ),
        spliced_blocks(bs, payload)[with_comment_block(bs, payload).1 + 1].0 == BLOCK_PADDING,
        spliced_blocks(bs, payload)[with_comment_block(bs, payload).1 + 1].1.len() >= SPLICE_PADDING,
        0 <= with_comment_block(bs, payload).1,
        spliced_blocks(bs, payload).take(with_comment_block(bs, payload).1) == bs.take(
            with_comment_block(bs, payload).1,
        ),
{
    lemma_first_kind(bs, BLOCK_VORBIS_COMMENT, 0);
    let (b1, j) = with_comment_block(bs, payload);
    let nb = spliced_blocks(bs, payload);
    assert(b1.take(j) =~= bs.take(j));
    assert(nb.take(j) =~= b1.take(j));
    assert(blocks_writable(b1)) by {
        assert forall|k: int| 0 <= k < b1.len() implies (#[trigger] b1[k]).0 < 128 && b1[k].1.len()
            <= MAX_BLOCK_LEN by {
            if k != j {
                if j == first_kind_from(bs, BLOCK_VORBIS_COMMENT, 0) {
                    assert(b1[k] == bs[k]);
                } else if k < j {
                    assert(b1[k] == bs[k]);
                } else {
                    assert(b1[k] == bs[k - 1]);
                }
            }
        }
    }
    assert forall|k: int| 0 <= k < nb.len() implies (#[trigger] nb[k]).0 < 128 && nb[k].1.len()
        <= MAX_BLOCK_LEN by {
        if k != j + 1 {
            if nb.len() == b1.len() {
                assert(nb[k] == b1[k]);
            } else if k < j + 1 {
                assert(nb[k] == b1[k]);
            } else {
                assert(nb[k] == b1[k - 1]);
            }
        }
    }
}

/// What the full rewrite promises: its metadata, followed by the old
/// frames, reads back as the new blocks with the frames right after them;
/// the comments block holds the updated comments under the old vendor (or a
/// default one when there was no comments block), a PADDING block of at
/// least 4096 bytes follows it, and the blocks before it are unchanged.
pub proof fn lemma_splice(data: Seq<u8>, file_len: u64, ups: Seq<UpdateView>, frames: Seq<u8>)
    requires
        spec_splice(data, file_len, ups) is Ok,
        updates_are_text(ups),
    ensures
        ({
            let nbs = spec_splice(data, file_len, ups)->Ok_0;
            let (bs, fs) = spec_metadata_chain(data)->Ok_0;
            let (v, cs) = splice_source(bs)->Ok_0;
            let payload = vorbis_comment_bytes(v, updated_comments(cs, ups));
            let j = with_comment_block(bs, payload).1;
            &&& spec_metadata_chain(chain_bytes(nbs) + frames) == Ok::<_, ChainError>(
                (nbs, chain_bytes(nbs).len() as int),
            )
            &&& nbs[j].0 == BLOCK_VORBIS_COMMENT
            &&& spec_parse_vorbis_comment(nbs[j].1) == Ok::<_, CommentError>(
                (v, updated_comments(cs, ups)),
            )
            &&& nbs[j + 1].0 == BLOCK_PADDING
            &&& nbs[j + 1].1.len() >= SPLICE_PADDING
            &&& nbs.take(j) == bs.take(j)
        }),
{
    lemma_unpack_splice(data, file_len, ups);
    let (bs, fs) = spec_metadata_chain(data)->Ok_0;
    let (v, cs) = splice_source(bs)->Ok_0;
    let cs2 = updated_comments(cs, ups);
    let payload = vorbis_comment_bytes(v, cs2);
    let nbs = spliced_blocks(bs, payload);
    lemma_spliced_writable(bs, payload);
    lemma_chain_round_trip(nbs, frames);
    lemma_splice_comment(bs, ups);
}

proof fn lemma_unpack_splice(data: Seq<u8>, file_len: u64, ups: Seq<UpdateView>)
    requires
        spec_splice(data, file_len, ups) is Ok,
    ensures
        spec_metadata_chain(data) is Ok,
        spec_metadata_chain(data)->Ok_0.0.len() > 0,
        blocks_writable(spec_metadata_chain(data)->Ok_0.0),
        splice_source(spec_metadata_chain(data)->Ok_0.0) is Ok,
        ({
            let (bs, fs) = spec_metadata_chain(data)->Ok_0;
            let (v, cs) = splice_source(bs)->Ok_0;
            &&& vorbis_comment_bytes(v, updated_comments(cs, ups)).len() <= MAX_BLOCK_LEN
            &&& spec_splice(data, file_len, ups)->Ok_0 == spliced_blocks(
                bs,
                vorbis_comment_bytes(v, updated_comments(cs, ups)),
            )
        }),
{
    reveal(spec_splice);
    lemma_blocks_from_is_bytes(data, 4);
}

proof fn lemma_splice_comment(bs: Seq<BlockView>, ups: Seq<UpdateView>)
    requires
        splice_source(bs) is Ok,
        updates_are_text(ups),
        ({
            let (v, cs) = splice_source(bs)->Ok_0;
            vorbis_comment_bytes(v, updated_comments(cs, ups)).len() <= MAX_BLOCK_LEN
        }),
    ensures
        ({
            let (v, cs) = splice_source(bs)->Ok_0;
            spec_parse_vorbis_comment(vorbis_comment_bytes(v, updated_comments(cs, ups)))
                == Ok::<_, CommentError>((v, updated_comments(cs, ups)))
        }),
{
    let i = first_kind_from(bs, BLOCK_VORBIS_COMMENT, 0);
    let (v, cs) = splice_source(bs)->Ok_0;
    let cs2 = updated_comments(cs, ups);
    if i < bs.len() {
        lemma_parsed_vorbis_comment_valid(bs[i].1);
    } else {
        crate::text::lemma_ascii_valid_utf8(default_vendor());
        assert(cs =~= Seq::<Seq<u8>>::empty());
    }
    lemma_updated_valid(cs, ups);
    lemma_small_payload_writable(v, cs2);
    lemma_vorbis_comment_round_trip(v, cs2);
}

/// A copy of a list of blocks.
fn copy_blocks(blocks: &Vec<MetaBlock>) -> (r: Vec<MetaBlock>)
    ensures
        blocks_view(r@) == blocks_view(blocks@),
{
    let mut out: Vec<MetaBlock> = Vec::new();
    let mut k: usize = 0;
    while k < blocks.len()
        invariant
            k <= blocks.len(),
            blocks_view(out@) == blocks_view(blocks@).take(k as int),
        decreases blocks.len() - k,
    {
        let ghost before = blocks_view(out@);
        let c = copy_block(&blocks[k]);
        let ghost cv = c@;
        out.push(c);
        assert(blocks_view(out@) =~= before.push(cv));
        k = k + 1;
        assert(blocks_view(out@) =~= blocks_view(blocks@).take(k as int));
    }
    assert(blocks_view(blocks@).take(blocks.len() as int) =~= blocks_view(blocks@));
    out
}

/// Leaves a PADDING block of at least 4096 bytes right after block `j`
/// (see [`with_padding_after`]).
fn add_padding_after(out: &mut Vec<MetaBlock>, j: usize)
    requires
        j < old(out).len(),
    ensures
        blocks_view(final(out)@) == with_padding_after(blocks_view(old(out)@), j as int),
{
    let ghost b = blocks_view(out@);
    if j + 1 < out.len() && out[j + 1].kind == BLOCK_PADDING {
        let plen = out[j + 1].payload.len();
        if plen < SPLICE_PADDING {
            let mut grown = copy_range(out[j + 1].payload.as_slice(), 0, plen);
            push_zeros(&mut grown, SPLICE_PADDING - plen);
            assert(out@[j + 1]@ == b[j + 1]);
            assert(out@[j + 1].payload@.subrange(0, plen as int) =~= b[j + 1].1);
            out.set(j + 1, MetaBlock { kind: BLOCK_PADDING, payload: grown });
            assert(blocks_view(out@) =~= with_padding_after(b, j as int));
        } else {
            assert(blocks_view(out@) =~= with_padding_after(b, j as int));
        }
    } else {
        let mut z: Vec<u8> = Vec::new();
        push_zeros(&mut z, SPLICE_PADDING);
        assert(Seq::<u8>::empty() + zeros(SPLICE_PADDING as nat) =~= zeros(SPLICE_PADDING as nat));
        out.insert(j + 1, MetaBlock { kind: BLOCK_PADDING, payload: z });
        assert(blocks_view(out@) =~= with_padding_after(b, j as int));
    }
}

/// Plans the full rewrite of the metadata with the comments updated (see
/// [`spec_splice`]).
pub fn splice_vorbis_comment(data: &[u8], file_len: u64, updates: &[TagUpdate]) -> (r: Result<
    SplicePlan,
    TagError,
>)
    ensures
        match spec_splice(data@, file_len, updates_view(updates@)) {
            Ok(nbs) => r matches Ok(plan) && plan.metadata@ == chain_bytes(nbs)
                && plan.frames_start == spec_metadata_chain(data@)->Ok_0.1,
            Err(e) => r matches Err(e2) && e2 == e,
        },
{
    proof {
        reveal(spec_splice);
    }
    let (blocks, frames_start) = match parse_metadata_chain(data) {
        Ok(x) => x,
        Err(e) => {
            return Err(TagError::Chain(e));
        },
    };
    let ghost bs = blocks_view(blocks@);
    proof {
        lemma_block_len_bound(data@);
        crate::chain::lemma_blocks_from_is_bytes(data@, 4);
    }
    let n = blocks.len();
    let mut i: usize = 0;
    while i < n && blocks[i].kind != BLOCK_VORBIS_COMMENT
        invariant
            n == blocks.len(),
            bs == blocks_view(blocks@),
            i <= n,
            first_kind_from(bs, BLOCK_VORBIS_COMMENT, 0) == first_kind_from(bs, BLOCK_VORBIS_COMMENT, i as int),
        decreases n - i,
    {
        i = i + 1;
    }
    let (vendor, comments) = if i < n {
        assert(bs[i as int] == blocks@[i as int]@);
        match parse_vorbis_comment(blocks[i].payload.as_slice()) {
            Ok(x) => x,
            Err(e) => {
                return Err(TagError::Comment(e));
            },
        }
    } else {
        let v: Vec<u8> = vec![0x46u8, 0x4Cu8, 0x41u8, 0x43u8, 0x2Du8, 0x43u8, 0x68u8, 0x6Fu8, 0x70u8];
        assert(v@ =~= default_vendor());
        let e: Vec<Vec<u8>> = Vec::new();
        assert(comments_view(e@) =~= Seq::<Seq<u8>>::empty());
        (v, e)
    };
    let new_comments = apply_tag_updates(&comments, updates);
    let payload = build_vorbis_comment(vendor.as_slice(), &new_comments);
    if payload.len() > MAX_BLOCK_LEN {
        return Err(TagError::CommentTooLarge);
    }
    if file_len < frames_start {
        return Err(TagError::FramesPastEnd);
    }
    if file_len == frames_start {
        return Err(TagError::NoFrames);
    }
    let ghost pv = payload@;
    let mut out = copy_blocks(&blocks);
    let vc_pos: usize = if i < n {
        out.set(i, MetaBlock { kind: BLOCK_VORBIS_COMMENT, payload: payload });
        i
    } else {
        out.insert(1, MetaBlock { kind: BLOCK_VORBIS_COMMENT, payload: payload });
        1
    };
    assert(blocks_view(out@) =~= with_comment_block(bs, pv).0);
    let ghost b1 = blocks_view(out@);
    add_padding_after(&mut out, vc_pos);
    let ghost nb = blocks_view(out@);
    assert(nb == spliced_blocks(bs, pv));
    proof {
        lemma_spliced_writable(bs, pv);
    }
    let metadata = crate::chain::serialize_chain(&out);
    Ok(SplicePlan { metadata: metadata, frames_start: frames_start })
}

/// The two bytes start a FLAC frame: sync `0xFFF8` to `0xFFFB`.
pub open spec fn is_frame_sync(b0: u8, b1: u8) -> bool {
    b0 == 0xFF && 0xF8 <= b1 <= 0xFB
}

/// The check a rewritten file must pass: its metadata reads back and ends
/// at `expect_frames`, the file has `expect_len` bytes, and a frame sync
/// code follows the metadata.
pub open spec fn spec_verify_rewrite(data: Seq<u8>, file_len: u64, expect_frames: u64, expect_len: u64) -> Result<(), TagError> {
    match spec_metadata_chain(data) {
        Err(e) => Err(TagError::Chain(e)),
        Ok((bs, fs)) => if fs != expect_frames {
            Err(TagError::FramesMoved { found: fs as u64, expected: expect_frames })
        } else if file_len != expect_len {
            Err(TagError::SizeChanged { found: file_len, expected: expect_len })
        } else if fs + 2 > data.len() {
            Err(TagError::SyncUnreadable)
        } else if !is_frame_sync(data[fs], data[fs + 1]) {
            Err(TagError::NoFrameSync { offset: fs as u64, b0: data[fs], b1: data[fs + 1] })
        } else {
            Ok(())
        }
    }
}

/// Checks a rewritten file whose first bytes are `data` (its metadata and
/// at least the 2 bytes after it, when the file has them) and whose size is
/// `file_len` (see [`spec_verify_rewrite`]).
pub fn verify_rewrite(data: &[u8], file_len: u64, expect_frames: u64, expect_len: u64) -> (r: Result<(), TagError>)
    ensures
        match spec_verify_rewrite(data@, file_len, expect_frames, expect_len) {
            Ok(()) => r is Ok,
            Err(e) => r matches Err(e2) && e2 == e,
        },
{
    let (_blocks, fs) = match parse_metadata_chain(data) {
        Ok(x) => x,
        Err(e) => {
            return Err(TagError::Chain(e));
        },
    };
    proof {
        lemma_block_len_bound(data@);
    }
    if fs != expect_frames {
        return Err(TagError::FramesMoved { found: fs, expected: expect_frames });
    }
    if file_len != expect_len {
        return Err(TagError::SizeChanged { found: file_len, expected: expect_len });
    }
    let f = fs as usize;
    if data.len() < 2 || f > data.len() - 2 {
        return Err(TagError::SyncUnreadable);
    }
    let b0 = data[f];
    let b1 = data[f + 1];
    if !(b0 == 0xFF && 0xF8 <= b1 && b1 <= 0xFB) {
        return Err(TagError::NoFrameSync { offset: fs, b0: b0, b1: b1 });
    }
    Ok(())
}

/// Tag names that the cut rewrite owns.
pub const RF_TOTAL_SAMPLES: &'static str = "RF_TOTAL_SAMPLES";

pub const RF_SAMPLE_RATE: &'static str = "RF_SAMPLE_RATE";

pub const RF_SAMPLE_RATE_KHZ: &'static str = "RF_SAMPLE_RATE_KHZ";

pub const DURATION_SECONDS: &'static str = "DURATION_SECONDS";

pub const LENGTH: &'static str = "LENGTH";

/// The numeric RF tags that a cut rewrites.
pub open spec fn owned_tag_names() -> Seq<&'static str> {
    seq![RF_TOTAL_SAMPLES, RF_SAMPLE_RATE, RF_SAMPLE_RATE_KHZ, DURATION_SECONDS, LENGTH]
}

/// The numeric RF tags that a cut rewrites; every other comment is kept.
pub fn owned_tags() -> (r: Vec<&'static str>)
    ensures
        r@ == owned_tag_names(),
{
    let v = vec![RF_TOTAL_SAMPLES, RF_SAMPLE_RATE, RF_SAMPLE_RATE_KHZ, DURATION_SECONDS, LENGTH];
    assert(v@ =~= seq![RF_TOTAL_SAMPLES, RF_SAMPLE_RATE, RF_SAMPLE_RATE_KHZ, DURATION_SECONDS, LENGTH]);
    v
}

/// The duration of a cut as text (seconds with six decimals) and in
/// milliseconds, computed from its STREAMINFO by the caller.
pub struct CutTiming {
    pub duration_text: Vec<u8>,
    pub length_ms: u64,
}

/// One update as the contracts see it: set tag `name` to `value`.
pub open spec fn tag(name: &str, value: Seq<u8>) -> UpdateView {
    (name.spec_bytes(), Some(value))
}

/// The tags a cut rewrites, from the output's header rate and sample count:
/// for an RF capture the header holds the rate / 1000, so `RF_SAMPLE_RATE`
/// is `rate * 1000`, `RF_TOTAL_SAMPLES` is `total * 1000` (saturating) and
/// `RF_SAMPLE_RATE_KHZ` (first) is the header rate; for audio the header
/// values are used as they are and every `RF_SAMPLE_RATE_KHZ` comment is
/// dropped, none being written.
pub open spec fn cut_updates(rate: u32, total: u64, is_rf: bool, duration: Seq<u8>, length_ms: u64) -> Seq<UpdateView> {
    let rf_rate: nat = if is_rf {
        rate as nat * 1000
    } else {
        rate as nat
    };
    let rf_total: nat = if is_rf {
        if total as nat * 1000 > u64::MAX {
            u64::MAX as nat
        } else {
            total as nat * 1000
        }
    } else {
        total as nat
    };
    let khz: UpdateView = if is_rf {
        tag(RF_SAMPLE_RATE_KHZ, decimal(rate as nat))
    } else {
        (RF_SAMPLE_RATE_KHZ.spec_bytes(), None)
    };
    seq![
        khz,
        tag(RF_TOTAL_SAMPLES, decimal(rf_total)),
        tag(RF_SAMPLE_RATE, decimal(rf_rate)),
        tag(DURATION_SECONDS, duration),
        tag(LENGTH, decimal(length_ms as nat)),
    ]
}

/// A cut rewrites only the tags it owns: every key of its updates is one of
/// [`owned_tag_names`].
pub proof fn lemma_cut_updates_owned(rate: u32, total: u64, is_rf: bool, duration: Seq<u8>, length_ms: u64)
    ensures
        forall|i: int|
            0 <= i < cut_updates(rate, total, is_rf, duration, length_ms).len() ==> exists|j: int|
                0 <= j < owned_tag_names().len() && #[trigger] cut_updates(rate, total, is_rf, duration, length_ms)[i].0
                    == owned_tag_names()[j].spec_bytes(),
{
    let ups = cut_updates(rate, total, is_rf, duration, length_ms);
    let names = owned_tag_names();
    assert forall|i: int| 0 <= i < ups.len() implies exists|j: int|
        0 <= j < names.len() && #[trigger] ups[i].0 == names[j].spec_bytes() by {
        if i == 0 {
            assert(ups[i].0 == names[2].spec_bytes());
        } else if i == 1 {
            assert(ups[i].0 == names[0].spec_bytes());
        } else if i == 2 {
            assert(ups[i].0 == names[1].spec_bytes());
        } else if i == 3 {
            assert(ups[i].0 == names[3].spec_bytes());
        } else {
            assert(ups[i].0 == names[4].spec_bytes());
        }
    }
}

/// The update for tag `name`.
fn make_update(name: &str, value: Vec<u8>) -> (r: TagUpdate)
    ensures
        r@ == tag(name, value@),
{
    let b = name.as_bytes();
    TagUpdate { key: copy_range(b, 0, b.len()), value: Some(value) }
}

/// The update that drops every comment named `name`.
fn make_drop(name: &str) -> (r: TagUpdate)
    ensures
        r@ == (name.spec_bytes(), None::<Seq<u8>>),
{
    let b = name.as_bytes();
    TagUpdate { key: copy_range(b, 0, b.len()), value: None }
}

/// Builds the updates of [`cut_updates`].
pub fn cut_tag_updates(rate: u32, total: u64, is_rf: bool, timing: &CutTiming) -> (r: Vec<TagUpdate>)
    ensures
        updates_view(r@) == cut_updates(rate, total, is_rf, timing.duration_text@, timing.length_ms),
{
    let (rf_rate, rf_total): (u64, u64) = if is_rf {
        let t: u64 = if total > u64::MAX / 1000 {
            u64::MAX
        } else {
            total * 1000
        };
        (rate as u64 * 1000, t)
    } else {
        (rate as u64, total)
    };
    let mut out: Vec<TagUpdate> = Vec::new();
    if is_rf {
        out.push(make_update(RF_SAMPLE_RATE_KHZ, u64_to_decimal(rate as u64)));
    } else {
        out.push(make_drop(RF_SAMPLE_RATE_KHZ));
    }
    out.push(make_update(RF_TOTAL_SAMPLES, u64_to_decimal(rf_total)));
    out.push(make_update(RF_SAMPLE_RATE, u64_to_decimal(rf_rate)));
    out.push(make_update(DURATION_SECONDS, copy_range(timing.duration_text.as_slice(), 0, timing.duration_text.len())));
    out.push(make_update(LENGTH, u64_to_decimal(timing.length_ms)));
    assert(timing.duration_text@.subrange(0, timing.duration_text@.len() as int) =~= timing.duration_text@);
    assert(updates_view(out@) =~= cut_updates(rate, total, is_rf, timing.duration_text@, timing.length_ms));
    out
}

/// The header rate and sample count of a cut output, read from its
/// STREAMINFO by the FLAC reader; a count of 0 stands for unknown.
pub fn cut_tag_source(data: &[u8]) -> (r: Result<(u32, u64), TagError>)
    ensures
        match flac_stream_info(data@) {
            Some(si) => if si.sample_rate == 0 {
                r matches Err(TagError::SampleRateZero)
            } else {
                r matches Ok((rate, total)) && rate == si.sample_rate && total == match si.samples {
                    Some(n) => n,
                    None => 0,
                }
            },
            None => r matches Err(TagError::StreamInfo(_)),
        },
{
    let si = match read_stream_info(data) {
        Ok(si) => si,
        Err(e) => {
            return Err(TagError::StreamInfo(e));
        },
    };
    if si.sample_rate == 0 {
        return Err(TagError::SampleRateZero);
    }
    let total = match si.samples {
        Some(n) => n,
        None => 0,
    };
    Ok((si.sample_rate, total))
}

/// How the rewritten comments reach the file.
pub enum TagWrite {
    /// Write `region` at `offset`; the file keeps its size.
    InPlace(InPlaceWrite),
    /// Write new metadata, then the frames of the old file from
    /// `frames_start`.
    Splice(SplicePlan),
}

/// The rewrite of a file's comments with `updates`: in place where it fits,
/// else the full rewrite.
pub open spec fn tag_rewrite_ok(data: Seq<u8>, file_len: u64, ups: Seq<UpdateView>, r: Result<TagWrite, TagError>) -> bool {
    match spec_update_in_place(data, file_len, ups) {
        Ok(Some((off, reg))) => r matches Ok(TagWrite::InPlace(w)) && w.offset == off && w.region@ == reg,
        Ok(None) => match spec_splice(data, file_len, ups) {
            Ok(nbs) => r matches Ok(TagWrite::Splice(plan)) && plan.metadata@ == chain_bytes(nbs)
                && plan.frames_start == spec_metadata_chain(data)->Ok_0.1,
            Err(e) => r matches Err(e2) && e2 == e,
        },
        Err(e) => r matches Err(e2) && e2 == e,
    }
}

/// Rewrites the comments of a file with `updates`: in place where the new
/// comments fit the old region, else by the full rewrite.
pub fn rewrite_tags(data: &[u8], file_len: u64, updates: &[TagUpdate]) -> (r: Result<TagWrite, TagError>)
    requires
        !in_place_splits_char(data@, file_len, updates_view(updates@)),
    ensures
        tag_rewrite_ok(data@, file_len, updates_view(updates@), r),
{
    match update_vorbis_comment_in_place(data, file_len, updates) {
        Ok(Some(w)) => Ok(TagWrite::InPlace(w)),
        Ok(None) => match splice_vorbis_comment(data, file_len, updates) {
            Ok(plan) => Ok(TagWrite::Splice(plan)),
            Err(e) => Err(e),
        },
        Err(e) => Err(e),
    }
}

/// Whether rewriting the comments in place would trim the vendor string
/// inside a character (see [`in_place_splits_char`]).
pub fn in_place_would_split_char(data: &[u8], file_len: u64, updates: &[TagUpdate]) -> (r: bool)
    ensures
        r == in_place_splits_char(data@, file_len, updates_view(updates@)),
{
    proof {
        reveal(in_place_splits_char);
    }
    let (blocks, frames_start) = match parse_metadata_chain(data) {
        Ok(x) => x,
        Err(_) => {
            return false;
        },
    };
    let ghost bs = blocks_view(blocks@);
    proof {
        lemma_block_len_bound(data@);
    }
    if file_len <= frames_start {
        return false;
    }
    let n = blocks.len();
    let mut i: usize = 0;
    while i < n && blocks[i].kind != BLOCK_VORBIS_COMMENT
        invariant
            n == blocks.len(),
            bs == blocks_view(blocks@),
            i <= n,
            first_kind_from(bs, BLOCK_VORBIS_COMMENT, 0) == first_kind_from(bs, BLOCK_VORBIS_COMMENT, i as int),
        decreases n - i,
    {
        i = i + 1;
    }
    if i == n {
        return false;
    }
    assert(bs[i as int] == blocks@[i as int]@);
    let (vendor, comments) = match parse_vorbis_comment(blocks[i].payload.as_slice()) {
        Ok(x) => x,
        Err(_) => {
            return false;
        },
    };
    let new_comments = apply_tag_updates(&comments, updates);
    let pad: Option<usize> = if i + 1 < n && blocks[i + 1].kind == BLOCK_PADDING {
        Some(blocks[i + 1].payload.len())
    } else {
        None
    };
    proof {
        if i + 1 < n {
            assert(bs[i + 1] == blocks@[i + 1]@);
        }
    }
    let old_len = blocks[i].payload.len();
    let new_len = build_vorbis_comment(vendor.as_slice(), &new_comments).len();
    let over: usize = match pad {
        Some(p) => if new_len > old_len + p {
            new_len - old_len - p
        } else {
            0
        },
        None => if new_len > old_len {
            new_len - old_len
        } else {
            0
        },
    };
    if over == 0 || over > vendor.len() {
        return false;
    }
    proof {
        crate::comment::lemma_parsed_vorbis_comment_valid(bs[i as int].1);
    }
    !is_char_boundary_bytes(vendor.as_slice(), vendor.len() - over)
}

/// The tags of a cut output after the rewrite, from its STREAMINFO.
pub open spec fn cut_tags_of(data: Seq<u8>, is_rf: bool, duration: Seq<u8>, length_ms: u64) -> Seq<UpdateView> {
    let si = flac_stream_info(data)->0;
    cut_updates(
        si.sample_rate,
        match si.samples {
            Some(n) => n,
            None => 0,
        },
        is_rf,
        duration,
        length_ms,
    )
}

/// Rewrites the numeric RF tags of a cut output (first bytes `data`, all
/// its metadata, size `file_len`) from its own STREAMINFO, leaving every
/// other comment as it is. `timing` carries the duration computed from the
/// same STREAMINFO.
pub fn rewrite_cut_tags(data: &[u8], file_len: u64, is_rf: bool, timing: &CutTiming) -> (r: Result<
    TagWrite,
    TagError,
>)
    requires
        flac_stream_info(data@) is Some ==> !in_place_splits_char(
            data@,
            file_len,
            cut_tags_of(data@, is_rf, timing.duration_text@, timing.length_ms),
        ),
    ensures
        match flac_stream_info(data@) {
            Some(si) => if si.sample_rate == 0 {
                r matches Err(TagError::SampleRateZero)
            } else {
                tag_rewrite_ok(data@, file_len, cut_tags_of(data@, is_rf, timing.duration_text@, timing.length_ms), r)
            },
            None => r matches Err(TagError::StreamInfo(_)),
        },
{
    let (rate, total) = match cut_tag_source(data) {
        Ok(x) => x,
        Err(e) => {
            return Err(e);
        },
    };
    let updates = cut_tag_updates(rate, total, is_rf, timing);
    rewrite_tags(data, file_len, updates.as_slice())
}

/// [`rewrite_cut_tags`] where its trimming of the vendor string would not
/// cut a character in two; `None` where it would (the in-place rewrite is
/// then impossible without breaking the vendor string's UTF-8).
pub fn try_rewrite_cut_tags(data: &[u8], file_len: u64, is_rf: bool, timing: &CutTiming) -> (r: Option<
    Result<TagWrite, TagError>,
>)
    ensures
        match flac_stream_info(data@) {
            Some(si) => if si.sample_rate == 0 {
                r matches Some(Err(TagError::SampleRateZero))
            } else if in_place_splits_char(
                data@,
                file_len,
                cut_tags_of(data@, is_rf, timing.duration_text@, timing.length_ms),
            ) {
                r is None
            } else {
                r matches Some(res) && tag_rewrite_ok(
                    data@,
                    file_len,
                    cut_tags_of(data@, is_rf, timing.duration_text@, timing.length_ms),
                    res,
                )
            },
            None => r matches Some(Err(TagError::StreamInfo(_))),
        },
{
    let (rate, total) = match cut_tag_source(data) {
        Ok(x) => x,
        Err(e) => {
            return Some(Err(e));
        },
    };
    let updates = cut_tag_updates(rate, total, is_rf, timing);
    if in_place_would_split_char(data, file_len, updates.as_slice()) {
        return None;
    }
    Some(rewrite_cut_tags(data, file_len, is_rf, timing))
}

} // verus!
