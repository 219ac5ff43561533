//! The FLAC metadata block chain: `fLaC`, then blocks of a 4-byte header
//! (last-block flag, 7-bit type, 24-bit big-endian length) and a payload,
//! the last of them flagged; the audio frames follow.

use vstd::prelude::*;

verus! {

/// Block type of STREAMINFO.
pub const BLOCK_STREAMINFO: u8 = 0;

/// Block type of PADDING.
pub const BLOCK_PADDING: u8 = 1;

/// Block type of VORBIS_COMMENT.
pub const BLOCK_VORBIS_COMMENT: u8 = 4;

/// Largest payload a block header can declare.
pub const MAX_BLOCK_LEN: usize = 0xff_ffff;

/// One metadata block: its type and its payload as it sits on disk. The
/// last-block flag is not kept; it follows from the block's position.
#[derive(Clone, Debug)]
pub struct MetaBlock {
    pub kind: u8,
    pub payload: Vec<u8>,
}

/// A block as the contracts see it: type and payload bytes.
pub type BlockView = (u8, Seq<u8>);

impl View for MetaBlock {
    type V = BlockView;

    open spec fn view(&self) -> BlockView {
        (self.kind, self.payload@)
    }
}

/// The views of a list of blocks.
pub open spec fn blocks_view(bs: Seq<MetaBlock>) -> Seq<BlockView> {
    bs.map_values(|b: MetaBlock| b@)
}

/// Why a metadata chain could not be read.
#[derive(Clone, Copy, Debug, PartialEq, Eq, Structural)]
pub enum ChainError {
    /// The bytes do not start with the `fLaC` marker.
    NotFlac,
    /// The bytes end before the last block does.
    Truncated,
}

/// The `fLaC` stream marker.
pub open spec fn flac_marker() -> Seq<u8> {
    seq![0x66u8, 0x4Cu8, 0x61u8, 0x43u8]
}

/// A 24-bit big-endian length.
pub open spec fn be24(a: u8, b: u8, c: u8) -> nat {
    a as nat * 65536 + b as nat * 256 + c as nat
}

/// The blocks of the chain that starts at `pos`, up to and including the
/// first one flagged last, with the offset just past it; `None` when the
/// bytes run out first.
pub open spec fn spec_blocks_from(data: Seq<u8>, pos: int) -> Option<(Seq<BlockView>, int)>
    decreases data.len() - pos,
{
    if pos < 0 || pos + 4 > data.len() {
        None
    } else {
        let end = pos + 4 + be24(data[pos + 1], data[pos + 2], data[pos + 3]);
        if end > data.len() {
            None
        } else {
            let blk: BlockView = ((data[pos] % 128) as u8, data.subrange(pos + 4, end));
            if data[pos] >= 128 {
                Some((seq![blk], end))
            } else {
                match spec_blocks_from(data, end) {
                    Some((bs, e)) => Some((seq![blk] + bs, e)),
                    None => None,
                }
            }
        }
    }
}

/// The metadata chain of a FLAC stream: its blocks and the offset of the
/// first audio frame.
pub open spec fn spec_metadata_chain(data: Seq<u8>) -> Result<(Seq<BlockView>, int), ChainError> {
    if data.len() < 4 {
        Err(ChainError::Truncated)
    } else if data.take(4) != flac_marker() {
        Err(ChainError::NotFlac)
    } else {
        match spec_blocks_from(data, 4) {
            Some(r) => Ok(r),
            None => Err(ChainError::Truncated),
        }
    }
}

/// The 4-byte header of a block.
pub open spec fn block_header(kind: u8, len: nat, last: bool) -> Seq<u8> {
    seq![
        (if last { kind + 128 } else { kind as int }) as u8,
        (len / 65536) as u8,
        ((len / 256) % 256) as u8,
        (len % 256) as u8,
    ]
}

/// A block encoded with its header.
pub open spec fn block_bytes(b: BlockView, last: bool) -> Seq<u8> {
    block_header(b.0, b.1.len(), last) + b.1
}

/// A list of blocks encoded in order, the final one flagged last.
pub open spec fn blocks_bytes(bs: Seq<BlockView>) -> Seq<u8>
    decreases bs.len(),
{
    if bs.len() == 0 {
        Seq::empty()
    } else {
        block_bytes(bs[0], bs.len() == 1) + blocks_bytes(bs.drop_first())
    }
}

/// A list of blocks encoded in order, none of them flagged last.
pub open spec fn blocks_bytes_open(bs: Seq<BlockView>) -> Seq<u8>
    decreases bs.len(),
{
    if bs.len() == 0 {
        Seq::empty()
    } else {
        block_bytes(bs[0], false) + blocks_bytes_open(bs.drop_first())
    }
}

/// The metadata of a FLAC stream made of `bs`.
pub open spec fn chain_bytes(bs: Seq<BlockView>) -> Seq<u8> {
    flac_marker() + blocks_bytes(bs)
}

/// Every block can be written: a 7-bit type and a 24-bit length.
pub open spec fn blocks_writable(bs: Seq<BlockView>) -> bool {
    forall|i: int| 0 <= i < bs.len() ==> (#[trigger] bs[i]).0 < 128 && bs[i].1.len() <= MAX_BLOCK_LEN
}

proof fn lemma_be24(len: nat)
    requires
        len <= MAX_BLOCK_LEN,
    ensures
        be24((len / 65536) as u8, ((len / 256) % 256) as u8, (len % 256) as u8) == len,
{
    assert(len / 65536 < 256);
    assert((len / 65536) * 65536 + ((len / 256) % 256) * 256 + len % 256 == len) by (nonlinear_arith)
        requires
            len <= 0xff_ffff,
    {
        assert(len == 256 * (len / 256) + len % 256);
        assert(len / 256 == 256 * (len / 65536) + (len / 256) % 256);
    };
}

/// Reading the blocks at `pos` of bytes that hold `blocks_bytes(bs)` there
/// gives back `bs` and the offset just past them.
proof fn lemma_blocks_from_bytes(data: Seq<u8>, pos: int, bs: Seq<BlockView>)
    requires
        bs.len() > 0,
        blocks_writable(bs),
        0 <= pos,
        pos + blocks_bytes(bs).len() <= data.len(),
        data.subrange(pos, pos + blocks_bytes(bs).len()) == blocks_bytes(bs),
    ensures
        spec_blocks_from(data, pos) == Some((bs, pos + blocks_bytes(bs).len())),
    decreases bs.len(),
{
    let b = bs[0];
    let last = bs.len() == 1;
    let enc = blocks_bytes(bs);
    let head = block_bytes(b, last);
    let rest = bs.drop_first();
    assert(enc == head + blocks_bytes(rest));
    assert(b.0 < 128 && b.1.len() <= MAX_BLOCK_LEN);
    lemma_be24(b.1.len());
    assert(data[pos] == enc[0]);
    assert(data[pos + 1] == enc[1]);
    assert(data[pos + 2] == enc[2]);
    assert(data[pos + 3] == enc[3]);
    assert(be24(data[pos + 1], data[pos + 2], data[pos + 3]) == b.1.len());
    let end = pos + 4 + b.1.len();
    assert(data.subrange(pos + 4, end) =~= b.1) by {
        assert forall|i: int| 0 <= i < b.1.len() implies data.subrange(pos + 4, end)[i]
            == b.1[i] by {
            assert(data[pos + 4 + i] == enc[4 + i]);
        }
    }
    if last {
        assert(data[pos] >= 128);
        assert((data[pos] % 128) as u8 == b.0);
        assert(rest.len() == 0);
        assert(seq![b] =~= bs);
    } else {
        assert(data[pos] < 128);
        assert((data[pos] % 128) as u8 == b.0);
        assert(blocks_writable(rest)) by {
            assert forall|i: int| 0 <= i < rest.len() implies (#[trigger] rest[i]).0 < 128
                && rest[i].1.len() <= MAX_BLOCK_LEN by {
                assert(rest[i] == bs[i + 1]);
            }
        }
        assert(data.subrange(end, end + blocks_bytes(rest).len()) =~= blocks_bytes(rest))
            by {
            assert forall|i: int| 0 <= i < blocks_bytes(rest).len() implies data.subrange(
                end,
                end + blocks_bytes(rest).len(),
            )[i] == blocks_bytes(rest)[i] by {
                assert(data[end + i] == enc[head.len() + i]);
            }
        }
        lemma_blocks_from_bytes(data, end, rest);
        assert(seq![b] + rest =~= bs);
    }
}

/// Round trip: the metadata written for `bs`, with anything after it, reads
/// back as `bs`, and the frames start right after it.
pub proof fn lemma_chain_round_trip(bs: Seq<BlockView>, frames: Seq<u8>)
    requires
        bs.len() > 0,
        blocks_writable(bs),
    ensures
        spec_metadata_chain(chain_bytes(bs) + frames) == Ok::<_, ChainError>(
            (bs, chain_bytes(bs).len() as int),
        ),
{
    let data = chain_bytes(bs) + frames;
    assert(data.take(4) =~= flac_marker());
    assert(data.subrange(4, 4 + blocks_bytes(bs).len() as int) =~= blocks_bytes(bs));
    lemma_blocks_from_bytes(data, 4, bs);
}

proof fn lemma_header_of_be24(x: u8, a: u8, b: u8, c: u8)
    ensures
        block_header((x % 128) as u8, be24(a, b, c), x >= 128) == seq![x, a, b, c],
{
    let len = be24(a, b, c);
    assert(len / 65536 == a && (len / 256) % 256 == b && len % 256 == c) by (nonlinear_arith)
        requires
            len == a * 65536 + b * 256 + c,
            a < 256,
            b < 256,
            c < 256,
    {
        assert(len / 256 == a * 256 + b);
    };
    assert(block_header((x % 128) as u8, len, x >= 128) =~= seq![x, a, b, c]);
}

/// What the parser read is exactly the metadata written for what it found:
/// the bytes from `pos` to the end of the chain are `blocks_bytes` of the
/// blocks, which are all writable.
pub proof fn lemma_blocks_from_is_bytes(data: Seq<u8>, pos: int)
    requires
        spec_blocks_from(data, pos) is Some,
    ensures
        ({
            let (bs, e) = spec_blocks_from(data, pos)->0;
            &&& bs.len() > 0
            &&& blocks_writable(bs)
            &&& 0 <= pos <= e <= data.len()
            &&& data.subrange(pos, e) == blocks_bytes(bs)
        }),
    decreases data.len() - pos,
{
    let len = be24(data[pos + 1], data[pos + 2], data[pos + 3]);
    let end = pos + 4 + len;
    let blk: BlockView = ((data[pos] % 128) as u8, data.subrange(pos + 4, end));
    lemma_header_of_be24(data[pos], data[pos + 1], data[pos + 2], data[pos + 3]);
    assert(len <= MAX_BLOCK_LEN) by (nonlinear_arith)
        requires
            len == data[pos + 1] as nat * 65536 + data[pos + 2] as nat * 256 + data[pos + 3] as nat,
            data[pos + 1] < 256,
            data[pos + 2] < 256,
            data[pos + 3] < 256,
    ;
    if data[pos] >= 128 {
        let bs = seq![blk];
        assert(bs.drop_first() =~= Seq::<BlockView>::empty());
        assert(blocks_bytes(bs.drop_first()) == Seq::<u8>::empty());
        assert(bs[0] == blk);
        assert(blocks_bytes(bs) =~= block_bytes(blk, true));
        assert(data.subrange(pos, end) =~= block_bytes(blk, true));
    } else {
        lemma_blocks_from_is_bytes(data, end);
        let (rest, e) = spec_blocks_from(data, end)->0;
        let bs = seq![blk] + rest;
        assert(bs.drop_first() =~= rest);
        assert(bs[0] == blk);
        assert(blocks_bytes(bs) == block_bytes(blk, false) + blocks_bytes(rest));
        assert(data.subrange(pos, e) =~= data.subrange(pos, end) + data.subrange(end, e));
        assert(data.subrange(pos, end) =~= block_bytes(blk, false));
        assert forall|i: int| 0 <= i < bs.len() implies (#[trigger] bs[i]).0 < 128 && bs[i].1.len()
            <= MAX_BLOCK_LEN by {
            if i > 0 {
                assert(bs[i] == rest[i - 1]);
            }
        }
    }
}

/// Encoding one block then others: only the final one is flagged last.
pub proof fn lemma_blocks_bytes_cons(a: BlockView, rest: Seq<BlockView>)
    ensures
        blocks_bytes(seq![a] + rest) == block_bytes(a, rest.len() == 0) + blocks_bytes(rest),
{
    let bs = seq![a] + rest;
    assert(bs.drop_first() =~= rest);
    assert(bs[0] == a);
}

/// Encoding `p` then a non-empty `r`: the blocks of `p` are not flagged last.
pub proof fn lemma_blocks_bytes_concat(p: Seq<BlockView>, r: Seq<BlockView>)
    requires
        r.len() > 0,
    ensures
        blocks_bytes(p + r) == blocks_bytes_open(p) + blocks_bytes(r),
    decreases p.len(),
{
    if p.len() == 0 {
        assert(p + r =~= r);
    } else {
        lemma_blocks_bytes_concat(p.drop_first(), r);
        assert((p + r).drop_first() =~= p.drop_first() + r);
        assert((p + r)[0] == p[0]);
    }
}

/// Reads the metadata chain at the start of `data`. Returns the blocks
/// (types and payloads, last-block flags dropped) and the offset where the
/// audio frames begin.
pub fn parse_metadata_chain(data: &[u8]) -> (r: Result<(Vec<MetaBlock>, u64), ChainError>)
    ensures
        match spec_metadata_chain(data@) {
            Ok((bs, end)) => r matches Ok((blocks, e)) && blocks_view(blocks@) == bs && e == end,
            Err(err) => r == Err::<(Vec<MetaBlock>, u64), ChainError>(err),
        },
{
    if data.len() < 4 {
        return Err(ChainError::Truncated);
    }
    if !(data[0] == 0x66 && data[1] == 0x4C && data[2] == 0x61 && data[3] == 0x43) {
        assert(data@.take(4) != flac_marker()) by {
            if data@.take(4) == flac_marker() {
                assert(data@.take(4)[0] == data@[0]);
                assert(data@.take(4)[1] == data@[1]);
                assert(data@.take(4)[2] == data@[2]);
                assert(data@.take(4)[3] == data@[3]);
            }
        }
        return Err(ChainError::NotFlac);
    }
    assert(data@.take(4) =~= flac_marker());
    let mut blocks: Vec<MetaBlock> = Vec::new();
    let mut pos: usize = 4;
    loop
        invariant
            4 <= pos <= data.len(),
            data@.take(4) == flac_marker(),
            spec_blocks_from(data@, 4) == match spec_blocks_from(data@, pos as int) {
                Some((bs, e)) => Some((blocks_view(blocks@) + bs, e)),
                None => None::<(Seq<BlockView>, int)>,
            },
        decreases data.len() - pos,
    {
        if data.len() - pos < 4 {
            return Err(ChainError::Truncated);
        }
        let kind_byte = data[pos];
        let len: usize = data[pos + 1] as usize * 65536 + data[pos + 2] as usize * 256
            + data[pos + 3] as usize;
        if data.len() - pos - 4 < len {
            return Err(ChainError::Truncated);
        }
        let end = pos + 4 + len;
        let mut payload: Vec<u8> = Vec::new();
        let mut i: usize = pos + 4;
        while i < end
            invariant
                pos + 4 <= i <= end,
                end <= data.len(),
                payload@ == data@.subrange(pos + 4, i as int),
            decreases end - i,
        {
            payload.push(data[i]);
            i = i + 1;
            assert(payload@ =~= data@.subrange(pos + 4, i as int));
        }
        let blk = MetaBlock { kind: kind_byte % 128, payload: payload };
        let ghost old_blocks = blocks@;
        blocks.push(blk);
        assert(blocks_view(blocks@) =~= blocks_view(old_blocks) + seq![blk@]);
        if kind_byte >= 128 {
            assert(blocks_view(old_blocks) + seq![blk@] + Seq::<BlockView>::empty()
                =~= blocks_view(old_blocks) + seq![blk@]);
            return Ok((blocks, end as u64));
        }
        proof {
            match spec_blocks_from(data@, end as int) {
                Some((bs, e)) => {
                    assert(blocks_view(old_blocks) + (seq![blk@] + bs) =~= blocks_view(blocks@)
                        + bs);
                },
                None => {},
            }
        }
        pos = end;
    }
}

/// Writes the metadata for `blocks`: the `fLaC` marker, then each block
/// with its header, the final one flagged last.
pub fn serialize_chain(blocks: &Vec<MetaBlock>) -> (r: Vec<u8>)
    requires
        blocks_writable(blocks_view(blocks@)),
    ensures
        r@ == chain_bytes(blocks_view(blocks@)),
{
    let mut out: Vec<u8> = vec![0x66u8, 0x4Cu8, 0x61u8, 0x43u8];
    let n = blocks.len();
    let mut i: usize = 0;
    let ghost bs = blocks_view(blocks@);
    proof {
        lemma_blocks_bytes_split(bs, 0);
    }
    while i < n
        invariant
            n == blocks.len(),
            bs == blocks_view(blocks@),
            blocks_writable(bs),
            i <= n,
            out@ + blocks_bytes(bs.skip(i as int)) == chain_bytes(bs),
        decreases n - i,
    {
        let b = &blocks[i];
        let len = b.payload.len();
        assert(bs[i as int] == b@);
        assert(len <= MAX_BLOCK_LEN);
        let flag: u8 = if i + 1 == n { 0x80 } else { 0 };
        let ghost before = out@;
        out.push(b.kind + flag);
        out.push((len / 65536) as u8);
        out.push(((len / 256) % 256) as u8);
        out.push((len % 256) as u8);
        let mut j: usize = 0;
        while j < len
            invariant
                len == b.payload.len(),
                j <= len,
                out@ == before + block_header(b.kind, len as nat, i + 1 == n) + b.payload@.take(
                    j as int,
                ),
            decreases len - j,
        {
            out.push(b.payload[j]);
            j = j + 1;
            assert(b.payload@.take(j as int) =~= b.payload@.take(j - 1) + seq![b.payload@[j - 1]]);
        }
        proof {
            assert(b.payload@.take(len as int) =~= b.payload@);
            let rest = bs.skip(i as int);
            assert(rest[0] == bs[i as int]);
            assert(rest.drop_first() =~= bs.skip(i + 1));
            assert(out@ =~= before + block_bytes(bs[i as int], rest.len() == 1));
        }
        i = i + 1;
    }
    assert(bs.skip(n as int) =~= Seq::<BlockView>::empty());
    assert(out@ =~= out@ + blocks_bytes(bs.skip(n as int)));
    out
}

proof fn lemma_blocks_bytes_split(bs: Seq<BlockView>, i: int)
    requires
        0 <= i <= bs.len(),
    ensures
        bs.skip(0) == bs,
{
    assert(bs.skip(0) =~= bs);
}

} // verus!
