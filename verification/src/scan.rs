//! Counting the samples of a FLAC stream whose STREAMINFO total is unknown
//! by walking its frame headers.
//!
//! The stream is read in chunks; the caller keeps a carry of unprocessed
//! bytes between chunks and hands each window (carry + chunk) to
//! [`scan_window`]. A header is accepted only when it parses with a valid
//! CRC-8 (see [`crate::frame`]) and its frame or sample number is the next
//! one in sequence; a stream that does not start at frame 0 is seeded from
//! the first valid header once 4 MiB passed without an accepted frame.

use vstd::prelude::*;
use crate::frame::{MAX_HEADER_LEN, parse_frame_header, spec_frame_header};

verus! {

/// Bytes scanned without an accepted frame before the sequence check is
/// relaxed to seed from the first valid header.
pub const SOFT_EOF_AFTER: u64 = 0x40_0000;

/// Largest carry kept between chunks.
pub const MAX_CARRY: usize = 64;

/// The scanner between windows.
#[derive(Clone, Copy, Debug, PartialEq, Eq, Structural)]
pub struct ScanState {
    /// Sum of the block sizes of the accepted frames (saturating); also the
    /// next sample number expected of a variable-block-size stream.
    pub running: u64,
    /// Next frame number expected of a fixed-block-size stream.
    pub frame_index: u64,
    /// A frame has been accepted.
    pub seeded: bool,
    /// Frame numbers must be in sequence.
    pub strict: bool,
    /// Bytes read since the start of the frames.
    pub scanned_so_far: u64,
    /// Frames accepted.
    pub frames_found: u64,
}

/// The scanner before the first chunk.
pub open spec fn scan_start_state() -> ScanState {
    ScanState { running: 0, frame_index: 0, seeded: false, strict: true, scanned_so_far: 0, frames_found: 0 }
}

/// The scanner before the first chunk (see [`scan_start_state`]).
pub fn scan_start() -> (r: ScanState)
    ensures
        r == scan_start_state(),
        r == (ScanState {
            running: 0,
            frame_index: 0,
            seeded: false,
            strict: true,
            scanned_so_far: 0,
            frames_found: 0,
        }),
{
    ScanState {
        running: 0,
        frame_index: 0,
        seeded: false,
        strict: true,
        scanned_so_far: 0,
        frames_found: 0,
    }
}

pub open spec fn sat_add(a: u64, b: nat) -> u64 {
    if a + b > u64::MAX {
        u64::MAX
    } else {
        (a + b) as u64
    }
}

/// The two bytes at `i` look like a frame sync code.
pub open spec fn sync_at(w: Seq<u8>, i: int) -> bool {
    w[i] == 0xFF && (w[i + 1] == 0xF8 || w[i + 1] == 0xF9)
}

/// The state after accepting a frame of `bs` samples with number `number`
/// (seeding the counters from it first when the scan is relaxed and nothing
/// was accepted yet).
pub open spec fn accept(st: ScanState, bs: nat, number: nat, variable: bool) -> ScanState {
    let seed = !st.strict && !st.seeded;
    let running0 = if seed && variable {
        number as u64
    } else {
        st.running
    };
    let index0 = if seed && !variable {
        number as u64
    } else {
        st.frame_index
    };
    ScanState {
        running: sat_add(running0, bs),
        frame_index: sat_add(index0, 1),
        seeded: true,
        strict: true,
        frames_found: (st.frames_found + 1) as u64,
        ..st
    }
}

/// A header with this number is accepted in state `st`.
pub open spec fn number_ok(st: ScanState, number: nat, variable: bool) -> bool {
    (!st.strict && !st.seeded) || number == (if variable {
        st.running
    } else {
        st.frame_index
    })
}

/// One step of the window scan at `i`: `None` when the scan stops there
/// (end of the window, or a candidate sync too close to the end of a
/// window that is not the last), else the next state and position.
pub open spec fn scan_step(st: ScanState, w: Seq<u8>, i: int, eof: bool, skip: nat) -> Option<(ScanState, int)> {
    if i + 1 >= w.len() {
        None
    } else if !sync_at(w, i) {
        Some((st, i + 1))
    } else if !eof && w.len() - i < MAX_HEADER_LEN {
        None
    } else {
        match spec_frame_header(w.skip(i)) {
            Some((bs, hlen, number, variable)) => if number_ok(st, number, variable) {
                Some((accept(st, bs, number, variable), i + (if skip > hlen { skip } else { hlen })))
            } else {
                Some((st, i + 1))
            },
            None => Some((st, i + 1)),
        }
    }
}

/// The window scan from position `i`: the final state and the position
/// where it stopped.
pub open spec fn scan_from(st: ScanState, w: Seq<u8>, i: int, eof: bool, skip: nat) -> (ScanState, int)
    decreases w.len() - i,
{
    match scan_step(st, w, i, eof, skip) {
        None => (st, i),
        Some((st2, j)) => if i < j <= w.len() {
            scan_from(st2, w, j, eof, skip)
        } else {
            (st2, j)
        },
    }
}

proof fn lemma_hlen_pos(w: Seq<u8>)
    requires
        spec_frame_header(w) is Some,
    ensures
        (spec_frame_header(w)->0).1 >= 1,
        (spec_frame_header(w)->0).1 <= w.len(),
{
}

/// Scans one window: accepts every header that parses with a valid CRC and
/// carries the expected frame or sample number, jumping past each accepted
/// frame by at least `min_frame_skip` bytes, and stops at the end of the
/// window or, when more bytes are coming (`!eof`), at a candidate sync code
/// whose header may not be complete. Returns where it stopped.
pub fn scan_window(st: &mut ScanState, window: &[u8], eof: bool, min_frame_skip: usize) -> (r: usize)
    requires
        old(st).frames_found + window.len() <= u64::MAX,
        window.len() + min_frame_skip + MAX_HEADER_LEN < usize::MAX,
    ensures
        (*final(st), r as int) == scan_from(*old(st), window@, 0, eof, min_frame_skip as nat),
{
    let mut i: usize = 0;
    let ghost w = window@;
    let ghost skip = min_frame_skip as nat;
    while i + 1 < window.len()
        invariant_except_break
            w == window@,
            skip == min_frame_skip as nat,
            window.len() + min_frame_skip + MAX_HEADER_LEN < usize::MAX,
            scan_from(*old(st), w, 0, eof, skip) == scan_from(*st, w, i as int, eof, skip),
            st.frames_found + window.len() - i <= u64::MAX,
            i <= window.len() + min_frame_skip + MAX_HEADER_LEN,
        ensures
            scan_from(*old(st), w, 0, eof, skip) == (*st, i as int),
        decreases window.len() + min_frame_skip + MAX_HEADER_LEN - i,
    {
        let b0 = window[i];
        let b1 = window[i + 1];
        if b0 == 0xFF && (b1 == 0xF8 || b1 == 0xF9) {
            if !eof && window.len() - i < MAX_HEADER_LEN {
                break;
            }
            let rest = vstd::slice::slice_subrange(window, i, window.len());
            assert(rest@ =~= w.skip(i as int));
            match parse_frame_header(rest) {
                Some((block_size, hlen, number, variable)) => {
                    proof {
                        lemma_hlen_pos(w.skip(i as int));
                    }
                    let expected = if variable {
                        st.running
                    } else {
                        st.frame_index
                    };
                    if !st.strict && !st.seeded {
                        if variable {
                            st.running = number;
                        } else {
                            st.frame_index = number;
                        }
                    } else if number != expected {
                        i = i + 1;
                        continue;
                    }
                    st.running = if st.running > u64::MAX - block_size as u64 {
                        u64::MAX
                    } else {
                        st.running + block_size as u64
                    };
                    st.frame_index = if st.frame_index == u64::MAX {
                        u64::MAX
                    } else {
                        st.frame_index + 1
                    };
                    st.seeded = true;
                    st.strict = true;
                    st.frames_found = st.frames_found + 1;
                    let step = if min_frame_skip > hlen {
                        min_frame_skip
                    } else {
                        hlen
                    };
                    i = i + step;
                    continue;
                },
                None => {
                    i = i + 1;
                },
            }
        } else {
            i = i + 1;
        }
    }
    i
}

/// The state after a chunk of `n` bytes that was not the last: the bytes
/// are counted, and after 4 MiB without an accepted frame the sequence
/// check is relaxed.
pub open spec fn spec_after_chunk(st: ScanState, n: u64) -> ScanState {
    let scanned = sat_add(st.scanned_so_far, n as nat);
    ScanState {
        scanned_so_far: scanned,
        strict: if !st.seeded && st.strict && scanned >= SOFT_EOF_AFTER {
            false
        } else {
            st.strict
        },
        ..st
    }
}

/// Updates the scanner after a chunk of `n` bytes that was not the last.
pub fn scan_after_chunk(st: &mut ScanState, n: u64)
    requires
        old(st).scanned_so_far + n <= u64::MAX,
    ensures
        *final(st) == spec_after_chunk(*old(st), n),
{
    st.scanned_so_far = st.scanned_so_far + n;
    if !st.seeded && st.strict && st.scanned_so_far >= SOFT_EOF_AFTER {
        st.strict = false;
    }
}

/// Where the carry kept for the next window starts: at the stop position
/// (clamped to the window) but never more than 64 bytes before its end.
pub open spec fn spec_carry_start(stop: int, window_len: int) -> int {
    let clamped = if stop < window_len {
        stop
    } else {
        window_len
    };
    let floor = if window_len > MAX_CARRY {
        window_len - MAX_CARRY
    } else {
        0
    };
    if clamped > floor {
        clamped
    } else {
        floor
    }
}

pub fn carry_start(stop: usize, window_len: usize) -> (r: usize)
    ensures
        r == spec_carry_start(stop as int, window_len as int),
        r <= window_len,
        window_len - r <= MAX_CARRY,
{
    let clamped = if stop < window_len {
        stop
    } else {
        window_len
    };
    let floor = if window_len > MAX_CARRY {
        window_len - MAX_CARRY
    } else {
        0
    };
    if clamped > floor {
        clamped
    } else {
        floor
    }
}

/// Sum of block sizes.
pub open spec fn sizes_sum(sizes: Seq<nat>) -> nat
    decreases sizes.len(),
{
    if sizes.len() == 0 {
        0
    } else {
        sizes_sum(sizes.drop_last()) + sizes.last()
    }
}

/// `w` is a sequence of frames of a fixed-block-size stream numbered from
/// 0: frame `k` spans `starts[k]..starts[k + 1]`, begins with a header that
/// parses (CRC included) with frame number `k` and block size `sizes[k]`,
/// and no frame sync code appears in the rest of the frame.
pub open spec fn frame_sequence(w: Seq<u8>, starts: Seq<int>, sizes: Seq<nat>) -> bool {
    &&& starts.len() == sizes.len() + 1
    &&& starts[0] == 0
    &&& starts[sizes.len() as int] == w.len()
    &&& forall|k: int| 0 <= k <= sizes.len() ==> 0 <= #[trigger] starts[k] <= w.len()
    &&& forall|k: int|
        0 <= k < sizes.len() ==> {
            &&& starts[k] < starts[k + 1]
            &&& #[trigger] spec_frame_header(w.skip(starts[k])) matches Some((bs, hl, num, var))
            &&& bs == sizes[k] && num == k && !var
            &&& starts[k] + hl <= starts[k + 1]
            &&& forall|j: int|
                starts[k] + hl <= j < starts[k + 1] && j + 1 < w.len() ==> !sync_at(w, j)
        }
}

proof fn lemma_sum_prefix(sizes: Seq<nat>, k: int)
    requires
        0 <= k < sizes.len(),
    ensures
        sizes_sum(sizes.take(k + 1)) == sizes_sum(sizes.take(k)) + sizes[k],
        sizes_sum(sizes.take(k + 1)) <= sizes_sum(sizes),
    decreases sizes.len() - k,
{
    assert(sizes.take(k + 1).drop_last() =~= sizes.take(k));
    if k + 1 < sizes.len() {
        lemma_sum_prefix(sizes, k + 1);
    } else {
        assert(sizes.take(k + 1) =~= sizes);
    }
}

/// Each of the first `n` frames is at least `skip` bytes long (what the
/// minimum frame size of STREAMINFO promises).
pub open spec fn frames_at_least(starts: Seq<int>, n: nat, skip: nat) -> bool {
    forall|k: int| 0 <= k < n ==> #[trigger] starts[k] + skip <= starts[k + 1]
}

/// `st` is the scanner after the first `f` frames of a sequence of block
/// sizes `sizes` (its byte count aside).
pub open spec fn after_frames(st: ScanState, sizes: Seq<nat>, f: int) -> bool {
    &&& st.running == sizes_sum(sizes.take(f))
    &&& st.frame_index == f
    &&& st.seeded == (f > 0)
    &&& st.strict
    &&& st.frames_found == f
}

/// Where the chunk before chunk `k` ends (0 for the first).
pub open spec fn chunk_start(ends: Seq<int>, k: int) -> int {
    if k <= 0 {
        0
    } else {
        ends[k - 1]
    }
}

/// `ends` are the ends of the chunks in which a stream of `len` bytes is
/// read: each chunk holds at least one byte, and the last ends the stream.
pub open spec fn chunk_ends(ends: Seq<int>, len: nat) -> bool {
    &&& forall|k: int| 0 <= k < ends.len() ==> chunk_start(ends, k) < #[trigger] ends[k]
    &&& chunk_start(ends, ends.len() as int) == len
}

/// The scan of a stream `w` read in chunks that end at `ends`, from the
/// `k`-th chunk on, with the carry starting at `c`: each window is the
/// carry followed by the next chunk; after it the scanner counts the chunk
/// and keeps as carry the bytes from where the window scan stopped (see
/// [`spec_carry_start`]); the last window, scanned as the end of the
/// stream, is the carry alone.
pub open spec fn scan_chunks(st: ScanState, w: Seq<u8>, c: int, ends: Seq<int>, k: int, skip: nat) -> ScanState
    decreases ends.len() - k,
{
    if k < 0 || k >= ends.len() {
        scan_from(st, w.subrange(c, w.len() as int), 0, true, skip).0
    } else {
        let win = w.subrange(c, ends[k]);
        let (st1, stop) = scan_from(st, win, 0, false, skip);
        let st2 = spec_after_chunk(st1, (ends[k] - chunk_start(ends, k)) as u64);
        scan_chunks(st2, w, c + spec_carry_start(stop, win.len() as int), ends, k + 1, skip)
    }
}

proof fn lemma_coded_value_prefix(a: Seq<u8>, b: Seq<u8>, k: nat)
    requires
        k < a.len(),
        k < b.len(),
        forall|j: int| 0 <= j <= k ==> a[j] == b[j],
    ensures
        crate::frame::coded_value(a, k) == crate::frame::coded_value(b, k),
    decreases k,
{
    if k > 0 {
        lemma_coded_value_prefix(a, b, (k - 1) as nat);
    }
}

/// A frame header is read from its first `MAX_HEADER_LEN` bytes only.
proof fn lemma_header_prefix(s: Seq<u8>, m: int)
    requires
        MAX_HEADER_LEN <= m <= s.len(),
    ensures
        spec_frame_header(s.take(m)) == spec_frame_header(s),
{
    let t = s.take(m);
    let a = t.skip(4);
    let b = s.skip(4);
    assert(t[0] == s[0] && t[1] == s[1] && t[2] == s[2] && t[3] == s[3]);
    if crate::frame::fixed_fields_valid(s) {
        assert(a.len() >= 8);
        assert forall|j: int| 0 <= j < 8 implies a[j] == b[j] by {
            assert(a[j] == t[j + 4] && b[j] == s[j + 4]);
        }
        let cl = crate::frame::coded_len(b[0]);
        assert(cl <= 8);
        if cl >= 1 {
            lemma_coded_value_prefix(a, b, (cl - 1) as nat);
        }
        assert((exists|j: int| 1 <= j < cl && !crate::frame::is_continuation(#[trigger] a[j])) == (exists|j: int|
            1 <= j < cl && !crate::frame::is_continuation(#[trigger] b[j]))) by {
            if exists|j: int| 1 <= j < cl && !crate::frame::is_continuation(#[trigger] a[j]) {
                let j = choose|j: int| 1 <= j < cl && !crate::frame::is_continuation(#[trigger] a[j]);
                assert(!crate::frame::is_continuation(b[j]));
            }
            if exists|j: int| 1 <= j < cl && !crate::frame::is_continuation(#[trigger] b[j]) {
                let j = choose|j: int| 1 <= j < cl && !crate::frame::is_continuation(#[trigger] b[j]);
                assert(!crate::frame::is_continuation(a[j]));
            }
        }
        assert(crate::frame::spec_read_coded(a) == crate::frame::spec_read_coded(b));
        match crate::frame::spec_read_coded(b) {
            None => {},
            Some((number, clen)) => {
                let pos = 4 + clen;
                let hpos = pos + crate::frame::extra_bs_len(crate::frame::bs_code(s)) + crate::frame::extra_sr_len(
                    crate::frame::sr_code(s),
                );
                assert(hpos <= 16);
                assert(t[pos as int] == s[pos as int]);
                assert(t[(pos + 1) as int] == s[(pos + 1) as int]);
                assert(t[hpos as int] == s[hpos as int]);
                assert(t.take(hpos as int) =~= s.take(hpos as int));
            },
        }
    }
}

proof fn lemma_header_shape(s: Seq<u8>)
    requires
        spec_frame_header(s) is Some,
    ensures
        s.len() >= 2,
        s[0] == 0xFF && (s[1] == 0xF8 || s[1] == 0xF9),
        2 <= (spec_frame_header(s)->0).1 <= s.len(),
{
}

/// The step at the header of frame `f`, found at `i` in the window `w[c..e]`:
/// it is accepted, and the scan jumps past it by at least its header.
#[verifier::rlimit(60)]
#[verifier::spinoff_prover]
proof fn lemma_accept_at(
    w: Seq<u8>,
    starts: Seq<int>,
    sizes: Seq<nat>,
    skip: nat,
    c: int,
    e: int,
    eof: bool,
    st: ScanState,
    i: int,
    f: int,
) -> (r: (ScanState, int))
    requires
        frame_sequence(w, starts, sizes),
        frames_at_least(starts, sizes.len(), skip),
        sizes_sum(sizes) <= u64::MAX,
        sizes.len() < u64::MAX,
        0 <= c <= e <= w.len(),
        eof ==> e == w.len(),
        0 <= i,
        i + 1 < e - c,
        eof || e - c - i >= MAX_HEADER_LEN,
        0 <= f < sizes.len(),
        c + i == starts[f],
        after_frames(st, sizes, f),
    ensures
        scan_step(st, w.subrange(c, e), i, eof, skip) == Some((r.0, i + r.1)),
        after_frames(r.0, sizes, f + 1),
        r.0.scanned_so_far == st.scanned_so_far,
        2 <= r.1,
        c + i + r.1 <= starts[f + 1],
        e < c + i + r.1 ==> forall|j: int| e <= j < starts[f + 1] && j + 1 < w.len() ==> !sync_at(w, j),
        forall|j: int| c + i + r.1 <= j < starts[f + 1] && j + 1 < w.len() ==> !sync_at(w, j),
{
    let win = w.subrange(c, e);
    let len = e - c;
    let hs = w.skip(c + i);
    assert(spec_frame_header(w.skip(starts[f])) is Some);
    assert(0 <= starts[f + 1] <= w.len());
    if eof {
        assert(win.skip(i) =~= hs);
    } else {
        lemma_header_prefix(hs, len - i);
        assert(win.skip(i) =~= hs.take(len - i));
    }
    let (bs, hl, num, var) = spec_frame_header(hs)->0;
    lemma_header_shape(win.skip(i));
    lemma_header_shape(hs);
    assert(win[i] == w[c + i] && win[i + 1] == w[c + i + 1]);
    assert(sync_at(win, i));
    lemma_sum_prefix(sizes, f);
    let st2 = accept(st, bs, num, var);
    assert(after_frames(st2, sizes, f + 1));
    let jump: int = if skip > hl {
        skip as int
    } else {
        hl as int
    };
    assert(starts[f] + skip <= starts[f + 1]);
    assert(scan_step(st, win, i, eof, skip) == Some((st2, i + jump)));
    (st2, jump)
}

/// One window `w[c..e]` of a frame sequence, scanned from `i` with the
/// scanner after `f` frames and no sync code between `c + i` and frame `f`:
/// the scan accepts exactly the frames whose headers it reaches, and stops
/// where the next window must resume; at the end of the stream it has
/// accepted them all.
proof fn lemma_window_from(
    w: Seq<u8>,
    starts: Seq<int>,
    sizes: Seq<nat>,
    skip: nat,
    c: int,
    e: int,
    eof: bool,
    st: ScanState,
    i: int,
    f: int,
) -> (f2: int)
    requires
        frame_sequence(w, starts, sizes),
        frames_at_least(starts, sizes.len(), skip),
        sizes_sum(sizes) <= u64::MAX,
        sizes.len() < u64::MAX,
        0 <= c <= e <= w.len(),
        eof ==> e == w.len(),
        0 <= i <= e - c,
        0 <= f <= sizes.len(),
        c + i <= starts[f],
        forall|j: int| c + i <= j < starts[f] && j + 1 < w.len() ==> !sync_at(w, j),
        after_frames(st, sizes, f),
        f == 0 ==> c + i == 0,
    ensures
        f <= f2 <= sizes.len(),
        ({
            let (st1, stop) = scan_from(st, w.subrange(c, e), i, eof, skip);
            let p = c + (if stop < e - c {
                stop
            } else {
                e - c
            });
            &&& after_frames(st1, sizes, f2)
            &&& st1.scanned_so_far == st.scanned_so_far
            &&& i <= stop
            &&& p <= starts[f2]
            &&& forall|j: int| p <= j < starts[f2] && j + 1 < w.len() ==> !sync_at(w, j)
            &&& f2 == 0 ==> p == 0
            &&& eof ==> f2 == sizes.len()
            &&& !eof ==> stop >= e - c - MAX_HEADER_LEN
            &&& !eof && f2 == 0 ==> e - c < MAX_HEADER_LEN
        }),
    decreases e - c - i,
{
    let win = w.subrange(c, e);
    let len = e - c;
    let n = sizes.len() as int;
    if f < n {
        assert(spec_frame_header(w.skip(starts[f])) is Some);
        lemma_header_shape(w.skip(starts[f]));
        assert(w.skip(starts[f])[0] == w[starts[f]] && w.skip(starts[f])[1] == w[starts[f] + 1]);
        assert(0 <= starts[f + 1] <= w.len());
    }
    if i + 1 >= len {
        f
    } else {
        assert(win[i] == w[c + i] && win[i + 1] == w[c + i + 1]);
        if !sync_at(win, i) {
            lemma_window_from(w, starts, sizes, skip, c, e, eof, st, i + 1, f)
        } else if !eof && len - i < MAX_HEADER_LEN {
            f
        } else {
            assert(sync_at(w, c + i));
            assert(c + i + 1 < w.len());
            assert(c + i == starts[f] && f < n);
            let (st2, jump) = lemma_accept_at(w, starts, sizes, skip, c, e, eof, st, i, f);
            if i + jump <= len {
                lemma_window_from(w, starts, sizes, skip, c, e, eof, st2, i + jump, f + 1)
            } else {
                f + 1
            }
        }
    }
}

proof fn lemma_chunks_from(
    w: Seq<u8>,
    starts: Seq<int>,
    sizes: Seq<nat>,
    ends: Seq<int>,
    skip: nat,
    st: ScanState,
    c: int,
    k: int,
    f: int,
)
    requires
        frame_sequence(w, starts, sizes),
        frames_at_least(starts, sizes.len(), skip),
        sizes_sum(sizes) <= u64::MAX,
        sizes.len() < u64::MAX,
        w.len() <= u64::MAX,
        chunk_ends(ends, w.len()),
        0 <= k <= ends.len(),
        0 <= c <= chunk_start(ends, k),
        0 <= f <= sizes.len(),
        c <= starts[f],
        forall|j: int| c <= j < starts[f] && j + 1 < w.len() ==> !sync_at(w, j),
        after_frames(st, sizes, f),
        f == 0 ==> c == 0 && chunk_start(ends, k) < MAX_HEADER_LEN,
        st.scanned_so_far == chunk_start(ends, k),
    ensures
        after_frames(scan_chunks(st, w, c, ends, k, skip), sizes, sizes.len() as int),
    decreases ends.len() - k,
{
    lemma_chunk_starts(ends, w.len(), k);
    if k >= ends.len() {
        lemma_window_from(w, starts, sizes, skip, c, w.len() as int, true, st, 0, f);
    } else {
        let e = ends[k];
        let win = w.subrange(c, e);
        let f2 = lemma_window_from(w, starts, sizes, skip, c, e, false, st, 0, f);
        let (st1, stop) = scan_from(st, win, 0, false, skip);
        let st2 = spec_after_chunk(st1, (e - chunk_start(ends, k)) as u64);
        assert(st2.scanned_so_far == e);
        assert(after_frames(st2, sizes, f2));
        let c2 = c + spec_carry_start(stop, win.len() as int);
        assert(c2 == c + (if stop < e - c {
            stop
        } else {
            e - c
        }));
        lemma_chunks_from(w, starts, sizes, ends, skip, st2, c2, k + 1, f2);
    }
}

proof fn lemma_chunk_starts(ends: Seq<int>, len: nat, k: int)
    requires
        chunk_ends(ends, len),
        0 <= k <= ends.len(),
    ensures
        0 <= chunk_start(ends, k) <= len,
        k < ends.len() ==> chunk_start(ends, k) < ends[k] <= len,
    decreases ends.len() - k,
{
    if k < ends.len() {
        assert(chunk_start(ends, k) < ends[k]);
        lemma_chunk_starts(ends, len, k + 1);
        assert(chunk_start(ends, k + 1) == ends[k]);
        if k > 0 {
            lemma_chunk_starts_up(ends, len, k);
        }
    }
}

proof fn lemma_chunk_starts_up(ends: Seq<int>, len: nat, k: int)
    requires
        chunk_ends(ends, len),
        0 <= k <= ends.len(),
    ensures
        0 <= chunk_start(ends, k),
    decreases k,
{
    if k > 0 {
        assert(chunk_start(ends, k - 1) < ends[k - 1]);
        lemma_chunk_starts_up(ends, len, k - 1);
    }
}

/// The frame scan is exact: on a whole stream of frames numbered from 0,
/// each starting with a CRC-valid header, free of sync codes after it and
/// at least `skip` bytes long, the scan of the stream as one window finds
/// every frame and sums their block sizes.
pub proof fn lemma_scan_counts_frames(w: Seq<u8>, starts: Seq<int>, sizes: Seq<nat>, skip: nat)
    requires
        frame_sequence(w, starts, sizes),
        frames_at_least(starts, sizes.len(), skip),
        sizes_sum(sizes) <= u64::MAX,
        sizes.len() < u64::MAX,
    ensures
        scan_from(scan_start_state(), w, 0, true, skip).0.running == sizes_sum(sizes),
        scan_from(scan_start_state(), w, 0, true, skip).0.frames_found == sizes.len(),
{
    assert(sizes.take(0) =~= Seq::<nat>::empty());
    assert(w.subrange(0, w.len() as int) =~= w);
    lemma_window_from(w, starts, sizes, skip, 0, w.len() as int, true, scan_start_state(), 0, 0);
    assert(sizes.take(sizes.len() as int) =~= sizes);
}

/// Reading the stream in chunks changes nothing: for every split of such a
/// stream into chunks, the window-by-window scan with its carry and chunk
/// counting gives the one-window result, every frame and the sum of their
/// block sizes.
pub proof fn lemma_chunked_scan_counts_frames(
    w: Seq<u8>,
    starts: Seq<int>,
    sizes: Seq<nat>,
    ends: Seq<int>,
    skip: nat,
)
    requires
        frame_sequence(w, starts, sizes),
        frames_at_least(starts, sizes.len(), skip),
        sizes_sum(sizes) <= u64::MAX,
        sizes.len() < u64::MAX,
        w.len() <= u64::MAX,
        chunk_ends(ends, w.len()),
    ensures
        scan_chunks(scan_start_state(), w, 0, ends, 0, skip).running == sizes_sum(sizes),
        scan_chunks(scan_start_state(), w, 0, ends, 0, skip).frames_found == sizes.len(),
        scan_chunks(scan_start_state(), w, 0, ends, 0, skip).running == scan_from(
            scan_start_state(),
            w,
            0,
            true,
            skip,
        ).0.running,
        scan_chunks(scan_start_state(), w, 0, ends, 0, skip).frames_found == scan_from(
            scan_start_state(),
            w,
            0,
            true,
            skip,
        ).0.frames_found,
{
    assert(sizes.take(0) =~= Seq::<nat>::empty());
    lemma_chunks_from(w, starts, sizes, ends, skip, scan_start_state(), 0, 0, 0);
    assert(sizes.take(sizes.len() as int) =~= sizes);
    lemma_scan_counts_frames(w, starts, sizes, skip);
}

} // verus!
