//! Repairing a wrong STREAMINFO `total_samples` in place.
//!
//! The last 8 bytes of the STREAMINFO fields (file offset 18) pack
//! `sample_rate` (20 bits), `channels - 1` (3), `bits_per_sample - 1` (5)
//! and `total_samples` (36), big-endian. When the true count is known and
//! fits 36 bits, only the low 36 bits of that word are replaced.

use vstd::prelude::*;

verus! {

/// File offset of the packed rate/channels/bits/total word.
pub const PACKED_OFFSET: u64 = 18;

/// 2^36: the total occupies the low 36 bits of the packed word.
pub const TOTAL_FIELD: u64 = 0x10_0000_0000;

/// Why a STREAMINFO cannot be patched.
#[derive(Clone, Copy, Debug, PartialEq, Eq, Structural)]
pub enum RepairError {
    /// The file ends before the packed word.
    Truncated,
    /// The file does not start with `fLaC`.
    NotFlac,
    /// The first metadata block is not a STREAMINFO block.
    NotStreamInfo,
    /// The STREAMINFO block does not have 34 bytes.
    BadLength(u32),
    /// The total on disk differs from the one the probe read.
    Mismatch { on_disk: u64, declared: u64 },
}

/// A big-endian number.
pub open spec fn be_value(s: Seq<u8>) -> nat
    decreases s.len(),
{
    if s.len() == 0 {
        0
    } else {
        be_value(s.drop_last()) * 256 + s.last() as nat
    }
}

/// The patch of the packed word at offset 18 of a file whose first bytes
/// are `front`: `Ok(None)` when nothing is to change (no true count, the
/// same count, or one that does not fit 36 bits), `Ok(Some(word))` for the
/// new word, an error when the layout is not the expected one or the total
/// on disk is not `declared`.
pub open spec fn spec_plan_total_repair(front: Seq<u8>, declared: u64, true_total: u64) -> Result<Option<u64>, RepairError> {
    if true_total == 0 || true_total == declared || true_total >= TOTAL_FIELD {
        Ok(None)
    } else if front.len() < 4 {
        Err(RepairError::Truncated)
    } else if !(front[0] == 0x66 && front[1] == 0x4C && front[2] == 0x61 && front[3] == 0x43) {
        Err(RepairError::NotFlac)
    } else if front.len() < 8 {
        Err(RepairError::Truncated)
    } else if front[4] % 128 != 0 {
        Err(RepairError::NotStreamInfo)
    } else if be_value(front.subrange(5, 8)) != 34 {
        Err(RepairError::BadLength(be_value(front.subrange(5, 8)) as u32))
    } else if front.len() < 26 {
        Err(RepairError::Truncated)
    } else {
        let packed = be_value(front.subrange(18, 26));
        if packed % (TOTAL_FIELD as nat) != declared {
            Err(RepairError::Mismatch { on_disk: (packed % (TOTAL_FIELD as nat)) as u64, declared })
        } else {
            Ok(Some((packed / (TOTAL_FIELD as nat) * (TOTAL_FIELD as nat) + true_total) as u64))
        }
    }
}

/// `256^n`.
pub open spec fn pow256(n: nat) -> nat
    decreases n,
{
    if n == 0 {
        1
    } else {
        256 * pow256((n - 1) as nat)
    }
}

proof fn lemma_be_value_bound(s: Seq<u8>)
    ensures
        be_value(s) < pow256(s.len()),
    decreases s.len(),
{
    if s.len() > 0 {
        lemma_be_value_bound(s.drop_last());
        let p = pow256((s.len() - 1) as nat);
        assert(be_value(s.drop_last()) * 256 + s.last() < 256 * p) by (nonlinear_arith)
            requires
                be_value(s.drop_last()) < p,
                s.last() < 256,
        ;
    }
}

proof fn lemma_pow256_small(k: nat)
    requires
        k <= 8,
    ensures
        pow256(k) <= 0x1_0000_0000_0000_0000,
        k <= 7 ==> pow256(k) <= 0x100_0000_0000_0000,
{
    reveal_with_fuel(pow256, 9);
}

/// The big-endian value of `s[from..to]`, at most 8 bytes.
fn read_be(s: &[u8], from: usize, to: usize) -> (r: u64)
    requires
        from <= to <= s.len(),
        to - from <= 8,
    ensures
        r == be_value(s@.subrange(from as int, to as int)),
{
    let mut v: u64 = 0;
    let mut i: usize = from;
    while i < to
        invariant
            from <= i <= to,
            to <= s.len(),
            to - from <= 8,
            v == be_value(s@.subrange(from as int, i as int)),
        decreases to - i,
    {
        proof {
            lemma_be_value_bound(s@.subrange(from as int, i as int));
            lemma_pow256_small((i - from) as nat);
            assert(s@.subrange(from as int, i + 1).drop_last() =~= s@.subrange(from as int, i as int));
        }
        assert(v * 256 + s[i as int] <= u64::MAX) by (nonlinear_arith)
            requires
                v < 0x100_0000_0000_0000,
                s[i as int] < 256,
        ;
        v = v * 256 + s[i] as u64;
        i = i + 1;
    }
    v
}

/// Plans the repair of the declared total of a file whose first bytes are
/// `front` (see [`spec_plan_total_repair`]); the caller writes the new word
/// big-endian at [`PACKED_OFFSET`].
pub fn plan_total_repair(front: &[u8], declared: u64, true_total: u64) -> (r: Result<Option<u64>, RepairError>)
    ensures
        r == spec_plan_total_repair(front@, declared, true_total),
{
    if true_total == 0 || true_total == declared || true_total >= TOTAL_FIELD {
        return Ok(None);
    }
    if front.len() < 4 {
        return Err(RepairError::Truncated);
    }
    if !(front[0] == 0x66 && front[1] == 0x4C && front[2] == 0x61 && front[3] == 0x43) {
        return Err(RepairError::NotFlac);
    }
    if front.len() < 8 {
        return Err(RepairError::Truncated);
    }
    if front[4] % 128 != 0 {
        return Err(RepairError::NotStreamInfo);
    }
    let block_len = read_be(front, 5, 8);
    if block_len != 34 {
        return Err(RepairError::BadLength(block_len as u32));
    }
    if front.len() < 26 {
        return Err(RepairError::Truncated);
    }
    let packed = read_be(front, 18, 26);
    let on_disk = packed % TOTAL_FIELD;
    if on_disk != declared {
        return Err(RepairError::Mismatch { on_disk: on_disk, declared: declared });
    }
    let high = packed / TOTAL_FIELD;
    assert(high * TOTAL_FIELD + on_disk == packed) by (nonlinear_arith)
        requires
            high == packed / 0x10_0000_0000,
            on_disk == packed % 0x10_0000_0000,
    ;
    Ok(Some(high * TOTAL_FIELD + true_total))
}

/// The repaired word keeps the rate, channel and bit-depth fields (the high
/// 28 bits) and carries the true total in the low 36 bits.
pub proof fn lemma_repair_keeps_format(front: Seq<u8>, declared: u64, true_total: u64)
    requires
        spec_plan_total_repair(front, declared, true_total) matches Ok(Some(_)),
    ensures
        ({
            let old_word = be_value(front.subrange(18, 26));
            let new_word = spec_plan_total_repair(front, declared, true_total)->Ok_0->0;
            &&& new_word / TOTAL_FIELD == old_word / (TOTAL_FIELD as nat)
            &&& new_word % TOTAL_FIELD == true_total
            &&& old_word % (TOTAL_FIELD as nat) == declared
        }),
{
    let old_word = be_value(front.subrange(18, 26));
    lemma_be_value_bound(front.subrange(18, 26));
    lemma_pow256_small(8);
    let h = old_word / (TOTAL_FIELD as nat);
    assert(h * 0x10_0000_0000 + true_total < 0x1_0000_0000_0000_0000) by (nonlinear_arith)
        requires
            h == old_word / 0x10_0000_0000,
            old_word < 0x1_0000_0000_0000_0000,
            true_total < 0x10_0000_0000,
    ;
    assert((h * 0x10_0000_0000 + true_total) / 0x10_0000_0000 == h && (h * 0x10_0000_0000 + true_total)
        % 0x10_0000_0000 == true_total) by (nonlinear_arith)
        requires
            true_total < 0x10_0000_0000,
            h >= 0,
    ;
}

} // verus!
