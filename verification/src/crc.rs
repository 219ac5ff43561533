//! CRC-8 as used by FLAC frame headers (polynomial x^8 + x^2 + x + 1,
//! initial value 0, no reflection).

use vstd::prelude::*;

verus! {

/// One bit step of the CRC-8 register.
pub open spec fn crc8_bit_step(x: u8) -> u8 {
    if x >= 0x80 {
        ((x as int * 2 - 256) as u8) ^ 0x07u8
    } else {
        ((x as int * 2) as u8)
    }
}

/// `n` bit steps of the CRC-8 register.
pub open spec fn crc8_bit_steps(x: u8, n: nat) -> u8
    decreases n,
{
    if n == 0 {
        x
    } else {
        crc8_bit_step(crc8_bit_steps(x, (n - 1) as nat))
    }
}

/// Fold one byte into the CRC-8 register.
pub open spec fn crc8_update(crc: u8, b: u8) -> u8 {
    crc8_bit_steps(crc ^ b, 8)
}

/// CRC-8 of a byte sequence.
pub open spec fn crc8(data: Seq<u8>) -> u8
    decreases data.len(),
{
    if data.len() == 0 {
        0
    } else {
        crc8_update(crc8(data.drop_last()), data.last())
    }
}

fn crc8_update_exec(crc: u8, b: u8) -> (r: u8)
    ensures
        r == crc8_update(crc, b),
{
    let mut x: u8 = crc ^ b;
    let ghost x0 = x;
    let mut k: u8 = 0;
    while k < 8
        invariant
            k <= 8,
            x == crc8_bit_steps(x0, k as nat),
        decreases 8 - k,
    {
        if x >= 0x80 {
            x = (x - 128) * 2 ^ 0x07;
        } else {
            x = x * 2;
        }
        k = k + 1;
    }
    x
}

/// CRC-8 of `data[..end]`.
pub fn crc8_prefix(data: &[u8], end: usize) -> (r: u8)
    requires
        end <= data.len(),
    ensures
        r == crc8(data@.subrange(0, end as int)),
{
    let mut c: u8 = 0;
    let mut i: usize = 0;
    while i < end
        invariant
            i <= end,
            end <= data.len(),
            c == crc8(data@.subrange(0, i as int)),
        decreases end - i,
    {
        assert(data@.subrange(0, (i + 1) as int).drop_last() =~= data@.subrange(0, i as int));
        c = crc8_update_exec(c, data[i]);
        i = i + 1;
    }
    c
}

} // verus!
