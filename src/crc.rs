//! CRC-32 (the reflected 0xEDB88320 polynomial, initial value and final xor
//! of all ones), the checksum that keys an entry by its name.
use vstd::prelude::*;

verus! {

/// The reflected CRC-32 polynomial.
pub const POLYNOMIAL: u32 = 0xEDB8_8320;

/// One shift of the CRC register.
pub open spec fn crc_bit_step(c: u32) -> u32 {
    if c & 1 == 1 {
        (c >> 1) ^ POLYNOMIAL
    } else {
        c >> 1
    }
}

/// `n` shifts of the CRC register.
pub open spec fn crc_shifts(c: u32, n: nat) -> u32
    decreases n,
{
    if n == 0 {
        c
    } else {
        crc_bit_step(crc_shifts(c, (n - 1) as nat))
    }
}

/// The register after taking in one more byte.
pub open spec fn crc_byte_step(c: u32, b: u8) -> u32 {
    crc_shifts(c ^ (b as u32), 8)
}

/// The register after taking in all of `s`, starting from all ones.
pub open spec fn crc_register(s: Seq<u8>) -> u32
    decreases s.len(),
{
    if s.len() == 0 {
        0xFFFF_FFFF
    } else {
        crc_byte_step(crc_register(s.drop_last()), s.last())
    }
}

/// The CRC-32 checksum of `s`.
pub open spec fn crc32(s: Seq<u8>) -> u32 {
    crc_register(s) ^ 0xFFFF_FFFF
}

/// The CRC-32 checksum of `bytes`.
pub fn compute_from_bytes(bytes: &[u8]) -> (r: u32)
    ensures
        r == crc32(bytes@),
{
    let mut c: u32 = 0xFFFF_FFFF;
    let mut i: usize = 0;
    while i < bytes.len()
        invariant
            i <= bytes@.len(),
            c == crc_register(bytes@.subrange(0, i as int)),
        decreases bytes@.len() - i,
    {
        let b = bytes[i];
        let start = c ^ (b as u32);
        let mut k: u32 = 0;
        c = start;
        while k < 8
            invariant
                k <= 8,
                c == crc_shifts(start, k as nat),
            decreases 8 - k,
        {
            if c & 1 == 1 {
                c = (c >> 1) ^ POLYNOMIAL;
            } else {
                c = c >> 1;
            }
            k = k + 1;
        }
        proof {
            let t = bytes@.subrange(0, i + 1);
            assert(t.drop_last() =~= bytes@.subrange(0, i as int));
        }
        i = i + 1;
    }
    assert(bytes@.subrange(0, bytes@.len() as int) =~= bytes@);
    c ^ 0xFFFF_FFFF
}

} // verus!
