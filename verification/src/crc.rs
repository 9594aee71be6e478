//! CRC-32, as Ethernet, gzip and U-Boot compute it.

use vstd::prelude::*;

verus! {

/// The polynomial, lowest power first.
pub const POLYNOMIAL: u32 = 0xEDB8_8320;

/// One bit shifted out.
pub open spec fn shifted(c: u32) -> u32 {
    if c & 1 == 1 {
        (c >> 1) ^ POLYNOMIAL
    } else {
        c >> 1
    }
}

/// `n` bits shifted out.
pub open spec fn shifted_by(c: u32, n: nat) -> u32
    decreases n,
{
    if n == 0 {
        c
    } else {
        shifted(shifted_by(c, (n - 1) as nat))
    }
}

/// The register after the first `n` bytes.
pub open spec fn register(b: Seq<u8>, n: nat) -> u32
    decreases n,
{
    if n == 0 {
        0xFFFF_FFFF
    } else {
        shifted_by(register(b, (n - 1) as nat) ^ (b[n - 1] as u32), 8)
    }
}

/// The CRC-32 of bytes.
pub open spec fn crc_of(b: Seq<u8>) -> u32 {
    register(b, b.len()) ^ 0xFFFF_FFFF
}

pub fn crc32(b: &[u8]) -> (r: u32)
    ensures
        r == crc_of(b@),
{
    let mut c: u32 = 0xFFFF_FFFF;
    let mut i: usize = 0;
    while i < b.len()
        invariant
            i <= b@.len(),
            c == register(b@, i as nat),
        decreases b@.len() - i,
    {
        let start: u32 = c ^ (b[i] as u32);
        c = start;
        let mut n: u8 = 0;
        while n < 8
            invariant
                n <= 8,
                c == shifted_by(start, n as nat),
            decreases 8 - n,
        {
            c = if c & 1 == 1 {
                (c >> 1) ^ POLYNOMIAL
            } else {
                c >> 1
            };
            n += 1;
        }
        i += 1;
    }
    c ^ 0xFFFF_FFFF
}

} // verus!
