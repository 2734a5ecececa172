//! CRC-32 as zip uses it: the reflected polynomial 0xEDB88320, bit by bit.

use vstd::prelude::*;

verus! {

/// One bit of the reflected CRC-32 register update.
pub open spec fn crc_shift(c: u32) -> u32 {
    if c & 1 == 1 {
        0xEDB8_8320u32 ^ (c >> 1)
    } else {
        c >> 1
    }
}

/// Eight bit steps: one byte.
pub open spec fn crc_shift8(c: u32) -> u32 {
    crc_shift(crc_shift(crc_shift(crc_shift(crc_shift(crc_shift(crc_shift(crc_shift(c))))))))
}

/// The byte-wise register update without the customary inversions.
pub open spec fn spec_crc32_byte(crc: u32, byte: u8) -> u32 {
    crc_shift8(crc ^ (byte as u32))
}

/// The register after feeding `data`, starting from `crc`.
pub open spec fn crc_update(crc: u32, data: Seq<u8>) -> u32
    decreases data.len(),
{
    if data.len() == 0 {
        crc
    } else {
        spec_crc32_byte(crc_update(crc, data.drop_last()), data.last())
    }
}

/// The CRC-32 checksum of `data`, with the initial and final inversions.
pub open spec fn spec_crc32(data: Seq<u8>) -> u32 {
    crc_update(0xFFFF_FFFF, data) ^ 0xFFFF_FFFF
}

fn crc_step(c: u32) -> (res: u32)
    ensures
        res == crc_shift(c),
{
    if c & 1 == 1 {
        0xEDB8_8320u32 ^ (c >> 1)
    } else {
        c >> 1
    }
}

/// A byte-wise CRC32 update without the inversions — the form ZipCrypto
/// uses; not the same as an entry's checksum.
pub fn crc32_byte(crc: u32, byte: u8) -> (res: u32)
    ensures
        res == spec_crc32_byte(crc, byte),
{
    let mut c = crc ^ (byte as u32);
    c = crc_step(c);
    c = crc_step(c);
    c = crc_step(c);
    c = crc_step(c);
    c = crc_step(c);
    c = crc_step(c);
    c = crc_step(c);
    crc_step(c)
}

} // verus!
