//! The two checksums of the formats.
use crc32fast::Hasher;
use sha2::{Digest, Sha256};
use vstd::prelude::*;

verus! {

/// A CRC register after `n` more bits: each shifts it down, and where a one falls out the reflected
/// polynomial is added.
pub open spec fn crc32_shifted(reg: u32, n: nat) -> u32
    decreases n,
{
    if n == 0 {
        reg
    } else {
        let r = crc32_shifted(reg, (n - 1) as nat);
        if r & 1 == 1 {
            (r >> 1) ^ 0xEDB8_8320
        } else {
            r >> 1
        }
    }
}

/// The CRC register after some bytes. It starts with all ones.
pub open spec fn crc32_register(data: Seq<u8>) -> u32
    decreases data.len(),
{
    if data.len() == 0 {
        0xFFFF_FFFF
    } else {
        crc32_shifted(crc32_register(data.drop_last()) ^ (data.last() as u32), 8)
    }
}

/// The CRC-32 of some bytes, as IEEE 802.3 has it: the register with all its bits turned over.
pub open spec fn crc32_of(data: Seq<u8>) -> u32 {
    crc32_register(data) ^ 0xFFFF_FFFF
}

/// What `sha2`'s SHA-256 computes of some bytes.
pub uninterp spec fn sha256_of(data: Seq<u8>) -> [u8; 32];

/// The CRC-32 of some bytes.
///
/// `crc32fast::Hasher`, made, fed once and finished: the IEEE CRC-32, whichever implementation the
/// processor at hand selects.
#[verifier::external_body]
pub fn crc32_bytes(data: &[u8]) -> (r: u32)
    ensures
        r == crc32_of(data@),
{
    let mut hasher = Hasher::new();
    hasher.update(data);
    hasher.finalize()
}

/// The SHA-256 digest of some bytes.
///
/// `sha2::Sha256`, fed once: a function of the bytes alone. Nothing else is claimed of it.
#[verifier::external_body]
pub fn sha256_bytes(data: &[u8]) -> (r: [u8; 32])
    ensures
        r == sha256_of(data@),
{
    let mut hasher = Sha256::new();
    hasher.update(data);
    hasher.finalize().into()
}

} // verus!
