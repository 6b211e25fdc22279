//! A 64-bit content hash (FNV-1a) over byte strings, used to fingerprint
//! serialized subsystem state for cross-run determinism checks.

use vstd::prelude::*;

verus! {

pub const FNV_OFFSET: u64 = 0xcbf29ce484222325;
pub const FNV_PRIME: u64 = 0x100000001b3;

/// One FNV-1a round: xor the byte in, multiply by the prime modulo 2^64.
pub open spec fn fnv_step(h: u64, b: u8) -> u64 {
    (((h ^ (b as u64)) as u128 * (FNV_PRIME as u128)) % 0x1_0000_0000_0000_0000) as u64
}

/// The hash of the first `n` bytes of `bytes`.
pub open spec fn fnv_prefix(bytes: Seq<u8>, n: int) -> u64
    decreases n,
{
    if n <= 0 {
        FNV_OFFSET
    } else {
        fnv_step(fnv_prefix(bytes, n - 1), bytes[n - 1])
    }
}

/// The FNV-1a hash of a whole byte string.
pub open spec fn fnv64(bytes: Seq<u8>) -> u64 {
    fnv_prefix(bytes, bytes.len() as int)
}

/// Computes the FNV-1a hash of `bytes`.
pub fn hash_u64(bytes: &Vec<u8>) -> (r: u64)
    ensures
        r == fnv64(bytes@),
{
    let mut h: u64 = FNV_OFFSET;
    let mut i: usize = 0;
    while i < bytes.len()
        invariant
            0 <= i <= bytes@.len(),
            h == fnv_prefix(bytes@, i as int),
        decreases bytes@.len() - i,
    {
        let prod: u128 = ((h ^ (bytes[i] as u64)) as u128) * (FNV_PRIME as u128);
        h = (prod % 0x1_0000_0000_0000_0000u128) as u64;
        i = i + 1;
    }
    h
}

} // verus!
