//! The 64-bit stream hash used for edge fingerprints.
//!
//! Fingerprints are persisted across runs, so the hash function is fixed:
//! FNV-1a over a canonical byte stream.  Changing it invalidates stored
//! fingerprints, which only costs one full rebuild.

use vstd::prelude::*;

verus! {

/// FNV-1a 64-bit offset basis.
pub const FNV_OFFSET: u64 = 0xcbf2_9ce4_8422_2325;

/// FNV-1a 64-bit prime.
pub const FNV_PRIME: u64 = 0x0000_0100_0000_01b3;

/// One FNV-1a step: fold a byte into the running hash.
pub open spec fn fnv1a_step(h: u64, b: u8) -> u64 {
    vstd::wrapping::u64_specs::wrapping_mul(h ^ (b as u64), FNV_PRIME)
}

/// The running hash after folding all of `data` into `h`, last byte last.
pub open spec fn fnv1a_from(h: u64, data: Seq<u8>) -> u64
    decreases data.len(),
{
    if data.len() == 0 {
        h
    } else {
        fnv1a_step(fnv1a_from(h, data.drop_last()), data.last())
    }
}

/// The FNV-1a 64-bit hash of a byte stream.
pub open spec fn fnv1a(data: Seq<u8>) -> u64 {
    fnv1a_from(FNV_OFFSET, data)
}

/// Compute the FNV-1a 64-bit hash of `data`.
pub fn fnv1a_hash(data: &[u8]) -> (r: u64)
    ensures
        r == fnv1a(data@),
{
    let mut h: u64 = FNV_OFFSET;
    let mut i: usize = 0;
    while i < data.len()
        invariant
            0 <= i <= data@.len(),
            h == fnv1a_from(FNV_OFFSET, data@.take(i as int)),
        decreases data@.len() - i,
    {
        h = (h ^ (data[i] as u64)).wrapping_mul(FNV_PRIME);
        proof {
            assert(data@.take(i as int + 1).drop_last() =~= data@.take(i as int));
            assert(data@.take(i as int + 1).last() == data@[i as int]);
        }
        i += 1;
    }
    proof {
        assert(data@.take(data@.len() as int) =~= data@);
    }
    h
}

} // verus!
