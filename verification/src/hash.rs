//! The FNV-1a hash that tile chunks are fingerprinted with.
use vstd::prelude::*;

use fnv::FnvHasher;
use std::hash::Hasher;

verus! {

/// The FNV-1a 64-bit offset basis.
pub const FNV_OFFSET_BASIS: u64 = 0xcbf29ce484222325;

/// The FNV-1a 64-bit prime.
pub const FNV_PRIME: u64 = 0x100000001b3;

/// One FNV-1a step: mix a byte into the state, then multiply by the prime modulo 2^64.
pub open spec fn fnv_step(h: u64, b: u8) -> u64 {
    (((h ^ (b as u64)) as int * (FNV_PRIME as int)) % 0x1_0000_0000_0000_0000) as u64
}

/// FNV-1a of `bytes`, starting from state `h`.
pub open spec fn fnv1a_from(h: u64, bytes: Seq<u8>) -> u64
    decreases bytes.len(),
{
    if bytes.len() == 0 {
        h
    } else {
        fnv_step(fnv1a_from(h, bytes.drop_last()), bytes.last())
    }
}

/// FNV-1a of `bytes`, starting from the offset basis.
pub open spec fn fnv1a(bytes: Seq<u8>) -> u64 {
    fnv1a_from(FNV_OFFSET_BASIS, bytes)
}

/// `fnv::FnvHasher`: a default hasher starts at the offset basis, `write` folds every byte in
/// with one FNV-1a step, and `finish` returns the state. So the result is FNV-1a of `bytes`.
#[verifier::external_body]
pub(crate) fn fnv_hash(bytes: &[u8]) -> (h: u64)
    ensures
        h == fnv1a(bytes@),
{
    let mut hasher = FnvHasher::default();
    hasher.write(bytes);
    hasher.finish()
}

} // verus!
