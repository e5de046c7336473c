//! The hash function of the index: SeaHash under four fixed seeds, so that an archive
//! hashes the same way wherever it is read.

use crate::bytes::u32_le;
use seahash::SeaHasher;
use std::hash::Hasher;
use vstd::prelude::*;

verus! {

/// `seahash::SeaHasher`, the streaming hasher. Nothing inside it is visible here.
#[verifier::external_type_specification]
#[verifier::external_body]
pub struct ExSeaHasher(SeaHasher);

/// The hasher that `SeaHasher::with_seeds` builds from four seeds.
pub uninterp spec fn seeded_hasher(k1: u64, k2: u64, k3: u64, k4: u64) -> SeaHasher;

/// The hasher that `hasher` becomes when `bytes` are written to it in one call.
pub uninterp spec fn hasher_absorb(hasher: SeaHasher, bytes: Seq<u8>) -> SeaHasher;

/// The hash that `hasher` would finish with.
pub uninterp spec fn hasher_digest(hasher: SeaHasher) -> u64;

/// `SeaHasher::with_seeds` stores the four seeds and counts no input: its result
/// depends on the seeds alone.
pub assume_specification[ SeaHasher::with_seeds ](k1: u64, k2: u64, k3: u64, k4: u64) -> (hasher:
    SeaHasher)
    ensures
        hasher == seeded_hasher(k1, k2, k3, k4),
;

/// `Hasher::write` of `SeaHasher` mixes `bytes` into the state. The new state depends
/// on the old state and the bytes alone.
#[verifier::external_body]
fn absorb(hasher: &mut SeaHasher, bytes: &[u8])
    ensures
        *final(hasher) == hasher_absorb(*old(hasher), bytes@),
{
    hasher.write(bytes)
}

/// `Hasher::finish` of `SeaHasher` computes the hash of what was written, leaving the
/// hasher as it was. The hash depends on the state alone.
#[verifier::external_body]
fn digest(hasher: &SeaHasher) -> (hash: u64)
    ensures
        hash == hasher_digest(*hasher),
{
    hasher.finish()
}

/// First seed of the index's hasher.
pub const SEED_A: u64 = 0x0857_6fb6_170b_5f5f;

/// Second seed of the index's hasher.
pub const SEED_B: u64 = 0x5877_75ee_b84a_7e46;

/// Third seed of the index's hasher.
pub const SEED_C: u64 = 0xac70_1115_428e_e569;

/// Fourth seed of the index's hasher.
pub const SEED_D: u64 = 0x910f_eb91_b92b_b1cd;

/// The hasher that every index starts from.
pub open spec fn index_hasher() -> SeaHasher {
    seeded_hasher(SEED_A, SEED_B, SEED_C, SEED_D)
}

/// The hash of a key: what the index's hasher finishes with after the key's bytes.
pub open spec fn key_hash(key: Seq<u8>) -> u64 {
    hasher_digest(hasher_absorb(index_hasher(), key))
}

/// The hash of a key under a displacement seed: the seed's four little-endian bytes go
/// into the index's hasher before the key's bytes.
pub open spec fn displaced_hash(seed: u32, key: Seq<u8>) -> u64 {
    hasher_digest(hasher_absorb(hasher_absorb(index_hasher(), u32_le(seed)), key))
}

/// A fresh copy of the hasher that every index starts from.
pub fn new_hasher() -> (hasher: SeaHasher)
    ensures
        hasher == index_hasher(),
{
    SeaHasher::with_seeds(SEED_A, SEED_B, SEED_C, SEED_D)
}

/// Hashes a key.
pub fn hash_key(key: &[u8]) -> (hash: u64)
    ensures
        hash == key_hash(key@),
{
    let mut hasher = new_hasher();
    absorb(&mut hasher, key);
    digest(&hasher)
}

/// Hashes a key under a displacement seed.
pub fn hash_key_displaced(seed: u32, key: &[u8]) -> (hash: u64)
    ensures
        hash == displaced_hash(seed, key@),
{
    let seed_bytes: [u8; 4] = [
        (seed % 256) as u8,
        (seed / 256 % 256) as u8,
        (seed / 65536 % 256) as u8,
        (seed / 16777216) as u8,
    ];
    assert(seed_bytes@ =~= u32_le(seed));
    let mut hasher = new_hasher();
    absorb(&mut hasher, seed_bytes.as_slice());
    absorb(&mut hasher, key);
    digest(&hasher)
}

} // verus!
