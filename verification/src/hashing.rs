//! Hashing of names and encoded map keys.
//!
//! Pallet and storage-item names are hashed with a fixed 16-byte
//! scheme; each key position of a map carries its own declared hashing
//! scheme, applied to the key's encoded bytes.

use blake2::digest::{Update, VariableOutput};
use blake2::Blake2bVar;
use core::hash::Hasher;
use twox_hash::XxHash64;
use vstd::prelude::*;

use crate::codec::{le_bytes, le_encode, lemma_le_bytes_len, push_all};

verus! {

/// The 64-bit xxHash digest of `data` under `seed`.
pub uninterp spec fn xx64_of(seed: u64, data: Seq<u8>) -> u64;

/// The BLAKE2b digest of `data`, `out_len` bytes wide.
pub uninterp spec fn blake2b_of(out_len: usize, data: Seq<u8>) -> Seq<u8>;

/// Relies on twox_hash::XxHash64 (with_seed, write, finish): the
/// digest is a function of the seed and the hashed bytes alone.
#[verifier::external_body]
fn xx64(seed: u64, data: &[u8]) -> (r: u64)
    ensures
        r == xx64_of(seed, data@),
{
    let mut h = XxHash64::with_seed(seed);
    h.write(data);
    h.finish()
}

/// Relies on blake2::Blake2bVar (new, update, finalize_variable): a
/// BLAKE2b digest of the requested width, a function of the input
/// bytes alone, filling exactly `out_len` bytes; `new` accepts any
/// width from one to sixty-four bytes.
#[verifier::external_body]
fn blake2b(out_len: usize, data: &[u8]) -> (r: Vec<u8>)
    requires
        1 <= out_len <= 64,
    ensures
        r@ == blake2b_of(out_len, data@),
        r@.len() == out_len,
{
    let mut h = Blake2bVar::new(out_len).expect("width is in range");
    h.update(data);
    let mut out = vec![0u8; out_len];
    h.finalize_variable(&mut out).expect("buffer width matches");
    out
}

/// The 16-byte hash of a name: two seeded 64-bit digests, little-endian,
/// concatenated.
pub open spec fn xx128_of(data: Seq<u8>) -> Seq<u8> {
    le_bytes(xx64_of(0, data) as nat, 8) + le_bytes(xx64_of(1, data) as nat, 8)
}

/// The 32-byte variant: four seeded 64-bit digests concatenated.
pub open spec fn xx256_of(data: Seq<u8>) -> Seq<u8> {
    le_bytes(xx64_of(0, data) as nat, 8) + le_bytes(xx64_of(1, data) as nat, 8) + le_bytes(
        xx64_of(2, data) as nat,
        8,
    ) + le_bytes(xx64_of(3, data) as nat, 8)
}

/// Computes the 16-byte name hash.
pub fn twox128(data: &[u8]) -> (r: Vec<u8>)
    ensures
        r@ == xx128_of(data@),
        r@.len() == 16,
{
    let a = xx64(0, data);
    let b = xx64(1, data);
    let mut r = le_encode(a as u128, 8);
    let mut t = le_encode(b as u128, 8);
    r.append(&mut t);
    proof {
        lemma_le_bytes_len(a as nat, 8);
        lemma_le_bytes_len(b as nat, 8);
        assert(r@ =~= xx128_of(data@));
    }
    r
}

fn twox256(data: &[u8]) -> (r: Vec<u8>)
    ensures
        r@ == xx256_of(data@),
        r@.len() == 32,
{
    let a = xx64(0, data);
    let b = xx64(1, data);
    let c = xx64(2, data);
    let d = xx64(3, data);
    let mut r = le_encode(a as u128, 8);
    let mut t1 = le_encode(b as u128, 8);
    let mut t2 = le_encode(c as u128, 8);
    let mut t3 = le_encode(d as u128, 8);
    r.append(&mut t1);
    r.append(&mut t2);
    r.append(&mut t3);
    proof {
        lemma_le_bytes_len(a as nat, 8);
        lemma_le_bytes_len(b as nat, 8);
        lemma_le_bytes_len(c as nat, 8);
        lemma_le_bytes_len(d as nat, 8);
        assert(r@ =~= xx256_of(data@));
    }
    r
}

/// The hashing scheme attached to one key position of a storage map.
/// The concatenating kinds append the original encoded key after the
/// digest, which keeps the key recoverable from the storage key.
#[derive(Clone, Copy, Debug, PartialEq, Eq, Structural)]
pub enum HashKind {
    /// No hash: the encoded key bytes are appended as they are.
    Identity,
    Blake2_128,
    Blake2_256,
    Blake2_128Concat,
    Twox128,
    Twox256,
    Twox64Concat,
}

/// What one key position contributes to the storage key, given the
/// key's encoded bytes.
pub open spec fn hash_apply(h: HashKind, enc: Seq<u8>) -> Seq<u8> {
    match h {
        HashKind::Identity => enc,
        HashKind::Blake2_128 => blake2b_of(16, enc),
        HashKind::Blake2_256 => blake2b_of(32, enc),
        HashKind::Blake2_128Concat => blake2b_of(16, enc) + enc,
        HashKind::Twox128 => xx128_of(enc),
        HashKind::Twox256 => xx256_of(enc),
        HashKind::Twox64Concat => le_bytes(xx64_of(0, enc) as nat, 8) + enc,
    }
}

/// The width of one key position's contribution: a fixed digest width,
/// plus the encoded key's own length for the concatenating kinds.
pub open spec fn hash_width(h: HashKind, n: nat) -> nat {
    match h {
        HashKind::Identity => n,
        HashKind::Blake2_128 => 16nat,
        HashKind::Blake2_256 => 32nat,
        HashKind::Blake2_128Concat => (16 + n) as nat,
        HashKind::Twox128 => 16nat,
        HashKind::Twox256 => 32nat,
        HashKind::Twox64Concat => (8 + n) as nat,
    }
}

/// Applies one key position's hashing scheme to encoded key bytes.
pub fn apply_hasher(h: HashKind, enc: &[u8]) -> (r: Vec<u8>)
    ensures
        r@ == hash_apply(h, enc@),
        r@.len() == hash_width(h, enc@.len()),
{
    match h {
        HashKind::Identity => {
            let mut r: Vec<u8> = Vec::new();
            push_all(&mut r, enc);
            proof {
                assert(r@ =~= enc@);
            }
            r
        },
        HashKind::Blake2_128 => blake2b(16, enc),
        HashKind::Blake2_256 => blake2b(32, enc),
        HashKind::Blake2_128Concat => {
            let mut r = blake2b(16, enc);
            push_all(&mut r, enc);
            r
        },
        HashKind::Twox128 => twox128(enc),
        HashKind::Twox256 => twox256(enc),
        HashKind::Twox64Concat => {
            let a = xx64(0, enc);
            let mut r = le_encode(a as u128, 8);
            push_all(&mut r, enc);
            proof {
                lemma_le_bytes_len(a as nat, 8);
            }
            r
        },
    }
}

} // verus!
