//! Digests and random draws.
//!
//! Every item here hands a call on to the crates `sha2`, `rand` and
//! `rand_chacha`. Draws from a given seed are the same in every run and on
//! every machine, so they have names.

use rand::{Rng, SeedableRng};
use rand_chacha::ChaCha8Rng;
use sha2::{Digest, Sha256};
use vstd::prelude::*;

verus! {

/// The name for the SHA-256 digest of a message.
pub uninterp spec fn digest(message: Seq<u8>) -> Seq<u8>;

/// The name for the first `n` fair coin flips that a ChaCha8 generator with
/// the 32-byte seed `seed` gives.
pub uninterp spec fn keyed_flips(seed: Seq<u8>, n: nat) -> Seq<bool>;

/// The name for the first `n` words that a ChaCha8 generator with the
/// 32-byte seed `seed` gives.
pub uninterp spec fn keyed_words(seed: Seq<u8>, n: nat) -> Seq<u32>;

/// The name for the first `n` fair coin flips that a ChaCha8 generator
/// seeded with the number `seed` gives.
pub uninterp spec fn seeded_flips(seed: u64, n: nat) -> Seq<bool>;

/// The name for the first `n` words that a ChaCha8 generator seeded with the
/// number `seed` gives.
pub uninterp spec fn seeded_words(seed: u64, n: nat) -> Seq<u32>;

/// Calls `sha2::Sha256::digest`. The contract claims that the result is a
/// function of the message and has 32 bytes.
#[verifier::external_body]
pub(crate) fn sha256(message: &Vec<u8>) -> (r: Vec<u8>)
    ensures
        r@ == digest(message@),
        r@.len() == 32,
{
    Sha256::digest(message.as_slice()).to_vec()
}

/// Calls `ChaCha8Rng::from_seed` and draws `n` values with
/// `Rng::random_iter::<bool>`. The contract claims that there are `n` of
/// them and that they are a function of the seed and `n`.
#[verifier::external_body]
pub(crate) fn flips_from_key(seed: &Vec<u8>, n: usize) -> (r: Vec<bool>)
    requires
        seed@.len() == 32,
    ensures
        r@ == keyed_flips(seed@, n as nat),
        r@.len() == n,
{
    let mut key = [0u8; 32];
    key.copy_from_slice(seed.as_slice());
    ChaCha8Rng::from_seed(key).random_iter::<bool>().take(n).collect()
}

/// Calls `ChaCha8Rng::from_seed` and draws `n` values with
/// `Rng::random_iter::<u32>`. The contract claims that there are `n` of
/// them and that they are a function of the seed and `n`.
#[verifier::external_body]
pub(crate) fn words_from_key(seed: &Vec<u8>, n: usize) -> (r: Vec<u32>)
    requires
        seed@.len() == 32,
    ensures
        r@ == keyed_words(seed@, n as nat),
        r@.len() == n,
{
    let mut key = [0u8; 32];
    key.copy_from_slice(seed.as_slice());
    ChaCha8Rng::from_seed(key).random_iter::<u32>().take(n).collect()
}

/// Calls `ChaCha8Rng::seed_from_u64` and draws `n` values with
/// `Rng::random_iter::<bool>`. The contract claims that there are `n` of
/// them and that they are a function of the seed and `n`.
#[verifier::external_body]
pub(crate) fn flips_from_seed(seed: u64, n: usize) -> (r: Vec<bool>)
    ensures
        r@ == seeded_flips(seed, n as nat),
        r@.len() == n,
{
    ChaCha8Rng::seed_from_u64(seed).random_iter::<bool>().take(n).collect()
}

/// Calls `ChaCha8Rng::seed_from_u64` and draws `n` values with
/// `Rng::random_iter::<u32>`. The contract claims that there are `n` of
/// them and that they are a function of the seed and `n`.
#[verifier::external_body]
pub(crate) fn words_from_seed(seed: u64, n: usize) -> (r: Vec<u32>)
    ensures
        r@ == seeded_words(seed, n as nat),
        r@.len() == n,
{
    ChaCha8Rng::seed_from_u64(seed).random_iter::<u32>().take(n).collect()
}

/// Calls `ChaCha8Rng::from_os_rng`, which seeds from the operating system,
/// and draws `n` values with `Rng::random_iter::<bool>`. The contract claims
/// that there are `n` of them and nothing of their values. The call aborts
/// where the operating system has no entropy to give.
#[verifier::external_body]
pub(crate) fn flips_from_system(n: usize) -> (r: Vec<bool>)
    ensures
        r@.len() == n,
{
    ChaCha8Rng::from_os_rng().random_iter::<bool>().take(n).collect()
}

} // verus!
