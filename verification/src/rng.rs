//! Trusted wrappers around the outside random sources: prime drawing from
//! num_prime, uniform ranges and nonce bytes from rand. Nothing is assumed
//! of which value comes back beyond what holds of every outcome.

use vstd::prelude::*;
use crate::arith::is_prime;
use num_prime::RandPrime;
use rand::Rng;

verus! {

/// Relies on num_prime's `RandPrime::gen_prime` for `u64` (with rand's
/// `thread_rng` as the generator): the result is a prime number; 64-bit
/// candidates are decided by a deterministic primality test. The call
/// panics when `bit_size` is 0 or above 64, so those are excluded here.
#[verifier::external_body]
pub(crate) fn gen_prime_u64(bit_size: usize) -> (p: u64)
    requires
        1 <= bit_size <= 64,
    ensures
        is_prime(p as int),
{
    let mut rng = rand::thread_rng();
    rng.gen_prime(bit_size, None)
}

/// Relies on rand's `Rng::gen_range`: a value uniform in the half-open
/// range `1..n`. The call panics on an empty range, so `n >= 2` is
/// demanded here.
#[verifier::external_body]
pub(crate) fn random_below(n: u64) -> (r: u64)
    requires
        n >= 2,
    ensures
        1 <= r < n,
{
    rand::thread_rng().gen_range(1..n)
}

/// Relies on rand's `Rng::gen` over `OsRng`, the operating system's
/// random source: 32 fresh bytes.
#[verifier::external_body]
pub(crate) fn random_nonce() -> (r: Vec<u8>)
    ensures
        r@.len() == 32,
{
    let mut rng = rand::rngs::OsRng;
    (0..32).map(|_| rng.gen()).collect()
}

} // verus!
