use vstd::prelude::*;

verus! {

/// Recoverable failure conditions of the Rabin schemes. All of them are
/// surfaced as result values; no library function panics.
#[derive(Clone, Copy, Debug, PartialEq, Eq, Structural)]
pub enum RabinError {
    /// A private key whose parts are not two distinct primes, each
    /// congruent to 3 mod 4, with a product that fits the modulus type.
    InvalidKey,
    /// A ciphertext that is not a quadratic residue modulo both primes:
    /// detected by re-squaring the candidate roots.
    NonResidueCiphertext,
    /// Key generation drew the maximum number of candidate primes without
    /// finding a suitable pair.
    KeyGenerationBoundExceeded,
    /// Signing drew the maximum number of nonces without finding a hash
    /// value whose canonical root re-squares to it.
    SigningBoundExceeded,
}

} // verus!
