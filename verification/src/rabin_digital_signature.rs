//! The Rabin digital signature scheme: signing hashes the message with a
//! fresh random nonce, reduces the digest into the modulus, and accepts
//! the canonical decryption root exactly when it re-squares to the hash
//! value; verification recomputes the hash and re-squares the signature.

use vstd::prelude::*;
use crate::errors::RabinError;
use crate::hashing::{sha256_of, sha256, be_bytes_int, be8_bytes, message_to_bytes, concat_bytes,
    bytes_mod};
use crate::rabin::{PrivateKey, crt_root_sum, squares_to, decrypt, encrypt};
use crate::rng::random_nonce;

verus! {

/// How many nonces one signing call may draw before it gives up with
/// `SigningBoundExceeded`. Each draw succeeds when the hash value's
/// canonical root re-squares to it, which holds for about a quarter of
/// all digests, so the chance of exhausting this bound is vanishing.
pub const MAX_SIGN_ATTEMPTS: u64 = 64;

/// The bytes that enter the hash: the message's eight big-endian bytes
/// followed by the nonce.
pub open spec fn hash_input(message: u64, nonce: Seq<u8>) -> Seq<u8> {
    be8_bytes(message) + nonce
}

/// The hash of message and nonce, read as a big-endian integer and
/// reduced into `[0, n)`.
pub open spec fn hash_value(message: u64, nonce: Seq<u8>, n: int) -> int {
    be_bytes_int(sha256_of(hash_input(message, nonce))) % n
}

/// Validity of a signature `(r, nonce)` on a message under the public
/// modulus `n`: squaring `r` modulo `n` gives back the hash value.
pub open spec fn sig_valid(message: u64, r: u64, nonce: Seq<u8>, n: int) -> bool {
    (r as int * r as int) % n == hash_value(message, nonce, n)
}

/// One signing attempt with a given nonce: hashes the message with the
/// nonce, decrypts the hash value, and accepts the canonical root if and
/// only if it re-squares to the hash value.
pub fn sign_attempt(message: u64, private_key: &PrivateKey, nonce: Vec<u8>) -> (res: Option<
    (u64, Vec<u8>),
>)
    requires
        private_key.wf(),
    ensures
        ({
            let p = private_key.p as int;
            let q = private_key.q as int;
            let n = p * q;
            let c = hash_value(message, nonce@, n);
            let root = crt_root_sum(c, p, q);
            &&& (res is Some) == squares_to(root, c, n)
            &&& res matches Some(sig) ==> sig.0 == root && sig.1@ == nonce@ && sig_valid(
                message,
                sig.0,
                sig.1@,
                n,
            )
        }),
{
    let n = private_key.modulus();
    let mb = message_to_bytes(message);
    let input = concat_bytes(&mb, &nonce);
    let digest = sha256(&input);
    let c = bytes_mod(&digest, n);
    let roots = decrypt(c, private_key);
    let r1 = roots.r1;
    if encrypt(r1, n) == c {
        Some((r1, nonce))
    } else {
        None
    }
}

/// Signs with an explicit attempt bound: draws fresh nonces until one
/// attempt accepts, and reports `SigningBoundExceeded` after
/// `max_attempts` rejected draws.
pub fn sign_attempts(message: u64, private_key: &PrivateKey, max_attempts: u64) -> (res: Result<
    (u64, Vec<u8>),
    RabinError,
>)
    requires
        private_key.wf(),
    ensures
        res matches Ok(sig) ==> sig.1@.len() == 32 && sig_valid(
            message,
            sig.0,
            sig.1@,
            private_key.n_spec(),
        ),
        res matches Err(e) ==> e == RabinError::SigningBoundExceeded,
        max_attempts == 0 ==> res is Err,
{
    let mut attempt: u64 = 0;
    while attempt < max_attempts
        invariant
            private_key.wf(),
        decreases max_attempts - attempt,
    {
        let nonce = random_nonce();
        match sign_attempt(message, private_key, nonce) {
            Some(sig) => {
                return Ok(sig);
            },
            None => {},
        }
        attempt = attempt + 1;
    }
    Err(RabinError::SigningBoundExceeded)
}

/// Signs a message: a Las Vegas rejection sampler, bounded by
/// `MAX_SIGN_ATTEMPTS` draws. A returned signature always satisfies
/// `sig_valid`, so `verify` accepts it.
pub fn sign(message: u64, private_key: &PrivateKey) -> (res: Result<(u64, Vec<u8>), RabinError>)
    requires
        private_key.wf(),
    ensures
        res matches Ok(sig) ==> sig.1@.len() == 32 && sig_valid(
            message,
            sig.0,
            sig.1@,
            private_key.n_spec(),
        ),
        res matches Err(e) ==> e == RabinError::SigningBoundExceeded,
{
    sign_attempts(message, private_key, MAX_SIGN_ATTEMPTS)
}

/// Verifies a signature `(r, nonce)` on a message under the public
/// modulus: recomputes the hash value and compares it with the square of
/// `r`. Total: it never fails, it only returns false on a mismatch.
pub fn verify(message: u64, signature: &(u64, Vec<u8>), public_key: u64) -> (ok: bool)
    requires
        public_key >= 1,
    ensures
        ok == sig_valid(message, signature.0, signature.1@, public_key as int),
{
    let mb = message_to_bytes(message);
    let input = concat_bytes(&mb, &signature.1);
    let digest = sha256(&input);
    let c = bytes_mod(&digest, public_key);
    encrypt(signature.0, public_key) == c
}

/// Round-trip law: a signature that meets `sign`'s success contract — the
/// canonical root of the hash value, re-squaring to it — satisfies the
/// validity predicate that `verify`'s result equals, so verification of a
/// freshly made signature always returns true.
pub proof fn lemma_sign_verify_round_trip(message: u64, r: u64, nonce: Seq<u8>, p: int, q: int)
    requires
        p * q >= 1,
        r == crt_root_sum(hash_value(message, nonce, p * q), p, q),
        squares_to(r as int, hash_value(message, nonce, p * q), p * q),
    ensures
        sig_valid(message, r, nonce, p * q),
{
}

} // verus!
