//! Number-theoretic cryptography built on the Rabin trapdoor permutation:
//! public-key encryption, a randomized digital signature scheme, and the
//! primitive operations of a 1-out-of-2 oblivious-transfer protocol, all
//! over a modulus n = p * q with p and q prime and congruent to 3 mod 4.

pub mod arith;
pub mod errors;
pub mod hashing;
pub mod rabin;
pub mod rabin_digital_signature;
pub mod rabins_ot;
pub mod rng;
