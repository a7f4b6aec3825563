//! Primitive operations of a 1-out-of-2 oblivious-transfer protocol built
//! on the Rabin trapdoor permutation: blinding by modular exponentiation,
//! random square generation, and uniformly random root extraction. The
//! message-exchange orchestration around them is out of scope.

use vstd::prelude::*;
use vstd::arithmetic::power::pow;
use crate::arith::{is_prime, pow_mod, mul_mod};
use crate::rabin::{PrivateKey, crt_root_sum, crt_root_diff, decrypt};
use crate::rng::{gen_prime_u64, random_below};

verus! {

/// Draws a random prime within `bitsize` bits.
pub fn generate_prime(bitsize: usize) -> (p: u64)
    requires
        1 <= bitsize <= 64,
    ensures
        is_prime(p as int),
{
    gen_prime_u64(bitsize)
}

/// Draws a random value in `[1, n)`.
pub fn gen_rand(n: u64) -> (r: u64)
    requires
        n >= 2,
    ensures
        1 <= r < n,
{
    random_below(n)
}

/// The Carmichael-style totient of the key pair: `(p - 1) * (q - 1)`.
pub fn carmicle_function(p: u64, q: u64) -> (t: u64)
    requires
        p >= 1,
        q >= 1,
        (p - 1) as int * (q - 1) as int <= u64::MAX as int,
    ensures
        t == (p - 1) as int * (q - 1) as int,
{
    (p - 1) * (q - 1)
}

/// Blinds a message under exponent `e` and modulus `n`: `message^e mod n`.
pub fn send_encrypted_message(message: u64, e: u64, n: u64) -> (c: u64)
    requires
        n >= 1,
    ensures
        c == pow(message as int, e as nat) % (n as int),
        c < n,
{
    pow_mod(message, e, n)
}

/// Draws a secret `x` in `[1, n)` and sends out its square modulo `n`,
/// a uniformly random quadratic residue whose root stays with the caller.
pub fn send_random_square(n: u64) -> (c: u64)
    requires
        n >= 2,
    ensures
        c < n,
        exists|x: int| 1 <= x < n && c == #[trigger] ((x * x) % (n as int)),
{
    let x = gen_rand(n);
    let c = mul_mod(x, x, n);
    proof {
        assert(1 <= (x as int) && (x as int) < (n as int) && c == (x as int * x as int) % (
        n as int));
    }
    c
}

/// Extracts one square root of `x_squared`, chosen uniformly among the
/// four candidates, so that the holder of the factorization learns
/// nothing of which root the other party knows.
pub fn find_square_root(x_squared: u64, private_key: &PrivateKey) -> (r: u64)
    requires
        private_key.wf(),
    ensures
        ({
            let p = private_key.p as int;
            let q = private_key.q as int;
            let n = p * q;
            let c = x_squared as int;
            let s = crt_root_sum(c, p, q);
            let d = crt_root_diff(c, p, q);
            &&& r < n
            &&& (r == s || r == (n - s) % n || r == d || r == (n - d) % n)
        }),
{
    let roots = decrypt(x_squared, private_key);
    let i = random_below(5) - 1;
    if i == 0 {
        roots.r1
    } else if i == 1 {
        roots.r2
    } else if i == 2 {
        roots.r3
    } else {
        roots.r4
    }
}

} // verus!
