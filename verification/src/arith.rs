//! Verified modular arithmetic over `u64` values: modular multiplication,
//! addition, subtraction and exponentiation, an extended Euclidean
//! algorithm whose Bezout coefficients are kept reduced modulo the Rabin
//! modulus, and a primality test.

use vstd::prelude::*;
use vstd::arithmetic::div_mod::*;
use vstd::arithmetic::power::*;
use vstd::calc;

verus! {

/// A number is prime when it is at least 2 and no smaller number from 2 up
/// divides it.
pub open spec fn is_prime(n: int) -> bool {
    n >= 2 && forall|d: int| 2 <= d < n ==> #[trigger] (n % d) != 0
}

/// Decides primality by trial division.
pub fn check_prime(x: u64) -> (b: bool)
    ensures
        b == is_prime(x as int),
{
    if x < 2 {
        return false;
    }
    let mut d: u64 = 2;
    while d < x
        invariant
            2 <= x,
            2 <= d <= x,
            forall|k: int| 2 <= k < d ==> #[trigger] ((x as int) % k) != 0,
        decreases x - d,
    {
        if x % d == 0 {
            return false;
        }
        d = d + 1;
    }
    true
}

/// Modular product: `(a * b) % n`, computed without overflow through a
/// 128-bit intermediate.
pub fn mul_mod(a: u64, b: u64, n: u64) -> (r: u64)
    requires
        n >= 1,
    ensures
        r == (a as int * b as int) % (n as int),
        r < n,
{
    proof {
        assert((a as int) * (b as int) <= (u64::MAX as int) * (u64::MAX as int)) by (nonlinear_arith)
            requires
                a <= u64::MAX,
                b <= u64::MAX,
        ;
    }
    let wide: u128 = (a as u128) * (b as u128);
    let rem: u128 = wide % (n as u128);
    proof {
        lemma_mod_bound(wide as int, n as int);
    }
    rem as u64
}

/// Modular sum: `(a + b) % n` for summands already reduced below `n`.
pub fn add_mod(a: u64, b: u64, n: u64) -> (r: u64)
    requires
        n >= 1,
        a < n,
        b < n,
    ensures
        r == (a as int + b as int) % (n as int),
        r < n,
{
    let s: u128 = (a as u128) + (b as u128);
    let rem: u128 = s % (n as u128);
    proof {
        lemma_mod_bound(s as int, n as int);
    }
    rem as u64
}

/// Modular difference: `(a - b) % n` for operands already reduced below
/// `n`, normalized into `[0, n)` by adding `n` before subtracting.
pub fn sub_mod(a: u64, b: u64, n: u64) -> (r: u64)
    requires
        n >= 1,
        a < n,
        b < n,
    ensures
        r == (a as int - b as int) % (n as int),
        r < n,
{
    let r: u64 = if a >= b {
        a - b
    } else {
        a + (n - b)
    };
    proof {
        if a >= b {
            lemma_small_mod((a - b) as nat, n as nat);
        } else {
            lemma_mod_add_multiples_vanish(a as int - b as int, n as int);
            lemma_small_mod((a + n - b) as nat, n as nat);
        }
    }
    r
}

/// One square-and-multiply step keeps the running product congruent:
/// folding the exponent's low bit into the accumulator and squaring the
/// base leaves `acc * base^exp` unchanged modulo `n`.
proof fn lemma_pow_mod_step(res: int, b: int, e: nat, n: int)
    requires
        n >= 1,
        e > 0,
    ensures
        e % 2 == 1 ==> (((res * b) % n) * pow((b * b) % n, (e / 2) as nat)) % n == (res * pow(
            b,
            e,
        )) % n,
        e % 2 == 0 ==> (res * pow((b * b) % n, (e / 2) as nat)) % n == (res * pow(b, e)) % n,
{
    let h = (e / 2) as nat;
    lemma_square_is_pow2(b);
    lemma_pow_multiplies(b, 2, h);
    assert(pow(b * b, h) == pow(b, 2 * h));
    lemma_pow_mod_noop(b * b, h, n);
    if e % 2 == 1 {
        assert(e == 2 * h + 1);
        lemma_pow1(b);
        lemma_pow_adds(b, 1, 2 * h);
        assert(pow(b, e) == b * pow(b, 2 * h));
        calc! {
            (==)
            (((res * b) % n) * pow((b * b) % n, h)) % n; {
                lemma_mul_mod_noop_general(res * b, pow((b * b) % n, h), n);
            }
            ((res * b) * (pow((b * b) % n, h) % n)) % n; {}
            ((res * b) * (pow(b * b, h) % n)) % n; {
                lemma_mul_mod_noop_right(res * b, pow(b * b, h), n);
            }
            ((res * b) * pow(b, 2 * h)) % n; {
                vstd::arithmetic::mul::lemma_mul_is_associative(res, b, pow(b, 2 * h));
            }
            (res * (b * pow(b, 2 * h))) % n; {}
            (res * pow(b, e)) % n;
        }
    } else {
        assert(e == 2 * h);
        assert(pow(b, e) == pow(b * b, h));
        calc! {
            (==)
            (res * pow((b * b) % n, h)) % n; {
                lemma_mul_mod_noop_right(res, pow((b * b) % n, h), n);
            }
            (res * (pow((b * b) % n, h) % n)) % n; {}
            (res * (pow(b * b, h) % n)) % n; {
                lemma_mul_mod_noop_right(res, pow(b * b, h), n);
            }
            (res * pow(b, e)) % n;
        }
    }
}

/// The extended Euclidean algorithm as a mathematical function: for
/// arguments `(a, b)` it yields `(g, x, y)` with `g` the last nonzero
/// remainder and `x`, `y` the Bezout coefficients, `x * a + y * b == g`.
pub open spec fn spec_egcd(a: nat, b: nat) -> (nat, int, int)
    decreases b,
{
    if b == 0 {
        (a, 1, 0)
    } else {
        let (g, x, y) = spec_egcd(b, a % b);
        (g, y, x - (a / b) * y)
    }
}

/// A linear combination `k * y + z` of two multiples of `d` is again a
/// multiple of `d`.
proof fn lemma_mod_linear_combo(k: int, y: int, z: int, d: int)
    requires
        d >= 1,
        y % d == 0,
        z % d == 0,
    ensures
        (k * y + z) % d == 0,
{
    lemma_mul_mod_noop_right(k, y, d);
    assert(k * (y % d) == 0) by (nonlinear_arith)
        requires
            y % d == 0,
    ;
    lemma_small_mod(0, d as nat);
    lemma_add_mod_noop(k * y, z, d);
}

/// The extended Euclidean results satisfy the Bezout identity, and the
/// last nonzero remainder is positive and divides both arguments.
pub proof fn lemma_spec_egcd(a: nat, b: nat)
    requires
        a >= 1,
    ensures
        ({
            let (g, x, y) = spec_egcd(a, b);
            &&& g >= 1
            &&& x * a + y * b == g
            &&& (a as int) % (g as int) == 0
            &&& (b as int) % (g as int) == 0
        }),
    decreases b,
{
    if b == 0 {
        lemma_mod_self_0(a as int);
        lemma_small_mod(0, a);
    } else {
        lemma_spec_egcd(b, a % b);
        let (g1, x1, y1) = spec_egcd(b, a % b);
        let quot = a as int / b as int;
        let rem = a as int % b as int;
        lemma_fundamental_div_mod(a as int, b as int);
        assert(y1 * a + (x1 - quot * y1) * b == x1 * b + y1 * rem) by (nonlinear_arith)
            requires
                a == b * quot + rem,
        ;
        lemma_mod_linear_combo(quot, b as int, rem, g1 as int);
    }
}

/// Two distinct primes are coprime: the extended Euclidean algorithm
/// finds gcd 1 for them, so its coefficients satisfy `x*p + y*q == 1`.
pub proof fn lemma_distinct_primes_coprime(p: nat, q: nat)
    requires
        is_prime(p as int),
        is_prime(q as int),
        p != q,
    ensures
        spec_egcd(p, q).0 == 1,
        spec_egcd(p, q).1 * p + spec_egcd(p, q).2 * q == 1,
{
    lemma_spec_egcd(p, q);
    let g = spec_egcd(p, q).0;
    if g != 1 {
        if g > p {
            lemma_small_mod(p, g);
            assert(false);
        } else if g < p {
            assert((p as int) % (g as int) != 0);
            assert(false);
        } else {
            if p < q {
                assert((q as int) % (p as int) != 0);
                assert(false);
            } else {
                lemma_small_mod(q, p);
                assert(false);
            }
        }
    }
}

/// Euclid's lemma: a prime dividing a product divides one of the factors.
pub proof fn lemma_prime_divides_product(p: int, a: int, b: int)
    requires
        is_prime(p),
        (a * b) % p == 0,
    ensures
        a % p == 0 || b % p == 0,
{
    let a0 = a % p;
    lemma_mod_bound(a, p);
    if a0 != 0 {
        lemma_spec_egcd(p as nat, a0 as nat);
        let (g, x, y) = spec_egcd(p as nat, a0 as nat);
        if g != 1 {
            if g > a0 {
                lemma_small_mod(a0 as nat, g as nat);
                assert(false);
            } else {
                assert(p % (g as int) != 0);
                assert(false);
            }
        }
        lemma_mul_mod_noop_left(a, b, p);
        lemma_fundamental_div_mod(a0 * b, p);
        let t = (a0 * b) / p;
        assert(b == (x * b + y * t) * p) by (nonlinear_arith)
            requires
                x * p + y * a0 == 1,
                a0 * b == p * t,
        ;
        lemma_mod_multiples_basic(x * b + y * t, p);
    }
}

/// Two values with the same square modulo a prime are congruent up to
/// sign: the prime divides their difference or their sum.
pub proof fn lemma_same_square_mod_prime(p: int, x: int, y: int)
    requires
        is_prime(p),
        (x * x) % p == (y * y) % p,
    ensures
        (x - y) % p == 0 || (x + y) % p == 0,
{
    lemma_mod_equivalence(x * x, y * y, p);
    assert(x * x - y * y == (x - y) * (x + y)) by (nonlinear_arith);
    lemma_prime_divides_product(p, x - y, x + y);
}

/// Congruence is preserved under negation.
pub proof fn lemma_neg_mod_congruent(x: int, y: int, p: int)
    requires
        p >= 1,
        x % p == y % p,
    ensures
        (0 - x) % p == (0 - y) % p,
{
    lemma_mod_equivalence(x, y, p);
    lemma_fundamental_div_mod(x - y, p);
    let k = (x - y) / p;
    assert((0 - x) - (0 - y) == (0 - k) * p) by (nonlinear_arith)
        requires
            x - y == p * k,
    ;
    lemma_mod_multiples_basic(0 - k, p);
    lemma_mod_equivalence(0 - x, 0 - y, p);
}

/// Extended Euclidean algorithm with both Bezout coefficients kept
/// reduced modulo `n`: exactly the coefficients of `spec_egcd`, normalized
/// into `[0, n)`.
pub fn egcd_mod(a: u64, b: u64, n: u64) -> (r: (u64, u64, u64))
    requires
        n >= 1,
        a >= 1,
    ensures
        ({
            let (g, x, y) = r;
            let s = spec_egcd(a as nat, b as nat);
            &&& g == s.0
            &&& x == s.1 % (n as int)
            &&& y == s.2 % (n as int)
            &&& x < n
            &&& y < n
        }),
    decreases b,
{
    if b == 0 {
        proof {
            lemma_mod_bound(1, n as int);
            lemma_small_mod(0, n as nat);
        }
        (a, 1 % n, 0)
    } else {
        let (g, x, y) = egcd_mod(b, a % b, n);
        let t = mul_mod((a / b) % n, y, n);
        let new_y = sub_mod(x, t, n);
        proof {
            let s1 = spec_egcd(b as nat, (a % b) as nat);
            let quot = (a / b) as int;
            calc! {
                (==)
                t as int; {}
                ((quot % (n as int)) * (s1.2 % (n as int))) % (n as int); {
                    lemma_mul_mod_noop_general(quot, s1.2, n as int);
                }
                (quot * s1.2) % (n as int);
            }
            calc! {
                (==)
                new_y as int; {}
                ((s1.1 % (n as int)) - ((quot * s1.2) % (n as int))) % (n as int); {
                    lemma_sub_mod_noop(s1.1, quot * s1.2, n as int);
                }
                (s1.1 - quot * s1.2) % (n as int);
            }
        }
        (g, y, new_y)
    }
}

/// Modular exponentiation by square and multiply: `base^exp % n` in
/// `O(log exp)` modular multiplications.
pub fn pow_mod(base: u64, exp: u64, n: u64) -> (r: u64)
    requires
        n >= 1,
    ensures
        r == pow(base as int, exp as nat) % (n as int),
        r < n,
{
    let mut result: u64 = 1 % n;
    let mut b: u64 = base % n;
    let mut e: u64 = exp;
    proof {
        lemma_mod_bound(1, n as int);
        lemma_mod_bound(base as int, n as int);
        lemma_pow_mod_noop(base as int, exp as nat, n as int);
        lemma_mul_mod_noop_left(1, pow(b as int, e as nat), n as int);
        assert((result as int * pow(b as int, e as nat)) % (n as int) == pow(
            base as int,
            exp as nat,
        ) % (n as int));
    }
    while e > 0
        invariant
            n >= 1,
            b < n,
            result < n,
            (result as int * pow(b as int, e as nat)) % (n as int) == pow(base as int, exp as nat)
                % (n as int),
        decreases e,
    {
        let ghost res0 = result as int;
        let ghost b0 = b as int;
        let ghost e0 = e as nat;
        if e % 2 == 1 {
            result = mul_mod(result, b, n);
        }
        b = mul_mod(b, b, n);
        e = e / 2;
        proof {
            lemma_pow_mod_step(res0, b0, e0, n as int);
        }
    }
    proof {
        lemma_pow0(b as int);
        lemma_small_mod(result as nat, n as nat);
    }
    result
}

} // verus!
