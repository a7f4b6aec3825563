//! The Rabin cryptosystem: key generation, encryption (squaring modulo
//! n), and decryption, which recovers the four candidate square roots of a
//! ciphertext through the Chinese Remainder Theorem.

use vstd::prelude::*;
use vstd::arithmetic::div_mod::*;
use vstd::arithmetic::power::*;
use crate::arith::{is_prime, spec_egcd, check_prime, mul_mod, add_mod, sub_mod, pow_mod, egcd_mod};
use crate::errors::RabinError;
use crate::rng::gen_prime_u64;

verus! {

/// How many candidate primes one key generation may draw before it gives
/// up with `KeyGenerationBoundExceeded`.
pub const MAX_KEYGEN_ATTEMPTS: u64 = 64;

/// The largest value allowed for each prime, so that the modulus `p * q`
/// always fits the 64-bit modulus type.
pub const MAX_PRIME: u64 = 0xFFFF_FFFF;

/// The private key of the Rabin cryptosystem: an ordered pair of distinct
/// primes, each congruent to 3 mod 4. The public key is their product.
#[derive(Clone, Copy, Debug, PartialEq, Eq, Structural)]
pub struct PrivateKey {
    pub p: u64,
    pub q: u64,
}

impl PrivateKey {
    /// Well-formedness: both parts prime and congruent to 3 mod 4,
    /// distinct, and with a product that fits the modulus type.
    pub open spec fn wf(self) -> bool {
        &&& is_prime(self.p as int)
        &&& is_prime(self.q as int)
        &&& self.p % 4 == 3
        &&& self.q % 4 == 3
        &&& self.p != self.q
        &&& self.p as int * self.q as int <= u64::MAX as int
    }

    /// The public modulus n = p * q as a mathematical integer.
    pub open spec fn n_spec(self) -> int {
        self.p as int * self.q as int
    }

    /// Builds a key from untrusted parts, accepting exactly the
    /// well-formed pairs and rejecting every other with `InvalidKey`.
    pub fn new(p: u64, q: u64) -> (res: Result<PrivateKey, RabinError>)
        ensures
            res matches Ok(k) ==> k.p == p && k.q == q && k.wf(),
            res matches Err(e) ==> e == RabinError::InvalidKey,
            (res is Ok) == (PrivateKey { p, q }).wf(),
    {
        proof {
            assert((p as int) * (q as int) <= (u64::MAX as int) * (u64::MAX as int))
                by (nonlinear_arith)
                requires
                    p <= u64::MAX,
                    q <= u64::MAX,
            ;
        }
        let fits: bool = (p as u128) * (q as u128) <= u64::MAX as u128;
        if p % 4 == 3 && q % 4 == 3 && p != q && fits && check_prime(p) && check_prime(q) {
            Ok(PrivateKey { p, q })
        } else {
            Err(RabinError::InvalidKey)
        }
    }

    /// The public modulus n = p * q.
    pub fn modulus(&self) -> (n: u64)
        requires
            self.wf(),
        ensures
            n == self.n_spec(),
            n >= 1,
    {
        proof {
            assert(self.p as int * self.q as int >= 1) by (nonlinear_arith)
                requires
                    self.p >= 1,
                    self.q >= 1,
            ;
        }
        self.p * self.q
    }
}

/// The four candidate square roots that one decryption returns, with the
/// symmetric pairing r2 = n - r1 and r4 = n - r3. By convention, r1 is
/// the canonical root that the signature scheme takes.
#[derive(Clone, Copy, Debug, PartialEq, Eq, Structural)]
pub struct RootSet {
    pub r1: u64,
    pub r2: u64,
    pub r3: u64,
    pub r4: u64,
}

impl RootSet {
    /// Membership of a value among the four roots.
    pub open spec fn contains_spec(self, m: u64) -> bool {
        m == self.r1 || m == self.r2 || m == self.r3 || m == self.r4
    }

    /// Whether `m` is one of the four roots.
    pub fn contains(&self, m: u64) -> (b: bool)
        ensures
            b == self.contains_spec(m),
    {
        m == self.r1 || m == self.r2 || m == self.r3 || m == self.r4
    }

    /// The four roots in their conventional order.
    pub fn to_vec(&self) -> (v: Vec<u64>)
        ensures
            v@ =~= seq![self.r1, self.r2, self.r3, self.r4],
    {
        let mut v: Vec<u64> = Vec::new();
        v.push(self.r1);
        v.push(self.r2);
        v.push(self.r3);
        v.push(self.r4);
        v
    }
}

/// Whether `r` is a square root of `c` modulo `n`.
pub open spec fn squares_to(r: int, c: int, n: int) -> bool {
    (r * r) % n == c
}

/// The candidate square root of `c` modulo a prime `p` congruent to
/// 3 mod 4: `c^((p+1)/4) mod p`, a genuine root exactly when `c` is a
/// quadratic residue mod `p`.
pub open spec fn root_candidate(c: int, p: int) -> int {
    pow(c, (((p + 1) / 4)) as nat) % p
}

/// The first root that decryption combines through the Chinese Remainder
/// Theorem: `(yp*p*mq + yq*q*mp) mod n` for the Bezout coefficients
/// `yp*p + yq*q = gcd(p, q)`.
pub open spec fn crt_root_sum(c: int, p: int, q: int) -> int {
    let yp = spec_egcd(p as nat, q as nat).1;
    let yq = spec_egcd(p as nat, q as nat).2;
    (yp * p * root_candidate(c, q) + yq * q * root_candidate(c, p)) % (p * q)
}

/// The third root, combined with a difference in place of the sum:
/// `(yp*p*mq - yq*q*mp) mod n`.
pub open spec fn crt_root_diff(c: int, p: int, q: int) -> int {
    let yp = spec_egcd(p as nat, q as nat).1;
    let yq = spec_egcd(p as nat, q as nat).2;
    (yp * p * root_candidate(c, q) - yq * q * root_candidate(c, p)) % (p * q)
}

/// Encrypts a message under the public modulus `n`: the square of the
/// message modulo `n`.
pub fn encrypt(message: u64, n: u64) -> (c: u64)
    requires
        n >= 1,
    ensures
        c == (message as int * message as int) % (n as int),
        c < n,
{
    mul_mod(message, message, n)
}

/// Decrypts a ciphertext into its four candidate square roots modulo
/// n = p * q, via one square-root candidate modulo each prime and their
/// CRT combination. The candidates are genuine roots exactly when the
/// ciphertext is a quadratic residue modulo both primes; a caller with an
/// untrusted ciphertext validates them through `decrypt_checked`.
pub fn decrypt(ciphertext: u64, private_key: &PrivateKey) -> (rs: RootSet)
    requires
        private_key.wf(),
    ensures
        ({
            let p = private_key.p as int;
            let q = private_key.q as int;
            let n = p * q;
            let c = ciphertext as int;
            &&& rs.r1 == crt_root_sum(c, p, q)
            &&& rs.r3 == crt_root_diff(c, p, q)
            &&& rs.r2 == (n - rs.r1) % n
            &&& rs.r4 == (n - rs.r3) % n
            &&& rs.r1 < n
            &&& rs.r2 < n
            &&& rs.r3 < n
            &&& rs.r4 < n
        }),
{
    let p = private_key.p;
    let q = private_key.q;
    let n = private_key.modulus();
    let ghost ni = n as int;
    proof {
        assert(2 * (p as int) <= (p as int) * (q as int) && 2 * (q as int) <= (p as int) * (
        q as int)) by (nonlinear_arith)
            requires
                p >= 2,
                q >= 2,
        ;
    }
    let mp = pow_mod(ciphertext, (p + 1) / 4, p);
    let mq = pow_mod(ciphertext, (q + 1) / 4, q);
    let (_g, yp, yq) = egcd_mod(p, q, n);
    let u = mul_mod(mul_mod(yp, p, n), mq, n);
    let v = mul_mod(mul_mod(yq, q, n), mp, n);
    let r1 = add_mod(u, v, n);
    let r3 = sub_mod(u, v, n);
    let r2 = sub_mod(0, r1, n);
    let r4 = sub_mod(0, r3, n);
    proof {
        let s = spec_egcd(p as nat, q as nat);
        let a = s.1 * (p as int) * (mq as int);
        let b = s.2 * (q as int) * (mp as int);
        assert(u == a % ni) by {
            lemma_mul_mod_noop_left(s.1, p as int, ni);
            lemma_mul_mod_noop_left(s.1 * (p as int), mq as int, ni);
        }
        assert(v == b % ni) by {
            lemma_mul_mod_noop_left(s.2, q as int, ni);
            lemma_mul_mod_noop_left(s.2 * (q as int), mp as int, ni);
        }
        assert(r1 == (a + b) % ni) by {
            lemma_add_mod_noop(a, b, ni);
        }
        assert(r3 == (a - b) % ni) by {
            lemma_sub_mod_noop(a, b, ni);
        }
        assert(r2 == (ni - r1) % ni) by {
            lemma_mod_add_multiples_vanish(0 - r1 as int, ni);
        }
        assert(r4 == (ni - r3) % ni) by {
            lemma_mod_add_multiples_vanish(0 - r3 as int, ni);
        }
    }
    RootSet { r1, r2, r3, r4 }
}

/// Decrypts and validates: re-squares each candidate root and hands the
/// set back only when every one squares to the ciphertext modulo n, so
/// that a ciphertext that is no quadratic residue is rejected with
/// `NonResidueCiphertext` instead of decrypting to garbage.
pub fn decrypt_checked(ciphertext: u64, private_key: &PrivateKey) -> (res: Result<
    RootSet,
    RabinError,
>)
    requires
        private_key.wf(),
    ensures
        ({
            let p = private_key.p as int;
            let q = private_key.q as int;
            let n = p * q;
            let c = ciphertext as int;
            let s = crt_root_sum(c, p, q);
            let d = crt_root_diff(c, p, q);
            &&& (res is Ok) == (squares_to(s, c, n) && squares_to((n - s) % n, c, n) && squares_to(
                d,
                c,
                n,
            ) && squares_to((n - d) % n, c, n))
            &&& res matches Ok(rs) ==> rs.r1 == s && rs.r2 == (n - s) % n && rs.r3 == d && rs.r4
                == (n - d) % n
            &&& res matches Err(e) ==> e == RabinError::NonResidueCiphertext
        }),
{
    let rs = decrypt(ciphertext, private_key);
    let n = private_key.modulus();
    let ok1 = encrypt(rs.r1, n) == ciphertext;
    let ok2 = encrypt(rs.r2, n) == ciphertext;
    let ok3 = encrypt(rs.r3, n) == ciphertext;
    let ok4 = encrypt(rs.r4, n) == ciphertext;
    if ok1 && ok2 && ok3 && ok4 {
        Ok(rs)
    } else {
        Err(RabinError::NonResidueCiphertext)
    }
}

/// The modulus of a Rabin key is odd, since both primes are congruent to
/// 3 mod 4.
pub proof fn lemma_odd_modulus(p: int, q: int)
    requires
        p % 4 == 3,
        q % 4 == 3,
    ensures
        (p * q) % 2 == 1,
{
    let a = p / 4;
    let b = q / 4;
    lemma_fundamental_div_mod(p, 4);
    lemma_fundamental_div_mod(q, 4);
    assert(p * q == (8 * a * b + 6 * a + 6 * b + 4) * 2 + 1) by (nonlinear_arith)
        requires
            p == 4 * a + 3,
            q == 4 * b + 3,
    ;
    lemma_fundamental_div_mod_converse_mod(p * q, 2, 8 * a * b + 6 * a + 6 * b + 4, 1);
}

/// Distinctness within each root pair: when a root genuinely squares to a
/// nonzero ciphertext modulo an odd modulus, its negation `n - r` is a
/// root different from it. Together with decryption's pairing this gives
/// r2 != r1 and r4 != r3 for every nonzero quadratic residue.
pub proof fn lemma_paired_roots_distinct(r: int, c: int, n: int)
    requires
        n >= 3,
        n % 2 == 1,
        0 <= r < n,
        0 < c < n,
        squares_to(r, c, n),
    ensures
        (n - r) % n != r,
{
    if r == 0 {
        assert(r * r == 0) by (nonlinear_arith)
            requires
                r == 0,
        ;
        lemma_small_mod(0, n as nat);
        assert(false);
    }
    lemma_small_mod((n - r) as nat, n as nat);
    if n - r == r {
        lemma_mod_multiples_basic(r, 2);
        assert(false);
    }
}

/// Distinctness within the pairs of a validated root set: for a nonzero
/// ciphertext whose candidates genuinely square to it, the paired roots
/// `n - r1` and `n - r3` differ from `r1` and `r3`.
pub proof fn lemma_root_pairs_distinct(c: int, p: int, q: int)
    requires
        p % 4 == 3,
        q % 4 == 3,
        p >= 3,
        q >= 3,
        0 < c < p * q,
        squares_to(crt_root_sum(c, p, q), c, p * q),
        squares_to(crt_root_diff(c, p, q), c, p * q),
    ensures
        (p * q - crt_root_sum(c, p, q)) % (p * q) != crt_root_sum(c, p, q),
        (p * q - crt_root_diff(c, p, q)) % (p * q) != crt_root_diff(c, p, q),
{
    assert(p * q >= 9) by (nonlinear_arith)
        requires
            p >= 3,
            q >= 3,
    ;
    let n = p * q;
    lemma_odd_modulus(p, q);
    let yp = spec_egcd(p as nat, q as nat).1;
    let yq = spec_egcd(p as nat, q as nat).2;
    let s = crt_root_sum(c, p, q);
    let d = crt_root_diff(c, p, q);
    lemma_mod_bound(yp * p * root_candidate(c, q) + yq * q * root_candidate(c, p), n);
    lemma_mod_bound(yp * p * root_candidate(c, q) - yq * q * root_candidate(c, p), n);
    lemma_paired_roots_distinct(s, c, n);
    lemma_paired_roots_distinct(d, c, n);
}

/// A term carrying the factor `p` vanishes modulo `p`, while the other
/// term of the Bezout combination reduces to its bare candidate root: the
/// congruences that make the CRT combination work.
proof fn lemma_bezout_combo_mod(yp: int, yq: int, mp: int, mq: int, p: int, q: int)
    requires
        p >= 2,
        q >= 2,
        yp * p + yq * q == 1,
        0 <= mp < p,
        0 <= mq < q,
    ensures
        (yp * p * mq + yq * q * mp) % p == mp,
        (yp * p * mq - yq * q * mp) % p == (0 - mp) % p,
{
    let a = yp * p * mq;
    let b = yq * q * mp;
    assert(a == (yp * mq) * p) by (nonlinear_arith)
        requires
            a == yp * p * mq,
    ;
    lemma_mod_multiples_basic(yp * mq, p);
    assert(a % p == 0);
    assert(b % p == mp) by {
        assert(b == (yq * q) * mp) by (nonlinear_arith)
            requires
                b == yq * q * mp,
        ;
        lemma_mul_mod_noop_left(yq * q, mp, p);
        assert(yq * q == p * (0 - yp) + 1) by (nonlinear_arith)
            requires
                yp * p + yq * q == 1,
        ;
        lemma_mod_multiples_vanish(0 - yp, 1, p);
        lemma_small_mod(1nat, p as nat);
        assert((yq * q) % p == 1);
        lemma_small_mod(mp as nat, p as nat);
        assert((1 * mp) % p == mp);
    }
    assert((a + b) % p == mp) by {
        lemma_add_mod_noop(a, b, p);
        lemma_small_mod(mp as nat, p as nat);
    }
    assert((a - b) % p == (0 - mp) % p) by {
        lemma_sub_mod_noop(a, b, p);
        lemma_small_mod(0nat, p as nat);
    }
}

/// The CRT congruence law behind decryption: for distinct primes the
/// combined roots are congruent, modulo each prime, to that prime's own
/// candidate root — `r1 ≡ mp (mod p)`, `r1 ≡ mq (mod q)`, and the
/// difference combination gives `r3 ≡ -mp (mod p)`, `r3 ≡ mq (mod q)`.
pub proof fn lemma_crt_root_congruences(c: int, p: int, q: int)
    requires
        is_prime(p),
        is_prime(q),
        p != q,
    ensures
        crt_root_sum(c, p, q) % p == root_candidate(c, p),
        crt_root_sum(c, p, q) % q == root_candidate(c, q),
        crt_root_diff(c, p, q) % p == (0 - root_candidate(c, p)) % p,
        crt_root_diff(c, p, q) % q == root_candidate(c, q),
{
    crate::arith::lemma_distinct_primes_coprime(p as nat, q as nat);
    let yp = spec_egcd(p as nat, q as nat).1;
    let yq = spec_egcd(p as nat, q as nat).2;
    let mp = root_candidate(c, p);
    let mq = root_candidate(c, q);
    lemma_mod_bound(pow(c, (((p + 1) / 4)) as nat), p);
    lemma_mod_bound(pow(c, (((q + 1) / 4)) as nat), q);
    let x = yp * p * mq + yq * q * mp;
    let d = yp * p * mq - yq * q * mp;
    assert(p * q > 0) by (nonlinear_arith)
        requires
            p >= 2,
            q >= 2,
    ;
    lemma_bezout_combo_mod(yp, yq, mp, mq, p, q);
    assert(yq * q + yp * p == 1);
    lemma_bezout_combo_mod(yq, yp, mq, mp, q, p);
    assert(yq * q * mp + yp * p * mq == x);
    assert(yq * q * mp - yp * p * mq == 0 - d);
    lemma_mod_mod(x, p, q);
    lemma_mod_mod(d, p, q);
    assert(p * q == q * p) by (nonlinear_arith);
    lemma_mod_mod(x, q, p);
    lemma_mod_mod(d, q, p);
    // modulo q the difference reads as the negation of the other order's
    // difference, whose residue is -mq; negate back
    assert(d % q == mq) by {
        assert((0 - d) % q == (0 - mq) % q);
        lemma_mod_bound(d, q);
        lemma_mod_bound(0 - mq, q);
        lemma_fundamental_div_mod(0 - d, q);
        lemma_fundamental_div_mod(d, q);
        let k = (0 - d) / q;
        let r = (0 - d) % q;
        assert(0 - d == q * k + r);
        assert(d == q * (0 - k) - r) by (nonlinear_arith)
            requires
                0 - d == q * k + r,
        ;
        if r == 0 {
            assert(d == (0 - k) * q + 0) by (nonlinear_arith)
                requires
                    d == q * (0 - k) - r,
                    r == 0,
            ;
            lemma_fundamental_div_mod_converse_mod(d, q, 0 - k, 0);
            assert((0 - mq) % q == 0);
            lemma_mod_bound(mq, q);
            if mq != 0 {
                lemma_small_mod(mq as nat, q as nat);
                assert((0 - mq) % q == q - mq) by {
                    lemma_mod_add_multiples_vanish(0 - mq, q);
                    lemma_small_mod((q - mq) as nat, q as nat);
                }
                assert(false);
            }
        } else {
            assert(d == (0 - k - 1) * q + (q - r)) by (nonlinear_arith)
                requires
                    d == q * (0 - k) - r,
            ;
            lemma_fundamental_div_mod_converse_mod(d, q, 0 - k - 1, q - r);
            assert(d % q == q - r);
            assert((0 - mq) % q == r);
            if mq == 0 {
                lemma_small_mod(0nat, q as nat);
                assert(false);
            }
            assert((0 - mq) % q == q - mq) by {
                lemma_mod_add_multiples_vanish(0 - mq, q);
                lemma_small_mod((q - mq) as nat, q as nat);
            }
            assert(q - r == mq);
        }
    }
}

/// Chinese-Remainder lift: a value congruent to `c` modulo two coprime
/// factors is congruent to `c` modulo their product.
proof fn lemma_crt_lift(x: int, c: int, yp: int, yq: int, p: int, q: int)
    requires
        p >= 1,
        q >= 1,
        yp * p + yq * q == 1,
        x % p == c % p,
        x % q == c % q,
    ensures
        x % (p * q) == c % (p * q),
{
    let t = x - c;
    lemma_mod_equivalence(x, c, p);
    lemma_mod_equivalence(x, c, q);
    lemma_fundamental_div_mod(t, p);
    lemma_fundamental_div_mod(t, q);
    let u = t / p;
    let v = t / q;
    assert(p * q > 0) by (nonlinear_arith)
        requires
            p >= 1,
            q >= 1,
    ;
    assert(t == (yp * v + yq * u) * (p * q)) by (nonlinear_arith)
        requires
            t == p * u,
            t == q * v,
            yp * p + yq * q == 1,
    ;
    lemma_mod_multiples_basic(yp * v + yq * u, p * q);
    lemma_mod_equivalence(x, c, p * q);
}

/// Squaring ignores a prior reduction of its operand.
proof fn lemma_square_mod_reduce(r: int, n: int)
    requires
        n >= 1,
    ensures
        ((r % n) * (r % n)) % n == (r * r) % n,
{
    lemma_mul_mod_noop(r, r, n);
}

/// A value and its negation modulo `n` have the same square modulo `n`.
proof fn lemma_neg_square_mod(r: int, n: int)
    requires
        n >= 1,
    ensures
        ((n - r) * (n - r)) % n == (r * r) % n,
{
    assert((n - r) * (n - r) == n * (n - 2 * r) + r * r) by (nonlinear_arith);
    lemma_mod_multiples_vanish(n - 2 * r, r * r, n);
}

/// Correctness of the root set on genuine residues: whenever the two
/// candidate roots are square roots of the ciphertext modulo their own
/// primes — which holds exactly when the ciphertext is a quadratic
/// residue modulo both — all four combined roots square to the
/// ciphertext modulo n.
pub proof fn lemma_residue_roots_square(c: int, p: int, q: int)
    requires
        is_prime(p),
        is_prime(q),
        p != q,
        (root_candidate(c, p) * root_candidate(c, p)) % p == c % p,
        (root_candidate(c, q) * root_candidate(c, q)) % q == c % q,
    ensures
        ({
            let n = p * q;
            let s = crt_root_sum(c, p, q);
            let d = crt_root_diff(c, p, q);
            &&& (s * s) % n == c % n
            &&& (((n - s) % n) * ((n - s) % n)) % n == c % n
            &&& (d * d) % n == c % n
            &&& (((n - d) % n) * ((n - d) % n)) % n == c % n
            &&& 0 <= c < n ==> squares_to(s, c, n) && squares_to((n - s) % n, c, n) && squares_to(
                d,
                c,
                n,
            ) && squares_to((n - d) % n, c, n)
        }),
{
    crate::arith::lemma_distinct_primes_coprime(p as nat, q as nat);
    let yp = spec_egcd(p as nat, q as nat).1;
    let yq = spec_egcd(p as nat, q as nat).2;
    let mp = root_candidate(c, p);
    let mq = root_candidate(c, q);
    assert(p * q > 0) by (nonlinear_arith)
        requires
            p >= 2,
            q >= 2,
    ;
    let n = p * q;
    let s = crt_root_sum(c, p, q);
    let d = crt_root_diff(c, p, q);
    lemma_crt_root_congruences(c, p, q);
    assert((s * s) % p == c % p) by {
        lemma_square_mod_reduce(s, p);
    }
    assert((s * s) % q == c % q) by {
        lemma_square_mod_reduce(s, q);
    }
    lemma_crt_lift(s * s, c, yp, yq, p, q);
    assert((d * d) % p == c % p) by {
        lemma_square_mod_reduce(d, p);
        assert((0 - mp) * (0 - mp) == mp * mp) by (nonlinear_arith);
        lemma_square_mod_reduce(0 - mp, p);
    }
    assert((d * d) % q == c % q) by {
        lemma_square_mod_reduce(d, q);
    }
    lemma_crt_lift(d * d, c, yp, yq, p, q);
    assert((((n - s) % n) * ((n - s) % n)) % n == c % n) by {
        lemma_square_mod_reduce(n - s, n);
        lemma_neg_square_mod(s, n);
    }
    assert((((n - d) % n) * ((n - d) % n)) % n == c % n) by {
        lemma_square_mod_reduce(n - d, n);
        lemma_neg_square_mod(d, n);
    }
    if 0 <= c < n {
        lemma_small_mod(c as nat, n as nat);
    }
}

/// Two values below `p * q` that agree modulo both coprime factors are
/// equal.
proof fn lemma_crt_equal(x: int, y: int, yp: int, yq: int, p: int, q: int)
    requires
        p >= 1,
        q >= 1,
        yp * p + yq * q == 1,
        x % p == y % p,
        x % q == y % q,
        0 <= x < p * q,
        0 <= y < p * q,
    ensures
        x == y,
{
    lemma_crt_lift(x, y, yp, yq, p, q);
    lemma_small_mod(x as nat, (p * q) as nat);
    lemma_small_mod(y as nat, (p * q) as nat);
}

/// Completeness of decryption: whenever the two candidate roots of the
/// ciphertext `m² mod n` are genuine square roots modulo their own primes
/// — which Euler's criterion grants for every message when both primes
/// are congruent to 3 mod 4, and which stands as a premise here — the
/// original message is one of the four decrypted roots.
pub proof fn lemma_message_among_roots(m: int, p: int, q: int)
    requires
        is_prime(p),
        is_prime(q),
        p != q,
        0 <= m < p * q,
        (root_candidate((m * m) % (p * q), p) * root_candidate((m * m) % (p * q), p)) % p == ((m
            * m) % (p * q)) % p,
        (root_candidate((m * m) % (p * q), q) * root_candidate((m * m) % (p * q), q)) % q == ((m
            * m) % (p * q)) % q,
    ensures
        ({
            let n = p * q;
            let c = (m * m) % n;
            let s = crt_root_sum(c, p, q);
            let d = crt_root_diff(c, p, q);
            m == s || m == (n - s) % n || m == d || m == (n - d) % n
        }),
{
    assert(p * q > 0) by (nonlinear_arith)
        requires
            p >= 2,
            q >= 2,
    ;
    let n = p * q;
    let c = (m * m) % n;
    crate::arith::lemma_distinct_primes_coprime(p as nat, q as nat);
    let yp = spec_egcd(p as nat, q as nat).1;
    let yq = spec_egcd(p as nat, q as nat).2;
    let mp = root_candidate(c, p);
    let mq = root_candidate(c, q);
    lemma_mod_bound(pow(c, (((p + 1) / 4)) as nat), p);
    lemma_mod_bound(pow(c, (((q + 1) / 4)) as nat), q);
    lemma_crt_root_congruences(c, p, q);
    let s = crt_root_sum(c, p, q);
    let d = crt_root_diff(c, p, q);
    assert(0 <= s < n) by {
        lemma_mod_bound(yp * p * mq + yq * q * mp, n);
    }
    assert(0 <= d < n) by {
        lemma_mod_bound(yp * p * mq - yq * q * mp, n);
    }
    lemma_small_mod(mp as nat, p as nat);
    lemma_small_mod(mq as nat, q as nat);
    // the hypotheses say mp and m share their square mod p, and likewise
    // mod q, so each candidate is congruent to m up to sign
    lemma_mod_mod(m * m, p, q);
    assert(p * q == q * p) by (nonlinear_arith);
    lemma_mod_mod(m * m, q, p);
    crate::arith::lemma_same_square_mod_prime(p, mp, m);
    crate::arith::lemma_same_square_mod_prime(q, mq, m);
    if (mp - m) % p == 0 {
        lemma_mod_equivalence(mp, m, p);
        if (mq - m) % q == 0 {
            lemma_mod_equivalence(mq, m, q);
            lemma_crt_equal(s, m, yp, yq, p, q);
        } else {
            // mq is congruent to -m: the difference root d carries (mp, -mq),
            // so its negation modulo n carries (m mod p, m mod q)... in fact
            // here (n - d) % n does
            lemma_mod_equivalence(m, 0 - mq, q);
            let x = (n - d) % n;
            lemma_mod_bound(n - d, n);
            assert(x % p == m % p) by {
                lemma_mod_mod(n - d, p, q);
                lemma_mod_multiples_vanish(q, 0 - d, p);
                assert(n - d == p * q + (0 - d));
                crate::arith::lemma_neg_mod_congruent(d, 0 - mp, p);
                assert((0 - (0 - mp)) == mp);
            }
            assert(x % q == m % q) by {
                assert(p * q == q * p) by (nonlinear_arith);
                lemma_mod_mod(n - d, q, p);
                lemma_mod_multiples_vanish(p, 0 - d, q);
                assert(n - d == q * p + (0 - d));
                crate::arith::lemma_neg_mod_congruent(d, mq, q);
            }
            lemma_crt_equal(x, m, yp, yq, p, q);
        }
    } else {
        lemma_mod_equivalence(m, 0 - mp, p);
        if (mq - m) % q == 0 {
            lemma_mod_equivalence(mq, m, q);
            lemma_crt_equal(d, m, yp, yq, p, q);
        } else {
            lemma_mod_equivalence(m, 0 - mq, q);
            let x = (n - s) % n;
            lemma_mod_bound(n - s, n);
            assert(x % p == m % p) by {
                lemma_mod_mod(n - s, p, q);
                lemma_mod_multiples_vanish(q, 0 - s, p);
                assert(n - s == p * q + (0 - s));
                crate::arith::lemma_neg_mod_congruent(s, mp, p);
            }
            assert(x % q == m % q) by {
                assert(p * q == q * p) by (nonlinear_arith);
                lemma_mod_mod(n - s, q, p);
                lemma_mod_multiples_vanish(p, 0 - s, q);
                assert(n - s == q * p + (0 - s));
                crate::arith::lemma_neg_mod_congruent(s, mq, q);
            }
            lemma_crt_equal(x, m, yp, yq, p, q);
        }
    }
}

/// Draws primes within `bit_size` bits until one congruent to 3 mod 4
/// and different from `avoid` comes up, at most `MAX_KEYGEN_ATTEMPTS`
/// times.
fn draw_prime_3_mod_4(bit_size: usize, avoid: u64) -> (res: Result<u64, RabinError>)
    requires
        1 <= bit_size <= 32,
    ensures
        res matches Ok(p) ==> is_prime(p as int) && p % 4 == 3 && p != avoid && p <= MAX_PRIME,
        res matches Err(e) ==> e == RabinError::KeyGenerationBoundExceeded,
{
    let mut attempt: u64 = 0;
    while attempt < MAX_KEYGEN_ATTEMPTS
        invariant
            1 <= bit_size <= 32,
        decreases MAX_KEYGEN_ATTEMPTS - attempt,
    {
        let cand = gen_prime_u64(bit_size);
        if cand % 4 == 3 && cand != avoid && cand <= MAX_PRIME {
            return Ok(cand);
        }
        attempt = attempt + 1;
    }
    Err(RabinError::KeyGenerationBoundExceeded)
}

/// Generates a Rabin key pair: two distinct random primes within
/// `bit_size` bits, each congruent to 3 mod 4, and the public modulus
/// n = p * q. Fails with `KeyGenerationBoundExceeded` when the bounded
/// retry loops exhaust their attempts.
pub fn generate_keys(bit_size: usize) -> (res: Result<(PrivateKey, u64), RabinError>)
    requires
        1 <= bit_size <= 32,
    ensures
        res matches Ok(kp) ==> kp.0.wf() && kp.1 == kp.0.n_spec(),
        res matches Err(e) ==> e == RabinError::KeyGenerationBoundExceeded,
{
    let p = match draw_prime_3_mod_4(bit_size, 0) {
        Ok(p) => p,
        Err(e) => {
            return Err(e);
        },
    };
    let q = match draw_prime_3_mod_4(bit_size, p) {
        Ok(q) => q,
        Err(e) => {
            return Err(e);
        },
    };
    proof {
        assert(p as int * q as int <= MAX_PRIME as int * MAX_PRIME as int) by (nonlinear_arith)
            requires
                1 <= p <= MAX_PRIME,
                1 <= q <= MAX_PRIME,
        ;
    }
    let key = PrivateKey { p, q };
    let n = key.modulus();
    Ok((key, n))
}

} // verus!
