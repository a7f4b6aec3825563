//! Hashing support for the signature scheme: a trusted wrapper around the
//! outside SHA-256 implementation, and verified conversions between byte
//! sequences and the integers they stand for.

use vstd::prelude::*;
use vstd::arithmetic::div_mod::*;
use vstd::calc;
use sha2::Digest;

verus! {

/// The SHA-256 digest of a byte sequence, named here; the digest is a
/// function of the input bytes alone.
pub uninterp spec fn sha256_of(bytes: Seq<u8>) -> Seq<u8>;

/// Relies on sha2's `Sha256` through the `Digest` trait: the digest holds
/// exactly 32 bytes and depends on the input bytes alone.
#[verifier::external_body]
pub(crate) fn sha256(bytes: &Vec<u8>) -> (r: Vec<u8>)
    ensures
        r@ == sha256_of(bytes@),
        r@.len() == 32,
{
    let mut hasher = sha2::Sha256::new();
    hasher.update(bytes.as_slice());
    hasher.finalize().to_vec()
}

/// The non-negative integer that a byte sequence spells in big-endian
/// order.
pub open spec fn be_bytes_int(s: Seq<u8>) -> int
    decreases s.len(),
{
    if s.len() == 0 {
        0
    } else {
        be_bytes_int(s.drop_last()) * 256 + s.last()
    }
}

/// The eight big-endian bytes of a 64-bit value.
pub open spec fn be8_bytes(m: u64) -> Seq<u8> {
    seq![
        (m as int / 0x100000000000000) as u8,
        ((m as int / 0x1000000000000) % 256) as u8,
        ((m as int / 0x10000000000) % 256) as u8,
        ((m as int / 0x100000000) % 256) as u8,
        ((m as int / 0x1000000) % 256) as u8,
        ((m as int / 0x10000) % 256) as u8,
        ((m as int / 0x100) % 256) as u8,
        (m as int % 256) as u8,
    ]
}

/// Spells a message out as its eight big-endian bytes, the form in which
/// it enters the hash.
pub fn message_to_bytes(m: u64) -> (v: Vec<u8>)
    ensures
        v@ == be8_bytes(m),
{
    let mut v: Vec<u8> = Vec::new();
    v.push((m / 0x100000000000000) as u8);
    v.push(((m / 0x1000000000000) % 256) as u8);
    v.push(((m / 0x10000000000) % 256) as u8);
    v.push(((m / 0x100000000) % 256) as u8);
    v.push(((m / 0x1000000) % 256) as u8);
    v.push(((m / 0x10000) % 256) as u8);
    v.push(((m / 0x100) % 256) as u8);
    v.push((m % 256) as u8);
    proof {
        assert(v@ =~= be8_bytes(m));
    }
    v
}

/// Joins two byte vectors, first then second.
pub fn concat_bytes(a: &Vec<u8>, b: &Vec<u8>) -> (r: Vec<u8>)
    ensures
        r@ == a@ + b@,
{
    let mut r: Vec<u8> = Vec::new();
    let mut i: usize = 0;
    while i < a.len()
        invariant
            i <= a.len(),
            r@ =~= a@.take(i as int),
        decreases a.len() - i,
    {
        r.push(a[i]);
        i = i + 1;
    }
    let mut j: usize = 0;
    while j < b.len()
        invariant
            j <= b.len(),
            r@ =~= a@ + b@.take(j as int),
        decreases b.len() - j,
    {
        r.push(b[j]);
        j = j + 1;
    }
    proof {
        assert(r@ =~= a@ + b@);
    }
    r
}

/// Reduces the big-endian integer of a byte sequence modulo `n`, one byte
/// at a time, so that no intermediate value outgrows the machine word.
pub fn bytes_mod(bytes: &Vec<u8>, n: u64) -> (r: u64)
    requires
        n >= 1,
    ensures
        r == be_bytes_int(bytes@) % (n as int),
        r < n,
{
    let mut acc: u64 = 0;
    let mut i: usize = 0;
    proof {
        assert(bytes@.take(0) =~= Seq::<u8>::empty());
        lemma_small_mod(0, n as nat);
    }
    while i < bytes.len()
        invariant
            n >= 1,
            acc < n,
            i <= bytes.len(),
            acc == be_bytes_int(bytes@.take(i as int)) % (n as int),
        decreases bytes.len() - i,
    {
        let b = bytes[i];
        let wide: u128 = (acc as u128) * 256 + (b as u128);
        let next: u64 = (wide % (n as u128)) as u64;
        proof {
            let ni = n as int;
            let prev = be_bytes_int(bytes@.take(i as int));
            lemma_mod_bound(wide as int, ni);
            assert(bytes@.take(i as int + 1).drop_last() =~= bytes@.take(i as int));
            assert(be_bytes_int(bytes@.take(i as int + 1)) == prev * 256 + b);
            calc! {
                (==)
                next as int; {}
                ((prev % ni) * 256 + b) % ni; {
                    lemma_add_mod_noop((prev % ni) * 256, b as int, ni);
                    lemma_mul_mod_noop_left(prev, 256, ni);
                    lemma_add_mod_noop(prev * 256, b as int, ni);
                }
                (prev * 256 + b) % ni;
            }
        }
        acc = next;
        i = i + 1;
    }
    proof {
        assert(bytes@.take(bytes@.len() as int) =~= bytes@);
    }
    acc
}

} // verus!
