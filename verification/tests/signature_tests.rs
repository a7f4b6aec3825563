use rabin_crypto::errors::RabinError;
use rabin_crypto::rabin::{generate_keys, PrivateKey};
use rabin_crypto::rabin_digital_signature::{sign, sign_attempt, sign_attempts, verify};
use sha2::Digest;

/// Tests the Rabin digital signature functionality by signing and then verifying a message.
#[test]
fn test_rabin_signature() {
    let bit_size = 16;
    let (private_key, public_key) = generate_keys(bit_size).expect("key generation failed");
    let message: u64 = 12345678;

    let (signature, u) = sign(message, &private_key).expect("signing failed");
    assert!(
        verify(message, &(signature, u), public_key),
        "Signature verification failed"
    );
}

#[test]
fn test_round_trip_small_key() {
    let key = PrivateKey::new(7, 11).unwrap();
    let sig = sign(5, &key).expect("signing failed");
    assert!(verify(5, &sig, 77));
}

#[test]
fn test_tampered_message_rejected() {
    let (key, n) = generate_keys(16).expect("key generation failed");
    let message: u64 = 12345678;
    let sig = sign(message, &key).expect("signing failed");
    assert!(verify(message, &sig, n));
    assert!(!verify(message ^ 1, &sig, n), "flipped message bit accepted");
    assert!(
        !verify(message ^ (1 << 40), &sig, n),
        "flipped message bit accepted"
    );
}

#[test]
fn test_tampered_nonce_rejected() {
    let (key, n) = generate_keys(16).expect("key generation failed");
    let message: u64 = 12345678;
    let (r, nonce) = sign(message, &key).expect("signing failed");
    let mut bad_nonce = nonce.clone();
    bad_nonce[0] ^= 1;
    assert!(verify(message, &(r, nonce), n));
    assert!(
        !verify(message, &(r, bad_nonce), n),
        "flipped nonce bit accepted"
    );
}

#[test]
fn test_zero_attempts_exceed_bound() {
    let key = PrivateKey::new(7, 11).unwrap();
    assert_eq!(
        sign_attempts(5, &key, 0),
        Err(RabinError::SigningBoundExceeded)
    );
}

#[test]
fn test_sign_attempt_deterministic_under_fixed_nonce() {
    // with the nonce injected, one attempt is a pure function of message
    // and key
    let key = PrivateKey::new(7, 11).unwrap();
    for m in 0..20u64 {
        let first = sign_attempt(m, &key, vec![7u8; 32]);
        let second = sign_attempt(m, &key, vec![7u8; 32]);
        assert_eq!(first, second);
        if let Some((r, nonce)) = first {
            assert_eq!(nonce, vec![7u8; 32]);
            assert!(verify(m, &(r, nonce), 77));
        }
    }
}

#[test]
fn test_signature_matches_independent_hash() {
    // a signature squares to the SHA-256 digest of message bytes and
    // nonce, reduced modulo n, as recomputed here without the library
    let (key, n) = generate_keys(16).expect("key generation failed");
    let message: u64 = 987654321;
    let (r, nonce) = sign(message, &key).expect("signing failed");
    let mut input = message.to_be_bytes().to_vec();
    input.extend_from_slice(&nonce);
    let digest = sha2::Sha256::digest(&input);
    let mut c: u64 = 0;
    for b in digest.iter() {
        c = (((c as u128) * 256 + *b as u128) % (n as u128)) as u64;
    }
    assert_eq!(((r as u128) * (r as u128) % (n as u128)) as u64, c);
}

#[test]
fn test_fresh_nonces_differ() {
    let key = PrivateKey::new(7, 11).unwrap();
    let (_, nonce_a) = sign(3, &key).expect("signing failed");
    let (_, nonce_b) = sign(3, &key).expect("signing failed");
    assert_eq!(nonce_a.len(), 32);
    assert_eq!(nonce_b.len(), 32);
    assert_ne!(nonce_a, nonce_b, "two signings drew the same 256-bit nonce");
}
