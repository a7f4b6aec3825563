use rabin_crypto::errors::RabinError;
use rabin_crypto::rabin::{decrypt, decrypt_checked, encrypt, generate_keys, PrivateKey};

/// Minimal big-endian byte length of a value, the length its bytes would
/// have without leading zeros (one byte for zero).
fn be_len(m: u64) -> usize {
    if m == 0 {
        1
    } else {
        8 - (m.leading_zeros() as usize) / 8
    }
}

/// Selects the correct plaintext from the decrypted messages based on the original message length.
fn select_correct_plaintext(decrypted_messages: &[u64], original_message_len: usize) -> Option<u64> {
    decrypted_messages
        .iter()
        .find(|&&m| be_len(m) == original_message_len)
        .cloned()
}

/// Tests the Rabin cryptosystem by generating keys, encrypting a message, and then decrypting it
/// to verify that the original message is recovered.
#[test]
fn test_rabin_cryptosystem() {
    let bit_size = 16;
    let message: u64 = 12345678;
    let mut keys = generate_keys(bit_size).expect("key generation failed");
    // the message must lie below the modulus to survive the round trip
    while keys.1 <= message {
        keys = generate_keys(bit_size).expect("key generation failed");
    }
    let (private_key, public_key) = keys;
    let ciphertext = encrypt(message, public_key);
    let decrypted_messages = decrypt(ciphertext, &private_key).to_vec();
    let original_message_len = be_len(message);
    let decrypted_message = select_correct_plaintext(&decrypted_messages, original_message_len)
        .expect("Failed to select the correct plaintext");

    assert_eq!(
        decrypted_message, message,
        "Decryption failed to recover the original message"
    );
}

#[test]
fn test_concrete_scenario() {
    // p = 7, q = 11, n = 77, m = 4: the ciphertext is 16 and the root set
    // holds four distinct roots of 16 mod 77, among them 4 and 73.
    let key = PrivateKey::new(7, 11).expect("7 and 11 make a valid key");
    assert_eq!(key.modulus(), 77);
    let c = encrypt(4, 77);
    assert_eq!(c, 16);
    let roots = decrypt_checked(16, &key).expect("16 is a quadratic residue mod 77");
    let v = roots.to_vec();
    assert_eq!(v.len(), 4);
    for i in 0..4 {
        assert_eq!(v[i] * v[i] % 77, 16);
        for j in 0..i {
            assert_ne!(v[i], v[j], "roots must be distinct");
        }
    }
    assert!(roots.contains(4));
    assert!(roots.contains(73));
}

#[test]
fn test_root_pairing() {
    // r2 = n - r1 and r4 = n - r3, whatever the ciphertext.
    let key = PrivateKey::new(7, 11).unwrap();
    for c in 0..77 {
        let rs = decrypt(c, &key);
        assert_eq!(rs.r2, (77 - rs.r1) % 77);
        assert_eq!(rs.r4, (77 - rs.r3) % 77);
    }
}

#[test]
fn test_all_messages_round_trip() {
    // every message in [0, n) is among the roots of its own ciphertext
    let key = PrivateKey::new(7, 11).unwrap();
    for m in 0..77 {
        let c = encrypt(m, 77);
        let rs = decrypt(c, &key);
        assert!(rs.contains(m), "message {} lost under decryption", m);
    }
}

#[test]
fn test_non_residue_rejected() {
    // 5 is no quadratic residue mod 7, so validation must reject it
    let key = PrivateKey::new(7, 11).unwrap();
    assert_eq!(
        decrypt_checked(5, &key),
        Err(RabinError::NonResidueCiphertext)
    );
}

#[test]
fn test_invalid_keys_rejected() {
    assert_eq!(PrivateKey::new(7, 7), Err(RabinError::InvalidKey));
    assert_eq!(PrivateKey::new(5, 11), Err(RabinError::InvalidKey));
    assert_eq!(PrivateKey::new(8, 11), Err(RabinError::InvalidKey));
    assert_eq!(PrivateKey::new(0, 11), Err(RabinError::InvalidKey));
    assert!(PrivateKey::new(7, 11).is_ok());
}

#[test]
fn test_keygen_bound_exceeded() {
    // within 2 bits the only prime congruent to 3 mod 4 is 3 itself, so no
    // second, distinct prime can ever be drawn
    assert_eq!(
        generate_keys(2),
        Err(RabinError::KeyGenerationBoundExceeded)
    );
}

#[test]
fn test_generated_keys_are_valid() {
    let (key, n) = generate_keys(16).expect("key generation failed");
    assert_eq!(n, key.p * key.q);
    assert_eq!(key.p % 4, 3);
    assert_eq!(key.q % 4, 3);
    assert_ne!(key.p, key.q);
    // the parts pass the untrusted-key check, so both are prime
    assert!(PrivateKey::new(key.p, key.q).is_ok());
}

#[test]
fn test_encrypt_squares() {
    assert_eq!(encrypt(10, 77), 23);
    assert_eq!(encrypt(0, 77), 0);
    assert_eq!(encrypt(76, 77), 1);
}
