use rabin_crypto::rabin::{decrypt_checked, PrivateKey};
use rabin_crypto::rabins_ot::{
    carmicle_function, find_square_root, gen_rand, generate_prime, send_encrypted_message,
    send_random_square,
};

fn is_prime_naive(x: u64) -> bool {
    if x < 2 {
        return false;
    }
    let mut d = 2;
    while d < x {
        if x % d == 0 {
            return false;
        }
        d += 1;
    }
    true
}

#[test]
fn test_carmicle_function() {
    assert_eq!(carmicle_function(7, 11), 60);
    assert_eq!(carmicle_function(3, 3), 4);
    assert_eq!(carmicle_function(1, 1), 0);
}

#[test]
fn test_send_encrypted_message() {
    assert_eq!(send_encrypted_message(2, 5, 77), 32);
    assert_eq!(send_encrypted_message(12, 1, 77), 12);
    assert_eq!(send_encrypted_message(12, 0, 77), 1);
    assert_eq!(send_encrypted_message(3, 4, 77), 4); // 81 mod 77
}

#[test]
fn test_send_random_square_is_residue() {
    let key = PrivateKey::new(7, 11).unwrap();
    for _ in 0..10 {
        let c = send_random_square(77);
        assert!(c < 77);
        // some secret x in [1, 77) has x*x % 77 == c
        assert!((1..77u64).any(|x| x * x % 77 == c));
        // and the decryptor accepts it as a residue
        let roots = decrypt_checked(c, &key).expect("a sent square is a residue");
        for r in roots.to_vec() {
            assert_eq!(r * r % 77, c);
        }
    }
}

#[test]
fn test_find_square_root_squares_back() {
    let key = PrivateKey::new(7, 11).unwrap();
    for _ in 0..10 {
        let r = find_square_root(16, &key);
        assert!(r < 77);
        assert_eq!(r * r % 77, 16);
    }
}

#[test]
fn test_generate_prime() {
    for _ in 0..5 {
        let p = generate_prime(8);
        assert!(is_prime_naive(p), "{} is not prime", p);
    }
}

#[test]
fn test_gen_rand_range() {
    assert_eq!(gen_rand(2), 1);
    for _ in 0..20 {
        let r = gen_rand(10);
        assert!((1..10).contains(&r));
    }
}
