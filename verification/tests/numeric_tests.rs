use cryptography_sandbox::arith::{expmod, gcd};
use cryptography_sandbox::decimal::{u128_from_str, u128_to_string};
use cryptography_sandbox::encryption_protocol::EncryptionProtocol;
use cryptography_sandbox::primes::{generate_first_primes, generate_prime, rabin_miller_test};
use cryptography_sandbox::rsa::RSA;
use cryptography_sandbox::user::User;

#[test]
fn test_expmod_values() {
    assert_eq!(expmod(2, 10, 1000), 24);
    assert_eq!(expmod(5, 0, 7), 1);
    assert_eq!(expmod(0, 0, 5), 1);
    assert_eq!(expmod(0, 3, 5), 0);
    assert_eq!(expmod(7, 1, 5), 2);
    assert_eq!(expmod(3, 4, 1000), 81);
    // Operands whose square overflows a u128 are reduced in a widened
    // representation.
    let big = u128::MAX - 1;
    assert_eq!(expmod(big, 2, u128::MAX), 1);
}

#[test]
fn test_gcd_values() {
    assert_eq!(gcd(12, 18), 6);
    assert_eq!(gcd(18, 12), 6);
    assert_eq!(gcd(0, 5), 5);
    assert_eq!(gcd(5, 0), 5);
    assert_eq!(gcd(17, 13), 1);
    assert_eq!(gcd(65537, 65537 * 3), 65537);
}

#[test]
fn test_first_primes() {
    let primes = generate_first_primes(30);
    assert_eq!(primes, vec![2, 3, 5, 7, 11, 13, 17, 19, 23, 29]);
    assert!(generate_first_primes(2).is_empty());
    assert_eq!(generate_first_primes(100).len(), 25);
}

#[test]
fn test_decimal_strings() {
    assert_eq!(u128_to_string(0), "0");
    assert_eq!(u128_to_string(7), "7");
    assert_eq!(u128_to_string(12345), "12345");
    assert_eq!(u128_to_string(u128::MAX), "340282366920938463463374607431768211455");
    assert_eq!(u128_from_str("0"), 0);
    assert_eq!(u128_from_str("12345"), 12345);
    assert_eq!(u128_from_str("340282366920938463463374607431768211455"), u128::MAX);
}

#[test]
fn test_rabin_miller_known_values() {
    assert!(rabin_miller_test(104729));
    assert!(rabin_miller_test(2305843009213693951));
    // 1000001 == 101 * 9901
    assert!(!rabin_miller_test(1000001));
    assert!(!rabin_miller_test(1000000016000000063));
}

#[test]
fn test_generate_prime_in_range() {
    let first_primes = generate_first_primes(100);
    let p = generate_prime(1000, 2000, &first_primes).unwrap();
    assert!((1000..=2000).contains(&p));
    // Certify by trial division at this small size.
    let mut d = 2u128;
    while d * d <= p {
        assert_ne!(p % d, 0);
        d += 1;
    }
}

#[test]
fn test_key_independence() {
    // Two successive generation calls never produce the same modulus.
    let mut moduli: Vec<u128> = Vec::new();
    for _ in 0..100 {
        let (public_key, _private_key) = RSA::create_keys().unwrap();
        assert!(!moduli.contains(&public_key.n));
        moduli.push(public_key.n);
    }
}

#[test]
fn test_round_trip_all_lengths() {
    // Every ASCII text of length 1 to 64 survives the chunked pipeline.
    let mut user: User<RSA> = User::new("Alice");
    let key = user.create_keys().unwrap();
    user.receive_message(key);
    let alphabet = "abcdefghijklmnopqrstuvwxyzABCDEFGHIJKLMNOPQRSTUVWXYZ0123456789 !";
    for len in 1..=64 {
        let text: String = alphabet.chars().take(len).collect();
        let encrypted = user.create_message("Alice", &text).unwrap();
        let decrypted = user.decrypt_message(encrypted);
        assert_eq!(decrypted.get_message(), &text);
    }
}

#[test]
fn test_round_trip_after_rotation() {
    // Messages encrypted under two different sessions both decrypt with
    // the session each carries.
    let mut user: User<RSA> = User::new("Alice");
    let key = user.create_keys().unwrap();
    user.receive_message(key);
    let first = user.create_message("Alice", "under the first key").unwrap();
    let key2 = user.create_keys().unwrap();
    user.receive_message(key2);
    let second = user.create_message("Alice", "under the second key").unwrap();
    assert_eq!(first.get_session_key(), 1);
    assert_eq!(second.get_session_key(), 2);
    assert_eq!(user.decrypt_message(first).get_message(), "under the first key");
    assert_eq!(user.decrypt_message(second).get_message(), "under the second key");
}
