use cryptography_sandbox::encryption_protocol::EncryptionProtocol;
use cryptography_sandbox::rsa::{PublicKey, RSA};

#[test]
fn test_encrypt_decrypt() {
    let (public_key, private_key) = RSA::create_keys().unwrap();
    let encrypted_message = RSA::encrypt("hello", &public_key);
    let decrypted_message = RSA::decrypt(&encrypted_message, &private_key);
    assert_eq!(decrypted_message, "hello");
}

#[test]
fn test_identity_encryption() {
    let (public_key, _private_key) = RSA::create_keys().unwrap();
    let mut identity_message = String::new();
    identity_message.push(char::from_u32(1).unwrap());
    let encrypted_message = RSA::encrypt(&identity_message, &public_key);
    assert_eq!(encrypted_message.as_bytes()[0], b'1');
}

#[test]
fn test_to_public_key() {
    let key = RSA::to_public_key("123 456");

    assert_eq!(key.n, 123);
    assert_eq!(key.public_exp, 456);
}

#[test]
fn test_to_string() {
    let key = PublicKey {
        n: 123_u128,
        public_exp: 456_u128,
    };
    let mes = RSA::to_string(&key);

    assert_eq!(mes, "123 456");
}

#[test]
fn test_serialize_parse_round_trip() {
    let (public_key, _private_key) = RSA::create_keys().unwrap();
    let serialized = RSA::to_string(&public_key);
    let parsed = RSA::to_public_key(&serialized);
    assert_eq!(parsed.n, public_key.n);
    assert_eq!(parsed.public_exp, public_key.public_exp);
}

#[test]
fn test_encrypt_is_not_identity() {
    // The ciphertext of a chunk is a decimal numeral, not the plaintext.
    let (public_key, private_key) = RSA::create_keys().unwrap();
    let encrypted = RSA::encrypt("abcdefgh", &public_key);
    assert_ne!(encrypted, "abcdefgh");
    assert!(encrypted.bytes().all(|b| b.is_ascii_digit()));
    assert_eq!(RSA::decrypt(&encrypted, &private_key), "abcdefgh");
}

#[test]
fn test_key_pair_shape() {
    let (public_key, _private_key) = RSA::create_keys().unwrap();
    // Both primes exceed 2^62, so the modulus exceeds 2^124.
    assert!(public_key.n > (1u128 << 124));
    assert!(public_key.public_exp >= 65537);
}
