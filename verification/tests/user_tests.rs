use cryptography_sandbox::errors::ProtocolError;
use cryptography_sandbox::message::MessageType;
use cryptography_sandbox::rsa::RSA;
use cryptography_sandbox::user::User;

/// Rotates the user's keys and caches its own announcement, leaving the
/// message buffer as it was.
fn announce_to_self(user: &mut User<RSA>) {
    let key = user.create_keys().unwrap();
    user.receive_message(key);
    user.delete_last_message();
}

#[test]
fn user_test_create_keys() {
    let mut user: User<RSA> = User::new("Alice");
    let mes = user.create_keys().unwrap();

    assert!(user.get_public_key().is_some());
    assert!(user.has_session_key(1));
    assert_eq!(mes.get_sender(), "Alice");
    assert_eq!(mes.get_receiver(), "");
    let is_public_key_type = match mes.get_message_type() {
        MessageType::Message => false,
        MessageType::PublicKey => true,
    };
    assert!(is_public_key_type);

    let (num, exp) = mes.get_message().split_once(' ').unwrap();
    let n: u128 = num.parse().unwrap();
    let public_exp: u128 = exp.parse().unwrap();

    assert_eq!(user.get_public_key().unwrap().n, n);
    assert_eq!(user.get_public_key().unwrap().public_exp, public_exp);
}

#[test]
fn test_missing_receiver_key() {
    let user: User<RSA> = User::new("Alice");
    let result = user.create_message("Bob", "Hello, Bob!");
    assert_eq!(result.unwrap_err(), ProtocolError::PublicKeyNotFound);
}

#[test]
fn test_empty_text() {
    let mut user: User<RSA> = User::new("Alice");
    announce_to_self(&mut user);
    let result = user.create_message("Alice", "");
    assert_eq!(result.unwrap_err(), ProtocolError::EmptyMessage);
}

#[test]
fn user_test_send_to_myself() {
    let mut user: User<RSA> = User::new("Alice");
    announce_to_self(&mut user);
    let encrypted_message = user.create_message("Alice", "Hello, me!").unwrap();
    assert_eq!(encrypted_message.get_sender(), "Alice");
    assert_eq!(encrypted_message.get_receiver(), "Alice");
    assert_eq!(encrypted_message.get_session_key(), 1);
    let is_message_type = match encrypted_message.get_message_type() {
        MessageType::Message => true,
        MessageType::PublicKey => false,
    };
    assert!(is_message_type);
    let decrypted_message = user.decrypt_message(encrypted_message);
    assert_eq!(decrypted_message.get_message(), "Hello, me!");
}

#[test]
fn user_test_change_keys() {
    let mut user: User<RSA> = User::new("Alice");
    user.create_keys().unwrap();
    assert_eq!(user.get_session_key(), 1);
    assert!(user.has_session_key(1));
    assert!(!user.has_session_key(2));
    user.create_keys().unwrap();
    assert_eq!(user.get_session_key(), 2);
    assert!(user.has_session_key(1));
    assert!(user.has_session_key(2));
}

#[test]
fn test_send_to_myself_and_change_keys() {
    let mut user: User<RSA> = User::new("Alice");
    announce_to_self(&mut user);
    let encrypted_message = user.create_message("Alice", "Hello, me!").unwrap();

    announce_to_self(&mut user);

    let decrypted_message = user.decrypt_message(encrypted_message);
    assert_eq!(decrypted_message.get_message(), "Hello, me!");
}

#[test]
fn test_read_last_message() {
    let mut user: User<RSA> = User::new("Alice");
    announce_to_self(&mut user);
    let encrypted_message = user.create_message("Alice", "Hello, me!").unwrap();
    assert_eq!(encrypted_message.get_session_key(), 1);
    user.receive_message(encrypted_message);
    let decrypted_message = user.read_last_message();
    assert_eq!(decrypted_message.get_message(), "Hello, me!");

    announce_to_self(&mut user);
    let new_encrypted_message = user.create_message("Alice", "Hello, again!").unwrap();
    assert_eq!(new_encrypted_message.get_session_key(), 2);
    user.receive_message(new_encrypted_message);
    let new_decrypted_message = user.read_last_message();
    assert_eq!(new_decrypted_message.get_message(), "Hello, again!");
}

#[test]
fn test_read_message() {
    let mut user: User<RSA> = User::new("Alice");
    announce_to_self(&mut user);
    let encrypted_message = user.create_message("Alice", "Hello, me!").unwrap();
    user.receive_message(encrypted_message);
    let decrypted_message = user.read_message(0);
    assert_eq!(decrypted_message.get_message(), "Hello, me!");

    announce_to_self(&mut user);
    let new_encrypted_message = user.create_message("Alice", "Hello, again!").unwrap();
    user.receive_message(new_encrypted_message);
    let new_decrypted_message = user.read_message(1);
    assert_eq!(new_decrypted_message.get_message(), "Hello, again!");
    let old_decrypted_message = user.read_message(0);
    assert_eq!(old_decrypted_message.get_message(), "Hello, me!");
}

fn setup() -> User<RSA> {
    let mut user: User<RSA> = User::new("Alice");
    announce_to_self(&mut user);
    let encrypted_message = user.create_message("Alice", "Hello, me!").unwrap();
    user.receive_message(encrypted_message);

    announce_to_self(&mut user);
    let new_encrypted_message = user.create_message("Alice", "Hello, again!").unwrap();
    user.receive_message(new_encrypted_message);

    user
}

#[test]
fn test_read_all_messages() {
    let mut user: User<RSA> = setup();
    let another_encrypted_message = user.create_message("Alice", "Hello, there!").unwrap();
    user.receive_message(another_encrypted_message);
    let decrypted_messages = user.read_all_messages();
    assert_eq!(decrypted_messages.len(), 3);
    assert_eq!(decrypted_messages[0].get_message(), "Hello, me!");
    assert_eq!(decrypted_messages[1].get_message(), "Hello, again!");
    assert_eq!(decrypted_messages[2].get_message(), "Hello, there!");
}

#[test]
fn test_delete_last_message() {
    let mut user: User<RSA> = setup();

    assert_eq!(user.message_count(), 2);
    let decrypted_message = user.read_last_message();
    assert_eq!(decrypted_message.get_message(), "Hello, again!");
    user.delete_last_message();
    assert_eq!(user.message_count(), 1);
    let old_decrypted_message = user.read_last_message();
    assert_eq!(old_decrypted_message.get_message(), "Hello, me!");
}

#[test]
fn test_delete_message() {
    let mut user: User<RSA> = setup();

    assert_eq!(user.message_count(), 2);
    let decrypted_message = user.read_message(0);
    assert_eq!(decrypted_message.get_message(), "Hello, me!");
    user.delete_message(0);
    assert_eq!(user.message_count(), 1);
    let old_decrypted_message = user.read_message(0);
    assert_eq!(old_decrypted_message.get_message(), "Hello, again!");
}

#[test]
fn test_delete_all_messages() {
    let mut user: User<RSA> = setup();

    assert_eq!(user.message_count(), 2);
    user.delete_all_messages();
    assert_eq!(user.message_count(), 0);
}

#[test]
fn test_chunk_counts() {
    // Texts are split into chunks of at most eight characters, one
    // ciphertext token per chunk.
    let mut user: User<RSA> = User::new("Alice");
    announce_to_self(&mut user);
    for (len, tokens) in [(1, 1), (8, 1), (9, 2), (16, 2), (17, 3), (64, 8)] {
        let text: String = std::iter::repeat('x').take(len).collect();
        let encrypted = user.create_message("Alice", &text).unwrap();
        assert_eq!(encrypted.get_message().split_whitespace().count(), tokens);
    }
}

#[test]
fn test_nul_truncation() {
    // Known limitation of the byte packing: a NUL character at the end of
    // a chunk occupies the encoded integer's high bytes, which unpacking
    // cannot distinguish from padding, so it is silently dropped. This is
    // preserved deliberately; texts without trailing NULs round-trip
    // exactly.
    let mut user: User<RSA> = User::new("Alice");
    announce_to_self(&mut user);
    let encrypted = user.create_message("Alice", "ab\u{0}").unwrap();
    let decrypted = user.decrypt_message(encrypted);
    assert_eq!(decrypted.get_message(), "ab");
}
