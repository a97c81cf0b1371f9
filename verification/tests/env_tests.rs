use cryptography_sandbox::env::Env;
use cryptography_sandbox::errors::ProtocolError;
use cryptography_sandbox::message::{Message, MessageType};
use cryptography_sandbox::rsa::RSA;

#[test]
fn test_get_user() {
    let mut env: Env<RSA> = Env::new();

    env.create_user("Alice").unwrap();
    env.create_user("Bob").unwrap();

    assert!(env.find_user("Alice"));
    assert!(env.find_user("Bob"));
    assert!(!env.find_user("Bobb"));

    let user = env.get_user("Alice").unwrap();
    assert_eq!(user.get_name(), "Alice");
    let user1 = env.get_user("Bob").unwrap();
    assert_eq!(user1.get_name(), "Bob");
}

#[test]
fn tests_test_create_keys() {
    let mut env: Env<RSA> = Env::new();

    env.create_user("Alice").unwrap();
    env.create_user("Bob").unwrap();

    let key = env.get_mut_user("Bob").expect("name not found").create_keys().unwrap();
    assert_eq!(key.get_receiver(), "");
    let is_public_key_type = match key.get_message_type() {
        MessageType::Message => false,
        MessageType::PublicKey => true,
    };
    assert!(is_public_key_type);
    let key_message: String = String::from(key.get_message().as_str());
    env.send_message(key).unwrap();

    assert!(env.get_user("Bob").expect("name not found").get_public_key().is_some());
    let mes = env.get_user("Alice").expect("name not found").read_last_message();
    let user_message: String = String::from(mes.get_message().as_str());
    assert_eq!(key_message, user_message);
}

#[test]
fn test_send_message() {
    let mut env: Env<RSA> = Env::new();

    env.create_user("Alice").unwrap();
    env.create_user("Bob").unwrap();

    let key = env.get_mut_user("Bob").expect("name not found").create_keys().unwrap();
    env.send_message(key).unwrap();

    let message = env
        .get_user("Alice")
        .expect("name not found")
        .create_message("Bob", "Hello, Bob!")
        .unwrap();
    assert_eq!(message.get_sender(), "Alice");
    assert_eq!(message.get_receiver(), "Bob");
    assert_eq!(message.get_session_key(), 1);
    let is_message_type = match message.get_message_type() {
        MessageType::Message => true,
        MessageType::PublicKey => false,
    };
    assert!(is_message_type);
    env.send_message(message).unwrap();
    let received_message = env.get_user("Bob").expect("name not found").read_last_message();
    assert_eq!(received_message.get_message(), "Hello, Bob!");
}

#[test]
fn test_nonexisting_public_key() {
    let mut env: Env<RSA> = Env::new();

    env.create_user("Alice").unwrap();
    env.create_user("Bob").unwrap();

    let result = env
        .get_user("Alice")
        .expect("name not found")
        .create_message("Bob", "Hello, Bob!");
    assert_eq!(result.unwrap_err(), ProtocolError::PublicKeyNotFound);
}

#[test]
fn tests_test_change_keys() {
    let mut env: Env<RSA> = Env::new();

    env.create_user("Alice").unwrap();
    env.create_user("Bob").unwrap();

    let key = env.get_mut_user("Bob").expect("name not found").create_keys().unwrap();
    env.send_message(key).unwrap();

    let message = env
        .get_user("Alice")
        .expect("name not found")
        .create_message("Bob", "Hello, Bob!")
        .unwrap();
    env.send_message(message).unwrap();

    let new_key = env.get_mut_user("Bob").expect("name not found").create_keys().unwrap();
    env.send_message(new_key).unwrap();

    let last_message = env.get_user("Bob").expect("name not found").read_last_message();
    let is_public_key_type = match last_message.get_message_type() {
        MessageType::Message => false,
        MessageType::PublicKey => true,
    };
    assert!(is_public_key_type);
    let first_message = env.get_user("Bob").expect("name not found").read_message(0);
    let is_public_key_type = match first_message.get_message_type() {
        MessageType::Message => false,
        MessageType::PublicKey => true,
    };
    assert!(is_public_key_type);
    let received_message = env.get_user("Bob").expect("name not found").read_message(1);
    assert_eq!(received_message.get_message(), "Hello, Bob!");
}

#[test]
fn tests_test_send_to_myself() {
    let mut env: Env<RSA> = Env::new();

    env.create_user("Alice").unwrap();

    let key = env.get_mut_user("Alice").expect("name not found").create_keys().unwrap();
    env.send_message(key).unwrap();

    let message = env
        .get_user("Alice")
        .expect("name not found")
        .create_message("Alice", "Hello, me!")
        .unwrap();
    env.send_message(message).unwrap();

    let received_message = env.get_user("Alice").expect("name not found").read_last_message();
    assert_eq!(received_message.get_message(), "Hello, me!");
}

#[test]
fn test_communication() {
    let mut env: Env<RSA> = Env::new();

    env.create_user("Alice").unwrap();
    env.create_user("Bob").unwrap();

    let bob_key = env.get_mut_user("Bob").expect("name not found").create_keys().unwrap();
    env.send_message(bob_key).unwrap();

    let alice_key = env.get_mut_user("Alice").expect("name not found").create_keys().unwrap();
    env.send_message(alice_key).unwrap();

    let first_message = env
        .get_user("Alice")
        .expect("name not found")
        .create_message("Bob", "Hello, Bob!")
        .unwrap();
    env.send_message(first_message).unwrap();
    let new_bob_key = env.get_mut_user("Bob").expect("name not found").create_keys().unwrap();
    env.send_message(new_bob_key).unwrap();
    let second_message = env
        .get_user("Bob")
        .expect("name not found")
        .create_message("Alice", "Hello, Alice! How are you?")
        .unwrap();
    env.send_message(second_message).unwrap();
    let new_alice_key = env.get_mut_user("Alice").expect("name not found").create_keys().unwrap();
    env.send_message(new_alice_key).unwrap();
    let third_message = env
        .get_user("Alice")
        .expect("name not found")
        .create_message("Bob", "I'm OK, thanks. And you?")
        .unwrap();
    env.send_message(third_message).unwrap();

    let alice_messages = env.get_user("Alice").expect("name not found").read_all_messages();
    assert_eq!(alice_messages.len(), 5);
    let first_message = &alice_messages[0];
    assert_eq!(first_message.get_sender(), "Bob");
    assert_eq!(first_message.get_receiver(), "");
    let second_message = &alice_messages[1];
    assert_eq!(second_message.get_sender(), "Alice");
    assert_eq!(second_message.get_receiver(), "");
    let third_message = &alice_messages[2];
    assert_eq!(third_message.get_sender(), "Bob");
    assert_eq!(third_message.get_receiver(), "");
    let forth_message = &alice_messages[3];
    assert_eq!(forth_message.get_sender(), "Bob");
    assert_eq!(forth_message.get_receiver(), "Alice");
    assert_eq!(forth_message.get_message(), "Hello, Alice! How are you?");
    let fifth_message = &alice_messages[4];
    assert_eq!(fifth_message.get_sender(), "Alice");
    assert_eq!(fifth_message.get_receiver(), "");

    let bob_messages = env.get_user("Bob").expect("name not found").read_all_messages();
    assert_eq!(bob_messages.len(), 6);
    let first_message = &bob_messages[0];
    assert_eq!(first_message.get_sender(), "Bob");
    assert_eq!(first_message.get_receiver(), "");
    let second_message = &bob_messages[1];
    assert_eq!(second_message.get_sender(), "Alice");
    assert_eq!(second_message.get_receiver(), "");
    let third_message = &bob_messages[2];
    assert_eq!(third_message.get_sender(), "Alice");
    assert_eq!(third_message.get_receiver(), "Bob");
    assert_eq!(third_message.get_message(), "Hello, Bob!");
    let forth_message = &bob_messages[3];
    assert_eq!(forth_message.get_sender(), "Bob");
    assert_eq!(forth_message.get_receiver(), "");
    let fifth_message = &bob_messages[4];
    assert_eq!(fifth_message.get_sender(), "Alice");
    assert_eq!(fifth_message.get_receiver(), "");
    let sixth_message = &bob_messages[5];
    assert_eq!(sixth_message.get_sender(), "Alice");
    assert_eq!(sixth_message.get_receiver(), "Bob");
    assert_eq!(sixth_message.get_message(), "I'm OK, thanks. And you?");
}

#[test]
fn test_create_empty_user() {
    let mut env: Env<RSA> = Env::new();
    assert_eq!(env.create_user("").unwrap_err(), ProtocolError::EmptyName);
}

#[test]
fn test_create_user() {
    let mut env: Env<RSA> = Env::new();
    env.create_user("Alice").unwrap();
    assert!(env.find_user("Alice"));
}

#[test]
fn test_create_duplicate_user() {
    let mut env: Env<RSA> = Env::new();
    env.create_user("Alice").unwrap();
    assert_eq!(env.create_user("Alice").unwrap_err(), ProtocolError::NameTaken);
}

#[test]
fn test_find_user() {
    let mut env: Env<RSA> = Env::new();
    env.create_user("Alice").unwrap();
    env.create_user("Bob").unwrap();
    assert!(env.find_user("Alice"));
    assert!(env.find_user("Bob"));
    assert!(!env.find_user("Bobb"));
}

#[test]
fn test_get_existing_user() {
    let mut env: Env<RSA> = Env::new();
    env.create_user("Alice").unwrap();
    assert!(env.get_user("Alice").is_some());
}

#[test]
fn test_get_nonexisting_user() {
    let mut env: Env<RSA> = Env::new();
    env.create_user("Alice").unwrap();
    assert!(env.get_user("Bob").is_none());
}

#[test]
fn test_get_mut_user() {
    let mut env: Env<RSA> = Env::new();
    env.create_user("Alice").unwrap();
    assert!(env.get_mut_user("Alice").is_some());
}

#[test]
fn test_nonexisting_sender() {
    let mut env: Env<RSA> = Env::new();
    env.create_user("Bob").unwrap();
    let message = Message::new("Alice", 1, "Bob", "Hello, Bob!", MessageType::Message);
    assert_eq!(env.send_message(message).unwrap_err(), ProtocolError::SenderNotFound);
}

#[test]
fn test_nonexisting_named_receiver() {
    let mut env: Env<RSA> = Env::new();
    env.create_user("Alice").unwrap();
    let message = Message::new("Alice", 1, "Bob", "Hello, Bob!", MessageType::Message);
    assert_eq!(env.send_message(message).unwrap_err(), ProtocolError::ReceiverNotFound);
}

#[test]
fn test_broadcast_fanout() {
    // A broadcast key announcement lands in every participant's buffer,
    // the sender's own included, and updates every cache for the sender.
    let mut env: Env<RSA> = Env::new();
    env.create_user("Alice").unwrap();
    env.create_user("Bob").unwrap();
    env.create_user("Carol").unwrap();

    let key = env.get_mut_user("Bob").expect("name not found").create_keys().unwrap();
    let key_body = String::from(key.get_message().as_str());
    env.send_message(key).unwrap();

    for name in ["Alice", "Bob", "Carol"] {
        let user = env.get_user(name).expect("name not found");
        assert_eq!(user.message_count(), 1);
        let received = user.read_last_message();
        assert_eq!(received.get_sender(), "Bob");
        assert_eq!(received.get_message(), &key_body);
        // The cache was updated: encrypting to Bob now succeeds.
        assert!(user.create_message("Bob", "ping").is_ok());
    }
}
