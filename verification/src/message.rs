//! Messages exchanged between participants: an ordinary encrypted data
//! message, or a broadcast public-key announcement.

use vstd::prelude::*;

verus! {

/// Type of the message.
#[derive(Clone, Copy, Debug)]
pub enum MessageType {
    /// Ordinary message (it is sent only to the receiver).
    Message,
    /// Public key (it is broadcast to all users).
    PublicKey,
}

/// A message: sender, the session key it was produced under, receiver
/// (empty means broadcast), body, type, and a creation timestamp.
/// Immutable once created.
#[derive(Debug)]
pub struct Message {
    sender: String,
    session_key: usize,
    receiver: String,
    message: String,
    message_type: MessageType,
    timestamp: u128,
}

/// Relies on std's `SystemTime::now` and `Duration::as_nanos`: the
/// nanoseconds since the Unix epoch at the moment of the call; a clock
/// before the epoch reports zero. The clock is outside the program, so
/// nothing is promised of the value.
#[verifier::external_body]
fn now_nanos() -> u128 {
    std::time::SystemTime::now()
        .duration_since(std::time::UNIX_EPOCH)
        .map(|d| d.as_nanos())
        .unwrap_or(0)
}

impl Message {
    /// Creates a message stamped with the present time.
    pub fn new(
        sender: &str,
        session_key: usize,
        receiver: &str,
        message: &str,
        message_type: MessageType,
    ) -> (m: Message)
        ensures
            m.spec_sender() == sender@,
            m.spec_session_key() == session_key,
            m.spec_receiver() == receiver@,
            m.spec_message() == message@,
            m.spec_message_type() == message_type,
    {
        Message {
            sender: sender.to_owned(),
            session_key,
            receiver: receiver.to_owned(),
            message: message.to_owned(),
            message_type,
            timestamp: now_nanos(),
        }
    }

    /// An identical message, timestamp included.
    pub fn duplicate(&self) -> (m: Message)
        ensures
            m == self,
    {
        Message {
            sender: self.sender.clone(),
            session_key: self.session_key,
            receiver: self.receiver.clone(),
            message: self.message.clone(),
            message_type: self.message_type,
            timestamp: self.timestamp,
        }
    }

    /// The name of the sender.
    pub closed spec fn spec_sender(&self) -> Seq<char> {
        self.sender@
    }

    /// The session key the message carries.
    pub closed spec fn spec_session_key(&self) -> usize {
        self.session_key
    }

    /// The name of the receiver; empty means broadcast.
    pub closed spec fn spec_receiver(&self) -> Seq<char> {
        self.receiver@
    }

    /// The body of the message.
    pub closed spec fn spec_message(&self) -> Seq<char> {
        self.message@
    }

    /// The type of the message.
    pub closed spec fn spec_message_type(&self) -> MessageType {
        self.message_type
    }

    /// The creation timestamp, in nanoseconds since the Unix epoch.
    pub closed spec fn spec_timestamp(&self) -> u128 {
        self.timestamp
    }

    /// Returns the name of the sender.
    pub fn get_sender(&self) -> (r: &String)
        ensures
            r@ == self.spec_sender(),
    {
        &self.sender
    }

    /// Returns the session key of the message.
    pub fn get_session_key(&self) -> (r: usize)
        ensures
            r == self.spec_session_key(),
    {
        self.session_key
    }

    /// Returns the name of the receiver.
    pub fn get_receiver(&self) -> (r: &String)
        ensures
            r@ == self.spec_receiver(),
    {
        &self.receiver
    }

    /// Returns the text of the message.
    pub fn get_message(&self) -> (r: &String)
        ensures
            r@ == self.spec_message(),
    {
        &self.message
    }

    /// Returns the message type.
    pub fn get_message_type(&self) -> (r: MessageType)
        ensures
            r == self.spec_message_type(),
    {
        self.message_type
    }

    /// Returns the timestamp of the message.
    pub fn get_timestamp(&self) -> (r: u128)
        ensures
            r == self.spec_timestamp(),
    {
        self.timestamp
    }
}

} // verus!
