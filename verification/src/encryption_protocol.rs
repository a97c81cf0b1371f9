//! The abstract encryption protocol: the capability set any concrete
//! cipher must provide so that participants and the message pipeline stay
//! cipher-agnostic. Implementations supply their own key types, the five
//! operations, the specification functions the contracts are stated over,
//! and proofs of the laws the pipeline depends on.

use vstd::prelude::*;

verus! {

use crate::text::{has_no_space, one_byte_chars};

/// Trait for encryption protocols.
///
/// Implementations of this trait need to create custom structs for public
/// and private keys, and implement several methods for creating keys,
/// encrypting and decrypting messages, and string conversion.
pub trait EncryptionProtocol: Sized {
    /// Type for public keys. Public key is known to all users in the environment.
    type PublicKey: Clone;

    /// Type for private keys. Private key is known only to its owner.
    type PrivateKey;

    /// The messages `encrypt` accepts under the given public key.
    spec fn can_encrypt(message: Seq<char>, pub_key: &Self::PublicKey) -> bool;

    /// What `encrypt` returns.
    spec fn spec_encrypt(message: Seq<char>, pub_key: &Self::PublicKey) -> Seq<char>;

    /// The ciphertexts `decrypt` accepts under the given private key.
    spec fn can_decrypt(message: Seq<char>, priv_key: &Self::PrivateKey) -> bool;

    /// What `decrypt` returns.
    spec fn spec_decrypt(message: Seq<char>, priv_key: &Self::PrivateKey) -> Seq<char>;

    /// A public key sound enough to encrypt under and to announce: every
    /// key a participant caches satisfies this.
    spec fn key_usable(pub_key: &Self::PublicKey) -> bool;

    /// A public key ample enough that every pipeline chunk fits under it;
    /// freshly generated keys are of this kind.
    spec fn key_strong(pub_key: &Self::PublicKey) -> bool;

    /// The two halves came from one generation call.
    spec fn key_pair_valid(pub_key: &Self::PublicKey, priv_key: &Self::PrivateKey) -> bool;

    /// The private key undoes the public key on every message in the
    /// recoverable domain. For the reference cipher this holds when the
    /// generated moduli are in fact prime products, which the generator
    /// makes overwhelmingly likely but never certain; it is therefore a
    /// hypothesis of the round-trip law, not a consequence of generation.
    spec fn inverts(pub_key: &Self::PublicKey, priv_key: &Self::PrivateKey) -> bool;

    /// The messages whose encryption can be undone exactly. The reference
    /// cipher's byte packing loses trailing NUL characters of a chunk, so
    /// its recoverable domain excludes them.
    spec fn recoverable(message: Seq<char>, pub_key: &Self::PublicKey) -> bool;

    /// What `to_string` returns.
    spec fn spec_serialize(pub_key: &Self::PublicKey) -> Seq<char>;

    /// The strings `to_public_key` accepts.
    spec fn can_parse_key(message: Seq<char>) -> bool;

    /// What `to_public_key` returns.
    spec fn spec_parse_key(message: Seq<char>) -> Self::PublicKey;

    /// Method for encrypting messages. Accepts a message as a parameter and
    /// encrypts it using the public key. To encrypt the message, the sender uses
    /// the public key of the receiver of this message.
    fn encrypt(message: &str, pub_key: &Self::PublicKey) -> (r: String)
        requires
            Self::can_encrypt(message@, pub_key),
        ensures
            r@ == Self::spec_encrypt(message@, pub_key);

    /// Method for decrypting messages. Accepts an encrypted message as a parameter and
    /// decrypts it using the private key. To decrypt the message, the receiver uses
    /// their own private key.
    fn decrypt(message: &str, priv_key: &Self::PrivateKey) -> (r: String)
        requires
            Self::can_decrypt(message@, priv_key),
        ensures
            r@ == Self::spec_decrypt(message@, priv_key);

    /// Method for creating public and private keys. Public/private key pair is used
    /// for encrypting and decrypting messages. Key generation may draw on
    /// randomness, so it reports failure rather than promising a pair.
    fn create_keys() -> (r: Option<(Self::PublicKey, Self::PrivateKey)>)
        ensures
            match r {
                Some(pair) => Self::key_pair_valid(&pair.0, &pair.1) && Self::key_usable(&pair.0)
                    && Self::key_strong(&pair.0),
                None => true,
            };

    /// Method for converting a string to a public key. The method is needed
    /// to obtain public keys of other users from messages.
    fn to_public_key(message: &str) -> (r: Self::PublicKey)
        requires
            Self::can_parse_key(message@),
        ensures
            r == Self::spec_parse_key(message@);

    /// Method for converting a public key to a string. The method is needed
    /// to send public keys to other users as a message.
    fn to_string(pub_key: &Self::PublicKey) -> (r: String)
        ensures
            r@ == Self::spec_serialize(pub_key);

    /// Law: any chunk of at most eight one-byte characters can be
    /// encrypted under a usable key, and if the key is strong and the
    /// chunk does not end in a NUL character, its encryption can be
    /// undone.
    proof fn lemma_chunk_encryptable(message: Seq<char>, pub_key: &Self::PublicKey)
        requires
            Self::key_usable(pub_key),
            message.len() <= 8,
            one_byte_chars(message),
        ensures
            Self::can_encrypt(message, pub_key),
            Self::key_strong(pub_key) && (message.len() == 0 || (message.last() as u32) != 0)
                ==> Self::recoverable(message, pub_key);

    /// Law: a ciphertext token is never empty and never contains the
    /// space that separates tokens in a message body.
    proof fn lemma_ciphertext_token(message: Seq<char>, pub_key: &Self::PublicKey)
        requires
            Self::can_encrypt(message, pub_key),
        ensures
            Self::spec_encrypt(message, pub_key).len() >= 1,
            has_no_space(Self::spec_encrypt(message, pub_key));

    /// Law: under an inverting key pair, decryption undoes encryption on
    /// the recoverable domain.
    proof fn lemma_round_trip(
        message: Seq<char>,
        pub_key: &Self::PublicKey,
        priv_key: &Self::PrivateKey,
    )
        requires
            Self::inverts(pub_key, priv_key),
            Self::recoverable(message, pub_key),
        ensures
            Self::can_encrypt(message, pub_key),
            Self::can_decrypt(Self::spec_encrypt(message, pub_key), priv_key),
            Self::spec_decrypt(Self::spec_encrypt(message, pub_key), priv_key) == message;

    /// Law: serializing a public key and parsing the string gives the key
    /// back.
    proof fn lemma_serialize_parse(pub_key: &Self::PublicKey)
        ensures
            Self::can_parse_key(Self::spec_serialize(pub_key)),
            Self::spec_parse_key(Self::spec_serialize(pub_key)) == *pub_key;
}

} // verus!
