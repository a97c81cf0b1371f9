//! Participant session state and the message pipeline.
//!
//! A user owns its private keys (one per session), its current public key,
//! a session counter, a cache of peers' announced keys, and an ordered
//! message buffer. It can rotate keys, encrypt outgoing text in chunks
//! under a cached peer key, and decrypt buffered messages with the private
//! key of the session each message carries.

use vstd::prelude::*;

verus! {

use crate::encryption_protocol::EncryptionProtocol;
use crate::errors::ProtocolError;
use crate::message::{Message, MessageType};
use vstd::string::{StrSliceExecFns, StringExecFns};
use crate::text::{
    one_byte_chars,
    split_spaces,
    trim_spaces,
    split_on_spaces,
    trim_on_spaces,
    join_tokens,
};

/// One cached announcement: the peer's name, the public key it announced
/// last, and the session that key belongs to.
struct PeerEntry<T: EncryptionProtocol> {
    name: String,
    public_key: T::PublicKey,
    session_key: usize,
}

/// The consecutive chunks of at most eight characters that a text is
/// encrypted in.
pub open spec fn chunks_of(s: Seq<char>) -> Seq<Seq<char>>
    decreases s.len(),
{
    if s.len() <= 8 {
        seq![s]
    } else {
        seq![s.take(8)] + chunks_of(s.skip(8))
    }
}

/// The body of an encrypted message: each chunk encrypted under the
/// receiver's key, every token followed by one space.
pub open spec fn encrypted_body<T: EncryptionProtocol>(
    chunks: Seq<Seq<char>>,
    pub_key: &T::PublicKey,
) -> Seq<char>
    decreases chunks.len(),
{
    if chunks.len() == 0 {
        Seq::empty()
    } else {
        T::spec_encrypt(chunks[0], pub_key) + seq![' '] + encrypted_body::<T>(
            chunks.skip(1),
            pub_key,
        )
    }
}

/// The concatenation of the decryptions of the tokens.
pub open spec fn decrypted_body<T: EncryptionProtocol>(
    tokens: Seq<Seq<char>>,
    priv_key: &T::PrivateKey,
) -> Seq<char>
    decreases tokens.len(),
{
    if tokens.len() == 0 {
        Seq::empty()
    } else {
        T::spec_decrypt(tokens[0], priv_key) + decrypted_body::<T>(tokens.skip(1), priv_key)
    }
}

/// The ciphertext tokens of a message body: split on spaces after
/// trimming.
pub open spec fn tokens_of(body: Seq<char>) -> Seq<Seq<char>> {
    split_spaces(trim_spaces(body))
}

/// Every token can be decrypted under the key.
pub open spec fn can_decrypt_tokens<T: EncryptionProtocol>(
    tokens: Seq<Seq<char>>,
    priv_key: &T::PrivateKey,
) -> bool {
    forall|j: int| 0 <= j < tokens.len() ==> T::can_decrypt(#[trigger] tokens[j], priv_key)
}

/// Appending one token appends its decryption.
proof fn lemma_decrypted_body_snoc<T: EncryptionProtocol>(
    tokens: Seq<Seq<char>>,
    t: Seq<char>,
    priv_key: &T::PrivateKey,
)
    ensures
        decrypted_body::<T>(tokens.push(t), priv_key) == decrypted_body::<T>(tokens, priv_key)
            + T::spec_decrypt(t, priv_key),
    decreases tokens.len(),
{
    assert(decrypted_body::<T>(Seq::<Seq<char>>::empty(), priv_key) == Seq::<char>::empty());
    if tokens.len() == 0 {
        assert(tokens.push(t)[0] == t);
        assert(tokens.push(t).skip(1) =~= Seq::<Seq<char>>::empty());
        assert(decrypted_body::<T>(tokens.push(t), priv_key) =~= decrypted_body::<T>(
            tokens,
            priv_key,
        ) + T::spec_decrypt(t, priv_key));
    } else {
        assert(tokens.push(t).skip(1) =~= tokens.skip(1).push(t));
        lemma_decrypted_body_snoc::<T>(tokens.skip(1), t, priv_key);
        assert(tokens.push(t)[0] == tokens[0]);
        assert(decrypted_body::<T>(tokens.push(t), priv_key) =~= decrypted_body::<T>(
            tokens,
            priv_key,
        ) + T::spec_decrypt(t, priv_key));
    }
}

/// The position of `name` among the peer entries, or -1 when absent.
spec fn peer_index<T: EncryptionProtocol>(peers: Seq<PeerEntry<T>>, name: Seq<char>) -> int
    decreases peers.len(),
{
    if peers.len() == 0 {
        -1
    } else if peers[0].name@ == name {
        0
    } else {
        let rest = peer_index::<T>(peers.skip(1), name);
        if rest < 0 {
            -1
        } else {
            rest + 1
        }
    }
}

proof fn lemma_peer_index_props<T: EncryptionProtocol>(peers: Seq<PeerEntry<T>>, name: Seq<char>)
    ensures
        peer_index::<T>(peers, name) == -1 || 0 <= peer_index::<T>(peers, name) < peers.len(),
        peer_index::<T>(peers, name) >= 0 ==> peers[peer_index::<T>(peers, name)].name@ == name,
        peer_index::<T>(peers, name) == -1 ==> forall|k: int|
            0 <= k < peers.len() ==> (#[trigger] peers[k]).name@ != name,
        forall|k: int| 0 <= k < peer_index::<T>(peers, name) ==> (#[trigger] peers[k]).name@ != name,
    decreases peers.len(),
{
    if peers.len() == 0 {
    } else if peers[0].name@ == name {
    } else {
        lemma_peer_index_props::<T>(peers.skip(1), name);
        let rest = peer_index::<T>(peers.skip(1), name);
        assert(forall|k: int| 0 <= k < peers.skip(1).len() ==> peers.skip(1)[k] == peers[k + 1]);
        if rest < 0 {
            assert forall|k: int| 0 <= k < peers.len() implies (#[trigger] peers[k]).name@
                != name by {
                if k > 0 {
                    assert(peers[k] == peers.skip(1)[k - 1]);
                }
            }
        } else {
            assert(peers[rest + 1] == peers.skip(1)[rest]);
            assert forall|k: int| 0 <= k < rest + 1 implies (#[trigger] peers[k]).name@ != name by {
                if k > 0 {
                    assert(peers[k] == peers.skip(1)[k - 1]);
                }
            }
        }
    }
}

/// A match at `i` with none before it makes `i` the index.
proof fn lemma_peer_index_at<T: EncryptionProtocol>(
    peers: Seq<PeerEntry<T>>,
    name: Seq<char>,
    i: int,
)
    requires
        0 <= i < peers.len(),
        peers[i].name@ == name,
        forall|k: int| 0 <= k < i ==> (#[trigger] peers[k]).name@ != name,
    ensures
        peer_index::<T>(peers, name) == i,
    decreases i,
{
    if i == 0 {
    } else {
        assert(peers.skip(1)[i - 1] == peers[i]);
        assert forall|k: int| 0 <= k < i - 1 implies (#[trigger] peers.skip(1)[k]).name@ != name by {
            assert(peers.skip(1)[k] == peers[k + 1]);
        }
        lemma_peer_index_at::<T>(peers.skip(1), name, i - 1);
    }
}

/// Entries with the same names in the same order index identically.
proof fn lemma_peer_index_same_names<T: EncryptionProtocol>(
    a: Seq<PeerEntry<T>>,
    b: Seq<PeerEntry<T>>,
    name: Seq<char>,
)
    requires
        a.len() == b.len(),
        forall|k: int| 0 <= k < a.len() ==> (#[trigger] a[k]).name@ == b[k].name@,
    ensures
        peer_index::<T>(a, name) == peer_index::<T>(b, name),
    decreases a.len(),
{
    if a.len() == 0 {
    } else {
        assert(forall|k: int| 0 <= k < a.skip(1).len() ==> a.skip(1)[k] == a[k + 1]);
        assert(forall|k: int| 0 <= k < b.skip(1).len() ==> b.skip(1)[k] == b[k + 1]);
        assert forall|k: int|
            0 <= k < a.skip(1).len() implies (#[trigger] a.skip(1)[k]).name@ == b.skip(
            1,
        )[k].name@ by {
            assert(a.skip(1)[k] == a[k + 1]);
            assert(b.skip(1)[k] == b[k + 1]);
        }
        lemma_peer_index_same_names::<T>(a.skip(1), b.skip(1), name);
    }
}

/// How appending an entry moves the index.
proof fn lemma_peer_index_push<T: EncryptionProtocol>(
    peers: Seq<PeerEntry<T>>,
    e: PeerEntry<T>,
    name: Seq<char>,
)
    ensures
        peer_index::<T>(peers, name) >= 0 ==> peer_index::<T>(peers.push(e), name) == peer_index::<
            T,
        >(peers, name),
        peer_index::<T>(peers, name) == -1 && e.name@ == name ==> peer_index::<T>(
            peers.push(e),
            name,
        ) == peers.len(),
        peer_index::<T>(peers, name) == -1 && e.name@ != name ==> peer_index::<T>(
            peers.push(e),
            name,
        ) == -1,
    decreases peers.len(),
{
    if peers.len() == 0 {
        assert(peers.push(e)[0] == e);
        assert(peers.push(e).skip(1) =~= Seq::<PeerEntry<T>>::empty());
        assert(peer_index::<T>(Seq::<PeerEntry<T>>::empty(), name) == -1);
    } else {
        assert(peers.push(e)[0] == peers[0]);
        assert(peers.push(e).skip(1) =~= peers.skip(1).push(e));
        lemma_peer_index_props::<T>(peers.skip(1), name);
        lemma_peer_index_push::<T>(peers.skip(1), e, name);
    }
}

/// User struct.
///
/// A user is responsible for creating keys, creating and reading messages.
/// It can create new public/private key pairs, create encrypted messages
/// using known public keys of other users. A user also maintains the buffer
/// of received messages: it can read a specific message using their own
/// private key or delete a message from the buffer.
#[verifier::reject_recursive_types(T)]
pub struct User<T: EncryptionProtocol> {
    name: String,
    private_keys: Vec<T::PrivateKey>,
    public_key: Option<T::PublicKey>,
    session_key: usize,
    peers: Vec<PeerEntry<T>>,
    message_buffer: Vec<Message>,
}

impl<T: EncryptionProtocol> User<T> {
    /// The participant's name.
    pub closed spec fn spec_name(&self) -> Seq<char> {
        self.name@
    }

    /// The current session counter; 0 means no key has been created yet.
    pub closed spec fn spec_session(&self) -> usize {
        self.session_key
    }

    /// The currently published public key, if any.
    pub closed spec fn spec_public_key(&self) -> Option<T::PublicKey> {
        self.public_key
    }

    /// Whether a private key is retained for session `s`.
    pub closed spec fn spec_has_session(&self, s: int) -> bool {
        1 <= s <= self.private_keys.len()
    }

    /// The private key retained for session `s`.
    pub closed spec fn spec_key_for(&self, s: int) -> T::PrivateKey {
        self.private_keys[s - 1]
    }

    /// The received messages, oldest first.
    pub closed spec fn spec_buffer(&self) -> Seq<Message> {
        self.message_buffer@
    }

    /// Whether a key announced by `name` is cached.
    pub closed spec fn spec_has_peer(&self, name: Seq<char>) -> bool {
        peer_index::<T>(self.peers@, name) >= 0
    }

    /// The cached public key announced by `name`.
    pub closed spec fn spec_peer_key(&self, name: Seq<char>) -> T::PublicKey {
        self.peers@[peer_index::<T>(self.peers@, name)].public_key
    }

    /// The session the cached key of `name` was announced for.
    pub closed spec fn spec_peer_session(&self, name: Seq<char>) -> usize {
        self.peers@[peer_index::<T>(self.peers@, name)].session_key
    }

    /// Well-formedness: the session counter counts the retained private
    /// keys, cached peer names are unique, and every cached key is usable.
    pub closed spec fn wf(&self) -> bool {
        &&& self.session_key == self.private_keys.len()
        &&& forall|i: int, j: int|
            0 <= i < j < self.peers@.len() ==> (#[trigger] self.peers@[i]).name@ != (
            #[trigger] self.peers@[j]).name@
        &&& forall|i: int|
            0 <= i < self.peers@.len() ==> T::key_usable(&(#[trigger] self.peers@[i]).public_key)
    }

    /// A buffered message this user can decrypt: an announcement passes
    /// through; a data message needs the private key of the session it
    /// carries, and each of its tokens must be a well-formed ciphertext.
    pub open spec fn decryptable(&self, m: Message) -> bool {
        match m.spec_message_type() {
            MessageType::PublicKey => true,
            MessageType::Message => {
                &&& self.spec_has_session(m.spec_session_key() as int)
                &&& can_decrypt_tokens::<T>(
                    tokens_of(m.spec_message()),
                    &self.spec_key_for(m.spec_session_key() as int),
                )
            },
        }
    }

    /// What decrypting `m` yields: announcements unchanged; data messages
    /// keep every field but carry the concatenated decrypted chunks, with
    /// a fresh timestamp.
    pub open spec fn decrypts_to(&self, m: Message, r: Message) -> bool {
        match m.spec_message_type() {
            MessageType::PublicKey => r == m,
            MessageType::Message => {
                &&& r.spec_sender() == m.spec_sender()
                &&& r.spec_session_key() == m.spec_session_key()
                &&& r.spec_receiver() == m.spec_receiver()
                &&& r.spec_message_type() == MessageType::Message
                &&& r.spec_message() == decrypted_body::<T>(
                    tokens_of(m.spec_message()),
                    &self.spec_key_for(m.spec_session_key() as int),
                )
            },
        }
    }

    /// The cache entry for `nm` is the same in both states: present in one
    /// exactly when present in the other, and then with the same key and
    /// session.
    pub open spec fn peer_agrees(pre: User<T>, post: User<T>, nm: Seq<char>) -> bool {
        &&& post.spec_has_peer(nm) == pre.spec_has_peer(nm)
        &&& pre.spec_has_peer(nm) ==> post.spec_peer_key(nm) == pre.spec_peer_key(nm)
            && post.spec_peer_session(nm) == pre.spec_peer_session(nm)
    }

    /// How one delivered message changes a user: it lands at the end of
    /// the buffer; an announcement additionally becomes the sender's
    /// cached key and session, displacing any earlier entry and leaving
    /// every other peer untouched.
    pub open spec fn spec_received(pre: User<T>, post: User<T>, m: Message) -> bool {
        &&& post.spec_name() == pre.spec_name()
        &&& post.spec_session() == pre.spec_session()
        &&& post.spec_public_key() == pre.spec_public_key()
        &&& forall|s: int| post.spec_has_session(s) == pre.spec_has_session(s)
        &&& forall|s: int|
            pre.spec_has_session(s) ==> post.spec_key_for(s) == pre.spec_key_for(s)
        &&& post.spec_buffer() == pre.spec_buffer().push(m)
        &&& match m.spec_message_type() {
            MessageType::Message => forall|nm: Seq<char>| #[trigger] Self::peer_agrees(
                pre,
                post,
                nm,
            ),
            MessageType::PublicKey => {
                &&& post.spec_has_peer(m.spec_sender())
                &&& post.spec_peer_key(m.spec_sender()) == T::spec_parse_key(m.spec_message())
                &&& post.spec_peer_session(m.spec_sender()) == m.spec_session_key()
                &&& forall|nm: Seq<char>|
                    nm != m.spec_sender() ==> #[trigger] Self::peer_agrees(pre, post, nm)
            },
        }
    }

    /// A fresh participant: no keys, no peers, an empty buffer.
    pub fn new(user_name: &str) -> (u: Self)
        ensures
            u.wf(),
            u.spec_name() == user_name@,
            u.spec_session() == 0,
            u.spec_public_key() is None,
            u.spec_buffer() == Seq::<Message>::empty(),
            forall|nm: Seq<char>| !u.spec_has_peer(nm),
            forall|s: int| !u.spec_has_session(s),
    {
        let u = User {
            name: user_name.to_owned(),
            private_keys: Vec::new(),
            public_key: None,
            session_key: 0,
            peers: Vec::new(),
            message_buffer: Vec::new(),
        };
        proof {
            assert forall|nm: Seq<char>| !u.spec_has_peer(nm) by {
                lemma_peer_index_props::<T>(u.peers@, nm);
            }
        }
        u
    }

    /// Returns the name of the user.
    pub fn get_name(&self) -> (r: &String)
        ensures
            r@ == self.spec_name(),
    {
        &self.name
    }

    /// Returns the public key of the user.
    pub fn get_public_key(&self) -> (r: Option<&T::PublicKey>)
        ensures
            match r {
                Some(k) => self.spec_public_key() matches Some(k2) && *k == k2,
                None => self.spec_public_key() is None,
            },
    {
        self.public_key.as_ref()
    }

    /// Returns the current session counter; 0 means no key yet.
    pub fn get_session_key(&self) -> (r: usize)
        ensures
            r == self.spec_session(),
    {
        self.session_key
    }

    /// Whether a private key is retained for session `s`.
    pub fn has_session_key(&self, s: usize) -> (r: bool)
        ensures
            r == self.spec_has_session(s as int),
    {
        1 <= s && s <= self.private_keys.len()
    }

    /// How many messages the buffer holds.
    pub fn message_count(&self) -> (r: usize)
        ensures
            r == self.spec_buffer().len(),
    {
        self.message_buffer.len()
    }

    /// The position of `name` in the peer cache.
    fn find_peer(&self, name: &str) -> (r: Option<usize>)
        ensures
            match r {
                Some(i) => peer_index::<T>(self.peers@, name@) == i,
                None => peer_index::<T>(self.peers@, name@) == -1,
            },
    {
        let mut i: usize = 0;
        while i < self.peers.len()
            invariant
                0 <= i <= self.peers.len(),
                forall|k: int| 0 <= k < i ==> (#[trigger] self.peers@[k]).name@ != name@,
            decreases self.peers.len() - i,
        {
            if crate::text::str_eq(self.peers[i].name.as_str(), name) {
                proof {
                    lemma_peer_index_at::<T>(self.peers@, name@, i as int);
                }
                return Some(i);
            }
            i += 1;
        }
        proof {
            lemma_peer_index_props::<T>(self.peers@, name@);
        }
        None
    }

    /// Takes one delivered message: buffers it, and if it is a key
    /// announcement, caches the announced key under the sender's name.
    pub fn receive_message(&mut self, message: Message)
        requires
            old(self).wf(),
            message.spec_message_type() matches MessageType::PublicKey ==> T::can_parse_key(
                message.spec_message(),
            ) && T::key_usable(&T::spec_parse_key(message.spec_message())),
        ensures
            final(self).wf(),
            Self::spec_received(*old(self), *final(self), message),
    {
        let ghost pre = *old(self);
        let ghost pre_peers = self.peers@;
        let is_announcement = match message.get_message_type() {
            MessageType::PublicKey => true,
            MessageType::Message => false,
        };
        if is_announcement {
            let announced = T::to_public_key(message.get_message().as_str());
            let sender = String::clone(message.get_sender());
            let session = message.get_session_key();
            match self.find_peer(sender.as_str()) {
                Some(i) => {
                    proof {
                        lemma_peer_index_props::<T>(pre_peers, sender@);
                    }
                    self.peers[i] = PeerEntry { name: sender, public_key: announced, session_key: session };
                    proof {
                        let mid_peers = self.peers@;
                        assert(mid_peers[i as int].name@ == message.spec_sender());
                        assert(forall|k: int|
                            0 <= k < mid_peers.len() ==> (#[trigger] mid_peers[k]).name@
                                == pre_peers[k].name@);
                        assert forall|nm: Seq<char>|
                            #[trigger] peer_index::<T>(mid_peers, nm) == peer_index::<T>(
                            pre_peers, nm) by {
                            lemma_peer_index_same_names::<T>(mid_peers, pre_peers, nm);
                        }
                    }
                },
                None => {
                    proof {
                        lemma_peer_index_props::<T>(pre_peers, sender@);
                    }
                    self.peers.push(PeerEntry { name: sender, public_key: announced, session_key: session });
                    proof {
                        let mid_peers = self.peers@;
                        let e = mid_peers[mid_peers.len() - 1];
                        assert(e.name@ == message.spec_sender());
                        assert forall|nm: Seq<char>|
                            nm != message.spec_sender() implies #[trigger] peer_index::<T>(
                            mid_peers, nm) == peer_index::<T>(pre_peers, nm) by {
                            lemma_peer_index_props::<T>(pre_peers, nm);
                            lemma_peer_index_push::<T>(pre_peers, e, nm);
                        }
                        lemma_peer_index_push::<T>(pre_peers, e, message.spec_sender());
                        assert(peer_index::<T>(mid_peers, message.spec_sender())
                            == pre_peers.len());
                        lemma_peer_index_props::<T>(pre_peers, message.spec_sender());
                        assert forall|i: int, j: int|
                            0 <= i < j < mid_peers.len() implies (#[trigger] mid_peers[i]).name@
                            != (#[trigger] mid_peers[j]).name@ by {
                            if j == mid_peers.len() - 1 {
                                assert(pre_peers[i].name@ != message.spec_sender());
                            }
                        }
                    }
                },
            }
            proof {
                let mid = *self;
                assert(mid.wf());
                assert(mid.spec_has_peer(message.spec_sender()));
                assert(mid.spec_peer_key(message.spec_sender()) == T::spec_parse_key(
                    message.spec_message(),
                ));
                assert(mid.spec_peer_session(message.spec_sender())
                    == message.spec_session_key());
                assert forall|nm: Seq<char>|
                    nm != message.spec_sender() implies #[trigger] Self::peer_agrees(
                    pre, mid, nm) by {
                    lemma_peer_index_props::<T>(pre.peers@, nm);
                    lemma_peer_index_props::<T>(mid.peers@, nm);
                    assert(peer_index::<T>(mid.peers@, nm) == peer_index::<T>(pre.peers@, nm));
                    if peer_index::<T>(pre.peers@, nm) >= 0 {
                        let ix = peer_index::<T>(pre.peers@, nm);
                        assert(pre.peers@[ix].name@ == nm);
                        assert(mid.peers@[ix] == pre.peers@[ix]);
                    }
                }
            }
        }
        let ghost mid = *self;
        self.message_buffer.push(message);
        proof {
            let post = *self;
            assert(post.peers@ == mid.peers@);
            if message.spec_message_type() is PublicKey {
                assert forall|nm: Seq<char>|
                    nm != message.spec_sender() implies #[trigger] Self::peer_agrees(
                    pre, post, nm) by {
                    assert(Self::peer_agrees(pre, mid, nm));
                }
                assert(post.spec_has_peer(message.spec_sender()));
                assert(post.spec_peer_key(message.spec_sender()) == T::spec_parse_key(
                    message.spec_message(),
                ));
                assert(post.spec_peer_session(message.spec_sender())
                    == message.spec_session_key());
            } else {
                assert(post.peers@ == pre.peers@);
                assert forall|nm: Seq<char>| #[trigger] Self::peer_agrees(pre, post, nm) by {}
            }
        }
    }

    /// Appends one delivered message to the buffer without touching the
    /// key cache, as direct (non-broadcast) delivery does.
    pub fn buffer_message(&mut self, message: Message)
        ensures
            old(self).wf() ==> final(self).wf(),
            Self::non_buffer_unchanged(*old(self), *final(self)),
            final(self).spec_buffer() == old(self).spec_buffer().push(message),
    {
        self.message_buffer.push(message);
    }

    /// Decrypts one message: announcements pass through unchanged; the
    /// tokens of a data message are each decrypted with the private key of
    /// the session the message carries, and concatenated in order.
    pub fn decrypt_message(&self, mes: Message) -> (r: Message)
        requires
            self.wf(),
            self.decryptable(mes),
        ensures
            self.decrypts_to(mes, r),
    {
        let is_announcement = match mes.get_message_type() {
            MessageType::PublicKey => true,
            MessageType::Message => false,
        };
        if is_announcement {
            return mes;
        }
        let session = mes.get_session_key();
        let private_key = &self.private_keys[session - 1];
        let trimmed = trim_on_spaces(mes.get_message().as_str());
        let toks = split_on_spaces(trimmed.as_str());
        let ghost tokens = tokens_of(mes.spec_message());
        let mut decrypted: String = String::new();
        let mut j: usize = 0;
        proof {
            assert(tokens.take(0) =~= Seq::<Seq<char>>::empty());
        }
        while j < toks.len()
            invariant
                0 <= j <= toks.len(),
                toks.len() == tokens.len(),
                forall|k: int| 0 <= k < toks.len() ==> toks[k]@ == tokens[k],
                can_decrypt_tokens::<T>(tokens, private_key),
                decrypted@ == decrypted_body::<T>(tokens.take(j as int), private_key),
            decreases toks.len() - j,
        {
            proof {
                assert(T::can_decrypt(tokens[j as int], private_key));
                assert(toks[j as int]@ == tokens[j as int]);
            }
            let piece = T::decrypt(toks[j].as_str(), private_key);
            decrypted.append(piece.as_str());
            proof {
                assert(tokens.take(j + 1) =~= tokens.take(j as int).push(tokens[j as int]));
                lemma_decrypted_body_snoc::<T>(tokens.take(j as int), tokens[j as int], private_key);
            }
            j += 1;
        }
        proof {
            assert(tokens.take(tokens.len() as int) =~= tokens);
        }
        Message::new(
            mes.get_sender().as_str(),
            session,
            mes.get_receiver().as_str(),
            decrypted.as_str(),
            mes.get_message_type(),
        )
    }

    /// Reads the last message from the buffer.
    pub fn read_last_message(&self) -> (r: Message)
        requires
            self.wf(),
            self.spec_buffer().len() >= 1,
            self.decryptable(self.spec_buffer().last()),
        ensures
            self.decrypts_to(self.spec_buffer().last(), r),
    {
        let m = self.message_buffer[self.message_buffer.len() - 1].duplicate();
        self.decrypt_message(m)
    }

    /// Reads the message by its index in the buffer.
    pub fn read_message(&self, index: usize) -> (r: Message)
        requires
            self.wf(),
            index < self.spec_buffer().len(),
            self.decryptable(self.spec_buffer()[index as int]),
        ensures
            self.decrypts_to(self.spec_buffer()[index as int], r),
    {
        let m = self.message_buffer[index].duplicate();
        self.decrypt_message(m)
    }

    /// Reads all messages from the buffer.
    pub fn read_all_messages(&self) -> (r: Vec<Message>)
        requires
            self.wf(),
            forall|k: int|
                0 <= k < self.spec_buffer().len() ==> self.decryptable(
                    #[trigger] self.spec_buffer()[k],
                ),
        ensures
            r.len() == self.spec_buffer().len(),
            forall|k: int|
                0 <= k < r.len() ==> self.decrypts_to(self.spec_buffer()[k], #[trigger] r[k]),
    {
        let mut messages: Vec<Message> = Vec::with_capacity(self.message_buffer.len());
        let mut k: usize = 0;
        while k < self.message_buffer.len()
            invariant
                0 <= k <= self.spec_buffer().len(),
                messages.len() == k,
                self.wf(),
                forall|k2: int|
                    0 <= k2 < self.spec_buffer().len() ==> self.decryptable(
                        #[trigger] self.spec_buffer()[k2],
                    ),
                forall|k2: int|
                    0 <= k2 < k ==> self.decrypts_to(
                        self.spec_buffer()[k2],
                        #[trigger] messages[k2],
                    ),
            decreases self.message_buffer.len() - k,
        {
            let m = self.message_buffer[k].duplicate();
            messages.push(self.decrypt_message(m));
            k += 1;
        }
        messages
    }

    /// Everything but the message buffer agrees between the two states.
    pub open spec fn non_buffer_unchanged(pre: User<T>, post: User<T>) -> bool {
        &&& post.spec_name() == pre.spec_name()
        &&& post.spec_session() == pre.spec_session()
        &&& post.spec_public_key() == pre.spec_public_key()
        &&& forall|s: int| post.spec_has_session(s) == pre.spec_has_session(s)
        &&& forall|s: int| pre.spec_has_session(s) ==> post.spec_key_for(s) == pre.spec_key_for(s)
        &&& post.peers_unchanged_from(pre)
    }

    /// Deletes the last message from the buffer, if there is one.
    pub fn delete_last_message(&mut self)
        ensures
            old(self).wf() ==> final(self).wf(),
            Self::non_buffer_unchanged(*old(self), *final(self)),
            old(self).spec_buffer().len() >= 1 ==> final(self).spec_buffer() == old(self).spec_buffer().drop_last(),
            old(self).spec_buffer().len() == 0 ==> final(self).spec_buffer() == old(self).spec_buffer(),
    {
        let _ = self.message_buffer.pop();
    }

    /// Deletes the message at `index`; the surviving messages keep their
    /// order, so index 0 still names the oldest remaining entry.
    pub fn delete_message(&mut self, index: usize)
        requires
            index < old(self).spec_buffer().len(),
        ensures
            old(self).wf() ==> final(self).wf(),
            Self::non_buffer_unchanged(*old(self), *final(self)),
            final(self).spec_buffer() == old(self).spec_buffer().remove(index as int),
    {
        let _ = self.message_buffer.remove(index);
    }

    /// Deletes all messages from the buffer.
    pub fn delete_all_messages(&mut self)
        ensures
            old(self).wf() ==> final(self).wf(),
            Self::non_buffer_unchanged(*old(self), *final(self)),
            final(self).spec_buffer() == Seq::<Message>::empty(),
    {
        self.message_buffer.clear();
    }

    /// Creates an encrypted message.
    ///
    /// Accepts the name of the receiver and the text of the message as
    /// parameters. If the public key of the receiver is known by the user,
    /// the text is split into chunks of at most eight characters, each
    /// chunk is encrypted under that key, and the tokens are joined with
    /// single spaces; the message carries the session the key was
    /// announced for.
    pub fn create_message(&self, receiver: &str, message: &str) -> (r: Result<
        Message,
        ProtocolError,
    >)
        requires
            self.wf(),
            one_byte_chars(message@),
        ensures
            match r {
                Ok(m) => {
                    &&& self.spec_has_peer(receiver@)
                    &&& message@.len() >= 1
                    &&& m.spec_sender() == self.spec_name()
                    &&& m.spec_session_key() == self.spec_peer_session(receiver@)
                    &&& m.spec_receiver() == receiver@
                    &&& m.spec_message_type() == MessageType::Message
                    &&& m.spec_message() == encrypted_body::<T>(
                        chunks_of(message@),
                        &self.spec_peer_key(receiver@),
                    )
                },
                Err(ProtocolError::PublicKeyNotFound) => !self.spec_has_peer(receiver@),
                Err(ProtocolError::EmptyMessage) => self.spec_has_peer(receiver@)
                    && message@.len() == 0,
                Err(_) => false,
            },
    {
        let idx = match self.find_peer(receiver) {
            Some(i) => i,
            None => {
                return Err(ProtocolError::PublicKeyNotFound);
            },
        };
        proof {
            lemma_peer_index_props::<T>(self.peers@, receiver@);
        }
        if message.unicode_len() == 0 {
            return Err(ProtocolError::EmptyMessage);
        }
        let pub_key = &self.peers[idx].public_key;
        let encrypted = encrypt_chunks::<T>(message, pub_key);
        Ok(
            Message::new(
                self.name.as_str(),
                self.peers[idx].session_key,
                receiver,
                encrypted.as_str(),
                MessageType::Message,
            ),
        )
    }

    /// Creates a new public/private key pair.
    ///
    /// On success the session counter advances, the private half is
    /// retained under the new session (older sessions stay retained), the
    /// public half replaces the published key, and the returned broadcast
    /// announcement carries the serialized public key and the new session.
    /// The underlying random search can give up, which leaves the user
    /// unchanged.
    pub fn create_keys(&mut self) -> (r: Result<Message, ProtocolError>)
        requires
            old(self).wf(),
            old(self).spec_session() < usize::MAX,
        ensures
            final(self).wf(),
            match r {
                Ok(m) => {
                    &&& final(self).spec_name() == old(self).spec_name()
                    &&& final(self).spec_session() == old(self).spec_session() + 1
                    &&& final(self).spec_public_key() matches Some(pk) && {
                        &&& T::key_usable(&pk)
                        &&& T::key_strong(&pk)
                        &&& T::key_pair_valid(
                            &pk,
                            &final(self).spec_key_for(final(self).spec_session() as int),
                        )
                        &&& m.spec_message() == T::spec_serialize(&pk)
                        &&& T::can_parse_key(m.spec_message())
                        &&& T::spec_parse_key(m.spec_message()) == pk
                    }
                    &&& forall|s: int|
                        old(self).spec_has_session(s) ==> (final(self).spec_has_session(s)
                            && final(self).spec_key_for(s) == old(self).spec_key_for(s))
                    &&& forall|s: int|
                        #[trigger] final(self).spec_has_session(s) <==> (old(
                            self,
                        ).spec_has_session(s) || s == final(self).spec_session())
                    &&& final(self).spec_has_session(final(self).spec_session() as int)
                    &&& final(self).spec_buffer() == old(self).spec_buffer()
                    &&& final(self).peers_unchanged_from(*old(self))
                    &&& m.spec_sender() == old(self).spec_name()
                    &&& m.spec_session_key() == final(self).spec_session()
                    &&& m.spec_receiver() == Seq::<char>::empty()
                    &&& m.spec_message_type() == MessageType::PublicKey
                },
                Err(ProtocolError::KeyGenerationFailed) => *final(self) == *old(self),
                Err(_) => false,
            },
    {
        let pair = match T::create_keys() {
            Some(pair) => pair,
            None => {
                return Err(ProtocolError::KeyGenerationFailed);
            },
        };
        let (public_key, private_key) = pair;
        proof {
            T::lemma_serialize_parse(&public_key);
        }
        let mes: String = T::to_string(&public_key);
        self.session_key = self.session_key + 1;
        self.public_key = Some(public_key);
        self.private_keys.push(private_key);
        let m = Message::new(
            self.name.as_str(),
            self.session_key,
            "",
            mes.as_str(),
            MessageType::PublicKey,
        );
        proof {
            reveal_strlit("");
            assert(""@ =~= Seq::<char>::empty());
        }
        Ok(m)
    }

    /// The peer cache is exactly the one of `other`.
    pub open spec fn peers_unchanged_from(&self, other: User<T>) -> bool {
        forall|nm: Seq<char>| #[trigger] Self::peer_agrees(other, *self, nm)
    }
}

/// Encrypts consecutive chunks of at most eight characters each, joining
/// the ciphertext tokens with single spaces (one space after each token).
fn encrypt_chunks<T: EncryptionProtocol>(message: &str, pub_key: &T::PublicKey) -> (r: String)
    requires
        one_byte_chars(message@),
        T::key_usable(pub_key),
        message@.len() >= 1,
    ensures
        r@ == encrypted_body::<T>(chunks_of(message@), pub_key),
    decreases message@.len(),
{
    let n = message.unicode_len();
    if n <= 8 {
        proof {
            T::lemma_chunk_encryptable(message@, pub_key);
        }
        let mut out = T::encrypt(message, pub_key);
        out.append(" ");
        proof {
            reveal_strlit(" ");
            assert(" "@ =~= seq![' ']);
            assert(chunks_of(message@) == seq![message@]);
            assert(chunks_of(message@).skip(1) =~= Seq::<Seq<char>>::empty());
            assert(encrypted_body::<T>(Seq::<Seq<char>>::empty(), pub_key) == Seq::<char>::empty());
            assert(out@ =~= encrypted_body::<T>(chunks_of(message@), pub_key));
        }
        out
    } else {
        let head = message.substring_char(0, 8);
        let tail = message.substring_char(8, n);
        proof {
            assert(head@ =~= message@.take(8));
            assert(tail@ =~= message@.skip(8));
            assert(forall|i: int| 0 <= i < head@.len() ==> head@[i] == message@[i]);
            assert(forall|i: int| 0 <= i < tail@.len() ==> tail@[i] == message@[i + 8]);
            T::lemma_chunk_encryptable(head@, pub_key);
        }
        let mut out = T::encrypt(head, pub_key);
        out.append(" ");
        let rest = encrypt_chunks::<T>(tail, pub_key);
        out.append(rest.as_str());
        proof {
            reveal_strlit(" ");
            assert(" "@ =~= seq![' ']);
            assert(chunks_of(message@) == seq![message@.take(8)] + chunks_of(message@.skip(8)));
            assert(chunks_of(message@)[0] == message@.take(8));
            assert(chunks_of(message@).skip(1) =~= chunks_of(message@.skip(8)));
            assert(out@ =~= encrypted_body::<T>(chunks_of(message@), pub_key));
        }
        out
    }
}

/// The chunks of a nonempty one-byte text: at least one, each of one to
/// eight characters, each of one-byte characters.
pub proof fn lemma_chunks_props(text: Seq<char>)
    requires
        text.len() >= 1,
        one_byte_chars(text),
    ensures
        chunks_of(text).len() >= 1,
        forall|j: int|
            0 <= j < chunks_of(text).len() ==> 1 <= (#[trigger] chunks_of(text)[j]).len() <= 8
                && one_byte_chars(chunks_of(text)[j]),
    decreases text.len(),
{
    let chunks = chunks_of(text);
    if text.len() <= 8 {
        assert(chunks == seq![text]);
    } else {
        let tail = text.skip(8);
        assert(forall|i: int| 0 <= i < tail.len() ==> tail[i] == text[i + 8]);
        assert(one_byte_chars(tail));
        lemma_chunks_props(tail);
        assert(chunks == seq![text.take(8)] + chunks_of(tail));
        assert(forall|i: int| 0 <= i < 8 ==> text.take(8)[i] == text[i]);
        assert(one_byte_chars(text.take(8)));
        assert forall|j: int|
            0 <= j < chunks.len() implies 1 <= (#[trigger] chunks[j]).len() <= 8
                && one_byte_chars(chunks[j]) by {
            if j == 0 {
                assert(chunks[0] == text.take(8));
            } else {
                assert(chunks[j] == chunks_of(tail)[j - 1]);
            }
        }
    }
}

/// An encrypted body is exactly the ciphertext tokens joined with spaces.
proof fn lemma_encrypted_body_is_join<T: EncryptionProtocol>(
    chunks: Seq<Seq<char>>,
    pub_key: &T::PublicKey,
)
    ensures
        encrypted_body::<T>(chunks, pub_key) == join_tokens(
            chunks.map_values(|c: Seq<char>| T::spec_encrypt(c, pub_key)),
        ),
    decreases chunks.len(),
{
    let map = chunks.map_values(|c: Seq<char>| T::spec_encrypt(c, pub_key));
    if chunks.len() == 0 {
        assert(map.len() == 0);
        assert(encrypted_body::<T>(chunks, pub_key) =~= join_tokens(map));
    } else {
        lemma_encrypted_body_is_join::<T>(chunks.skip(1), pub_key);
        let tail_map = chunks.skip(1).map_values(|c: Seq<char>| T::spec_encrypt(c, pub_key));
        assert(map.skip(1) =~= tail_map);
        assert(map[0] == T::spec_encrypt(chunks[0], pub_key));
        assert(encrypted_body::<T>(chunks, pub_key) =~= join_tokens(map));
    }
}

/// The decryptions of the per-chunk ciphertexts concatenate back to the
/// text, provided the key pair inverts and no chunk ends in NUL.
proof fn lemma_decrypted_map<T: EncryptionProtocol>(
    text: Seq<char>,
    pub_key: &T::PublicKey,
    priv_key: &T::PrivateKey,
)
    requires
        T::inverts(pub_key, priv_key),
        T::key_usable(pub_key),
        T::key_strong(pub_key),
        one_byte_chars(text),
        text.len() >= 1,
        forall|j: int|
            0 <= j < chunks_of(text).len() ==> ((#[trigger] chunks_of(text)[j]).last() as u32)
                != 0,
    ensures
        decrypted_body::<T>(
            chunks_of(text).map_values(|c: Seq<char>| T::spec_encrypt(c, pub_key)),
            priv_key,
        ) == text,
    decreases text.len(),
{
    let chunks = chunks_of(text);
    let map = chunks.map_values(|c: Seq<char>| T::spec_encrypt(c, pub_key));
    lemma_chunks_props(text);
    if text.len() <= 8 {
        assert(chunks == seq![text]);
        assert(chunks[0] == text);
        T::lemma_chunk_encryptable(text, pub_key);
        T::lemma_round_trip(text, pub_key, priv_key);
        assert(map[0] == T::spec_encrypt(text, pub_key));
        assert(map.skip(1) =~= Seq::<Seq<char>>::empty());
        assert(decrypted_body::<T>(Seq::<Seq<char>>::empty(), priv_key) == Seq::<char>::empty());
        assert(decrypted_body::<T>(map, priv_key) =~= text);
    } else {
        let head = text.take(8);
        let tail = text.skip(8);
        assert(forall|i: int| 0 <= i < tail.len() ==> tail[i] == text[i + 8]);
        assert(forall|i: int| 0 <= i < 8 ==> head[i] == text[i]);
        assert(one_byte_chars(tail));
        assert(one_byte_chars(head));
        assert(chunks == seq![head] + chunks_of(tail));
        assert(chunks[0] == head);
        assert forall|j: int|
            0 <= j < chunks_of(tail).len() implies ((#[trigger] chunks_of(tail)[j]).last()
                as u32) != 0 by {
            assert(chunks_of(tail)[j] == chunks[j + 1]);
        }
        lemma_decrypted_map::<T>(tail, pub_key, priv_key);
        T::lemma_chunk_encryptable(head, pub_key);
        assert((head.last() as u32) != 0) by {
            assert(chunks[0] == head);
        }
        T::lemma_round_trip(head, pub_key, priv_key);
        let tail_map = chunks_of(tail).map_values(|c: Seq<char>| T::spec_encrypt(c, pub_key));
        assert(map.skip(1) =~= tail_map);
        assert(map[0] == T::spec_encrypt(head, pub_key));
        assert(decrypted_body::<T>(map, priv_key) == T::spec_decrypt(map[0], priv_key)
            + decrypted_body::<T>(map.skip(1), priv_key));
        assert(decrypted_body::<T>(map, priv_key) =~= head + tail);
        assert(head + tail =~= text);
    }
}

/// Round trip of the whole pipeline: chunking a nonempty one-byte text,
/// encrypting every chunk under a strong key, and joining the tokens with
/// spaces yields a body whose tokens all decrypt under an inverting
/// private key, and whose decryption is the original text -- provided no
/// chunk ends in a NUL character, whose trailing bytes the reference
/// packing cannot represent.
pub proof fn lemma_pipeline_round_trip<T: EncryptionProtocol>(
    text: Seq<char>,
    pub_key: &T::PublicKey,
    priv_key: &T::PrivateKey,
)
    requires
        T::inverts(pub_key, priv_key),
        T::key_usable(pub_key),
        T::key_strong(pub_key),
        one_byte_chars(text),
        text.len() >= 1,
        forall|j: int|
            0 <= j < chunks_of(text).len() ==> ((#[trigger] chunks_of(text)[j]).last() as u32)
                != 0,
    ensures
        can_decrypt_tokens::<T>(
            tokens_of(encrypted_body::<T>(chunks_of(text), pub_key)),
            priv_key,
        ),
        decrypted_body::<T>(
            tokens_of(encrypted_body::<T>(chunks_of(text), pub_key)),
            priv_key,
        ) == text,
{
    let chunks = chunks_of(text);
    let body = encrypted_body::<T>(chunks, pub_key);
    let map = chunks.map_values(|c: Seq<char>| T::spec_encrypt(c, pub_key));
    lemma_chunks_props(text);
    assert forall|j: int|
        0 <= j < chunks.len() implies T::can_encrypt(#[trigger] chunks[j], pub_key)
            && T::recoverable(chunks[j], pub_key) by {
        T::lemma_chunk_encryptable(chunks[j], pub_key);
    }
    lemma_encrypted_body_is_join::<T>(chunks, pub_key);
    assert(crate::text::plain_tokens(map)) by {
        assert forall|j: int|
            0 <= j < map.len() implies (#[trigger] map[j]).len() >= 1 && crate::text::has_no_space(
            map[j]) by {
            T::lemma_ciphertext_token(chunks[j], pub_key);
            assert(map[j] == T::spec_encrypt(chunks[j], pub_key));
        }
    }
    crate::text::lemma_split_trim_join(map);
    assert(tokens_of(body) == map);
    assert forall|j: int|
        0 <= j < map.len() implies T::can_decrypt(#[trigger] map[j], priv_key) by {
        T::lemma_round_trip(chunks[j], pub_key, priv_key);
        assert(map[j] == T::spec_encrypt(chunks[j], pub_key));
    }
    lemma_decrypted_map::<T>(text, pub_key, priv_key);
}

/// Session correctness: a data message carrying session `s`, whose body
/// was produced by the chunked pipeline under a public key that the
/// private key retained for `s` inverts, is decryptable by its owner and
/// decrypts to the original text -- however many newer sessions exist, so
/// rotating keys never orphans an old ciphertext.
pub proof fn lemma_session_decrypt<T: EncryptionProtocol>(
    user: User<T>,
    m: Message,
    text: Seq<char>,
    pub_key: &T::PublicKey,
)
    requires
        user.wf(),
        m.spec_message_type() matches MessageType::Message,
        user.spec_has_session(m.spec_session_key() as int),
        T::inverts(pub_key, &user.spec_key_for(m.spec_session_key() as int)),
        T::key_usable(pub_key),
        T::key_strong(pub_key),
        m.spec_message() == encrypted_body::<T>(chunks_of(text), pub_key),
        one_byte_chars(text),
        text.len() >= 1,
        forall|j: int|
            0 <= j < chunks_of(text).len() ==> ((#[trigger] chunks_of(text)[j]).last() as u32)
                != 0,
    ensures
        user.decryptable(m),
        forall|r: Message| user.decrypts_to(m, r) ==> #[trigger] r.spec_message() == text,
{
    let priv_key = user.spec_key_for(m.spec_session_key() as int);
    lemma_pipeline_round_trip::<T>(text, pub_key, &priv_key);
}

} // verus!
