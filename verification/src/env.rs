//! The routing environment: a registry of participants by name, message
//! delivery to one named receiver, and broadcast delivery of key
//! announcements to every participant.

use vstd::prelude::*;

verus! {

use crate::encryption_protocol::EncryptionProtocol;
use crate::errors::ProtocolError;
use crate::message::{Message, MessageType};
use crate::user::User;

/// The environment owns every participant and routes messages between
/// them. A broadcast is applied as one unit: every participant's buffer
/// and cache is updated by the one call.
#[verifier::reject_recursive_types(T)]
pub struct Env<T: EncryptionProtocol> {
    users: Vec<User<T>>,
}

/// The position of the user named `name`, or -1 when absent.
pub open spec fn user_index<T: EncryptionProtocol>(users: Seq<User<T>>, name: Seq<char>) -> int
    decreases users.len(),
{
    if users.len() == 0 {
        -1
    } else if users[0].spec_name() == name {
        0
    } else {
        let rest = user_index::<T>(users.skip(1), name);
        if rest < 0 {
            -1
        } else {
            rest + 1
        }
    }
}

proof fn lemma_user_index_props<T: EncryptionProtocol>(users: Seq<User<T>>, name: Seq<char>)
    ensures
        user_index::<T>(users, name) == -1 || 0 <= user_index::<T>(users, name) < users.len(),
        user_index::<T>(users, name) >= 0 ==> users[user_index::<T>(users, name)].spec_name()
            == name,
        user_index::<T>(users, name) == -1 ==> forall|k: int|
            0 <= k < users.len() ==> (#[trigger] users[k]).spec_name() != name,
        forall|k: int|
            0 <= k < user_index::<T>(users, name) ==> (#[trigger] users[k]).spec_name() != name,
    decreases users.len(),
{
    if users.len() == 0 {
    } else if users[0].spec_name() == name {
    } else {
        lemma_user_index_props::<T>(users.skip(1), name);
        let rest = user_index::<T>(users.skip(1), name);
        assert(forall|k: int| 0 <= k < users.skip(1).len() ==> users.skip(1)[k] == users[k + 1]);
        if rest < 0 {
            assert forall|k: int| 0 <= k < users.len() implies (#[trigger] users[k]).spec_name()
                != name by {
                if k > 0 {
                    assert(users[k] == users.skip(1)[k - 1]);
                }
            }
        } else {
            assert(users[rest + 1] == users.skip(1)[rest]);
            assert forall|k: int| 0 <= k < rest + 1 implies (#[trigger] users[k]).spec_name()
                != name by {
                if k > 0 {
                    assert(users[k] == users.skip(1)[k - 1]);
                }
            }
        }
    }
}

/// A match at `i` with none before it makes `i` the index.
proof fn lemma_user_index_at<T: EncryptionProtocol>(users: Seq<User<T>>, name: Seq<char>, i: int)
    requires
        0 <= i < users.len(),
        users[i].spec_name() == name,
        forall|k: int| 0 <= k < i ==> (#[trigger] users[k]).spec_name() != name,
    ensures
        user_index::<T>(users, name) == i,
    decreases i,
{
    if i == 0 {
    } else {
        assert(users.skip(1)[i - 1] == users[i]);
        assert forall|k: int|
            0 <= k < i - 1 implies (#[trigger] users.skip(1)[k]).spec_name() != name by {
            assert(users.skip(1)[k] == users[k + 1]);
        }
        lemma_user_index_at::<T>(users.skip(1), name, i - 1);
    }
}

/// Users with the same names in the same order index identically.
proof fn lemma_user_index_same_names<T: EncryptionProtocol>(
    a: Seq<User<T>>,
    b: Seq<User<T>>,
    name: Seq<char>,
)
    requires
        a.len() == b.len(),
        forall|k: int| 0 <= k < a.len() ==> (#[trigger] a[k]).spec_name() == b[k].spec_name(),
    ensures
        user_index::<T>(a, name) == user_index::<T>(b, name),
    decreases a.len(),
{
    if a.len() == 0 {
    } else {
        assert forall|k: int|
            0 <= k < a.skip(1).len() implies (#[trigger] a.skip(1)[k]).spec_name() == b.skip(
            1,
        )[k].spec_name() by {
            assert(a.skip(1)[k] == a[k + 1]);
            assert(b.skip(1)[k] == b[k + 1]);
        }
        lemma_user_index_same_names::<T>(a.skip(1), b.skip(1), name);
    }
}

/// How appending a user moves the index.
proof fn lemma_user_index_push<T: EncryptionProtocol>(users: Seq<User<T>>, u: User<T>, name: Seq<char>)
    ensures
        user_index::<T>(users, name) >= 0 ==> user_index::<T>(users.push(u), name) == user_index::<
            T,
        >(users, name),
        user_index::<T>(users, name) == -1 && u.spec_name() == name ==> user_index::<T>(
            users.push(u),
            name,
        ) == users.len(),
        user_index::<T>(users, name) == -1 && u.spec_name() != name ==> user_index::<T>(
            users.push(u),
            name,
        ) == -1,
    decreases users.len(),
{
    if users.len() == 0 {
        assert(users.push(u)[0] == u);
        assert(users.push(u).skip(1) =~= Seq::<User<T>>::empty());
        assert(user_index::<T>(Seq::<User<T>>::empty(), name) == -1);
    } else {
        assert(users.push(u)[0] == users[0]);
        assert(users.push(u).skip(1) =~= users.skip(1).push(u));
        lemma_user_index_props::<T>(users.skip(1), name);
        lemma_user_index_push::<T>(users.skip(1), u, name);
    }
}

impl<T: EncryptionProtocol> Env<T> {
    /// Well-formedness: participant names are unique and every
    /// participant is well formed.
    pub closed spec fn wf(&self) -> bool {
        &&& forall|i: int, j: int|
            0 <= i < j < self.users@.len() ==> (#[trigger] self.users@[i]).spec_name() != (
            #[trigger] self.users@[j]).spec_name()
        &&& forall|i: int| 0 <= i < self.users@.len() ==> (#[trigger] self.users@[i]).wf()
    }

    /// Whether a participant of this name is registered.
    pub closed spec fn spec_has_user(&self, name: Seq<char>) -> bool {
        user_index::<T>(self.users@, name) >= 0
    }

    /// The registered participant of this name.
    pub closed spec fn spec_user(&self, name: Seq<char>) -> User<T> {
        self.users@[user_index::<T>(self.users@, name)]
    }

    /// How many participants are registered.
    pub closed spec fn spec_user_count(&self) -> nat {
        self.users@.len()
    }

    /// An empty environment with no participants.
    pub fn new() -> (e: Self)
        ensures
            e.wf(),
            e.spec_user_count() == 0,
            forall|nm: Seq<char>| !e.spec_has_user(nm),
    {
        let e = Env::<T> { users: Vec::new() };
        proof {
            assert forall|nm: Seq<char>| !e.spec_has_user(nm) by {
                lemma_user_index_props::<T>(e.users@, nm);
            }
        }
        e
    }

    /// The position of the participant named `name`.
    fn find_index(&self, user_name: &str) -> (r: Option<usize>)
        ensures
            match r {
                Some(i) => user_index::<T>(self.users@, user_name@) == i,
                None => user_index::<T>(self.users@, user_name@) == -1,
            },
    {
        let mut i: usize = 0;
        while i < self.users.len()
            invariant
                0 <= i <= self.users.len(),
                forall|k: int| 0 <= k < i ==> (#[trigger] self.users@[k]).spec_name() != user_name@,
            decreases self.users.len() - i,
        {
            if crate::text::str_eq(self.users[i].get_name().as_str(), user_name) {
                proof {
                    lemma_user_index_at::<T>(self.users@, user_name@, i as int);
                }
                return Some(i);
            }
            i += 1;
        }
        proof {
            lemma_user_index_props::<T>(self.users@, user_name@);
        }
        None
    }

    /// Registers a new participant. The name must be nonempty and not yet
    /// taken; each violation is reported as its own error and leaves the
    /// environment unchanged.
    pub fn create_user(&mut self, user_name: &str) -> (r: Result<(), ProtocolError>)
        requires
            old(self).wf(),
        ensures
            final(self).wf(),
            match r {
                Ok(()) => {
                    &&& user_name@.len() >= 1
                    &&& !old(self).spec_has_user(user_name@)
                    &&& final(self).spec_has_user(user_name@)
                    &&& final(self).spec_user_count() == old(self).spec_user_count() + 1
                    &&& final(self).spec_user(user_name@).spec_name() == user_name@
                    &&& final(self).spec_user(user_name@).spec_session() == 0
                    &&& final(self).spec_user(user_name@).spec_buffer() == Seq::<Message>::empty()
                    &&& final(self).spec_user(user_name@).spec_public_key() is None
                    &&& forall|s: int| !final(self).spec_user(user_name@).spec_has_session(s)
                    &&& forall|nm: Seq<char>| !final(self).spec_user(user_name@).spec_has_peer(nm)
                    &&& forall|nm: Seq<char>|
                        nm != user_name@ ==> (#[trigger] final(self).spec_has_user(nm) == old(self).spec_has_user(nm) && (old(self).spec_has_user(nm) ==> final(self).spec_user(nm) == old(self).spec_user(nm)))
                },
                Err(ProtocolError::EmptyName) => user_name@.len() == 0 && *final(self) == *old(self),
                Err(ProtocolError::NameTaken) => user_name@.len() >= 1 && old(self).spec_has_user(
                    user_name@,
                ) && *final(self) == *old(self),
                Err(_) => false,
            },
    {
        if user_name.unicode_len() == 0 {
            return Err(ProtocolError::EmptyName);
        }
        match self.find_index(user_name) {
            Some(_) => Err(ProtocolError::NameTaken),
            None => {
                let ghost pre_users = self.users@;
                let u = User::<T>::new(user_name);
                let ghost fresh = u;
                self.users.push(u);
                proof {
                    let post_users = self.users@;
                    let added = post_users[post_users.len() - 1];
                    lemma_user_index_props::<T>(pre_users, user_name@);
                    lemma_user_index_push::<T>(pre_users, added, user_name@);
                    assert(user_index::<T>(post_users, user_name@) == pre_users.len());
                    assert(final(self).spec_user(user_name@) == fresh);
                    assert forall|nm: Seq<char>|
                        nm != user_name@ implies #[trigger] user_index::<T>(post_users, nm)
                        == user_index::<T>(pre_users, nm) by {
                        lemma_user_index_props::<T>(pre_users, nm);
                        lemma_user_index_push::<T>(pre_users, added, nm);
                    }
                    assert forall|nm: Seq<char>|
                        nm != user_name@ implies (#[trigger] final(self).spec_has_user(nm) == old(
                        self).spec_has_user(nm) && (old(self).spec_has_user(nm) ==> final(
                        self).spec_user(nm) == old(self).spec_user(nm))) by {
                        lemma_user_index_props::<T>(pre_users, nm);
                    }
                    assert forall|i: int, j: int|
                        0 <= i < j < post_users.len() implies (
                    #[trigger] post_users[i]).spec_name() != (
                    #[trigger] post_users[j]).spec_name() by {
                        if j == post_users.len() - 1 {
                            assert(pre_users[i].spec_name() != user_name@);
                        }
                    }
                }
                Ok(())
            },
        }
    }

    /// Looks a participant up by name.
    pub fn get_user(&self, user_name: &str) -> (r: Option<&User<T>>)
        ensures
            match r {
                Some(u) => {
                    &&& self.spec_has_user(user_name@)
                    &&& *u == self.spec_user(user_name@)
                    &&& u.spec_name() == user_name@
                    &&& self.wf() ==> u.wf()
                },
                None => !self.spec_has_user(user_name@),
            },
    {
        match self.find_index(user_name) {
            Some(i) => {
                proof {
                    lemma_user_index_props::<T>(self.users@, user_name@);
                }
                Some(&self.users[i])
            },
            None => None,
        }
    }

    /// Looks a participant up by name, for mutation. The environment
    /// afterwards holds whatever the caller leaves behind the reference,
    /// with every other participant untouched.
    pub fn get_mut_user(&mut self, user_name: &str) -> (r: Option<&mut User<T>>)
        ensures
            match r {
                Some(u) => {
                    &&& old(self).spec_has_user(user_name@)
                    &&& *u == old(self).spec_user(user_name@)
                    &&& u.spec_name() == user_name@
                    &&& old(self).wf() ==> u.wf()
                    &&& final(self).users_view() == old(self).users_view().update(
                        user_index::<T>(old(self).users_view(), user_name@),
                        *final(u),
                    )
                },
                None => !old(self).spec_has_user(user_name@) && *final(self) == *old(self),
            },
    {
        match self.find_index(user_name) {
            Some(i) => {
                proof {
                    lemma_user_index_props::<T>(self.users@, user_name@);
                }
                Some(&mut self.users[i])
            },
            None => None,
        }
    }

    /// The registered participants, in registration order.
    pub closed spec fn users_view(&self) -> Seq<User<T>> {
        self.users@
    }

    /// Law of the registry: replacing one registered participant by a
    /// well-formed participant of the same name keeps the environment well
    /// formed, registers the same names, and leaves every other
    /// participant as it was. This is how a mutation made through
    /// `get_mut_user` is reconciled with the whole environment.
    pub proof fn lemma_mutated_user(pre: Env<T>, post: Env<T>, name: Seq<char>, u: User<T>)
        requires
            pre.wf(),
            pre.spec_has_user(name),
            u.wf(),
            u.spec_name() == name,
            post.users_view() == pre.users_view().update(
                user_index::<T>(pre.users_view(), name),
                u,
            ),
        ensures
            post.wf(),
            forall|nm: Seq<char>| post.spec_has_user(nm) == pre.spec_has_user(nm),
            post.spec_user(name) == u,
            forall|nm: Seq<char>|
                nm != name && pre.spec_has_user(nm) ==> post.spec_user(nm) == pre.spec_user(nm),
    {
        let pre_users = pre.users@;
        let post_users = post.users@;
        let i = user_index::<T>(pre_users, name);
        lemma_user_index_props::<T>(pre_users, name);
        assert(forall|k: int|
            0 <= k < post_users.len() ==> (#[trigger] post_users[k]).spec_name()
                == pre_users[k].spec_name());
        assert forall|nm: Seq<char>|
            #[trigger] user_index::<T>(post_users, nm) == user_index::<T>(pre_users, nm) by {
            lemma_user_index_same_names::<T>(post_users, pre_users, nm);
        }
        assert forall|nm: Seq<char>|
            nm != name && pre.spec_has_user(nm) implies #[trigger] post.spec_user(nm)
            == pre.spec_user(nm) by {
            lemma_user_index_props::<T>(pre_users, nm);
            let ix = user_index::<T>(pre_users, nm);
            assert(pre_users[ix].spec_name() == nm);
            assert(post_users[ix] == pre_users[ix]);
        }
    }

    /// Whether a participant of this name is registered.
    pub fn find_user(&self, user_name: &str) -> (r: bool)
        ensures
            r == self.spec_has_user(user_name@),
    {
        match self.find_index(user_name) {
            Some(_) => true,
            None => false,
        }
    }

    /// Routes one message. A message with an empty receiver is broadcast:
    /// it is delivered to every participant, the sender included, and a
    /// key announcement updates every participant's cache for the sender.
    /// A named receiver gets the message appended to its buffer alone,
    /// with no cache update. An unknown sender, or an unknown named
    /// receiver, is an error that changes nothing.
    pub fn send_message(&mut self, message: Message) -> (r: Result<(), ProtocolError>)
        requires
            old(self).wf(),
            (message.spec_message_type() matches MessageType::PublicKey)
                && message.spec_receiver().len() == 0 ==> T::can_parse_key(
                message.spec_message(),
            ) && T::key_usable(&T::spec_parse_key(message.spec_message())),
        ensures
            final(self).wf(),
            final(self).spec_user_count() == old(self).spec_user_count(),
            forall|nm: Seq<char>| final(self).spec_has_user(nm) == old(self).spec_has_user(nm),
            match r {
                Ok(()) => {
                    &&& old(self).spec_has_user(message.spec_sender())
                    &&& if message.spec_receiver().len() == 0 {
                        forall|nm: Seq<char>|
                            old(self).spec_has_user(nm) ==> User::<T>::spec_received(
                                old(self).spec_user(nm),
                                #[trigger] final(self).spec_user(nm),
                                message,
                            )
                    } else {
                        &&& old(self).spec_has_user(message.spec_receiver())
                        &&& final(self).spec_user(message.spec_receiver()).spec_buffer() == old(self).spec_user(message.spec_receiver()).spec_buffer().push(message)
                        &&& User::<T>::non_buffer_unchanged(
                            old(self).spec_user(message.spec_receiver()),
                            final(self).spec_user(message.spec_receiver()),
                        )
                        &&& forall|nm: Seq<char>|
                            nm != message.spec_receiver() && old(self).spec_has_user(nm)
                                ==> #[trigger] final(self).spec_user(nm) == old(self).spec_user(nm)
                    }
                },
                Err(ProtocolError::SenderNotFound) => !old(self).spec_has_user(
                    message.spec_sender(),
                ) && *final(self) == *old(self),
                Err(ProtocolError::ReceiverNotFound) => {
                    &&& old(self).spec_has_user(message.spec_sender())
                    &&& message.spec_receiver().len() >= 1
                    &&& !old(self).spec_has_user(message.spec_receiver())
                    &&& *final(self) == *old(self)
                },
                Err(_) => false,
            },
    {
        let ghost pre_users = self.users@;
        if !self.find_user(message.get_sender().as_str()) {
            return Err(ProtocolError::SenderNotFound);
        }
        if message.get_receiver().as_str().is_empty() {
            let mut k: usize = 0;
            while k < self.users.len()
                invariant
                    old(self).wf(),
                    message.spec_message_type() matches MessageType::PublicKey
                        ==> T::can_parse_key(message.spec_message()) && T::key_usable(
                        &T::spec_parse_key(message.spec_message()),
                    ),
                    0 <= k <= self.users@.len(),
                    self.users@.len() == pre_users.len(),
                    pre_users == old(self).users@,
                    forall|j: int|
                        0 <= j < k ==> User::<T>::spec_received(
                            pre_users[j],
                            #[trigger] self.users@[j],
                            message,
                        ) && self.users@[j].wf(),
                    forall|j: int| k <= j < pre_users.len() ==> self.users@[j] == pre_users[j],
                decreases self.users@.len() - k,
            {
                proof {
                    assert(old(self).users@[k as int].wf());
                }
                let user = &mut self.users[k];
                proof {
                    assert(*user == pre_users[k as int]);
                    assert(user.wf());
                }
                user.receive_message(message.duplicate());
                k += 1;
            }
            proof {
                let post_users = self.users@;
                assert forall|j: int|
                    0 <= j < post_users.len() implies (#[trigger] post_users[j]).spec_name()
                    == pre_users[j].spec_name() by {}
                assert forall|nm: Seq<char>|
                    #[trigger] user_index::<T>(post_users, nm) == user_index::<T>(
                    pre_users, nm) by {
                    lemma_user_index_same_names::<T>(post_users, pre_users, nm);
                }
                assert forall|nm: Seq<char>|
                    old(self).spec_has_user(nm) implies User::<T>::spec_received(
                    old(self).spec_user(nm),
                    #[trigger] final(self).spec_user(nm),
                    message,
                ) by {
                    lemma_user_index_props::<T>(pre_users, nm);
                }
            }
            Ok(())
        } else {
            let idx = match self.find_index(message.get_receiver().as_str()) {
                Some(i) => i,
                None => {
                    return Err(ProtocolError::ReceiverNotFound);
                },
            };
            proof {
                lemma_user_index_props::<T>(pre_users, message.spec_receiver());
            }
            let receiver = &mut self.users[idx];
            receiver.buffer_message(message);
            proof {
                let post_users = self.users@;
                assert forall|j: int|
                    0 <= j < post_users.len() implies (#[trigger] post_users[j]).spec_name()
                    == pre_users[j].spec_name() by {}
                assert forall|nm: Seq<char>|
                    #[trigger] user_index::<T>(post_users, nm) == user_index::<T>(
                    pre_users, nm) by {
                    lemma_user_index_same_names::<T>(post_users, pre_users, nm);
                }
                assert forall|nm: Seq<char>|
                    nm != message.spec_receiver() && old(self).spec_has_user(nm) implies (
                #[trigger] final(self).spec_user(nm) == old(self).spec_user(nm)) by {
                    lemma_user_index_props::<T>(pre_users, nm);
                }
            }
            Ok(())
        }
    }
}

} // verus!
