//! The chat node: the session identity, the nonce sequence of the sending
//! path and the registry of connected peers.

use crate::addr::PeerAddr;
use crate::crypto;
use crate::frame;
use crate::nonce::{nonce_at, NonceSequence};
use crate::registry::{Registration, Registry};
use crate::session::PeerSession;
use rand::Rng;
use vstd::prelude::*;

verus! {

/// Why a message was not sent.
#[derive(Clone, Copy, Debug, PartialEq, Eq, Structural)]
pub enum SendError {
    /// The message is longer than `max_message_len()`.
    MessageTooLong,
    /// The session has used up its nonces; it must end.
    NoncesExhausted,
}

/// `Rng::gen` of the crate `rand`, on the generator that `rand::thread_rng`
/// returns: 32 bytes drawn at random.
///
/// Nothing is claimed of the bytes. The call panics where the operating
/// system gives the generator no seed, or none when it reseeds.
#[verifier::external_body]
fn random_block() -> (block: [u8; 32]) {
    rand::thread_rng().gen()
}

/// The longest message that can be sent: its blob must be one that the
/// crypto engine seals, and its frame must fit in memory.
pub open spec fn max_message_len() -> int {
    if (isize::MAX - 1) / 2 - crypto::NONCE_LEN - crypto::TAG_LEN < crypto::SEAL_LIMIT {
        (isize::MAX - 1) / 2 - crypto::NONCE_LEN - crypto::TAG_LEN
    } else {
        crypto::SEAL_LIMIT as int
    }
}

/// The frame that carries `message` as message number `number` of the
/// session with key `key` and nonce base `base`.
pub open spec fn message_frame(key: Seq<u8>, base: Seq<u8>, number: u64, message: Seq<u8>) -> Seq<
    u8,
> {
    frame::framed(crypto::sealed_blob(key, nonce_at(base, number), message))
}

/// A chat node. `H` is the write handle of a connection.
pub struct ChatClient<H> {
    username: String,
    encryption_key: [u8; 32],
    nonces: NonceSequence,
    connections: Registry<H>,
}

impl<H> ChatClient<H> {
    /// The display name.
    pub closed spec fn name(&self) -> Seq<char> {
        self.username@
    }

    /// The symmetric key of the session.
    pub closed spec fn key(&self) -> Seq<u8> {
        self.encryption_key@
    }

    /// The nonce base of the session.
    pub closed spec fn nonce_base(&self) -> Seq<u8> {
        self.nonces.base()
    }

    /// The number of messages sealed so far.
    pub closed spec fn sent(&self) -> u64 {
        self.nonces.issued()
    }

    /// The connected peers, each with its write handle.
    pub closed spec fn peers(&self) -> Map<PeerAddr, H> {
        self.connections@
    }

    /// The connected peers in the order in which they were registered.
    pub closed spec fn order(&self) -> Seq<PeerAddr> {
        self.connections.order()
    }

    /// The number of the connection of each connected peer.
    pub closed spec fn connections(&self) -> Map<PeerAddr, u64> {
        self.connections.connections()
    }

    /// How many connections have been registered so far.
    pub closed spec fn registered(&self) -> u64 {
        self.connections.issued()
    }

    /// A node with a key and a nonce base drawn at random, and no peers.
    /// Its peers need the key before it can talk to them: see
    /// `encryption_key`.
    pub fn new(username: String) -> (client: Self)
        ensures
            client.name() == username@,
            client.sent() == 0,
            client.peers() == Map::<PeerAddr, H>::empty(),
            client.connections() == Map::<PeerAddr, u64>::empty(),
            client.order() == Seq::<PeerAddr>::empty(),
            client.registered() == 0,
    {
        let key = random_block();
        Self::with_shared_key(username, key)
    }

    /// A node with the key that its peers share, a nonce base drawn at
    /// random, and no peers yet.
    pub fn with_shared_key(username: String, key: [u8; 32]) -> (client: Self)
        ensures
            client.name() == username@,
            client.key() == key@,
            client.sent() == 0,
            client.peers() == Map::<PeerAddr, H>::empty(),
            client.connections() == Map::<PeerAddr, u64>::empty(),
            client.order() == Seq::<PeerAddr>::empty(),
            client.registered() == 0,
    {
        let block = random_block();
        let base: [u8; 12] = [
            block[0],
            block[1],
            block[2],
            block[3],
            block[4],
            block[5],
            block[6],
            block[7],
            block[8],
            block[9],
            block[10],
            block[11],
        ];
        Self::with_key(username, key, base)
    }

    /// A node with the given key and nonce base, and no peers yet. The
    /// nonce base must be one that no other session under this key has: it
    /// is to be drawn at random for every session, as `with_shared_key`
    /// does.
    pub fn with_key(username: String, key: [u8; 32], nonce_base: [u8; 12]) -> (client: Self)
        ensures
            client.name() == username@,
            client.key() == key@,
            client.nonce_base() == nonce_base@,
            client.sent() == 0,
            client.peers() == Map::<PeerAddr, H>::empty(),
            client.connections() == Map::<PeerAddr, u64>::empty(),
            client.order() == Seq::<PeerAddr>::empty(),
            client.registered() == 0,
    {
        ChatClient {
            username,
            encryption_key: key,
            nonces: NonceSequence::new(nonce_base),
            connections: Registry::new(),
        }
    }

    /// The display name.
    pub fn username(&self) -> (name: &str)
        ensures
            name@ == self.name(),
    {
        self.username.as_str()
    }

    /// The symmetric key of the session.
    pub fn encryption_key(&self) -> (key: [u8; 32])
        ensures
            key@ == self.key(),
    {
        self.encryption_key
    }

    /// The addresses of the connected peers, in registration order.
    pub fn connected_peers(&self) -> (peers: Vec<PeerAddr>)
        ensures
            peers@ == self.order(),
            peers@.no_duplicates(),
            peers@.to_set() == self.peers().dom(),
    {
        self.connections.snapshot()
    }

    /// Registers an established connection to `addr`, inbound or outbound,
    /// and gives it the next connection number, with which its handler is
    /// made. A second connection to a registered address takes the place of
    /// the first, whose handle is returned.
    ///
    /// Once 2^64 - 1 connections have been registered the node takes no
    /// further one and hands the handle back.
    pub fn connect_to_peer(&mut self, addr: PeerAddr, handle: H) -> (outcome: Result<
        Registration<H>,
        H,
    >)
        ensures
            final(self).name() == old(self).name(),
            final(self).key() == old(self).key(),
            final(self).nonce_base() == old(self).nonce_base(),
            final(self).sent() == old(self).sent(),
            old(self).registered() == u64::MAX ==> {
                &&& outcome == Err::<Registration<H>, H>(handle)
                &&& final(self).peers() == old(self).peers()
                &&& final(self).connections() == old(self).connections()
                &&& final(self).order() == old(self).order()
                &&& final(self).registered() == old(self).registered()
            },
            old(self).registered() < u64::MAX ==> {
                &&& outcome == Ok::<Registration<H>, H>(
                    Registration {
                        connection: old(self).registered(),
                        replaced: if old(self).peers().contains_key(addr) {
                            Some(old(self).peers()[addr])
                        } else {
                            None
                        },
                    },
                )
                &&& final(self).peers() == old(self).peers().insert(addr, handle)
                &&& final(self).connections() == old(self).connections().insert(
                    addr,
                    old(self).registered(),
                )
                &&& final(self).order() == if old(self).peers().contains_key(addr) {
                    old(self).order()
                } else {
                    old(self).order().push(addr)
                }
                &&& final(self).registered() == old(self).registered() + 1
            },
    {
        self.connections.register(addr, handle)
    }

    /// Ends the session of a connection that is over: removes the registry
    /// entry of that connection, once, and leaves the entry of a later
    /// connection to the same address alone. See `PeerSession::finish`.
    pub fn disconnect_peer(&mut self, session: &mut PeerSession) -> (handle: Option<H>)
        ensures
            final(self).name() == old(self).name(),
            final(self).key() == old(self).key(),
            final(self).nonce_base() == old(self).nonce_base(),
            final(self).sent() == old(self).sent(),
            final(self).registered() == old(self).registered(),
            final(session).peer() == old(session).peer(),
            final(session).number() == old(session).number(),
            final(session).pending() == old(session).pending(),
            final(session).phase() == if old(session).phase() is Closing {
                crate::session::SessionState::Closed
            } else {
                old(session).phase()
            },
            old(session).phase() is Closing && old(self).peers().contains_key(old(session).peer())
                && old(self).connections()[old(session).peer()] == old(session).number() ==> {
                &&& handle == Some(old(self).peers()[old(session).peer()])
                &&& final(self).peers() == old(self).peers().remove(old(session).peer())
                &&& final(self).connections() == old(self).connections().remove(
                    old(session).peer(),
                )
                &&& final(self).order() == crate::registry::without(
                    old(self).order(),
                    old(session).peer(),
                )
            },
            !(old(session).phase() is Closing && old(self).peers().contains_key(
                old(session).peer(),
            ) && old(self).connections()[old(session).peer()] == old(session).number()) ==> {
                &&& handle is None
                &&& final(self).peers() == old(self).peers()
                &&& final(self).connections() == old(self).connections()
                &&& final(self).order() == old(self).order()
            },
    {
        session.finish(&mut self.connections)
    }

    /// Seals `message` under the next nonce of the session, frames the blob
    /// and hands the frame to `write` once for each connected peer. It
    /// returns what `write` answered for each peer; a failure for one peer
    /// keeps the frame from no other. The peers stay registered.
    ///
    /// A message that is too long uses up no nonce.
    pub fn broadcast_message<E, F>(&mut self, message: &[u8], write: F) -> (outcomes: Result<
        Vec<(PeerAddr, Result<(), E>)>,
        SendError,
    >) where F: Fn(&PeerAddr, &H, &[u8]) -> Result<(), E>
        requires
            forall|a: PeerAddr, f: &[u8]|
                old(self).peers().contains_key(a) ==> #[trigger] call_requires(
                    write,
                    (&a, &old(self).peers()[a], f),
                ),
        ensures
            final(self).name() == old(self).name(),
            final(self).key() == old(self).key(),
            final(self).nonce_base() == old(self).nonce_base(),
            final(self).peers() == old(self).peers(),
            final(self).connections() == old(self).connections(),
            final(self).order() == old(self).order(),
            final(self).registered() == old(self).registered(),
            match outcomes {
                Err(SendError::MessageTooLong) => {
                    &&& message@.len() > max_message_len()
                    &&& final(self).sent() == old(self).sent()
                },
                Err(SendError::NoncesExhausted) => {
                    &&& message@.len() <= max_message_len()
                    &&& old(self).sent() == u64::MAX
                    &&& final(self).sent() == old(self).sent()
                },
                Ok(sent) => {
                    &&& message@.len() <= max_message_len()
                    &&& old(self).sent() < u64::MAX
                    &&& final(self).sent() == old(self).sent() + 1
                    &&& sent@.len() == old(self).order().len()
                    &&& exists|frame: &[u8]|
                        {
                            &&& frame@ == message_frame(
                                old(self).key(),
                                old(self).nonce_base(),
                                old(self).sent(),
                                message@,
                            )
                            &&& crate::session::frame_outcome(
                                old(self).key(),
                                frame@.drop_last(),
                            ) == Ok::<Seq<u8>, crate::session::FrameError>(message@)
                            &&& forall|i: int|
                                0 <= i < sent@.len() ==> {
                                    &&& (#[trigger] sent@[i]).0 == old(self).order()[i]
                                    &&& call_ensures(
                                        write,
                                        (
                                            &old(self).order()[i],
                                            &old(self).peers()[old(self).order()[i]],
                                            frame,
                                        ),
                                        sent@[i].1,
                                    )
                                }
                        }
                },
            },
    {
        if message.len() > (isize::MAX as usize - 1) / 2 - crypto::NONCE_LEN - crypto::TAG_LEN
            || message.len() as u64 > crypto::SEAL_LIMIT {
            return Err(SendError::MessageTooLong);
        }
        let nonce = match self.nonces.next() {
            Some(nonce) => nonce,
            None => {
                return Err(SendError::NoncesExhausted);
            },
        };
        let blob = match crypto::encrypt(message, &self.encryption_key, &nonce) {
            Ok(blob) => blob,
            Err(_) => {
                return Err(SendError::MessageTooLong);
            },
        };
        let frame = match frame::encode_frame(blob.as_slice()) {
            Some(frame) => frame,
            None => {
                return Err(SendError::MessageTooLong);
            },
        };
        proof {
            crate::hex::lemma_decode_encode(blob@);
            assert(frame@.drop_last() =~= crate::hex::encoded(blob@));
        }
        let wire = frame.as_slice();
        assert forall|a: PeerAddr| self.connections@.contains_key(a) implies call_requires(
            write,
            (&a, &#[trigger] self.connections@[a], wire),
        ) by {
            assert(call_requires(write, (&a, &old(self).peers()[a], wire)));
        }
        let sent = self.connections.broadcast(wire, write);
        Ok(sent)
    }
}

} // verus!
