//! The peer session handler: the state machine that one connection runs
//! through, from the first byte received to the removal of its registry
//! entry.
//!
//! Policy on bad frames: a frame that is malformed or fails authentication
//! is reported and dropped, and the session stays active. One corrupt frame
//! does not end a session.

use crate::addr::PeerAddr;
use crate::crypto;
use crate::crypto::CryptoError;
use crate::frame;
use crate::frame::FrameBuffer;
use crate::hex;
use crate::registry::Registry;
use vstd::prelude::*;

verus! {

/// Where a session stands. A session starts `Active` and only moves
/// forward: `Active`, then `Closing`, then `Closed`.
#[derive(Clone, Copy, Debug, PartialEq, Eq, Structural)]
pub enum SessionState {
    /// Receiving frames.
    Active,
    /// The transport has ended; the registry entry is still to be removed.
    Closing,
    /// The registry entry has been removed; the handler is done.
    Closed,
}

/// Why a received frame was dropped.
#[derive(Clone, Copy, Debug, PartialEq, Eq, Structural)]
pub enum FrameError {
    /// The frame is not hexadecimal text.
    ProtocolViolation,
    /// The blob in the frame was not sealed under the session key, or was
    /// altered on the way.
    AuthenticationFailure,
}

/// What the transport of a connection reports to its handler.
#[derive(Clone, Copy, Debug, PartialEq, Eq)]
pub enum TransportEvent<'a> {
    /// Bytes were read.
    Data(&'a [u8]),
    /// The peer closed the connection.
    EndOfStream,
    /// Reading failed for good.
    Failed,
}

/// What the handler asks of its caller after an event.
#[derive(Debug, PartialEq, Eq)]
pub enum SessionAction {
    /// Hand these to the display, in order: for each frame that the data
    /// completed, its plaintext or the reason why it was dropped.
    Deliver(Vec<Result<Vec<u8>, FrameError>>),
    /// The connection is over: stop reading, then call `finish` to remove
    /// the registry entry of this connection.
    Unregister(PeerAddr),
    /// The session is not active any more; the event was ignored.
    Ignore,
}

/// The state after `event` in `state`.
pub open spec fn next_state(state: SessionState, event: TransportEvent) -> SessionState {
    match state {
        SessionState::Active => match event {
            TransportEvent::Data(_) => SessionState::Active,
            _ => SessionState::Closing,
        },
        _ => state,
    }
}

/// How far along a state is.
pub open spec fn rank(state: SessionState) -> int {
    match state {
        SessionState::Active => 0,
        SessionState::Closing => 1,
        SessionState::Closed => 2,
    }
}

/// No event moves a session backwards; in particular none makes it active
/// again.
pub proof fn lemma_never_backwards(state: SessionState, event: TransportEvent)
    ensures
        rank(state) <= rank(next_state(state, event)),
        next_state(state, event) is Active ==> state is Active,
        next_state(state, event) !is Closed || state is Closed,
{
}

/// What the text of one frame holds for the owner of `key`.
pub open spec fn frame_outcome(key: Seq<u8>, text: Seq<u8>) -> Result<Seq<u8>, FrameError> {
    match hex::decoded(text) {
        None => Err(FrameError::ProtocolViolation),
        Some(blob) => match crypto::opened_blob(key, blob) {
            Ok(plaintext) => Ok(plaintext),
            Err(_) => Err(FrameError::AuthenticationFailure),
        },
    }
}

/// An outcome over sequences.
pub open spec fn outcome_view(outcome: Result<Vec<u8>, FrameError>) -> Result<
    Seq<u8>,
    FrameError,
> {
    match outcome {
        Ok(plaintext) => Ok(plaintext@),
        Err(e) => Err(e),
    }
}

/// A list of outcomes over sequences.
pub open spec fn outcome_views(outcomes: Seq<Result<Vec<u8>, FrameError>>) -> Seq<
    Result<Seq<u8>, FrameError>,
> {
    outcomes.map_values(|o: Result<Vec<u8>, FrameError>| outcome_view(o))
}

/// What each of `texts` holds for the owner of `key`.
pub open spec fn outcomes_of(key: Seq<u8>, texts: Seq<Seq<u8>>) -> Seq<
    Result<Seq<u8>, FrameError>,
> {
    texts.map_values(|t: Seq<u8>| frame_outcome(key, t))
}

/// A frame that carries a blob which opens to `message` is delivered as
/// `message`, whatever follows it on the wire, and the frames after it are
/// read as if it had not been there.
pub proof fn lemma_sealed_frame_is_delivered(
    key: Seq<u8>,
    blob: Seq<u8>,
    message: Seq<u8>,
    rest: Seq<u8>,
)
    requires
        crypto::opened_blob(key, blob) == Ok::<Seq<u8>, CryptoError>(message),
    ensures
        frame_outcome(key, hex::encoded(blob)) == Ok::<Seq<u8>, FrameError>(message),
        outcomes_of(key, frame::split(frame::framed(blob) + rest).0) == seq![
            Ok::<Seq<u8>, FrameError>(message),
        ] + outcomes_of(key, frame::split(rest).0),
        frame::split(frame::framed(blob) + rest).1 == frame::split(rest).1,
{
    frame::lemma_framed_splits(blob, rest);
    let texts = frame::split(frame::framed(blob) + rest).0;
    let later = frame::split(rest).0;
    assert(texts == seq![hex::encoded(blob)] + later);
    assert(outcomes_of(key, texts) =~= seq![Ok::<Seq<u8>, FrameError>(message)] + outcomes_of(
        key,
        later,
    ));
}

/// Decodes and opens the text of one received frame.
pub fn open_frame(text: &[u8], key: &[u8; 32]) -> (outcome: Result<Vec<u8>, FrameError>)
    ensures
        outcome_view(outcome) == frame_outcome(key@, text@),
{
    match frame::decode_frame(text) {
        None => Err(FrameError::ProtocolViolation),
        Some(blob) => match crypto::decrypt(blob.as_slice(), key) {
            Ok(plaintext) => Ok(plaintext),
            Err(_) => Err(FrameError::AuthenticationFailure),
        },
    }
}

/// The handler of one connection. It owns the read buffer of that
/// connection.
pub struct PeerSession {
    addr: PeerAddr,
    connection: u64,
    state: SessionState,
    buffer: FrameBuffer,
}

impl PeerSession {
    /// The peer on the other end.
    pub closed spec fn peer(&self) -> PeerAddr {
        self.addr
    }

    /// The number under which the registry holds this connection.
    pub closed spec fn number(&self) -> u64 {
        self.connection
    }

    /// Where the session stands.
    pub closed spec fn phase(&self) -> SessionState {
        self.state
    }

    /// The bytes received that do not yet make up a complete frame.
    pub closed spec fn pending(&self) -> Seq<u8> {
        self.buffer@
    }

    /// The handler for a connection to `addr` that has just been
    /// registered under the number `connection`: active, with nothing
    /// received.
    pub fn new(addr: PeerAddr, connection: u64) -> (session: Self)
        ensures
            session.peer() == addr,
            session.number() == connection,
            session.phase() is Active,
            session.pending() == Seq::<u8>::empty(),
    {
        PeerSession { addr, connection, state: SessionState::Active, buffer: FrameBuffer::new() }
    }

    /// The peer on the other end.
    pub fn addr(&self) -> (addr: PeerAddr)
        ensures
            addr == self.peer(),
    {
        self.addr
    }

    /// The number under which the registry holds this connection.
    pub fn connection(&self) -> (connection: u64)
        ensures
            connection == self.number(),
    {
        self.connection
    }

    /// Where the session stands.
    pub fn state(&self) -> (state: SessionState)
        ensures
            state == self.phase(),
    {
        self.state
    }

    /// Takes in bytes read from the transport and returns, for every frame
    /// that they complete, the plaintext or the reason why the frame was
    /// dropped, in the order of the frames. Bytes after the last delimiter
    /// wait for the rest of their frame.
    fn receive(&mut self, chunk: &[u8], key: &[u8; 32]) -> (outcomes: Vec<
        Result<Vec<u8>, FrameError>,
    >)
        ensures
            final(self).peer() == old(self).peer(),
            final(self).number() == old(self).number(),
            final(self).phase() == old(self).phase(),
            final(self).pending() == frame::split(old(self).pending() + chunk@).1,
            outcome_views(outcomes@) == outcomes_of(
                key@,
                frame::split(old(self).pending() + chunk@).0,
            ),
    {
        self.buffer.extend(chunk);
        let ghost wire = self.buffer@;
        let ghost mut texts: Seq<Seq<u8>> = Seq::empty();
        let mut outcomes: Vec<Result<Vec<u8>, FrameError>> = Vec::new();
        let mut more: bool = true;
        assert(outcome_views(outcomes@) =~= outcomes_of(key@, texts));
        while more
            invariant
                self.addr == old(self).addr,
                self.connection == old(self).connection,
                self.state == old(self).state,
                frame::split(wire).0 == texts + frame::split(self.buffer@).0,
                frame::split(wire).1 == frame::split(self.buffer@).1,
                outcomes@.len() == texts.len(),
                outcome_views(outcomes@) == outcomes_of(key@, texts),
                !more ==> frame::split(self.buffer@) == (Seq::<Seq<u8>>::empty(), self.buffer@),
            decreases self.buffer@.len() + if more { 1int } else { 0int },
        {
            let ghost before = self.buffer@;
            match self.buffer.next_frame() {
                Some(text) => {
                    let outcome = open_frame(text.as_slice(), key);
                    proof {
                        let n = frame::frame_len(before);
                        let rest = frame::split(self.buffer@);
                        frame::lemma_split_step(before);
                        assert(self.buffer@ == before.skip(n + 1));
                        assert(frame::split(before).0 == seq![text@] + rest.0);
                        assert(frame::split(before).1 == rest.1);
                        assert(texts + (seq![text@] + rest.0) =~= texts.push(text@) + rest.0);
                        let views = outcome_views(outcomes@.push(outcome));
                        let wanted = outcomes_of(key@, texts.push(text@));
                        assert(views.len() == wanted.len());
                        assert forall|i: int| 0 <= i < views.len() implies views[i]
                            == wanted[i] by {
                            if i < texts.len() {
                                assert(views[i] == outcome_views(outcomes@)[i]);
                                assert(wanted[i] == outcomes_of(key@, texts)[i]);
                            }
                        }
                        assert(views =~= wanted);
                        texts = texts.push(text@);
                    }
                    outcomes.push(outcome);
                },
                None => {
                    proof {
                        frame::lemma_split_step(before);
                    }
                    more = false;
                },
            }
        }
        assert(texts + Seq::<Seq<u8>>::empty() =~= texts);
        outcomes
    }

    /// Takes one event from the transport and says what to do next.
    ///
    /// While the session is active, data is framed, decoded and opened, and
    /// the session stays active whatever the frames hold; the end of the
    /// stream or a read failure makes it `Closing`. Once the session is not
    /// active, events are ignored.
    pub fn on_event(&mut self, event: TransportEvent, key: &[u8; 32]) -> (action: SessionAction)
        ensures
            final(self).peer() == old(self).peer(),
            final(self).number() == old(self).number(),
            final(self).phase() == next_state(old(self).phase(), event),
            match action {
                SessionAction::Deliver(outcomes) => {
                    &&& old(self).phase() is Active
                    &&& event matches TransportEvent::Data(chunk)
                    &&& final(self).pending() == frame::split(old(self).pending() + chunk@).1
                    &&& outcome_views(outcomes@) == outcomes_of(
                        key@,
                        frame::split(old(self).pending() + chunk@).0,
                    )
                },
                SessionAction::Unregister(addr) => {
                    &&& old(self).phase() is Active
                    &&& !(event is Data)
                    &&& addr == old(self).peer()
                    &&& final(self).pending() == old(self).pending()
                },
                SessionAction::Ignore => {
                    &&& !(old(self).phase() is Active)
                    &&& final(self).pending() == old(self).pending()
                },
            },
    {
        match self.state {
            SessionState::Active => match event {
                TransportEvent::Data(chunk) => SessionAction::Deliver(self.receive(chunk, key)),
                _ => {
                    self.state = SessionState::Closing;
                    SessionAction::Unregister(self.addr)
                },
            },
            _ => SessionAction::Ignore,
        }
    }

    /// Ends a closing session: removes the entry of its connection from the
    /// registry and makes the session `Closed`. It returns the handle that
    /// the entry held.
    ///
    /// The entry is removed only while it is still this session's own, that
    /// is while it carries this session's connection number. Where the peer
    /// has reconnected since, the entry stands for the later connection and
    /// stays. On a session that is not `Closing` nothing happens at all, so
    /// that the entry is removed once, however often this is called.
    pub fn finish<H>(&mut self, registry: &mut Registry<H>) -> (handle: Option<H>)
        ensures
            final(self).peer() == old(self).peer(),
            final(self).number() == old(self).number(),
            final(self).pending() == old(self).pending(),
            final(self).phase() == if old(self).phase() is Closing {
                SessionState::Closed
            } else {
                old(self).phase()
            },
            final(registry).issued() == old(registry).issued(),
            old(self).phase() is Closing && old(registry)@.contains_key(old(self).peer()) && old(
                registry,
            ).connections()[old(self).peer()] == old(self).number() ==> {
                &&& handle == Some(old(registry)@[old(self).peer()])
                &&& final(registry)@ == old(registry)@.remove(old(self).peer())
                &&& final(registry).connections() == old(registry).connections().remove(
                    old(self).peer(),
                )
                &&& final(registry).order() == crate::registry::without(
                    old(registry).order(),
                    old(self).peer(),
                )
            },
            !(old(self).phase() is Closing && old(registry)@.contains_key(old(self).peer()) && old(
                registry,
            ).connections()[old(self).peer()] == old(self).number()) ==> {
                &&& handle is None
                &&& final(registry)@ == old(registry)@
                &&& final(registry).connections() == old(registry).connections()
                &&& final(registry).order() == old(registry).order()
            },
    {
        match self.state {
            SessionState::Closing => {
                self.state = SessionState::Closed;
                registry.release(self.addr, self.connection)
            },
            _ => None,
        }
    }
}

} // verus!
