use p2p_chat::addr::PeerAddr;
use p2p_chat::crypto::encrypt;
use p2p_chat::frame::encode_frame;
use p2p_chat::registry::Registry;
use p2p_chat::session::{
    open_frame, FrameError, PeerSession, SessionAction, SessionState, TransportEvent,
};

const KEY: [u8; 32] = [0x42; 32];

fn remote() -> PeerAddr {
    PeerAddr::V4 { ip: 0x7f00_0001, port: 9000 }
}

fn frame_of(message: &[u8], number: u8) -> Vec<u8> {
    encode_frame(&encrypt(message, &KEY, &[number; 12]).unwrap()).unwrap()
}

#[test]
fn new_session_is_active() {
    let session = PeerSession::new(remote(), 0);
    assert_eq!(session.state(), SessionState::Active);
    assert_eq!(session.addr(), remote());
    assert_eq!(session.connection(), 0);
    assert_eq!(PeerSession::new(remote(), 41).connection(), 41);
}

#[test]
fn open_frame_gives_the_plaintext() {
    let frame = frame_of(b"hello", 1);
    assert_eq!(open_frame(&frame[..frame.len() - 1], &KEY), Ok(b"hello".to_vec()));
}

#[test]
fn open_frame_tells_malformed_from_unauthentic() {
    assert_eq!(open_frame(b"not hex", &KEY), Err(FrameError::ProtocolViolation));
    assert_eq!(open_frame(b"abc", &KEY), Err(FrameError::ProtocolViolation));
    assert_eq!(open_frame(b"", &KEY), Err(FrameError::AuthenticationFailure));
    assert_eq!(open_frame(b"00ff", &KEY), Err(FrameError::AuthenticationFailure));
    let frame = frame_of(b"hello", 1);
    assert_eq!(
        open_frame(&frame[..frame.len() - 1], &[0u8; 32]),
        Err(FrameError::AuthenticationFailure)
    );
}

#[test]
fn data_that_completes_a_frame_is_delivered() {
    let mut session = PeerSession::new(remote(), 0);
    let action = session.on_event(TransportEvent::Data(&frame_of(b"hello", 1)), &KEY);
    assert_eq!(action, SessionAction::Deliver(vec![Ok(b"hello".to_vec())]));
    assert_eq!(session.state(), SessionState::Active);
}

#[test]
fn a_frame_that_arrives_in_pieces_is_delivered_when_complete() {
    let mut session = PeerSession::new(remote(), 0);
    let frame = frame_of(b"hello", 1);
    let (head, tail) = frame.split_at(20);
    assert_eq!(
        session.on_event(TransportEvent::Data(head), &KEY),
        SessionAction::Deliver(vec![])
    );
    assert_eq!(
        session.on_event(TransportEvent::Data(&tail[..tail.len() - 1]), &KEY),
        SessionAction::Deliver(vec![])
    );
    assert_eq!(
        session.on_event(TransportEvent::Data(b"\n"), &KEY),
        SessionAction::Deliver(vec![Ok(b"hello".to_vec())])
    );
}

#[test]
fn several_frames_in_one_read_are_delivered_in_order() {
    let mut session = PeerSession::new(remote(), 0);
    let mut wire = frame_of(b"one", 1);
    wire.extend(frame_of(b"two", 2));
    wire.extend(frame_of(b"", 3));
    wire.extend_from_slice(b"0011");
    assert_eq!(
        session.on_event(TransportEvent::Data(&wire), &KEY),
        SessionAction::Deliver(vec![Ok(b"one".to_vec()), Ok(b"two".to_vec()), Ok(vec![])])
    );
}

#[test]
fn a_bad_frame_is_reported_and_the_session_stays_active() {
    let mut session = PeerSession::new(remote(), 0);
    let mut tampered = frame_of(b"hello", 1);
    tampered[30] = if tampered[30] == b'0' { b'1' } else { b'0' };
    let mut wire = tampered;
    wire.extend_from_slice(b"garbage!\n");
    wire.extend(frame_of(b"still here", 2));
    assert_eq!(
        session.on_event(TransportEvent::Data(&wire), &KEY),
        SessionAction::Deliver(vec![
            Err(FrameError::AuthenticationFailure),
            Err(FrameError::ProtocolViolation),
            Ok(b"still here".to_vec()),
        ])
    );
    assert_eq!(session.state(), SessionState::Active);
}

#[test]
fn end_of_stream_makes_the_session_closing() {
    let mut session = PeerSession::new(remote(), 0);
    assert_eq!(
        session.on_event(TransportEvent::EndOfStream, &KEY),
        SessionAction::Unregister(remote())
    );
    assert_eq!(session.state(), SessionState::Closing);
}

#[test]
fn read_failure_makes_the_session_closing() {
    let mut session = PeerSession::new(remote(), 0);
    assert_eq!(
        session.on_event(TransportEvent::Failed, &KEY),
        SessionAction::Unregister(remote())
    );
    assert_eq!(session.state(), SessionState::Closing);
}

#[test]
fn a_session_that_is_not_active_ignores_events() {
    let mut session = PeerSession::new(remote(), 0);
    session.on_event(TransportEvent::EndOfStream, &KEY);
    let frame = frame_of(b"late", 1);
    assert_eq!(session.on_event(TransportEvent::Data(&frame), &KEY), SessionAction::Ignore);
    assert_eq!(session.on_event(TransportEvent::EndOfStream, &KEY), SessionAction::Ignore);
    assert_eq!(session.on_event(TransportEvent::Failed, &KEY), SessionAction::Ignore);
    assert_eq!(session.state(), SessionState::Closing);
    let mut registry: Registry<u8> = Registry::new();
    session.finish(&mut registry);
    assert_eq!(session.on_event(TransportEvent::Data(&frame), &KEY), SessionAction::Ignore);
    assert_eq!(session.state(), SessionState::Closed);
}

#[test]
fn finish_removes_the_entry_exactly_once() {
    let other = PeerAddr::V4 { ip: 0x7f00_0002, port: 9000 };
    let mut registry = Registry::new();
    let number = registry.register(remote(), 'r').unwrap().connection;
    registry.register(other, 'o').unwrap();
    let mut session = PeerSession::new(remote(), number);
    assert_eq!(session.finish(&mut registry), None);
    assert_eq!(session.state(), SessionState::Active);
    assert_eq!(registry.len(), 2);
    session.on_event(TransportEvent::EndOfStream, &KEY);
    assert_eq!(session.finish(&mut registry), Some('r'));
    assert_eq!(session.state(), SessionState::Closed);
    assert_eq!(registry.snapshot(), vec![other]);
    registry.register(remote(), 'n').unwrap();
    assert_eq!(session.finish(&mut registry), None);
    assert_eq!(session.state(), SessionState::Closed);
    assert_eq!(registry.snapshot(), vec![other, remote()]);
}

#[test]
fn the_end_of_an_old_session_leaves_the_reconnected_peer_registered() {
    let mut registry = Registry::new();
    let first = registry.register(remote(), "h1").unwrap();
    let mut old_handler = PeerSession::new(remote(), first.connection);
    let second = registry.register(remote(), "h2").unwrap();
    assert_eq!(second.replaced, Some("h1"));
    let mut new_handler = PeerSession::new(remote(), second.connection);
    assert_eq!(
        old_handler.on_event(TransportEvent::EndOfStream, &KEY),
        SessionAction::Unregister(remote())
    );
    assert_eq!(old_handler.finish(&mut registry), None);
    assert_eq!(old_handler.state(), SessionState::Closed);
    assert_eq!(registry.snapshot(), vec![remote()]);
    let reached = registry.broadcast(b"00\n", |_a: &PeerAddr, h: &&str, _f: &[u8]| {
        if *h == "h2" {
            Ok(())
        } else {
            Err(*h)
        }
    });
    assert_eq!(reached, vec![(remote(), Ok(()))]);
    new_handler.on_event(TransportEvent::Failed, &KEY);
    assert_eq!(new_handler.finish(&mut registry), Some("h2"));
    assert_eq!(registry.snapshot(), vec![]);
}

#[test]
fn a_session_closes_even_where_its_entry_is_gone_already() {
    let mut registry = Registry::new();
    let number = registry.register(remote(), 'r').unwrap().connection;
    let mut session = PeerSession::new(remote(), number);
    assert_eq!(registry.unregister(remote()), Some('r'));
    session.on_event(TransportEvent::EndOfStream, &KEY);
    assert_eq!(session.finish(&mut registry), None);
    assert_eq!(session.state(), SessionState::Closed);
}
