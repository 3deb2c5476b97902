use p2p_chat::addr::PeerAddr;
use p2p_chat::client::ChatClient;
use p2p_chat::crypto::decrypt;
use p2p_chat::frame::decode_frame;
use p2p_chat::registry::Registration;
use p2p_chat::session::{PeerSession, SessionAction, SessionState, TransportEvent};
use std::cell::RefCell;

const KEY: [u8; 32] = [0x17; 32];
const BASE: [u8; 12] = [1, 2, 3, 4, 5, 6, 7, 8, 9, 10, 11, 12];

fn peer(last: u32) -> PeerAddr {
    PeerAddr::V4 { ip: 0x7f00_0000 + last, port: 9000 }
}

struct Wire {
    up: bool,
    bytes: RefCell<Vec<u8>>,
}

fn wire(up: bool) -> Wire {
    Wire { up, bytes: RefCell::new(Vec::new()) }
}

fn write_to(_addr: &PeerAddr, wire: &Wire, frame: &[u8]) -> Result<(), &'static str> {
    if wire.up {
        wire.bytes.borrow_mut().extend_from_slice(frame);
        Ok(())
    } else {
        Err("connection reset")
    }
}

fn number_of(outcome: Result<Registration<Wire>, Wire>) -> u64 {
    match outcome {
        Ok(registration) => registration.connection,
        Err(_) => panic!("the connection was turned down"),
    }
}

fn keep(frames: &RefCell<Vec<Vec<u8>>>) -> impl Fn(&PeerAddr, &(), &[u8]) -> Result<(), ()> + '_ {
    move |_addr, _handle, frame| {
        frames.borrow_mut().push(frame.to_vec());
        Ok(())
    }
}

#[test]
fn new_client_has_a_name_and_no_peers() {
    let client: ChatClient<()> = ChatClient::new(String::from("alice"));
    assert_eq!(client.username(), "alice");
    assert_eq!(client.connected_peers(), vec![]);
}

#[test]
fn new_clients_draw_different_keys() {
    let first: ChatClient<()> = ChatClient::new(String::from("alice"));
    let second: ChatClient<()> = ChatClient::new(String::from("alice"));
    assert_ne!(first.encryption_key(), second.encryption_key());
    assert_ne!(first.encryption_key(), [0u8; 32]);
}

#[test]
fn with_key_keeps_the_shared_key() {
    let client: ChatClient<()> = ChatClient::with_key(String::from("bob"), KEY, BASE);
    assert_eq!(client.username(), "bob");
    assert_eq!(client.encryption_key(), KEY);
    assert_eq!(client.connected_peers(), vec![]);
}

#[test]
fn connect_to_peer_registers_the_connection() {
    let mut client = ChatClient::with_key(String::from("bob"), KEY, BASE);
    assert_eq!(
        client.connect_to_peer(peer(1), 'a'),
        Ok(Registration { connection: 0, replaced: None })
    );
    assert_eq!(
        client.connect_to_peer(peer(2), 'b'),
        Ok(Registration { connection: 1, replaced: None })
    );
    assert_eq!(
        client.connect_to_peer(peer(1), 'c'),
        Ok(Registration { connection: 2, replaced: Some('a') })
    );
    assert_eq!(client.connected_peers(), vec![peer(1), peer(2)]);
}

#[test]
fn broadcast_message_sends_one_sealed_frame_to_every_peer() {
    let mut client = ChatClient::with_key(String::from("bob"), KEY, BASE);
    let number = number_of(client.connect_to_peer(peer(1), wire(true)));
    number_of(client.connect_to_peer(peer(2), wire(true)));
    let outcomes = client.broadcast_message(b"hello", write_to).unwrap();
    assert_eq!(outcomes, vec![(peer(1), Ok(())), (peer(2), Ok(()))]);
    let mut done = PeerSession::new(peer(1), number);
    done.on_event(TransportEvent::EndOfStream, &KEY);
    let first = client.disconnect_peer(&mut done).unwrap().bytes.into_inner();
    assert_eq!(first.len(), 2 * (12 + 5 + 16) + 1);
    assert_eq!(first.last(), Some(&b'\n'));
    assert_eq!(&first[..24], b"0102030405060708090a0b0c");
    let blob = decode_frame(&first[..first.len() - 1]).unwrap();
    assert_eq!(decrypt(&blob, &KEY), Ok(b"hello".to_vec()));
    assert!(!first.windows(5).any(|w| w == b"hello"));
}

#[test]
fn every_message_of_a_session_has_its_own_nonce() {
    let frames = RefCell::new(Vec::new());
    let mut client = ChatClient::with_key(String::from("bob"), KEY, BASE);
    client.connect_to_peer(peer(1), ()).unwrap();
    for _ in 0..300 {
        client.broadcast_message(b"same text", keep(&frames)).unwrap();
    }
    let frames = frames.into_inner();
    assert_eq!(&frames[0][..24], b"0102030405060708090a0b0c");
    assert_eq!(&frames[1][..24], b"0102030405060708090a0b0d");
    assert_eq!(&frames[2][..24], b"0102030405060708090a0b0e");
    assert_eq!(&frames[256][..24], b"0102030405060708090a0a0c");
    let mut seen = std::collections::HashSet::new();
    for frame in frames.iter() {
        assert!(seen.insert(frame[..24].to_vec()));
        assert!(seen.insert(frame.clone()));
    }
}

#[test]
fn broadcast_message_with_no_peers_still_uses_a_nonce() {
    let frames = RefCell::new(Vec::new());
    let mut client = ChatClient::with_key(String::from("bob"), KEY, BASE);
    assert_eq!(client.broadcast_message(b"nobody hears", keep(&frames)), Ok(vec![]));
    client.connect_to_peer(peer(1), ()).unwrap();
    client.broadcast_message(b"somebody hears", keep(&frames)).unwrap();
    let frames = frames.into_inner();
    assert_eq!(frames.len(), 1);
    assert_eq!(&frames[0][..24], b"0102030405060708090a0b0d");
}

#[test]
fn a_failing_peer_is_reported_and_the_others_get_the_frame() {
    let mut client = ChatClient::with_key(String::from("bob"), KEY, BASE);
    number_of(client.connect_to_peer(peer(1), wire(true)));
    number_of(client.connect_to_peer(peer(2), wire(false)));
    number_of(client.connect_to_peer(peer(3), wire(true)));
    let outcomes = client.broadcast_message(b"hello", write_to).unwrap();
    assert_eq!(
        outcomes,
        vec![(peer(1), Ok(())), (peer(2), Err("connection reset")), (peer(3), Ok(()))]
    );
    assert_eq!(client.connected_peers(), vec![peer(1), peer(2), peer(3)]);
}

#[test]
fn hello_from_the_dialer_reaches_the_display_of_the_listener() {
    let listener_addr = PeerAddr::V4 { ip: 0x7f00_0001, port: 9000 };
    let dialer_addr = PeerAddr::V4 { ip: 0x7f00_0001, port: 51234 };
    let mut listener: ChatClient<Wire> = ChatClient::with_key(String::from("l"), KEY, [9; 12]);
    let mut dialer = ChatClient::with_key(String::from("d"), KEY, BASE);
    let outbound = number_of(dialer.connect_to_peer(listener_addr, wire(true)));
    let inbound = number_of(listener.connect_to_peer(dialer_addr, wire(true)));
    let mut handler = PeerSession::new(dialer_addr, inbound);
    assert_eq!(dialer.broadcast_message(b"hello", write_to), Ok(vec![(listener_addr, Ok(()))]));
    let mut closing = PeerSession::new(listener_addr, outbound);
    closing.on_event(TransportEvent::EndOfStream, &KEY);
    let sent = dialer.disconnect_peer(&mut closing).unwrap().bytes.into_inner();
    let mut delivered = Vec::new();
    for chunk in sent.chunks(7) {
        match handler.on_event(TransportEvent::Data(chunk), &listener.encryption_key()) {
            SessionAction::Deliver(outcomes) => delivered.extend(outcomes),
            other => panic!("unexpected action {:?}", other),
        }
    }
    assert_eq!(delivered, vec![Ok(b"hello".to_vec())]);
}

#[test]
fn a_peer_that_disconnects_is_removed_once_and_not_written_to_again() {
    let mut client = ChatClient::with_key(String::from("bob"), KEY, BASE);
    number_of(client.connect_to_peer(peer(1), wire(true)));
    let number = number_of(client.connect_to_peer(peer(2), wire(true)));
    let mut session = PeerSession::new(peer(2), number);
    client.broadcast_message(b"before", write_to).unwrap();
    assert_eq!(
        session.on_event(TransportEvent::EndOfStream, &KEY),
        SessionAction::Unregister(peer(2))
    );
    let gone = client.disconnect_peer(&mut session).unwrap();
    assert_eq!(session.state(), SessionState::Closed);
    assert_eq!(client.connected_peers(), vec![peer(1)]);
    assert!(client.disconnect_peer(&mut session).is_none());
    assert_eq!(client.connected_peers(), vec![peer(1)]);
    let written_before = gone.bytes.borrow().len();
    let outcomes = client.broadcast_message(b"after", write_to).unwrap();
    assert_eq!(outcomes, vec![(peer(1), Ok(()))]);
    assert_eq!(gone.bytes.borrow().len(), written_before);
}

#[test]
fn with_shared_key_keeps_the_key_and_draws_a_nonce_base() {
    let frames = RefCell::new(Vec::new());
    let mut first: ChatClient<()> = ChatClient::with_shared_key(String::from("a"), KEY);
    let mut second: ChatClient<()> = ChatClient::with_shared_key(String::from("b"), KEY);
    assert_eq!(first.encryption_key(), KEY);
    assert_eq!(second.encryption_key(), KEY);
    first.connect_to_peer(peer(1), ()).unwrap();
    second.connect_to_peer(peer(1), ()).unwrap();
    first.broadcast_message(b"hello", keep(&frames)).unwrap();
    second.broadcast_message(b"hello", keep(&frames)).unwrap();
    let frames = frames.into_inner();
    assert_ne!(&frames[0][..24], &frames[1][..24]);
    for frame in frames.iter() {
        let blob = decode_frame(&frame[..frame.len() - 1]).unwrap();
        assert_eq!(decrypt(&blob, &KEY), Ok(b"hello".to_vec()));
    }
}

#[test]
fn a_reconnected_peer_stays_in_reach_when_its_old_session_ends() {
    let mut client = ChatClient::with_key(String::from("bob"), KEY, BASE);
    let first = number_of(client.connect_to_peer(peer(1), wire(true)));
    let mut old_handler = PeerSession::new(peer(1), first);
    let second = number_of(client.connect_to_peer(peer(1), wire(true)));
    let mut new_handler = PeerSession::new(peer(1), second);
    assert_ne!(first, second);
    old_handler.on_event(TransportEvent::EndOfStream, &KEY);
    assert!(client.disconnect_peer(&mut old_handler).is_none());
    assert_eq!(old_handler.state(), SessionState::Closed);
    assert_eq!(client.connected_peers(), vec![peer(1)]);
    assert_eq!(client.broadcast_message(b"still there", write_to), Ok(vec![(peer(1), Ok(()))]));
    new_handler.on_event(TransportEvent::EndOfStream, &KEY);
    let handle = client.disconnect_peer(&mut new_handler).unwrap();
    assert_eq!(handle.bytes.into_inner().len(), 2 * (12 + 11 + 16) + 1);
    assert_eq!(client.connected_peers(), vec![]);
    assert_eq!(client.broadcast_message(b"nobody", write_to), Ok(vec![]));
}
