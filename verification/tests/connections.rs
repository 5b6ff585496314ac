use bittorrent_client::connection::PeerConnection;
use bittorrent_client::models::{
    PeerControlCommand, PeerEvent, PeerStateEvent, TorrentEvent,
};
use bittorrent_client::peer;
use bittorrent_client::peer_async;
use bittorrent_client::wire::{
    cancel_message, check_message, handshake_message, interested_message, message_length,
    payload_length, read_message, request_message, unchoke_message, verify_handshake, Message,
};

const HASH: [u8; 20] = [7u8; 20];
const ID: [u8; 20] = [9u8; 20];

#[test]
fn handshakes_name_the_torrent() {
    let message = handshake_message(&HASH, &ID);
    assert_eq!(message.len(), 68);
    assert_eq!(message[0], 19);
    assert_eq!(&message[1..20], b"BitTorrent protocol");
    assert_eq!(&message[20..28], &[0u8; 8]);
    assert_eq!(&message[28..48], &HASH);
    assert_eq!(&message[48..68], &ID);
    assert!(verify_handshake(&message, &HASH));
    assert!(!verify_handshake(&message, &ID));
}

#[test]
fn messages_are_written() {
    assert_eq!(unchoke_message(), vec![0, 0, 0, 1, 1]);
    assert_eq!(interested_message(), vec![0, 0, 0, 1, 2]);
    assert_eq!(
        request_message(258, 16384, 5),
        vec![0, 0, 0, 13, 6, 0, 0, 1, 2, 0, 0, 64, 0, 0, 0, 0, 5]
    );
    assert_eq!(
        cancel_message(258, 16384, 5),
        vec![0, 0, 0, 13, 8, 0, 0, 1, 2, 0, 0, 64, 0, 0, 0, 0, 5]
    );
    // Only 32 bits are sent.
    assert_eq!(request_message(4294967296 + 1, 0, 0)[5..9], [0, 0, 0, 1]);
}

#[test]
fn lengths_are_read() {
    assert_eq!(message_length(&[0, 0, 0, 0]), None);
    assert_eq!(message_length(&[0, 0, 0, 5]), Some(5));
    assert_eq!(message_length(&[0, 1, 255, 255]), Some(131071));
    assert_eq!(message_length(&[0, 2, 0, 0]), None);
    assert_eq!(payload_length(1, 0), Some(0));
    assert_eq!(payload_length(1, 1), Some(0));
    assert_eq!(payload_length(2, 0), None);
    assert_eq!(payload_length(5, 4), Some(4));
    assert_eq!(payload_length(1, 5), Some(0));
    assert_eq!(payload_length(4, 5), Some(3));
    assert_eq!(payload_length(8, 7), None);
    assert_eq!(payload_length(9, 7), Some(8));
    assert_eq!(payload_length(1, 2), None);
}

#[test]
fn messages_are_read() {
    assert!(matches!(read_message(0, &[], 0), Message::Choked(true)));
    assert!(matches!(read_message(1, &[], 0), Message::Choked(false)));
    assert!(matches!(read_message(4, &[0, 0, 1, 0], 0), Message::Have(256)));
    match read_message(5, &[0b1010_0000, 0b0100_0000, 0xff], 10) {
        Message::Bitfield(bits) => assert_eq!(
            bits,
            vec![true, false, true, false, false, false, false, false, false, true]
        ),
        _ => panic!("a bitfield"),
    }
    match read_message(7, &[0, 0, 0, 1, 0, 0, 0, 2, 42, 43], 0) {
        Message::Block(1, 2, data) => assert_eq!(data, vec![42, 43]),
        _ => panic!("a block"),
    }
}

#[test]
fn messages_that_do_not_fit_are_recognised() {
    assert!(check_message(0, &[], 9));
    assert!(!check_message(1, &[0], 9));
    assert!(check_message(4, &[0, 0, 0, 8], 9));
    assert!(!check_message(4, &[0, 0, 0, 9], 9));
    assert!(!check_message(4, &[0, 0, 8], 9));
    assert!(check_message(5, &[0, 0], 9));
    assert!(check_message(5, &[0, 0, 0], 9));
    assert!(!check_message(5, &[0], 9));
    assert!(check_message(7, &[0; 8], 9));
    assert!(!check_message(7, &[0; 7], 9));
    assert!(!check_message(9, &[], 9));
    let mut peer = new_peer(9);
    peer.peer_state.downloaded_window_second = (1, usize::MAX);
    assert!(peer.check_message(7, &[0; 8], 1));
    assert!(!peer.check_message(7, &[0; 9], 1));
    assert!(peer.check_message(7, &[0; 9], 2));
    assert!(!peer.check_message(7, &[0; 7], 2));
}

fn new_peer(piece_count: usize) -> peer::Controller {
    let reply = handshake_message(&HASH, &ID);
    let (controller, event) =
        peer::Controller::new(String::from("1.2.3.4"), 5, &HASH, &reply, piece_count);
    assert_eq!(event.ip, "1.2.3.4");
    assert_eq!(event.port, 5);
    match event.event {
        peer::Event::State(peer::StateEvent::Init(state)) => {
            assert!(state.handshake && state.choked && state.interested);
            assert_eq!(state.bitfield, None);
        }
        _ => panic!("the initial state"),
    }
    controller
}

#[test]
fn a_connection_follows_its_peer() {
    let mut controller = new_peer(3);
    let events = controller.receive(1, &[], 0);
    assert!(!controller.peer_state.choked);
    assert_eq!(events.len(), 1);
    assert!(matches!(
        events[0].event,
        peer::Event::State(peer::StateEvent::FieldChoked(false))
    ));
    let events = controller.receive(4, &[0, 0, 0, 1], 0);
    assert_eq!(controller.peer_state.bitfield, Some(vec![false, true, false]));
    assert!(matches!(events[0].event, peer::Event::State(peer::StateEvent::FieldHave(1))));
    let events = controller.receive(5, &[0b1000_0000], 0);
    assert_eq!(controller.peer_state.bitfield, Some(vec![true, false, false]));
    match &events[0].event {
        peer::Event::State(peer::StateEvent::FieldBitfield(bits)) => {
            assert_eq!(bits, &vec![true, false, false])
        }
        _ => panic!("a bitfield"),
    }
}

#[test]
fn a_connection_counts_the_bytes_of_a_second() {
    let mut controller = new_peer(1);
    let payload = [0, 0, 0, 0, 0, 0, 0, 0, 1, 2, 3];
    let window = |events: &Vec<peer::ControllerEvent>| match events[1].event {
        peer::Event::Metric(peer::Metric::DownloadWindowSecond(second, count)) => (second, count),
        _ => panic!("a metric"),
    };
    let events = controller.receive(7, &payload, 10);
    match &events[0].event {
        peer::Event::Block(0, 0, data) => assert_eq!(data, &vec![1, 2, 3]),
        _ => panic!("a block"),
    }
    assert_eq!(window(&events), (10, 3));
    assert_eq!(window(&controller.receive(7, &payload, 10)), (10, 6));
    assert_eq!(window(&controller.receive(7, &payload, 9)), (10, 6));
    assert_eq!(window(&controller.receive(7, &payload, 11)), (11, 3));
}

#[test]
fn commands_are_written_to_the_peer() {
    let controller = new_peer(1);
    assert_eq!(
        controller.request(&peer::ControlCommand::PieceBlockRequest(1, 2, 3)),
        Some(request_message(1, 2, 3))
    );
    assert_eq!(controller.request(&peer::ControlCommand::Shutdown), None);
}

#[test]
fn the_last_command_is_obeyed_first() {
    let reply = handshake_message(&HASH, &ID);
    let mut controller =
        peer_async::Controller::new(String::from("1.2.3.4"), 5, &HASH, &reply, 2);
    controller.pending_commands.push(peer_async::ControlCommand::Shutdown);
    controller.pending_commands.push(peer_async::ControlCommand::PieceBlockRequest(1, 2, 3));
    match controller.process_commands() {
        peer_async::Action::Write(message) => assert_eq!(message, request_message(1, 2, 3)),
        _ => panic!("a request"),
    }
    assert!(matches!(controller.process_commands(), peer_async::Action::Shutdown));
    assert!(matches!(controller.process_commands(), peer_async::Action::Read));
}

#[test]
fn a_connection_that_is_asked_follows_its_peer() {
    let reply = handshake_message(&HASH, &ID);
    let mut controller =
        peer_async::Controller::new(String::from("1.2.3.4"), 5, &HASH, &reply, 2);
    assert!(matches!(
        controller.process_peer_message(1, &[]),
        peer_async::Event::State(peer_async::StateEvent::FieldChoked(false))
    ));
    assert!(matches!(
        controller.process_peer_message(4, &[0, 0, 0, 1]),
        peer_async::Event::State(peer_async::StateEvent::FieldHave(1))
    ));
    match controller.process_peer_message(7, &[0, 0, 0, 1, 0, 0, 0, 0, 8]) {
        peer_async::Event::Block(1, 0, data) => assert_eq!(data, vec![8]),
        _ => panic!("a block"),
    }
    match controller.current_state() {
        peer_async::Event::State(peer_async::StateEvent::Init(state)) => {
            assert!(!state.choked);
            assert_eq!(state.bitfield, Some(vec![false, true]));
        }
        _ => panic!("a state"),
    }
}

#[test]
fn a_connection_can_take_requests_back() {
    let reply = handshake_message(&HASH, &ID);
    let (connection, event) = PeerConnection::new(String::from("1.2.3.4"), 5);
    assert!(matches!(event, TorrentEvent::Peer(_, 5, PeerEvent::Control)));
    let (mut active, event) = connection.activate(&HASH, &reply, 2);
    match event {
        TorrentEvent::Peer(ip, 5, PeerEvent::State(PeerStateEvent::Init(state))) => {
            assert_eq!(ip, "1.2.3.4");
            assert!(state.choked);
        }
        _ => panic!("the initial state"),
    }
    assert_eq!(
        active.command_message(&PeerControlCommand::PieceBlockCancel(1, 2, 3)),
        Some(cancel_message(1, 2, 3))
    );
    assert_eq!(
        active.command_message(&PeerControlCommand::PieceBlockRequest(1, 2, 3)),
        Some(request_message(1, 2, 3))
    );
    assert_eq!(active.command_message(&PeerControlCommand::Shutdown), None);
    match active.receive(5, &[0b0100_0000]) {
        TorrentEvent::Peer(_, 5, PeerEvent::State(PeerStateEvent::FieldBitfield(bits))) => {
            assert_eq!(bits, vec![false, true])
        }
        _ => panic!("a bitfield"),
    }
    match active.receive(7, &[0, 0, 0, 1, 0, 0, 0, 0, 8]) {
        TorrentEvent::Block(1, 0, data) => assert_eq!(data, vec![8]),
        _ => panic!("a block"),
    }
    match active.receive(0, &[]) {
        TorrentEvent::Peer(_, _, PeerEvent::State(PeerStateEvent::FieldChoked(choked))) => {
            assert!(choked)
        }
        _ => panic!("choked"),
    }
    match active.receive(4, &[0, 0, 0, 0]) {
        TorrentEvent::Peer(_, _, PeerEvent::State(PeerStateEvent::FieldHave(index))) => {
            assert_eq!(index, 0)
        }
        _ => panic!("had"),
    }
    assert_eq!(active.peer_state.bitfield, Some(vec![true, true]));
}
