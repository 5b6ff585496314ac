//! A connection to a peer that can also take back its requests.

use vstd::prelude::*;
use vstd::string::*;

use crate::models::{
    PeerControlCommand, PeerEvent, PeerState, PeerStateEvent, PeerStateEventView, PeerStateView,
    TorrentEvent, TorrentEventView,
};
use crate::peer::{copy_bits, known_bits, no_bits};
use crate::wire::{
    cancel_bytes, cancel_message, handshake_names, message_fits, message_in, read_message,
    request_bytes, request_message, Message, MessageView,
};

verus! {

/// A connection to a peer before the handshake.
#[derive(Debug)]
pub struct PeerConnection {
    pub ip: String,
    pub port: u16,
}

/// A connection to a peer that has shaken hands.
#[derive(Debug)]
pub struct PeerActiveConnection {
    pub peer_conn: PeerConnection,
    pub peer_state: PeerState,
    pub piece_count: usize,
}

/// A peer that has just shaken hands.
pub open spec fn initial_state() -> PeerStateView {
    PeerStateView { handshake: true, choked: true, interested: true, bitfield: None }
}

/// What is known of a peer after a message.
pub open spec fn state_after(
    state: PeerStateView,
    message: MessageView,
    piece_count: int,
) -> PeerStateView {
    match message {
        MessageView::Choked(choked) => PeerStateView { choked, ..state },
        MessageView::Have(index) => PeerStateView {
            bitfield: Some(known_bits(state.bitfield, piece_count).update(index, true)),
            ..state
        },
        MessageView::Bitfield(bits) => PeerStateView { bitfield: Some(bits), ..state },
        MessageView::Block(_, _, _) => state,
    }
}

impl PeerConnection {
    /// A connection to a peer, and the report that it takes commands.
    pub fn new(ip: String, port: u16) -> (created: (Self, TorrentEvent))
        ensures
            created.0 == (PeerConnection { ip, port }),
            created.1@ == TorrentEventView::PeerControl(ip@, port),
    {
        let event = TorrentEvent::Peer(ip.as_str().to_owned(), port, PeerEvent::Control);
        (PeerConnection { ip, port }, event)
    }

    /// The connection to a peer that answered the handshake with `reply`, and what it
    /// reports.
    pub fn activate(
        self,
        torrent_info_hash: &[u8; 20],
        reply: &[u8],
        piece_count: usize,
    ) -> (active: (PeerActiveConnection, TorrentEvent))
        requires
            reply@.len() == 68,
            handshake_names(reply@, torrent_info_hash@),
        ensures
            active.0.wf(),
            active.0.peer_conn == self,
            active.0.peer_state@ == initial_state(),
            active.0.piece_count == piece_count,
            active.1@ == TorrentEventView::PeerState(
                self.ip@,
                self.port,
                PeerStateEventView::Init(initial_state()),
            ),
    {
        PeerActiveConnection::new(
            self,
            PeerState { handshake: true, choked: true, interested: true, bitfield: None },
            piece_count,
        )
    }
}

impl PeerActiveConnection {
    /// What is known of the pieces of the peer is known of all of them.
    pub open spec fn wf(&self) -> bool {
        self.peer_state@.bitfield is Some ==> self.peer_state@.bitfield->0.len()
            == self.piece_count
    }

    /// A connection with what is known of its peer, and the report of that.
    pub fn new(peer_conn: PeerConnection, peer_state: PeerState, piece_count: usize) -> (created: (
        Self,
        TorrentEvent,
    ))
        ensures
            created.0.peer_conn == peer_conn,
            created.0.peer_state == peer_state,
            created.0.piece_count == piece_count,
            created.1@ == TorrentEventView::PeerState(
                peer_conn.ip@,
                peer_conn.port,
                PeerStateEventView::Init(peer_state@),
            ),
    {
        let reported = peer_state.clone();
        let connection = PeerActiveConnection { peer_conn, peer_state, piece_count };
        let event = connection.send_state_event(PeerStateEvent::Init(reported));
        (connection, event)
    }

    fn send_state_event(&self, event: PeerStateEvent) -> (reported: TorrentEvent)
        ensures
            reported@ == TorrentEventView::PeerState(
                self.peer_conn.ip@,
                self.peer_conn.port,
                event@,
            ),
    {
        TorrentEvent::Peer(
            self.peer_conn.ip.as_str().to_owned(),
            self.peer_conn.port,
            PeerEvent::State(event),
        )
    }

    fn mark_choked(&mut self, choked: bool) -> (event: TorrentEvent)
        ensures
            *final(self) == (PeerActiveConnection {
                peer_state: PeerState { choked, ..old(self).peer_state },
                ..*old(self)
            }),
            event@ == TorrentEventView::PeerState(
                old(self).peer_conn.ip@,
                old(self).peer_conn.port,
                PeerStateEventView::FieldChoked(choked),
            ),
    {
        self.peer_state.choked = choked;
        self.send_state_event(PeerStateEvent::FieldChoked(choked))
    }

    fn set_peer_bitfield_index(&mut self, index: usize) -> (event: TorrentEvent)
        requires
            old(self).wf(),
            index < old(self).piece_count,
        ensures
            final(self).wf(),
            final(self).peer_conn == old(self).peer_conn,
            final(self).piece_count == old(self).piece_count,
            final(self).peer_state@ == (PeerStateView {
                bitfield: Some(
                    known_bits(
                        old(self).peer_state@.bitfield,
                        old(self).piece_count as int,
                    ).update(index as int, true),
                ),
                ..old(self).peer_state@
            }),
            event@ == TorrentEventView::PeerState(
                old(self).peer_conn.ip@,
                old(self).peer_conn.port,
                PeerStateEventView::FieldHave(index as int),
            ),
    {
        let mut bits = match self.peer_state.bitfield.take() {
            Some(bits) => bits,
            None => no_bits(self.piece_count),
        };
        bits.set(index, true);
        self.peer_state.bitfield = Some(bits);
        self.send_state_event(PeerStateEvent::FieldHave(index))
    }

    fn set_peer_bitfield(&mut self, bitfield: Vec<bool>) -> (event: TorrentEvent)
        requires
            bitfield@.len() == old(self).piece_count,
        ensures
            final(self).wf(),
            final(self).peer_conn == old(self).peer_conn,
            final(self).piece_count == old(self).piece_count,
            final(self).peer_state@ == (PeerStateView {
                bitfield: Some(bitfield@),
                ..old(self).peer_state@
            }),
            event@ == TorrentEventView::PeerState(
                old(self).peer_conn.ip@,
                old(self).peer_conn.port,
                PeerStateEventView::FieldBitfield(bitfield@),
            ),
    {
        self.peer_state.bitfield = Some(copy_bits(&bitfield));
        self.send_state_event(PeerStateEvent::FieldBitfield(bitfield))
    }

    /// What is reported of a message.
    pub open spec fn report(&self, message: MessageView) -> TorrentEventView {
        let (ip, port) = (self.peer_conn.ip@, self.peer_conn.port);
        match message {
            MessageView::Choked(choked) => TorrentEventView::PeerState(
                ip,
                port,
                PeerStateEventView::FieldChoked(choked),
            ),
            MessageView::Have(index) => TorrentEventView::PeerState(
                ip,
                port,
                PeerStateEventView::FieldHave(index),
            ),
            MessageView::Bitfield(bits) => TorrentEventView::PeerState(
                ip,
                port,
                PeerStateEventView::FieldBitfield(bits),
            ),
            MessageView::Block(index, begin, data) => TorrentEventView::Block(index, begin, data),
        }
    }

    /// Takes in a message of the peer, and reports it.
    pub fn receive(&mut self, kind: u8, payload: &[u8]) -> (event: TorrentEvent)
        requires
            old(self).wf(),
            message_fits(kind, payload@, old(self).piece_count as int),
        ensures
            final(self).wf(),
            final(self).peer_conn == old(self).peer_conn,
            final(self).piece_count == old(self).piece_count,
            final(self).peer_state@ == state_after(
                old(self).peer_state@,
                message_in(kind, payload@, old(self).piece_count as int),
                old(self).piece_count as int,
            ),
            event@ == old(self).report(
                message_in(kind, payload@, old(self).piece_count as int),
            ),
    {
        match read_message(kind, payload, self.piece_count) {
            Message::Choked(choked) => self.mark_choked(choked),
            Message::Have(index) => self.set_peer_bitfield_index(index),
            Message::Bitfield(bits) => self.set_peer_bitfield(bits),
            Message::Block(index, begin, data) => TorrentEvent::Block(index, begin, data),
        }
    }

    /// What is written to the peer for a command. `None` where the connection is shut down.
    pub fn command_message(&self, command: &PeerControlCommand) -> (message: Option<Vec<u8>>)
        ensures
            match *command {
                PeerControlCommand::PieceBlockRequest(index, begin, length) => message is Some
                    && message->0@ == request_bytes(index as int, begin as int, length as int),
                PeerControlCommand::PieceBlockCancel(index, begin, length) => message is Some
                    && message->0@ == cancel_bytes(index as int, begin as int, length as int),
                PeerControlCommand::Shutdown => message is None,
            },
    {
        match *command {
            PeerControlCommand::PieceBlockRequest(index, begin, length) => Some(
                request_message(index, begin, length),
            ),
            PeerControlCommand::PieceBlockCancel(index, begin, length) => Some(
                cancel_message(index, begin, length),
            ),
            PeerControlCommand::Shutdown => None,
        }
    }
}

} // verus!
