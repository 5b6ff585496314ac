//! A connection to a peer that does one thing each time it is asked.

use vstd::prelude::*;
use vstd::string::*;

use crate::peer::{bitfield_view, copy_bitfield, copy_bits, known_bits, no_bits};
use crate::wire::{
    handshake_names, message_fits, message_in, read_message, request_bytes, request_message,
    Message, MessageView,
};

verus! {

/// What is known of a peer.
#[derive(Debug)]
pub struct State {
    pub choked: bool,
    pub bitfield: Option<Vec<bool>>,
    pub total_downloaded: usize,
    /// A second, and the number of bytes that came within it.
    pub downloaded_window_second: (u64, usize),
}

#[verifier::ext_equal]
pub struct StateView {
    pub choked: bool,
    pub bitfield: Option<Seq<bool>>,
    pub total_downloaded: usize,
    pub downloaded_window_second: (u64, usize),
}

impl View for State {
    type V = StateView;

    open spec fn view(&self) -> StateView {
        StateView {
            choked: self.choked,
            bitfield: bitfield_view(self.bitfield),
            total_downloaded: self.total_downloaded,
            downloaded_window_second: self.downloaded_window_second,
        }
    }
}

impl Clone for State {
    fn clone(&self) -> (copied: Self)
        ensures
            copied@ == self@,
    {
        State {
            choked: self.choked,
            bitfield: copy_bitfield(&self.bitfield),
            total_downloaded: self.total_downloaded,
            downloaded_window_second: self.downloaded_window_second,
        }
    }
}

/// A change of what is known of a peer.
pub enum StateEvent {
    Init(State),
    FieldChoked(bool),
    FieldHave(usize),
    FieldBitfield(Vec<bool>),
}

pub enum StateEventView {
    Init(StateView),
    FieldChoked(bool),
    FieldHave(int),
    FieldBitfield(Seq<bool>),
}

impl View for StateEvent {
    type V = StateEventView;

    open spec fn view(&self) -> StateEventView {
        match self {
            StateEvent::Init(state) => StateEventView::Init(state@),
            StateEvent::FieldChoked(choked) => StateEventView::FieldChoked(*choked),
            StateEvent::FieldHave(index) => StateEventView::FieldHave(*index as int),
            StateEvent::FieldBitfield(bits) => StateEventView::FieldBitfield(bits@),
        }
    }
}

/// What is measured of a connection.
#[derive(Debug, Clone, Copy, PartialEq, Eq, Structural)]
pub enum Metric {
    /// A second, and the number of bytes that came within it.
    DownloadWindowSecond(u64, usize),
}

/// What a connection is told to do.
#[derive(Debug, Clone, Copy, PartialEq, Eq, Structural)]
pub enum ControlCommand {
    /// Request the block at this place of this piece, of this length.
    PieceBlockRequest(usize, usize, usize),
    Shutdown,
}

/// What a connection reports.
pub enum Event {
    State(StateEvent),
    /// The block at this place of this piece.
    Block(usize, usize, Vec<u8>),
    Metric(Metric),
}

pub enum EventView {
    State(StateEventView),
    Block(int, int, Seq<u8>),
    Metric(Metric),
}

impl View for Event {
    type V = EventView;

    open spec fn view(&self) -> EventView {
        match self {
            Event::State(event) => EventView::State(event@),
            Event::Block(index, begin, data) => EventView::Block(
                *index as int,
                *begin as int,
                data@,
            ),
            Event::Metric(metric) => EventView::Metric(*metric),
        }
    }
}

/// What the connection does next.
#[derive(Debug)]
pub enum Action {
    /// Writes this to the peer.
    Write(Vec<u8>),
    /// Shuts the connection down.
    Shutdown,
    /// Waits for a message of the peer.
    Read,
}

/// A connection to a peer.
#[derive(Debug)]
pub struct Controller {
    pub ip: String,
    pub port: u16,
    pub peer_state: State,
    pub piece_count: usize,
    /// The commands that are left. The last one is taken first.
    pub pending_commands: Vec<ControlCommand>,
}

/// A peer that has just shaken hands.
pub open spec fn initial_state() -> StateView {
    StateView {
        choked: true,
        bitfield: None,
        total_downloaded: 0,
        downloaded_window_second: (0, 0),
    }
}

/// What is known of a peer after a message.
pub open spec fn state_after(
    state: StateView,
    message: MessageView,
    piece_count: int,
) -> StateView {
    match message {
        MessageView::Choked(choked) => StateView { choked, ..state },
        MessageView::Have(index) => StateView {
            bitfield: Some(known_bits(state.bitfield, piece_count).update(index, true)),
            ..state
        },
        MessageView::Bitfield(bits) => StateView { bitfield: Some(bits), ..state },
        MessageView::Block(_, _, _) => state,
    }
}

/// What is reported of a message.
pub open spec fn report(message: MessageView) -> EventView {
    match message {
        MessageView::Choked(choked) => EventView::State(StateEventView::FieldChoked(choked)),
        MessageView::Have(index) => EventView::State(StateEventView::FieldHave(index)),
        MessageView::Bitfield(bits) => EventView::State(StateEventView::FieldBitfield(bits)),
        MessageView::Block(index, begin, data) => EventView::Block(index, begin, data),
    }
}

impl Controller {
    /// What is known of the pieces of the peer is known of all of them.
    pub open spec fn wf(&self) -> bool {
        self.peer_state@.bitfield is Some ==> self.peer_state@.bitfield->0.len()
            == self.piece_count
    }

    /// The connection to a peer that answered the handshake with `reply`.
    pub fn new(
        ip: String,
        port: u16,
        torrent_info_hash: &[u8; 20],
        reply: &[u8],
        piece_count: usize,
    ) -> (controller: Self)
        requires
            reply@.len() == 68,
            handshake_names(reply@, torrent_info_hash@),
        ensures
            controller.wf(),
            controller.ip == ip,
            controller.port == port,
            controller.peer_state@ == initial_state(),
            controller.piece_count == piece_count,
            controller.pending_commands@ == Seq::<ControlCommand>::empty(),
    {
        Controller {
            ip,
            port,
            peer_state: State {
                choked: true,
                bitfield: None,
                total_downloaded: 0,
                downloaded_window_second: (0, 0),
            },
            piece_count,
            pending_commands: Vec::new(),
        }
    }

    /// What the connection does when it is asked: it obeys the last of its commands, and
    /// waits for a message where none is left.
    pub fn process_commands(&mut self) -> (action: Action)
        ensures
            final(self).ip == old(self).ip,
            final(self).port == old(self).port,
            final(self).peer_state == old(self).peer_state,
            final(self).piece_count == old(self).piece_count,
            old(self).pending_commands@.len() == 0 ==> action is Read
                && final(self).pending_commands@ == old(self).pending_commands@,
            old(self).pending_commands@.len() > 0 ==> {
                &&& final(self).pending_commands@ == old(self).pending_commands@.drop_last()
                &&& match old(self).pending_commands@.last() {
                    ControlCommand::PieceBlockRequest(index, begin, length) => action is Write
                        && action->Write_0@ == request_bytes(
                        index as int,
                        begin as int,
                        length as int,
                    ),
                    ControlCommand::Shutdown => action is Shutdown,
                }
            },
    {
        match self.pending_commands.pop() {
            Some(ControlCommand::PieceBlockRequest(index, begin, length)) => Action::Write(
                request_message(index, begin, length),
            ),
            Some(ControlCommand::Shutdown) => Action::Shutdown,
            None => Action::Read,
        }
    }

    /// What is known of the peer: the answer where there is nothing else to report.
    pub fn current_state(&self) -> (event: Event)
        ensures
            event@ == EventView::State(StateEventView::Init(self.peer_state@)),
    {
        Event::State(StateEvent::Init(self.peer_state.clone()))
    }

    fn mark_choked(&mut self, choked: bool) -> (event: Event)
        ensures
            *final(self) == (Controller {
                peer_state: State { choked, ..old(self).peer_state },
                ..*old(self)
            }),
            event@ == EventView::State(StateEventView::FieldChoked(choked)),
    {
        self.peer_state.choked = choked;
        Event::State(StateEvent::FieldChoked(choked))
    }

    fn set_peer_bitfield_index(&mut self, index: usize) -> (event: Event)
        requires
            old(self).wf(),
            index < old(self).piece_count,
        ensures
            final(self).wf(),
            final(self).ip == old(self).ip,
            final(self).port == old(self).port,
            final(self).piece_count == old(self).piece_count,
            final(self).pending_commands == old(self).pending_commands,
            final(self).peer_state@ == (StateView {
                bitfield: Some(
                    known_bits(
                        old(self).peer_state@.bitfield,
                        old(self).piece_count as int,
                    ).update(index as int, true),
                ),
                ..old(self).peer_state@
            }),
            event@ == EventView::State(StateEventView::FieldHave(index as int)),
    {
        let mut bits = match self.peer_state.bitfield.take() {
            Some(bits) => bits,
            None => no_bits(self.piece_count),
        };
        bits.set(index, true);
        self.peer_state.bitfield = Some(bits);
        Event::State(StateEvent::FieldHave(index))
    }

    fn set_peer_bitfield(&mut self, bitfield: Vec<bool>) -> (event: Event)
        requires
            bitfield@.len() == old(self).piece_count,
        ensures
            final(self).wf(),
            final(self).ip == old(self).ip,
            final(self).port == old(self).port,
            final(self).piece_count == old(self).piece_count,
            final(self).pending_commands == old(self).pending_commands,
            final(self).peer_state@ == (StateView {
                bitfield: Some(bitfield@),
                ..old(self).peer_state@
            }),
            event@ == EventView::State(StateEventView::FieldBitfield(bitfield@)),
    {
        self.peer_state.bitfield = Some(copy_bits(&bitfield));
        Event::State(StateEvent::FieldBitfield(bitfield))
    }

    /// Takes in a message of the peer, and reports it.
    pub fn process_peer_message(&mut self, kind: u8, payload: &[u8]) -> (event: Event)
        requires
            old(self).wf(),
            message_fits(kind, payload@, old(self).piece_count as int),
        ensures
            final(self).wf(),
            final(self).ip == old(self).ip,
            final(self).port == old(self).port,
            final(self).piece_count == old(self).piece_count,
            final(self).pending_commands == old(self).pending_commands,
            final(self).peer_state@ == state_after(
                old(self).peer_state@,
                message_in(kind, payload@, old(self).piece_count as int),
                old(self).piece_count as int,
            ),
            event@ == report(message_in(kind, payload@, old(self).piece_count as int)),
    {
        match read_message(kind, payload, self.piece_count) {
            Message::Choked(choked) => self.mark_choked(choked),
            Message::Have(index) => self.set_peer_bitfield_index(index),
            Message::Bitfield(bits) => self.set_peer_bitfield(bits),
            Message::Block(index, begin, data) => Event::Block(index, begin, data),
        }
    }
}

} // verus!
