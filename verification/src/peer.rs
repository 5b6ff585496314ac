//! A connection to a peer, with one thread that listens and one that writes.

use vstd::prelude::*;
use vstd::string::*;

use crate::wire::{
    check_message, handshake_names, message_fits, message_in, read_message, request_bytes,
    request_message, Message, MessageView,
};

verus! {

/// What is known of a peer.
#[derive(Debug)]
pub struct State {
    pub handshake: bool,
    pub choked: bool,
    pub interested: bool,
    pub bitfield: Option<Vec<bool>>,
    pub total_downloaded: usize,
    /// A second, and the number of bytes that came within it.
    pub downloaded_window_second: (u64, usize),
}

#[verifier::ext_equal]
pub struct StateView {
    pub handshake: bool,
    pub choked: bool,
    pub interested: bool,
    pub bitfield: Option<Seq<bool>>,
    pub total_downloaded: usize,
    pub downloaded_window_second: (u64, usize),
}

pub open spec fn bitfield_view(bitfield: Option<Vec<bool>>) -> Option<Seq<bool>> {
    match bitfield {
        Some(bits) => Some(bits@),
        None => None,
    }
}

impl View for State {
    type V = StateView;

    open spec fn view(&self) -> StateView {
        StateView {
            handshake: self.handshake,
            choked: self.choked,
            interested: self.interested,
            bitfield: bitfield_view(self.bitfield),
            total_downloaded: self.total_downloaded,
            downloaded_window_second: self.downloaded_window_second,
        }
    }
}

/// A copy of a bitfield.
pub fn copy_bits(bits: &Vec<bool>) -> (copied: Vec<bool>)
    ensures
        copied@ == bits@,
{
    let mut copied: Vec<bool> = Vec::new();
    let mut i: usize = 0;
    while i < bits.len()
        invariant
            i <= bits@.len(),
            copied@ == bits@.take(i as int),
        decreases bits@.len() - i,
    {
        copied.push(bits[i]);
        i = i + 1;
        assert(copied@ =~= bits@.take(i as int));
    }
    assert(bits@.take(i as int) =~= bits@);
    copied
}

/// A copy of what may be known of a bitfield.
pub fn copy_bitfield(bitfield: &Option<Vec<bool>>) -> (copied: Option<Vec<bool>>)
    ensures
        bitfield_view(copied) == bitfield_view(*bitfield),
{
    match bitfield {
        Some(bits) => Some(copy_bits(bits)),
        None => None,
    }
}

/// A bitfield of `count` pieces, none of which is there.
pub fn no_bits(count: usize) -> (bits: Vec<bool>)
    ensures
        bits@ == Seq::new(count as nat, |i: int| false),
{
    let mut bits: Vec<bool> = Vec::new();
    let mut i: usize = 0;
    while i < count
        invariant
            i <= count,
            bits@ == Seq::new(i as nat, |k: int| false),
        decreases count - i,
    {
        bits.push(false);
        i = i + 1;
        assert(bits@ =~= Seq::new(i as nat, |k: int| false));
    }
    bits
}

impl Clone for State {
    fn clone(&self) -> (copied: Self)
        ensures
            copied@ == self@,
    {
        State {
            handshake: self.handshake,
            choked: self.choked,
            interested: self.interested,
            bitfield: copy_bitfield(&self.bitfield),
            total_downloaded: self.total_downloaded,
            downloaded_window_second: self.downloaded_window_second,
        }
    }
}

/// A change of what is known of a peer.
pub enum StateEvent {
    Init(State),
    FieldChoked(bool),
    FieldHave(usize),
    FieldBitfield(Vec<bool>),
}

pub enum StateEventView {
    Init(StateView),
    FieldChoked(bool),
    FieldHave(int),
    FieldBitfield(Seq<bool>),
}

impl View for StateEvent {
    type V = StateEventView;

    open spec fn view(&self) -> StateEventView {
        match self {
            StateEvent::Init(state) => StateEventView::Init(state@),
            StateEvent::FieldChoked(choked) => StateEventView::FieldChoked(*choked),
            StateEvent::FieldHave(index) => StateEventView::FieldHave(*index as int),
            StateEvent::FieldBitfield(bits) => StateEventView::FieldBitfield(bits@),
        }
    }
}

/// What is measured of a connection.
#[derive(Debug, Clone, Copy, PartialEq, Eq, Structural)]
pub enum Metric {
    /// A second, and the number of bytes that came within it.
    DownloadWindowSecond(u64, usize),
}

/// What a connection is told to do.
#[derive(Debug, Clone, Copy, PartialEq, Eq, Structural)]
pub enum ControlCommand {
    /// Request the block at this place of this piece, of this length.
    PieceBlockRequest(usize, usize, usize),
    Shutdown,
}

/// What a connection reports.
pub enum Event {
    /// Commands are taken from now on.
    Control,
    State(StateEvent),
    /// The block at this place of this piece.
    Block(usize, usize, Vec<u8>),
    Metric(Metric),
}

pub enum EventView {
    Control,
    State(StateEventView),
    Block(int, int, Seq<u8>),
    Metric(Metric),
}

impl View for Event {
    type V = EventView;

    open spec fn view(&self) -> EventView {
        match self {
            Event::Control => EventView::Control,
            Event::State(event) => EventView::State(event@),
            Event::Block(index, begin, data) => EventView::Block(
                *index as int,
                *begin as int,
                data@,
            ),
            Event::Metric(metric) => EventView::Metric(*metric),
        }
    }
}

/// What a connection reports, and which connection it is.
pub struct ControllerEvent {
    pub ip: String,
    pub port: u16,
    pub event: Event,
}

pub struct ControllerEventView {
    pub ip: Seq<char>,
    pub port: u16,
    pub event: EventView,
}

impl View for ControllerEvent {
    type V = ControllerEventView;

    open spec fn view(&self) -> ControllerEventView {
        ControllerEventView { ip: self.ip@, port: self.port, event: self.event@ }
    }
}

pub open spec fn event_views(events: Seq<ControllerEvent>) -> Seq<ControllerEventView> {
    Seq::new(events.len(), |i: int| events[i]@)
}

/// A connection to a peer.
#[derive(Debug)]
pub struct Controller {
    pub ip: String,
    pub port: u16,
    pub peer_state: State,
    pub piece_count: usize,
}

/// A peer that has just shaken hands.
pub open spec fn initial_state() -> StateView {
    StateView {
        handshake: true,
        choked: true,
        interested: true,
        bitfield: None,
        total_downloaded: 0,
        downloaded_window_second: (0, 0),
    }
}

/// The bits that are known of a peer, none where nothing is known.
pub open spec fn known_bits(bitfield: Option<Seq<bool>>, piece_count: int) -> Seq<bool> {
    match bitfield {
        Some(bits) => bits,
        None => Seq::new(piece_count as nat, |i: int| false),
    }
}

/// The window after `count` bytes came in second `second`: bytes of one second add up, and
/// those of an earlier second no longer count.
pub open spec fn window_after(window: (u64, usize), second: u64, count: int) -> (u64, usize) {
    if window.0 == second {
        (second, (window.1 + count) as usize)
    } else if window.0 < second {
        (second, count as usize)
    } else {
        window
    }
}

/// What is known of a peer after a message.
pub open spec fn state_after(
    state: StateView,
    message: MessageView,
    piece_count: int,
    second: u64,
) -> StateView {
    match message {
        MessageView::Choked(choked) => StateView { choked, ..state },
        MessageView::Have(index) => StateView {
            bitfield: Some(known_bits(state.bitfield, piece_count).update(index, true)),
            ..state
        },
        MessageView::Bitfield(bits) => StateView { bitfield: Some(bits), ..state },
        MessageView::Block(_, _, data) => StateView {
            downloaded_window_second: window_after(
                state.downloaded_window_second,
                second,
                data.len() as int,
            ),
            ..state
        },
    }
}

/// What is reported of a message, where `state` is what is known after it.
pub open spec fn reports(state: StateView, message: MessageView) -> Seq<EventView> {
    match message {
        MessageView::Choked(choked) => seq![
            EventView::State(StateEventView::FieldChoked(choked)),
        ],
        MessageView::Have(index) => seq![EventView::State(StateEventView::FieldHave(index))],
        MessageView::Bitfield(bits) => seq![
            EventView::State(StateEventView::FieldBitfield(bits)),
        ],
        MessageView::Block(index, begin, data) => seq![
            EventView::Block(index, begin, data),
            EventView::Metric(
                Metric::DownloadWindowSecond(
                    state.downloaded_window_second.0,
                    state.downloaded_window_second.1,
                ),
            ),
        ],
    }
}

impl Controller {
    /// What is known of the pieces of the peer is known of all of them.
    pub open spec fn wf(&self) -> bool {
        self.peer_state@.bitfield is Some ==> self.peer_state@.bitfield->0.len()
            == self.piece_count
    }

    /// The message can be taken in when it comes in this second: it fits, and what it adds to
    /// the second can be counted.
    pub open spec fn can_take(&self, kind: u8, payload: Seq<u8>, second: u64) -> bool {
        let window = self.peer_state.downloaded_window_second;
        &&& message_fits(kind, payload, self.piece_count as int)
        &&& message_in(kind, payload, self.piece_count as int) matches MessageView::Block(
            _,
            _,
            data,
        ) ==> window.0 == second ==> window.1 + data.len() <= usize::MAX
    }

    /// This connection, reporting these events.
    pub open spec fn reporting(&self, events: Seq<EventView>) -> Seq<ControllerEventView> {
        Seq::new(
            events.len(),
            |i: int| ControllerEventView { ip: self.ip@, port: self.port, event: events[i] },
        )
    }

    /// The connection to a peer that answered the handshake with `reply`, and what it
    /// reports.
    pub fn new(
        ip: String,
        port: u16,
        torrent_info_hash: &[u8; 20],
        reply: &[u8],
        piece_count: usize,
    ) -> (created: (Self, ControllerEvent))
        requires
            reply@.len() == 68,
            handshake_names(reply@, torrent_info_hash@),
        ensures
            created.0.wf(),
            created.0.ip == ip,
            created.0.port == port,
            created.0.peer_state@ == initial_state(),
            created.0.piece_count == piece_count,
            created.1@ == (ControllerEventView {
                ip: ip@,
                port,
                event: EventView::State(StateEventView::Init(initial_state())),
            }),
    {
        let controller = Controller {
            ip,
            port,
            peer_state: State {
                handshake: true,
                choked: true,
                interested: true,
                bitfield: None,
                total_downloaded: 0,
                downloaded_window_second: (0, 0),
            },
            piece_count,
        };
        let event = controller.send_event(
            Event::State(StateEvent::Init(controller.peer_state.clone())),
        );
        (controller, event)
    }

    /// An event, reported by this connection.
    pub fn send_event(&self, event: Event) -> (reported: ControllerEvent)
        ensures
            reported@ == (ControllerEventView { ip: self.ip@, port: self.port, event: event@ }),
    {
        ControllerEvent { ip: self.ip.as_str().to_owned(), port: self.port, event }
    }

    fn mark_choked(&mut self, choked: bool) -> (event: ControllerEvent)
        ensures
            *final(self) == (Controller {
                peer_state: State { choked, ..old(self).peer_state },
                ..*old(self)
            }),
            event@ == (ControllerEventView {
                ip: old(self).ip@,
                port: old(self).port,
                event: EventView::State(StateEventView::FieldChoked(choked)),
            }),
    {
        self.peer_state.choked = choked;
        self.send_event(Event::State(StateEvent::FieldChoked(choked)))
    }

    fn set_peer_bitfield_index(&mut self, index: usize) -> (event: ControllerEvent)
        requires
            old(self).wf(),
            index < old(self).piece_count,
        ensures
            final(self).wf(),
            final(self).ip == old(self).ip,
            final(self).port == old(self).port,
            final(self).piece_count == old(self).piece_count,
            final(self).peer_state@ == (StateView {
                bitfield: Some(
                    known_bits(
                        old(self).peer_state@.bitfield,
                        old(self).piece_count as int,
                    ).update(index as int, true),
                ),
                ..old(self).peer_state@
            }),
            event@ == (ControllerEventView {
                ip: old(self).ip@,
                port: old(self).port,
                event: EventView::State(StateEventView::FieldHave(index as int)),
            }),
    {
        let mut bits = match self.peer_state.bitfield.take() {
            Some(bits) => bits,
            None => no_bits(self.piece_count),
        };
        bits.set(index, true);
        self.peer_state.bitfield = Some(bits);
        self.send_event(Event::State(StateEvent::FieldHave(index)))
    }

    fn set_peer_bitfield(&mut self, bitfield: Vec<bool>) -> (event: ControllerEvent)
        requires
            bitfield@.len() == old(self).piece_count,
        ensures
            final(self).wf(),
            final(self).ip == old(self).ip,
            final(self).port == old(self).port,
            final(self).piece_count == old(self).piece_count,
            final(self).peer_state@ == (StateView {
                bitfield: Some(bitfield@),
                ..old(self).peer_state@
            }),
            event@ == (ControllerEventView {
                ip: old(self).ip@,
                port: old(self).port,
                event: EventView::State(StateEventView::FieldBitfield(bitfield@)),
            }),
    {
        self.peer_state.bitfield = Some(copy_bits(&bitfield));
        self.send_event(Event::State(StateEvent::FieldBitfield(bitfield)))
    }

    /// Whether a message that came in second `second` can be taken in.
    pub fn check_message(&self, kind: u8, payload: &[u8], second: u64) -> (can: bool)
        ensures
            can == self.can_take(kind, payload@, second),
    {
        if !check_message(kind, payload, self.piece_count) {
            return false;
        }
        let window = self.peer_state.downloaded_window_second;
        kind != 7 || window.0 != second || payload.len() - 8 <= usize::MAX - window.1
    }

    /// Takes in a message of the peer that came in second `second`, and reports it.
    pub fn receive(&mut self, kind: u8, payload: &[u8], second: u64) -> (events: Vec<
        ControllerEvent,
    >)
        requires
            old(self).wf(),
            old(self).can_take(kind, payload@, second),
        ensures
            final(self).wf(),
            final(self).ip == old(self).ip,
            final(self).port == old(self).port,
            final(self).piece_count == old(self).piece_count,
            final(self).peer_state@ == state_after(
                old(self).peer_state@,
                message_in(kind, payload@, old(self).piece_count as int),
                old(self).piece_count as int,
                second,
            ),
            event_views(events@) == old(self).reporting(
                reports(
                    final(self).peer_state@,
                    message_in(kind, payload@, old(self).piece_count as int),
                ),
            ),
    {
        let mut events: Vec<ControllerEvent> = Vec::new();
        let message = read_message(kind, payload, self.piece_count);
        let ghost view = message@;
        match message {
            Message::Choked(choked) => {
                events.push(self.mark_choked(choked));
            },
            Message::Have(index) => {
                events.push(self.set_peer_bitfield_index(index));
            },
            Message::Bitfield(bits) => {
                events.push(self.set_peer_bitfield(bits));
            },
            Message::Block(index, begin, data) => {
                let count: usize = data.len();
                events.push(self.send_event(Event::Block(index, begin, data)));
                let window = self.peer_state.downloaded_window_second;
                if window.0 == second {
                    self.peer_state.downloaded_window_second = (second, window.1 + count);
                } else if window.0 < second {
                    self.peer_state.downloaded_window_second = (second, count);
                }
                let window = self.peer_state.downloaded_window_second;
                events.push(
                    self.send_event(
                        Event::Metric(Metric::DownloadWindowSecond(window.0, window.1)),
                    ),
                );
            },
        }
        assert(event_views(events@) =~= old(self).reporting(reports(self.peer_state@, view)));
        events
    }

    /// What is written to the peer for a command. `None` where the connection is shut down.
    pub fn request(&self, command: &ControlCommand) -> (message: Option<Vec<u8>>)
        ensures
            match *command {
                ControlCommand::PieceBlockRequest(index, begin, length) => message is Some
                    && message->0@ == request_bytes(index as int, begin as int, length as int),
                ControlCommand::Shutdown => message is None,
            },
    {
        match *command {
            ControlCommand::PieceBlockRequest(index, begin, length) => Some(
                request_message(index, begin, length),
            ),
            ControlCommand::Shutdown => None,
        }
    }
}

} // verus!
