//! What is known of peers, and what their messages and reports change of it.

use vstd::prelude::*;

use crate::connection;
use crate::models::{PeerStateEventView, PeerStateView, TorrentEventView};
use crate::peer::{EventView, Metric, StateEventView, StateView};
use crate::peer;
use crate::peer_async;
use crate::select::lemma_chosen;
use crate::swarm::{
    bits_fit, counted, counts, has_peer, is_at, is_followed, new_peer, peer_after, with_peers,
    PeerView,
};
use crate::torrent::event_processor::{after_event, can_follow, with_gains};
use crate::torrent::formatter::peer_id;
use crate::torrent::models::TorrentView;
use crate::torrent_async::event_processor::{is_called, report_view};
use crate::wire::MessageView;

verus! {

/// What is known of the pieces of a peer: none where nothing is known.
pub open spec fn knows(bitfield: Option<Seq<bool>>, i: int) -> bool {
    bitfield matches Some(bits) && bits[i]
}

/// A bitfield with one more piece.
pub open spec fn is_with_piece(
    before: Option<Seq<bool>>,
    after: Option<Seq<bool>>,
    piece_count: int,
    index: int,
) -> bool {
    &&& after is Some
    &&& after->0.len() == piece_count
    &&& forall|i: int|
        0 <= i < piece_count ==> #[trigger] after->0[i] == (i == index || knows(before, i))
}

/// A peer that has shaken hands chokes the client, and nothing is known of its pieces.
pub proof fn peers_start_out_choking()
    ensures
        peer::initial_state() == (StateView {
            handshake: true,
            choked: true,
            interested: true,
            bitfield: None,
            total_downloaded: 0,
            downloaded_window_second: (0, 0),
        }),
        peer_async::initial_state() == (peer_async::StateView {
            choked: true,
            bitfield: None,
            total_downloaded: 0,
            downloaded_window_second: (0, 0),
        }),
        connection::initial_state() == (PeerStateView {
            handshake: true,
            choked: true,
            interested: true,
            bitfield: None,
        }),
{
}

/// A message changes of what is known of a peer just what it speaks of: whether it chokes the
/// client, one more piece that it has, all the pieces that it has, or how many bytes came
/// within a second.
pub proof fn messages_change_what_they_speak_of(
    state: StateView,
    message: MessageView,
    piece_count: int,
    second: u64,
)
    requires
        0 <= piece_count,
        state.bitfield is Some ==> state.bitfield->0.len() == piece_count,
        message matches MessageView::Have(index) ==> 0 <= index < piece_count,
        message matches MessageView::Block(_, _, data)
            ==> state.downloaded_window_second.1 + data.len() <= usize::MAX,
    ensures
        ({
            let after = peer::state_after(state, message, piece_count, second);
            &&& after.handshake == state.handshake
            &&& after.interested == state.interested
            &&& after.total_downloaded == state.total_downloaded
            &&& after.choked == match message {
                MessageView::Choked(choked) => choked,
                _ => state.choked,
            }
            &&& match message {
                MessageView::Have(index) => is_with_piece(
                    state.bitfield,
                    after.bitfield,
                    piece_count,
                    index,
                ),
                MessageView::Bitfield(bits) => after.bitfield == Some(bits),
                _ => after.bitfield == state.bitfield,
            }
            &&& match message {
                MessageView::Block(_, _, data) => {
                    let window = state.downloaded_window_second;
                    let count = data.len() as int;
                    &&& second < window.0 ==> after.downloaded_window_second == window
                    &&& second >= window.0 ==> after.downloaded_window_second.0 == second
                    &&& second == window.0 ==> after.downloaded_window_second.1 == window.1 + count
                    &&& second > window.0 ==> after.downloaded_window_second.1 == count
                },
                _ => after.downloaded_window_second == state.downloaded_window_second,
            }
        }),
{
}

/// So it is where nothing is counted.
pub proof fn messages_change_what_they_speak_of_everywhere(
    state: peer_async::StateView,
    other: PeerStateView,
    message: MessageView,
    piece_count: int,
)
    requires
        0 <= piece_count,
        state.bitfield is Some ==> state.bitfield->0.len() == piece_count,
        other.bitfield is Some ==> other.bitfield->0.len() == piece_count,
        message matches MessageView::Have(index) ==> 0 <= index < piece_count,
    ensures
        ({
            let after = peer_async::state_after(state, message, piece_count);
            &&& after.total_downloaded == state.total_downloaded
            &&& after.downloaded_window_second == state.downloaded_window_second
            &&& after.choked == match message {
                MessageView::Choked(choked) => choked,
                _ => state.choked,
            }
            &&& match message {
                MessageView::Have(index) => is_with_piece(
                    state.bitfield,
                    after.bitfield,
                    piece_count,
                    index,
                ),
                MessageView::Bitfield(bits) => after.bitfield == Some(bits),
                _ => after.bitfield == state.bitfield,
            }
        }),
        ({
            let after = connection::state_after(other, message, piece_count);
            &&& after.handshake == other.handshake
            &&& after.interested == other.interested
            &&& after.choked == match message {
                MessageView::Choked(choked) => choked,
                _ => other.choked,
            }
            &&& match message {
                MessageView::Have(index) => is_with_piece(
                    other.bitfield,
                    after.bitfield,
                    piece_count,
                    index,
                ),
                MessageView::Bitfield(bits) => after.bitfield == Some(bits),
                _ => after.bitfield == other.bitfield,
            }
        }),
{
}

/// A message is reported as it is, and a block with the bytes of its second as well.
pub proof fn messages_are_reported_as_they_are(state: StateView, message: MessageView)
    ensures
        ({
            let events = peer::reports(state, message);
            let event = peer_async::report(message);
            &&& events.len() == if message is Block {
                2nat
            } else {
                1nat
            }
            &&& match message {
                MessageView::Choked(choked) => {
                    &&& events[0] == EventView::State(StateEventView::FieldChoked(choked))
                    &&& event == peer_async::EventView::State(
                        peer_async::StateEventView::FieldChoked(choked),
                    )
                },
                MessageView::Have(index) => {
                    &&& events[0] == EventView::State(StateEventView::FieldHave(index))
                    &&& event == peer_async::EventView::State(
                        peer_async::StateEventView::FieldHave(index),
                    )
                },
                MessageView::Bitfield(bits) => {
                    &&& events[0] == EventView::State(StateEventView::FieldBitfield(bits))
                    &&& event == peer_async::EventView::State(
                        peer_async::StateEventView::FieldBitfield(bits),
                    )
                },
                MessageView::Block(index, begin, data) => {
                    &&& events[0] == EventView::Block(index, begin, data)
                    &&& events[1] == EventView::Metric(
                        Metric::DownloadWindowSecond(
                            state.downloaded_window_second.0,
                            state.downloaded_window_second.1,
                        ),
                    )
                    &&& event == peer_async::EventView::Block(index, begin, data)
                },
            }
        }),
{
}

/// The events of a connection name the peer that it is to.
pub proof fn connections_name_their_peer(
    controller: peer::Controller,
    events: Seq<EventView>,
    other: connection::PeerActiveConnection,
    message: MessageView,
)
    ensures
        controller.reporting(events).len() == events.len(),
        forall|i: int|
            0 <= i < events.len() ==> {
                let reported = #[trigger] controller.reporting(events)[i];
                &&& reported.ip == controller.ip@
                &&& reported.port == controller.port
                &&& reported.event == events[i]
            },
        other.report(message) == match message {
            MessageView::Choked(choked) => TorrentEventView::PeerState(
                other.peer_conn.ip@,
                other.peer_conn.port,
                PeerStateEventView::FieldChoked(choked),
            ),
            MessageView::Have(index) => TorrentEventView::PeerState(
                other.peer_conn.ip@,
                other.peer_conn.port,
                PeerStateEventView::FieldHave(index),
            ),
            MessageView::Bitfield(bits) => TorrentEventView::PeerState(
                other.peer_conn.ip@,
                other.peer_conn.port,
                PeerStateEventView::FieldBitfield(bits),
            ),
            MessageView::Block(index, begin, data) => TorrentEventView::Block(index, begin, data),
        },
{
}

/// A message can be taken in where it fits the torrent, and what it adds to the bytes of this
/// second can be counted.
pub proof fn messages_are_taken_where_they_can_be_counted(
    controller: peer::Controller,
    kind: u8,
    payload: Seq<u8>,
    second: u64,
)
    ensures
        controller.can_take(kind, payload, second) <==> {
            let window = controller.peer_state.downloaded_window_second;
            &&& crate::wire::message_fits(kind, payload, controller.piece_count as int)
            &&& kind == 7 && window.0 == second ==> window.1 + (payload.len() - 8) <= usize::MAX
        },
{
}

/// The peer differs from what it was at most in what is known of its state.
pub open spec fn same_but_state(before: PeerView, after: PeerView) -> bool {
    &&& after.ip == before.ip
    &&& after.port == before.port
    &&& after.connected == before.connected
    &&& after.started == before.started
    &&& after.last_initiated_at == before.last_initiated_at
}

/// The first report of a peer is all that is known of it, where nothing was. A later one
/// changes, where something was known, just what it speaks of. Any other changes nothing.
pub proof fn reports_change_what_they_speak_of(
    peer: PeerView,
    event: StateEventView,
    piece_count: int,
)
    requires
        0 <= piece_count,
        bits_fit(peer, piece_count),
        is_followed(peer, event, piece_count),
    ensures
        ({
            let after = peer_after(peer, event, piece_count);
            &&& same_but_state(peer, after)
            &&& match (event, peer.state) {
                (StateEventView::Init(state), None) => after.state == Some(state),
                (StateEventView::Init(_), Some(known)) => after.state == Some(known),
                (_, None) => after.state is None,
                (_, Some(known)) => {
                    let now = after.state->0;
                    &&& after.state is Some
                    &&& now.handshake == known.handshake
                    &&& now.interested == known.interested
                    &&& now.total_downloaded == known.total_downloaded
                    &&& now.downloaded_window_second == known.downloaded_window_second
                    &&& now.choked == match event {
                        StateEventView::FieldChoked(choked) => choked,
                        _ => known.choked,
                    }
                    &&& match event {
                        StateEventView::FieldHave(index) => is_with_piece(
                            known.bitfield,
                            now.bitfield,
                            piece_count,
                            index,
                        ),
                        StateEventView::FieldBitfield(bits) => {
                            &&& now.bitfield is Some
                            &&& now.bitfield->0.len() == piece_count
                            &&& forall|i: int|
                                0 <= i < piece_count ==> #[trigger] now.bitfield->0[i] == bits[i]
                        },
                        _ => now.bitfield == known.bitfield,
                    }
                },
            }
        }),
{
}

/// A report of a known peer counts a piece once more where the peer was not known to have it:
/// that of one piece counts that piece, and that of all pieces counts each of them.
pub open spec fn adds_to(peer: PeerView, event: StateEventView, i: int) -> bool {
    peer.state matches Some(known) && !knows(known.bitfield, i) && match event {
        StateEventView::FieldHave(index) => i == index,
        StateEventView::FieldBitfield(_) => true,
        _ => false,
    }
}

/// A report can be followed where it speaks of the pieces of the torrent, or does not count,
/// and no counter is full that it adds to.
pub proof fn reports_are_followed_where_they_fit(t: TorrentView, k: int, event: StateEventView)
    requires
        0 <= k < t.peers.len(),
        bits_fit(t.peers[k], t.pieces.len() as int),
    ensures
        can_follow(t, k, EventView::State(event)) <==> {
            let known = t.peers[k].state;
            &&& match event {
                StateEventView::Init(state) => known is None && state.bitfield is Some
                    ==> state.bitfield->0.len() == t.pieces.len(),
                StateEventView::FieldChoked(_) => true,
                StateEventView::FieldHave(index) => known is Some ==> 0 <= index < t.pieces.len(),
                StateEventView::FieldBitfield(bits) => known is Some ==> t.pieces.len()
                    <= bits.len(),
            }
            &&& forall|i: int|
                0 <= i < t.pieces.len() && adds_to(t.peers[k], event, i) ==> (
                #[trigger] t.pieces[i]).have < usize::MAX
        },
{
    let piece_count = t.pieces.len() as int;
    assert forall|i: int| 0 <= i < piece_count implies #[trigger] counts(
        t.peers[k],
        event,
        piece_count,
        i,
    ) == adds_to(t.peers[k], event, i) by {}
    if can_follow(t, k, EventView::State(event)) {
        assert forall|i: int| 0 <= i < piece_count && adds_to(t.peers[k], event, i) implies (
        #[trigger] t.pieces[i]).have < usize::MAX by {
            assert(counts(t.peers[k], event, piece_count, i));
        }
    } else {
        if forall|i: int|
            0 <= i < piece_count && adds_to(t.peers[k], event, i) ==> (#[trigger] t.pieces[i]).have
                < usize::MAX {
            assert forall|i: int|
                0 <= i < piece_count && counts(t.peers[k], event, piece_count, i) implies (
            #[trigger] t.pieces[i]).have < usize::MAX by {
                assert(adds_to(t.peers[k], event, i));
            }
        }
    }
}

/// What a torrent makes of a report: the peer that reports takes in what it says, the pieces
/// that it is newly known to have are counted once more, a connection that takes commands is
/// noted, bytes of one second add up. Nothing else changes.
pub proof fn torrents_take_in_what_is_reported(t: TorrentView, k: int, event: EventView)
    requires
        0 <= k < t.peers.len(),
        t.pieces.len() <= usize::MAX,
        bits_fit(t.peers[k], t.pieces.len() as int),
        can_follow(t, k, event),
    ensures
        ({
            let after = after_event(t, k, event);
            &&& after.client_id == t.client_id
            &&& after.dest_path == t.dest_path
            &&& after.hash == t.hash
            &&& after.tracker == t.tracker
            &&& after.directory == t.directory
            &&& after.files == t.files
            &&& after.blocks == t.blocks
            &&& after.peers.len() == t.peers.len()
            &&& after.pieces.len() == t.pieces.len()
            &&& forall|p: int| 0 <= p < t.peers.len() && p != k ==> #[trigger] after.peers[p]
                == t.peers[p]
            &&& match event {
                EventView::State(change) => {
                    &&& after.peers[k] == peer_after(t.peers[k], change, t.pieces.len() as int)
                    &&& forall|i: int|
                        0 <= i < t.pieces.len() ==> {
                            let piece = #[trigger] after.pieces[i];
                            &&& piece.index == t.pieces[i].index
                            &&& piece.length == t.pieces[i].length
                            &&& piece.hash == t.pieces[i].hash
                            &&& piece.have == t.pieces[i].have + if adds_to(
                                t.peers[k],
                                change,
                                i,
                            ) {
                                1int
                            } else {
                                0
                            }
                        }
                    &&& after.downloaded_window_second == t.downloaded_window_second
                },
                EventView::Control => {
                    &&& after.peers[k].connected
                    &&& after.peers[k].state == t.peers[k].state
                    &&& after.peers[k].ip == t.peers[k].ip
                    &&& after.peers[k].port == t.peers[k].port
                    &&& after.peers[k].started == t.peers[k].started
                    &&& after.peers[k].last_initiated_at == t.peers[k].last_initiated_at
                    &&& after.pieces == t.pieces
                    &&& after.downloaded_window_second == t.downloaded_window_second
                },
                EventView::Block(_, _, _) => after == t,
                EventView::Metric(Metric::DownloadWindowSecond(second, count)) => {
                    let window = t.downloaded_window_second;
                    &&& after.peers[k] == t.peers[k]
                    &&& after.pieces == t.pieces
                    &&& second < window.0 ==> after.downloaded_window_second == window
                    &&& second >= window.0 ==> after.downloaded_window_second.0 == second
                    &&& second == window.0 ==> after.downloaded_window_second.1 == window.1 + count
                    &&& second > window.0 ==> after.downloaded_window_second.1 == count
                },
            }
        }),
{
    if let EventView::State(change) = event {
        let piece_count = t.pieces.len() as int;
        let wanted = |i: int| counts(t.peers[k], change, piece_count, i);
        let gained = counted(t.peers[k], change, piece_count);
        lemma_chosen(piece_count, wanted);
        let after = after_event(t, k, event);
        assert forall|i: int| 0 <= i < piece_count implies {
            let piece = #[trigger] after.pieces[i];
            &&& piece.index == t.pieces[i].index
            &&& piece.length == t.pieces[i].length
            &&& piece.hash == t.pieces[i].hash
            &&& piece.have == t.pieces[i].have + if adds_to(t.peers[k], change, i) {
                1int
            } else {
                0
            }
        } by {
            assert(wanted((i as usize) as int) == adds_to(t.peers[k], change, i));
            if gained.contains(i as usize) {
                let j = choose|j: int| 0 <= j < gained.len() && gained[j] == i as usize;
                assert(wanted(gained[j] as int));
            }
            assert(after.pieces[i] == with_gains(t.pieces, gained)[i]);
        }
    }
}

/// A peer is told apart by its address and its port together.
pub proof fn peers_are_told_apart_by_address_and_port(peer: PeerView, ip: Seq<char>, port: u16)
    ensures
        is_at(peer, ip, port) <==> peer.ip == ip && peer.port == port,
{
}

proof fn lemma_named_peers(
    peers: Seq<PeerView>,
    named: Seq<(Seq<char>, u16)>,
    k: int,
)
    requires
        peers.len() <= k < with_peers(peers, named).len(),
    ensures
        exists|i: int|
            0 <= i < named.len() && with_peers(peers, named)[k] == (PeerView {
                ip: (#[trigger] named[i]).0,
                port: named[i].1,
                connected: false,
                state: None,
                started: false,
                last_initiated_at: None,
            }),
    decreases named.len(),
{
    let fewer = named.drop_last();
    let before = with_peers(peers, fewer);
    if k < before.len() {
        lemma_named_peers(peers, fewer, k);
        let i = choose|i: int|
            0 <= i < fewer.len() && before[k] == (PeerView {
                ip: (#[trigger] fewer[i]).0,
                port: fewer[i].1,
                connected: false,
                state: None,
                started: false,
                last_initiated_at: None,
            });
        assert(named[i] == fewer[i]);
        assert(with_peers(peers, named)[k] == before[k]);
    } else {
        let i = named.len() - 1;
        assert(named[i] == named.last());
        assert(with_peers(peers, named)[k] == new_peer(named[i].0, named[i].1));
    }
}

/// The peers that a tracker names are added behind those that are known, unless they are
/// among these: every one of them is there afterwards, no two are at the same address and
/// port, and nothing is known of those that are new. The ones that were known stay as they
/// are.
pub proof fn named_peers_are_added_once(
    peers: Seq<PeerView>,
    named: Seq<(Seq<char>, u16)>,
)
    requires
        forall|j: int, k: int|
            0 <= j < k < peers.len() ==> (#[trigger] peers[j]).ip != (#[trigger] peers[k]).ip
                || peers[j].port != peers[k].port,
    ensures
        ({
            let after = with_peers(peers, named);
            &&& peers.len() <= after.len()
            &&& forall|k: int| 0 <= k < peers.len() ==> #[trigger] after[k] == peers[k]
            &&& forall|k: int|
                peers.len() <= k < after.len() ==> {
                    let peer = #[trigger] after[k];
                    &&& named.contains((peer.ip, peer.port))
                    &&& !peer.connected
                    &&& peer.state is None
                    &&& !peer.started
                    &&& peer.last_initiated_at is None
                }
            &&& forall|i: int|
                0 <= i < named.len() ==> exists|k: int|
                    0 <= k < after.len() && (#[trigger] after[k]).ip == (#[trigger] named[i]).0
                        && after[k].port == named[i].1
            &&& forall|j: int, k: int|
                0 <= j < k < after.len() ==> (#[trigger] after[j]).ip != (#[trigger] after[k]).ip
                    || after[j].port != after[k].port
        }),
{
    let after = with_peers(peers, named);
    assert(crate::swarm::distinct(peers));
    lemma_distinct_names(peers, named);
    assert forall|k: int| peers.len() <= k < after.len() implies {
        let peer = #[trigger] after[k];
        &&& named.contains((peer.ip, peer.port))
        &&& !peer.connected
        &&& peer.state is None
        &&& !peer.started
        &&& peer.last_initiated_at is None
    } by {
        lemma_named_peers(peers, named, k);
        let i = choose|i: int|
            0 <= i < named.len() && after[k] == (PeerView {
                ip: (#[trigger] named[i]).0,
                port: named[i].1,
                connected: false,
                state: None,
                started: false,
                last_initiated_at: None,
            });
        assert(named[i] == (after[k].ip, after[k].port));
    }
    assert forall|i: int| 0 <= i < named.len() implies exists|k: int|
        0 <= k < after.len() && (#[trigger] after[k]).ip == (#[trigger] named[i]).0
            && after[k].port == named[i].1 by {
        assert(has_peer(after, named[i].0, named[i].1));
    }
    assert forall|j: int, k: int| 0 <= j < k < after.len() implies (#[trigger] after[j]).ip != (
    #[trigger] after[k]).ip || after[j].port != after[k].port by {
        assert(!is_at(after[j], after[k].ip, after[k].port));
    }
}

proof fn lemma_distinct_names(peers: Seq<PeerView>, named: Seq<(Seq<char>, u16)>)
    requires
        crate::swarm::distinct(peers),
    ensures
        crate::swarm::distinct(with_peers(peers, named)),
        peers.is_prefix_of(with_peers(peers, named)),
        peers.len() <= with_peers(peers, named).len(),
        forall|k: int| 0 <= k < peers.len() ==> #[trigger] with_peers(peers, named)[k] == peers[k],
        forall|i: int|
            0 <= i < named.len() ==> has_peer(
                with_peers(peers, named),
                (#[trigger] named[i]).0,
                named[i].1,
            ),
    decreases named.len(),
{
    if named.len() > 0 {
        let fewer = named.drop_last();
        lemma_distinct_names(peers, fewer);
        let before = with_peers(peers, fewer);
        let after = with_peers(peers, named);
        let (ip, port) = named.last();
        assert forall|j: int, k: int| 0 <= j < k < after.len() implies !is_at(
            #[trigger] after[j],
            (#[trigger] after[k]).ip,
            after[k].port,
        ) by {
            if k < before.len() {
                assert(!is_at(before[j], before[k].ip, before[k].port));
            } else {
                assert(!is_at(before[j], ip, port));
            }
        }
        assert forall|i: int| 0 <= i < named.len() implies has_peer(
            after,
            (#[trigger] named[i]).0,
            named[i].1,
        ) by {
            if i < fewer.len() {
                assert(fewer[i] == named[i]);
                let k = choose|k: int|
                    0 <= k < before.len() && is_at(#[trigger] before[k], named[i].0, named[i].1);
                assert(is_at(after[k], named[i].0, named[i].1));
            } else if !has_peer(before, ip, port) {
                assert(is_at(after[after.len() - 1], ip, port));
            }
        }
    }
}

/// What a connection that is asked reports is taken for the report of a peer that has shaken
/// hands, with the same contents.
pub proof fn asked_connections_report_the_same(event: peer_async::EventView)
    ensures
        report_view(event) == match event {
            peer_async::EventView::State(peer_async::StateEventView::Init(state)) =>
                EventView::State(
                StateEventView::Init(
                    StateView {
                        handshake: true,
                        choked: state.choked,
                        interested: true,
                        bitfield: state.bitfield,
                        total_downloaded: state.total_downloaded,
                        downloaded_window_second: state.downloaded_window_second,
                    },
                ),
            ),
            peer_async::EventView::State(peer_async::StateEventView::FieldChoked(choked)) =>
                EventView::State(StateEventView::FieldChoked(choked)),
            peer_async::EventView::State(peer_async::StateEventView::FieldHave(index)) =>
                EventView::State(StateEventView::FieldHave(index)),
            peer_async::EventView::State(peer_async::StateEventView::FieldBitfield(bits)) =>
                EventView::State(StateEventView::FieldBitfield(bits)),
            peer_async::EventView::Block(index, begin, data) => EventView::Block(
                index,
                begin,
                data,
            ),
            peer_async::EventView::Metric(
                peer_async::Metric::DownloadWindowSecond(second, count),
            ) => EventView::Metric(Metric::DownloadWindowSecond(second, count)),
        },
{
}

/// A report is taken to be from a peer just where it has the name of that peer.
pub proof fn reports_are_from_the_peer_they_name(peer: PeerView, id: Seq<char>)
    ensures
        is_called(peer, id) <==> peer_id(peer.ip, peer.port) == id,
{
}

} // verus!
