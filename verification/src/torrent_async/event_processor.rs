//! What a torrent makes of the reports of its peers.

use vstd::prelude::*;
use vstd::string::*;

use crate::peer;
use crate::peer_async;
use crate::text::same_text;
use crate::torrent::event_processor::{after_event, apply_event, can_follow};
use crate::torrent::formatter::{get_peer_id, peer_id};
use crate::torrent::models::Torrent;
use crate::swarm::PeerView;

verus! {

/// What is known of a peer that has shaken hands and is of interest.
pub open spec fn shaken(state: peer_async::StateView) -> peer::StateView {
    peer::StateView {
        handshake: true,
        choked: state.choked,
        interested: true,
        bitfield: state.bitfield,
        total_downloaded: state.total_downloaded,
        downloaded_window_second: state.downloaded_window_second,
    }
}

/// The same report, of a peer that has shaken hands.
pub open spec fn report_view(event: peer_async::EventView) -> peer::EventView {
    match event {
        peer_async::EventView::State(event) => peer::EventView::State(
            match event {
                peer_async::StateEventView::Init(state) => peer::StateEventView::Init(
                    shaken(state),
                ),
                peer_async::StateEventView::FieldChoked(
                    choked,
                ) => peer::StateEventView::FieldChoked(choked),
                peer_async::StateEventView::FieldHave(index) => peer::StateEventView::FieldHave(
                    index,
                ),
                peer_async::StateEventView::FieldBitfield(
                    bits,
                ) => peer::StateEventView::FieldBitfield(bits),
            },
        ),
        peer_async::EventView::Block(index, begin, data) => peer::EventView::Block(
            index,
            begin,
            data,
        ),
        peer_async::EventView::Metric(
            peer_async::Metric::DownloadWindowSecond(second, count),
        ) => peer::EventView::Metric(peer::Metric::DownloadWindowSecond(second, count)),
    }
}

fn report(event: peer_async::Event) -> (report: peer::Event)
    ensures
        report@ == report_view(event@),
{
    match event {
        peer_async::Event::State(event) => peer::Event::State(
            match event {
                peer_async::StateEvent::Init(state) => peer::StateEvent::Init(
                    peer::State {
                        handshake: true,
                        choked: state.choked,
                        interested: true,
                        bitfield: state.bitfield,
                        total_downloaded: state.total_downloaded,
                        downloaded_window_second: state.downloaded_window_second,
                    },
                ),
                peer_async::StateEvent::FieldChoked(choked) => peer::StateEvent::FieldChoked(
                    choked,
                ),
                peer_async::StateEvent::FieldHave(index) => peer::StateEvent::FieldHave(index),
                peer_async::StateEvent::FieldBitfield(bits) => peer::StateEvent::FieldBitfield(
                    bits,
                ),
            },
        ),
        peer_async::Event::Block(index, begin, data) => peer::Event::Block(index, begin, data),
        peer_async::Event::Metric(
            peer_async::Metric::DownloadWindowSecond(second, count),
        ) => peer::Event::Metric(peer::Metric::DownloadWindowSecond(second, count)),
    }
}

/// The peer has this name.
pub open spec fn is_called(peer: PeerView, id: Seq<char>) -> bool {
    peer_id(peer.ip, peer.port) == id
}

/// Takes in what the peer with this name reports. The data of a block is not stored.
pub fn process_event(torrent: &mut Torrent, id: &str, event: peer_async::Event)
    requires
        old(torrent).wf(),
        exists|k: int|
            0 <= k < old(torrent)@.peers.len() && is_called(
                #[trigger] old(torrent)@.peers[k],
                id@,
            ),
        forall|k: int|
            0 <= k < old(torrent)@.peers.len() && is_called(
                #[trigger] old(torrent)@.peers[k],
                id@,
            ) ==> can_follow(old(torrent)@, k, report_view(event@)),
    ensures
        exists|k: int|
            0 <= k < old(torrent)@.peers.len() && is_called(
                #[trigger] old(torrent)@.peers[k],
                id@,
            ) && final(torrent)@ == after_event(old(torrent)@, k, report_view(event@)),
        final(torrent).wf(),
{
    let ghost before = torrent@;
    let mut k: usize = 0;
    while k < torrent.peers.len() && !same_text(
        get_peer_id(torrent.peers[k].ip.as_str(), torrent.peers[k].port).as_str(),
        id,
    )
        invariant
            before == torrent@,
            *torrent == *old(torrent),
            k <= torrent.peers@.len(),
            forall|j: int| 0 <= j < k ==> !is_called(#[trigger] before.peers[j], id@),
        decreases torrent.peers@.len() - k,
    {
        assert(before.peers[k as int] == torrent.peers@[k as int]@);
        k = k + 1;
    }
    if k < torrent.peers.len() {
        assert(before.peers[k as int] == torrent.peers@[k as int]@);
        assert(is_called(before.peers[k as int], id@));
        let _ = apply_event(torrent, k, report(event));
    }
}

/// Both kinds of connections report the same of a message.
pub proof fn connections_report_alike(state: peer::StateView, message: crate::wire::MessageView)
    ensures
        report_view(peer_async::report(message)) == peer::reports(state, message)[0],
{
}

} // verus!
