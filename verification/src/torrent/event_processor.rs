//! What a torrent makes of the reports of its peers.

use vstd::prelude::*;
use vstd::string::*;

use super::models::{
    a_frame_stays_whole, is_whole, piece_views, same_frame, Piece, PieceView, Torrent, TorrentView,
};
use crate::peer::{
    known_bits, window_after, ControllerEvent, Event, EventView, Metric, StateEvent, StateEventView,
};
use crate::select::lemma_chosen;
use crate::swarm::{
    all_bits_fit, bits_fit, counted, counts, find_peer, has_peer, is_at, is_followed, peer_after,
    pieces_are_counted_once, PeerView,
};

verus! {

/// The number of events after which a cycle goes on to its other work.
pub const MAX_EVENTS_PER_CYCLE: usize = 10000;

/// The pieces after some of them were had once more.
pub open spec fn with_gains(pieces: Seq<PieceView>, gained: Seq<usize>) -> Seq<PieceView> {
    Seq::new(
        pieces.len(),
        |i: int|
            if gained.contains(i as usize) {
                PieceView { have: pieces[i].have + 1, ..pieces[i] }
            } else {
                pieces[i]
            },
    )
}

/// The torrent after peer `k` reported an event. The data of a block is left to be stored.
pub open spec fn after_event(t: TorrentView, k: int, event: EventView) -> TorrentView {
    let piece_count = t.pieces.len() as int;
    match event {
        EventView::Control => TorrentView {
            peers: t.peers.update(k, PeerView { connected: true, ..t.peers[k] }),
            ..t
        },
        EventView::State(event) => TorrentView {
            peers: t.peers.update(k, peer_after(t.peers[k], event, piece_count)),
            pieces: with_gains(t.pieces, counted(t.peers[k], event, piece_count)),
            ..t
        },
        EventView::Block(_, _, _) => t,
        EventView::Metric(Metric::DownloadWindowSecond(second, count)) => TorrentView {
            downloaded_window_second: window_after(
                t.downloaded_window_second,
                second,
                count as int,
            ),
            ..t
        },
    }
}

/// A report of peer `k` that the torrent can follow: it speaks of the pieces that there are,
/// and what it counts can be counted.
pub open spec fn can_follow(t: TorrentView, k: int, event: EventView) -> bool {
    let piece_count = t.pieces.len() as int;
    match event {
        EventView::State(event) => {
            &&& is_followed(t.peers[k], event, piece_count)
            &&& forall|i: int|
                0 <= i < piece_count && counts(t.peers[k], event, piece_count, i) ==> (
                #[trigger] t.pieces[i]).have < usize::MAX
        },
        EventView::Metric(Metric::DownloadWindowSecond(second, count)) => second
            == t.downloaded_window_second.0 ==> t.downloaded_window_second.1 + count
            <= usize::MAX,
        _ => true,
    }
}

/// A report from this address and port that the torrent can follow.
pub open spec fn can_follow_from(
    t: TorrentView,
    ip: Seq<char>,
    port: u16,
    event: EventView,
) -> bool {
    forall|k: int|
        0 <= k < t.peers.len() && is_at(#[trigger] t.peers[k], ip, port) ==> can_follow(
            t,
            k,
            event,
        )
}

/// The data of a block, to be stored at its place.
#[derive(Debug)]
pub struct BlockData {
    pub piece_index: usize,
    pub begin: usize,
    pub data: Vec<u8>,
}

/// Reports of peers do not change how the parts of a torrent fit together.
pub proof fn events_keep_a_torrent_whole(t: TorrentView, k: int, event: EventView)
    requires
        is_whole(t),
        0 <= k < t.peers.len(),
        can_follow(t, k, event),
    ensures
        is_whole(after_event(t, k, event)),
        same_frame(t, after_event(t, k, event)),
{
    let after = after_event(t, k, event);
    assert forall|i: int, j: int| 0 <= i < j < after.peers.len() implies !is_at(
        #[trigger] after.peers[i],
        (#[trigger] after.peers[j]).ip,
        after.peers[j].port,
    ) by {
        assert(!is_at(t.peers[i], t.peers[j].ip, t.peers[j].port));
    }
    assert(bits_fit(t.peers[k], t.pieces.len() as int));
    assert(all_bits_fit(after.peers, after.pieces.len() as int));
    a_frame_stays_whole(t, after);
}

/// Adds one to the number of times that the pieces were had.
fn count_gains(pieces: &mut Vec<Piece>, gained: &Vec<usize>)
    requires
        forall|j: int| 0 <= j < gained@.len() ==> (#[trigger] gained@[j]) < old(pieces)@.len(),
        forall|i: int, j: int|
            0 <= i < j < gained@.len() ==> #[trigger] gained@[i] < #[trigger] gained@[j],
        forall|j: int|
            0 <= j < gained@.len() ==> old(pieces)@[#[trigger] gained@[j] as int].have
                < usize::MAX,
    ensures
        piece_views(final(pieces)@) == with_gains(piece_views(old(pieces)@), gained@),
{
    let ghost before = piece_views(pieces@);
    let length: usize = pieces.len();
    let mut j: usize = 0;
    assert(piece_views(pieces@) =~= with_gains(before, gained@.take(0)));
    while j < gained.len()
        invariant
            j <= gained@.len(),
            length == pieces@.len(),
            length == before.len(),
            forall|j: int| 0 <= j < gained@.len() ==> (#[trigger] gained@[j]) < length,
            forall|i: int, j: int|
                0 <= i < j < gained@.len() ==> #[trigger] gained@[i] < #[trigger] gained@[j],
            forall|j: int|
                0 <= j < gained@.len() ==> before[#[trigger] gained@[j] as int].have < usize::MAX,
            piece_views(pieces@) == with_gains(before, gained@.take(j as int)),
        decreases gained@.len() - j,
    {
        let index: usize = gained[j];
        let ghost so_far = piece_views(pieces@);
        proof {
            let fewer = gained@.take(j as int);
            assert(!fewer.contains(index)) by {
                if fewer.contains(index) {
                    let w = choose|w: int| 0 <= w < fewer.len() && fewer[w] == index;
                    assert(gained@[w] < gained@[j as int]);
                }
            }
            assert(so_far[index as int] == before[index as int]);
            assert(so_far[index as int] == pieces@[index as int]@);
        }
        pieces[index].have = pieces[index].have + 1;
        proof {
            let fewer = gained@.take(j as int);
            let more = gained@.take(j + 1);
            assert(more =~= fewer.push(index));
            assert forall|p: usize| #[trigger]
                more.contains(p) == (fewer.contains(p) || p == index) by {
                if fewer.contains(p) {
                    let w = choose|w: int| 0 <= w < fewer.len() && fewer[w] == p;
                    assert(more[w] == p);
                }
                assert(more[j as int] == index);
            }
            let after = piece_views(pieces@);
            assert forall|i: int| 0 <= i < before.len() implies #[trigger] after[i] == with_gains(
                before,
                more,
            )[i] by {
                assert(so_far[i] == with_gains(before, fewer)[i]);
                assert(more.contains(i as usize) == (fewer.contains(i as usize) || i == index));
                if i != index {
                    assert(after[i] == so_far[i]);
                }
            }
            assert(after =~= with_gains(before, more));
        }
        j = j + 1;
    }
    assert(gained@.take(j as int) =~= gained@);
}

/// Whether all pieces can be counted once more that a peer is not known to have.
fn can_count_missing(pieces: &Vec<Piece>, known: &Option<Vec<bool>>) -> (can: bool)
    requires
        known is Some ==> known->0@.len() == pieces@.len(),
    ensures
        can == forall|i: int|
            0 <= i < pieces@.len() && (known is None || !known->0@[i]) ==> (
            #[trigger] pieces@[i]).have < usize::MAX,
{
    let mut i: usize = 0;
    while i < pieces.len()
        invariant
            i <= pieces@.len(),
            known is Some ==> known->0@.len() == pieces@.len(),
            forall|k: int|
                0 <= k < i && (known is None || !known->0@[k]) ==> (#[trigger] pieces@[k]).have
                    < usize::MAX,
        decreases pieces@.len() - i,
    {
        let owned = match known {
            Some(bits) => bits[i],
            None => false,
        };
        if !owned && pieces[i].have == usize::MAX {
            return false;
        }
        i = i + 1;
    }
    true
}

fn check_state_report(torrent: &Torrent, k: usize, event: &StateEvent) -> (can: bool)
    requires
        torrent.wf(),
        k < torrent.peers@.len(),
    ensures
        can == can_follow(torrent@, k as int, EventView::State(event@)),
{
    let piece_count: usize = torrent.pieces.len();
    let ghost t = torrent@;
    assert(t.peers[k as int] == torrent.peers@[k as int]@);
    assert(bits_fit(t.peers[k as int], piece_count as int));
    assert forall|i: int| 0 <= i < piece_count implies (#[trigger] t.pieces[i]).have
        == torrent.pieces@[i].have by {}
    match &torrent.peers[k].state {
        None => match event {
            StateEvent::Init(state) => match &state.bitfield {
                Some(bits) => bits.len() == piece_count,
                None => true,
            },
            _ => true,
        },
        Some(state) => match event {
            StateEvent::FieldHave(index) => {
                if *index >= piece_count {
                    return false;
                }
                let owned = match &state.bitfield {
                    Some(bits) => bits[*index],
                    None => false,
                };
                assert(counts(t.peers[k as int], event@, piece_count as int, *index as int)
                    == !owned);
                assert(t.pieces[*index as int].have == torrent.pieces@[*index as int].have);
                owned || torrent.pieces[*index].have < usize::MAX
            },
            StateEvent::FieldBitfield(bits) => {
                let can = can_count_missing(&torrent.pieces, &state.bitfield);
                proof {
                    if can {
                        assert forall|i: int|
                            0 <= i < piece_count && counts(
                                t.peers[k as int],
                                event@,
                                piece_count as int,
                                i,
                            ) implies (#[trigger] t.pieces[i]).have < usize::MAX by {
                            assert(torrent.pieces@[i].have < usize::MAX);
                        }
                    } else {
                        let i = choose|i: int|
                            0 <= i < piece_count && (state.bitfield is None
                                || !state.bitfield->0@[i]) && !((#[trigger] torrent.pieces@[i]).have
                                < usize::MAX);
                        assert(counts(t.peers[k as int], event@, piece_count as int, i));
                        assert(!(t.pieces[i].have < usize::MAX));
                    }
                }
                can && piece_count <= bits.len()
            },
            _ => true,
        },
    }
}

/// Whether the torrent can follow the report of a peer: it knows the peer, the report speaks
/// of the pieces that there are, and what it counts can be counted.
pub fn check_report(torrent: &Torrent, event: &ControllerEvent) -> (can: bool)
    requires
        torrent.wf(),
    ensures
        can == (has_peer(torrent@.peers, event@.ip, event@.port) && can_follow_from(
            torrent@,
            event@.ip,
            event@.port,
            event@.event,
        )),
{
    let k: usize = match find_peer(&torrent.peers, event.ip.as_str(), event.port) {
        Some(k) => k,
        None => {
            return false;
        },
    };
    let ghost peers = torrent@.peers;
    assert(is_at(peers[k as int], event@.ip, event@.port));
    assert forall|j: int|
        0 <= j < peers.len() && is_at(#[trigger] peers[j], event@.ip, event@.port) implies j
        == k by {
        if j < k {
            assert(!is_at(peers[j], peers[k as int].ip, peers[k as int].port));
        } else if k < j {
            assert(!is_at(peers[k as int], peers[j].ip, peers[j].port));
        }
    }
    match &event.event {
        Event::State(state_event) => check_state_report(torrent, k, state_event),
        Event::Metric(Metric::DownloadWindowSecond(second, count)) => {
            let window = torrent.downloaded_window_second;
            *second != window.0 || *count <= usize::MAX - window.1
        },
        _ => true,
    }
}

/// A piece that a peer announces again is not counted again: the report can be followed even
/// where nothing more can be counted, and changes nothing.
pub proof fn a_piece_announced_again_changes_nothing(t: TorrentView, k: int, index: int)
    requires
        is_whole(t),
        0 <= k < t.peers.len(),
        t.peers[k].state is Some,
        0 <= index < t.pieces.len(),
    ensures
        ({
            let event = EventView::State(StateEventView::FieldHave(index));
            let after = after_event(t, k, event);
            can_follow(after, k, event) && after_event(after, k, event) == after
        }),
{
    let event = StateEventView::FieldHave(index);
    let after = after_event(t, k, EventView::State(event));
    let again = after_event(after, k, EventView::State(event));
    let piece_count = t.pieces.len() as int;
    assert(bits_fit(t.peers[k], piece_count));
    pieces_are_counted_once(t.peers[k], piece_count, index);
    let bits = known_bits(t.peers[k].state->0.bitfield, piece_count);
    assert(bits.update(index, true).update(index, true) =~= bits.update(index, true));
    assert(again.peers =~= after.peers);
    assert(again.pieces =~= after.pieces);
}

/// Takes in what peer `k` of the torrent reports. The data of a block is handed back, to be
/// stored.
pub fn apply_event(torrent: &mut Torrent, k: usize, event: Event) -> (block: Option<BlockData>)
    requires
        old(torrent).wf(),
        k < old(torrent).peers@.len(),
        can_follow(old(torrent)@, k as int, event@),
    ensures
        final(torrent)@ == after_event(old(torrent)@, k as int, event@),
        final(torrent).wf(),
        match event@ {
            EventView::Block(piece_index, begin, data) => block is Some && block->0.piece_index
                == piece_index && block->0.begin == begin && block->0.data@ == data,
            _ => block is None,
        },
{
    let ghost before = torrent@;
    let ghost view = event@;
    let piece_count: usize = torrent.pieces.len();
    let mut block: Option<BlockData> = None;
    assert(before.peers[k as int] == torrent.peers@[k as int]@);
    match event {
        Event::Control => {
            torrent.peers[k].connected = true;
        },
        Event::State(state_event) => {
            let ghost state_view = state_event@;
            let gained = torrent.peers[k].apply(state_event, piece_count);
            proof {
                lemma_chosen(
                    piece_count as int,
                    |i: int| counts(before.peers[k as int], state_view, piece_count as int, i),
                );
                assert forall|j: int| 0 <= j < gained@.len() implies torrent.pieces@[
                #[trigger] gained@[j] as int].have < usize::MAX by {
                    let i = gained@[j] as int;
                    assert(counts(before.peers[k as int], state_view, piece_count as int, i));
                    assert(before.pieces[i] == torrent.pieces@[i]@);
                }
            }
            count_gains(&mut torrent.pieces, &gained);
        },
        Event::Block(piece_index, begin, data) => {
            block = Some(BlockData { piece_index, begin, data });
        },
        Event::Metric(Metric::DownloadWindowSecond(second, count)) => {
            let window = torrent.downloaded_window_second;
            if second == window.0 {
                torrent.downloaded_window_second = (second, window.1 + count);
            } else if second > window.0 {
                torrent.downloaded_window_second = (second, count);
            }
        },
    }
    proof {
        let after = after_event(before, k as int, view);
        assert(torrent@.peers =~= after.peers);
        assert(torrent@ =~= after);
        events_keep_a_torrent_whole(before, k as int, view);
    }
    block
}

/// Takes in what a peer of the torrent reports. The data of a block is handed back, to be
/// stored.
pub fn process_event(torrent: &mut Torrent, event: ControllerEvent) -> (block: Option<BlockData>)
    requires
        old(torrent).wf(),
        has_peer(old(torrent)@.peers, event@.ip, event@.port),
        can_follow_from(old(torrent)@, event@.ip, event@.port, event@.event),
    ensures
        exists|k: int|
            0 <= k < old(torrent)@.peers.len() && is_at(
                #[trigger] old(torrent)@.peers[k],
                event@.ip,
                event@.port,
            ) && final(torrent)@ == after_event(old(torrent)@, k, event@.event),
        final(torrent).wf(),
        match event@.event {
            EventView::Block(piece_index, begin, data) => block is Some && block->0.piece_index
                == piece_index && block->0.begin == begin && block->0.data@ == data,
            _ => block is None,
        },
{
    let ghost before = torrent@;
    match find_peer(&torrent.peers, event.ip.as_str(), event.port) {
        Some(k) => {
            assert(is_at(before.peers[k as int], event@.ip, event@.port));
            apply_event(torrent, k, event.event)
        },
        None => None,
    }
}

/// Whether a cycle that has processed so many events takes another.
pub fn takes_another(processed_events: usize) -> (takes: bool)
    ensures
        takes == (processed_events <= MAX_EVENTS_PER_CYCLE),
{
    processed_events <= MAX_EVENTS_PER_CYCLE
}

} // verus!
