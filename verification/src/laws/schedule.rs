//! Which blocks are requested, and from whom, said of the fields of blocks and peers.

use vstd::prelude::*;

use crate::order::key_at_most;
use crate::round::{
    after_request, can_step, is_running, new_round, next_step, RoundView, StepView, Wanted,
};
use crate::select::{chosen, lemma_chosen};
use crate::swarm::{can_start, offering, offers, started_before, starting, PeerView};
use crate::torrent::models::{BlockStatusView, BlockView, TorrentView};
use crate::torrent::scheduler::{
    closed_peers, due_blocks, due_blocks_are_rarest_first, is_due, is_outstanding, open_connections,
    outstanding_count, rarity, requested_before, scheduler_after, wanted_blocks, with_request,
    with_reset_peers, CONCURRENT_PEERS, Scheduler,
};

verus! {

/// The peer is connected, is known not to choke the client, and is known to have the piece.
pub open spec fn serves(peer: PeerView, piece_index: int) -> bool {
    peer.connected && (peer.state matches Some(state) && !state.choked && (
    state.bitfield matches Some(bits) && bits[piece_index]))
}

/// Every request goes to a peer that is connected, does not choke the client and has the
/// piece of the block, and is for the block whose turn it is. It is to the peers in their
/// order, and no peer that serves the block is passed over when it comes to its turn.
pub proof fn requests_go_to_peers_that_serve_the_block(
    round: RoundView,
    peers: Seq<PeerView>,
    piece_count: int,
    now: u128,
)
    requires
        is_running(round, peers, piece_count),
        peers.len() <= usize::MAX,
    ensures
        next_step(round, peers, now).2 matches StepView::Request(k, block) ==> {
            &&& 0 <= k < peers.len()
            &&& peers[k].connected
            &&& peers[k].state is Some
            &&& !peers[k].state->0.choked
            &&& peers[k].state->0.bitfield is Some
            &&& peers[k].state->0.bitfield->0[block.piece_index as int]
            &&& next_step(round, peers, now).1 == peers
            &&& round.turn < round.asked.len() ==> {
                &&& k == round.asked[round.turn]
                &&& block == round.blocks[round.next_block - 1]
                &&& next_step(round, peers, now).0 == round
            }
            &&& round.turn >= round.asked.len() ==> {
                let moved = next_step(round, peers, now).0;
                &&& block == round.blocks[round.next_block]
                &&& forall|p: int|
                    0 <= p < peers.len() && serves(
                        #[trigger] peers[p],
                        block.piece_index as int,
                    ) ==> k <= p && moved.asked.contains(p as usize)
                &&& forall|i: int|
                    0 <= i < moved.asked.len() ==> (#[trigger] moved.asked[i]) < peers.len()
                        && serves(peers[moved.asked[i] as int], block.piece_index as int)
                &&& forall|i: int, j: int|
                    0 <= i < j < moved.asked.len() ==> #[trigger] moved.asked[i]
                        < #[trigger] moved.asked[j]
                &&& moved.turn == 0
                &&& moved.next_block == round.next_block + 1
                &&& moved.blocks == round.blocks
                &&& moved.end_game_mode == round.end_game_mode
                &&& moved.concurrent_peers == round.concurrent_peers
            }
        },
{
    if round.turn >= round.asked.len() && round.next_block < round.blocks.len() {
        let block = round.blocks[round.next_block];
        let piece_index = block.piece_index as int;
        let wanted = |k: int| offers(peers[k], piece_index);
        let asked = offering(peers, piece_index);
        lemma_chosen(peers.len() as int, wanted);
        if asked.len() > 0 {
            assert(wanted(asked[0] as int));
            assert forall|p: int|
                0 <= p < peers.len() && serves(#[trigger] peers[p], piece_index) implies asked[0]
                <= p && asked.contains(p as usize) by {
                assert(wanted((p as usize) as int));
                assert(asked.contains(p as usize));
                let j = choose|j: int| 0 <= j < asked.len() && asked[j] == p as usize;
                assert(j > 0 ==> asked[0] < asked[j]);
            }
            assert forall|i: int| 0 <= i < asked.len() implies (#[trigger] asked[i]) < peers.len()
                && serves(peers[asked[i] as int], piece_index) by {
                assert(wanted(asked[i] as int));
            }
        }
    }
}

/// A connection may be started to the peer: there is none, and none was tried within the last
/// six seconds.
pub open spec fn may_start(peer: PeerView, now: u128) -> bool {
    !peer.connected && match peer.last_initiated_at {
        None => true,
        Some(at) => now - at > 6000000000,
    }
}

/// Connections are started just where it is the turn of a block that no peer serves: to the
/// first peers that may be, as many as are started at a time or as there are. Those are noted
/// as started now, and nothing else changes.
pub proof fn connections_are_started_where_nobody_serves_the_block(
    round: RoundView,
    peers: Seq<PeerView>,
    now: u128,
)
    requires
        0 <= round.turn <= round.asked.len(),
        0 <= round.next_block <= round.blocks.len(),
        0 <= round.concurrent_peers,
        peers.len() <= usize::MAX,
    ensures
        next_step(round, peers, now).2 is Start <==> round.turn == round.asked.len()
            && round.next_block < round.blocks.len() && forall|p: int|
            0 <= p < peers.len() ==> !serves(
                #[trigger] peers[p],
                round.blocks[round.next_block].piece_index as int,
            ),
        next_step(round, peers, now).2 matches StepView::Start(list) ==> {
            let (moved, after, _) = next_step(round, peers, now);
            &&& list.len() <= round.concurrent_peers
            &&& forall|i: int|
                0 <= i < list.len() ==> (#[trigger] list[i]) < peers.len() && may_start(
                    peers[list[i] as int],
                    now,
                )
            &&& forall|i: int, j: int|
                0 <= i < j < list.len() ==> #[trigger] list[i] < #[trigger] list[j]
            &&& forall|p: int|
                0 <= p < peers.len() && may_start(#[trigger] peers[p], now) && !list.contains(
                    p as usize,
                ) ==> list.len() == round.concurrent_peers && forall|i: int|
                    0 <= i < list.len() ==> #[trigger] list[i] < p
            &&& after.len() == peers.len()
            &&& forall|p: int|
                0 <= p < peers.len() ==> #[trigger] after[p] == if list.contains(p as usize) {
                    PeerView { started: true, last_initiated_at: Some(now), ..peers[p] }
                } else {
                    peers[p]
                }
            &&& moved.asked.len() == 0
            &&& moved.turn == 0
            &&& moved.next_block == round.next_block + 1
            &&& moved.blocks == round.blocks
        },
{
    if round.turn == round.asked.len() && round.next_block < round.blocks.len() {
        let piece_index = round.blocks[round.next_block].piece_index as int;
        let wanted = |k: int| offers(peers[k], piece_index);
        let asked = offering(peers, piece_index);
        lemma_chosen(peers.len() as int, wanted);
        if asked.len() > 0 {
            assert(wanted(asked[0] as int));
            assert(serves(peers[asked[0] as int], piece_index));
        } else {
            assert forall|p: int| 0 <= p < peers.len() implies !serves(
                #[trigger] peers[p],
                piece_index,
            ) by {
                if serves(peers[p], piece_index) {
                    assert(wanted((p as usize) as int));
                    assert(asked.contains(p as usize));
                }
            }
            let can = |k: int| can_start(peers[k], now);
            let all = chosen(peers.len() as int, can);
            let list = starting(peers, now, round.concurrent_peers);
            lemma_chosen(peers.len() as int, can);
            assert forall|i: int| 0 <= i < list.len() implies (#[trigger] list[i]) < peers.len()
                && may_start(peers[list[i] as int], now) by {
                assert(list[i] == all[i]);
                assert(can(all[i] as int));
            }
            assert forall|i: int, j: int| 0 <= i < j < list.len() implies #[trigger] list[i]
                < #[trigger] list[j] by {
                assert(list[i] == all[i] && list[j] == all[j]);
            }
            assert forall|p: int|
                0 <= p < peers.len() && may_start(#[trigger] peers[p], now) && !list.contains(
                    p as usize,
                ) implies list.len() == round.concurrent_peers && forall|i: int|
                0 <= i < list.len() ==> #[trigger] list[i] < p by {
                assert(can((p as usize) as int));
                assert(all.contains(p as usize));
                let j = choose|j: int| 0 <= j < all.len() && all[j] == p as usize;
                if j < list.len() {
                    assert(list[j] == p as usize);
                }
                assert forall|i: int| 0 <= i < list.len() implies #[trigger] list[i] < p by {
                    assert(list[i] == all[i]);
                    assert(all[i] < all[j]);
                }
            }
        }
    }
}

/// A round is over just when every block had its turn and nobody is left to be asked.
pub proof fn rounds_are_over_when_all_blocks_had_their_turn(
    round: RoundView,
    peers: Seq<PeerView>,
    now: u128,
)
    requires
        0 <= round.turn <= round.asked.len(),
        0 <= round.next_block <= round.blocks.len(),
    ensures
        next_step(round, peers, now).2 is Done <==> round.turn == round.asked.len()
            && round.next_block == round.blocks.len(),
        next_step(round, peers, now).2 is Done ==> next_step(round, peers, now).0 == round
            && next_step(round, peers, now).1 == peers,
{
}

/// A round starts with nobody asked and no block past its turn.
pub proof fn rounds_start_at_their_first_block(
    blocks: Seq<Wanted>,
    end_game_mode: bool,
    concurrent_peers: int,
)
    ensures
        new_round(blocks, end_game_mode, concurrent_peers) == (RoundView {
            blocks,
            next_block: 0,
            asked: Seq::empty(),
            turn: 0,
            end_game_mode,
            concurrent_peers,
        }),
{
    assert(new_round(blocks, end_game_mode, concurrent_peers).asked =~= Seq::empty());
}

/// A request that went out leaves the peers alone, and is the last for its block outside the
/// end game. After one that did not go out the peer that was asked is taken to be neither
/// connected nor known, and the next one has its turn.
pub proof fn requests_that_fail_give_up_the_peer(
    round: RoundView,
    peers: Seq<PeerView>,
    sent: bool,
)
    requires
        0 <= round.turn < round.asked.len(),
        round.asked[round.turn] < peers.len(),
    ensures
        ({
            let (after, known) = after_request(round, peers, sent);
            let asked = round.asked[round.turn] as int;
            &&& after.turn == if sent && !round.end_game_mode {
                round.asked.len() as int
            } else {
                round.turn + 1
            }
            &&& after == RoundView { turn: after.turn, ..round }
            &&& known.len() == peers.len()
            &&& sent ==> known == peers
            &&& !sent ==> {
                &&& !known[asked].connected
                &&& known[asked].state is None
                &&& known[asked].ip == peers[asked].ip
                &&& known[asked].port == peers[asked].port
                &&& known[asked].started == peers[asked].started
                &&& known[asked].last_initiated_at == peers[asked].last_initiated_at
            }
            &&& forall|p: int|
                0 <= p < peers.len() && p != asked ==> #[trigger] known[p] == peers[p]
        }),
{
}

/// A block that was requested is noted with the time of the request, and nothing but it and
/// the peer changes. One whose request did not go out stays as it is.
pub proof fn requests_are_noted(t: TorrentView, round: RoundView, sent: bool, now: u128)
    requires
        0 <= round.turn < round.asked.len(),
        round.asked[round.turn] < t.peers.len(),
        0 < round.next_block <= round.blocks.len(),
        round.blocks[round.next_block - 1].position < t.blocks.len(),
    ensures
        ({
            let after = with_request(t, round, sent, now);
            let position = round.blocks[round.next_block - 1].position as int;
            &&& after.blocks.len() == t.blocks.len()
            &&& forall|i: int|
                0 <= i < t.blocks.len() ==> #[trigger] after.blocks[i] == if sent && i == position {
                    BlockView {
                        file_index: t.blocks[i].file_index,
                        piece_index: t.blocks[i].piece_index,
                        begin: t.blocks[i].begin,
                        length: t.blocks[i].length,
                        data_status: BlockStatusView::Requested(now),
                        verified: t.blocks[i].verified,
                    }
                } else {
                    t.blocks[i]
                }
            &&& sent ==> after.peers == t.peers
            &&& !sent ==> {
                let asked = round.asked[round.turn] as int;
                &&& !after.peers[asked].connected
                &&& after.peers[asked].state is None
                &&& forall|p: int|
                    0 <= p < t.peers.len() && p != asked ==> #[trigger] after.peers[p]
                        == t.peers[p]
            }
            &&& after.files == t.files
            &&& after.pieces == t.pieces
            &&& after.dest_path == t.dest_path
            &&& after.hash == t.hash
            &&& after.tracker == t.tracker
            &&& after.client_id == t.client_id
            &&& after.directory == t.directory
            &&& after.downloaded_window_second == t.downloaded_window_second
        }),
{
}

/// The data of the block is to be asked for: it never was, or more than six seconds ago.
pub open spec fn may_be_requested(block: BlockView, now: u128) -> bool {
    match block.data_status {
        BlockStatusView::Pending => true,
        BlockStatusView::Requested(at) => now - at > 6000000000,
        BlockStatusView::PersistedSeparately(_) => false,
        BlockStatusView::PersistedInFile => false,
    }
}

/// How often the piece of a block was had.
pub open spec fn had(t: TorrentView, i: int) -> int {
    t.pieces[t.blocks[i].piece_index].have
}

/// A block of a round comes before another: its piece was had less often, or as often and it
/// stands before it.
pub open spec fn is_rarer(t: TorrentView, i: int, j: int) -> bool {
    had(t, i) < had(t, j) || (had(t, i) == had(t, j) && i < j)
}

/// The blocks of a round are blocks of the torrent that may be requested, those of the rarest
/// pieces first: each once, as many as there may be or as there are, and none is left out for
/// one that is less rare.
pub proof fn rounds_are_of_the_rarest_blocks(t: TorrentView, now: u128, max: int)
    requires
        0 <= max,
        t.blocks.len() <= usize::MAX,
        forall|i: int|
            0 <= i < t.blocks.len() ==> {
                let block = #[trigger] t.blocks[i];
                &&& 0 <= block.piece_index < t.pieces.len() <= usize::MAX
                &&& 0 <= block.begin <= usize::MAX
                &&& 0 <= block.length <= usize::MAX
            },
        forall|p: int|
            0 <= p < t.pieces.len() ==> 0 <= (#[trigger] t.pieces[p]).have <= usize::MAX,
    ensures
        ({
            let wanted = wanted_blocks(t, now, max);
            &&& wanted.len() <= max
            &&& forall|k: int|
                0 <= k < wanted.len() ==> {
                    let block = #[trigger] wanted[k];
                    &&& block.position < t.blocks.len()
                    &&& may_be_requested(t.blocks[block.position as int], now)
                    &&& block.piece_index == t.blocks[block.position as int].piece_index
                    &&& block.begin == t.blocks[block.position as int].begin
                    &&& block.length == t.blocks[block.position as int].length
                }
            &&& forall|j: int, k: int|
                0 <= j < k < wanted.len() ==> is_rarer(
                    t,
                    (#[trigger] wanted[j]).position as int,
                    (#[trigger] wanted[k]).position as int,
                )
            &&& forall|i: int|
                #![trigger t.blocks[i]]
                0 <= i < t.blocks.len() && may_be_requested(t.blocks[i], now) && (forall|k: int|
                    0 <= k < wanted.len() ==> (#[trigger] wanted[k]).position != i)
                    ==> wanted.len() == max && forall|k: int|
                    0 <= k < wanted.len() ==> is_rarer(
                        t,
                        (#[trigger] wanted[k]).position as int,
                        i,
                    )
        }),
{
    let wanted = wanted_blocks(t, now, max);
    let due = due_blocks(t, now);
    let keys = rarity(t);
    let leq = |a: usize, b: usize| key_at_most(keys, a, b);
    let positions = chosen(
        t.blocks.len() as int,
        |i: int| is_due(t.blocks[i].data_status, now),
    );
    due_blocks_are_rarest_first(t, now);
    positions.lemma_sort_by_ensures(leq);
    assert forall|j: int, k: int| 0 <= j < k < due.len() implies is_rarer(
        t,
        #[trigger] due[j] as int,
        #[trigger] due[k] as int,
    ) by {
        assert(leq(due[j], due[k]));
        assert(due.contains(due[j]) && due.contains(due[k]));
        assert(is_due(t.blocks[due[j] as int].data_status, now));
        assert(is_due(t.blocks[due[k] as int].data_status, now));
        assert(due[j] != due[k]);
    }
    assert forall|k: int| 0 <= k < wanted.len() implies {
        let block = #[trigger] wanted[k];
        &&& block.position == due[k]
        &&& block.position < t.blocks.len()
        &&& may_be_requested(t.blocks[block.position as int], now)
        &&& block.piece_index == t.blocks[block.position as int].piece_index
        &&& block.begin == t.blocks[block.position as int].begin
        &&& block.length == t.blocks[block.position as int].length
    } by {
        assert(wanted[k].position == due[k]);
        assert(due.contains(due[k]));
        assert(is_due(t.blocks[due[k] as int].data_status, now));
    }
    assert forall|j: int, k: int| 0 <= j < k < wanted.len() implies is_rarer(
        t,
        (#[trigger] wanted[j]).position as int,
        (#[trigger] wanted[k]).position as int,
    ) by {
        assert(is_rarer(t, due[j] as int, due[k] as int));
    }
    assert forall|i: int|
        #![trigger t.blocks[i]]
        0 <= i < t.blocks.len() && may_be_requested(t.blocks[i], now) && (forall|k: int|
            0 <= k < wanted.len() ==> (#[trigger] wanted[k]).position != i) implies wanted.len()
        == max && forall|k: int|
        0 <= k < wanted.len() ==> is_rarer(t, (#[trigger] wanted[k]).position as int, i) by {
        let p = i as usize;
        assert(is_due(t.blocks[p as int].data_status, now));
        assert(due.contains(p));
        let j = choose|j: int| 0 <= j < due.len() && due[j] == p;
        if j < wanted.len() {
            assert(wanted[j].position == i);
        }
        assert forall|k: int| 0 <= k < wanted.len() implies is_rarer(
            t,
            (#[trigger] wanted[k]).position as int,
            i,
        ) by {
            assert(is_rarer(t, due[k] as int, due[j] as int));
        }
    }
}

/// The number of blocks, among the first `n`, whose data is neither in a file of its own nor
/// in the file that it is a part of.
pub open spec fn number_missing(blocks: Seq<BlockView>, n: int) -> nat
    decreases n,
{
    if n <= 0 {
        0
    } else {
        number_missing(blocks, n - 1) + match blocks[n - 1].data_status {
            BlockStatusView::Pending => 1nat,
            BlockStatusView::Requested(_) => 1nat,
            BlockStatusView::PersistedSeparately(_) => 0nat,
            BlockStatusView::PersistedInFile => 0nat,
        }
    }
}

proof fn lemma_number_missing(t: TorrentView, n: int)
    requires
        0 <= n <= t.blocks.len(),
    ensures
        chosen(n, |i: int| is_outstanding(t.blocks[i].data_status)).len() == number_missing(
            t.blocks,
            n,
        ),
    decreases n,
{
    if n > 0 {
        lemma_number_missing(t, n - 1);
    }
}

/// What is still to come is counted block by block.
pub proof fn missing_blocks_are_counted(t: TorrentView)
    ensures
        outstanding_count(t) == number_missing(t.blocks, t.blocks.len() as int),
{
    lemma_number_missing(t, t.blocks.len() as int);
}

/// Three connections are started at a time, until fewer than three blocks are missing: then
/// it is ten, and every peer is asked for every block. That stays so.
pub proof fn the_end_game_begins_below_three_blocks(scheduler: Scheduler, missing: nat)
    ensures
        CONCURRENT_PEERS == 3,
        missing == 1 || missing == 2 ==> scheduler_after(scheduler, missing) == (Scheduler {
            end_game_mode: true,
            concurrent_peers: 10,
        }),
        missing == 0 || missing >= 3 ==> scheduler_after(scheduler, missing) == scheduler,
{
}

/// The clock serves where no block was requested, and no connection tried, later than now.
pub proof fn clocks_are_held_to_what_was_noted(
    blocks: Seq<BlockView>,
    peers: Seq<PeerView>,
    now: u128,
)
    ensures
        requested_before(blocks, now) <==> forall|i: int|
            0 <= i < blocks.len() && (#[trigger] blocks[i]).data_status is Requested
                ==> blocks[i].data_status->Requested_0 <= now,
        started_before(peers, now) <==> forall|k: int|
            0 <= k < peers.len() && !(#[trigger] peers[k]).connected
                && peers[k].last_initiated_at is Some ==> peers[k].last_initiated_at->0 <= now,
{
    if requested_before(blocks, now) {
        assert forall|i: int|
            0 <= i < blocks.len() && (#[trigger] blocks[i]).data_status is Requested implies
            blocks[i].data_status->Requested_0 <= now by {}
    }
}

/// The clock matters to a step just where it is the turn of a block that no peer serves.
pub proof fn clocks_matter_where_connections_are_started(
    round: RoundView,
    peers: Seq<PeerView>,
    now: u128,
)
    requires
        peers.len() <= usize::MAX,
    ensures
        ({
            let turned_back = exists|k: int|
                0 <= k < peers.len() && !(#[trigger] peers[k]).connected
                    && peers[k].last_initiated_at is Some && peers[k].last_initiated_at->0 > now;
            let unserved = round.turn >= round.asked.len() && round.next_block
                < round.blocks.len() && forall|k: int|
                0 <= k < peers.len() ==> !serves(
                    #[trigger] peers[k],
                    round.blocks[round.next_block].piece_index as int,
                );
            can_step(round, peers, now) <==> !(unserved && turned_back)
        }),
{
    let piece_index = round.blocks[round.next_block].piece_index as int;
    let wanted = |k: int| offers(peers[k], piece_index);
    let list = offering(peers, piece_index);
    lemma_chosen(peers.len() as int, wanted);
    if list.len() == 0 {
        assert forall|k: int| 0 <= k < peers.len() implies !serves(
            #[trigger] peers[k],
            piece_index,
        ) by {
            if serves(peers[k], piece_index) {
                assert(wanted((k as usize) as int));
                assert(list.contains(k as usize));
            }
        }
    } else {
        assert(wanted(list[0] as int));
        assert(serves(peers[list[0] as int], piece_index));
    }
}

/// A peer whose connection was started and came to its end is forgotten but for its address,
/// and can be started again. The others stay as they are.
pub proof fn ended_connections_are_forgotten(peers: Seq<PeerView>, finished: Seq<bool>, k: int)
    requires
        0 <= k < peers.len(),
        finished.len() == peers.len(),
    ensures
        with_reset_peers(peers, finished).len() == peers.len(),
        !(peers[k].started && finished[k]) ==> with_reset_peers(peers, finished)[k] == peers[k],
        peers[k].started && finished[k] ==> with_reset_peers(peers, finished)[k] == (PeerView {
            ip: peers[k].ip,
            port: peers[k].port,
            connected: false,
            state: None,
            started: true,
            last_initiated_at: None,
        }),
{
}

/// All connections that were started are closed, and those that take commands are told so.
pub proof fn started_connections_are_closed(peers: Seq<PeerView>, k: int)
    requires
        0 <= k < peers.len() <= usize::MAX,
    ensures
        closed_peers(peers).len() == peers.len(),
        !peers[k].started ==> closed_peers(peers)[k] == peers[k],
        peers[k].started ==> closed_peers(peers)[k] == (PeerView {
            ip: peers[k].ip,
            port: peers[k].port,
            connected: false,
            state: None,
            started: false,
            last_initiated_at: peers[k].last_initiated_at,
        }),
        open_connections(peers).contains(k as usize) <==> peers[k].started && peers[k].connected,
        open_connections(peers).no_duplicates(),
{
    let wanted = |i: int| peers[i].started && peers[i].connected;
    lemma_chosen(peers.len() as int, wanted);
    let open = open_connections(peers);
    assert(wanted((k as usize) as int) == (peers[k].started && peers[k].connected));
    if open.contains(k as usize) {
        let j = choose|j: int| 0 <= j < open.len() && open[j] == k as usize;
        assert(wanted(open[j] as int));
    }
}

} // verus!
