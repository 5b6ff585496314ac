//! Which blocks of a torrent are requested next, and from whom.

use vstd::prelude::*;
use vstd::relations::*;
use vstd::seq_lib::*;

use super::models::{
    a_frame_stays_whole, blocks_in_order, is_block, is_persisted, lemma_one_block, BlockId,
    BlockStatus, BlockStatusView, BlockView, Torrent, TorrentView,
};
use super::writer::{is_awaited, with_arrived_block};
use crate::order::{by_keys, key_at_most, sort_by_keys};
use crate::round::{
    after_request, can_step, disconnected, is_running, new_round, next_step, Round, RoundView,
    Step, Wanted,
};
use crate::select::{at_most, chosen, lemma_chosen, lemma_chosen_one_less};
use crate::swarm::{bits_fit, is_at, started_before, PeerView, BLOCK_REQUEST_TIMEOUT};

verus! {

/// With fewer blocks than this to come, the end game begins.
pub const END_GAME_BLOCKS: usize = 3;

/// The number of connections that are started at a time.
pub const CONCURRENT_PEERS: usize = 3;

/// The number of connections that are started at a time in the end game.
pub const END_GAME_CONCURRENT_PEERS: usize = 10;

/// What decides on requests.
#[derive(Debug)]
pub struct Scheduler {
    pub end_game_mode: bool,
    pub concurrent_peers: usize,
}

/// The data of the block is still to come.
pub open spec fn is_outstanding(status: BlockStatusView) -> bool {
    status is Pending || status is Requested
}

/// The block is to be requested: it was not yet, or too long ago.
pub open spec fn is_due(status: BlockStatusView, now: u128) -> bool {
    match status {
        BlockStatusView::Pending => true,
        BlockStatusView::Requested(at) => now - at > BLOCK_REQUEST_TIMEOUT,
        _ => false,
    }
}

/// The scheduler when so many blocks are still to come: where there are few, the end game
/// begins.
pub open spec fn scheduler_after(scheduler: Scheduler, outstanding: nat) -> Scheduler {
    if 0 < outstanding < END_GAME_BLOCKS {
        Scheduler { end_game_mode: true, concurrent_peers: END_GAME_CONCURRENT_PEERS }
    } else {
        scheduler
    }
}

/// The number of blocks whose data is still to come.
pub open spec fn outstanding_count(t: TorrentView) -> nat {
    chosen(t.blocks.len() as int, |i: int| is_outstanding(t.blocks[i].data_status)).len()
}

/// The clock has not been turned back since a block was requested.
pub open spec fn requested_before(blocks: Seq<BlockView>, now: u128) -> bool {
    forall|i: int|
        0 <= i < blocks.len() ==> match (#[trigger] blocks[i]).data_status {
            BlockStatusView::Requested(at) => at <= now,
            _ => true,
        }
}

/// For each block, how often its piece was had.
pub open spec fn rarity(t: TorrentView) -> Seq<usize> {
    Seq::new(t.blocks.len(), |i: int| t.pieces[t.blocks[i].piece_index].have as usize)
}

/// The blocks that are to be requested, those of the rarest pieces first.
pub open spec fn due_blocks(t: TorrentView, now: u128) -> Seq<usize> {
    by_keys(
        rarity(t),
        chosen(t.blocks.len() as int, |i: int| is_due(t.blocks[i].data_status, now)),
    )
}

pub open spec fn wanted_block(t: TorrentView, i: usize) -> Wanted {
    let block = t.blocks[i as int];
    Wanted {
        position: i,
        piece_index: block.piece_index as usize,
        begin: block.begin as usize,
        length: block.length as usize,
    }
}

/// The blocks of a round, no more than `max` of them.
pub open spec fn wanted_blocks(t: TorrentView, now: u128, max: int) -> Seq<Wanted> {
    at_most(due_blocks(t, now), max).map_values(|i: usize| wanted_block(t, i))
}

/// The peers after their connections were looked at: one that came to its end can be started
/// again.
pub open spec fn with_reset_peers(peers: Seq<PeerView>, finished: Seq<bool>) -> Seq<PeerView> {
    Seq::new(
        peers.len(),
        |k: int|
            if peers[k].started && finished[k] {
                PeerView { last_initiated_at: None, ..disconnected(peers[k]) }
            } else {
                peers[k]
            },
    )
}

/// The positions in a round are those of its blocks.
pub open spec fn is_round_of(round: RoundView, t: TorrentView) -> bool {
    &&& is_running(round, t.peers, t.pieces.len() as int)
    &&& forall|i: int|
        0 <= i < round.blocks.len() ==> (#[trigger] round.blocks[i]).position < t.blocks.len()
}

/// The torrent after the request that was due went out at this time, or could not.
pub open spec fn with_request(
    t: TorrentView,
    round: RoundView,
    sent: bool,
    now: u128,
) -> TorrentView {
    let position = round.blocks[round.next_block - 1].position as int;
    TorrentView {
        peers: after_request(round, t.peers, sent).1,
        blocks: if sent {
            t.blocks.update(
                position,
                BlockView {
                    data_status: BlockStatusView::Requested(now),
                    ..t.blocks[position]
                },
            )
        } else {
            t.blocks
        },
        ..t
    }
}

/// The blocks of a round are those that are to be requested, each once and the rarest first.
pub proof fn due_blocks_are_rarest_first(t: TorrentView, now: u128)
    requires
        t.blocks.len() <= usize::MAX,
    ensures
        forall|j: int, k: int|
            0 <= j < k < due_blocks(t, now).len() ==> rarity(t)[#[trigger] due_blocks(
                t,
                now,
            )[j] as int] <= rarity(t)[#[trigger] due_blocks(t, now)[k] as int],
        forall|i: usize|
            due_blocks(t, now).contains(i) <==> i < t.blocks.len() && is_due(
                #[trigger] t.blocks[i as int].data_status,
                now,
            ),
        due_blocks(t, now).no_duplicates(),
{
    broadcast use group_to_multiset_ensures;

    let wanted = |i: int| is_due(t.blocks[i].data_status, now);
    let n = t.blocks.len() as int;
    let positions = chosen(n, wanted);
    let due = due_blocks(t, now);
    let keys = rarity(t);
    let leq = |a: usize, b: usize| key_at_most(keys, a, b);
    assert(total_ordering(leq));
    positions.lemma_sort_by_ensures(leq);
    lemma_chosen(n, wanted);
    assert forall|j: int, k: int| 0 <= j < k < due.len() implies keys[#[trigger] due[j] as int]
        <= keys[#[trigger] due[k] as int] by {
        assert(leq(due[j], due[k]));
    }
    assert forall|i: usize|
        due.contains(i) <==> i < t.blocks.len() && is_due(
            #[trigger] t.blocks[i as int].data_status,
            now,
        ) by {
        assert(due.contains(i) <==> positions.contains(i)) by {
            assert(due.to_multiset().count(i) == positions.to_multiset().count(i));
            assert(due.contains(i) <==> due.to_multiset().count(i) > 0);
            assert(positions.contains(i) <==> positions.to_multiset().count(i) > 0);
        }
        if i < t.blocks.len() {
            assert(wanted(i as int) == is_due(t.blocks[i as int].data_status, now));
        }
        if positions.contains(i) {
            let k = choose|k: int| 0 <= k < positions.len() && positions[k] == i;
            assert(positions[k] < n && wanted(positions[k] as int));
        }
    }
    assert(positions.no_duplicates());
    positions.lemma_multiset_has_no_duplicates();
    due.lemma_multiset_has_no_duplicates_conv();
}

/// A block that was just requested is not requested again before its time is out.
pub proof fn requests_are_not_repeated_in_time(status: BlockStatusView, at: u128, now: u128)
    requires
        status == BlockStatusView::Requested(at),
        at <= now <= at + BLOCK_REQUEST_TIMEOUT,
    ensures
        !is_due(status, now),
        is_outstanding(status),
{
}

/// Data that is on disk is neither requested nor still to come.
pub proof fn stored_blocks_are_not_requested(status: BlockStatusView, now: u128)
    requires
        is_persisted(status),
    ensures
        !is_due(status, now),
        !is_outstanding(status),
{
}

/// Each block that arrives leaves one fewer to come.
pub proof fn arriving_blocks_leave_fewer_to_come(t: TorrentView, id: BlockId)
    requires
        blocks_in_order(t.blocks),
        is_awaited(t, id),
    ensures
        outstanding_count(with_arrived_block(t, id)) + 1 == outstanding_count(t),
{
    let after = with_arrived_block(t, id);
    let k = choose|k: int|
        0 <= k < t.blocks.len() && is_block(#[trigger] t.blocks[k], id) && !is_persisted(
            t.blocks[k].data_status,
        );
    let old_wanted = |i: int| is_outstanding(t.blocks[i].data_status);
    let new_wanted = |i: int| is_outstanding(after.blocks[i].data_status);
    assert forall|i: int| 0 <= i < t.blocks.len() && i != k implies #[trigger] old_wanted(i)
        == new_wanted(i) by {
        if is_block(t.blocks[i], id) {
            lemma_one_block(t.blocks, i, k, id);
        }
    }
    assert(old_wanted(k) && !new_wanted(k));
    lemma_chosen_one_less(t.blocks.len() as int, old_wanted, new_wanted, k);
}

fn find_due(torrent: &Torrent, now: u128) -> (positions: Vec<usize>)
    requires
        requested_before(torrent@.blocks, now),
    ensures
        positions@ == chosen(
            torrent@.blocks.len() as int,
            |i: int| is_due(torrent@.blocks[i].data_status, now),
        ),
{
    let ghost t = torrent@;
    let ghost wanted = |i: int| is_due(t.blocks[i].data_status, now);
    let mut positions: Vec<usize> = Vec::new();
    let mut i: usize = 0;
    while i < torrent.blocks.len()
        invariant
            i <= torrent.blocks@.len(),
            t == torrent@,
            requested_before(t.blocks, now),
            wanted == (|i: int| is_due(t.blocks[i].data_status, now)),
            positions@ == chosen(i as int, wanted),
        decreases torrent.blocks@.len() - i,
    {
        assert(t.blocks[i as int] == torrent.blocks@[i as int]@);
        let due = match &torrent.blocks[i].data_status {
            BlockStatus::Pending => true,
            BlockStatus::Requested(at) => now - *at > BLOCK_REQUEST_TIMEOUT,
            _ => false,
        };
        assert(due == wanted(i as int));
        if due {
            positions.push(i);
        }
        i = i + 1;
    }
    positions
}

fn find_rarity(torrent: &Torrent) -> (keys: Vec<usize>)
    requires
        torrent.wf(),
    ensures
        keys@ == rarity(torrent@),
{
    let ghost t = torrent@;
    let mut keys: Vec<usize> = Vec::new();
    let mut i: usize = 0;
    while i < torrent.blocks.len()
        invariant
            i <= torrent.blocks@.len(),
            t == torrent@,
            torrent.wf(),
            keys@ == rarity(t).take(i as int),
        decreases torrent.blocks@.len() - i,
    {
        assert(t.blocks[i as int] == torrent.blocks@[i as int]@);
        let piece_index: usize = torrent.blocks[i].piece_index;
        assert(t.pieces[piece_index as int] == torrent.pieces@[piece_index as int]@);
        keys.push(torrent.pieces[piece_index].have);
        i = i + 1;
        assert(keys@ =~= rarity(t).take(i as int));
    }
    assert(keys@ =~= rarity(t));
    keys
}

pub(crate) fn find_wanted(torrent: &Torrent, now: u128, max_count: usize) -> (blocks: Vec<Wanted>)
    requires
        torrent.wf(),
        requested_before(torrent@.blocks, now),
    ensures
        blocks@ == wanted_blocks(torrent@, now, max_count as int),
        forall|i: int|
            0 <= i < blocks@.len() ==> (#[trigger] blocks@[i]).position < torrent.blocks@.len()
                && blocks@[i].piece_index < torrent.pieces@.len(),
{
    let ghost t = torrent@;
    let block_count: usize = torrent.blocks.len();
    let positions = find_due(torrent, now);
    let keys = find_rarity(torrent);
    proof {
        lemma_chosen(t.blocks.len() as int, |i: int| is_due(t.blocks[i].data_status, now));
        due_blocks_are_rarest_first(t, now);
    }
    let due = sort_by_keys(&keys, &positions);
    let mut blocks: Vec<Wanted> = Vec::new();
    let mut k: usize = 0;
    let ghost all = wanted_blocks(t, now, max_count as int);
    while k < due.len() && k < max_count
        invariant
            k <= due@.len(),
            k <= max_count,
            t == torrent@,
            torrent.wf(),
            due@ == due_blocks(t, now),
            all == wanted_blocks(t, now, max_count as int),
            forall|i: usize|
                due@.contains(i) ==> i < t.blocks.len() && is_due(
                    #[trigger] t.blocks[i as int].data_status,
                    now,
                ),
            blocks@ == all.take(k as int),
            blocks@.len() == k,
            forall|i: int|
                0 <= i < blocks@.len() ==> (#[trigger] blocks@[i]).position < torrent.blocks@.len()
                    && blocks@[i].piece_index < torrent.pieces@.len(),
        decreases due@.len() - k,
    {
        let position: usize = due[k];
        proof {
            assert(due@.contains(position));
            assert(is_due(t.blocks[position as int].data_status, now));
        }
        let block = &torrent.blocks[position];
        assert(t.blocks[position as int] == block@);
        let wanted = Wanted {
            position,
            piece_index: block.piece_index,
            begin: block.begin,
            length: block.length,
        };
        blocks.push(wanted);
        proof {
            assert(all[k as int] == wanted);
            assert(all.take(k + 1) =~= all.take(k as int).push(wanted));
        }
        k = k + 1;
    }
    assert(all.take(k as int) =~= all);
    blocks
}

pub(crate) fn count_outstanding(torrent: &Torrent) -> (count: usize)
    ensures
        count == outstanding_count(torrent@),
{
    let ghost t = torrent@;
    let ghost wanted = |i: int| is_outstanding(t.blocks[i].data_status);
    let block_count: usize = torrent.blocks.len();
    let mut count: usize = 0;
    let mut i: usize = 0;
    while i < block_count
        invariant
            i <= block_count,
            block_count == torrent.blocks@.len(),
            t == torrent@,
            wanted == (|i: int| is_outstanding(t.blocks[i].data_status)),
            count == chosen(i as int, wanted).len(),
            count <= i,
        decreases block_count - i,
    {
        assert(t.blocks[i as int] == torrent.blocks@[i as int]@);
        let outstanding = !torrent.blocks[i].data_status.persisted();
        assert(outstanding == wanted(i as int));
        if outstanding {
            count = count + 1;
        }
        i = i + 1;
    }
    count
}

/// Whether the clock has not been turned back since a block was requested.
pub fn check_requests(torrent: &Torrent, now: u128) -> (past: bool)
    ensures
        past == requested_before(torrent@.blocks, now),
{
    let ghost blocks = torrent@.blocks;
    let mut i: usize = 0;
    while i < torrent.blocks.len()
        invariant
            i <= torrent.blocks@.len(),
            blocks == torrent@.blocks,
            forall|k: int|
                0 <= k < i ==> match (#[trigger] blocks[k]).data_status {
                    BlockStatusView::Requested(at) => at <= now,
                    _ => true,
                },
        decreases torrent.blocks@.len() - i,
    {
        assert(blocks[i as int] == torrent.blocks@[i as int]@);
        if let BlockStatus::Requested(at) = &torrent.blocks[i].data_status {
            if *at > now {
                return false;
            }
        }
        i = i + 1;
    }
    true
}

/// Whether the clock serves the next step of a round.
pub fn check_starts(torrent: &Torrent, round: &Round, now: u128) -> (can: bool)
    requires
        torrent.wf(),
        is_round_of(round@, torrent@),
    ensures
        can == can_step(round@, torrent@.peers, now),
{
    round.check_clock(&torrent.peers, torrent.pieces.len(), now)
}

impl Scheduler {
    /// A scheduler before the end game.
    pub fn new() -> (scheduler: Self)
        ensures
            scheduler == (Scheduler { end_game_mode: false, concurrent_peers: CONCURRENT_PEERS }),
    {
        Scheduler { end_game_mode: false, concurrent_peers: CONCURRENT_PEERS }
    }

    fn reset_finished_peers(&self, torrent: &mut Torrent, finished: &Vec<bool>)
        requires
            old(torrent).wf(),
            finished@.len() == old(torrent).peers@.len(),
        ensures
            final(torrent)@ == (TorrentView {
                peers: with_reset_peers(old(torrent)@.peers, finished@),
                ..old(torrent)@
            }),
            final(torrent).wf(),
    {
        let ghost before = torrent@;
        let ghost all = with_reset_peers(before.peers, finished@);
        let mut k: usize = 0;
        while k < torrent.peers.len()
            invariant
                all == with_reset_peers(before.peers, finished@),
                k <= torrent.peers@.len(),
                finished@.len() == torrent.peers@.len(),
                torrent@ == (TorrentView { peers: torrent@.peers, ..before }),
                torrent@.peers.len() == before.peers.len(),
                forall|j: int| 0 <= j < k ==> torrent@.peers[j] == #[trigger] all[j],
                forall|j: int|
                    k <= j < before.peers.len() ==> torrent@.peers[j]
                        == #[trigger] before.peers[j],
            decreases torrent.peers@.len() - k,
        {
            let ghost so_far = torrent@;
            assert(so_far.peers[k as int] == torrent.peers@[k as int]@);
            assert(so_far.peers[k as int] == before.peers[k as int]);
            if torrent.peers[k].started && finished[k] {
                torrent.peers[k].connected = false;
                torrent.peers[k].state = None;
                torrent.peers[k].last_initiated_at = None;
            }
            proof {
                let after = torrent@;
                assert(after.peers[k as int] == all[k as int]);
                assert forall|j: int| 0 <= j < k implies after.peers[j] == #[trigger] all[j] by {
                    assert(after.peers[j] == so_far.peers[j]);
                }
                assert forall|j: int| k < j < before.peers.len() implies after.peers[j]
                    == #[trigger] before.peers[j] by {
                    assert(after.peers[j] == so_far.peers[j]);
                }
            }
            k = k + 1;
        }
        proof {
            assert(torrent@.peers =~= all);
            let after = torrent@;
            assert forall|i: int, j: int| 0 <= i < j < after.peers.len() implies !is_at(
                #[trigger] after.peers[i],
                (#[trigger] after.peers[j]).ip,
                after.peers[j].port,
            ) by {
                assert(!is_at(before.peers[i], before.peers[j].ip, before.peers[j].port));
            }
            assert forall|i: int| 0 <= i < after.peers.len() implies bits_fit(
                #[trigger] after.peers[i],
                after.pieces.len() as int,
            ) by {
                assert(bits_fit(before.peers[i], before.pieces.len() as int));
            }
            a_frame_stays_whole(before, after);
        }
    }

    /// Counts the blocks whose data is still to come. Where there are some, connections that
    /// came to their end are given up and a round of no more than `max_count` blocks begins;
    /// where there are few, the end game does.
    pub fn enqueue_pending_blocks(
        &mut self,
        torrent: &mut Torrent,
        finished: &Vec<bool>,
        max_count: usize,
        now: u128,
    ) -> (enqueued: (usize, Option<Round>))
        requires
            old(torrent).wf(),
            finished@.len() == old(torrent).peers@.len(),
            requested_before(old(torrent)@.blocks, now),
        ensures
            enqueued.0 == outstanding_count(old(torrent)@),
            final(torrent).wf(),
            *final(self) == scheduler_after(*old(self), enqueued.0 as nat),
            enqueued.0 == 0 ==> *final(torrent) == *old(torrent) && enqueued.1 is None,
            enqueued.0 > 0 ==> {
                &&& final(torrent)@ == (TorrentView {
                    peers: with_reset_peers(old(torrent)@.peers, finished@),
                    ..old(torrent)@
                })
                &&& enqueued.1 is Some
                &&& (enqueued.1->0)@ == new_round(
                    wanted_blocks(old(torrent)@, now, max_count as int),
                    final(self).end_game_mode,
                    final(self).concurrent_peers as int,
                )
                &&& is_round_of((enqueued.1->0)@, final(torrent)@)
            },
    {
        let ghost before = torrent@;
        let count: usize = count_outstanding(torrent);
        if count == 0 {
            return (count, None);
        }
        if count < END_GAME_BLOCKS {
            self.end_game_mode = true;
            self.concurrent_peers = END_GAME_CONCURRENT_PEERS;
        }
        let blocks = find_wanted(torrent, now, max_count);
        self.reset_finished_peers(torrent, finished);
        let round = Round::new(blocks, self.end_game_mode, self.concurrent_peers);
        (count, Some(round))
    }

    /// What is to be done next in a round.
    pub fn schedule(&self, torrent: &mut Torrent, round: &mut Round, now: u128) -> (step: Step)
        requires
            old(torrent).wf(),
            is_round_of(old(round)@, old(torrent)@),
            can_step(old(round)@, old(torrent)@.peers, now),
        ensures
            (final(round)@, final(torrent)@.peers, step@) == next_step(
                old(round)@,
                old(torrent)@.peers,
                now,
            ),
            final(torrent)@ == (TorrentView { peers: final(torrent)@.peers, ..old(torrent)@ }),
            final(torrent).wf(),
            is_round_of(final(round)@, final(torrent)@),
            started_before(old(torrent)@.peers, now) ==> started_before(
                final(torrent)@.peers,
                now,
            ),
    {
        let ghost before = torrent@;
        let piece_count: usize = torrent.pieces.len();
        let step = round.next(&mut torrent.peers, piece_count, now);
        proof {
            let after = torrent@;
            assert forall|i: int, j: int| 0 <= i < j < after.peers.len() implies !is_at(
                #[trigger] after.peers[i],
                (#[trigger] after.peers[j]).ip,
                after.peers[j].port,
            ) by {
                assert(!is_at(before.peers[i], before.peers[j].ip, before.peers[j].port));
            }
            a_frame_stays_whole(before, after);
        }
        step
    }

    /// Takes in whether the request that was due went out: the block is noted as requested,
    /// or the peer is given up.
    pub fn requested(&self, torrent: &mut Torrent, round: &mut Round, sent: bool, now: u128)
        requires
            old(torrent).wf(),
            is_round_of(old(round)@, old(torrent)@),
            old(round).turn < old(round).asked@.len(),
        ensures
            final(torrent)@ == with_request(old(torrent)@, old(round)@, sent, now),
            final(round)@ == after_request(old(round)@, old(torrent)@.peers, sent).0,
            final(torrent).wf(),
            is_round_of(final(round)@, final(torrent)@),
    {
        let ghost before = torrent@;
        let ghost round_before = round@;
        let position: usize = round.blocks[round.next_block - 1].position;
        if sent {
            torrent.blocks[position].data_status = BlockStatus::Requested(now);
        }
        let piece_count: usize = torrent.pieces.len();
        round.requested(&mut torrent.peers, piece_count, sent);
        proof {
            let after = with_request(before, round_before, sent, now);
            assert(torrent@.blocks =~= after.blocks);
            assert(torrent@ =~= after);
            assert forall|i: int, j: int| 0 <= i < j < after.peers.len() implies !is_at(
                #[trigger] after.peers[i],
                (#[trigger] after.peers[j]).ip,
                after.peers[j].port,
            ) by {
                assert(!is_at(before.peers[i], before.peers[j].ip, before.peers[j].port));
            }
            a_frame_stays_whole(before, after);
        }
    }
}

/// The peers after their connections were closed.
pub open spec fn closed_peers(peers: Seq<PeerView>) -> Seq<PeerView> {
    Seq::new(
        peers.len(),
        |k: int|
            if peers[k].started {
                PeerView { connected: false, state: None, started: false, ..peers[k] }
            } else {
                peers[k]
            },
    )
}

/// The connections that are told to shut down.
pub open spec fn open_connections(peers: Seq<PeerView>) -> Seq<usize> {
    chosen(peers.len() as int, |k: int| peers[k].started && peers[k].connected)
}

impl Torrent {
    /// Closes the connections of the torrent. The result names those that are told to shut
    /// down.
    pub fn close_connections(&mut self) -> (open: Vec<usize>)
        requires
            old(self).wf(),
        ensures
            open@ == open_connections(old(self)@.peers),
            final(self)@ == (TorrentView {
                peers: closed_peers(old(self)@.peers),
                ..old(self)@
            }),
            final(self).wf(),
    {
        let ghost before = self@;
        let ghost all = closed_peers(before.peers);
        let ghost wanted = |k: int| before.peers[k].started && before.peers[k].connected;
        let mut open: Vec<usize> = Vec::new();
        let mut k: usize = 0;
        while k < self.peers.len()
            invariant
                all == closed_peers(before.peers),
                wanted == (|k: int| before.peers[k].started && before.peers[k].connected),
                k <= self.peers@.len(),
                open@ == chosen(k as int, wanted),
                self@ == (TorrentView { peers: self@.peers, ..before }),
                self@.peers.len() == before.peers.len(),
                forall|j: int| 0 <= j < k ==> self@.peers[j] == #[trigger] all[j],
                forall|j: int|
                    k <= j < before.peers.len() ==> self@.peers[j]
                        == #[trigger] before.peers[j],
            decreases self.peers@.len() - k,
        {
            let ghost so_far = self@;
            assert(so_far.peers[k as int] == self.peers@[k as int]@);
            assert(so_far.peers[k as int] == before.peers[k as int]);
            if self.peers[k].started {
                if self.peers[k].connected {
                    open.push(k);
                }
                self.peers[k].connected = false;
                self.peers[k].state = None;
                self.peers[k].started = false;
            }
            proof {
                let after = self@;
                assert(after.peers[k as int] == all[k as int]);
                assert forall|j: int| 0 <= j < k implies after.peers[j] == #[trigger] all[j] by {
                    assert(after.peers[j] == so_far.peers[j]);
                }
                assert forall|j: int| k < j < before.peers.len() implies after.peers[j]
                    == #[trigger] before.peers[j] by {
                    assert(after.peers[j] == so_far.peers[j]);
                }
            }
            k = k + 1;
        }
        proof {
            assert(self@.peers =~= all);
            let after = self@;
            assert forall|i: int, j: int| 0 <= i < j < after.peers.len() implies !is_at(
                #[trigger] after.peers[i],
                (#[trigger] after.peers[j]).ip,
                after.peers[j].port,
            ) by {
                assert(!is_at(before.peers[i], before.peers[j].ip, before.peers[j].port));
            }
            assert forall|i: int| 0 <= i < after.peers.len() implies bits_fit(
                #[trigger] after.peers[i],
                after.pieces.len() as int,
            ) by {
                assert(bits_fit(before.peers[i], before.pieces.len() as int));
            }
            a_frame_stays_whole(before, after);
        }
        open
    }
}

} // verus!
