//! A round of requests: the blocks that are wanted, one after another, and for each of them
//! the peers that it is requested from.

use vstd::prelude::*;

use crate::select::lemma_chosen;
use crate::swarm::{
    after_start, all_bits_fit, can_start, find_offering, find_starting, offering, offers,
    is_past, peer_views, started_before, starting, Peer, PeerView,
};

verus! {

/// A block that is wanted: where it is in the list of blocks, its place and its length.
#[derive(Debug, Clone, Copy, PartialEq, Eq, Structural)]
pub struct Wanted {
    pub position: usize,
    pub piece_index: usize,
    pub begin: usize,
    pub length: usize,
}

/// How far a round has come.
#[derive(Debug)]
pub struct Round {
    pub blocks: Vec<Wanted>,
    /// The first block that has not had its turn yet.
    pub next_block: usize,
    /// The peers that the block before it is requested from.
    pub asked: Vec<usize>,
    /// The next of them.
    pub turn: usize,
    /// Each block is requested from every peer that offers it.
    pub end_game_mode: bool,
    /// The number of connections that are started at a time.
    pub concurrent_peers: usize,
}

#[verifier::ext_equal]
pub struct RoundView {
    pub blocks: Seq<Wanted>,
    pub next_block: int,
    pub asked: Seq<usize>,
    pub turn: int,
    pub end_game_mode: bool,
    pub concurrent_peers: int,
}

impl View for Round {
    type V = RoundView;

    open spec fn view(&self) -> RoundView {
        RoundView {
            blocks: self.blocks@,
            next_block: self.next_block as int,
            asked: self.asked@,
            turn: self.turn as int,
            end_game_mode: self.end_game_mode,
            concurrent_peers: self.concurrent_peers as int,
        }
    }
}

/// What is to be done next.
#[derive(Debug)]
pub enum Step {
    /// Start connections to these peers.
    Start(Vec<usize>),
    /// Request the block from this peer.
    Request(usize, Wanted),
    /// Nothing: the round is over.
    Done,
}

pub enum StepView {
    Start(Seq<usize>),
    Request(int, Wanted),
    Done,
}

impl View for Step {
    type V = StepView;

    open spec fn view(&self) -> StepView {
        match self {
            Step::Start(list) => StepView::Start(list@),
            Step::Request(peer, block) => StepView::Request(*peer as int, *block),
            Step::Done => StepView::Done,
        }
    }
}

/// A round at its start.
pub open spec fn new_round(
    blocks: Seq<Wanted>,
    end_game_mode: bool,
    concurrent_peers: int,
) -> RoundView {
    RoundView { blocks, next_block: 0, asked: seq![], turn: 0, end_game_mode, concurrent_peers }
}

/// A round that can go on: the peers that are left to ask offer the block.
pub open spec fn is_running(round: RoundView, peers: Seq<PeerView>, piece_count: int) -> bool {
    &&& 0 <= round.turn <= round.asked.len()
    &&& 0 <= round.next_block <= round.blocks.len()
    &&& round.turn < round.asked.len() ==> round.next_block > 0
    &&& forall|i: int|
        0 <= i < round.blocks.len() ==> (#[trigger] round.blocks[i]).piece_index < piece_count
    &&& forall|k: int|
        round.turn <= k < round.asked.len() ==> (#[trigger] round.asked[k]) < peers.len()
            && offers(
            peers[round.asked[k] as int],
            round.blocks[round.next_block - 1].piece_index as int,
        )
    &&& forall|j: int, k: int|
        0 <= j < k < round.asked.len() ==> #[trigger] round.asked[j] < #[trigger] round.asked[k]
}

/// The round, the peers and what is to be done next. A block that no peer offers has
/// connections started.
pub open spec fn next_step(
    round: RoundView,
    peers: Seq<PeerView>,
    now: u128,
) -> (RoundView, Seq<PeerView>, StepView) {
    if round.turn < round.asked.len() {
        let block = round.blocks[round.next_block - 1];
        (round, peers, StepView::Request(round.asked[round.turn] as int, block))
    } else if round.next_block >= round.blocks.len() {
        (round, peers, StepView::Done)
    } else {
        let block = round.blocks[round.next_block];
        let asked = offering(peers, block.piece_index as int);
        let moved = RoundView { next_block: round.next_block + 1, asked, turn: 0, ..round };
        if asked.len() == 0 {
            let list = starting(peers, now, round.concurrent_peers);
            (moved, after_start(peers, list, now), StepView::Start(list))
        } else {
            (moved, peers, StepView::Request(asked[0] as int, block))
        }
    }
}

/// A peer that cannot be reached any more.
pub open spec fn disconnected(peer: PeerView) -> PeerView {
    PeerView { connected: false, state: None, ..peer }
}

/// The round and the peers after a request went out, or could not. One that went out is
/// enough outside the end game.
pub open spec fn after_request(
    round: RoundView,
    peers: Seq<PeerView>,
    sent: bool,
) -> (RoundView, Seq<PeerView>) {
    if sent && !round.end_game_mode {
        (RoundView { turn: round.asked.len() as int, ..round }, peers)
    } else if sent {
        (RoundView { turn: round.turn + 1, ..round }, peers)
    } else {
        let peer = round.asked[round.turn] as int;
        (
            RoundView { turn: round.turn + 1, ..round },
            peers.update(peer, disconnected(peers[peer])),
        )
    }
}

/// A round goes on through its steps, and asks only peers that are connected, do not choke
/// the client and have the piece.
pub proof fn steps_keep_the_round_running(
    round: RoundView,
    peers: Seq<PeerView>,
    piece_count: int,
    now: u128,
)
    requires
        is_running(round, peers, piece_count),
        peers.len() <= usize::MAX,
    ensures
        is_running(next_step(round, peers, now).0, next_step(round, peers, now).1, piece_count),
        next_step(round, peers, now).2 matches StepView::Request(peer, block) ==> {
            &&& 0 <= peer < peers.len()
            &&& offers(peers[peer], block.piece_index as int)
            &&& next_step(round, peers, now).0.turn < next_step(round, peers, now).0.asked.len()
        },
{
    if round.turn >= round.asked.len() && round.next_block < round.blocks.len() {
        let piece_index = round.blocks[round.next_block].piece_index as int;
        lemma_chosen(peers.len() as int, |k: int| offers(peers[k], piece_index));
    }
}

/// So it does whether or not a request went out.
pub proof fn requests_keep_the_round_running(
    round: RoundView,
    peers: Seq<PeerView>,
    piece_count: int,
    sent: bool,
)
    requires
        is_running(round, peers, piece_count),
        round.turn < round.asked.len(),
    ensures
        is_running(
            after_request(round, peers, sent).0,
            after_request(round, peers, sent).1,
            piece_count,
        ),
{
}

/// Outside the end game a block is requested from one peer: after a request went out, the
/// next step has to do with another block.
pub proof fn one_request_is_enough(round: RoundView, peers: Seq<PeerView>, now: u128)
    requires
        round.turn < round.asked.len(),
        !round.end_game_mode,
    ensures
        ({
            let (after, same) = after_request(round, peers, true);
            let (last, _, step) = next_step(after, same, now);
            same == peers && (step is Done || last.next_block == round.next_block + 1)
        }),
{
}

/// The round and the peers after `k` steps at these times, each of them a request that went
/// out or not.
pub open spec fn after_requests(
    round: RoundView,
    peers: Seq<PeerView>,
    times: Seq<u128>,
    sent: Seq<bool>,
    k: int,
) -> (RoundView, Seq<PeerView>)
    decreases k,
{
    if k <= 0 {
        (round, peers)
    } else {
        let (before, known) = after_requests(round, peers, times, sent, k - 1);
        let (moved, same, _) = next_step(before, known, times[k - 1]);
        after_request(moved, same, sent[k - 1])
    }
}

/// In the end game every peer that offers a block is asked for it, each of them once: when
/// the block has its turn, step `k` asks the `k`th of them, whether or not the requests before
/// it went out, and after the last of them it is the turn of the next block. Where all
/// requests went out, the peers stay as they are.
pub proof fn every_offering_peer_is_asked_once_in_the_end_game(
    round: RoundView,
    peers: Seq<PeerView>,
    times: Seq<u128>,
    sent: Seq<bool>,
    now: u128,
    k: int,
)
    requires
        round.end_game_mode,
        round.turn >= round.asked.len(),
        0 <= round.next_block < round.blocks.len(),
        peers.len() <= usize::MAX,
        ({
            let block = round.blocks[round.next_block];
            0 <= k <= offering(peers, block.piece_index as int).len()
        }),
    ensures
        ({
            let block = round.blocks[round.next_block];
            let asked = offering(peers, block.piece_index as int);
            let (after, known) = after_requests(round, peers, times, sent, k);
            let (moved, _, step) = next_step(after, known, now);
            &&& asked.no_duplicates()
            &&& k == 0 ==> (after, known) == (round, peers)
            &&& k > 0 ==> {
                &&& after == RoundView {
                    next_block: round.next_block + 1,
                    asked,
                    turn: k,
                    ..round
                }
                &&& (forall|i: int| 0 <= i < k ==> #[trigger] sent[i]) ==> known == peers
            }
            &&& k < asked.len() ==> {
                &&& step == StepView::Request(asked[k] as int, block)
                &&& moved == RoundView {
                    next_block: round.next_block + 1,
                    asked,
                    turn: k,
                    ..round
                }
            }
            &&& k == asked.len() && k > 0 ==> step is Done || moved.next_block
                == round.next_block + 2
        }),
    decreases k,
{
    let piece_index = round.blocks[round.next_block].piece_index as int;
    lemma_chosen(peers.len() as int, |i: int| offers(peers[i], piece_index));
    if k > 0 {
        every_offering_peer_is_asked_once_in_the_end_game(
            round,
            peers,
            times,
            sent,
            times[k - 1],
            k - 1,
        );
    }
}

/// Outside the end game the peers that offer a block are asked for it one after another only
/// as long as no request goes out: when the block has its turn, step `k` asks the `k`th of
/// them where none of the requests before it went out.
pub proof fn peers_are_asked_until_a_request_goes_out(
    round: RoundView,
    peers: Seq<PeerView>,
    times: Seq<u128>,
    sent: Seq<bool>,
    now: u128,
    k: int,
)
    requires
        !round.end_game_mode,
        round.turn >= round.asked.len(),
        0 <= round.next_block < round.blocks.len(),
        ({
            let block = round.blocks[round.next_block];
            0 <= k < offering(peers, block.piece_index as int).len()
        }),
        forall|i: int| 0 <= i < k ==> !#[trigger] sent[i],
    ensures
        ({
            let block = round.blocks[round.next_block];
            let asked = offering(peers, block.piece_index as int);
            let (after, known) = after_requests(round, peers, times, sent, k);
            let (moved, _, step) = next_step(after, known, now);
            &&& step == StepView::Request(asked[k] as int, block)
            &&& moved == RoundView {
                next_block: round.next_block + 1,
                asked,
                turn: k,
                ..round
            }
        }),
    decreases k,
{
    if k > 0 {
        peers_are_asked_until_a_request_goes_out(round, peers, times, sent, times[k - 1], k - 1);
    }
}

/// A round comes to its end: each step is the last, or goes on to the next block, or asks a
/// peer; and a peer that was asked is not asked again for the same block.
pub proof fn rounds_end(round: RoundView, peers: Seq<PeerView>, now: u128, sent: bool)
    requires
        0 <= round.turn <= round.asked.len(),
        0 <= round.next_block <= round.blocks.len(),
    ensures
        match next_step(round, peers, now).2 {
            StepView::Done => next_step(round, peers, now).0 == round,
            StepView::Start(_) => next_step(round, peers, now).0.next_block == round.next_block
                + 1,
            StepView::Request(_, _) => {
                let moved = next_step(round, peers, now).0;
                let after = after_request(moved, peers, sent).0;
                &&& after.next_block == moved.next_block <= round.blocks.len()
                &&& moved.next_block == round.next_block ==> round.turn < after.turn
                    <= round.asked.len()
                &&& moved.next_block != round.next_block ==> moved.next_block
                    == round.next_block + 1
            },
        },
{
}

/// The next step turns to peers that are not connected: it is the turn of a block that no
/// peer offers.
pub open spec fn is_without_offers(round: RoundView, peers: Seq<PeerView>) -> bool {
    &&& round.turn >= round.asked.len()
    &&& round.next_block < round.blocks.len()
    &&& offering(peers, round.blocks[round.next_block].piece_index as int).len() == 0
}

/// The clock serves the next step: where connections are to be started, it has not been
/// turned back since they were last tried.
pub open spec fn can_step(round: RoundView, peers: Seq<PeerView>, now: u128) -> bool {
    is_without_offers(round, peers) ==> started_before(peers, now)
}

fn mark_started(peers: &mut Vec<Peer>, list: &Vec<usize>, now: u128)
    requires
        forall|i: int| 0 <= i < list@.len() ==> (#[trigger] list@[i]) < old(peers)@.len(),
    ensures
        peer_views(final(peers)@) == after_start(peer_views(old(peers)@), list@, now),
{
    let ghost before = peer_views(peers@);
    let length: usize = peers.len();
    let mut i: usize = 0;
    assert(peer_views(peers@) =~= after_start(before, list@.take(0), now));
    while i < list.len()
        invariant
            i <= list@.len(),
            before == peer_views(old(peers)@),
            length == peers@.len(),
            length == before.len(),
            forall|i: int| 0 <= i < list@.len() ==> (#[trigger] list@[i]) < peers@.len(),
            peer_views(peers@) == after_start(before, list@.take(i as int), now),
        decreases list@.len() - i,
    {
        let k: usize = list[i];
        let ghost so_far = peer_views(peers@);
        peers[k].started = true;
        peers[k].last_initiated_at = Some(now);
        proof {
            let fewer = list@.take(i as int);
            let more = list@.take(i + 1);
            assert(more =~= fewer.push(k));
            assert forall|p: usize| #[trigger]
                more.contains(p) == (fewer.contains(p) || p == k) by {
                if fewer.contains(p) {
                    let w = choose|w: int| 0 <= w < fewer.len() && fewer[w] == p;
                    assert(more[w] == p);
                }
                assert(more[i as int] == k);
            }
            let now_started = peer_views(peers@);
            assert forall|j: int| 0 <= j < before.len() implies #[trigger] now_started[j]
                == after_start(before, more, now)[j] by {
                assert(so_far[j] == after_start(before, fewer, now)[j]);
                assert(more.contains(j as usize) == (fewer.contains(j as usize) || j == k));
                assert(now_started[j].ip == so_far[j].ip);
                if j == k {
                    assert(now_started[j] == PeerView {
                        started: true,
                        last_initiated_at: Some(now),
                        ..so_far[j]
                    });
                } else {
                    assert(now_started[j] == so_far[j]);
                }
            }
            assert(now_started =~= after_start(before, more, now));
        }
        i = i + 1;
    }
    assert(list@.take(i as int) =~= list@);
}

impl Round {
    /// A round that nothing has been done in.
    pub fn new(blocks: Vec<Wanted>, end_game_mode: bool, concurrent_peers: usize) -> (round: Self)
        ensures
            round@ == new_round(blocks@, end_game_mode, concurrent_peers as int),
    {
        Round {
            blocks,
            next_block: 0,
            asked: Vec::new(),
            turn: 0,
            end_game_mode,
            concurrent_peers,
        }
    }

    /// What is to be done next.
    pub fn next(&mut self, peers: &mut Vec<Peer>, piece_count: usize, now: u128) -> (step: Step)
        requires
            is_running(old(self)@, peer_views(old(peers)@), piece_count as int),
            all_bits_fit(peer_views(old(peers)@), piece_count as int),
            can_step(old(self)@, peer_views(old(peers)@), now),
        ensures
            (final(self)@, peer_views(final(peers)@), step@) == next_step(
                old(self)@,
                peer_views(old(peers)@),
                now,
            ),
            is_running(final(self)@, peer_views(final(peers)@), piece_count as int),
            all_bits_fit(peer_views(final(peers)@), piece_count as int),
            started_before(peer_views(old(peers)@), now) ==> started_before(
                peer_views(final(peers)@),
                now,
            ),
    {
        let ghost views = peer_views(peers@);
        let length: usize = peers.len();
        proof {
            steps_keep_the_round_running(self@, views, piece_count as int, now);
        }
        if self.turn < self.asked.len() {
            return Step::Request(self.asked[self.turn], self.blocks[self.next_block - 1]);
        }
        if self.next_block >= self.blocks.len() {
            return Step::Done;
        }
        let block = self.blocks[self.next_block];
        assert forall|k: int|
            0 <= k < peers@.len() && (#[trigger] peers@[k]@).state is Some
                && peers@[k]@.state->0.bitfield is Some implies block.piece_index
            < peers@[k]@.state->0.bitfield->0.len() by {
            assert(views[k] == peers@[k]@);
        }
        self.next_block = self.next_block + 1;
        self.asked = find_offering(peers, block.piece_index);
        self.turn = 0;
        if self.asked.len() == 0 {
            let list = find_starting(peers, now, self.concurrent_peers);
            proof {
                lemma_chosen(views.len() as int, |k: int| can_start(views[k], now));
            }
            mark_started(peers, &list, now);
            Step::Start(list)
        } else {
            Step::Request(self.asked[0], block)
        }
    }

    /// Whether the clock serves the next step.
    pub fn check_clock(&self, peers: &Vec<Peer>, piece_count: usize, now: u128) -> (can: bool)
        requires
            is_running(self@, peer_views(peers@), piece_count as int),
            all_bits_fit(peer_views(peers@), piece_count as int),
        ensures
            can == can_step(self@, peer_views(peers@), now),
    {
        if self.turn < self.asked.len() || self.next_block >= self.blocks.len() {
            return true;
        }
        let block = self.blocks[self.next_block];
        assert forall|k: int|
            0 <= k < peers@.len() && (#[trigger] peers@[k]@).state is Some
                && peers@[k]@.state->0.bitfield is Some implies block.piece_index
            < peers@[k]@.state->0.bitfield->0.len() by {
            assert(peer_views(peers@)[k] == peers@[k]@);
        }
        find_offering(peers, block.piece_index).len() > 0 || is_past(peers, now)
    }

    /// Takes in whether the request that was due went out.
    pub fn requested(&mut self, peers: &mut Vec<Peer>, piece_count: usize, sent: bool)
        requires
            is_running(old(self)@, peer_views(old(peers)@), piece_count as int),
            all_bits_fit(peer_views(old(peers)@), piece_count as int),
            old(self).turn < old(self).asked@.len(),
        ensures
            (final(self)@, peer_views(final(peers)@)) == after_request(
                old(self)@,
                peer_views(old(peers)@),
                sent,
            ),
            is_running(final(self)@, peer_views(final(peers)@), piece_count as int),
            all_bits_fit(peer_views(final(peers)@), piece_count as int),
    {
        let ghost views = peer_views(peers@);
        proof {
            requests_keep_the_round_running(self@, views, piece_count as int, sent);
        }
        let count: usize = self.asked.len();
        if sent && !self.end_game_mode {
            self.turn = count;
        } else {
            if !sent {
                let peer: usize = self.asked[self.turn];
                peers[peer].connected = false;
                peers[peer].state = None;
                assert(peer_views(peers@) =~= views.update(
                    peer as int,
                    disconnected(views[peer as int]),
                ));
            }
            self.turn = self.turn + 1;
        }
    }
}

} // verus!
