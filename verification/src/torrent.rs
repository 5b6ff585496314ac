//! A torrent that is being downloaded.

pub mod event_processor;
pub mod formatter;
pub mod integrity;
pub mod models;
pub mod report;
pub mod scheduler;
pub mod state;
pub mod tracker;
pub mod writer;

use vstd::prelude::*;
use vstd::string::*;

use crate::bencode::MetaInfo;
use crate::round::{new_round, Round};
use crate::swarm::PeerView;
use formatter::{get_peer_id, peer_id};
use models::{blocks_in_order, has_block, is_block, BlockId, Torrent, TorrentView};
use report::{files_shown, flagged_views, show_blocks, show_files, shows_blocks};
use scheduler::{
    closed_peers, is_round_of, open_connections, outstanding_count, requested_before,
    scheduler_after, wanted_blocks, with_reset_peers, Scheduler,
};
use state::{
    is_complete, new_torrent, unverified_pieces, verification_keeps_a_torrent_whole,
    with_verification,
};
use writer::unfinished_files;

verus! {

/// The time between two rounds of requests, in milliseconds.
pub const BLOCK_SCHEDULER_FREQUENCY_MS: u64 = 500;

/// The number of blocks whose pieces are verified at a time.
pub const PIECE_VERIFICATION_BATCH_SIZE: usize = 50;

/// The control of a torrent.
#[derive(Debug)]
pub struct Controller {
    pub torrent: Torrent,
}

/// What a torrent does next.
#[derive(Debug)]
pub enum Task {
    /// It goes through a round of requests.
    Download(Round),
    /// It checks these pieces.
    Verify(Vec<usize>),
}

/// What is shown of a torrent.
#[derive(Debug)]
pub struct State {
    /// The files, whether they are written and whether they are verified.
    pub files: Vec<(String, bool, bool)>,
    /// The blocks, whether they are on disk and whether they are verified.
    pub blocks: Vec<(String, bool, bool)>,
    /// The peers, and whether they are connected.
    pub peers: Vec<(String, bool)>,
    pub downloaded_window_second: (u64, usize),
}

/// What is measured of a torrent.
#[derive(Debug, Clone, Copy, PartialEq, Eq, Structural)]
pub enum Metric {
    /// A second, and the number of bytes that came within it.
    DownloadWindowSecond(u64, usize),
}

/// What is reported of a torrent.
#[derive(Debug)]
pub enum Event {
    State(State),
    Metric(Metric),
}

/// What is reported of a torrent, and which it is.
#[derive(Debug)]
pub struct ControllerEvent {
    pub hash: [u8; 20],
    pub event: Event,
}

pub open spec fn connection_views(list: Seq<(String, bool)>) -> Seq<(Seq<char>, bool)> {
    Seq::new(list.len(), |i: int| (list[i].0@, list[i].1))
}

/// What is shown of the peers: their names, and whether they are connected.
pub open spec fn peers_shown(peers: Seq<PeerView>) -> Seq<(Seq<char>, bool)> {
    Seq::new(peers.len(), |k: int| (peer_id(peers[k].ip, peers[k].port), peers[k].connected))
}

/// The state shows the torrent as it is.
pub open spec fn shows(state: State, t: TorrentView) -> bool {
    &&& flagged_views(state.files@) == files_shown(t.files)
    &&& shows_blocks(flagged_views(state.blocks@), t.blocks)
    &&& connection_views(state.peers@) == peers_shown(t.peers)
    &&& state.downloaded_window_second == t.downloaded_window_second
}

/// The torrent after it was seen whether a piece is right, where all of it is there.
pub open spec fn with_check(
    t: TorrentView,
    piece_index: usize,
    right: Option<bool>,
) -> TorrentView {
    match right {
        Some(right) => with_verification(t, seq![(piece_index, right)]),
        None => t,
    }
}

impl Controller {
    /// The control of a torrent of which nothing is there yet.
    pub fn new(client_id: [u8; 20], meta: &MetaInfo, dest_path: &str) -> (controller: Self)
        requires
            is_complete(meta@),
        ensures
            controller.torrent@ == new_torrent(client_id@, dest_path@, meta@),
            controller.torrent.wf(),
    {
        Controller { torrent: Torrent::new(client_id, dest_path, meta) }
    }

    fn show_peers(&self) -> (shown: Vec<(String, bool)>)
        ensures
            connection_views(shown@) == peers_shown(self.torrent@.peers),
    {
        let ghost all = peers_shown(self.torrent@.peers);
        let mut shown: Vec<(String, bool)> = Vec::new();
        let mut k: usize = 0;
        assert(connection_views(shown@) =~= all.take(0));
        while k < self.torrent.peers.len()
            invariant
                k <= self.torrent.peers@.len(),
                all == peers_shown(self.torrent@.peers),
                connection_views(shown@) == all.take(k as int),
            decreases self.torrent.peers@.len() - k,
        {
            let ghost before = connection_views(shown@);
            let peer = &self.torrent.peers[k];
            assert(self.torrent@.peers[k as int] == peer@);
            shown.push((get_peer_id(peer.ip.as_str(), peer.port), peer.connected));
            proof {
                assert(connection_views(shown@) =~= before.push(all[k as int]));
                assert(all.take(k + 1) =~= all.take(k as int).push(all[k as int]));
            }
            k = k + 1;
        }
        assert(all.take(k as int) =~= all);
        shown
    }

    /// What is reported of the torrent: its state, and how much was downloaded where
    /// something was.
    pub fn send_torrent_controller_event(&self) -> (events: Vec<ControllerEvent>)
        requires
            blocks_in_order(self.torrent@.blocks),
        ensures
            events@.len() == if self.torrent.downloaded_window_second.0 > 0 {
                2int
            } else {
                1
            },
            forall|i: int|
                0 <= i < events@.len() ==> (#[trigger] events@[i]).hash == self.torrent.hash,
            events@[0].event is State,
            shows(events@[0].event->State_0, self.torrent@),
            self.torrent.downloaded_window_second.0 > 0 ==> events@[1].event == Event::Metric(
                Metric::DownloadWindowSecond(
                    self.torrent.downloaded_window_second.0,
                    self.torrent.downloaded_window_second.1,
                ),
            ),
    {
        let mut events: Vec<ControllerEvent> = Vec::new();
        let state = State {
            files: show_files(&self.torrent),
            blocks: show_blocks(&self.torrent),
            peers: self.show_peers(),
            downloaded_window_second: self.torrent.downloaded_window_second,
        };
        events.push(ControllerEvent { hash: self.torrent.hash, event: Event::State(state) });
        let window = self.torrent.downloaded_window_second;
        if window.0 > 0 {
            events.push(
                ControllerEvent {
                    hash: self.torrent.hash,
                    event: Event::Metric(Metric::DownloadWindowSecond(window.0, window.1)),
                },
            );
        }
        events
    }

    /// What is to be done next, after it was seen which connections came to their end: blocks
    /// are downloaded as long as some are still to come, and verified then.
    pub fn next_task(
        &mut self,
        scheduler: &mut Scheduler,
        finished: &Vec<bool>,
        now: u128,
    ) -> (task: Task)
        requires
            old(self).torrent.wf(),
            finished@.len() == old(self).torrent.peers@.len(),
            requested_before(old(self).torrent@.blocks, now),
        ensures
            final(self).torrent.wf(),
            *final(scheduler) == scheduler_after(
                *old(scheduler),
                outstanding_count(old(self).torrent@),
            ),
            if outstanding_count(old(self).torrent@) > 0 {
                &&& final(self).torrent@ == (TorrentView {
                    peers: with_reset_peers(old(self).torrent@.peers, finished@),
                    ..old(self).torrent@
                })
                &&& task is Download
                &&& (task->Download_0)@ == new_round(
                    wanted_blocks(old(self).torrent@, now, usize::MAX as int),
                    final(scheduler).end_game_mode,
                    final(scheduler).concurrent_peers as int,
                )
                &&& is_round_of((task->Download_0)@, final(self).torrent@)
            } else {
                &&& *final(self) == *old(self)
                &&& task is Verify
                &&& (task->Verify_0)@.map_values(|p: usize| p as int) == unverified_pieces(
                    old(self).torrent@,
                    PIECE_VERIFICATION_BATCH_SIZE as int,
                )
                &&& forall|k: int|
                    0 <= k < (task->Verify_0)@.len() ==> (#[trigger] (task->Verify_0)@[k])
                        < old(self).torrent.pieces@.len()
            },
    {
        let (_, round) = scheduler.enqueue_pending_blocks(
            &mut self.torrent,
            finished,
            usize::MAX,
            now,
        );
        match round {
            Some(round) => Task::Download(round),
            None => Task::Verify(self.torrent.pieces_to_verify(PIECE_VERIFICATION_BATCH_SIZE)),
        }
    }

    /// Takes in which of the pieces turned out right. The result are the files that are to be
    /// written, where some are not finished; `None` where the torrent has come to its end.
    pub fn pieces_verified(&mut self, results: &Vec<(usize, bool)>) -> (files: Option<Vec<usize>>)
        requires
            old(self).torrent.wf(),
        ensures
            final(self).torrent@ == with_verification(old(self).torrent@, results@),
            final(self).torrent.wf(),
            files is None <==> unfinished_files(final(self).torrent@).len() == 0,
            files is Some ==> files->0@ == unfinished_files(final(self).torrent@),
            files is Some ==> forall|k: int|
                0 <= k < files->0@.len() ==> (#[trigger] files->0@[k])
                    < final(self).torrent.files@.len(),
    {
        self.torrent.verify_blocks_and_files(results);
        let files = self.torrent.find_unfinished_files();
        if files.len() == 0 {
            None
        } else {
            Some(files)
        }
    }

    /// Takes in whether the piece of a block that arrived turned out right, where all of it is
    /// there. The result is the file of the block, which may be written now.
    pub fn block_checked(&mut self, id: BlockId, right: Option<bool>) -> (file_index: usize)
        requires
            old(self).torrent.wf(),
            has_block(old(self).torrent@.blocks, id),
        ensures
            final(self).torrent@ == with_check(old(self).torrent@, id.piece_index, right),
            final(self).torrent.wf(),
            file_index < final(self).torrent.files@.len(),
            exists|i: int|
                0 <= i < old(self).torrent@.blocks.len() && is_block(
                    #[trigger] old(self).torrent@.blocks[i],
                    id,
                ) && file_index == old(self).torrent@.blocks[i].file_index,
    {
        let ghost before = self.torrent@;
        if let Some(right) = right {
            let mut results: Vec<(usize, bool)> = Vec::new();
            results.push((id.piece_index, right));
            self.torrent.verify_blocks_and_files(&results);
            proof {
                assert(results@ =~= seq![(id.piece_index, right)]);
                verification_keeps_a_torrent_whole(before, results@);
            }
        }
        let ghost checked = self.torrent@;
        match self.torrent.find_block(id) {
            Some(i) => {
                assert(checked.blocks[i as int] == self.torrent.blocks@[i as int]@);
                assert(is_block(before.blocks[i as int], id));
                self.torrent.blocks[i].file_index
            },
            None => {
                proof {
                    let i = choose|i: int|
                        0 <= i < before.blocks.len() && is_block(#[trigger] before.blocks[i], id);
                    assert(is_block(checked.blocks[i], id));
                }
                0
            },
        }
    }

    /// Closes the connections of a torrent whose files are written. The result names those
    /// that are told to shut down.
    pub fn cleanup(&mut self) -> (open: Vec<usize>)
        requires
            old(self).torrent.wf(),
            forall|f: int|
                0 <= f < old(self).torrent@.files.len() ==> (
                #[trigger] old(self).torrent@.files[f]).path is Some,
        ensures
            open@ == open_connections(old(self).torrent@.peers),
            final(self).torrent@ == (TorrentView {
                peers: closed_peers(old(self).torrent@.peers),
                ..old(self).torrent@
            }),
            final(self).torrent.wf(),
    {
        self.torrent.close_connections()
    }
}

} // verus!
