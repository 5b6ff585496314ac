//! A torrent that is downloaded without verifying its pieces.

use vstd::prelude::*;
use vstd::string::*;

use crate::bencode::{peer_views as peer_info_views, MetaInfo, MetaInfoView, PeerInfo};
use crate::layout::{
    all_blocks_of_a_file_make_it_up, covers, cuts_of_file, file_blocks_cover_the_file,
    piece_length_at, pieces_are_as_long_as_the_files, torrent_blocks, total_length,
};
use crate::path::{join_path, joined};
use crate::peer;
use crate::round::{new_round, Round, RoundView};
use crate::select::{chosen, lemma_chosen};
use crate::swarm::{bits_fit, has_peer, is_at, with_peers, PeerView};
use crate::torrent::event_processor::{after_event, can_follow_from, process_event, BlockData};
use crate::torrent::models::{
    a_frame_stays_whole, has_block, is_block, is_persisted, piece_views, same_frame, BlockId,
    FileView, PieceView, Torrent, TorrentView,
};
use crate::torrent::scheduler::{
    closed_peers, count_outstanding, find_wanted, is_round_of, open_connections,
    outstanding_count, requested_before, scheduler_after, wanted_blocks, with_request, Scheduler,
    END_GAME_BLOCKS, END_GAME_CONCURRENT_PEERS,
};
use crate::torrent::state::{
    can_be_laid_out, file_lengths, files_list_their_blocks_by_name, plain_torrent,
};
use crate::torrent::tracker::{
    announce_query, http_announce_url, name_peers, named_by, parsed_url, url_with_query,
    TrackerError, MAX_URL_LENGTH,
};
use crate::torrent::writer::{
    block_path, is_awaited, source_views, sources_of, with_arrived_block, BlockSource,
};

verus! {

/// The port that is announced.
pub const CLIENT_PORT: u16 = 12457;

/// The number of blocks of a round.
pub const MAX_CONCURRENT_BLOCKS: usize = 500;

/// The control of a torrent.
#[derive(Debug)]
pub struct Controller {
    pub torrent: Torrent,
    /// The peers were asked for.
    pub announced: bool,
}

/// What is shown of a torrent.
#[derive(Debug, Clone, Copy)]
pub struct State {
    pub files_total: usize,
    pub files_completed: usize,
    pub blocks_total: usize,
    pub blocks_completed: usize,
    pub peers_total: usize,
    pub peers_connected: usize,
    pub downloaded_window_second: (u64, usize),
}

/// What a torrent can be told to do.
#[derive(Debug, Clone, Copy, PartialEq, Eq, Structural)]
pub enum ControlCommand {
    Start,
    Pause,
    Stop,
}

/// What is measured of a torrent.
#[derive(Debug, Clone, Copy, PartialEq, Eq, Structural)]
pub enum Metric {
    /// A second, and the number of bytes that came within it.
    DownloadWindowSecond(u64, usize),
}

/// What is reported of a torrent.
#[derive(Debug, Clone, Copy)]
pub enum Event {
    State(State),
    Metric(Metric),
}

/// What is reported of a torrent, and which it is.
#[derive(Debug)]
pub struct ControllerEvent {
    pub hash: [u8; 20],
    pub event: Event,
}

/// The length of the first `k` pieces together.
pub open spec fn pieces_length(pieces: Seq<PieceView>, k: int) -> int
    decreases k,
{
    if k <= 0 {
        0
    } else {
        pieces_length(pieces, k - 1) + pieces[k - 1].length
    }
}

/// The blocks of a file whose data is on disk, in the order of their places.
pub open spec fn stored_blocks(t: TorrentView, f: int) -> Seq<usize> {
    chosen(
        t.blocks.len() as int,
        |i: int| t.blocks[i].file_index == f && is_persisted(t.blocks[i].data_status),
    )
}

/// As many blocks of the file are on disk as it lists.
pub open spec fn file_is_there(t: TorrentView, f: int) -> bool {
    stored_blocks(t, f).len() == t.files[f].block_ids.len()
}

/// All files are written.
pub open spec fn all_written(files: Seq<FileView>) -> bool {
    forall|f: int| 0 <= f < files.len() ==> (#[trigger] files[f]).path is Some
}

/// Blocks are in files of their own.
pub open spec fn stored_separately(t: TorrentView) -> bool {
    forall|i: int|
        0 <= i < t.blocks.len() ==> !((#[trigger] t.blocks[i]).data_status is PersistedInFile)
}

/// Blocks stay in files of their own from the start on: when peers report, when blocks arrive
/// and when they are requested.
pub proof fn blocks_stay_apart(
    t: TorrentView,
    k: int,
    event: peer::EventView,
    id: BlockId,
    round: RoundView,
    sent: bool,
    now: u128,
)
    requires
        stored_separately(t),
        is_round_of(round, t),
        0 < round.next_block <= round.blocks.len(),
    ensures
        stored_separately(after_event(t, k, event)),
        stored_separately(with_arrived_block(t, id)),
        stored_separately(with_request(t, round, sent, now)),
{
    let told = after_event(t, k, event);
    assert forall|i: int| 0 <= i < told.blocks.len() implies !((
    #[trigger] told.blocks[i]).data_status is PersistedInFile) by {
        assert(told.blocks[i] == t.blocks[i]);
    }
    let arrived = with_arrived_block(t, id);
    assert forall|i: int| 0 <= i < arrived.blocks.len() implies !((
    #[trigger] arrived.blocks[i]).data_status is PersistedInFile) by {
        assert(!(t.blocks[i].data_status is PersistedInFile));
    }
    let requested = with_request(t, round, sent, now);
    assert forall|i: int| 0 <= i < requested.blocks.len() implies !((
    #[trigger] requested.blocks[i]).data_status is PersistedInFile) by {
        assert(!(t.blocks[i].data_status is PersistedInFile));
    }
}

/// A file that is to be written to this path, from the data of its blocks.
#[derive(Debug)]
pub struct FileWrite {
    pub file_index: usize,
    pub path: String,
    pub sources: Vec<BlockSource>,
}

/// What a torrent does next.
#[derive(Debug)]
pub enum Task {
    /// It goes through a round of requests.
    Download(Round),
    /// It comes to its end. The directory for its blocks is removed where all its files are
    /// written, and these connections are told to shut down.
    Stop(bool, Vec<usize>),
}

/// The peers after their connections were looked at: one that came to its end is forgotten.
pub open spec fn with_released_peers(peers: Seq<PeerView>, finished: Seq<bool>) -> Seq<PeerView> {
    Seq::new(
        peers.len(),
        |k: int|
            if peers[k].started && finished[k] {
                PeerView { started: false, ..peers[k] }
            } else {
                peers[k]
            },
    )
}

/// What is shown of the torrent: how many files, blocks and peers there are, and how many of
/// them are written, on disk and connected.
pub open spec fn counts_of(t: TorrentView) -> State {
    State {
        files_total: t.files.len() as usize,
        files_completed: chosen(
            t.files.len() as int,
            |f: int| t.files[f].path is Some,
        ).len() as usize,
        blocks_total: t.blocks.len() as usize,
        blocks_completed: chosen(
            t.blocks.len() as int,
            |i: int| is_persisted(t.blocks[i].data_status),
        ).len() as usize,
        peers_total: t.peers.len() as usize,
        peers_connected: chosen(t.peers.len() as int, |k: int| t.peers[k].connected).len() as usize,
        downloaded_window_second: t.downloaded_window_second,
    }
}

impl Controller {
    /// The control of a torrent of which nothing is there yet.
    pub fn new(meta: &MetaInfo, client_id: [u8; 20], dest_path: &str) -> (controller: Self)
        requires
            can_be_laid_out(meta@),
        ensures
            controller.torrent@ == plain_torrent(client_id@, dest_path@, meta@),
            controller.torrent.wf(),
            stored_separately(controller.torrent@),
            !controller.announced,
    {
        Controller { torrent: Torrent::new_plain(client_id, dest_path, meta), announced: false }
    }

    /// The URL that the torrent is announced to.
    pub fn announce_url(&self) -> (url: Result<String, TrackerError>)
        requires
            self.torrent@.tracker.len() <= MAX_URL_LENGTH,
        ensures
            url is Ok <==> parsed_url(self.torrent@.tracker) is Some,
            url is Ok ==> url->Ok_0@ == url_with_query(
                self.torrent@.tracker,
                announce_query(self.torrent@.hash, self.torrent@.client_id),
            ),
            url is Err ==> url->Err_0 == TrackerError::InvalidUrl,
    {
        http_announce_url(
            self.torrent.tracker.as_str(),
            &self.torrent.hash,
            &self.torrent.client_id,
        )
    }

    /// How much is announced to be left: the length of the torrent.
    pub fn left(&self) -> (left: usize)
        requires
            pieces_length(self.torrent@.pieces, self.torrent@.pieces.len() as int) <= usize::MAX,
        ensures
            left == pieces_length(self.torrent@.pieces, self.torrent@.pieces.len() as int),
    {
        let ghost pieces = self.torrent@.pieces;
        let mut left: usize = 0;
        let mut i: usize = 0;
        while i < self.torrent.pieces.len()
            invariant
                i <= self.torrent.pieces@.len(),
                pieces == self.torrent@.pieces,
                pieces_length(pieces, pieces.len() as int) <= usize::MAX,
                left == pieces_length(pieces, i as int),
            decreases self.torrent.pieces@.len() - i,
        {
            assert(pieces[i as int] == self.torrent.pieces@[i as int]@);
            proof {
                lemma_pieces_length_grows(self.torrent.pieces@, pieces, i + 1);
            }
            left = left + self.torrent.pieces[i].length;
            i = i + 1;
        }
        left
    }

    /// Takes in the peers that the tracker named. They are asked for once.
    pub fn get_announce_response(&mut self, peers: &Vec<PeerInfo>)
        requires
            old(self).torrent.wf(),
        ensures
            final(self).announced,
            final(self).torrent.wf(),
            stored_separately(old(self).torrent@) ==> stored_separately(final(self).torrent@),
            old(self).announced ==> final(self).torrent == old(self).torrent,
            !old(self).announced ==> final(self).torrent@ == (TorrentView {
                peers: with_peers(old(self).torrent@.peers, named_by(peer_info_views(peers@))),
                ..old(self).torrent@
            }),
    {
        if !self.announced {
            let named = name_peers(peers);
            self.torrent.sync_with_tracker(&named);
            self.announced = true;
        }
    }

    /// Takes in what a peer reports. The data of a block is handed back with the path that
    /// it is written to, unless it is on disk already.
    pub fn process_event(&mut self, event: peer::ControllerEvent) -> (arrived: Option<
        (BlockData, String),
    >)
        requires
            old(self).torrent.wf(),
            has_peer(old(self).torrent@.peers, event@.ip, event@.port),
            can_follow_from(old(self).torrent@, event@.ip, event@.port, event@.event),
            event@.event matches peer::EventView::Block(piece_index, begin, _) ==> has_block(
                old(self).torrent@.blocks,
                BlockId { piece_index: piece_index as usize, begin: begin as usize },
            ),
        ensures
            final(self).torrent.wf(),
            stored_separately(old(self).torrent@) ==> stored_separately(final(self).torrent@),
            final(self).announced == old(self).announced,
            exists|k: int|
                0 <= k < old(self).torrent@.peers.len() && is_at(
                    #[trigger] old(self).torrent@.peers[k],
                    event@.ip,
                    event@.port,
                ) && final(self).torrent@ == after_event(old(self).torrent@, k, event@.event),
            match event@.event {
                peer::EventView::Block(piece_index, begin, data) => {
                    let id = BlockId { piece_index: piece_index as usize, begin: begin as usize };
                    &&& arrived is Some <==> is_awaited(old(self).torrent@, id)
                    &&& arrived is Some ==> {
                        &&& (arrived->0).0.piece_index == piece_index
                        &&& (arrived->0).0.begin == begin
                        &&& (arrived->0).0.data@ == data
                        &&& (arrived->0).1@ == block_path(
                            old(self).torrent@,
                            id,
                        )
                    }
                },
                _ => arrived is None,
            },
    {
        let ghost before = self.torrent@;
        match process_event(&mut self.torrent, event) {
            Some(block) => {
                let id = BlockId { piece_index: block.piece_index, begin: block.begin };
                match self.torrent.arriving_block_path(id) {
                    Some(path) => Some((block, path)),
                    None => None,
                }
            },
            None => None,
        }
    }

    fn find_stored_blocks(&self, f: usize) -> (positions: Vec<usize>)
        ensures
            positions@ == stored_blocks(self.torrent@, f as int),
    {
        let ghost t = self.torrent@;
        let ghost wanted = |i: int|
            t.blocks[i].file_index == f && is_persisted(t.blocks[i].data_status);
        let mut positions: Vec<usize> = Vec::new();
        let mut i: usize = 0;
        while i < self.torrent.blocks.len()
            invariant
                i <= self.torrent.blocks@.len(),
                t == self.torrent@,
                wanted == (|i: int|
                    t.blocks[i].file_index == f && is_persisted(t.blocks[i].data_status)),
                positions@ == chosen(i as int, wanted),
            decreases self.torrent.blocks@.len() - i,
        {
            let block = &self.torrent.blocks[i];
            assert(t.blocks[i as int] == block@);
            let wants = block.file_index == f && block.data_status.persisted();
            assert(wants == wanted(i as int));
            if wants {
                positions.push(i);
            }
            i = i + 1;
        }
        positions
    }

    /// Takes in that the data of a block was written where it goes. The result says how its
    /// file is written, where that was the last of its blocks.
    pub fn block_written(&mut self, id: BlockId) -> (write: Option<FileWrite>)
        requires
            old(self).torrent.wf(),
            has_block(old(self).torrent@.blocks, id),
            is_awaited(old(self).torrent@, id),
            stored_separately(old(self).torrent@),
        ensures
            final(self).torrent.wf(),
            final(self).announced == old(self).announced,
            final(self).torrent@ == with_arrived_block(old(self).torrent@, id),
            stored_separately(final(self).torrent@),
            exists|i: int|
                0 <= i < old(self).torrent@.blocks.len()
                    && is_block(
                    #[trigger] old(self).torrent@.blocks[i],
                    id,
                ) && {
                    let t = final(self).torrent@;
                    let f = t.blocks[i].file_index;
                    &&& write is Some <==> file_is_there(t, f)
                    &&& write is Some ==> {
                        &&& write->0.file_index == f
                        &&& write->0.path@ == joined(t.dest_path, t.files[f].relative_path)
                        &&& source_views(write->0.sources@) == sources_of(t, stored_blocks(t, f))
                    }
                },
    {
        let ghost before = self.torrent@;
        self.torrent.write_block(id);
        let ghost t = self.torrent@;
        let block_count: usize = self.torrent.blocks.len();
        let found = self.torrent.find_block(id);
        proof {
            let w = choose|w: int|
                0 <= w < before.blocks.len() && is_block(
                    #[trigger] before.blocks[w],
                    id,
                );
            assert(is_block(t.blocks[w], id));
            assert(has_block(t.blocks, id));
            assert forall|i: int| 0 <= i < t.blocks.len() implies !((
            #[trigger] t.blocks[i]).data_status is PersistedInFile) by {
                assert(!(before.blocks[i].data_status is PersistedInFile));
            }
        }
        match found {
            Some(k) => {
                assert(t.blocks[k as int] == self.torrent.blocks@[k as int]@);
                assert(is_block(before.blocks[k as int], id));
                let f: usize = self.torrent.blocks[k].file_index;
                assert(t.files[f as int] == self.torrent.files@[f as int]@);
                let positions = self.find_stored_blocks(f);
                if positions.len() != self.torrent.files[f].block_ids.len() {
                    return None;
                }
                proof {
                    lemma_chosen(
                        t.blocks.len() as int,
                        |i: int|
                            t.blocks[i].file_index == f && is_persisted(t.blocks[i].data_status),
                    );
                }
                let sources = self.torrent.block_sources(&positions);
                let path = join_path(
                    self.torrent.dest_path.as_str(),
                    self.torrent.files[f].relative_path.as_str(),
                );
                Some(FileWrite { file_index: f, path, sources })
            },
            None => None,
        }
    }

    /// Takes in which connections came to their end.
    pub fn release_finished_peers(&mut self, finished: &Vec<bool>)
        requires
            old(self).torrent.wf(),
            finished@.len() == old(self).torrent.peers@.len(),
        ensures
            final(self).torrent.wf(),
            stored_separately(old(self).torrent@) ==> stored_separately(final(self).torrent@),
            final(self).announced == old(self).announced,
            final(self).torrent@ == (TorrentView {
                peers: with_released_peers(old(self).torrent@.peers, finished@),
                ..old(self).torrent@
            }),
    {
        let ghost before = self.torrent@;
        let ghost all = with_released_peers(before.peers, finished@);
        let mut k: usize = 0;
        while k < self.torrent.peers.len()
            invariant
                all == with_released_peers(before.peers, finished@),
                k <= self.torrent.peers@.len(),
                finished@.len() == self.torrent.peers@.len(),
                self.announced == old(self).announced,
                self.torrent@ == (TorrentView { peers: self.torrent@.peers, ..before }),
                self.torrent@.peers.len() == before.peers.len(),
                forall|j: int| 0 <= j < k ==> self.torrent@.peers[j] == #[trigger] all[j],
                forall|j: int|
                    k <= j < before.peers.len() ==> self.torrent@.peers[j]
                        == #[trigger] before.peers[j],
            decreases self.torrent.peers@.len() - k,
        {
            let ghost so_far = self.torrent@;
            assert(so_far.peers[k as int] == self.torrent.peers@[k as int]@);
            assert(so_far.peers[k as int] == before.peers[k as int]);
            if self.torrent.peers[k].started && finished[k] {
                self.torrent.peers[k].started = false;
            }
            proof {
                let after = self.torrent@;
                assert(after.peers[k as int] == all[k as int]);
                assert forall|j: int| 0 <= j < k implies after.peers[j] == #[trigger] all[j] by {
                    assert(after.peers[j] == so_far.peers[j]);
                }
                assert forall|j: int| k < j < before.peers.len() implies after.peers[j]
                    == #[trigger] before.peers[j] by {
                    assert(after.peers[j] == so_far.peers[j]);
                }
            }
            k = k + 1;
        }
        proof {
            assert(self.torrent@.peers =~= all);
            let after = self.torrent@;
            assert forall|i: int, j: int| 0 <= i < j < after.peers.len() implies !is_at(
                #[trigger] after.peers[i],
                (#[trigger] after.peers[j]).ip,
                after.peers[j].port,
            ) by {
                assert(!is_at(before.peers[i], before.peers[j].ip, before.peers[j].port));
            }
            assert forall|i: int| 0 <= i < after.peers.len() implies bits_fit(
                #[trigger] after.peers[i],
                after.pieces.len() as int,
            ) by {
                assert(bits_fit(before.peers[i], before.pieces.len() as int));
            }
            a_frame_stays_whole(before, after);
        }
    }

    /// Counts the blocks whose data is still to come. Where there are some, a round begins;
    /// where there are few, the end game does.
    pub fn enqueue_pending_blocks_to_peers(
        &self,
        scheduler: &mut Scheduler,
        now: u128,
    ) -> (enqueued: (usize, Option<Round>))
        requires
            self.torrent.wf(),
            requested_before(self.torrent@.blocks, now),
        ensures
            enqueued.0 == outstanding_count(self.torrent@),
            *final(scheduler) == scheduler_after(*old(scheduler), enqueued.0 as nat),
            enqueued.0 == 0 ==> enqueued.1 is None,
            enqueued.0 > 0 ==> {
                &&& enqueued.1 is Some
                &&& (enqueued.1->0)@ == new_round(
                    wanted_blocks(self.torrent@, now, MAX_CONCURRENT_BLOCKS as int),
                    final(scheduler).end_game_mode,
                    final(scheduler).concurrent_peers as int,
                )
                &&& is_round_of((enqueued.1->0)@, self.torrent@)
            },
    {
        let count: usize = count_outstanding(&self.torrent);
        if count == 0 {
            return (count, None);
        }
        if count < END_GAME_BLOCKS {
            scheduler.end_game_mode = true;
            scheduler.concurrent_peers = END_GAME_CONCURRENT_PEERS;
        }
        let blocks = find_wanted(&self.torrent, now, MAX_CONCURRENT_BLOCKS);
        let round = Round::new(blocks, scheduler.end_game_mode, scheduler.concurrent_peers);
        (count, Some(round))
    }

    /// What is to be done next, after it was seen which connections came to their end.
    pub fn next_task(
        &mut self,
        scheduler: &mut Scheduler,
        finished: &Vec<bool>,
        now: u128,
    ) -> (task: Task)
        requires
            old(self).torrent.wf(),
            finished@.len() == old(self).torrent.peers@.len(),
            requested_before(old(self).torrent@.blocks, now),
        ensures
            final(self).torrent.wf(),
            stored_separately(old(self).torrent@) ==> stored_separately(final(self).torrent@),
            final(self).announced == old(self).announced,
            *final(scheduler) == scheduler_after(
                *old(scheduler),
                outstanding_count(old(self).torrent@),
            ),
            ({
                let peers = with_released_peers(old(self).torrent@.peers, finished@);
                let t = TorrentView { peers, ..old(self).torrent@ };
                if outstanding_count(old(self).torrent@) > 0 {
                    &&& final(self).torrent@ == t
                    &&& task is Download
                    &&& (task->Download_0)@ == new_round(
                        wanted_blocks(t, now, MAX_CONCURRENT_BLOCKS as int),
                        final(scheduler).end_game_mode,
                        final(scheduler).concurrent_peers as int,
                    )
                    &&& is_round_of((task->Download_0)@, t)
                } else {
                    &&& final(self).torrent@ == (TorrentView { peers: closed_peers(peers), ..t })
                    &&& task is Stop
                    &&& task->Stop_0 == all_written(t.files)
                    &&& (task->Stop_1)@ == open_connections(peers)
                }
            }),
    {
        let ghost before = self.torrent@;
        self.release_finished_peers(finished);
        assert(outstanding_count(self.torrent@) == outstanding_count(before));
        let (_, round) = self.enqueue_pending_blocks_to_peers(scheduler, now);
        match round {
            Some(round) => Task::Download(round),
            None => {
                let written = self.all_files_written();
                let open = self.torrent.close_connections();
                Task::Stop(written, open)
            },
        }
    }

    /// Whether all files are written.
    pub fn all_files_written(&self) -> (written: bool)
        ensures
            written == all_written(self.torrent@.files),
    {
        let mut f: usize = 0;
        while f < self.torrent.files.len()
            invariant
                f <= self.torrent.files@.len(),
                forall|k: int|
                    0 <= k < f ==> (#[trigger] self.torrent@.files[k]).path is Some,
            decreases self.torrent.files@.len() - f,
        {
            assert(self.torrent@.files[f as int] == self.torrent.files@[f as int]@);
            if self.torrent.files[f].path.is_none() {
                return false;
            }
            f = f + 1;
        }
        true
    }

    /// What is reported of the torrent: its state, and how much was downloaded where
    /// something was.
    pub fn send_torrent_controller_event(&self) -> (events: Vec<ControllerEvent>)
        ensures
            events@.len() == if self.torrent.downloaded_window_second.0 > 0 {
                2int
            } else {
                1
            },
            forall|i: int|
                0 <= i < events@.len() ==> (#[trigger] events@[i]).hash == self.torrent.hash,
            events@[0].event == Event::State(counts_of(self.torrent@)),
            self.torrent.downloaded_window_second.0 > 0 ==> events@[1].event == Event::Metric(
                Metric::DownloadWindowSecond(
                    self.torrent.downloaded_window_second.0,
                    self.torrent.downloaded_window_second.1,
                ),
            ),
    {
        let ghost t = self.torrent@;
        let files_total: usize = self.torrent.files.len();
        let mut files_completed: usize = 0;
        let mut f: usize = 0;
        let ghost written = |f: int| t.files[f].path is Some;
        while f < files_total
            invariant
                f <= files_total,
                t == self.torrent@,
                files_total == self.torrent.files@.len(),
                written == (|f: int| t.files[f].path is Some),
                files_completed == chosen(f as int, written).len(),
                files_completed <= f,
            decreases files_total - f,
        {
            assert(t.files[f as int] == self.torrent.files@[f as int]@);
            assert(written(f as int) == (self.torrent.files@[f as int].path is Some));
            if self.torrent.files[f].path.is_some() {
                files_completed = files_completed + 1;
            }
            f = f + 1;
        }
        let blocks_total: usize = self.torrent.blocks.len();
        let mut blocks_completed: usize = 0;
        let mut i: usize = 0;
        let ghost stored = |i: int| is_persisted(t.blocks[i].data_status);
        while i < blocks_total
            invariant
                i <= blocks_total,
                t == self.torrent@,
                blocks_total == self.torrent.blocks@.len(),
                stored == (|i: int| is_persisted(t.blocks[i].data_status)),
                blocks_completed == chosen(i as int, stored).len(),
                blocks_completed <= i,
            decreases blocks_total - i,
        {
            assert(t.blocks[i as int] == self.torrent.blocks@[i as int]@);
            let persisted = self.torrent.blocks[i].data_status.persisted();
            assert(persisted == stored(i as int));
            if persisted {
                blocks_completed = blocks_completed + 1;
            }
            i = i + 1;
        }
        let peers_total: usize = self.torrent.peers.len();
        let mut peers_connected: usize = 0;
        let mut k: usize = 0;
        let ghost connected = |k: int| t.peers[k].connected;
        while k < peers_total
            invariant
                k <= peers_total,
                t == self.torrent@,
                peers_total == self.torrent.peers@.len(),
                connected == (|k: int| t.peers[k].connected),
                peers_connected == chosen(k as int, connected).len(),
                peers_connected <= k,
            decreases peers_total - k,
        {
            assert(t.peers[k as int] == self.torrent.peers@[k as int]@);
            assert(connected(k as int) == self.torrent.peers@[k as int].connected);
            if self.torrent.peers[k].connected {
                peers_connected = peers_connected + 1;
            }
            k = k + 1;
        }
        let window = self.torrent.downloaded_window_second;
        let state = State {
            files_total,
            files_completed,
            blocks_total,
            blocks_completed,
            peers_total,
            peers_connected,
            downloaded_window_second: window,
        };
        let mut events: Vec<ControllerEvent> = Vec::new();
        events.push(ControllerEvent { hash: self.torrent.hash, event: Event::State(state) });
        if window.0 > 0 {
            events.push(
                ControllerEvent {
                    hash: self.torrent.hash,
                    event: Event::Metric(Metric::DownloadWindowSecond(window.0, window.1)),
                },
            );
        }
        events
    }
}

proof fn lemma_pieces_length_grows(
    list: Seq<crate::torrent::models::Piece>,
    pieces: Seq<PieceView>,
    k: int,
)
    requires
        pieces == piece_views(list),
        0 <= k <= pieces.len(),
    ensures
        pieces_length(pieces, k) <= pieces_length(pieces, pieces.len() as int),
    decreases pieces.len() - k,
{
    if k < pieces.len() {
        lemma_pieces_length_grows(list, pieces, k + 1);
        assert(pieces[k] == list[k]@);
    }
}

/// What is announced to be left of a new torrent is the length of its files.
pub proof fn a_new_torrent_is_all_left(client_id: Seq<u8>, dest_path: Seq<char>, meta: MetaInfoView)
    requires
        can_be_laid_out(meta),
    ensures
        ({
            let t = plain_torrent(client_id, dest_path, meta);
            pieces_length(t.pieces, t.pieces.len() as int) == total_length(
                file_lengths(meta.files),
                meta.files.len() as int,
            )
        }),
{
    let p = meta.pieces[0].length;
    let lengths = file_lengths(meta.files);
    let pieces = plain_torrent(client_id, dest_path, meta).pieces;
    pieces_are_as_long_as_the_files(p, lengths);
    lemma_same_lengths(p, lengths, pieces, pieces.len() as int);
}

proof fn lemma_same_lengths(p: int, lengths: Seq<usize>, pieces: Seq<PieceView>, k: int)
    requires
        0 <= k <= pieces.len(),
        forall|i: int|
            0 <= i < pieces.len() ==> (#[trigger] pieces[i]).length
                == piece_length_at(p, lengths, i),
    ensures
        pieces_length(pieces, k) == crate::layout::pieces_length(p, lengths, k),
    decreases k,
{
    if k > 0 {
        lemma_same_lengths(p, lengths, pieces, k - 1);
    }
}

/// A file that is there has every one of its blocks, and they are written one after another,
/// from the first byte of the file to its last.
pub proof fn a_file_that_is_there_is_written_whole(
    client_id: Seq<u8>,
    dest_path: Seq<char>,
    meta: MetaInfoView,
    t: TorrentView,
    f: int,
)
    requires
        can_be_laid_out(meta),
        meta.pieces[0].length > 0,
        same_frame(plain_torrent(client_id, dest_path, meta), t),
        t.blocks.len() <= usize::MAX,
        0 <= f < t.files.len(),
        file_is_there(t, f),
    ensures
        ({
            let cuts = cuts_of_file(meta.pieces[0].length, file_lengths(meta.files), f);
            &&& stored_blocks(t, f).len() == cuts.len()
            &&& covers(
                meta.pieces[0].length,
                cuts,
                total_length(file_lengths(meta.files), f),
                total_length(file_lengths(meta.files), f + 1),
            )
            &&& forall|k: int|
                0 <= k < cuts.len() ==> {
                    let block = t.blocks[#[trigger] stored_blocks(t, f)[k] as int];
                    &&& block.file_index == f
                    &&& block.piece_index == cuts[k].piece
                    &&& block.begin == cuts[k].begin
                    &&& block.length == cuts[k].length
                }
        }),
{
    let fresh = plain_torrent(client_id, dest_path, meta);
    let p = meta.pieces[0].length;
    let lengths = file_lengths(meta.files);
    let cuts = cuts_of_file(p, lengths, f);
    let blocks = torrent_blocks(p, lengths);
    let stored = stored_blocks(t, f);
    let wanted = |i: int| t.blocks[i].file_index == f && is_persisted(t.blocks[i].data_status);
    assert(t.files[f].block_ids == fresh.files[f].block_ids);
    files_list_their_blocks_by_name(meta, f);
    lemma_chosen(t.blocks.len() as int, wanted);
    let selected = stored.map_values(|i: usize| i as int);
    assert forall|k: int| 0 <= k < selected.len() implies 0 <= (#[trigger] selected[k])
        < blocks.len() && blocks[selected[k]].file == f by {
        assert(stored[k] < t.blocks.len() && wanted(stored[k] as int));
        assert(t.blocks[stored[k] as int].file_index == fresh.blocks[stored[k] as int].file_index);
    }
    assert forall|j: int, k: int| 0 <= j < k < selected.len() implies #[trigger] selected[j]
        < #[trigger] selected[k] by {
        assert(stored[j] < stored[k]);
    }
    all_blocks_of_a_file_make_it_up(p, lengths, f, selected);
    file_blocks_cover_the_file(p, lengths, f);
    assert forall|k: int| 0 <= k < cuts.len() implies {
        let block = t.blocks[#[trigger] stored[k] as int];
        &&& block.file_index == f
        &&& block.piece_index == cuts[k].piece
        &&& block.begin == cuts[k].begin
        &&& block.length == cuts[k].length
    } by {
        assert(blocks[selected[k]] == cuts[k]);
        let i = stored[k] as int;
        assert(t.blocks[i].file_index == fresh.blocks[i].file_index);
    }
}

} // verus!
