//! A torrent that does one thing each time it is asked.

pub mod disk_checker;
pub mod event_processor;

use vstd::prelude::*;
use vstd::string::*;

use crate::bencode::{MetaInfo, MetaInfoView};
use crate::peer_async;
use crate::select::{chosen, lemma_chosen_fewer};
use crate::swarm::PeerView;
use crate::text::same_text;
use crate::torrent::connection_views;
use crate::torrent::formatter::{get_peer_id, peer_id};
use crate::torrent::models::{is_persisted, is_whole, Torrent, TorrentView};
use crate::torrent::report::{files_shown, flagged_views, show_blocks, show_files, shows_blocks};
use crate::torrent::state::{
    is_complete, is_named, new_torrent, temp_dir, with_stored_block, with_written_file, DiskEntry,
};
use disk_checker::{found_next, lemma_found_next, DiskChecker, EventView};

verus! {

/// The control of a torrent.
#[derive(Debug)]
pub struct Controller {
    pub torrent: Torrent,
    pub peer_controllers: Vec<peer_async::Controller>,
    pub disk_checker: DiskChecker,
}

/// What is shown of a torrent.
#[derive(Debug)]
pub struct State {
    /// The files, whether they are written and whether they are verified.
    pub files: Vec<(String, bool, bool)>,
    /// The blocks, whether they are on disk and whether they are verified.
    pub blocks: Vec<(String, bool, bool)>,
    /// The peers, and whether they are connected.
    pub peers: Vec<(String, bool)>,
}

/// What is measured of a torrent.
#[derive(Debug, Clone, Copy, PartialEq, Eq, Structural)]
pub enum Metric {
    /// A second, and the number of bytes that came within it.
    DownloadWindowSecond(u64, usize),
}

/// What is reported of a torrent.
#[derive(Debug)]
pub enum Event {
    State(State),
    Metric(Metric),
}

/// What is reported of a torrent, and which it is.
#[derive(Debug)]
pub struct ControllerEvent {
    pub hash: [u8; 20],
    pub event: Event,
}

/// There is a connection to the peer.
pub open spec fn has_controller(
    controllers: Seq<peer_async::Controller>,
    ip: Seq<char>,
    port: u16,
) -> bool {
    exists|i: int|
        0 <= i < controllers.len() && (#[trigger] controllers[i]).ip@ == ip && controllers[i].port
            == port
}

/// What is shown of the peers: their names, and whether there is a connection.
pub open spec fn peers_shown(
    peers: Seq<PeerView>,
    controllers: Seq<peer_async::Controller>,
) -> Seq<(Seq<char>, bool)> {
    Seq::new(
        peers.len(),
        |k: int|
            (
                peer_id(peers[k].ip, peers[k].port),
                has_controller(controllers, peers[k].ip, peers[k].port),
            ),
    )
}

/// The state shows the torrent as it is.
pub open spec fn shows(
    state: State,
    t: TorrentView,
    controllers: Seq<peer_async::Controller>,
) -> bool {
    &&& flagged_views(state.files@) == files_shown(t.files)
    &&& shows_blocks(flagged_views(state.blocks@), t.blocks)
    &&& connection_views(state.peers@) == peers_shown(t.peers, controllers)
}

/// The control of a torrent of which nothing is known to be there, with what is on disk.
pub open spec fn is_new_controller(
    controller: Controller,
    client_id: Seq<u8>,
    dest_path: Seq<char>,
    meta: MetaInfoView,
    temp_path_entries: Vec<DiskEntry>,
    dest_path_entries: Vec<DiskEntry>,
) -> bool {
    &&& controller.torrent@ == new_torrent(client_id, dest_path, meta)
    &&& controller.torrent.wf()
    &&& controller.peer_controllers@ == Seq::<peer_async::Controller>::empty()
    &&& controller.disk_checker.temp_path@ == temp_dir(controller.torrent@)
    &&& controller.disk_checker.dest_path@ == dest_path
    &&& controller.disk_checker.temp_path_entries == temp_path_entries
    &&& controller.disk_checker.dest_path_entries == dest_path_entries
}

/// The torrent after something of it was found on disk.
pub open spec fn after_finding(t: TorrentView, event: EventView) -> TorrentView {
    match event {
        EventView::BlockPersistedSeparately(name, path) => TorrentView {
            blocks: with_stored_block(t.blocks, name, path),
            ..t
        },
        EventView::FilePersistedPermanently(f, path) => with_written_file(t, f, path),
    }
}

/// How many blocks are not known to be on disk, and how many files are not known to be
/// written.
pub open spec fn unknown_count(t: TorrentView) -> nat {
    chosen(t.blocks.len() as int, |i: int| !is_persisted(t.blocks[i].data_status)).len() + chosen(
        t.files.len() as int,
        |f: int| t.files[f].path is None,
    ).len()
}

/// Each finding leaves less to be found, so a torrent that is asked again and again takes in
/// all that is on disk and comes to an end.
pub proof fn findings_end(checker: DiskChecker, t: TorrentView)
    requires
        is_whole(t),
        t.files.len() <= usize::MAX,
    ensures
        found_next(checker, t) matches Some(found) ==> unknown_count(after_finding(t, found))
            < unknown_count(t),
{
    lemma_found_next(checker, t);
    if let Some(found) = found_next(checker, t) {
        let after = after_finding(t, found);
        let blocks_before = |i: int| !is_persisted(t.blocks[i].data_status);
        let blocks_after = |i: int| !is_persisted(after.blocks[i].data_status);
        let files_before = |f: int| t.files[f].path is None;
        let files_after = |f: int| after.files[f].path is None;
        lemma_chosen_fewer(t.blocks.len() as int, blocks_after, blocks_before);
        lemma_chosen_fewer(t.files.len() as int, files_after, files_before);
        match found {
            EventView::BlockPersistedSeparately(name, _) => {
                let i = choose|i: int|
                    0 <= i < t.blocks.len() && is_named(#[trigger] t.blocks[i], name)
                        && !is_persisted(t.blocks[i].data_status);
                assert(blocks_before(i) && !blocks_after(i));
            },
            EventView::FilePersistedPermanently(f, _) => {
                assert(files_before(f) && !files_after(f));
            },
        }
    }
}

fn controls(controllers: &Vec<peer_async::Controller>, ip: &str, port: u16) -> (controls: bool)
    ensures
        controls == has_controller(controllers@, ip@, port),
{
    let mut i: usize = 0;
    while i < controllers.len()
        invariant
            i <= controllers@.len(),
            forall|k: int|
                0 <= k < i ==> !((#[trigger] controllers@[k]).ip@ == ip@ && controllers@[k].port
                    == port),
        decreases controllers@.len() - i,
    {
        if controllers[i].port == port && same_text(controllers[i].ip.as_str(), ip) {
            return true;
        }
        i = i + 1;
    }
    false
}

impl Controller {
    /// The control of a torrent of which nothing is known to be there, with what is in the
    /// directory for its blocks and at its destination.
    pub fn new(
        client_id: [u8; 20],
        meta: &MetaInfo,
        dest_path: &str,
        temp_path_entries: Vec<DiskEntry>,
        dest_path_entries: Vec<DiskEntry>,
    ) -> (controller: Self)
        requires
            is_complete(meta@),
        ensures
            is_new_controller(
                controller,
                client_id@,
                dest_path@,
                meta@,
                temp_path_entries,
                dest_path_entries,
            ),
    {
        let torrent = Torrent::new(client_id, dest_path, meta);
        let disk_checker = DiskChecker::new(
            torrent.get_temp_dir_path(),
            dest_path.to_owned(),
            temp_path_entries,
            dest_path_entries,
        );
        Controller { torrent, peer_controllers: Vec::new(), disk_checker }
    }

    fn show_peers(&self) -> (shown: Vec<(String, bool)>)
        ensures
            connection_views(shown@) == peers_shown(
                self.torrent@.peers,
                self.peer_controllers@,
            ),
    {
        let ghost all = peers_shown(self.torrent@.peers, self.peer_controllers@);
        let mut shown: Vec<(String, bool)> = Vec::new();
        let mut k: usize = 0;
        assert(connection_views(shown@) =~= all.take(0));
        while k < self.torrent.peers.len()
            invariant
                k <= self.torrent.peers@.len(),
                all == peers_shown(self.torrent@.peers, self.peer_controllers@),
                connection_views(shown@) == all.take(k as int),
            decreases self.torrent.peers@.len() - k,
        {
            let ghost before = connection_views(shown@);
            let peer = &self.torrent.peers[k];
            assert(self.torrent@.peers[k as int] == peer@);
            let connected = controls(&self.peer_controllers, peer.ip.as_str(), peer.port);
            shown.push((get_peer_id(peer.ip.as_str(), peer.port), connected));
            proof {
                assert(connection_views(shown@) =~= before.push(all[k as int]));
                assert(all.take(k + 1) =~= all.take(k as int).push(all[k as int]));
            }
            k = k + 1;
        }
        assert(all.take(k as int) =~= all);
        shown
    }

    /// What is reported of the torrent: its state.
    pub fn get_event_from_state(&self) -> (event: Event)
        requires
            self.torrent.wf(),
        ensures
            event is State,
            shows(event->State_0, self.torrent@, self.peer_controllers@),
    {
        Event::State(
            State {
                files: show_files(&self.torrent),
                blocks: show_blocks(&self.torrent),
                peers: self.show_peers(),
            },
        )
    }

    /// Takes in what of the torrent is on disk, if anything is that was not known, and
    /// reports it.
    pub fn listen(&mut self) -> (event: Option<Event>)
        requires
            old(self).torrent.wf(),
        ensures
            final(self).torrent.wf(),
            final(self).disk_checker == old(self).disk_checker,
            final(self).peer_controllers == old(self).peer_controllers,
            match found_next(old(self).disk_checker, old(self).torrent@) {
                Some(found) => {
                    &&& final(self).torrent@ == after_finding(old(self).torrent@, found)
                    &&& event is Some
                    &&& event->0 is State
                    &&& shows(
                        event->0->State_0,
                        final(self).torrent@,
                        final(self).peer_controllers@,
                    )
                },
                None => event is None && *final(self) == *old(self),
            },
    {
        let file_count: usize = self.torrent.files.len();
        let found = self.disk_checker.sync_with_disk(&self.torrent);
        match found {
            Some(disk_checker::Event::BlockPersistedSeparately(name, path)) => {
                self.torrent.store_block(name.as_str(), path.as_str());
            },
            Some(disk_checker::Event::FilePersistedPermanently(f, path)) => {
                proof {
                    lemma_found_next(self.disk_checker, self.torrent@);
                }
                self.torrent.store_file(f, path.as_str());
            },
            None => {
                return None;
            },
        }
        Some(self.get_event_from_state())
    }

    /// Hands out the connections, each of which is to listen for a message.
    pub fn take_peer_controllers(&mut self) -> (controllers: Vec<peer_async::Controller>)
        ensures
            controllers@ == old(self).peer_controllers@,
            final(self).peer_controllers@ == Seq::<peer_async::Controller>::empty(),
            final(self).torrent == old(self).torrent,
            final(self).disk_checker == old(self).disk_checker,
    {
        let mut controllers: Vec<peer_async::Controller> = Vec::new();
        controllers.append(&mut self.peer_controllers);
        assert(controllers@ =~= old(self).peer_controllers@);
        controllers
    }

    /// What is reported after the connections have listened: the state of the torrent, where
    /// one of them had something to report.
    pub fn process_pending_peer_messages(&self, any_peer_event: bool) -> (event: Option<Event>)
        requires
            self.torrent.wf(),
        ensures
            event is Some <==> any_peer_event,
            event is Some ==> event->0 is State && shows(
                event->0->State_0,
                self.torrent@,
                self.peer_controllers@,
            ),
    {
        if any_peer_event {
            Some(self.get_event_from_state())
        } else {
            None
        }
    }
}

} // verus!
